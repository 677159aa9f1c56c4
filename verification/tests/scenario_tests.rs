use git_queue::cli::{close_one, EX_USAGE};
use git_queue::ctx::Ctx;
use git_queue::error::QueueError;
use git_queue::oid::ObjectId;
use git_queue::queue::log::QueueState;
use git_queue::queue::Queue;
use std::time::{SystemTime, UNIX_EPOCH};

fn fresh_repo(tag: &str) -> git2::Repository {
    let nanos = SystemTime::now().duration_since(UNIX_EPOCH).unwrap().as_nanos();
    let dir = format!("/tmp/git_queue_{}_{}", tag, nanos);
    let repo = git2::Repository::init(&dir).unwrap();
    {
        let mut cfg = repo.config().unwrap();
        cfg.set_str("user.name", "Tester").unwrap();
        cfg.set_str("user.email", "tester@example.com").unwrap();
    }
    {
        let sig = repo.signature().unwrap();
        let tree_id = repo.index().unwrap().write_tree().unwrap();
        let tree = repo.find_tree(tree_id).unwrap();
        repo.commit(Some("refs/heads/main"), &sig, &sig, "initial", &tree, &[]).unwrap();
    }
    repo.set_head("refs/heads/main").unwrap();
    repo
}

fn lib_oid(oid: git2::Oid) -> ObjectId {
    ObjectId::from_bytes(oid.as_bytes().to_vec()).unwrap()
}

#[test]
fn initialize_from_empty_creates_branch_and_log() {
    let repo = fresh_repo("init");
    let c0 = repo.refname_to_id("refs/heads/main").unwrap();
    let ctx = Ctx::from_repo(repo).unwrap();
    let q = Queue::initialize(&ctx, "work", "main").unwrap().unwrap();
    assert_eq!(q.name(), "work");
    assert_eq!(q.base_name(), "refs/heads/main");
    assert_eq!(ctx.repo().refname_to_id("refs/heads/queues/work").unwrap(), c0);

    let l0 = ctx.repo().refname_to_id("refs/queuelogs/work").unwrap();
    let entry = ctx.repo().find_commit(l0).unwrap();
    assert_eq!(entry.parent_count(), 1);
    assert_eq!(entry.parent_id(0).unwrap(), c0);

    let tree = entry.tree().unwrap();
    let meta = tree.get_name("meta").unwrap();
    let blob = ctx.repo().find_blob(meta.id()).unwrap();
    let h = c0.to_string();
    let expected = format!(
        "{{\"version\":1,\"head\":\"{h}\",\"base_name\":\"refs/heads/main\",\"base\":\"{h}\",\"applied\":[],\"unapplied\":[],\"patches\":{{}}}}"
    );
    assert_eq!(blob.content(), expected.as_bytes());

    let st = QueueState::current_for_queue(ctx.repo(), "work").unwrap();
    assert_eq!(st.head().to_hex(), h.as_bytes().to_vec());
    assert_eq!(st.patches_num(), 0);
}

#[test]
fn duplicate_initialize_returns_none_and_touches_nothing() {
    let repo = fresh_repo("dup");
    let ctx = Ctx::from_repo(repo).unwrap();
    assert!(Queue::initialize(&ctx, "work", "main").unwrap().is_some());
    let l0 = ctx.repo().refname_to_id("refs/queuelogs/work").unwrap();
    let again = Queue::initialize(&ctx, "work", "main").unwrap();
    assert!(again.is_none());
    assert_eq!(ctx.repo().refname_to_id("refs/queuelogs/work").unwrap(), l0);
}

#[test]
fn switch_moves_head_to_the_queue_branch() {
    let repo = fresh_repo("switch");
    let ctx = Ctx::from_repo(repo).unwrap();
    let q = Queue::initialize(&ctx, "work", "main").unwrap().unwrap();
    assert_eq!(q.is_current().unwrap(), false);
    q.switch_to(false).unwrap();
    assert_eq!(ctx.repo().head().unwrap().name().unwrap(), "refs/heads/queues/work");
    assert_eq!(q.is_current().unwrap(), true);
}

#[test]
fn close_empty_queue_deletes_both_refs() {
    let repo = fresh_repo("close");
    let ctx = Ctx::from_repo(repo).unwrap();
    let q = Queue::initialize(&ctx, "work", "main").unwrap().unwrap();
    q.close().unwrap();
    assert!(ctx.repo().refname_to_id("refs/heads/queues/work").is_err());
    assert!(ctx.repo().refname_to_id("refs/queuelogs/work").is_err());
    assert!(Queue::for_queue(&ctx, "work").unwrap().is_none());
}

#[test]
fn close_of_the_current_queue_is_a_usage_failure() {
    let repo = fresh_repo("close_cur");
    let ctx = Ctx::from_repo(repo).unwrap();
    let q = Queue::initialize(&ctx, "work", "main").unwrap().unwrap();
    q.switch_to(false).unwrap();
    let e = close_one(q, false).err().unwrap();
    assert_eq!(e.code, EX_USAGE);
    assert!(ctx.repo().refname_to_id("refs/heads/queues/work").is_ok());
    assert!(ctx.repo().refname_to_id("refs/queuelogs/work").is_ok());
}

#[test]
fn a_manually_deleted_log_surfaces_as_inconsistency() {
    let repo = fresh_repo("incons");
    let ctx = Ctx::from_repo(repo).unwrap();
    assert!(Queue::initialize(&ctx, "work", "main").unwrap().is_some());
    ctx.repo().find_reference("refs/queuelogs/work").unwrap().delete().unwrap();
    let items = Queue::list(&ctx).unwrap();
    assert_eq!(items.len(), 1);
    match &items[0] {
        Err(QueueError::Inconsistency(area)) => assert_eq!(*area, "queuelog"),
        _ => panic!("expected an inconsistency entry"),
    }
    // and for_queue reports the same
    match Queue::for_queue(&ctx, "work") {
        Err(QueueError::Inconsistency(area)) => assert_eq!(area, "queuelog"),
        _ => panic!("expected an inconsistency"),
    }
}

#[test]
fn create_next_appends_an_entry_changing_only_meta() {
    let repo = fresh_repo("next");
    let ctx = Ctx::from_repo(repo).unwrap();
    let c0 = ctx.repo().refname_to_id("refs/heads/main").unwrap();
    Queue::initialize(&ctx, "work", "main").unwrap().unwrap();
    let l0 = ctx.repo().refname_to_id("refs/queuelogs/work").unwrap();

    let st = QueueState::current_for_queue(ctx.repo(), "work").unwrap();
    let patch_commit = lib_oid(c0);
    let (st2, count) = st
        .create_next(ctx.repo(), "track patch x", |mut s: QueueState| {
            s.upsert_patch(String::from("x"), patch_commit);
            Ok((s, 41usize + 1))
        })
        .unwrap();
    assert_eq!(count, 42);
    assert_eq!(st2.patches_num(), 1);
    assert!(st2.has_patch("x"));

    // the ref moved to a new entry whose parents pin everything
    let l1 = ctx.repo().refname_to_id("refs/queuelogs/work").unwrap();
    assert_ne!(l1, l0);
    let entry = ctx.repo().find_commit(l1).unwrap();
    assert_eq!(entry.parent_count(), 3);
    assert_eq!(entry.parent_id(0).unwrap(), l0);
    assert_eq!(entry.parent_id(1).unwrap(), c0); // HEAD at commit time
    assert_eq!(entry.parent_id(2).unwrap(), c0); // the tracked patch

    // the tree changed at exactly one path
    let t0 = ctx.repo().find_commit(l0).unwrap().tree().unwrap();
    let t1 = entry.tree().unwrap();
    assert_ne!(t0.get_name("meta").unwrap().id(), t1.get_name("meta").unwrap().id());
    assert_eq!(t0.len(), t1.len());
    for e in t0.iter() {
        let name = e.name().unwrap();
        if name != "meta" {
            assert_eq!(t1.get_name(name).unwrap().id(), e.id());
        }
    }

    // reading the queue back yields the appended state
    let st3 = QueueState::current_for_queue(ctx.repo(), "work").unwrap();
    assert!(st3.has_patch("x"));
    let applied = st3.applied();
    assert_eq!(applied.len(), 1);
    assert_eq!(applied[0].0, "x");
    assert_eq!(applied[0].1.to_hex(), c0.to_string().as_bytes().to_vec());
}

#[test]
fn a_mutation_that_breaks_the_invariant_does_not_move_the_log() {
    let repo = fresh_repo("guard");
    let ctx = Ctx::from_repo(repo).unwrap();
    Queue::initialize(&ctx, "work", "main").unwrap().unwrap();
    let l0 = ctx.repo().refname_to_id("refs/queuelogs/work").unwrap();
    let st = QueueState::current_for_queue(ctx.repo(), "work").unwrap();
    let bogus = ObjectId::from_hex(b"1111111111111111111111111111111111111111").unwrap();
    let r = st.create_next(ctx.repo(), "break it", |mut s: QueueState| {
        // a fresh patch whose commit is not the head leaves the head stale
        s.upsert_patch(String::from("x"), bogus);
        Ok((s, ()))
    });
    assert!(matches!(r, Err(QueueError::Inconsistency(_))));
    assert_eq!(ctx.repo().refname_to_id("refs/queuelogs/work").unwrap(), l0);
}

#[test]
fn amend_rewrites_the_patch_commit_and_its_ref() {
    let repo = fresh_repo("amend");
    let ctx = Ctx::from_repo(repo).unwrap();
    let c0 = ctx.repo().refname_to_id("refs/heads/main").unwrap();
    // the patch is a child of the initial commit
    let c1 = {
        let sig = ctx.repo().signature().unwrap();
        let tree_id = ctx.repo().index().unwrap().write_tree().unwrap();
        let tree = ctx.repo().find_tree(tree_id).unwrap();
        let parent = ctx.repo().find_commit(c0).unwrap();
        ctx.repo()
            .commit(None, &sig, &sig, "patch x", &tree, &[&parent])
            .unwrap()
    };
    ctx.repo().reference("refs/patches/work/x", c1, false, "patch").unwrap();

    let mut p = git_queue::queue::patch::Patch::from_name(ctx.repo(), "work", "x").unwrap().unwrap();
    assert_eq!(p.name(), "x");
    assert_eq!(p.ref_name(), "refs/patches/work/x");
    assert_eq!(p.id().to_hex(), c1.to_string().as_bytes().to_vec());

    let mut spec = git_queue::queue::patch::PatchAmend::default();
    spec.set_message(String::from("amended message"));
    let new_id = p.amend(&spec, ctx.repo()).unwrap();
    assert!(!(new_id == lib_oid(c1)));
    let moved = ctx.repo().refname_to_id("refs/patches/work/x").unwrap();
    assert_eq!(moved, git2::Oid::from_bytes(new_id.as_bytes()).unwrap());
    let amended = ctx.repo().find_commit(moved).unwrap();
    assert_eq!(amended.message().unwrap(), "amended message");
    // the parents and the tree come over from the amended commit
    assert_eq!(amended.parent_count(), 1);
    assert_eq!(amended.parent_id(0).unwrap(), c0);
    assert_eq!(amended.tree_id(), ctx.repo().find_commit(c1).unwrap().tree_id());

    assert!(git_queue::queue::patch::Patch::from_name(ctx.repo(), "work", "missing").unwrap().is_none());
}

#[test]
fn current_follows_head() {
    let repo = fresh_repo("current");
    let ctx = Ctx::from_repo(repo).unwrap();
    let q = Queue::initialize(&ctx, "work", "main").unwrap().unwrap();
    assert!(Queue::current(&ctx).unwrap().is_none());
    q.switch_to(false).unwrap();
    let cur = Queue::current(&ctx).unwrap().unwrap();
    assert_eq!(cur.name(), "work");
    assert_eq!(ctx.current_branch().unwrap().unwrap(), "queues/work");
}

#[test]
fn pop_through_the_oracle_moves_head_to_the_parent() {
    let repo = fresh_repo("pop");
    let ctx = Ctx::from_repo(repo).unwrap();
    let c0 = ctx.repo().refname_to_id("refs/heads/main").unwrap();
    Queue::initialize(&ctx, "work", "main").unwrap().unwrap();
    let l0 = ctx.repo().refname_to_id("refs/queuelogs/work").unwrap();

    // a child commit of the base, serving as the applied patch
    let c1 = {
        let sig = ctx.repo().signature().unwrap();
        let tree_id = ctx.repo().index().unwrap().write_tree().unwrap();
        let tree = ctx.repo().find_tree(tree_id).unwrap();
        let parent = ctx.repo().find_commit(c0).unwrap();
        ctx.repo()
            .commit(Some("refs/heads/main"), &sig, &sig, "patch x", &tree, &[&parent])
            .unwrap()
    };
    assert_eq!(
        git_queue::queue::log::parent_of(ctx.repo(), &lib_oid(c1)).unwrap().to_hex(),
        c0.to_string().as_bytes().to_vec()
    );

    // record the patch as applied, with the head on it
    let st = QueueState::current_for_queue(ctx.repo(), "work").unwrap();
    let entry = git_queue::codec::MetaRecord {
        previous: Some(lib_oid(l0)),
        head: lib_oid(c1),
        base: lib_oid(c0),
        base_name: String::from("refs/heads/main"),
        applied: vec![String::from("x")],
        unapplied: vec![],
        patches: vec![(String::from("x"), lib_oid(c1))],
    };
    let (st2, ()) = st
        .create_next(ctx.repo(), "apply patch x", move |_s: QueueState| {
            Ok((QueueState::assemble(None, String::from("work"), entry), ()))
        })
        .unwrap();
    assert!(st2.has_patch("x"));

    // pop it: the applied series empties and the head becomes its parent
    let (st3, ()) = st2
        .create_next(ctx.repo(), "pop patch x", |mut s: QueueState| {
            s.pop(|popped| git_queue::queue::log::parent_of(ctx.repo(), &popped))?;
            Ok((s, ()))
        })
        .unwrap();
    assert_eq!(st3.applied().len(), 0);
    assert_eq!(st3.unapplied().len(), 1);
    assert_eq!(st3.head().to_hex(), c0.to_string().as_bytes().to_vec());

    // the new state round-trips through the log
    let back = QueueState::current_for_queue(ctx.repo(), "work").unwrap();
    assert_eq!(back.head().to_hex(), c0.to_string().as_bytes().to_vec());
    assert_eq!(back.unapplied()[0].0, "x");
}

#[test]
fn close_refuses_a_queue_with_patches_also_under_force() {
    let repo = fresh_repo("force");
    let ctx = Ctx::from_repo(repo).unwrap();
    let c0 = ctx.repo().refname_to_id("refs/heads/main").unwrap();
    Queue::initialize(&ctx, "work", "main").unwrap().unwrap();
    let st = QueueState::current_for_queue(ctx.repo(), "work").unwrap();
    let patch_commit = lib_oid(c0);
    st.create_next(ctx.repo(), "track patch x", |mut s: QueueState| {
        s.upsert_patch(String::from("x"), patch_commit);
        Ok((s, ()))
    })
    .unwrap();

    let q = Queue::for_queue(&ctx, "work").unwrap().unwrap();
    assert!(!q.can_close());
    let e = close_one(q, true).err().unwrap();
    assert_eq!(e.code, EX_USAGE);
    assert!(ctx.repo().refname_to_id("refs/heads/queues/work").is_ok());
    assert!(ctx.repo().refname_to_id("refs/queuelogs/work").is_ok());
}

#[test]
fn close_takes_the_queues_in_argument_order() {
    let repo = fresh_repo("order");
    let ctx = Ctx::from_repo(repo).unwrap();
    Queue::initialize(&ctx, "one", "main").unwrap().unwrap();
    let two = Queue::initialize(&ctx, "two", "main").unwrap().unwrap();
    two.switch_to(false).unwrap();

    // `one` is closed first; `two`, being current, refuses and stays
    let e = git_queue::cli::close(
        &ctx,
        vec![String::from("one"), String::from("two")],
        false,
    )
    .err()
    .unwrap();
    assert_eq!(e.code, EX_USAGE);
    assert!(ctx.repo().refname_to_id("refs/heads/queues/one").is_err());
    assert!(ctx.repo().refname_to_id("refs/queuelogs/one").is_err());
    assert!(ctx.repo().refname_to_id("refs/heads/queues/two").is_ok());
    assert!(ctx.repo().refname_to_id("refs/queuelogs/two").is_ok());
}
