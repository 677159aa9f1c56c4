use git_queue::codec::MetaRecord;
use git_queue::error::QueueError;
use git_queue::oid::ObjectId;
use git_queue::queue::log::QueueState;

fn oid(hex: &str) -> ObjectId {
    ObjectId::from_hex(hex.as_bytes()).unwrap()
}

const BASE: &str = "aaaaaaaaaaaaaaaaaaaaaaaaaaaaaaaaaaaaaaaa";
const P1: &str = "1111111111111111111111111111111111111111";
const P2: &str = "2222222222222222222222222222222222222222";

fn two_patch_state() -> QueueState {
    // both patches applied, the second on top
    let entry = MetaRecord {
        previous: None,
        head: oid(P2),
        base: oid(BASE),
        base_name: String::from("refs/heads/main"),
        applied: vec![String::from("first"), String::from("second")],
        unapplied: vec![],
        patches: vec![(String::from("first"), oid(P1)), (String::from("second"), oid(P2))],
    };
    QueueState::assemble(None, String::from("work"), entry)
}

#[test]
fn accessors_reflect_the_record() {
    let st = two_patch_state();
    assert_eq!(st.name(), "work");
    assert_eq!(st.gitref(), "refs/queuelogs/work");
    assert_eq!(st.base_name(), "refs/heads/main");
    assert_eq!(st.patches_num(), 2);
    assert!(st.has_patch("first"));
    assert!(st.has_patch("second"));
    assert!(!st.has_patch("third"));
    assert!(st.head() == oid(P2));
    let applied = st.applied();
    assert_eq!(applied.len(), 2);
    assert_eq!(applied[0].0, "first");
    assert!(applied[0].1 == oid(P1));
    assert_eq!(applied[1].0, "second");
    assert!(applied[1].1 == oid(P2));
    assert_eq!(st.unapplied().len(), 0);
}

#[test]
fn pop_moves_top_to_unapplied_and_head_to_new_top() {
    let mut st = two_patch_state();
    let r = st.pop(|_| -> Result<ObjectId, QueueError> { panic!("oracle must not be asked") });
    assert!(r.is_ok());
    assert_eq!(st.applied().len(), 1);
    assert_eq!(st.unapplied().len(), 1);
    assert_eq!(st.unapplied()[0].0, "second");
    assert!(st.head() == oid(P1));
}

#[test]
fn pop_of_last_applied_asks_the_oracle_for_the_parent() {
    let mut st = two_patch_state();
    st.pop(|_| -> Result<ObjectId, QueueError> { panic!("oracle must not be asked") }).unwrap();
    let r = st.pop(|popped| {
        assert!(popped == oid(P1));
        Ok(oid(BASE))
    });
    assert!(r.is_ok());
    assert_eq!(st.applied().len(), 0);
    assert_eq!(st.unapplied().len(), 2);
    assert!(st.head() == oid(BASE));
}

#[test]
fn pop_on_empty_applied_is_a_no_op() {
    let entry = MetaRecord {
        previous: None,
        head: oid(BASE),
        base: oid(BASE),
        base_name: String::from("refs/heads/main"),
        applied: vec![],
        unapplied: vec![String::from("stashed")],
        patches: vec![(String::from("stashed"), oid(P1))],
    };
    let mut st = QueueState::assemble(None, String::from("work"), entry);
    let r = st.pop(|_| -> Result<ObjectId, QueueError> { panic!("oracle must not be asked") });
    assert!(r.is_ok());
    assert_eq!(st.applied().len(), 0);
    assert_eq!(st.unapplied().len(), 1);
    assert!(st.head() == oid(BASE));
}

#[test]
fn push_on_empty_unapplied_is_a_no_op() {
    let mut st = two_patch_state();
    st.push();
    assert_eq!(st.applied().len(), 2);
    assert_eq!(st.unapplied().len(), 0);
    assert!(st.head() == oid(P2));
}

#[test]
fn push_applies_the_last_unapplied_patch() {
    let mut st = two_patch_state();
    st.pop(|_| -> Result<ObjectId, QueueError> { panic!("oracle must not be asked") }).unwrap();
    st.push();
    assert_eq!(st.applied().len(), 2);
    assert_eq!(st.applied()[1].0, "second");
    assert_eq!(st.unapplied().len(), 0);
    assert!(st.head() == oid(P2));
}

#[test]
fn rename_patch_moves_the_entry_and_the_listed_name() {
    let mut st = two_patch_state();
    st.rename_patch("second", String::from("renamed"));
    assert!(!st.has_patch("second"));
    assert!(st.has_patch("renamed"));
    assert_eq!(st.applied()[1].0, "renamed");
    assert!(st.applied()[1].1 == oid(P2));
    assert!(st.head() == oid(P2));
}

#[test]
fn upsert_patch_updates_an_existing_entry() {
    let mut st = two_patch_state();
    st.upsert_patch(String::from("first"), oid(P2));
    assert_eq!(st.patches_num(), 2);
    assert!(st.applied()[0].1 == oid(P2));
}

#[test]
fn upsert_patch_appends_a_fresh_name_to_applied() {
    let mut st = two_patch_state();
    st.upsert_patch(String::from("third"), oid(P2));
    assert_eq!(st.patches_num(), 3);
    let applied = st.applied();
    assert_eq!(applied.len(), 3);
    assert_eq!(applied[2].0, "third");
    assert!(applied[2].1 == oid(P2));
}
