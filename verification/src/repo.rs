//! The trusted boundary to the repository service.
//!
//! Everything the library knows about the object database is stated here,
//! over plain values, against the `git2` bindings to libgit2.  The object
//! database is content-addressed: an object id determines the object it
//! names, on every machine.  Three uninterpreted functions model exactly
//! that: the id a blob's content hashes to, and the tree paths and parent
//! ids that a commit id addresses.  Results that instead depend on what is
//! on disk or in the environment (refs, branches, configuration) carry no
//! such name; their wrappers state only what holds of every outcome.

use vstd::prelude::*;
use crate::error::GitError;
use crate::oid::ObjectId;

verus! {

#[verifier::external_type_specification]
#[verifier::external_body]
pub struct ExRepository(git2::Repository);

#[verifier::external_type_specification]
#[verifier::external_body]
pub struct ExConfig(git2::Config);

#[verifier::external_type_specification]
#[verifier::external_body]
pub struct ExGit2Error(git2::Error);

#[verifier::external_type_specification]
#[verifier::external_body]
pub struct ExSignature<'a>(git2::Signature<'a>);

/// The id that a blob with this content is addressed by.
pub uninterp spec fn blob_id_of(content: Seq<u8>) -> Seq<u8>;

/// The per-path entry ids of the tree addressed by this tree id.
pub uninterp spec fn tree_paths_of_id(tree_id: Seq<u8>) -> Map<Seq<char>, Seq<u8>>;

/// The per-path entry ids of the tree of the commit addressed by this id.
pub uninterp spec fn commit_tree_paths(commit_id: Seq<u8>) -> Map<Seq<char>, Seq<u8>>;

/// The parent ids, in order, of the commit addressed by this id.
pub uninterp spec fn commit_parents_of(commit_id: Seq<u8>) -> Seq<Seq<u8>>;

/// The blob file mode recorded for tree entries that carry plain files.
pub const FILEMODE_BLOB: i32 = 0o100644;

/// What HEAD names.
pub enum Head {
    /// HEAD names a branch that has no commit yet, or no ref at all.
    Unborn,
    /// HEAD is not a branch (detached, or some other ref).
    NotBranch,
    /// HEAD is a local branch; `None` when its name is not valid UTF-8.
    Branch(Option<String>),
}

/// Relies on git2::Error::raw_code, raw_class and message: the numeric code
/// and class of the underlying libgit2 error, and its text.
#[verifier::external_body]
pub(crate) fn conv_err(e: &git2::Error) -> (r: GitError)
{
    GitError {
        code: e.raw_code() as i32,
        class: e.raw_class() as i32,
        message: e.message().to_string(),
    }
}

/// Relies on git2::Repository::find_reference and Reference::peel_to_commit:
/// the id of the commit a ref resolves to; `None` exactly when the ref does
/// not exist.
#[verifier::external_body]
pub(crate) fn ref_tip(repo: &git2::Repository, refname: &str) -> (r: Result<
    Option<ObjectId>,
    git2::Error,
>)
    ensures
        match r {
            Ok(Some(id)) => id.wf(),
            _ => true,
        },
{
    let rf = match repo.find_reference(refname) {
        Ok(rf) => rf,
        Err(e) if e.code() == git2::ErrorCode::NotFound => return Ok(None),
        Err(e) => return Err(e),
    };
    let c = rf.peel_to_commit()?;
    Ok(Some(ObjectId::from_bytes(c.id().as_bytes().to_vec()).unwrap()))
}

/// Relies on git2::Repository::find_commit, Commit::tree, Tree::get_name,
/// and Repository::find_blob: the content of the blob at path `meta` of the
/// commit's tree.  `None` exactly when the tree has no such path; an entry
/// that is not a blob is an error.  The blob's content hashes to the id the
/// tree records for it.
#[verifier::external_body]
pub(crate) fn meta_blob_of_commit(repo: &git2::Repository, commit_id: &ObjectId) -> (r: Result<
    Option<Vec<u8>>,
    git2::Error,
>)
    requires
        commit_id.wf(),
    ensures
        match r {
            Ok(Some(c)) => commit_tree_paths(commit_id@).contains_key("meta"@)
                && commit_tree_paths(commit_id@)["meta"@] == blob_id_of(c@),
            Ok(None) => !commit_tree_paths(commit_id@).contains_key("meta"@),
            Err(_) => true,
        },
{
    let c = repo.find_commit(git2::Oid::from_bytes(commit_id.as_bytes()).unwrap())?;
    let tree = c.tree()?;
    let entry = match tree.get_name("meta") {
        Some(e) => e,
        None => return Ok(None),
    };
    let blob = repo.find_blob(entry.id())?;
    Ok(Some(blob.content().to_vec()))
}

/// Relies on git2::Repository::blob: it writes a blob with exactly this
/// content and returns the id that addresses it.
#[verifier::external_body]
pub(crate) fn write_blob(repo: &git2::Repository, data: &Vec<u8>) -> (r: Result<
    ObjectId,
    git2::Error,
>)
    ensures
        match r {
            Ok(id) => id.wf() && id@ == blob_id_of(data@),
            Err(_) => true,
        },
{
    let oid = repo.blob(data.as_slice())?;
    Ok(ObjectId::from_bytes(oid.as_bytes().to_vec()).unwrap())
}

/// Relies on git2::Repository::find_commit, Commit::tree,
/// Repository::treebuilder, TreeBuilder::insert and TreeBuilder::write: the
/// new tree holds the base commit's tree with the path `meta` set to the
/// given blob (at the given file mode, which this model does not track).
#[verifier::external_body]
pub(crate) fn write_entry_tree(
    repo: &git2::Repository,
    base_commit: &ObjectId,
    meta_blob: &ObjectId,
    mode: i32,
) -> (r: Result<ObjectId, git2::Error>)
    requires
        base_commit.wf(),
        meta_blob.wf(),
    ensures
        match r {
            Ok(tid) => tid.wf() && tree_paths_of_id(tid@) == commit_tree_paths(
                base_commit@,
            ).insert("meta"@, meta_blob@),
            Err(_) => true,
        },
{
    let c = repo.find_commit(git2::Oid::from_bytes(base_commit.as_bytes()).unwrap())?;
    let prev = c.tree()?;
    let mut builder = repo.treebuilder(Some(&prev))?;
    builder.insert("meta", git2::Oid::from_bytes(meta_blob.as_bytes()).unwrap(), mode)?;
    let tid = builder.write()?;
    Ok(ObjectId::from_bytes(tid.as_bytes().to_vec()).unwrap())
}

/// Relies on git2::Repository::signature, Repository::find_tree,
/// Repository::find_commit and Repository::commit: it creates a commit with
/// exactly the given tree and parents, authored and committed with the
/// configured identity, and moves the given ref to it.  The returned id
/// addresses that commit.
#[verifier::external_body]
pub(crate) fn create_commit(
    repo: &git2::Repository,
    update_ref: &str,
    message: &str,
    tree_id: &ObjectId,
    parent_ids: &Vec<ObjectId>,
) -> (r: Result<ObjectId, git2::Error>)
    requires
        tree_id.wf(),
        forall|i: int| 0 <= i < parent_ids@.len() ==> (#[trigger] parent_ids@[i]).wf(),
    ensures
        match r {
            Ok(id) => {
                &&& id.wf()
                &&& commit_tree_paths(id@) == tree_paths_of_id(tree_id@)
                &&& commit_parents_of(id@).len() == parent_ids@.len()
                &&& forall|i: int| 0 <= i < parent_ids@.len() ==> commit_parents_of(id@)[i]
                    == parent_ids@[i]@
            },
            Err(_) => true,
        },
{
    let sig = repo.signature()?;
    let tree = repo.find_tree(git2::Oid::from_bytes(tree_id.as_bytes()).unwrap())?;
    let mut parents = Vec::with_capacity(parent_ids.len());
    for pid in parent_ids.iter() {
        parents.push(repo.find_commit(git2::Oid::from_bytes(pid.as_bytes()).unwrap())?);
    }
    let refs: Vec<&git2::Commit<'_>> = parents.iter().collect();
    let id = repo.commit(Some(update_ref), &sig, &sig, message, &tree, &refs)?;
    Ok(ObjectId::from_bytes(id.as_bytes().to_vec()).unwrap())
}

/// Relies on git2::Repository::find_commit and Commit::parent_id: the first
/// parent of the commit this id addresses; an error when it has none.
#[verifier::external_body]
pub(crate) fn first_parent(repo: &git2::Repository, commit_id: &ObjectId) -> (r: Result<
    ObjectId,
    git2::Error,
>)
    requires
        commit_id.wf(),
    ensures
        match r {
            Ok(p) => p.wf() && commit_parents_of(commit_id@).len() > 0 && p@ == commit_parents_of(
                commit_id@,
            )[0],
            Err(_) => true,
        },
{
    let c = repo.find_commit(git2::Oid::from_bytes(commit_id.as_bytes()).unwrap())?;
    let p = c.parent_id(0)?;
    Ok(ObjectId::from_bytes(p.as_bytes().to_vec()).unwrap())
}

/// Relies on git2::Repository::find_commit and Repository::branch: it
/// creates a local branch of the given name at the target commit.
#[verifier::external_body]
pub(crate) fn create_branch(
    repo: &git2::Repository,
    name: &str,
    target: &ObjectId,
    force: bool,
) -> (r: Result<(), git2::Error>)
    requires
        target.wf(),
{
    let c = repo.find_commit(git2::Oid::from_bytes(target.as_bytes()).unwrap())?;
    repo.branch(name, &c, force)?;
    Ok(())
}

/// Relies on git2::Repository::find_branch: whether the local branch exists;
/// `None` exactly when it does not.
#[verifier::external_body]
pub(crate) fn find_local_branch(repo: &git2::Repository, name: &str) -> (r: Result<
    Option<()>,
    git2::Error,
>)
{
    match repo.find_branch(name, git2::BranchType::Local) {
        Ok(_) => Ok(Some(())),
        Err(e) if e.code() == git2::ErrorCode::NotFound => Ok(None),
        Err(e) => Err(e),
    }
}

/// Relies on git2::Repository::find_branch and Branch::is_head: whether HEAD
/// points at this local branch.
#[verifier::external_body]
pub(crate) fn branch_is_head(repo: &git2::Repository, name: &str) -> (r: Result<
    bool,
    git2::Error,
>)
{
    let b = repo.find_branch(name, git2::BranchType::Local)?;
    Ok(b.is_head())
}

/// Relies on git2::Repository::find_branch and Branch::delete: it deletes
/// the local branch's ref.
#[verifier::external_body]
pub(crate) fn delete_branch(repo: &git2::Repository, name: &str) -> (r: Result<(), git2::Error>)
{
    let mut b = repo.find_branch(name, git2::BranchType::Local)?;
    b.delete()
}

/// Relies on git2::Repository::find_reference and Reference::delete: it
/// deletes the ref; `false` when the ref was already gone.
#[verifier::external_body]
pub(crate) fn delete_ref(repo: &git2::Repository, refname: &str) -> (r: Result<
    bool,
    git2::Error,
>)
{
    let mut rf = match repo.find_reference(refname) {
        Ok(rf) => rf,
        Err(e) if e.code() == git2::ErrorCode::NotFound => return Ok(false),
        Err(e) => return Err(e),
    };
    rf.delete()?;
    Ok(true)
}

/// Relies on git2::Repository::head, Reference::is_branch and Branch::name:
/// what HEAD names right now.
#[verifier::external_body]
pub(crate) fn head_state(repo: &git2::Repository) -> (r: Result<Head, git2::Error>)
{
    let head = match repo.head() {
        Ok(h) => h,
        Err(e)
            if matches!(e.code(), git2::ErrorCode::NotFound | git2::ErrorCode::UnbornBranch)
            => return Ok(Head::Unborn),
        Err(e) => return Err(e),
    };
    if !head.is_branch() {
        return Ok(Head::NotBranch);
    }
    let name = git2::Branch::wrap(head).name()?.map(|s| s.to_string());
    Ok(Head::Branch(name))
}

/// Relies on git2::Repository::head and Reference::peel_to_commit: the id
/// of the commit HEAD resolves to; an error when HEAD is unborn.
#[verifier::external_body]
pub(crate) fn head_commit(repo: &git2::Repository) -> (r: Result<ObjectId, git2::Error>)
    ensures
        match r {
            Ok(id) => id.wf(),
            Err(_) => true,
        },
{
    let c = repo.head()?.peel_to_commit()?;
    Ok(ObjectId::from_bytes(c.id().as_bytes().to_vec()).unwrap())
}

/// Relies on git2::Repository::find_reference, Reference::peel_to_tree,
/// Repository::checkout_tree and Repository::set_head: it checks the ref's
/// tree out into the working directory (merge conflict style when asked)
/// and points HEAD at the ref.
#[verifier::external_body]
pub(crate) fn checkout_ref(repo: &git2::Repository, refname: &str, merge: bool) -> (r: Result<
    (),
    git2::Error,
>)
{
    let rf = repo.find_reference(refname)?;
    let tree = rf.peel_to_tree()?;
    let mut opts = git2::build::CheckoutBuilder::new();
    opts.conflict_style_merge(merge);
    repo.checkout_tree(tree.as_object(), Some(&mut opts))?;
    repo.set_head(refname)
}

/// Relies on git2::Repository::branches and Branch::name: the names of all
/// local branches, `None` standing for a name that is not valid UTF-8.
#[verifier::external_body]
pub(crate) fn local_branch_names(repo: &git2::Repository) -> (r: Result<
    Vec<Option<String>>,
    git2::Error,
>)
{
    let mut out = Vec::new();
    for item in repo.branches(Some(git2::BranchType::Local))? {
        let (b, _) = item?;
        out.push(b.name()?.map(|s| s.to_string()));
    }
    Ok(out)
}

/// Relies on git2::Repository::find_commit, Repository::signature,
/// Repository::find_tree and Commit::amend: it recomposes the commit with
/// the optional new message and tree, keeps the author, copies the parents
/// of the amended commit unchanged, recomputes the committer from the
/// configured identity, and moves the given ref to the new commit, whose id
/// it returns.
#[verifier::external_body]
pub(crate) fn amend_commit(
    repo: &git2::Repository,
    refname: &str,
    commit_id: &ObjectId,
    message: Option<&str>,
    tree_id: Option<&ObjectId>,
) -> (r: Result<ObjectId, git2::Error>)
    requires
        commit_id.wf(),
        match tree_id {
            Some(t) => t.wf(),
            None => true,
        },
    ensures
        match r {
            Ok(id) => {
                &&& id.wf()
                &&& commit_parents_of(id@) == commit_parents_of(commit_id@)
                &&& commit_tree_paths(id@) == match tree_id {
                    Some(t) => tree_paths_of_id(t@),
                    None => commit_tree_paths(commit_id@),
                }
            },
            Err(_) => true,
        },
{
    let c = repo.find_commit(git2::Oid::from_bytes(commit_id.as_bytes()).unwrap())?;
    let sig = repo.signature()?;
    let tree = match tree_id {
        Some(t) => Some(repo.find_tree(git2::Oid::from_bytes(t.as_bytes()).unwrap())?),
        None => None,
    };
    let id = c.amend(Some(refname), None, Some(&sig), None, message, tree.as_ref())?;
    Ok(ObjectId::from_bytes(id.as_bytes().to_vec()).unwrap())
}

/// Relies on git2::Repository::config: the repository's configuration.
#[verifier::external_body]
pub(crate) fn repo_config(repo: &git2::Repository) -> (r: Result<git2::Config, git2::Error>)
{
    repo.config()
}

/// Relies on git2::Repository::signature: the configured identity, owned;
/// an error when none is configured.
#[verifier::external_body]
pub(crate) fn get_signature(repo: &git2::Repository) -> (r: Result<
    git2::Signature<'static>,
    git2::Error,
>)
{
    repo.signature()
}

/// Relies on git2::Config::get_string: the configured value of the key, if
/// any.
#[verifier::external_body]
pub(crate) fn config_get(config: &git2::Config, key: &str) -> (r: Option<String>)
{
    config.get_string(key).ok()
}

} // verus!
