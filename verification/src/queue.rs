//! Queues: the user-facing façade and its supporting machinery.

pub mod log;
pub mod patch;

use vstd::prelude::*;
use vstd::string::*;
use crate::error::{QueueError, GitError, GIT_CODE_EXISTS, GIT_CODE_INVALID_SPEC, GIT_CODE_NOT_FOUND, GIT_CLASS_REFERENCE};
use crate::ctx::Ctx;
use crate::codec::enc_meta;
use crate::queue::log::QueueState;
use crate::repo::{blob_id_of, branch_is_head, checkout_ref, commit_parents_of, commit_tree_paths, create_branch, delete_branch, delete_ref, find_local_branch, local_branch_names, ref_tip, conv_err, Head, head_state};

verus! {

/// A queue: a user-facing branch bound to its state log.
pub struct Queue<'r> {
    repo: &'r git2::Repository,
    state: QueueState,
}

impl<'r> View for Queue<'r> {
    type V = crate::queue::log::QueueStateView;

    closed spec fn view(&self) -> crate::queue::log::QueueStateView {
        self.state@
    }
}

/// The suffix of a branch name under the `queues/` namespace; `None` exactly
/// when the name does not begin with it.
fn queue_suffix(name: &str) -> (r: Option<String>)
    ensures
        match r {
            Some(s) => name@ == "queues/"@ + s@,
            None => !(name@.len() >= 7 && name@.subrange(0, 7) == "queues/"@),
        },
{
    let n = name.unicode_len();
    if n < 7 {
        return None;
    }
    if name.get_char(0) != 'q' || name.get_char(1) != 'u' || name.get_char(2) != 'e'
        || name.get_char(3) != 'u' || name.get_char(4) != 'e' || name.get_char(5) != 's'
        || name.get_char(6) != '/' {
        proof {
            reveal_strlit("queues/");
            if name@.len() >= 7 && name@.subrange(0, 7) == "queues/"@ {
                assert forall|i: int| 0 <= i < 7 implies name@[i] == "queues/"@[i] by {
                    assert(name@.subrange(0, 7)[i] == name@[i]);
                }
                assert(name@[0] == 'q' && name@[1] == 'u' && name@[2] == 'e' && name@[3] == 'u'
                    && name@[4] == 'e' && name@[5] == 's' && name@[6] == '/');
            }
        }
        return None;
    }
    let suffix = name.substring_char(7, n);
    proof {
        reveal_strlit("queues/");
        assert(name@ =~= "queues/"@ + suffix@);
    }
    Some(String::from_str(suffix))
}

impl<'r> Queue<'r> {
    /// The record invariant holds of the bound state.
    pub closed spec fn wf(&self) -> bool {
        self.state.wf()
    }

    /// The invariant is what the bound state's invariant says of the view.
    pub proof fn lemma_wf_is_state_wf(&self)
        ensures
            self.wf() == (self@.meta.wf() && match self@.oid {
                Some(id) => id.len() == crate::oid::OID_LEN,
                None => true,
            }),
    {
    }

    /// Short name of the queue's branch: `queues/<queue>`.
    fn branch_short_name(queue: &str) -> (r: String)
        ensures
            r@ == "queues/"@ + queue@,
    {
        let mut s = String::from_str("queues/");
        s.append(queue);
        s
    }

    /// Look the queue up by name: `None` when its branch does not exist.  A
    /// branch whose log ref is missing is an inconsistency.  A queue that
    /// comes back is bound to its log tip: the tip's tree records at `meta`
    /// exactly the blob carrying the state's canonical serialization.
    pub fn for_queue(ctx: &'r Ctx, queue: &str) -> (r: Result<Option<Queue<'r>>, QueueError>)
        ensures
            match r {
                Ok(Some(q)) => q.wf() && q@.name == queue@ && (match q@.oid {
                    Some(id) => commit_tree_paths(id).contains_key("meta"@)
                        && commit_tree_paths(id)["meta"@] == blob_id_of(enc_meta(q@.meta)),
                    None => false,
                }),
                _ => true,
            },
    {
        let branch = Self::branch_short_name(queue);
        match find_local_branch(ctx.repo(), branch.as_str()) {
            Ok(Some(_)) => {},
            Ok(None) => {
                return Ok(None);
            },
            Err(e) => {
                let g = conv_err(&e);
                if g.code == GIT_CODE_INVALID_SPEC {
                    return Err(QueueError::InvalidName);
                }
                return Err(QueueError::Git(g));
            },
        }
        let state = match QueueState::current_for_queue(ctx.repo(), queue) {
            Ok(state) => state,
            Err(QueueError::Git(g)) => {
                if g.code == GIT_CODE_NOT_FOUND {
                    // the branch exists but its log does not
                    return Err(QueueError::Inconsistency("queuelog"));
                }
                return Err(QueueError::Git(g));
            },
            Err(e) => {
                return Err(e);
            },
        };
        Ok(Some(Queue { repo: ctx.repo(), state }))
    }

    /// The queue whose branch HEAD is on, if any.
    pub fn current(ctx: &'r Ctx) -> (r: Result<Option<Queue<'r>>, QueueError>)
        ensures
            match r {
                Ok(Some(q)) => q.wf() && (match q@.oid {
                    Some(id) => commit_tree_paths(id).contains_key("meta"@)
                        && commit_tree_paths(id)["meta"@] == blob_id_of(enc_meta(q@.meta)),
                    None => false,
                }),
                _ => true,
            },
    {
        let name = match head_state(ctx.repo()) {
            Err(e) => {
                return Err(QueueError::Git(conv_err(&e)));
            },
            Ok(Head::Unborn) => {
                return Ok(None);
            },
            Ok(Head::NotBranch) => {
                return Err(
                    QueueError::Git(
                        GitError {
                            code: crate::error::GIT_CODE_INVALID,
                            class: GIT_CLASS_REFERENCE,
                            message: String::from_str("current HEAD is not a branch"),
                        },
                    ),
                );
            },
            Ok(Head::Branch(None)) => {
                return Err(QueueError::NonUtf8);
            },
            Ok(Head::Branch(Some(name))) => name,
        };
        match queue_suffix(name.as_str()) {
            Some(queue) => Self::for_queue(ctx, queue.as_str()),
            None => Ok(None),
        }
    }

    /// Create the queue: its branch at the tip of the base branch, then the
    /// initial log entry.  Yields `None`, touching nothing further, when the
    /// queue branch already exists.
    pub fn initialize(ctx: &'r Ctx, name: &str, base_branch: &str) -> (r: Result<
        Option<Queue<'r>>,
        QueueError,
    >)
        ensures
            match r {
                Ok(Some(q)) => {
                    &&& q.wf()
                    &&& q@.name == name@
                    &&& q@.meta.previous is None
                    &&& q@.meta.base_name == "refs/heads/"@ + base_branch@
                    &&& q@.meta.head == q@.meta.base
                    &&& q@.meta.applied.len() == 0
                    &&& q@.meta.unapplied.len() == 0
                    &&& q@.meta.patches.len() == 0
                    &&& match q@.oid {
                        Some(id) => {
                            &&& commit_parents_of(id).len() == 1
                            &&& commit_parents_of(id)[0] == q@.meta.base
                            &&& commit_tree_paths(id) == commit_tree_paths(
                                q@.meta.base,
                            ).insert("meta"@, blob_id_of(enc_meta(q@.meta)))
                        },
                        None => false,
                    }
                },
                _ => true,
            },
    {
        let mut base_ref = String::from_str("refs/heads/");
        base_ref.append(base_branch);
        let tip = match ref_tip(ctx.repo(), base_ref.as_str()) {
            Err(e) => {
                return Err(QueueError::Git(conv_err(&e)));
            },
            Ok(None) => {
                return Err(
                    QueueError::Git(
                        GitError {
                            code: GIT_CODE_NOT_FOUND,
                            class: GIT_CLASS_REFERENCE,
                            message: String::from_str("base branch not found"),
                        },
                    ),
                );
            },
            Ok(Some(tip)) => tip,
        };
        let branch = Self::branch_short_name(name);
        match create_branch(ctx.repo(), branch.as_str(), &tip, false) {
            Ok(_) => {},
            Err(e) => {
                let g = conv_err(&e);
                if g.code == GIT_CODE_EXISTS {
                    return Ok(None);
                }
                return Err(QueueError::Git(g));
            },
        }
        let state = match QueueState::new(ctx.repo(), name, base_ref, &tip) {
            Ok(state) => state,
            Err(e) => {
                return Err(e);
            },
        };
        Ok(Some(Queue { repo: ctx.repo(), state }))
    }

    /// All queues: one entry per local branch under `queues/`.  A queue
    /// whose log is broken or missing yields an inconsistency entry; a
    /// branch whose name is not valid UTF-8 yields a name error.
    pub fn list(ctx: &'r Ctx) -> (r: Result<Vec<Result<Queue<'r>, QueueError>>, QueueError>)
        ensures
            match r {
                Ok(v) => forall|i: int|
                    0 <= i < v@.len() ==> match #[trigger] v@[i] {
                        Ok(q) => q.wf(),
                        Err(_) => true,
                    },
                Err(_) => true,
            },
    {
        let names = match local_branch_names(ctx.repo()) {
            Ok(names) => names,
            Err(e) => {
                return Err(QueueError::Git(conv_err(&e)));
            },
        };
        let mut out: Vec<Result<Queue<'r>, QueueError>> = Vec::new();
        let n = names.len();
        let mut i: usize = 0;
        while i < n
            invariant
                i <= n,
                n == names@.len(),
                forall|j: int|
                    0 <= j < out@.len() ==> match #[trigger] out@[j] {
                        Ok(q) => q.wf(),
                        Err(_) => true,
                    },
            decreases n - i,
        {
            match &names[i] {
                None => {
                    out.push(Err(QueueError::NonUtf8));
                },
                Some(name) => {
                    match queue_suffix(name.as_str()) {
                        None => {},
                        Some(queue) => {
                            match Self::for_queue(ctx, queue.as_str()) {
                                Ok(Some(q)) => {
                                    out.push(Ok(q));
                                },
                                Ok(None) => {
                                    out.push(Err(QueueError::Inconsistency("queuelog")));
                                },
                                Err(e) => {
                                    out.push(Err(e));
                                },
                            }
                        },
                    }
                },
            }
            i = i + 1;
        }
        Ok(out)
    }

    /// The queue's name.
    pub fn name(&self) -> (r: &str)
        ensures
            r@ == self@.name,
    {
        self.state.name()
    }

    /// Name of the branch this queue was created from.
    pub fn base_name(&self) -> (r: &str)
        ensures
            r@ == self@.meta.base_name,
    {
        self.state.base_name()
    }

    /// The queue is closeable exactly when it tracks no patches.
    pub fn can_close(&self) -> (r: bool)
        ensures
            r == (self@.meta.patches.len() == 0),
    {
        self.state.patches_num() == 0
    }

    /// Whether HEAD points at this queue's branch.
    pub fn is_current(&self) -> (r: Result<bool, QueueError>)
        ensures
            r matches Err(e) ==> e is Git,
    {
        let branch = Self::branch_short_name(self.state.name());
        match branch_is_head(self.repo, branch.as_str()) {
            Ok(b) => Ok(b),
            Err(e) => Err(QueueError::Git(conv_err(&e))),
        }
    }

    /// Check the queue's branch out into the working directory and move
    /// HEAD to it.
    pub fn switch_to(&self, merge: bool) -> (r: Result<(), QueueError>)
        ensures
            r matches Err(e) ==> e is Git,
    {
        let mut full = String::from_str("refs/heads/queues/");
        full.append(self.state.name());
        match checkout_ref(self.repo, full.as_str(), merge) {
            Ok(_) => Ok(()),
            Err(e) => Err(QueueError::Git(conv_err(&e))),
        }
    }

    /// Close the queue: delete its branch, then its log ref, tolerating a
    /// log ref that was already removed.  The queue must track no patches;
    /// one that is checked out is refused with an inconsistency report, and
    /// every other failure is the repository's own.
    pub fn close(self) -> (r: Result<(), QueueError>)
        requires
            self@.meta.patches.len() == 0,
        ensures
            r matches Err(e) ==> e is Git || (e matches QueueError::Inconsistency(m) && m@
                == "close of the current queue"@),
    {
        match self.is_current() {
            Ok(false) => {},
            Ok(true) => {
                return Err(QueueError::Inconsistency("close of the current queue"));
            },
            Err(e) => {
                return Err(e);
            },
        }
        let branch = Self::branch_short_name(self.state.name());
        match delete_branch(self.repo, branch.as_str()) {
            Ok(_) => {},
            Err(e) => {
                return Err(QueueError::Git(conv_err(&e)));
            },
        }
        let gitref = self.state.gitref();
        match delete_ref(self.repo, gitref.as_str()) {
            // a log ref that was already gone is tolerated
            Ok(_) => Ok(()),
            Err(e) => Err(QueueError::Git(conv_err(&e))),
        }
    }

    /// The bound state.
    pub fn state(&self) -> (r: &QueueState)
        ensures
            r@ == self@,
    {
        &self.state
    }
}

} // verus!
