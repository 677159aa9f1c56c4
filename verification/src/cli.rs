//! Command kernels and exit-code mapping.
//!
//! The argument parser, terminal output and process exit live outside the
//! library; what a command decides — which queue operations run, which
//! failure carries which exit code and message — is here.

use vstd::prelude::*;
use vstd::string::*;
use crate::ctx::Ctx;
use crate::error::{
    QueueError, GIT_CLASS_FILESYSTEM, GIT_CLASS_NET, GIT_CLASS_NO_MEMORY, GIT_CLASS_OS,
    GIT_CLASS_REFERENCE, GIT_CODE_UNBORN_BRANCH,
};
use crate::queue::Queue;

verus! {

/// Exit code: the command was used incorrectly.
pub const EX_USAGE: i32 = 64;

/// Exit code: the input data was incorrect.
pub const EX_DATAERR: i32 = 65;

/// Exit code: an internal software error.
pub const EX_SOFTWARE: i32 = 70;

/// Exit code: an operating-system failure.
pub const EX_OSERR: i32 = 71;

/// Exit code: something that must be created already exists.
pub const EX_CANTCREAT: i32 = 73;

/// Exit code: a file or network input/output failure.
pub const EX_IOERR: i32 = 74;

/// Exit code: a temporary failure; retrying may succeed.
pub const EX_TEMPFAIL: i32 = 75;

/// A command failure: the exit code the process should end with and the
/// message to report.
#[derive(Debug)]
pub struct CmdError {
    /// The exit code.
    pub code: i32,
    /// The human-readable report.
    pub message: String,
}

/// Is this one of the exit codes the tool reports?
pub open spec fn is_exit_code(c: i32) -> bool {
    c == EX_USAGE || c == EX_DATAERR || c == EX_SOFTWARE || c == EX_OSERR || c == EX_CANTCREAT
        || c == EX_IOERR || c == EX_TEMPFAIL
}

/// The exit code a library error maps to; `None` marks an underlying error
/// class that only a bug can produce.
pub open spec fn exit_code_spec(e: QueueError) -> Option<i32> {
    match e {
        QueueError::NotInRepository => Some(EX_USAGE as i32),
        QueueError::NotInitialized => Some(EX_USAGE as i32),
        QueueError::Inconsistency(_) => Some(EX_DATAERR as i32),
        QueueError::InvalidName => Some(EX_DATAERR as i32),
        QueueError::NonUtf8 => Some(EX_DATAERR as i32),
        QueueError::AlreadyExists(_) => Some(EX_CANTCREAT as i32),
        QueueError::Git(g) => {
            if g.class == GIT_CLASS_REFERENCE && g.code == GIT_CODE_UNBORN_BRANCH {
                Some(EX_USAGE as i32)
            } else if g.class == GIT_CLASS_OS {
                Some(EX_OSERR as i32)
            } else if g.class == GIT_CLASS_FILESYSTEM || g.class == GIT_CLASS_NET {
                Some(EX_IOERR as i32)
            } else if g.class == GIT_CLASS_NO_MEMORY {
                Some(EX_TEMPFAIL as i32)
            } else {
                None
            }
        },
    }
}

/// Map a library error to its exit code.
pub fn exit_code_for(e: &QueueError) -> (r: Option<i32>)
    ensures
        r == exit_code_spec(*e),
{
    match e {
        QueueError::NotInRepository => Some(EX_USAGE),
        QueueError::NotInitialized => Some(EX_USAGE),
        QueueError::Inconsistency(_) => Some(EX_DATAERR),
        QueueError::InvalidName => Some(EX_DATAERR),
        QueueError::NonUtf8 => Some(EX_DATAERR),
        QueueError::AlreadyExists(_) => Some(EX_CANTCREAT),
        QueueError::Git(g) => {
            if g.class == GIT_CLASS_REFERENCE && g.code == GIT_CODE_UNBORN_BRANCH {
                Some(EX_USAGE)
            } else if g.class == GIT_CLASS_OS {
                Some(EX_OSERR)
            } else if g.class == GIT_CLASS_FILESYSTEM || g.class == GIT_CLASS_NET {
                Some(EX_IOERR)
            } else if g.class == GIT_CLASS_NO_MEMORY {
                Some(EX_TEMPFAIL)
            } else {
                None
            }
        },
    }
}

/// The report text of a library error.
pub fn describe(e: &QueueError) -> (r: String)
    ensures
        match e {
            QueueError::NotInRepository => r@ == "not in a repository"@,
            QueueError::NotInitialized => r@
                == "the repository exists but is not initialized"@,
            QueueError::Inconsistency(area) => r@ == "detected inconsistency in "@ + area@
                + ", did you run a git command manually?"@,
            QueueError::InvalidName => r@ == "the received name is invalid"@,
            QueueError::NonUtf8 => r@ == "the received name is not valid UTF-8"@,
            QueueError::AlreadyExists(what) => r@ == what@ + " already exists"@,
            QueueError::Git(g) => r@ == g.message@,
        },
{
    match e {
        QueueError::NotInRepository => String::from_str("not in a repository"),
        QueueError::NotInitialized => String::from_str(
            "the repository exists but is not initialized",
        ),
        QueueError::Inconsistency(area) => {
            let mut s = String::from_str("detected inconsistency in ");
            s.append(area);
            s.append(", did you run a git command manually?");
            s
        },
        QueueError::InvalidName => String::from_str("the received name is invalid"),
        QueueError::NonUtf8 => String::from_str("the received name is not valid UTF-8"),
        QueueError::AlreadyExists(what) => {
            let mut s = String::from_str(what);
            s.append(" already exists");
            s
        },
        QueueError::Git(g) => g.message.clone(),
    }
}

/// The special report for an unborn current branch.
pub fn unborn_report() -> (r: String)
    ensures
        r@ == "The current branch is not initialized"@,
{
    String::from_str("The current branch is not initialized")
}

/// Turn a library error into the command failure the process reports: its
/// exit code (an internal-bug class gets the software code) and its text.
pub fn cmd_error_of(e: QueueError) -> (r: CmdError)
    ensures
        match exit_code_spec(e) {
            Some(c) => r.code == c,
            None => r.code == EX_SOFTWARE,
        },
        is_exit_code(r.code),
{
    let special = match &e {
        QueueError::Git(g) => g.class == GIT_CLASS_REFERENCE && g.code
            == GIT_CODE_UNBORN_BRANCH,
        _ => false,
    };
    if special {
        return CmdError { code: EX_USAGE, message: unborn_report() };
    }
    let code = match exit_code_for(&e) {
        Some(c) => c,
        None => EX_SOFTWARE,
    };
    let message = describe(&e);
    CmdError { code, message }
}

/// The report for a repository that has no queue-ready state.
pub fn not_properly_initialized<T>() -> (r: Result<T, CmdError>)
    ensures
        match r {
            Ok(_) => false,
            Err(e) => e.code == EX_USAGE && e.message@
                == "Properly initialize your repository and try again"@,
        },
{
    Err(
        CmdError {
            code: EX_USAGE,
            message: String::from_str("Properly initialize your repository and try again"),
        },
    )
}

/// Close one queue: refused while the queue is checked out, and while it
/// still tracks patches — also under force, whose patch-removal semantics
/// are not defined yet.
pub fn close_one(queue: Queue<'_>, force: bool) -> (r: Result<(), CmdError>)
    ensures
        queue@.meta.patches.len() > 0 ==> r matches Err(_),
        r matches Err(e) ==> is_exit_code(e.code),
{
    match queue.is_current() {
        Err(e) => {
            return Err(cmd_error_of(e));
        },
        Ok(true) => {
            return Err(
                CmdError {
                    code: EX_USAGE,
                    message: String::from_str(
                        "Cannot close current queue, please switch to a different queue/branch before trying again.",
                    ),
                },
            );
        },
        Ok(false) => {},
    }
    if !queue.can_close() {
        return Err(
            CmdError {
                code: EX_USAGE,
                message: String::from_str("The queue still tracks patches, cannot close."),
            },
        );
    }
    let _ = force;
    match queue.close() {
        Ok(_) => Ok(()),
        Err(e) => Err(cmd_error_of(e)),
    }
}

/// The close command: look every named queue up — failing before anything
/// is closed when one is missing — then close them one by one, in the order
/// they were named.
pub fn close(ctx: &Ctx, queues: Vec<String>, force: bool) -> (r: Result<(), CmdError>)
    ensures
        queues@.len() == 0 ==> r matches Ok(_),
        r matches Err(e) ==> is_exit_code(e.code),
{
    let n = queues.len();
    let mut found: Vec<Queue<'_>> = Vec::new();
    let mut i: usize = 0;
    while i < n
        invariant
            i <= n,
            n == queues@.len(),
            found@.len() == i,
        decreases n - i,
    {
        match Queue::for_queue(ctx, queues[i].as_str()) {
            Ok(Some(q)) => {
                found.push(q);
            },
            Ok(None) => {
                let mut msg = String::from_str("Queue `");
                msg.append(queues[i].as_str());
                msg.append("` not found");
                return Err(CmdError { code: EX_DATAERR, message: msg });
            },
            Err(e) => {
                return Err(cmd_error_of(e));
            },
        }
        i = i + 1;
    }
    let nf = found.len();
    let mut j: usize = 0;
    let mut remaining = found;
    while j < nf
        invariant
            j <= nf,
            nf == remaining@.len() + j,
            nf == queues@.len(),
        decreases nf - j,
    {
        // take queues from the front, keeping the argument order
        let q = remaining.remove(0);
        match close_one(q, force) {
            Ok(_) => {},
            Err(e) => {
                return Err(e);
            },
        }
        j = j + 1;
    }
    Ok(())
}

/// The switch command: move to the named queue, creating it first — on the
/// given base branch, or on the current branch — when asked to.
pub fn switch(ctx: &Ctx, queue: &str, create: bool, branch: Option<&str>, merge: bool) -> (r:
    Result<(), CmdError>)
    ensures
        r matches Err(e) ==> is_exit_code(e.code),
{
    let q = match Queue::for_queue(ctx, queue) {
        Ok(Some(q)) => q,
        Ok(None) => {
            if !create {
                let mut msg = String::from_str("Queue `");
                msg.append(queue);
                msg.append("` does not exist");
                return Err(CmdError { code: EX_DATAERR, message: msg });
            }
            let base: String = match branch {
                Some(b) => {
                    match ctx.find_branch(b) {
                        Ok(Some(_)) => String::from_str(b),
                        Ok(None) => {
                            let mut msg = String::from_str("Branch ");
                            msg.append(b);
                            msg.append(" does not exist");
                            return Err(CmdError { code: EX_DATAERR, message: msg });
                        },
                        Err(e) => {
                            return Err(cmd_error_of(e));
                        },
                    }
                },
                None => {
                    match ctx.current_branch() {
                        Ok(Some(name)) => name,
                        Ok(None) => {
                            return not_properly_initialized();
                        },
                        Err(e) => {
                            return Err(cmd_error_of(e));
                        },
                    }
                },
            };
            match Queue::initialize(ctx, queue, base.as_str()) {
                Ok(Some(q)) => q,
                Ok(None) => {
                    // the queue appeared between the lookup and the creation
                    return Err(
                        CmdError {
                            code: EX_SOFTWARE,
                            message: String::from_str("queue branch appeared concurrently"),
                        },
                    );
                },
                Err(e) => {
                    return Err(cmd_error_of(e));
                },
            }
        },
        Err(e) => {
            return Err(cmd_error_of(e));
        },
    };
    match q.switch_to(merge) {
        Ok(_) => Ok(()),
        Err(e) => Err(cmd_error_of(e)),
    }
}

} // verus!
