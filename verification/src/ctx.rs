//! The per-invocation context: the repository, its configuration, and the
//! signing setup derived from it.

use vstd::prelude::*;
use vstd::string::*;
use crate::error::QueueError;
use crate::repo::{checkout_ref, config_get, conv_err, get_signature, head_state, ref_tip, repo_config, Head};
use crate::oid::ObjectId;

verus! {

/// How commits would be signed, derived from the ambient configuration.
pub struct GitGpg {
    /// The signing program to run.
    pub program: String,
    /// The configured signing key, if any.
    pub signkey: Option<String>,
}

/// The signing program the configuration selects: an explicit format wins
/// (`openpgp` names gpg, `x509` names gpgsm); otherwise the first configured
/// program, with x509 before openpgp before the generic key; gpg is the
/// fallback.
pub open spec fn gpg_program_spec(
    format: Option<Seq<char>>,
    x509: Option<Seq<char>>,
    openpgp: Option<Seq<char>>,
    plain: Option<Seq<char>>,
) -> Seq<char> {
    if format == Some("openpgp"@) {
        "gpg"@
    } else if format == Some("x509"@) {
        "gpgsm"@
    } else if x509 is Some {
        x509.unwrap()
    } else if openpgp is Some {
        openpgp.unwrap()
    } else if plain is Some {
        plain.unwrap()
    } else {
        "gpg"@
    }
}

/// Pick the signing program from the configured values.
pub fn gpg_program(
    format: Option<String>,
    x509: Option<String>,
    openpgp: Option<String>,
    plain: Option<String>,
) -> (r: String)
    ensures
        r@ == gpg_program_spec(
            match format {
                Some(f) => Some(f@),
                None => None,
            },
            match x509 {
                Some(f) => Some(f@),
                None => None,
            },
            match openpgp {
                Some(f) => Some(f@),
                None => None,
            },
            match plain {
                Some(f) => Some(f@),
                None => None,
            },
        ),
{
    match &format {
        Some(f) => {
            if *f == String::from_str("openpgp") {
                return String::from_str("gpg");
            }
            if *f == String::from_str("x509") {
                return String::from_str("gpgsm");
            }
        },
        None => {},
    }
    proof {
        assert(match format {
            Some(f) => f@ != "openpgp"@ && f@ != "x509"@,
            None => true,
        });
    }
    match x509 {
        Some(p) => {
            return p;
        },
        None => {},
    }
    match openpgp {
        Some(p) => {
            return p;
        },
        None => {},
    }
    match plain {
        Some(p) => {
            return p;
        },
        None => {},
    }
    String::from_str("gpg")
}

impl GitGpg {
    /// Derive the signing setup from the configuration, with the x509
    /// program winning over the openpgp one, which wins over the generic
    /// one.
    pub fn from_config(config: &git2::Config) -> (r: GitGpg)
    {
        let signkey = config_get(config, "user.signingkey");
        let format = config_get(config, "gpg.format");
        let x509 = config_get(config, "gpg.x509.program");
        let openpgp = config_get(config, "gpg.openpgp.program");
        let plain = config_get(config, "gpg.program");
        let program = gpg_program(format, x509, openpgp, plain);
        GitGpg { program, signkey }
    }
}

/// The per-invocation context, threaded through every operation.
pub struct Ctx {
    repo: git2::Repository,
    config: git2::Config,
    user: git2::Signature<'static>,
    gpg: GitGpg,
}

impl Ctx {
    /// Build the context around an already-discovered repository: read its
    /// configuration, require a configured identity, and derive the signing
    /// setup.
    pub fn from_repo(repo: git2::Repository) -> (r: Result<Ctx, QueueError>)
    {
        let config = match repo_config(&repo) {
            Ok(c) => c,
            Err(e) => {
                return Err(QueueError::Git(conv_err(&e)));
            },
        };
        let user = match get_signature(&repo) {
            Ok(u) => u,
            Err(e) => {
                return Err(QueueError::Git(conv_err(&e)));
            },
        };
        let gpg = GitGpg::from_config(&config);
        Ok(Ctx { repo, config, user, gpg })
    }

    /// The repository.
    pub fn repo(&self) -> (r: &git2::Repository)
    {
        &self.repo
    }

    /// The repository's configuration.
    pub fn config(&self) -> (r: &git2::Config)
    {
        &self.config
    }

    /// The configured identity.
    pub fn user(&self) -> (r: &git2::Signature<'static>)
    {
        &self.user
    }

    /// The signing setup.
    pub fn gpg(&self) -> (r: &GitGpg)
    {
        &self.gpg
    }

    /// Name of the branch HEAD is on: `None` when HEAD is unborn, an error
    /// when HEAD is not a branch or its name is not valid UTF-8.
    pub fn current_branch(&self) -> (r: Result<Option<String>, QueueError>)
        ensures
            r matches Err(e) ==> e is Git || e is NonUtf8,
    {
        match head_state(&self.repo) {
            Err(e) => Err(QueueError::Git(conv_err(&e))),
            Ok(Head::Unborn) => Ok(None),
            Ok(Head::NotBranch) => Err(
                QueueError::Git(
                    crate::error::GitError {
                        code: crate::error::GIT_CODE_INVALID,
                        class: crate::error::GIT_CLASS_REFERENCE,
                        message: String::from_str("current HEAD is not a branch"),
                    },
                ),
            ),
            Ok(Head::Branch(None)) => Err(QueueError::NonUtf8),
            Ok(Head::Branch(Some(name))) => Ok(Some(name)),
        }
    }

    /// Check a branch out into the working directory and move HEAD to it.
    /// The name is the branch's full ref name.
    pub fn checkout_branch(&self, refname: &str, merge: bool) -> (r: Result<(), QueueError>)
        ensures
            r matches Err(e) ==> e is Git,
    {
        match checkout_ref(&self.repo, refname, merge) {
            Ok(_) => Ok(()),
            Err(e) => Err(QueueError::Git(conv_err(&e))),
        }
    }

    /// Look a local branch up by its short name: its full ref name and tip,
    /// or `None` when it does not exist.
    pub fn find_branch(&self, branch: &str) -> (r: Result<Option<(String, ObjectId)>, QueueError>)
        ensures
            match r {
                Ok(Some((full, id))) => full@ == "refs/heads/"@ + branch@ && id.wf(),
                Ok(None) => true,
                Err(e) => e is Git,
            },
    {
        let mut full = String::from_str("refs/heads/");
        full.append(branch);
        match ref_tip(&self.repo, full.as_str()) {
            Err(e) => Err(QueueError::Git(conv_err(&e))),
            Ok(None) => Ok(None),
            Ok(Some(id)) => Ok(Some((full, id))),
        }
    }
}

} // verus!
