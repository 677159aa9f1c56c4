//! Patch handles.
//!
//! A patch is a single commit owned by a ref under `refs/patches/<queue>/`.
//! Amending recomposes the commit and moves the ref in the same operation.

use vstd::prelude::*;
use vstd::string::*;
use crate::error::QueueError;
use crate::oid::ObjectId;
use crate::repo::{amend_commit, conv_err, ref_tip};

verus! {

/// Mathematical view of a patch handle.
pub struct PatchView {
    /// Full name of the ref that owns the patch.
    pub ref_name: Seq<char>,
    /// The patch's name: the suffix after the queue namespace.
    pub name: Seq<char>,
    /// Id of the patch commit.
    pub id: Seq<u8>,
}

/// A named reference to a single patch commit.
pub struct Patch {
    ref_name: String,
    name: String,
    id: ObjectId,
}

impl View for Patch {
    type V = PatchView;

    closed spec fn view(&self) -> PatchView {
        PatchView { ref_name: self.ref_name@, name: self.name@, id: self.id@ }
    }
}

impl Patch {
    /// The id is well-formed.
    pub open spec fn wf(&self) -> bool {
        self@.id.len() == crate::oid::OID_LEN
    }

    /// Look a patch up under its queue: `None` when its ref does not exist.
    pub fn from_name(repo: &git2::Repository, branch: &str, name: &str) -> (r: Result<
        Option<Patch>,
        QueueError,
    >)
        ensures
            match r {
                Ok(Some(p)) => {
                    &&& p.wf()
                    &&& p@.name == name@
                    &&& p@.ref_name == "refs/patches/"@ + branch@ + "/"@ + name@
                },
                _ => true,
            },
    {
        let mut ref_name = String::from_str("refs/patches/");
        ref_name.append(branch);
        ref_name.append("/");
        ref_name.append(name);
        match ref_tip(repo, ref_name.as_str()) {
            Err(e) => Err(QueueError::Git(conv_err(&e))),
            Ok(None) => Ok(None),
            Ok(Some(id)) => Ok(
                Some(Patch { ref_name, name: String::from_str(name), id }),
            ),
        }
    }

    /// Full reference name of this patch.
    pub fn ref_name(&self) -> (r: &str)
        ensures
            r@ == self@.ref_name,
    {
        self.ref_name.as_str()
    }

    /// Name of this patch.
    pub fn name(&self) -> (r: &str)
        ensures
            r@ == self@.name,
    {
        self.name.as_str()
    }

    /// Git object identifier of this patch.
    pub fn id(&self) -> (r: ObjectId)
        ensures
            r@ == self@.id,
    {
        self.id.clone()
    }

    /// Amend this patch: recompose the commit with the optional overrides,
    /// keeping authorship, recomputing the committer from the configured
    /// identity, and moving the patch ref to the new commit, whose id is
    /// returned and recorded in the handle.
    pub fn amend(&mut self, amend: &PatchAmend, repo: &git2::Repository) -> (r: Result<
        ObjectId,
        QueueError,
    >)
        requires
            old(self).wf(),
            match amend.tree_view() {
                Some(t) => t.len() == crate::oid::OID_LEN,
                None => true,
            },
        ensures
            final(self)@.ref_name == old(self)@.ref_name,
            final(self)@.name == old(self)@.name,
            final(self).wf(),
            match r {
                Ok(id) => {
                    &&& id@ == final(self)@.id
                    &&& crate::repo::commit_parents_of(final(self)@.id)
                        == crate::repo::commit_parents_of(old(self)@.id)
                    &&& crate::repo::commit_tree_paths(final(self)@.id) == match amend.tree_view() {
                        Some(t) => crate::repo::tree_paths_of_id(t),
                        None => crate::repo::commit_tree_paths(old(self)@.id),
                    }
                },
                Err(_) => final(self)@.id == old(self)@.id,
            },
    {
        let message: Option<&str> = match &amend.message {
            Some(m) => Some(m.as_str()),
            None => None,
        };
        let tree: Option<&ObjectId> = match &amend.tree {
            Some(t) => Some(t),
            None => None,
        };
        match amend_commit(repo, self.ref_name.as_str(), &self.id, message, tree) {
            Err(e) => Err(QueueError::Git(conv_err(&e))),
            Ok(id) => {
                self.id = id.clone();
                Ok(id)
            },
        }
    }
}

/// The overrides an amend applies: an optional new message and an optional
/// new tree; everything else falls through from the existing commit.
pub struct PatchAmend {
    message: Option<String>,
    tree: Option<ObjectId>,
}

impl PatchAmend {
    /// What the message override is.
    pub closed spec fn message_view(&self) -> Option<Seq<char>> {
        match self.message {
            Some(m) => Some(m@),
            None => None,
        }
    }

    /// What the tree override is.
    pub closed spec fn tree_view(&self) -> Option<Seq<u8>> {
        match self.tree {
            Some(t) => Some(t@),
            None => None,
        }
    }

    /// Override the commit message.
    pub fn set_message(&mut self, message: String)
        ensures
            final(self).message_view() == Some(message@),
            final(self).tree_view() == old(self).tree_view(),
    {
        self.message = Some(message);
    }

    /// Override the tree.
    pub fn set_tree(&mut self, tree: ObjectId)
        ensures
            final(self).tree_view() == Some(tree@),
            final(self).message_view() == old(self).message_view(),
    {
        self.tree = Some(tree);
    }
}

impl Default for PatchAmend {
    /// No overrides.
    fn default() -> (r: Self)
        ensures
            r.message_view() is None,
            r.tree_view() is None,
    {
        PatchAmend { message: None, tree: None }
    }
}

} // verus!
