//! Queue state and its log.
//!
//! A [`QueueState`] is the in-memory model of one stack at one point in
//! time: the decoded metadata record, the queue's name, and — once the state
//! has been committed to the log — the id of the log entry that carries it.
//!
//! States are never mutated in place on disk: a mutation derives a fresh
//! uncommitted state, changes it, and appends a new log entry.

use vstd::prelude::*;
use vstd::pervasive::unreached;
use vstd::pervasive::VecAdditionalExecFns;
use vstd::string::*;
use crate::codec::{MetaRecord, MetaView, names_of, distinct_seq, lemma_patch_oid_at, pairs_view, pairs_contain};
use crate::codec::enc_meta;
use crate::error::GitError;
use crate::error::QueueError;
use crate::oid::{ObjectId, OID_LEN};
use crate::repo::{
    blob_id_of, commit_parents_of, commit_tree_paths, conv_err, create_commit, head_commit,
    meta_blob_of_commit, ref_tip, write_blob, write_entry_tree, FILEMODE_BLOB,
};

verus! {

/// Mathematical view of a queue state.
pub struct QueueStateView {
    /// Id of the log entry carrying this state; absent while uncommitted.
    pub oid: Option<Seq<u8>>,
    /// The queue's name.
    pub name: Seq<char>,
    /// The metadata record.
    pub meta: MetaView,
}

/// The queue state at a specific point in time.
pub struct QueueState {
    oid: Option<ObjectId>,
    name: String,
    entry: MetaRecord,
}

impl View for QueueState {
    type V = QueueStateView;

    closed spec fn view(&self) -> QueueStateView {
        QueueStateView {
            oid: match self.oid {
                Some(id) => Some(id@),
                None => None,
            },
            name: self.name@,
            meta: self.entry@,
        }
    }
}

impl QueueState {
    /// The record invariant holds, and the entry id, if any, is well-formed.
    pub open spec fn wf(&self) -> bool {
        &&& self@.meta.wf()
        &&& match self@.oid {
            Some(id) => id.len() == crate::oid::OID_LEN,
            None => true,
        }
    }

    /// Assemble a state from its parts.
    pub fn assemble(oid: Option<ObjectId>, name: String, entry: MetaRecord) -> (r: QueueState)
        ensures
            r@.name == name@,
            r@.meta == entry@,
            r@.oid == match oid {
                Some(id) => Some(id@),
                None => None::<Seq<u8>>,
            },
    {
        QueueState { oid, name, entry }
    }

    /// Name of the base branch this queue was created from.
    pub fn base_name(&self) -> (r: &str)
        ensures
            r@ == self@.meta.base_name,
    {
        self.entry.base_name.as_str()
    }

    /// The head commit of this state.
    pub fn head(&self) -> (r: ObjectId)
        ensures
            r@ == self@.meta.head,
    {
        self.entry.head.clone()
    }

    /// The queue's name.
    pub fn name(&self) -> (r: &str)
        ensures
            r@ == self@.name,
    {
        self.name.as_str()
    }

    /// Full name of the ref the log lives on.
    pub fn gitref(&self) -> (r: String)
        ensures
            r@ == "refs/queuelogs/"@ + self@.name,
    {
        let mut s = String::from_str("refs/queuelogs/");
        s.append(self.name.as_str());
        s
    }

    /// How many patches the state tracks.
    pub fn patches_num(&self) -> (r: usize)
        ensures
            r == self@.meta.patches.len(),
    {
        self.entry.patches.len()
    }

    /// Does this state have the given patch?
    pub fn has_patch(&self, name: &str) -> (r: bool)
        ensures
            r == self@.meta.has_patch(name@),
    {
        let key = String::from_str(name);
        let n = self.entry.patches.len();
        let mut i: usize = 0;
        while i < n
            invariant
                i <= n,
                n == self.entry.patches@.len(),
                key@ == name@,
                forall|j: int| 0 <= j < i ==> self@.meta.patches[j].0 != name@,
            decreases n - i,
        {
            if self.entry.patches[i].0 == key {
                proof {
                    assert(self@.meta.patches[i as int].0 == name@);
                }
                return true;
            }
            i = i + 1;
        }
        false
    }

    /// The id recorded for a patch name.
    fn lookup(&self, name: &String) -> (r: Option<ObjectId>)
        requires
            distinct_seq(names_of(self@.meta.patches)),
        ensures
            match r {
                Some(id) => self@.meta.has_patch(name@) && id@ == self@.meta.patch_oid(name@)
                    && id@.len() == self@.meta.patch_oid(name@).len(),
                None => !self@.meta.has_patch(name@),
            },
    {
        let n = self.entry.patches.len();
        let mut i: usize = 0;
        while i < n
            invariant
                i <= n,
                n == self.entry.patches@.len(),
                distinct_seq(names_of(self@.meta.patches)),
                forall|j: int| 0 <= j < i ==> self@.meta.patches[j].0 != name@,
            decreases n - i,
        {
            if self.entry.patches[i].0 == *name {
                let id = self.entry.patches[i].1.clone();
                proof {
                    assert(self@.meta.patches[i as int].0 == name@);
                    let k = choose|k: int|
                        0 <= k < self@.meta.patches.len() && self@.meta.patches[k].0 == name@;
                    assert(names_of(self@.meta.patches)[k] == self@.meta.patches[k].0);
                    assert(names_of(self@.meta.patches)[i as int] == self@.meta.patches[
                        i as int].0);
                    assert(k == i as int);
                }
                return Some(id);
            }
            i = i + 1;
        }
        None
    }

    /// Pushes a patch onto the stack: the last unapplied patch becomes the
    /// top of the applied series and the head moves to it.  Does nothing if
    /// there is no patch to push.
    pub fn push(&mut self)
        requires
            old(self).wf(),
        ensures
            final(self)@.name == old(self)@.name,
            final(self)@.oid == old(self)@.oid,
            final(self).wf(),
            ({
                let m = old(self)@.meta;
                if m.unapplied.len() == 0 {
                    final(self)@.meta == m
                } else {
                    &&& final(self)@.meta.applied == m.applied.push(m.unapplied.last())
                    &&& final(self)@.meta.unapplied == m.unapplied.drop_last()
                    &&& final(self)@.meta.patches == m.patches
                    &&& final(self)@.meta.head == m.patch_oid(m.unapplied.last())
                    &&& final(self)@.meta.base == m.base
                    &&& final(self)@.meta.base_name == m.base_name
                    &&& final(self)@.meta.previous == m.previous
                }
            }),
    {
        let ghost m = self@.meta;
        match self.entry.unapplied.pop() {
            None => {
                proof {
                    assert(self@.meta =~= m);
                }
            },
            Some(patch) => {
                proof {
                    assert(m.unapplied[m.unapplied.len() - 1] == m.unapplied.last());
                    assert(m.unapplied.contains(m.unapplied.last()));
                    assert(self@.meta.patches =~= m.patches);
                    assert(patch@ == m.unapplied.last());
                    assert(self@.meta.has_patch(patch@) == m.has_patch(patch@));
                    assert(m.applied.contains(m.unapplied.last())
                        || m.unapplied.contains(m.unapplied.last()));
                    assert(m.has_patch(patch@));
                }
                let id = match self.lookup(&patch) {
                    Some(id) => id,
                    None => unreached(),
                };
                self.entry.head = id;
                self.entry.applied.push(patch);
                proof {
                    assert(self@.meta.applied =~= m.applied.push(m.unapplied.last()));
                    assert(self@.meta.unapplied =~= m.unapplied.drop_last());
                    lemma_push_preserves_wf(m, self@.meta);
                }
            },
        }
    }
}

impl QueueState {
    /// Pops a patch from the stack: the top of the applied series moves onto
    /// the unapplied pile.  When patches remain applied, the head moves to
    /// the new top; when the series becomes empty, the head becomes the first
    /// parent of the popped commit, obtained from `get_parent`.  Does nothing
    /// if no patch is applied.
    pub fn pop<F: FnOnce(ObjectId) -> Result<ObjectId, QueueError>>(&mut self, get_parent: F) -> (r:
        Result<(), QueueError>)
        requires
            old(self).wf(),
            old(self)@.meta.applied.len() == 1 ==> forall|po: ObjectId|
                po@ == old(self)@.meta.patch_oid(old(self)@.meta.applied.last())
                    ==> call_requires(get_parent, (po,)),
        ensures
            final(self)@.name == old(self)@.name,
            final(self)@.oid == old(self)@.oid,
            ({
                let m = old(self)@.meta;
                let m2 = final(self)@.meta;
                if m.applied.len() == 0 {
                    r matches Ok(_) && m2 == m
                } else {
                    &&& m2.applied == m.applied.drop_last()
                    &&& m2.unapplied == m.unapplied.push(m.applied.last())
                    &&& m2.patches == m.patches
                    &&& m2.base == m.base
                    &&& m2.base_name == m.base_name
                    &&& m2.previous == m.previous
                    &&& if m.applied.len() > 1 {
                        &&& r matches Ok(_)
                        &&& m2.head == m.patch_oid(m.applied.drop_last().last())
                        &&& final(self).wf()
                    } else {
                        match r {
                            Ok(_) => exists|po: ObjectId, h: ObjectId|
                                po@ == m.patch_oid(m.applied.last()) && #[trigger] call_ensures(
                                    get_parent,
                                    (po,),
                                    Ok::<ObjectId, QueueError>(h),
                                ) && m2.head == h@,
                            Err(e) => m2.head == m.head && exists|po: ObjectId|
                                po@ == m.patch_oid(m.applied.last()) && #[trigger] call_ensures(
                                    get_parent,
                                    (po,),
                                    Err::<ObjectId, QueueError>(e),
                                ),
                        }
                    }
                }
            }),
    {
        let ghost m = self@.meta;
        match self.entry.applied.pop() {
            None => Ok(()),
            Some(patch) => {
                proof {
                    assert(m.applied[m.applied.len() - 1] == m.applied.last());
                    assert(m.applied.contains(m.applied.last()));
                    assert(self@.meta.patches =~= m.patches);
                    assert(patch@ == m.applied.last());
                    assert(m.has_patch(patch@));
                }
                let patch_oid = match self.lookup(&patch) {
                    Some(id) => id,
                    None => unreached(),
                };
                self.entry.unapplied.push(patch);
                proof {
                    assert(self@.meta.applied =~= m.applied.drop_last());
                    assert(self@.meta.unapplied =~= m.unapplied.push(m.applied.last()));
                    assert(self@.meta.patches =~= m.patches);
                }
                if self.entry.applied.len() > 0 {
                    let last_idx = self.entry.applied.len() - 1;
                    let ghost m2 = self@.meta;
                    let new_head = {
                        let last = &self.entry.applied[last_idx];
                        proof {
                            assert(m2.applied[last_idx as int] == last@);
                            assert(m2.applied.contains(last@));
                            assert(m2.has_patch(last@) == m.has_patch(last@));
                            assert(m.applied.contains(last@));
                        }
                        match self.lookup(last) {
                            Some(id) => id,
                            None => unreached(),
                        }
                    };
                    self.entry.head = new_head;
                    proof {
                        lemma_pop_keeps_wf(m, self@.meta);
                    }
                    Ok(())
                } else {
                    match get_parent(patch_oid) {
                        Ok(h) => {
                            self.entry.head = h;
                            Ok(())
                        },
                        Err(e) => Err(e),
                    }
                }
            },
        }
    }
}

/// A name after a renaming: `from` becomes `to`, all others are untouched.
pub open spec fn rename_name(n: Seq<char>, from: Seq<char>, to: Seq<char>) -> Seq<char> {
    if n == from {
        to
    } else {
        n
    }
}

impl QueueState {
    /// Renames a patch: the entry moves in the patch table and the name is
    /// rewritten inside whichever of the applied or unapplied lists holds it.
    /// The patch must exist, and the new name must not collide with another
    /// tracked patch.
    pub fn rename_patch(&mut self, old_name: &str, new_name: String)
        requires
            old(self).wf(),
            old(self)@.meta.has_patch(old_name@),
            !old(self)@.meta.has_patch(new_name@) || new_name@ == old_name@,
        ensures
            final(self)@.name == old(self)@.name,
            final(self)@.oid == old(self)@.oid,
            final(self).wf(),
            ({
                let m = old(self)@.meta;
                let m2 = final(self)@.meta;
                &&& m2.patches == m.patches.map_values(
                    |e: (Seq<char>, Seq<u8>)| (rename_name(e.0, old_name@, new_name@), e.1),
                )
                &&& m2.applied == m.applied.map_values(
                    |n: Seq<char>| rename_name(n, old_name@, new_name@),
                )
                &&& m2.unapplied == m.unapplied.map_values(
                    |n: Seq<char>| rename_name(n, old_name@, new_name@),
                )
                &&& m2.head == m.head
                &&& m2.base == m.base
                &&& m2.base_name == m.base_name
                &&& m2.previous == m.previous
            }),
    {
        let ghost m = self@.meta;
        let key = String::from_str(old_name);
        // move the entry in the patch table
        let pi = match self.patch_index(&key) {
            Some(i) => i,
            None => unreached(),
        };
        let id = self.entry.patches[pi].1.clone();
        self.entry.patches.set(pi, (new_name.clone(), id));
        proof {
            assert(m.patches[pi as int].0 == old_name@);
            assert forall|j: int| 0 <= j < m.patches.len() implies #[trigger] self@.meta.patches[j]
                == (rename_name(m.patches[j].0, old_name@, new_name@), m.patches[j].1) by {
                if j != pi as int {
                    assert(names_of(m.patches)[j] == m.patches[j].0);
                    assert(names_of(m.patches)[pi as int] == m.patches[pi as int].0);
                }
            }
            assert(self@.meta.patches =~= m.patches.map_values(
                |e: (Seq<char>, Seq<u8>)| (rename_name(e.0, old_name@, new_name@), e.1),
            ));
        }
        // rewrite the name inside whichever list holds it
        match index_in(&self.entry.applied, &key) {
            Some(a) => {
                proof {
                    assert(m.applied[a as int] == old_name@);
                }
                self.entry.applied.set(a, new_name);
                proof {
                    assert forall|j: int| 0 <= j < m.applied.len() implies
                        #[trigger] self@.meta.applied[j] == rename_name(
                        m.applied[j],
                        old_name@,
                        new_name@,
                    ) by {
                        if j != a as int {
                            assert(m.applied[j] != m.applied[a as int]);
                        }
                    }
                    assert(self@.meta.applied =~= m.applied.map_values(
                        |nm: Seq<char>| rename_name(nm, old_name@, new_name@),
                    ));
                    assert(!m.unapplied.contains(old_name@));
                    assert forall|j: int| 0 <= j < m.unapplied.len() implies
                        #[trigger] self@.meta.unapplied[j] == rename_name(
                        m.unapplied[j],
                        old_name@,
                        new_name@,
                    ) by {
                        assert(m.unapplied.contains(m.unapplied[j]));
                    }
                    assert(self@.meta.unapplied =~= m.unapplied.map_values(
                        |nm: Seq<char>| rename_name(nm, old_name@, new_name@),
                    ));
                }
            },
            None => {
                proof {
                    assert(!m.applied.contains(old_name@));
                    assert forall|j: int| 0 <= j < m.applied.len() implies
                        #[trigger] self@.meta.applied[j] == rename_name(
                        m.applied[j],
                        old_name@,
                        new_name@,
                    ) by {
                        assert(m.applied.contains(m.applied[j]));
                    }
                    assert(self@.meta.applied =~= m.applied.map_values(
                        |nm: Seq<char>| rename_name(nm, old_name@, new_name@),
                    ));
                }
                match index_in(&self.entry.unapplied, &key) {
                    Some(u) => {
                        proof {
                            assert(m.unapplied[u as int] == old_name@);
                        }
                        self.entry.unapplied.set(u, new_name);
                        proof {
                            assert forall|j: int| 0 <= j < m.unapplied.len() implies
                                #[trigger] self@.meta.unapplied[j] == rename_name(
                                m.unapplied[j],
                                old_name@,
                                new_name@,
                            ) by {
                                if j != u as int {
                                    assert(m.unapplied[j] != m.unapplied[u as int]);
                                }
                            }
                            assert(self@.meta.unapplied =~= m.unapplied.map_values(
                                |nm: Seq<char>| rename_name(nm, old_name@, new_name@),
                            ));
                        }
                    },
                    None => {
                        proof {
                            assert(!m.unapplied.contains(old_name@));
                            assert forall|j: int| 0 <= j < m.unapplied.len() implies
                                #[trigger] self@.meta.unapplied[j] == rename_name(
                                m.unapplied[j],
                                old_name@,
                                new_name@,
                            ) by {
                                assert(m.unapplied.contains(m.unapplied[j]));
                            }
                            assert(self@.meta.unapplied =~= m.unapplied.map_values(
                                |nm: Seq<char>| rename_name(nm, old_name@, new_name@),
                            ));
                        }
                    },
                }
            },
        }
        proof {
            lemma_rename_keeps_wf(m, self@.meta, old_name@, new_name@);
        }
    }

    /// Index of the named patch in the patch table.
    fn patch_index(&self, key: &String) -> (r: Option<usize>)
        ensures
            match r {
                Some(i) => i < self@.meta.patches.len() && self@.meta.patches[i as int].0
                    == key@,
                None => !self@.meta.has_patch(key@),
            },
    {
        let n = self.entry.patches.len();
        let mut i: usize = 0;
        while i < n
            invariant
                i <= n,
                n == self.entry.patches@.len(),
                forall|j: int| 0 <= j < i ==> self@.meta.patches[j].0 != key@,
            decreases n - i,
        {
            if self.entry.patches[i].0 == *key {
                proof {
                    assert(self@.meta.patches[i as int].0 == key@);
                }
                return Some(i);
            }
            i = i + 1;
        }
        None
    }
}

/// Index of the first name equal to `key` in a list of names.
fn index_in(v: &Vec<String>, key: &String) -> (r: Option<usize>)
    ensures
        match r {
            Some(i) => i < v@.len() && v.deep_view()[i as int] == key@,
            None => !v.deep_view().contains(key@),
        },
{
    let n = v.len();
    let mut i: usize = 0;
    while i < n
        invariant
            i <= n,
            n == v@.len(),
            forall|j: int| 0 <= j < i ==> v.deep_view()[j] != key@,
        decreases n - i,
    {
        if v[i] == *key {
            proof {
                assert(v.deep_view()[i as int] == key@);
            }
            return Some(i);
        }
        i = i + 1;
    }
    proof {
        if v.deep_view().contains(key@) {
            let j = choose|j: int| 0 <= j < v.deep_view().len() && v.deep_view()[j] == key@;
            assert(false);
        }
    }
    None
}


/// Renaming a tracked patch to a fresh name keeps the record invariant.
proof fn lemma_rename_keeps_wf(m: MetaView, m2: MetaView, from: Seq<char>, to: Seq<char>)
    requires
        m.wf(),
        m.has_patch(from),
        !m.has_patch(to) || to == from,
        m2.patches == m.patches.map_values(
            |e: (Seq<char>, Seq<u8>)| (rename_name(e.0, from, to), e.1),
        ),
        m2.applied == m.applied.map_values(|n: Seq<char>| rename_name(n, from, to)),
        m2.unapplied == m.unapplied.map_values(|n: Seq<char>| rename_name(n, from, to)),
        m2.head == m.head,
        m2.base == m.base,
        m2.previous == m.previous,
    ensures
        m2.wf(),
{
    if to == from {
        assert(m2.applied =~= m.applied);
        assert(m2.unapplied =~= m.unapplied);
        assert(m2.patches =~= m.patches);
        assert(m2.wf_ids());
        assert(names_of(m2.patches) =~= names_of(m.patches));
        assert forall|n: Seq<char>| m2.has_patch(n) <==> m2.applied.contains(n)
            || m2.unapplied.contains(n) by {
            assert(m2.has_patch(n) == m.has_patch(n));
        }
        assert(m2.partitioned());
        if m.applied.len() == 0 {
            assert(m2.head_ok());
        } else {
            let lastn = m.applied.last();
            assert(m.applied[m.applied.len() - 1] == lastn);
            assert(m.applied.contains(lastn));
            assert(m.has_patch(lastn));
            let k = choose|i: int| 0 <= i < m.patches.len() && m.patches[i].0 == lastn;
            lemma_patch_oid_at(m, k);
            lemma_patch_oid_at(m2, k);
            assert(m2.applied.last() == lastn);
            assert(m2.head_ok());
        }
        return;
    }
    assert(!m.applied.contains(to) && !m.unapplied.contains(to));
    assert(m2.wf_ids());
    // names stay distinct: renaming is injective on the tracked names
    assert forall|i: int, j: int|
        0 <= i < j < names_of(m2.patches).len() implies names_of(m2.patches)[i] != names_of(
        m2.patches,
    )[j] by {
        assert(names_of(m.patches)[i] == m.patches[i].0);
        assert(names_of(m.patches)[j] == m.patches[j].0);
        assert(names_of(m2.patches)[i] == rename_name(m.patches[i].0, from, to));
        assert(names_of(m2.patches)[j] == rename_name(m.patches[j].0, from, to));
        if m.patches[i].0 != from && m.patches[j].0 != from {
            if m.patches[i].0 == to || m.patches[j].0 == to {
                assert(m.has_patch(to));
            }
        }
    }
    assert forall|i: int, j: int| 0 <= i < j < m2.applied.len() implies m2.applied[i]
        != m2.applied[j] by {
        if m.applied[i] != from && m.applied[j] != from {
            if m.applied[i] == to || m.applied[j] == to {
                assert(m.applied.contains(to));
            }
        }
    }
    assert forall|i: int, j: int| 0 <= i < j < m2.unapplied.len() implies m2.unapplied[i]
        != m2.unapplied[j] by {
        if m.unapplied[i] != from && m.unapplied[j] != from {
            if m.unapplied[i] == to || m.unapplied[j] == to {
                assert(m.unapplied.contains(to));
            }
        }
    }
    // disjointness, by tracing each name back
    assert forall|n: Seq<char>| m2.applied.contains(n) implies !m2.unapplied.contains(n) by {
        let i = choose|i: int| 0 <= i < m2.applied.len() && m2.applied[i] == n;
        assert(m2.applied[i] == rename_name(m.applied[i], from, to));
        assert(m.applied.contains(m.applied[i]));
        if m2.unapplied.contains(n) {
            let j = choose|j: int| 0 <= j < m2.unapplied.len() && m2.unapplied[j] == n;
            assert(m2.unapplied[j] == rename_name(m.unapplied[j], from, to));
            assert(m.unapplied.contains(m.unapplied[j]));
            if m.applied[i] == from {
                assert(n == to);
                assert(m.unapplied[j] == from || m.unapplied[j] == to);
            } else {
                assert(n == m.applied[i]);
                if m.unapplied[j] == from {
                    assert(n == to);
                } else {
                    assert(m.applied.contains(n) && m.unapplied.contains(n));
                }
            }
            assert(false);
        }
    }
    assert forall|n: Seq<char>| m2.has_patch(n) implies m2.applied.contains(n)
        || m2.unapplied.contains(n) by {
        let i = choose|i: int| 0 <= i < m2.patches.len() && m2.patches[i].0 == n;
        assert(m2.patches[i].0 == rename_name(m.patches[i].0, from, to));
        assert(m.has_patch(m.patches[i].0));
        assert(m.applied.contains(m.patches[i].0) || m.unapplied.contains(m.patches[i].0));
        if m.applied.contains(m.patches[i].0) {
            let j = choose|j: int| 0 <= j < m.applied.len() && m.applied[j] == m.patches[i].0;
            assert(m2.applied[j] == rename_name(m.applied[j], from, to));
            assert(m2.applied[j] == n);
            assert(m2.applied.contains(n));
        } else {
            let j = choose|j: int|
                0 <= j < m.unapplied.len() && m.unapplied[j] == m.patches[i].0;
            assert(m2.unapplied[j] == n);
            assert(m2.unapplied.contains(n));
        }
    }
    assert forall|n: Seq<char>| m2.applied.contains(n) || m2.unapplied.contains(n) implies
        m2.has_patch(n) by {
        if m2.applied.contains(n) {
            let i = choose|i: int| 0 <= i < m2.applied.len() && m2.applied[i] == n;
            assert(m.applied.contains(m.applied[i]));
            assert(m.has_patch(m.applied[i]));
            let j = choose|j: int| 0 <= j < m.patches.len() && m.patches[j].0 == m.applied[i];
            assert(m2.patches[j].0 == rename_name(m.patches[j].0, from, to));
            assert(m2.patches[j].0 == n);
        } else {
            let i = choose|i: int| 0 <= i < m2.unapplied.len() && m2.unapplied[i] == n;
            assert(m.unapplied.contains(m.unapplied[i]));
            assert(m.has_patch(m.unapplied[i]));
            let j = choose|j: int|
                0 <= j < m.patches.len() && m.patches[j].0 == m.unapplied[i];
            assert(m2.patches[j].0 == rename_name(m.patches[j].0, from, to));
            assert(m2.patches[j].0 == n);
        }
    }
    // the head still tracks the last applied patch
    if m.applied.len() == 0 {
        assert(m2.applied.len() == 0);
        assert(m2.head_ok());
    } else {
        let lastn = m.applied.last();
        assert(m.applied[m.applied.len() - 1] == lastn);
        assert(m2.applied.last() == rename_name(lastn, from, to));
        assert(m.applied.contains(lastn));
        assert(m.has_patch(lastn));
        let k = choose|i: int| 0 <= i < m.patches.len() && m.patches[i].0 == lastn;
        lemma_patch_oid_at(m, k);
        assert(m2.patches[k].0 == rename_name(lastn, from, to));
        lemma_patch_oid_at(m2, k);
        assert(m2.patch_oid(m2.applied.last()) == m2.patches[k].1);
        assert(m2.patches[k].1 == m.patches[k].1);
        assert(m2.head_ok());
    }
}

/// Moving the top applied patch onto the unapplied pile keeps the record
/// invariant, provided patches remain applied and the head moves to the new
/// top.
proof fn lemma_pop_keeps_wf(m: MetaView, m2: MetaView)
    requires
        m.wf(),
        m.applied.len() > 1,
        m2.applied == m.applied.drop_last(),
        m2.unapplied == m.unapplied.push(m.applied.last()),
        m2.patches == m.patches,
        m2.head == m.patch_oid(m.applied.drop_last().last()),
        m2.base == m.base,
        m2.previous == m.previous,
    ensures
        m2.wf(),
{
    let moved = m.applied.last();
    assert(m.applied[m.applied.len() - 1] == moved);
    assert(m.applied.contains(moved));
    let top = m2.applied.last();
    assert(m2.applied[m2.applied.len() - 1] == top);
    assert(m.applied[m.applied.len() - 2] == top);
    assert(m.applied.contains(top));
    assert(m.has_patch(top));
    let k = choose|i: int| 0 <= i < m.patches.len() && m.patches[i].0 == top;
    assert(m.patches[k].1.len() == crate::oid::OID_LEN);
    lemma_patch_oid_at(m, k);
    assert(m.patch_oid(top) == m.patches[k].1);
    assert(m2.wf_ids());
    // distinctness of both lists
    assert forall|i: int, j: int| 0 <= i < j < m2.applied.len() implies m2.applied[i]
        != m2.applied[j] by {
        assert(m.applied[i] == m2.applied[i]);
        assert(m.applied[j] == m2.applied[j]);
    }
    assert forall|i: int, j: int| 0 <= i < j < m2.unapplied.len() implies m2.unapplied[i]
        != m2.unapplied[j] by {
        if j < m.unapplied.len() {
        } else {
            assert(m2.unapplied[j] == moved);
            assert(m2.unapplied[i] == m.unapplied[i]);
            assert(m.unapplied.contains(m.unapplied[i]));
            assert(!m.unapplied.contains(moved));
        }
    }
    // disjointness
    assert forall|n: Seq<char>| m2.applied.contains(n) implies !m2.unapplied.contains(n) by {
        let i = choose|i: int| 0 <= i < m2.applied.len() && m2.applied[i] == n;
        assert(m.applied[i] == n);
        assert(m.applied.contains(n));
        if m2.unapplied.contains(n) {
            let j = choose|j: int| 0 <= j < m2.unapplied.len() && m2.unapplied[j] == n;
            if j < m.unapplied.len() {
                assert(m.unapplied.contains(n));
            } else {
                // n would be the moved patch, which sat after i in the old list
                assert(m2.unapplied[j] == moved);
            }
        }
    }
    // coverage
    assert forall|n: Seq<char>| m2.has_patch(n) <==> m2.applied.contains(n)
        || m2.unapplied.contains(n) by {
        assert(m2.has_patch(n) == m.has_patch(n));
        if m.applied.contains(n) {
            let j = choose|j: int| 0 <= j < m.applied.len() && m.applied[j] == n;
            if j == m.applied.len() - 1 {
                assert(m2.unapplied.last() == n);
                assert(m2.unapplied.contains(n));
            } else {
                assert(m2.applied[j] == n);
                assert(m2.applied.contains(n));
            }
        }
        if m.unapplied.contains(n) {
            let j = choose|j: int| 0 <= j < m.unapplied.len() && m.unapplied[j] == n;
            assert(m2.unapplied[j] == n);
            assert(m2.unapplied.contains(n));
        }
        if m2.applied.contains(n) {
            let j = choose|j: int| 0 <= j < m2.applied.len() && m2.applied[j] == n;
            assert(m.applied[j] == n);
            assert(m.applied.contains(n));
        }
        if m2.unapplied.contains(n) {
            let j = choose|j: int| 0 <= j < m2.unapplied.len() && m2.unapplied[j] == n;
            if j < m.unapplied.len() {
                assert(m.unapplied[j] == n);
                assert(m.unapplied.contains(n));
            } else {
                assert(m.applied.contains(moved));
            }
        }
    }
    assert(m2.head_ok());
}

/// Moving the last unapplied patch to the top of the applied series keeps
/// the record invariant, provided the head moves to that patch.
proof fn lemma_push_preserves_wf(m: MetaView, m2: MetaView)
    requires
        m.wf(),
        m.unapplied.len() > 0,
        m2.applied == m.applied.push(m.unapplied.last()),
        m2.unapplied == m.unapplied.drop_last(),
        m2.patches == m.patches,
        m2.head == m.patch_oid(m.unapplied.last()),
        m2.base == m.base,
        m2.previous == m.previous,
    ensures
        m2.wf(),
{
    let moved = m.unapplied.last();
    assert(m.unapplied[m.unapplied.len() - 1] == moved);
    assert(m.unapplied.contains(moved));
    assert(!m.applied.contains(moved));
    // the moved patch is tracked, and its recorded id is well-formed
    assert(m.has_patch(moved));
    let k = choose|i: int| 0 <= i < m.patches.len() && m.patches[i].0 == moved;
    assert(m.patches[k].1.len() == crate::oid::OID_LEN);
    lemma_patch_oid_at(m, k);
    assert(m.patch_oid(moved) == m.patches[k].1);
    assert(m2.wf_ids());
    // distinctness of the new applied list
    assert forall|i: int, j: int| 0 <= i < j < m2.applied.len() implies m2.applied[i]
        != m2.applied[j] by {
        if j < m.applied.len() {
        } else {
            assert(m2.applied[j] == moved);
            assert(m2.applied[i] == m.applied[i]);
            assert(m.applied.contains(m.applied[i]));
        }
    }
    // distinctness of the new unapplied list
    assert forall|i: int, j: int| 0 <= i < j < m2.unapplied.len() implies m2.unapplied[i]
        != m2.unapplied[j] by {
        assert(m.unapplied[i] == m2.unapplied[i]);
        assert(m.unapplied[j] == m2.unapplied[j]);
    }
    // disjointness and coverage
    assert forall|n: Seq<char>| m2.applied.contains(n) implies !m2.unapplied.contains(n) by {
        let i = choose|i: int| 0 <= i < m2.applied.len() && m2.applied[i] == n;
        if i < m.applied.len() {
            assert(m.applied.contains(n));
            if m2.unapplied.contains(n) {
                let j = choose|j: int| 0 <= j < m2.unapplied.len() && m2.unapplied[j] == n;
                assert(m.unapplied[j] == n);
                assert(m.unapplied.contains(n));
            }
        } else {
            // n is the moved patch; it sat last in the old unapplied list
            if m2.unapplied.contains(n) {
                let j = choose|j: int| 0 <= j < m2.unapplied.len() && m2.unapplied[j] == n;
                assert(m.unapplied[j] == n);
                assert(m.unapplied[m.unapplied.len() - 1] == n);
            }
        }
    }
    assert forall|n: Seq<char>| m2.has_patch(n) <==> m2.applied.contains(n)
        || m2.unapplied.contains(n) by {
        assert(m2.has_patch(n) == m.has_patch(n));
        if m.unapplied.contains(n) {
            let j = choose|j: int| 0 <= j < m.unapplied.len() && m.unapplied[j] == n;
            if j == m.unapplied.len() - 1 {
                assert(m2.applied.last() == n);
                assert(m2.applied.contains(n));
            } else {
                assert(m2.unapplied[j] == n);
                assert(m2.unapplied.contains(n));
            }
        }
        if m.applied.contains(n) {
            let j = choose|j: int| 0 <= j < m.applied.len() && m.applied[j] == n;
            assert(m2.applied[j] == n);
            assert(m2.applied.contains(n));
        }
        if m2.applied.contains(n) {
            let j = choose|j: int| 0 <= j < m2.applied.len() && m2.applied[j] == n;
            if j < m.applied.len() {
                assert(m.applied.contains(n));
            } else {
                assert(m.unapplied.contains(moved));
            }
        }
        if m2.unapplied.contains(n) {
            let j = choose|j: int| 0 <= j < m2.unapplied.len() && m2.unapplied[j] == n;
            assert(m.unapplied[j] == n);
            assert(m.unapplied.contains(n));
        }
    }
    // the head tracks the new last applied patch
    assert(m2.applied.last() == moved);
    assert(m2.head_ok());
}

} // verus!

verus! {

impl QueueState {
    /// Updates or creates a patch in the state.  A new name is appended to
    /// the applied series (an implicit "apply at top"); the recorded id of
    /// the patch always becomes `commit`.
    pub fn upsert_patch(&mut self, patch: String, commit: ObjectId)
        requires
            old(self).wf(),
            commit.wf(),
        ensures
            final(self)@.name == old(self)@.name,
            final(self)@.oid == old(self)@.oid,
            final(self)@.meta.wf_ids(),
            final(self)@.meta.partitioned(),
            ({
                let m = old(self)@.meta;
                let m2 = final(self)@.meta;
                &&& m2.unapplied == m.unapplied
                &&& m2.head == m.head
                &&& m2.base == m.base
                &&& m2.base_name == m.base_name
                &&& m2.previous == m.previous
                &&& if m.has_patch(patch@) {
                    &&& m2.applied == m.applied
                    &&& m2.patches.len() == m.patches.len()
                    &&& forall|j: int| 0 <= j < m.patches.len() ==> #[trigger] m2.patches[j]
                        == (if m.patches[j].0 == patch@ {
                            (patch@, commit@)
                        } else {
                            m.patches[j]
                        })
                } else {
                    &&& m2.applied == m.applied.push(patch@)
                    &&& m2.patches == m.patches.push((patch@, commit@))
                }
            }),
            ({
                let m = old(self)@.meta;
                &&& (m.has_patch(patch@) && m.applied.len() == 0 ==> final(self).wf())
                &&& (m.has_patch(patch@) && m.applied.len() > 0 && m.applied.last() != patch@
                    ==> final(self).wf())
                &&& (commit@ == m.head ==> final(self).wf())
            }),
    {
        let ghost m = self@.meta;
        match self.patch_index(&patch) {
            Some(k) => {
                proof {
                    assert(m.patches[k as int].0 == patch@);
                }
                proof {
                    assert(m.has_patch(patch@));
                }
                self.entry.patches.set(k, (patch, commit));
                proof {
                    assert(self@.meta.patches =~= m.patches.update(
                        k as int,
                        (m.patches[k as int].0, commit@),
                    ));
                    lemma_upsert_existing(m, self@.meta, k as int, commit@);
                    assert forall|j: int| 0 <= j < m.patches.len() implies
                        #[trigger] self@.meta.patches[j] == (if m.patches[j].0 == patch@ {
                        (patch@, commit@)
                    } else {
                        m.patches[j]
                    }) by {
                        if j != k as int {
                            assert(names_of(m.patches)[j] == m.patches[j].0);
                            assert(names_of(m.patches)[k as int] == m.patches[k as int].0);
                        }
                    }
                    if m.applied.len() > 0 && m.applied.last() == m.patches[k as int].0
                        && commit@ == m.head {
                        assert(self@.meta.wf());
                    }
                }
            },
            None => {
                self.entry.applied.push(patch.clone());
                self.entry.patches.push((patch, commit));
                proof {
                    assert(self@.meta.applied =~= m.applied.push(patch@));
                    assert(self@.meta.patches =~= m.patches.push((patch@, commit@)));
                    lemma_upsert_fresh(m, self@.meta, patch@, commit@);
                }
            },
        }
    }

    /// The applied patches with their commits, bottom first.
    pub fn applied(&self) -> (r: Vec<(String, ObjectId)>)
        requires
            self.wf(),
        ensures
            r@.len() == self@.meta.applied.len(),
            forall|i: int| 0 <= i < r@.len() ==> (#[trigger] r@[i]).0@ == self@.meta.applied[i]
                && r@[i].1@ == self@.meta.patch_oid(self@.meta.applied[i]),
    {
        let mut out: Vec<(String, ObjectId)> = Vec::new();
        let n = self.entry.applied.len();
        let mut i: usize = 0;
        while i < n
            invariant
                i <= n,
                self.wf(),
                n == self@.meta.applied.len(),
                out@.len() == i,
                forall|j: int| 0 <= j < i ==> (#[trigger] out@[j]).0@ == self@.meta.applied[j]
                    && out@[j].1@ == self@.meta.patch_oid(self@.meta.applied[j]),
            decreases n - i,
        {
            let name = self.entry.applied[i].clone();
            proof {
                assert(self@.meta.applied[i as int] == name@);
                assert(self@.meta.applied.contains(name@));
            }
            let id = match self.lookup(&name) {
                Some(id) => id,
                None => unreached(),
            };
            out.push((name, id));
            i = i + 1;
        }
        out
    }

    /// The unapplied patches with their commits.
    pub fn unapplied(&self) -> (r: Vec<(String, ObjectId)>)
        requires
            self.wf(),
        ensures
            r@.len() == self@.meta.unapplied.len(),
            forall|i: int| 0 <= i < r@.len() ==> (#[trigger] r@[i]).0@ == self@.meta.unapplied[i]
                && r@[i].1@ == self@.meta.patch_oid(self@.meta.unapplied[i]),
    {
        let mut out: Vec<(String, ObjectId)> = Vec::new();
        let n = self.entry.unapplied.len();
        let mut i: usize = 0;
        while i < n
            invariant
                i <= n,
                self.wf(),
                n == self@.meta.unapplied.len(),
                out@.len() == i,
                forall|j: int| 0 <= j < i ==> (#[trigger] out@[j]).0@ == self@.meta.unapplied[j]
                    && out@[j].1@ == self@.meta.patch_oid(self@.meta.unapplied[j]),
            decreases n - i,
        {
            let name = self.entry.unapplied[i].clone();
            proof {
                assert(self@.meta.unapplied[i as int] == name@);
                assert(self@.meta.unapplied.contains(name@));
            }
            let id = match self.lookup(&name) {
                Some(id) => id,
                None => unreached(),
            };
            out.push((name, id));
            i = i + 1;
        }
        out
    }
}

/// Overwriting the id of a tracked patch keeps the partition invariant, and
/// the whole invariant whenever the patch is not the top of the stack or the
/// new id is the current head.
proof fn lemma_upsert_existing(m: MetaView, m2: MetaView, k: int, id: Seq<u8>)
    requires
        m.wf(),
        id.len() == crate::oid::OID_LEN,
        0 <= k < m.patches.len(),
        m2.patches == m.patches.update(k, (m.patches[k].0, id)),
        m2.applied == m.applied,
        m2.unapplied == m.unapplied,
        m2.head == m.head,
        m2.base == m.base,
        m2.previous == m.previous,
    ensures
        m2.wf_ids(),
        m2.partitioned(),
        m.applied.len() == 0 ==> m2.wf(),
        m.applied.len() > 0 && m.applied.last() != m.patches[k].0 ==> m2.wf(),
        m.applied.len() > 0 && m.applied.last() == m.patches[k].0 && id == m.head ==> m2.wf(),
{
    assert(m2.wf_ids());
    assert(names_of(m2.patches) =~= names_of(m.patches));
    assert forall|n: Seq<char>| m2.has_patch(n) <==> m.has_patch(n) by {
        if m2.has_patch(n) {
            let i = choose|i: int| 0 <= i < m2.patches.len() && m2.patches[i].0 == n;
            assert(m.patches[i].0 == n);
        }
        if m.has_patch(n) {
            let i = choose|i: int| 0 <= i < m.patches.len() && m.patches[i].0 == n;
            assert(m2.patches[i].0 == n);
        }
    }
    assert(m2.partitioned());
    if m.applied.len() > 0 {
        let lastn = m.applied.last();
        assert(m.applied[m.applied.len() - 1] == lastn);
        assert(m.applied.contains(lastn));
        assert(m.has_patch(lastn));
        let j = choose|i: int| 0 <= i < m.patches.len() && m.patches[i].0 == lastn;
        lemma_patch_oid_at(m, j);
        if lastn != m.patches[k].0 {
            assert(names_of(m.patches)[j] == m.patches[j].0);
            assert(names_of(m.patches)[k] == m.patches[k].0);
            assert(j != k);
            assert(m2.patches[j] == m.patches[j]);
            lemma_patch_oid_at(m2, j);
            assert(m2.head_ok());
        } else {
            assert(names_of(m.patches)[j] == m.patches[j].0);
            assert(names_of(m.patches)[k] == m.patches[k].0);
            assert(j == k);
            assert(m2.patches[k] == (m.patches[k].0, id));
            lemma_patch_oid_at(m2, k);
            assert(m2.patch_oid(lastn) == id);
            if id == m.head {
                assert(m2.head_ok());
            }
        }
    }
}

/// Appending a fresh patch at the top keeps the partition invariant, and the
/// whole invariant whenever the new id is the current head.
proof fn lemma_upsert_fresh(m: MetaView, m2: MetaView, name: Seq<char>, id: Seq<u8>)
    requires
        m.wf(),
        id.len() == crate::oid::OID_LEN,
        !m.has_patch(name),
        m2.patches == m.patches.push((name, id)),
        m2.applied == m.applied.push(name),
        m2.unapplied == m.unapplied,
        m2.head == m.head,
        m2.base == m.base,
        m2.previous == m.previous,
    ensures
        m2.wf_ids(),
        m2.partitioned(),
        id == m.head ==> m2.wf(),
{
    assert(!m.applied.contains(name) && !m.unapplied.contains(name));
    assert(m2.wf_ids());
    let np = m.patches.len() as int;
    assert(names_of(m2.patches) =~= names_of(m.patches).push(name));
    assert forall|i: int, j: int|
        0 <= i < j < names_of(m2.patches).len() implies names_of(m2.patches)[i] != names_of(
        m2.patches,
    )[j] by {
        if j < np {
        } else {
            assert(names_of(m2.patches)[j] == name);
            assert(names_of(m2.patches)[i] == names_of(m.patches)[i]);
            assert(names_of(m.patches)[i] == m.patches[i].0);
            assert(m.has_patch(m.patches[i].0));
        }
    }
    assert forall|i: int, j: int| 0 <= i < j < m2.applied.len() implies m2.applied[i]
        != m2.applied[j] by {
        if j < m.applied.len() {
        } else {
            assert(m2.applied[j] == name);
            assert(m2.applied[i] == m.applied[i]);
            assert(m.applied.contains(m.applied[i]));
        }
    }
    assert forall|n: Seq<char>| m2.applied.contains(n) implies !m2.unapplied.contains(n) by {
        let i = choose|i: int| 0 <= i < m2.applied.len() && m2.applied[i] == n;
        if i < m.applied.len() {
            assert(m.applied.contains(n));
        } else {
            assert(n == name);
        }
    }
    assert forall|n: Seq<char>| m2.has_patch(n) <==> m2.applied.contains(n)
        || m2.unapplied.contains(n) by {
        if m2.has_patch(n) {
            let i = choose|i: int| 0 <= i < m2.patches.len() && m2.patches[i].0 == n;
            if i < np {
                assert(m.patches[i].0 == n);
                assert(m.has_patch(n));
                if m.applied.contains(n) {
                    let j = choose|j: int| 0 <= j < m.applied.len() && m.applied[j] == n;
                    assert(m2.applied[j] == n);
                    assert(m2.applied.contains(n));
                }
            } else {
                assert(n == name);
                assert(m2.applied[m.applied.len() as int] == name);
                assert(m2.applied.contains(name));
            }
        }
        if m2.applied.contains(n) {
            let i = choose|i: int| 0 <= i < m2.applied.len() && m2.applied[i] == n;
            if i < m.applied.len() {
                assert(m.applied.contains(n));
                assert(m.has_patch(n));
                let j = choose|j: int| 0 <= j < m.patches.len() && m.patches[j].0 == n;
                assert(m2.patches[j].0 == n);
            } else {
                assert(n == name);
                assert(m2.patches[np].0 == name);
            }
        }
        if m2.unapplied.contains(n) {
            assert(m.unapplied.contains(n));
            assert(m.has_patch(n));
            let j = choose|j: int| 0 <= j < m.patches.len() && m.patches[j].0 == n;
            assert(m2.patches[j].0 == n);
        }
    }
    assert(m2.partitioned());
    if id == m.head {
        assert(m2.applied[m.applied.len() as int] == name);
        assert(m2.applied.len() > 0);
        assert(m2.applied.last() == name);
        assert(m2.patches[np] == (name, id));
        lemma_patch_oid_at(m2, np);
        assert(m2.patch_oid(name) == id);
        assert(m2.head_ok());
    }
}

} // verus!

verus! {

/// Does the list hold this name?
fn contains_name(v: &Vec<String>, name: &String) -> (r: bool)
    ensures
        r == v.deep_view().contains(name@),
{
    match index_in(v, name) {
        Some(i) => {
            proof {
                assert(v.deep_view()[i as int] == name@);
            }
            true
        },
        None => false,
    }
}

/// Are all names in the list distinct?
fn distinct_names(v: &Vec<String>) -> (r: bool)
    ensures
        r == distinct_seq(v.deep_view()),
{
    let n = v.len();
    let mut i: usize = 0;
    while i < n
        invariant
            i <= n,
            n == v@.len(),
            forall|a: int, b: int| 0 <= a < b < n && a < i ==> v.deep_view()[a]
                != v.deep_view()[b],
        decreases n - i,
    {
        let mut j: usize = i + 1;
        while j < n
            invariant
                i < j <= n,
                n == v@.len(),
                forall|a: int, b: int| 0 <= a < b < n && a < i ==> v.deep_view()[a]
                    != v.deep_view()[b],
                forall|b: int| i < b < j ==> v.deep_view()[i as int] != v.deep_view()[b],
            decreases n - j,
        {
            if v[i] == v[j] {
                proof {
                    assert(v.deep_view()[i as int] == v.deep_view()[j as int]);
                }
                return false;
            }
            j = j + 1;
        }
        i = i + 1;
    }
    true
}

/// Are the names in the patch table distinct?
fn distinct_patch_names(p: &Vec<(String, ObjectId)>) -> (r: bool)
    ensures
        r == distinct_seq(names_of(pairs_view(p@))),
{
    let n = p.len();
    let mut i: usize = 0;
    while i < n
        invariant
            i <= n,
            n == p@.len(),
            forall|a: int, b: int|
                0 <= a < b < n && a < i ==> names_of(pairs_view(p@))[a] != names_of(
                    pairs_view(p@),
                )[b],
        decreases n - i,
    {
        let mut j: usize = i + 1;
        while j < n
            invariant
                i < j <= n,
                n == p@.len(),
                forall|a: int, b: int|
                    0 <= a < b < n && a < i ==> names_of(pairs_view(p@))[a] != names_of(
                        pairs_view(p@),
                    )[b],
                forall|b: int|
                    i < b < j ==> names_of(pairs_view(p@))[i as int] != names_of(
                        pairs_view(p@),
                    )[b],
            decreases n - j,
        {
            if p[i].0 == p[j].0 {
                proof {
                    assert(names_of(pairs_view(p@))[i as int] == p@[i as int].0@);
                    assert(names_of(pairs_view(p@))[j as int] == p@[j as int].0@);
                }
                return false;
            }
            proof {
                assert(names_of(pairs_view(p@))[i as int] == p@[i as int].0@);
                assert(names_of(pairs_view(p@))[j as int] == p@[j as int].0@);
            }
            j = j + 1;
        }
        i = i + 1;
    }
    true
}

/// Check a decoded record against the full queue invariant: the applied and
/// unapplied lists partition the patch table's names without duplicates, all
/// ids are well-formed, and the head is the last applied patch (or the base
/// when nothing is applied).
pub fn validate(m: &MetaRecord) -> (r: bool)
    ensures
        r == m@.wf(),
{
    // well-formed ids
    if m.head.as_bytes().len() != OID_LEN || m.base.as_bytes().len() != OID_LEN {
        return false;
    }
    match &m.previous {
        Some(p) => {
            if p.as_bytes().len() != OID_LEN {
                return false;
            }
        },
        None => {},
    }
    let np = m.patches.len();
    let mut i: usize = 0;
    while i < np
        invariant
            i <= np,
            np == m.patches@.len(),
            forall|j: int| 0 <= j < i ==> (#[trigger] m@.patches[j]).1.len() == OID_LEN,
        decreases np - i,
    {
        if m.patches[i].1.as_bytes().len() != OID_LEN {
            proof {
                assert(m@.patches[i as int].1.len() != OID_LEN);
            }
            return false;
        }
        i = i + 1;
    }
    proof {
        assert(m@.wf_ids());
    }
    // duplicate-free lists and table
    if !distinct_names(&m.applied) || !distinct_names(&m.unapplied) || !distinct_patch_names(
        &m.patches,
    ) {
        return false;
    }
    // disjointness, and every applied or unapplied name is tracked
    let na = m.applied.len();
    let mut a: usize = 0;
    while a < na
        invariant
            a <= na,
            na == m.applied@.len(),
            forall|j: int| 0 <= j < a ==> !m@.unapplied.contains(#[trigger] m@.applied[j]),
            forall|j: int| 0 <= j < a ==> m@.has_patch(#[trigger] m@.applied[j]),
        decreases na - a,
    {
        if contains_name(&m.unapplied, &m.applied[a]) {
            proof {
                assert(m@.unapplied.contains(m@.applied[a as int]));
            }
            return false;
        }
        if !pairs_contain(&m.patches, &m.applied[a]) {
            proof {
                if m@.has_patch(m@.applied[a as int]) {
                    let k = choose|k: int|
                        0 <= k < m@.patches.len() && m@.patches[k].0 == m@.applied[a as int];
                    assert(m.patches@[k].0@ == m@.applied[a as int]);
                }
            }
            return false;
        }
        proof {
            let k = choose|k: int|
                0 <= k < m.patches@.len() && (#[trigger] m.patches@[k]).0@
                    == m@.applied[a as int];
            assert(m@.patches[k].0 == m@.applied[a as int]);
        }
        a = a + 1;
    }
    let nu = m.unapplied.len();
    let mut u: usize = 0;
    while u < nu
        invariant
            u <= nu,
            nu == m.unapplied@.len(),
            forall|j: int| 0 <= j < u ==> m@.has_patch(#[trigger] m@.unapplied[j]),
        decreases nu - u,
    {
        if !pairs_contain(&m.patches, &m.unapplied[u]) {
            proof {
                if m@.has_patch(m@.unapplied[u as int]) {
                    let k = choose|k: int|
                        0 <= k < m@.patches.len() && m@.patches[k].0 == m@.unapplied[u as int];
                    assert(m.patches@[k].0@ == m@.unapplied[u as int]);
                }
            }
            return false;
        }
        proof {
            let k = choose|k: int|
                0 <= k < m.patches@.len() && (#[trigger] m.patches@[k]).0@
                    == m@.unapplied[u as int];
            assert(m@.patches[k].0 == m@.unapplied[u as int]);
        }
        u = u + 1;
    }
    // every tracked name sits in one of the two lists
    let mut t: usize = 0;
    while t < np
        invariant
            t <= np,
            np == m.patches@.len(),
            forall|j: int|
                0 <= j < t ==> m@.applied.contains((#[trigger] m@.patches[j]).0)
                    || m@.unapplied.contains(m@.patches[j].0),
        decreases np - t,
    {
        let in_a = contains_name(&m.applied, &m.patches[t].0);
        let in_u = contains_name(&m.unapplied, &m.patches[t].0);
        if !in_a && !in_u {
            proof {
                assert(m@.patches[t as int].0 == m.patches@[t as int].0@);
                assert(!m@.applied.contains(m@.patches[t as int].0));
                assert(!m@.unapplied.contains(m@.patches[t as int].0));
                assert(m@.has_patch(m@.patches[t as int].0));
                assert(!m@.partitioned());
            }
            return false;
        }
        proof {
            assert(m@.patches[t as int].0 == m.patches@[t as int].0@);
        }
        t = t + 1;
    }
    proof {
        assert forall|n: Seq<char>| m@.has_patch(n) implies m@.applied.contains(n)
            || m@.unapplied.contains(n) by {
            let k = choose|k: int| 0 <= k < m@.patches.len() && m@.patches[k].0 == n;
        }
        assert(m@.partitioned());
    }
    // the head tracks the stack
    if m.applied.len() == 0 {
        let ok = m.head == m.base;
        proof {
            if m@.applied.len() == 0 {
                assert(m@.head_ok() == (m@.head == m@.base));
            }
        }
        ok
    } else {
        let last = &m.applied[m.applied.len() - 1];
        proof {
            assert(m@.applied[m@.applied.len() - 1] == last@);
            assert(m@.applied.contains(last@));
            assert(m@.has_patch(last@));
        }
        match lookup_in_pairs(&m.patches, last) {
            Some(id) => {
                let ok = id == m.head;
                proof {
                    assert(m@.applied.last() == last@);
                    let k = choose|k: int|
                        0 <= k < pairs_view(m.patches@).len() && (#[trigger] pairs_view(
                            m.patches@,
                        )[k]).0 == last@ && pairs_view(m.patches@)[k].1 == id@;
                    lemma_patch_oid_at(m@, k);
                    assert(m@.patch_oid(last@) == id@);
                    assert(m@.head_ok() == (m@.head == id@));
                }
                ok
            },
            None => {
                proof {
                    let k = choose|k: int|
                        0 <= k < m@.patches.len() && m@.patches[k].0 == last@;
                    assert(pairs_view(m.patches@)[k].0 == last@);
                }
                unreached()
            },
        }
    }
}

/// The id recorded for a name in a duplicate-free patch table.
fn lookup_in_pairs(p: &Vec<(String, ObjectId)>, name: &String) -> (r: Option<ObjectId>)
    ensures
        match r {
            Some(id) => exists|k: int|
                0 <= k < pairs_view(p@).len() && (#[trigger] pairs_view(p@)[k]).0 == name@
                    && pairs_view(p@)[k].1 == id@,
            None => forall|k: int|
                0 <= k < pairs_view(p@).len() ==> (#[trigger] pairs_view(p@)[k]).0 != name@,
        },
{
    let n = p.len();
    let mut i: usize = 0;
    while i < n
        invariant
            i <= n,
            n == p@.len(),
            forall|j: int| 0 <= j < i ==> (#[trigger] pairs_view(p@)[j]).0 != name@,
        decreases n - i,
    {
        if p[i].0 == *name {
            let id = p[i].1.clone();
            proof {
                assert(pairs_view(p@)[i as int].0 == name@);
                assert(pairs_view(p@)[i as int].1 == id@);
            }
            return Some(id);
        }
        proof {
            assert(pairs_view(p@)[i as int].0 == p@[i as int].0@);
        }
        i = i + 1;
    }
    None
}

} // verus!

verus! {

/// The first parent of a commit: what the head becomes when the last
/// applied patch is popped.
pub fn parent_of(repo: &git2::Repository, commit: &ObjectId) -> (r: Result<
    ObjectId,
    QueueError,
>)
    requires
        commit.wf(),
    ensures
        match r {
            Ok(p) => p.wf() && crate::repo::commit_parents_of(commit@).len() > 0 && p@
                == crate::repo::commit_parents_of(commit@)[0],
            Err(_) => true,
        },
{
    match crate::repo::first_parent(repo, commit) {
        Ok(p) => Ok(p),
        Err(e) => Err(gerr(&e)),
    }
}

/// Facts that hold of every committed log entry: the entry's tree is the
/// previous entry's tree with the `meta` blob replaced by the record's
/// canonical serialization, and the parent list pins the previous entry,
/// the repository HEAD of the moment, and every tracked patch, in order.
pub open spec fn committed_entry_ok(id: Seq<u8>, m: MetaView) -> bool {
    &&& id.len() == OID_LEN
    &&& match m.previous {
        Some(prev) => {
            &&& commit_tree_paths(id) == commit_tree_paths(prev).insert(
                "meta"@,
                blob_id_of(enc_meta(m)),
            )
            &&& commit_parents_of(id).len() == 2 + m.patches.len()
            &&& commit_parents_of(id)[0] == prev
            &&& forall|i: int| 0 <= i < m.patches.len() ==> commit_parents_of(id)[2 + i] == (
            #[trigger] m.patches[i]).1
        },
        None => false,
    }
}

/// A committed log entry's tree differs from the previous entry's tree at
/// exactly one path: `meta`.
pub proof fn lemma_entry_changes_only_meta(id: Seq<u8>, m: MetaView, p: Seq<char>)
    requires
        committed_entry_ok(id, m),
    ensures
        commit_tree_paths(id).contains_key("meta"@),
        commit_tree_paths(id)["meta"@] == blob_id_of(enc_meta(m)),
        match m.previous {
            Some(prev) => p != "meta"@ ==> (commit_tree_paths(id).contains_key(p)
                <==> commit_tree_paths(prev).contains_key(p)) && (commit_tree_paths(
                prev,
            ).contains_key(p) ==> commit_tree_paths(id)[p] == commit_tree_paths(prev)[p]),
            None => false,
        },
{
}

/// The parent set of a committed log entry is a reachability anchor: the
/// previous entry, every tracked patch commit, and — whenever any patch is
/// applied — the head are all direct parents.  When nothing is applied the
/// head equals the base.
pub proof fn lemma_entry_parents_pin_record(id: Seq<u8>, m: MetaView)
    requires
        committed_entry_ok(id, m),
        m.wf(),
    ensures
        match m.previous {
            Some(prev) => commit_parents_of(id).contains(prev),
            None => false,
        },
        forall|i: int|
            0 <= i < m.patches.len() ==> commit_parents_of(id).contains(
                (#[trigger] m.patches[i]).1,
            ),
        m.applied.len() > 0 ==> commit_parents_of(id).contains(m.head),
        m.applied.len() == 0 ==> m.head == m.base,
{
    let ps = commit_parents_of(id);
    assert(ps[0] == (match m.previous {
        Some(prev) => prev,
        None => Seq::empty(),
    }));
    assert(ps.contains(ps[0]));
    assert forall|i: int| 0 <= i < m.patches.len() implies ps.contains(
        (#[trigger] m.patches[i]).1,
    ) by {
        assert(ps[2 + i] == m.patches[i].1);
    }
    if m.applied.len() > 0 {
        let lastn = m.applied.last();
        assert(m.applied[m.applied.len() - 1] == lastn);
        assert(m.applied.contains(lastn));
        assert(m.has_patch(lastn));
        let k = choose|i: int| 0 <= i < m.patches.len() && m.patches[i].0 == lastn;
        lemma_patch_oid_at(m, k);
        assert(m.head == m.patches[k].1);
        assert(ps[2 + k] == m.patches[k].1);
        assert(ps.contains(m.head));
    }
}

/// The derived, uncommitted state a mutation starts from: the same record
/// with `previous` set to the entry the state was read from.
pub open spec fn next_view(v: QueueStateView) -> QueueStateView {
    QueueStateView {
        oid: None,
        name: v.name,
        meta: MetaView {
            previous: v.oid,
            head: v.meta.head,
            base: v.meta.base,
            base_name: v.meta.base_name,
            applied: v.meta.applied,
            unapplied: v.meta.unapplied,
            patches: v.meta.patches,
        },
    }
}

/// Wrap a repository-service failure.
fn gerr(e: &git2::Error) -> (r: QueueError)
    ensures
        r is Git,
{
    QueueError::Git(conv_err(e))
}

/// Copy a list of names.
fn clone_names(v: &Vec<String>) -> (r: Vec<String>)
    ensures
        r.deep_view() == v.deep_view(),
{
    let n = v.len();
    let mut out: Vec<String> = Vec::new();
    let mut i: usize = 0;
    while i < n
        invariant
            i <= n,
            n == v@.len(),
            out@.len() == i,
            forall|j: int| 0 <= j < i ==> out.deep_view()[j] == v.deep_view()[j],
        decreases n - i,
    {
        out.push(v[i].clone());
        i = i + 1;
    }
    proof {
        assert(out.deep_view() =~= v.deep_view());
    }
    out
}

/// Copy a patch table.
fn clone_pairs(p: &Vec<(String, ObjectId)>) -> (r: Vec<(String, ObjectId)>)
    ensures
        pairs_view(r@) == pairs_view(p@),
{
    let n = p.len();
    let mut out: Vec<(String, ObjectId)> = Vec::new();
    let mut i: usize = 0;
    while i < n
        invariant
            i <= n,
            n == p@.len(),
            out@.len() == i,
            forall|j: int| 0 <= j < i ==> (#[trigger] pairs_view(out@)[j]) == pairs_view(p@)[j],
        decreases n - i,
    {
        let ghost before = out@;
        out.push((p[i].0.clone(), p[i].1.clone()));
        proof {
            assert(pairs_view(out@)[i as int] == (p@[i as int].0@, p@[i as int].1@));
            assert forall|j: int| 0 <= j < i implies #[trigger] pairs_view(out@)[j]
                == pairs_view(p@)[j] by {
                assert(out@[j] == before[j]);
                assert(pairs_view(before)[j] == pairs_view(p@)[j]);
            }
        }
        i = i + 1;
    }
    proof {
        assert(pairs_view(out@) =~= pairs_view(p@));
    }
    out
}

impl QueueState {
    /// Full name of the ref the log for the given queue lives on.
    pub fn gitref_name(queue: &str) -> (r: String)
        ensures
            r@ == "refs/queuelogs/"@ + queue@,
    {
        let mut s = String::from_str("refs/queuelogs/");
        s.append(queue);
        s
    }

    /// Get the current state for the given queue: read the tip of the log
    /// ref, extract the `meta` blob of its tree, decode it, and check the
    /// queue invariant.  A missing log ref surfaces as a repository error
    /// with the "not found" code; a tip that cannot be read back as a valid
    /// record surfaces as an inconsistency.
    pub fn current_for_queue(repo: &git2::Repository, queue: &str) -> (r: Result<
        QueueState,
        QueueError,
    >)
        ensures
            match r {
                Ok(st) => {
                    &&& st.wf()
                    &&& st@.name == queue@
                    &&& match st@.oid {
                        Some(id) => commit_tree_paths(id).contains_key("meta"@)
                            && commit_tree_paths(id)["meta"@] == blob_id_of(enc_meta(st@.meta)),
                        None => false,
                    }
                },
                Err(e) => e is Git || e is Inconsistency,
            },
    {
        let gitref = Self::gitref_name(queue);
        let tip = match ref_tip(repo, gitref.as_str()) {
            Err(e) => {
                return Err(gerr(&e));
            },
            Ok(None) => {
                return Err(
                    QueueError::Git(
                        GitError {
                            code: crate::error::GIT_CODE_NOT_FOUND,
                            class: crate::error::GIT_CLASS_REFERENCE,
                            message: String::from_str("queue log reference not found"),
                        },
                    ),
                );
            },
            Ok(Some(tip)) => tip,
        };
        let content = match meta_blob_of_commit(repo, &tip) {
            Err(_) => {
                return Err(QueueError::Inconsistency("queuelog reference"));
            },
            Ok(None) => {
                return Err(QueueError::Inconsistency("queuelog reference"));
            },
            Ok(Some(content)) => content,
        };
        let entry = match crate::codec::decode_meta(&content) {
            Err(_) => {
                return Err(QueueError::Inconsistency("queuelog reference"));
            },
            Ok(entry) => entry,
        };
        if !validate(&entry) {
            return Err(QueueError::Inconsistency("queuelog reference"));
        }
        Ok(QueueState { oid: Some(tip), name: String::from_str(queue), entry })
    }

    /// Create the initial state for a queue based on the given branch tip
    /// and commit it as the first log entry, whose single parent is the
    /// base commit itself.  Fails when the queue log ref already exists.
    pub fn new(
        repo: &git2::Repository,
        queue: &str,
        base_name: String,
        base_tip: &ObjectId,
    ) -> (r: Result<QueueState, QueueError>)
        requires
            base_tip.wf(),
        ensures
            match r {
                Ok(st) => {
                    &&& st.wf()
                    &&& st@.name == queue@
                    &&& st@.meta.previous is None
                    &&& st@.meta.head == base_tip@
                    &&& st@.meta.base == base_tip@
                    &&& st@.meta.base_name == base_name@
                    &&& st@.meta.applied.len() == 0
                    &&& st@.meta.unapplied.len() == 0
                    &&& st@.meta.patches.len() == 0
                    &&& match st@.oid {
                        Some(id) => {
                            &&& id.len() == OID_LEN
                            &&& commit_tree_paths(id) == commit_tree_paths(base_tip@).insert(
                                "meta"@,
                                blob_id_of(enc_meta(st@.meta)),
                            )
                            &&& commit_parents_of(id).len() == 1
                            &&& commit_parents_of(id)[0] == base_tip@
                        },
                        None => false,
                    }
                },
                Err(_) => true,
            },
    {
        let gitref = Self::gitref_name(queue);
        match ref_tip(repo, gitref.as_str()) {
            Err(e) => {
                return Err(gerr(&e));
            },
            Ok(Some(_)) => {
                return Err(QueueError::AlreadyExists("queuelog"));
            },
            Ok(None) => {},
        }
        let entry = MetaRecord {
            previous: None,
            head: base_tip.clone(),
            base: base_tip.clone(),
            base_name,
            applied: Vec::new(),
            unapplied: Vec::new(),
            patches: Vec::new(),
        };
        let bytes = crate::codec::encode_meta(&entry);
        let blob = match write_blob(repo, &bytes) {
            Err(e) => {
                return Err(gerr(&e));
            },
            Ok(blob) => blob,
        };
        let tree = match write_entry_tree(repo, base_tip, &blob, FILEMODE_BLOB) {
            Err(e) => {
                return Err(gerr(&e));
            },
            Ok(tree) => tree,
        };
        let mut parents: Vec<ObjectId> = Vec::new();
        parents.push(base_tip.clone());
        let id = match create_commit(repo, gitref.as_str(), "initialise stack log", &tree,
            &parents) {
            Err(e) => {
                return Err(gerr(&e));
            },
            Ok(id) => id,
        };
        let st = QueueState { oid: Some(id), name: String::from_str(queue), entry };
        proof {
            assert(st@.meta.applied =~= Seq::<Seq<char>>::empty());
            assert(st@.meta.unapplied =~= Seq::<Seq<char>>::empty());
            assert(st@.meta.patches =~= Seq::<(Seq<char>, Seq<u8>)>::empty());
            assert(st.wf());
        }
        Ok(st)
    }

    /// Derive the uncommitted next state: a deep copy of the record whose
    /// `previous` is the entry this state was read from.
    fn next(&self) -> (r: QueueState)
        requires
            self@.oid is Some,
        ensures
            r@ == next_view(self@),
    {
        let prev = match &self.oid {
            Some(id) => id.clone(),
            None => unreached(),
        };
        let r = QueueState {
            oid: None,
            name: self.name.clone(),
            entry: MetaRecord {
                previous: Some(prev),
                head: self.entry.head.clone(),
                base: self.entry.base.clone(),
                base_name: self.entry.base_name.clone(),
                applied: clone_names(&self.entry.applied),
                unapplied: clone_names(&self.entry.unapplied),
                patches: clone_pairs(&self.entry.patches),
            },
        };
        proof {
            assert(r@.meta =~= next_view(self@).meta);
            assert(r@ =~= next_view(self@));
        }
        r
    }

    /// Commit an uncommitted state as a new log entry on the queue's ref.
    fn commit(&mut self, repo: &git2::Repository, message: &str) -> (r: Result<(), QueueError>)
        requires
            old(self)@.meta.wf(),
            old(self)@.oid is None,
            old(self)@.meta.previous is Some,
        ensures
            final(self)@.name == old(self)@.name,
            final(self)@.meta == old(self)@.meta,
            match r {
                Ok(_) => match final(self)@.oid {
                    Some(id) => committed_entry_ok(id, old(self)@.meta) && final(self).wf(),
                    None => false,
                },
                Err(e) => final(self)@.oid == old(self)@.oid && e is Git,
            },
    {
        let prev = match &self.entry.previous {
            Some(p) => p.clone(),
            None => unreached(),
        };
        let gitref = Self::gitref_name(self.name.as_str());
        let bytes = crate::codec::encode_meta(&self.entry);
        let blob = match write_blob(repo, &bytes) {
            Err(e) => {
                return Err(gerr(&e));
            },
            Ok(blob) => blob,
        };
        let tree = match write_entry_tree(repo, &prev, &blob, FILEMODE_BLOB) {
            Err(e) => {
                return Err(gerr(&e));
            },
            Ok(tree) => tree,
        };
        let head = match head_commit(repo) {
            Err(e) => {
                return Err(gerr(&e));
            },
            Ok(head) => head,
        };
        let mut parents: Vec<ObjectId> = Vec::new();
        parents.push(prev.clone());
        parents.push(head);
        let np = self.entry.patches.len();
        let mut i: usize = 0;
        while i < np
            invariant
                i <= np,
                np == self.entry.patches@.len(),
                parents@.len() == 2 + i,
                parents@[0]@ == prev@,
                forall|j: int| 0 <= j < parents@.len() ==> (#[trigger] parents@[j]).wf(),
                self@.meta.wf(),
                forall|j: int|
                    0 <= j < i ==> parents@[2 + j]@ == (#[trigger] self@.meta.patches[j]).1,
            decreases np - i,
        {
            let id = self.entry.patches[i].1.clone();
            proof {
                assert(self@.meta.patches[i as int].1 == self.entry.patches@[i as int].1@);
                assert(self@.meta.patches[i as int].1.len() == OID_LEN);
            }
            parents.push(id);
            i = i + 1;
        }
        let id = match create_commit(repo, gitref.as_str(), message, &tree, &parents) {
            Err(e) => {
                return Err(gerr(&e));
            },
            Ok(id) => id,
        };
        self.oid = Some(id);
        Ok(())
    }

    /// Produce the next state, let the caller's mutation run on it, and
    /// commit the outcome as a new log entry.  The log is not moved when the
    /// mutation fails, when it hands back a state that breaks the queue
    /// invariant, or when entry creation fails; the failure is the mutation's
    /// own error passed through, the inconsistency report on a broken state,
    /// or the repository's error.
    #[verifier::spinoff_prover]
    #[verifier::rlimit(60)]
    pub fn create_next<T, F: FnOnce(QueueState) -> Result<(QueueState, T), QueueError>>(
        &self,
        repo: &git2::Repository,
        message: &str,
        func: F,
    ) -> (r: Result<(QueueState, T), QueueError>)
        requires
            self@.oid is Some,
            forall|s: QueueState| s@ == next_view(self@) ==> call_requires(func, (s,)),
        ensures
            r matches Ok(p) ==> p.0.wf() && (match p.0@.oid {
                Some(id) => committed_entry_ok(id, p.0@.meta),
                None => false,
            }),
            r matches Ok(p) ==> exists|s_in: QueueState, s_out: QueueState|
                #![trigger s_in.view(), s_out.view()]
                {
                    &&& s_in@ == next_view(self@)
                    &&& call_ensures(
                        func,
                        (s_in,),
                        Ok::<(QueueState, T), QueueError>((s_out, p.1)),
                    )
                    &&& p.0@.meta == s_out@.meta
                    &&& p.0@.name == s_out@.name
                },
            r matches Err(e) ==> e is Inconsistency || e is Git || exists|s_in: QueueState|
                s_in@ == next_view(self@) && #[trigger] call_ensures(
                    func,
                    (s_in,),
                    Err::<(QueueState, T), QueueError>(e),
                ),
    {
        let nxt = self.next();
        let ghost nxt_g = nxt;
        let (s2, t) = match func(nxt) {
            Err(e) => {
                proof {
                    assert(nxt_g@ == next_view(self@));
                    assert(call_ensures(
                        func,
                        (nxt_g,),
                        Err::<(QueueState, T), QueueError>(e),
                    ));
                }
                return Err(e);
            },
            Ok(x) => x,
        };
        let ghost s_out_g = s2;
        if !validate(&s2.entry) {
            return Err(QueueError::Inconsistency("queue state"));
        }
        if s2.oid.is_some() {
            return Err(QueueError::Inconsistency("queue state"));
        }
        if s2.entry.previous.is_none() {
            return Err(QueueError::Inconsistency("queue state"));
        }
        let mut s2 = s2;
        match s2.commit(repo, message) {
            Err(e) => Err(e),
            Ok(_) => {
                proof {
                    assert(nxt_g@ == next_view(self@));
                    assert(s2@.meta == s_out_g@.meta);
                    assert(s2@.name == s_out_g@.name);
                    assert(call_ensures(
                        func,
                        (nxt_g,),
                        Ok::<(QueueState, T), QueueError>((s_out_g, t)),
                    ));
                }
                Ok((s2, t))
            },
        }
    }
}

} // verus!
