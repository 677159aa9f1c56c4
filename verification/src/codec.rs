//! Metadata codec.
//!
//! Each log entry's tree carries a single blob `meta` holding a JSON record
//! that describes the stack state at the time the entry was created.  This
//! module defines the record, its mathematical view and invariants, and the
//! (de)serializer.

use vstd::prelude::*;
use vstd::utf8::encode_utf8;
use crate::oid::{ObjectId, OID_LEN, hex_of, hex_digit, bytes_of_hex};

verus! {

/// Mathematical view of a metadata record.
#[verifier::ext_equal]
pub struct MetaView {
    /// Id of the previous log entry commit; absent only for the initial entry.
    pub previous: Option<Seq<u8>>,
    /// Queue head commit when the entry was created.
    pub head: Seq<u8>,
    /// Last commit before the applied series.
    pub base: Seq<u8>,
    /// Full ref name of the branch the queue was created from.
    pub base_name: Seq<char>,
    /// Applied patch names, bottom first.
    pub applied: Seq<Seq<char>>,
    /// Unapplied patch names.
    pub unapplied: Seq<Seq<char>>,
    /// Patch name to commit id, in insertion order.
    pub patches: Seq<(Seq<char>, Seq<u8>)>,
}

/// The names of a name-to-id table, in order.
pub open spec fn names_of(p: Seq<(Seq<char>, Seq<u8>)>) -> Seq<Seq<char>> {
    p.map_values(|e: (Seq<char>, Seq<u8>)| e.0)
}

/// No two elements are equal.
pub open spec fn distinct_seq<A>(s: Seq<A>) -> bool {
    forall|i: int, j: int| 0 <= i < j < s.len() ==> s[i] != s[j]
}

impl MetaView {
    /// Does the record track a patch of this name?
    pub open spec fn has_patch(self, n: Seq<char>) -> bool {
        exists|i: int| 0 <= i < self.patches.len() && self.patches[i].0 == n
    }

    /// The id recorded for a patch name (meaningful when names are distinct).
    pub open spec fn patch_oid(self, n: Seq<char>) -> Seq<u8> {
        let i = choose|i: int| 0 <= i < self.patches.len() && self.patches[i].0 == n;
        self.patches[i].1
    }

    /// Every recorded object id has the proper length.
    pub open spec fn wf_ids(self) -> bool {
        &&& self.head.len() == OID_LEN
        &&& self.base.len() == OID_LEN
        &&& match self.previous {
            Some(p) => p.len() == OID_LEN,
            None => true,
        }
        &&& forall|i: int| 0 <= i < self.patches.len() ==> (#[trigger] self.patches[i]).1.len()
            == OID_LEN
    }

    /// The applied and unapplied lists are duplicate-free and disjoint, and
    /// together they are exactly the domain of the patch table.
    pub open spec fn partitioned(self) -> bool {
        &&& distinct_seq(self.applied)
        &&& distinct_seq(self.unapplied)
        &&& distinct_seq(names_of(self.patches))
        &&& forall|n: Seq<char>| self.applied.contains(n) ==> !self.unapplied.contains(n)
        &&& forall|n: Seq<char>|
            self.has_patch(n) <==> self.applied.contains(n) || self.unapplied.contains(n)
    }

    /// The head is the last applied patch, or the base when nothing is applied.
    pub open spec fn head_ok(self) -> bool {
        if self.applied.len() == 0 {
            self.head == self.base
        } else {
            self.head == self.patch_oid(self.applied.last())
        }
    }

    /// Full record invariant.
    pub open spec fn wf(self) -> bool {
        self.wf_ids() && self.partitioned() && self.head_ok()
    }

    /// A record the codec can serialize and read back: ids have the proper
    /// length and patch names are distinct.
    pub open spec fn typed(self) -> bool {
        self.wf_ids() && distinct_seq(names_of(self.patches))
    }
}

/// When patch names are distinct, the id recorded at an index is what
/// `patch_oid` yields for the name at that index.
pub proof fn lemma_patch_oid_at(m: MetaView, j: int)
    requires
        distinct_seq(names_of(m.patches)),
        0 <= j < m.patches.len(),
    ensures
        m.has_patch(m.patches[j].0),
        m.patch_oid(m.patches[j].0) == m.patches[j].1,
{
    assert(m.has_patch(m.patches[j].0));
    assert forall|i: int|
        0 <= i < m.patches.len() && (#[trigger] m.patches[i]).0 == m.patches[j].0 implies i
        == j by {
        assert(names_of(m.patches)[i] == m.patches[i].0);
        assert(names_of(m.patches)[j] == m.patches[j].0);
    }
    assert(m.patch_oid(m.patches[j].0) == m.patches[j].1);
}

/// A metadata record: the queue state one log entry describes.
pub struct MetaRecord {
    /// Id of the previous log entry commit; `None` only for the initial entry.
    pub previous: Option<ObjectId>,
    /// Queue head commit when the entry was created.
    pub head: ObjectId,
    /// Last commit before the applied series.
    pub base: ObjectId,
    /// Full ref name of the branch the queue was created from.
    pub base_name: String,
    /// Applied patch names, bottom first.
    pub applied: Vec<String>,
    /// Unapplied patch names.
    pub unapplied: Vec<String>,
    /// Patch name to commit id, in insertion order.
    pub patches: Vec<(String, ObjectId)>,
}

impl View for MetaRecord {
    type V = MetaView;

    open spec fn view(&self) -> MetaView {
        MetaView {
            previous: match self.previous {
                Some(p) => Some(p@),
                None => None,
            },
            head: self.head@,
            base: self.base@,
            base_name: self.base_name@,
            applied: self.applied.deep_view(),
            unapplied: self.unapplied.deep_view(),
            patches: pairs_view(self.patches@),
        }
    }
}

/// The view of a patch table held as a vector of pairs.
pub open spec fn pairs_view(s: Seq<(String, ObjectId)>) -> Seq<(Seq<char>, Seq<u8>)> {
    Seq::new(s.len(), |i: int| (s[i].0@, s[i].1@))
}

} // verus!

verus! {

// --- The serialized form -------------------------------------------------
//
// A record is written as one JSON object, in UTF-8, without any whitespace,
// with this exact key order (`previous` is omitted for the initial entry):
//
//   {"version":1,"previous":"<hex>","head":"<hex>","base_name":<string>,
//    "base":"<hex>","applied":[<strings>],"unapplied":[<strings>],
//    "patches":{<string>:"<hex>", ...}}
//
// Object ids are written as lowercase hexadecimal.  Strings escape only what
// JSON requires: the quote, the backslash, and control bytes (the latter as
// \u00XX with lowercase digits).  Serialization is thereby deterministic,
// so that equal states produce identical blobs and reproducible trees; the
// reader accepts exactly this canonical form and rejects everything else.

/// The escape sequence a single byte is written as inside a JSON string.
pub open spec fn esc_byte(b: u8) -> Seq<u8> {
    if b == 34 {
        seq![92u8, 34u8]
    } else if b == 92 {
        seq![92u8, 92u8]
    } else if b < 32 {
        seq![92u8, 117u8, 48u8, 48u8, hex_digit((b / 16) as u8), hex_digit((b % 16) as u8)]
    } else {
        seq![b]
    }
}

/// A byte sequence with every byte escaped as JSON requires.
pub open spec fn escape(s: Seq<u8>) -> Seq<u8>
    decreases s.len(),
{
    if s.len() == 0 {
        Seq::empty()
    } else {
        esc_byte(s[0]) + escape(s.drop_first())
    }
}

/// A JSON string carrying the UTF-8 bytes of the given characters.
pub open spec fn json_str(s: Seq<char>) -> Seq<u8> {
    seq![34u8] + escape(encode_utf8(s)) + seq![34u8]
}

/// A JSON string carrying an object id in lowercase hexadecimal.
pub open spec fn json_oid(b: Seq<u8>) -> Seq<u8> {
    seq![34u8] + hex_of(b) + seq![34u8]
}

/// The elements of a JSON array of strings after the first, each preceded by
/// a comma.
pub open spec fn json_names_rest(l: Seq<Seq<char>>) -> Seq<u8>
    decreases l.len(),
{
    if l.len() == 0 {
        Seq::empty()
    } else {
        seq![44u8] + json_str(l[0]) + json_names_rest(l.drop_first())
    }
}

/// A JSON array of strings.
pub open spec fn json_names(l: Seq<Seq<char>>) -> Seq<u8> {
    if l.len() == 0 {
        seq![91u8, 93u8]
    } else {
        seq![91u8] + json_str(l[0]) + json_names_rest(l.drop_first()) + seq![93u8]
    }
}

/// One member of the patches object: `"name":"hex"`.
pub open spec fn json_pair(e: (Seq<char>, Seq<u8>)) -> Seq<u8> {
    json_str(e.0) + seq![58u8] + json_oid(e.1)
}

/// The members of the patches object after the first, each preceded by a
/// comma.
pub open spec fn json_pairs_rest(p: Seq<(Seq<char>, Seq<u8>)>) -> Seq<u8>
    decreases p.len(),
{
    if p.len() == 0 {
        Seq::empty()
    } else {
        seq![44u8] + json_pair(p[0]) + json_pairs_rest(p.drop_first())
    }
}

/// The patches object.
pub open spec fn json_pairs(p: Seq<(Seq<char>, Seq<u8>)>) -> Seq<u8> {
    if p.len() == 0 {
        seq![123u8, 125u8]
    } else {
        seq![123u8] + json_pair(p[0]) + json_pairs_rest(p.drop_first()) + seq![125u8]
    }
}

/// `{"version":1` — the opening of every record.
pub open spec fn tok_version() -> Seq<u8> {
    seq![123u8, 34u8, 118u8, 101u8, 114u8, 115u8, 105u8, 111u8, 110u8, 34u8, 58u8, 49u8]
}

/// `,"previous":`
pub open spec fn tok_previous() -> Seq<u8> {
    seq![44u8, 34u8, 112u8, 114u8, 101u8, 118u8, 105u8, 111u8, 117u8, 115u8, 34u8, 58u8]
}

/// `,"head":`
pub open spec fn tok_head() -> Seq<u8> {
    seq![44u8, 34u8, 104u8, 101u8, 97u8, 100u8, 34u8, 58u8]
}

/// `,"base_name":`
pub open spec fn tok_base_name() -> Seq<u8> {
    seq![44u8, 34u8, 98u8, 97u8, 115u8, 101u8, 95u8, 110u8, 97u8, 109u8, 101u8, 34u8, 58u8]
}

/// `,"base":`
pub open spec fn tok_base() -> Seq<u8> {
    seq![44u8, 34u8, 98u8, 97u8, 115u8, 101u8, 34u8, 58u8]
}

/// `,"applied":`
pub open spec fn tok_applied() -> Seq<u8> {
    seq![44u8, 34u8, 97u8, 112u8, 112u8, 108u8, 105u8, 101u8, 100u8, 34u8, 58u8]
}

/// `,"unapplied":`
pub open spec fn tok_unapplied() -> Seq<u8> {
    seq![44u8, 34u8, 117u8, 110u8, 97u8, 112u8, 112u8, 108u8, 105u8, 101u8, 100u8, 34u8, 58u8]
}

/// `,"patches":`
pub open spec fn tok_patches() -> Seq<u8> {
    seq![44u8, 34u8, 112u8, 97u8, 116u8, 99u8, 104u8, 101u8, 115u8, 34u8, 58u8]
}

/// The canonical serialization of a metadata record.
pub open spec fn enc_meta(m: MetaView) -> Seq<u8> {
    tok_version() + (match m.previous {
        Some(p) => tok_previous() + json_oid(p),
        None => Seq::empty(),
    }) + tok_head() + json_oid(m.head) + tok_base_name() + json_str(m.base_name) + tok_base()
        + json_oid(m.base) + tok_applied() + json_names(m.applied) + tok_unapplied() + json_names(
        m.unapplied,
    ) + tok_patches() + json_pairs(m.patches) + seq![125u8]
}

} // verus!

verus! {

/// Appending one more byte to a prefix extends its escape by that byte's
/// escape sequence.
proof fn lemma_escape_snoc(s: Seq<u8>, k: int)
    requires
        0 <= k < s.len(),
    ensures
        escape(s.take(k + 1)) == escape(s.take(k)) + esc_byte(s[k]),
    decreases k,
{
    if k == 0 {
        assert(s.take(1).drop_first() =~= Seq::<u8>::empty());
        assert(s.take(1)[0] == s[0]);
        assert(escape(s.take(1)) == esc_byte(s[0]) + escape(Seq::<u8>::empty()));
        assert(escape(s.take(0)) == Seq::<u8>::empty());
        assert(escape(s.take(0)) + esc_byte(s[0]) =~= esc_byte(s[0]));
        assert(esc_byte(s[0]) + escape(Seq::<u8>::empty()) =~= esc_byte(s[0]));
    } else {
        let t = s.drop_first();
        lemma_escape_snoc(t, k - 1);
        assert(s.take(k + 1).drop_first() =~= t.take(k));
        assert(s.take(k).drop_first() =~= t.take(k - 1));
        assert(s.take(k + 1)[0] == s[0]);
        assert(s.take(k)[0] == s[0]);
        assert(t[k - 1] == s[k]);
        assert(escape(s.take(k + 1)) == esc_byte(s[0]) + escape(t.take(k)));
        assert(escape(s.take(k)) == esc_byte(s[0]) + escape(t.take(k - 1)));
        assert(esc_byte(s[0]) + (escape(t.take(k - 1)) + esc_byte(t[k - 1])) =~= (esc_byte(s[0])
            + escape(t.take(k - 1))) + esc_byte(t[k - 1]));
    }
}

/// Appending one more name to a prefix extends the encoded tail of a string
/// array by a comma and that name.
proof fn lemma_names_rest_snoc(s: Seq<Seq<char>>, k: int)
    requires
        0 <= k < s.len(),
    ensures
        json_names_rest(s.take(k + 1)) == json_names_rest(s.take(k)) + (seq![44u8] + json_str(
            s[k],
        )),
    decreases k,
{
    if k == 0 {
        assert(s.take(1).drop_first() =~= Seq::<Seq<char>>::empty());
        assert(s.take(1)[0] == s[0]);
        assert(json_names_rest(s.take(0)) == Seq::<u8>::empty());
        assert(json_names_rest(s.take(1)) == seq![44u8] + json_str(s[0]) + json_names_rest(
            Seq::<Seq<char>>::empty(),
        ));
        assert(json_names_rest(s.take(1)) =~= seq![44u8] + json_str(s[0]));
        assert(json_names_rest(s.take(0)) + (seq![44u8] + json_str(s[0])) =~= seq![44u8]
            + json_str(s[0]));
    } else {
        let t = s.drop_first();
        lemma_names_rest_snoc(t, k - 1);
        assert(s.take(k + 1).drop_first() =~= t.take(k));
        assert(s.take(k).drop_first() =~= t.take(k - 1));
        assert(s.take(k + 1)[0] == s[0]);
        assert(s.take(k)[0] == s[0]);
        assert(t[k - 1] == s[k]);
        assert(json_names_rest(s.take(k + 1)) == seq![44u8] + json_str(s[0])
            + json_names_rest(t.take(k)));
        assert(json_names_rest(s.take(k)) == seq![44u8] + json_str(s[0]) + json_names_rest(
            t.take(k - 1),
        ));
        assert((seq![44u8] + json_str(s[0]) + (json_names_rest(t.take(k - 1)) + (seq![44u8]
            + json_str(t[k - 1])))) =~= (seq![44u8] + json_str(s[0]) + json_names_rest(
            t.take(k - 1),
        )) + (seq![44u8] + json_str(t[k - 1])));
    }
}

/// Appending one more member to a prefix extends the encoded tail of the
/// patches object by a comma and that member.
proof fn lemma_pairs_rest_snoc(s: Seq<(Seq<char>, Seq<u8>)>, k: int)
    requires
        0 <= k < s.len(),
    ensures
        json_pairs_rest(s.take(k + 1)) == json_pairs_rest(s.take(k)) + (seq![44u8] + json_pair(
            s[k],
        )),
    decreases k,
{
    if k == 0 {
        assert(s.take(1).drop_first() =~= Seq::<(Seq<char>, Seq<u8>)>::empty());
        assert(s.take(1)[0] == s[0]);
        assert(json_pairs_rest(s.take(0)) == Seq::<u8>::empty());
        assert(json_pairs_rest(s.take(1)) == seq![44u8] + json_pair(s[0]) + json_pairs_rest(
            Seq::<(Seq<char>, Seq<u8>)>::empty(),
        ));
        assert(json_pairs_rest(s.take(1)) =~= seq![44u8] + json_pair(s[0]));
        assert(json_pairs_rest(s.take(0)) + (seq![44u8] + json_pair(s[0])) =~= seq![44u8]
            + json_pair(s[0]));
    } else {
        let t = s.drop_first();
        lemma_pairs_rest_snoc(t, k - 1);
        assert(s.take(k + 1).drop_first() =~= t.take(k));
        assert(s.take(k).drop_first() =~= t.take(k - 1));
        assert(s.take(k + 1)[0] == s[0]);
        assert(s.take(k)[0] == s[0]);
        assert(t[k - 1] == s[k]);
        assert(json_pairs_rest(s.take(k + 1)) == seq![44u8] + json_pair(s[0])
            + json_pairs_rest(t.take(k)));
        assert(json_pairs_rest(s.take(k)) == seq![44u8] + json_pair(s[0]) + json_pairs_rest(
            t.take(k - 1),
        ));
        assert((seq![44u8] + json_pair(s[0]) + (json_pairs_rest(t.take(k - 1)) + (seq![44u8]
            + json_pair(t[k - 1])))) =~= (seq![44u8] + json_pair(s[0]) + json_pairs_rest(
            t.take(k - 1),
        )) + (seq![44u8] + json_pair(t[k - 1])));
    }
}

} // verus!

verus! {

/// Emit the escape sequence of one byte.
fn push_esc_byte(out: &mut Vec<u8>, b: u8)
    ensures
        final(out)@ == old(out)@ + esc_byte(b),
{
    let ghost o = out@;
    if b == 34 {
        out.push(92);
        out.push(34);
    } else if b == 92 {
        out.push(92);
        out.push(92);
    } else if b < 32 {
        out.push(92);
        out.push(117);
        out.push(48);
        out.push(48);
        let hi = b / 16;
        let lo = b % 16;
        out.push(
            if hi < 10 {
                48 + hi
            } else {
                87 + hi
            },
        );
        out.push(
            if lo < 10 {
                48 + lo
            } else {
                87 + lo
            },
        );
    } else {
        out.push(b);
    }
    proof {
        assert(out@ =~= o + esc_byte(b));
    }
}

/// Emit a JSON string carrying the given text.
fn push_json_str(out: &mut Vec<u8>, s: &str)
    ensures
        final(out)@ == old(out)@ + json_str(s@),
{
    let ghost o = out@;
    let bytes = s.as_bytes_vec();
    out.push(34);
    let n = bytes.len();
    let mut i: usize = 0;
    while i < n
        invariant
            i <= n,
            n == bytes@.len(),
            bytes@ == encode_utf8(s@),
            out@ == o + seq![34u8] + escape(bytes@.take(i as int)),
        decreases n - i,
    {
        push_esc_byte(out, bytes[i]);
        proof {
            lemma_escape_snoc(bytes@, i as int);
        }
        i = i + 1;
    }
    proof {
        assert(bytes@.take(n as int) =~= bytes@);
    }
    out.push(34);
    proof {
        assert(out@ =~= o + json_str(s@));
    }
}

/// Emit a JSON string carrying an object id in lowercase hexadecimal.
fn push_json_oid(out: &mut Vec<u8>, id: &ObjectId)
    ensures
        final(out)@ == old(out)@ + json_oid(id@),
{
    let ghost o = out@;
    out.push(34);
    let hex = id.to_hex();
    let n = hex.len();
    let mut i: usize = 0;
    while i < n
        invariant
            i <= n,
            n == hex@.len(),
            hex@ == hex_of(id@),
            out@ == o + seq![34u8] + hex@.take(i as int),
        decreases n - i,
    {
        out.push(hex[i]);
        proof {
            assert(hex@.take(i + 1) =~= hex@.take(i as int).push(hex@[i as int]));
            assert(o + seq![34u8] + hex@.take(i as int) + seq![hex@[i as int]] =~= o + seq![34u8]
                + hex@.take(i + 1));
        }
        i = i + 1;
    }
    proof {
        assert(hex@.take(n as int) =~= hex@);
    }
    out.push(34);
    proof {
        assert(out@ =~= o + json_oid(id@));
    }
}

/// Emit a JSON array of strings.
fn push_json_names(out: &mut Vec<u8>, l: &Vec<String>)
    ensures
        final(out)@ == old(out)@ + json_names(l.deep_view()),
{
    let ghost o = out@;
    let ghost dv = l.deep_view();
    out.push(91);
    let n = l.len();
    if n == 0 {
        out.push(93);
        proof {
            assert(out@ =~= o + json_names(dv));
        }
        return;
    }
    push_json_str(out, l[0].as_str());
    let ghost rest = dv.drop_first();
    let mut i: usize = 1;
    while i < n
        invariant
            1 <= i <= n,
            n == l@.len(),
            dv == l.deep_view(),
            rest == dv.drop_first(),
            dv.len() == n,
            out@ == o + seq![91u8] + json_str(dv[0]) + json_names_rest(rest.take(i - 1)),
        decreases n - i,
    {
        out.push(44);
        push_json_str(out, l[i].as_str());
        proof {
            assert(rest[i - 1] == dv[i as int]);
            lemma_names_rest_snoc(rest, i - 1);
            assert(o + seq![91u8] + json_str(dv[0]) + json_names_rest(rest.take(i - 1)) + seq![
                44u8,
            ] + json_str(dv[i as int]) =~= o + seq![91u8] + json_str(dv[0]) + json_names_rest(
                rest.take(i as int),
            ));
        }
        i = i + 1;
    }
    proof {
        assert(rest.take(n - 1) =~= rest);
    }
    out.push(93);
    proof {
        assert(out@ =~= o + json_names(dv));
    }
}

/// Emit the patches object.
fn push_json_pairs(out: &mut Vec<u8>, p: &Vec<(String, ObjectId)>, Ghost(pv): Ghost<
    Seq<(Seq<char>, Seq<u8>)>,
>)
    requires
        pv.len() == p@.len(),
        forall|i: int| 0 <= i < p@.len() ==> #[trigger] pv[i] == (p@[i].0@, p@[i].1@),
    ensures
        final(out)@ == old(out)@ + json_pairs(pv),
{
    let ghost o = out@;
    out.push(123);
    let n = p.len();
    if n == 0 {
        out.push(125);
        proof {
            assert(out@ =~= o + json_pairs(pv));
        }
        return;
    }
    push_json_str(out, p[0].0.as_str());
    out.push(58);
    push_json_oid(out, &p[0].1);
    proof {
        assert(out@ =~= o + seq![123u8] + json_pair(pv[0]));
    }
    let ghost rest = pv.drop_first();
    let mut i: usize = 1;
    while i < n
        invariant
            1 <= i <= n,
            n == p@.len(),
            pv.len() == n,
            forall|j: int| 0 <= j < n ==> #[trigger] pv[j] == (p@[j].0@, p@[j].1@),
            rest == pv.drop_first(),
            out@ == o + seq![123u8] + json_pair(pv[0]) + json_pairs_rest(rest.take(i - 1)),
        decreases n - i,
    {
        out.push(44);
        push_json_str(out, p[i].0.as_str());
        out.push(58);
        push_json_oid(out, &p[i].1);
        proof {
            assert(rest[i - 1] == pv[i as int]);
            lemma_pairs_rest_snoc(rest, i - 1);
            assert(o + seq![123u8] + json_pair(pv[0]) + json_pairs_rest(rest.take(i - 1)) + seq![
                44u8,
            ] + (json_str(pv[i as int].0) + seq![58u8] + json_oid(pv[i as int].1)) =~= o + seq![
                123u8,
            ] + json_pair(pv[0]) + json_pairs_rest(rest.take(i as int)));
        }
        i = i + 1;
    }
    proof {
        assert(rest.take(n - 1) =~= rest);
    }
    out.push(125);
    proof {
        assert(out@ =~= o + json_pairs(pv));
    }
}

/// Emit a fixed token.
fn push_lit(out: &mut Vec<u8>, lit: &Vec<u8>)
    ensures
        final(out)@ == old(out)@ + lit@,
{
    let ghost o = out@;
    let n = lit.len();
    let mut i: usize = 0;
    while i < n
        invariant
            i <= n,
            n == lit@.len(),
            out@ == o + lit@.take(i as int),
        decreases n - i,
    {
        out.push(lit[i]);
        proof {
            assert(o + lit@.take(i as int) + seq![lit@[i as int]] =~= o + lit@.take(i + 1));
        }
        i = i + 1;
    }
    proof {
        assert(lit@.take(n as int) =~= lit@);
    }
}

/// Serialize a metadata record into its canonical form.
pub fn encode_meta(m: &MetaRecord) -> (r: Vec<u8>)
    ensures
        r@ == enc_meta(m@),
{
    let mut out: Vec<u8> = Vec::new();
    let toks = key_tokens();
    push_lit(&mut out, &toks.0);
    proof {
        assert(out@ =~= tok_version());
    }
    match &m.previous {
        Some(p) => {
            push_lit(&mut out, &toks.1);
            push_json_oid(&mut out, p);
        },
        None => {},
    }
    proof {
        assert(out@ =~= tok_version() + (match m@.previous {
            Some(pv) => tok_previous() + json_oid(pv),
            None => Seq::<u8>::empty(),
        }));
    }
    push_lit(&mut out, &toks.2);
    push_json_oid(&mut out, &m.head);
    push_lit(&mut out, &toks.3);
    push_json_str(&mut out, m.base_name.as_str());
    push_lit(&mut out, &toks.4);
    push_json_oid(&mut out, &m.base);
    push_lit(&mut out, &toks.5);
    push_json_names(&mut out, &m.applied);
    push_lit(&mut out, &toks.6);
    push_json_names(&mut out, &m.unapplied);
    push_lit(&mut out, &toks.7);
    push_json_pairs(&mut out, &m.patches, Ghost(m@.patches));
    out.push(125);
    proof {
        assert(out@ =~= enc_meta(m@));
    }
    out
}

/// The key tokens of the serialized form, in writing order.
fn key_tokens() -> (r: (Vec<u8>, Vec<u8>, Vec<u8>, Vec<u8>, Vec<u8>, Vec<u8>, Vec<u8>, Vec<u8>))
    ensures
        r.0@ == tok_version(),
        r.1@ == tok_previous(),
        r.2@ == tok_head(),
        r.3@ == tok_base_name(),
        r.4@ == tok_base(),
        r.5@ == tok_applied(),
        r.6@ == tok_unapplied(),
        r.7@ == tok_patches(),
{
    let mut version: Vec<u8> = Vec::new();
    version.push(123);
    version.push(34);
    version.push(118);
    version.push(101);
    version.push(114);
    version.push(115);
    version.push(105);
    version.push(111);
    version.push(110);
    version.push(34);
    version.push(58);
    version.push(49);
    let mut previous: Vec<u8> = Vec::new();
    previous.push(44);
    previous.push(34);
    previous.push(112);
    previous.push(114);
    previous.push(101);
    previous.push(118);
    previous.push(105);
    previous.push(111);
    previous.push(117);
    previous.push(115);
    previous.push(34);
    previous.push(58);
    let mut head: Vec<u8> = Vec::new();
    head.push(44);
    head.push(34);
    head.push(104);
    head.push(101);
    head.push(97);
    head.push(100);
    head.push(34);
    head.push(58);
    let mut base_name: Vec<u8> = Vec::new();
    base_name.push(44);
    base_name.push(34);
    base_name.push(98);
    base_name.push(97);
    base_name.push(115);
    base_name.push(101);
    base_name.push(95);
    base_name.push(110);
    base_name.push(97);
    base_name.push(109);
    base_name.push(101);
    base_name.push(34);
    base_name.push(58);
    let mut base: Vec<u8> = Vec::new();
    base.push(44);
    base.push(34);
    base.push(98);
    base.push(97);
    base.push(115);
    base.push(101);
    base.push(34);
    base.push(58);
    let mut applied: Vec<u8> = Vec::new();
    applied.push(44);
    applied.push(34);
    applied.push(97);
    applied.push(112);
    applied.push(112);
    applied.push(108);
    applied.push(105);
    applied.push(101);
    applied.push(100);
    applied.push(34);
    applied.push(58);
    let mut unapplied: Vec<u8> = Vec::new();
    unapplied.push(44);
    unapplied.push(34);
    unapplied.push(117);
    unapplied.push(110);
    unapplied.push(97);
    unapplied.push(112);
    unapplied.push(112);
    unapplied.push(108);
    unapplied.push(105);
    unapplied.push(101);
    unapplied.push(100);
    unapplied.push(34);
    unapplied.push(58);
    let mut patches: Vec<u8> = Vec::new();
    patches.push(44);
    patches.push(34);
    patches.push(112);
    patches.push(97);
    patches.push(116);
    patches.push(99);
    patches.push(104);
    patches.push(101);
    patches.push(115);
    patches.push(34);
    patches.push(58);
    proof {
        assert(version@ =~= tok_version());
        assert(previous@ =~= tok_previous());
        assert(head@ =~= tok_head());
        assert(base_name@ =~= tok_base_name());
        assert(base@ =~= tok_base());
        assert(applied@ =~= tok_applied());
        assert(unapplied@ =~= tok_unapplied());
        assert(patches@ =~= tok_patches());
    }
    (version, previous, head, base_name, base, applied, unapplied, patches)
}

} // verus!

verus! {

/// Decoding failure: the blob is not a well-formed canonical record.
pub struct InvalidMetadata;

/// Relies on String::from_utf8: it succeeds exactly on valid UTF-8 input,
/// and the returned string's UTF-8 encoding is that input.
#[verifier::external_body]
fn string_from_utf8(v: Vec<u8>) -> (r: Option<String>)
    ensures
        match r {
            Some(s) => encode_utf8(s@) == v@,
            None => !vstd::utf8::valid_utf8(v@),
        },
{
    String::from_utf8(v).ok()
}

/// Does the input carry exactly this token at the position?
fn at_lit(b: &Vec<u8>, pos: usize, lit: &Vec<u8>) -> (r: bool)
    requires
        pos <= b@.len(),
    ensures
        r == (pos + lit@.len() <= b@.len() && b@.subrange(pos as int, pos + lit@.len())
            =~= lit@),
{
    let n = lit.len();
    let bn = b.len();
    if n > bn - pos {
        return false;
    }
    let mut i: usize = 0;
    while i < n
        invariant
            i <= n,
            n == lit@.len(),
            bn == b@.len(),
            pos + n <= bn,
            forall|j: int| 0 <= j < i ==> b@[pos + j] == lit@[j],
        decreases n - i,
    {
        if b[pos + i] != lit[i] {
            proof {
                assert(b@.subrange(pos as int, pos + lit@.len())[i as int] == b@[pos + i]);
            }
            return false;
        }
        i = i + 1;
    }
    proof {
        assert(b@.subrange(pos as int, pos + lit@.len()) =~= lit@);
    }
    true
}

/// Consume exactly this token.
fn eat_lit(b: &Vec<u8>, pos: usize, lit: &Vec<u8>) -> (r: Result<usize, InvalidMetadata>)
    requires
        pos <= b@.len(),
    ensures
        match r {
            Ok(p2) => p2 == pos + lit@.len() && p2 <= b@.len() && b@.subrange(pos as int, p2 as int)
                =~= lit@,
            Err(_) => !(pos + lit@.len() <= b@.len() && b@.subrange(pos as int, pos + lit@.len())
                =~= lit@),
        },
{
    if at_lit(b, pos, lit) {
        let bn = b.len();
        proof {
            assert(pos + lit@.len() <= bn);
        }
        Ok(pos + lit.len())
    } else {
        Err(InvalidMetadata)
    }
}

/// Parse a quoted lowercase hexadecimal object id.
fn parse_oid(b: &Vec<u8>, pos: usize) -> (r: Result<(ObjectId, usize), InvalidMetadata>)
    requires
        pos <= b@.len(),
    ensures
        match r {
            Ok((id, p2)) => id.wf() && pos < p2 <= b@.len() && b@.subrange(pos as int, p2 as int)
                == json_oid(id@),
            Err(_) => true,
        },
        forall|x: Seq<u8>|
            (x.len() == OID_LEN && pos + 2 * OID_LEN + 2 <= b@.len() && b@.subrange(
                pos as int,
                pos + 2 * OID_LEN + 2,
            ) == #[trigger] json_oid(x)) ==> match r {
                Ok(p) => p.0@ == x && p.1 == pos + 2 * OID_LEN + 2,
                Err(_) => false,
            },
{
    let bn = b.len();
    if bn - pos < 2 * OID_LEN + 2 {
        return Err(InvalidMetadata);
    }
    if b[pos] != 34 {
        proof {
            assert forall|x: Seq<u8>|
                !(x.len() == OID_LEN && pos + 2 * OID_LEN + 2 <= b@.len() && b@.subrange(
                    pos as int,
                    pos + 2 * OID_LEN + 2,
                ) == #[trigger] json_oid(x)) by {
                if x.len() == OID_LEN && pos + 2 * OID_LEN + 2 <= b@.len() && b@.subrange(
                    pos as int,
                    pos + 2 * OID_LEN + 2,
                ) == json_oid(x) {
                    assert(b@.subrange(pos as int, pos + 2 * OID_LEN + 2)[0] == 34);
                }
            }
        }
        return Err(InvalidMetadata);
    }
    let mut bytes: Vec<u8> = Vec::new();
    let mut i: usize = 0;
    while i < OID_LEN
        invariant
            i <= OID_LEN,
            bn == b@.len(),
            pos + 2 * OID_LEN + 2 <= bn,
            b@[pos as int] == 34,
            bytes@.len() == i,
            forall|j: int| 0 <= j < 2 * i ==> b@[pos + 1 + j] == hex_of(bytes@)[j],
        decreases OID_LEN - i,
    {
        let hi = b[pos + 1 + 2 * i];
        let lo = b[pos + 2 + 2 * i];
        let hi_ok = (48 <= hi && hi <= 57) || (97 <= hi && hi <= 102);
        let lo_ok = (48 <= lo && lo <= 57) || (97 <= lo && lo <= 102);
        if !hi_ok || !lo_ok {
            proof {
                assert forall|x: Seq<u8>|
                    !(x.len() == OID_LEN && pos + 2 * OID_LEN + 2 <= b@.len() && b@.subrange(
                        pos as int,
                        pos + 2 * OID_LEN + 2,
                    ) == #[trigger] json_oid(x)) by {
                    if x.len() == OID_LEN && pos + 2 * OID_LEN + 2 <= b@.len() && b@.subrange(
                        pos as int,
                        pos + 2 * OID_LEN + 2,
                    ) == json_oid(x) {
                        lemma_hex_digits_in_range(x, 2 * i as int);
                        lemma_hex_digits_in_range(x, 2 * i + 1);
                        assert(b@.subrange(pos as int, pos + 2 * OID_LEN + 2)[1 + 2 * i]
                            == hex_of(x)[2 * i]);
                        assert(b@.subrange(pos as int, pos + 2 * OID_LEN + 2)[2 + 2 * i]
                            == hex_of(x)[2 * i + 1]);
                    }
                }
            }
            return Err(InvalidMetadata);
        }
        let hv = if hi <= 57 {
            hi - 48
        } else {
            hi - 87
        };
        let lv = if lo <= 57 {
            lo - 48
        } else {
            lo - 87
        };
        let ghost before = bytes@;
        bytes.push(hv * 16 + lv);
        proof {
            let v = (hv * 16 + lv) as u8;
            assert(v / 16 == hv && v % 16 == lv) by (nonlinear_arith)
                requires
                    hv < 16 && lv < 16 && v == hv * 16 + lv,
            ;
            assert(hex_digit(hv) == hi);
            assert(hex_digit(lv) == lo);
            assert forall|j: int| 0 <= j < 2 * (i + 1) implies b@[pos + 1 + j] == hex_of(
                bytes@,
            )[j] by {
                if j < 2 * i {
                    assert(hex_of(before)[j] == hex_of(bytes@)[j]);
                }
            }
        }
        i = i + 1;
    }
    if b[pos + 1 + 2 * OID_LEN] != 34 {
        proof {
            assert forall|x: Seq<u8>|
                !(x.len() == OID_LEN && pos + 2 * OID_LEN + 2 <= b@.len() && b@.subrange(
                    pos as int,
                    pos + 2 * OID_LEN + 2,
                ) == #[trigger] json_oid(x)) by {
                if x.len() == OID_LEN && pos + 2 * OID_LEN + 2 <= b@.len() && b@.subrange(
                    pos as int,
                    pos + 2 * OID_LEN + 2,
                ) == json_oid(x) {
                    assert(b@.subrange(pos as int, pos + 2 * OID_LEN + 2)[1 + 2 * OID_LEN]
                        == 34);
                }
            }
        }
        return Err(InvalidMetadata);
    }
    let id = match ObjectId::from_bytes(bytes) {
        Some(id) => id,
        None => unreached(),
    };
    let p2 = pos + 2 * OID_LEN + 2;
    proof {
        assert(b@.subrange(pos as int, p2 as int) =~= json_oid(id@));
        assert forall|x: Seq<u8>|
            (x.len() == OID_LEN && pos + 2 * OID_LEN + 2 <= b@.len() && b@.subrange(
                pos as int,
                pos + 2 * OID_LEN + 2,
            ) == #[trigger] json_oid(x)) implies x == id@ by {
            assert forall|j: int| 0 <= j < hex_of(x).len() implies hex_of(x)[j] == hex_of(
                id@,
            )[j] by {
                assert(json_oid(x)[1 + j] == hex_of(x)[j]);
                assert(json_oid(id@)[1 + j] == hex_of(id@)[j]);
            }
            assert(hex_of(x) =~= hex_of(id@));
            crate::oid::lemma_hex_round_trip(x);
            crate::oid::lemma_hex_round_trip(id@);
            assert(x =~= bytes_of_hex(hex_of(x)));
        }
    }
    Ok((id, p2))
}

/// Every digit of a lowercase hexadecimal rendering is a lowercase
/// hexadecimal digit byte.
proof fn lemma_hex_digits_in_range(x: Seq<u8>, j: int)
    requires
        0 <= j < 2 * x.len(),
    ensures
        48 <= hex_of(x)[j] <= 57 || 97 <= hex_of(x)[j] <= 102,
{
    let v = if j % 2 == 0 {
        (x[j / 2] / 16) as u8
    } else {
        (x[j / 2] % 16) as u8
    };
    assert(v < 16);
    assert(hex_of(x)[j] == hex_digit(v));
}


/// Escaping distributes over concatenation.
proof fn lemma_escape_append(a: Seq<u8>, b: Seq<u8>)
    ensures
        escape(a + b) == escape(a) + escape(b),
    decreases a.len(),
{
    if a.len() == 0 {
        assert(a + b =~= b);
        assert(escape(a) == Seq::<u8>::empty());
        assert(escape(a) + escape(b) =~= escape(b));
    } else {
        lemma_escape_append(a.drop_first(), b);
        assert((a + b).drop_first() =~= a.drop_first() + b);
        assert((a + b)[0] == a[0]);
        assert(escape(a + b) == esc_byte(a[0]) + (escape(a.drop_first()) + escape(b)));
        assert(escape(a) == esc_byte(a[0]) + escape(a.drop_first()));
        assert(esc_byte(a[0]) + (escape(a.drop_first()) + escape(b)) =~= (esc_byte(a[0])
            + escape(a.drop_first())) + escape(b));
    }
}

/// A canonical JSON string for `s` sits at `pos`.
spec fn str_at(b: Seq<u8>, pos: int, s: Seq<char>) -> bool {
    &&& 0 <= pos
    &&& pos + json_str(s).len() <= b.len()
    &&& b.subrange(pos, pos + json_str(s).len()) == json_str(s)
}

/// What the scan of a canonical JSON string knows mid-way: with a prefix of
/// the text's UTF-8 bytes decoded, either everything is decoded and the
/// closing quote is next, or the escape of the next byte is next.
proof fn lemma_scan_state(b: Seq<u8>, pos: int, q: int, v: Seq<u8>, s: Seq<char>)
    requires
        str_at(b, pos, s),
        pos + 1 <= q <= b.len(),
        b.subrange(pos + 1, q) == escape(v),
        v.len() <= encode_utf8(s).len(),
        v == encode_utf8(s).take(v.len() as int),
    ensures
        q == pos + 1 + escape(v).len(),
        v.len() == encode_utf8(s).len() ==> (q == pos + json_str(s).len() - 1 && b[q] == 34),
        v.len() < encode_utf8(s).len() ==> (q + esc_byte(encode_utf8(s)[v.len() as int]).len()
            <= pos + json_str(s).len() - 1 && (forall|j: int|
            0 <= j < esc_byte(encode_utf8(s)[v.len() as int]).len() ==> b[q + j] == esc_byte(
                encode_utf8(s)[v.len() as int],
            )[j])),
{
    let es = encode_utf8(s);
    let k = v.len() as int;
    let l = json_str(s).len();
    assert(es.take(k) + es.skip(k) =~= es);
    lemma_escape_append(es.take(k), es.skip(k));
    assert(escape(es) == escape(v) + escape(es.skip(k)));
    assert(q - (pos + 1) == escape(v).len());
    // the bytes of the region are those of the canonical string
    assert forall|i: int| 0 <= i < l implies b[pos + i] == json_str(s)[i] by {
        assert(b.subrange(pos, pos + l)[i] == b[pos + i]);
    }
    assert forall|i: int| 0 <= i < escape(es).len() implies json_str(s)[1 + i] == escape(
        es,
    )[i] by {}
    if k == es.len() {
        assert(es.skip(k) =~= Seq::<u8>::empty());
        assert(escape(es.skip(k)) == Seq::<u8>::empty());
        assert(escape(es) =~= escape(v));
        assert(q == pos + 1 + escape(es).len());
        assert(json_str(s)[l - 1] == 34);
        assert(b[q] == 34);
    } else {
        assert(es.skip(k)[0] == es[k]);
        assert(es.skip(k).drop_first() =~= es.skip(k + 1));
        assert(escape(es.skip(k)) == esc_byte(es[k]) + escape(es.skip(k + 1)));
        let e = esc_byte(es[k]);
        assert(escape(es).len() == escape(v).len() + e.len() + escape(es.skip(k + 1)).len());
        assert forall|j: int| 0 <= j < e.len() implies b[q + j] == e[j] by {
            assert(escape(es)[escape(v).len() + j] == escape(es.skip(k))[j]);
            assert(escape(es.skip(k))[j] == e[j]);
            assert(json_str(s)[1 + escape(v).len() + j] == escape(es)[escape(v).len() + j]);
            assert(b[pos + 1 + escape(v).len() + j] == json_str(s)[1 + escape(v).len() + j]);
        }
    }
}

/// The first byte of an escape sequence is never a bare quote, and a byte
/// sequence is pinned by its escape.
proof fn lemma_esc_byte_shape(x: u8)
    ensures
        esc_byte(x)[0] != 34,
        esc_byte(x)[0] == 92 <==> (x == 34 || x == 92 || x < 32),
        !(x == 34 || x == 92 || x < 32) ==> esc_byte(x) =~= seq![x],
{
}

/// Parse a JSON string in canonical form.
#[verifier::spinoff_prover]
#[verifier::rlimit(100)]
fn parse_string(b: &Vec<u8>, pos: usize) -> (r: Result<(String, usize), InvalidMetadata>)
    requires
        pos <= b@.len(),
    ensures
        match r {
            Ok((s, p2)) => pos < p2 <= b@.len() && b@.subrange(pos as int, p2 as int) == json_str(
                s@,
            ),
            Err(_) => true,
        },
        forall|s: Seq<char>| #[trigger]
            str_at(b@, pos as int, s) ==> match r {
                Ok(p) => p.0@ == s && p.1 == pos + json_str(s).len(),
                Err(_) => false,
            },
{
    let n = b.len();
    if pos >= n || b[pos] != 34 {
        proof {
            assert forall|s: Seq<char>| !str_at(b@, pos as int, s) by {
                if str_at(b@, pos as int, s) {
                    assert(b@.subrange(pos as int, pos + json_str(s).len())[0] == 34);
                }
            }
        }
        return Err(InvalidMetadata);
    }
    let mut v: Vec<u8> = Vec::new();
    let mut q: usize = pos + 1;
    proof {
        assert forall|s: Seq<char>| #[trigger] str_at(b@, pos as int, s) implies v@.len()
            <= encode_utf8(s).len() && v@ == encode_utf8(s).take(v@.len() as int) by {
            assert(encode_utf8(s).take(0) =~= v@);
        }
    }
    loop
        invariant
            pos + 1 <= q <= n,
            n == b@.len(),
            b@[pos as int] == 34,
            b@.subrange(pos + 1, q as int) == escape(v@),
            forall|s: Seq<char>| #[trigger]
                str_at(b@, pos as int, s) ==> v@.len() <= encode_utf8(s).len() && v@
                    == encode_utf8(s).take(v@.len() as int),
        decreases n - q,
    {
        if q >= n {
            proof {
                assert forall|s: Seq<char>| !str_at(b@, pos as int, s) by {
                    if str_at(b@, pos as int, s) {
                        lemma_scan_state(b@, pos as int, q as int, v@, s);
                        if v@.len() < encode_utf8(s).len() {
                            assert(esc_byte(encode_utf8(s)[v@.len() as int]).len() > 0);
                        }
                    }
                }
            }
            return Err(InvalidMetadata);
        }
        let c = b[q];
        if c == 34 {
            let ghost vg = v@;
            let s = match string_from_utf8(v) {
                Some(s) => s,
                None => {
                    proof {
                        assert forall|s2: Seq<char>| !str_at(b@, pos as int, s2) by {
                            if str_at(b@, pos as int, s2) {
                                lemma_scan_state(b@, pos as int, q as int, vg, s2);
                                if vg.len() < encode_utf8(s2).len() {
                                    lemma_esc_byte_shape(encode_utf8(s2)[vg.len() as int]);
                                }
                                assert(vg =~= encode_utf8(s2));
                                vstd::utf8::encode_utf8_valid_utf8(s2);
                            }
                        }
                    }
                    return Err(InvalidMetadata);
                },
            };
            let p2 = q + 1;
            proof {
                assert(b@.subrange(pos as int, p2 as int) =~= json_str(s@));
                assert forall|s2: Seq<char>| #[trigger] str_at(b@, pos as int, s2) implies s@
                    == s2 && p2 == pos + json_str(s2).len() by {
                    lemma_scan_state(b@, pos as int, q as int, vg, s2);
                    if vg.len() < encode_utf8(s2).len() {
                        lemma_esc_byte_shape(encode_utf8(s2)[vg.len() as int]);
                    }
                    assert(vg =~= encode_utf8(s2));
                    vstd::utf8::encode_utf8_decode_utf8(s@);
                    vstd::utf8::encode_utf8_decode_utf8(s2);
                    assert(s@ == s2);
                }
            }
            return Ok((s, p2));
        } else if c == 92 {
            proof {
                // under any canonical reading, an escape sequence follows
                assert forall|s2: Seq<char>| #[trigger] str_at(b@, pos as int, s2) implies
                    v@.len() < encode_utf8(s2).len() && (encode_utf8(s2)[v@.len() as int] == 34
                        || encode_utf8(s2)[v@.len() as int] == 92 || encode_utf8(
                        s2,
                    )[v@.len() as int] < 32) && q + esc_byte(
                    encode_utf8(s2)[v@.len() as int],
                ).len() < n by {
                    lemma_scan_state(b@, pos as int, q as int, v@, s2);
                    if v@.len() < encode_utf8(s2).len() {
                        lemma_esc_byte_shape(encode_utf8(s2)[v@.len() as int]);
                    }
                }
            }
            if n - q < 2 {
                proof {
                    assert forall|s2: Seq<char>| !str_at(b@, pos as int, s2) by {
                        if str_at(b@, pos as int, s2) {
                            assert(esc_byte(encode_utf8(s2)[v@.len() as int]).len() >= 2);
                        }
                    }
                }
                return Err(InvalidMetadata);
            }
            let e = b[q + 1];
            if e == 34 || e == 92 {
                let ghost before = v@;
                v.push(e);
                proof {
                    lemma_escape_snoc(v@, before.len() as int);
                    assert(v@.take(before.len() as int) =~= before);
                    assert(v@.take(before.len() as int + 1) =~= v@);
                    assert(b@.subrange(pos + 1, q + 2) =~= escape(before) + esc_byte(e));
                    assert forall|s2: Seq<char>| #[trigger] str_at(b@, pos as int, s2) implies
                        v@.len() <= encode_utf8(s2).len() && v@ == encode_utf8(s2).take(
                        v@.len() as int,
                    ) by {
                        let es = encode_utf8(s2);
                        let k = before.len() as int;
                        lemma_scan_state(b@, pos as int, q as int, before, s2);
                        lemma_esc_byte_shape(es[k]);
                        // the second byte distinguishes the three escape classes
                        assert(b@[q + 1] == esc_byte(es[k])[1]);
                        assert(es[k] == e);
                        assert(v@ =~= es.take(k + 1));
                    }
                }
                q = q + 2;
            } else if e == 117 {
                if n - q < 6 {
                    proof {
                        assert forall|s2: Seq<char>| !str_at(b@, pos as int, s2) by {
                            if str_at(b@, pos as int, s2) {
                                let es = encode_utf8(s2);
                                let k = v@.len() as int;
                                lemma_scan_state(b@, pos as int, q as int, v@, s2);
                                lemma_esc_byte_shape(es[k]);
                                assert(b@[q + 1] == esc_byte(es[k])[1]);
                                assert(es[k] < 32);
                                assert(esc_byte(es[k]).len() == 6);
                            }
                        }
                    }
                    return Err(InvalidMetadata);
                }
                let h1 = b[q + 4];
                let h2 = b[q + 5];
                let digits_ok = b[q + 2] == 48 && b[q + 3] == 48 && ((48 <= h1 && h1 <= 57) || (
                97 <= h1 && h1 <= 102)) && ((48 <= h2 && h2 <= 57) || (97 <= h2 && h2 <= 102));
                proof {
                    assert forall|s2: Seq<char>| #[trigger] str_at(b@, pos as int, s2) implies {
                        let es = encode_utf8(s2);
                        let k = v@.len() as int;
                        &&& es[k] < 32
                        &&& b@[q + 2] == 48
                        &&& b@[q + 3] == 48
                        &&& b@[q + 4] == hex_digit((es[k] / 16) as u8)
                        &&& b@[q + 5] == hex_digit((es[k] % 16) as u8)
                    } by {
                        let es = encode_utf8(s2);
                        let k = v@.len() as int;
                        lemma_scan_state(b@, pos as int, q as int, v@, s2);
                        lemma_esc_byte_shape(es[k]);
                        assert(b@[q + 1] == esc_byte(es[k])[1]);
                        assert(es[k] < 32);
                        assert(b@[q + 2] == esc_byte(es[k])[2]);
                        assert(b@[q + 3] == esc_byte(es[k])[3]);
                        assert(b@[q + 4] == esc_byte(es[k])[4]);
                        assert(b@[q + 5] == esc_byte(es[k])[5]);
                    }
                }
                if !digits_ok {
                    proof {
                        assert forall|s2: Seq<char>| !str_at(b@, pos as int, s2) by {
                            if str_at(b@, pos as int, s2) {
                                let es = encode_utf8(s2);
                                let k = v@.len() as int;
                                lemma_hex_digit_shape((es[k] / 16) as u8);
                                lemma_hex_digit_shape((es[k] % 16) as u8);
                            }
                        }
                    }
                    return Err(InvalidMetadata);
                }
                let hv = if h1 <= 57 {
                    h1 - 48
                } else {
                    h1 - 87
                };
                let lv = if h2 <= 57 {
                    h2 - 48
                } else {
                    h2 - 87
                };
                let val = hv * 16 + lv;
                if val >= 32 {
                    proof {
                        assert(val / 16 == hv && val % 16 == lv) by (nonlinear_arith)
                            requires
                                hv < 16 && lv < 16 && val == hv * 16 + lv,
                        ;
                        assert forall|s2: Seq<char>| !str_at(b@, pos as int, s2) by {
                            if str_at(b@, pos as int, s2) {
                                let es = encode_utf8(s2);
                                let k = v@.len() as int;
                                assert(hex_digit((es[k] / 16) as u8) == h1);
                                assert(hex_digit((es[k] % 16) as u8) == h2);
                                assert(hex_digit(hv) == h1 && hex_digit(lv) == h2);
                                lemma_hex_digit_injective((es[k] / 16) as u8, hv);
                                lemma_hex_digit_injective((es[k] % 16) as u8, lv);
                                assert(es[k] == es[k] / 16 * 16 + es[k] % 16) by (
                                nonlinear_arith);
                                assert(es[k] == val);
                            }
                        }
                    }
                    return Err(InvalidMetadata);
                }
                let ghost before = v@;
                v.push(val);
                proof {
                    assert(val / 16 == hv && val % 16 == lv) by (nonlinear_arith)
                        requires
                            hv < 16 && lv < 16 && val == hv * 16 + lv,
                    ;
                    assert(hex_digit(hv) == h1);
                    assert(hex_digit(lv) == h2);
                    assert(esc_byte(val) =~= seq![92u8, 117u8, 48u8, 48u8, h1, h2]);
                    lemma_escape_snoc(v@, before.len() as int);
                    assert(v@.take(before.len() as int) =~= before);
                    assert(v@.take(before.len() as int + 1) =~= v@);
                    assert(b@.subrange(pos + 1, q + 6) =~= escape(before) + esc_byte(val));
                    assert forall|s2: Seq<char>| #[trigger] str_at(b@, pos as int, s2) implies
                        v@.len() <= encode_utf8(s2).len() && v@ == encode_utf8(s2).take(
                        v@.len() as int,
                    ) by {
                        let es = encode_utf8(s2);
                        let k = before.len() as int;
                        assert(hex_digit((es[k] / 16) as u8) == h1);
                        assert(hex_digit((es[k] % 16) as u8) == h2);
                        lemma_hex_digit_injective((es[k] / 16) as u8, hv);
                        lemma_hex_digit_injective((es[k] % 16) as u8, lv);
                        assert(es[k] == es[k] / 16 * 16 + es[k] % 16) by (nonlinear_arith);
                        assert(es[k] == val);
                        assert(v@ =~= es.take(k + 1));
                    }
                }
                q = q + 6;
            } else {
                proof {
                    assert forall|s2: Seq<char>| !str_at(b@, pos as int, s2) by {
                        if str_at(b@, pos as int, s2) {
                            let es = encode_utf8(s2);
                            let k = v@.len() as int;
                            lemma_scan_state(b@, pos as int, q as int, v@, s2);
                            lemma_esc_byte_shape(es[k]);
                            assert(b@[q + 1] == esc_byte(es[k])[1]);
                        }
                    }
                }
                return Err(InvalidMetadata);
            }
        } else if c < 32 {
            proof {
                assert forall|s2: Seq<char>| !str_at(b@, pos as int, s2) by {
                    if str_at(b@, pos as int, s2) {
                        lemma_scan_state(b@, pos as int, q as int, v@, s2);
                        if v@.len() < encode_utf8(s2).len() {
                            lemma_esc_byte_shape(encode_utf8(s2)[v@.len() as int]);
                        }
                    }
                }
            }
            return Err(InvalidMetadata);
        } else {
            let ghost before = v@;
            v.push(c);
            proof {
                assert(esc_byte(c) =~= seq![c]);
                lemma_escape_snoc(v@, before.len() as int);
                assert(v@.take(before.len() as int) =~= before);
                assert(v@.take(before.len() as int + 1) =~= v@);
                assert(b@.subrange(pos + 1, q + 1) =~= escape(before) + esc_byte(c));
                assert forall|s2: Seq<char>| #[trigger] str_at(b@, pos as int, s2) implies
                    v@.len() <= encode_utf8(s2).len() && v@ == encode_utf8(s2).take(
                    v@.len() as int,
                ) by {
                    let es = encode_utf8(s2);
                    let k = before.len() as int;
                    lemma_scan_state(b@, pos as int, q as int, before, s2);
                    lemma_esc_byte_shape(es[k]);
                    assert(b@[q as int] == esc_byte(es[k])[0]);
                    assert(es[k] == c);
                    assert(v@ =~= es.take(k + 1));
                }
            }
            q = q + 1;
        }
    }
}

/// A lowercase hexadecimal digit byte sits in one of two ranges.
proof fn lemma_hex_digit_shape(x: u8)
    requires
        x < 16,
    ensures
        48 <= hex_digit(x) <= 57 || 97 <= hex_digit(x) <= 102,
{
}

/// Two values below sixteen with the same digit are equal.
proof fn lemma_hex_digit_injective(x: u8, y: u8)
    requires
        x < 16,
        y < 16,
        hex_digit(x) == hex_digit(y),
    ensures
        x == y,
{
}

} // verus!

verus! {


/// The encoded tail of a string array distributes over concatenation.
proof fn lemma_names_rest_append(a: Seq<Seq<char>>, b: Seq<Seq<char>>)
    ensures
        json_names_rest(a + b) == json_names_rest(a) + json_names_rest(b),
    decreases a.len(),
{
    if a.len() == 0 {
        assert(a + b =~= b);
        assert(json_names_rest(a) == Seq::<u8>::empty());
        assert(json_names_rest(a) + json_names_rest(b) =~= json_names_rest(b));
    } else {
        lemma_names_rest_append(a.drop_first(), b);
        assert((a + b).drop_first() =~= a.drop_first() + b);
        assert((a + b)[0] == a[0]);
        assert(json_names_rest(a + b) == seq![44u8] + json_str(a[0]) + (json_names_rest(
            a.drop_first(),
        ) + json_names_rest(b)));
        assert(seq![44u8] + json_str(a[0]) + (json_names_rest(a.drop_first())
            + json_names_rest(b)) =~= (seq![44u8] + json_str(a[0]) + json_names_rest(
            a.drop_first(),
        )) + json_names_rest(b));
    }
}

/// The encoded tail of the patches object distributes over concatenation.
proof fn lemma_pairs_rest_append(a: Seq<(Seq<char>, Seq<u8>)>, b: Seq<(Seq<char>, Seq<u8>)>)
    ensures
        json_pairs_rest(a + b) == json_pairs_rest(a) + json_pairs_rest(b),
    decreases a.len(),
{
    if a.len() == 0 {
        assert(a + b =~= b);
        assert(json_pairs_rest(a) == Seq::<u8>::empty());
        assert(json_pairs_rest(a) + json_pairs_rest(b) =~= json_pairs_rest(b));
    } else {
        lemma_pairs_rest_append(a.drop_first(), b);
        assert((a + b).drop_first() =~= a.drop_first() + b);
        assert((a + b)[0] == a[0]);
        assert(json_pairs_rest(a + b) == seq![44u8] + json_pair(a[0]) + (json_pairs_rest(
            a.drop_first(),
        ) + json_pairs_rest(b)));
        assert(seq![44u8] + json_pair(a[0]) + (json_pairs_rest(a.drop_first())
            + json_pairs_rest(b)) =~= (seq![44u8] + json_pair(a[0]) + json_pairs_rest(
            a.drop_first(),
        )) + json_pairs_rest(b));
    }
}

/// A canonical string array for `l` sits at `pos`.
spec fn names_at(b: Seq<u8>, pos: int, l: Seq<Seq<char>>) -> bool {
    &&& 0 <= pos
    &&& pos + json_names(l).len() <= b.len()
    &&& b.subrange(pos, pos + json_names(l).len()) == json_names(l)
}

/// What the scan of a canonical string array knows mid-way: with a prefix of
/// the names read, either all are read and the closing bracket is next, or a
/// comma and the canonical string of the next name are next.
proof fn lemma_names_scan(b: Seq<u8>, pos: int, q: int, dv: Seq<Seq<char>>, l: Seq<Seq<char>>)
    requires
        names_at(b, pos, l),
        1 <= dv.len() <= l.len(),
        l.len() >= 1,
        dv == l.take(dv.len() as int),
        pos + 1 <= q <= b.len(),
        b.subrange(pos + 1, q) == json_str(dv[0]) + json_names_rest(dv.drop_first()),
    ensures
        dv.len() == l.len() ==> (q == pos + json_names(l).len() - 1 && b[q] == 93),
        dv.len() < l.len() ==> (b[q] == 44 && str_at(b, q + 1, l[dv.len() as int]) && q + 1
            + json_str(l[dv.len() as int]).len() <= pos + json_names(l).len() - 1),
{
    let ln = json_names(l).len();
    let k = dv.len() as int;
    let r = l.drop_first();
    assert forall|i: int| 0 <= i < ln implies b[pos + i] == json_names(l)[i] by {
        assert(b.subrange(pos, pos + ln)[i] == b[pos + i]);
    }
    assert(dv[0] == l[0]);
    assert(dv.drop_first() =~= r.take(k - 1));
    assert(r.take(k - 1) + r.skip(k - 1) =~= r);
    lemma_names_rest_append(r.take(k - 1), r.skip(k - 1));
    assert(json_names_rest(r) == json_names_rest(dv.drop_first()) + json_names_rest(
        r.skip(k - 1),
    ));
    // the consumed prefix sits right after the opening bracket
    let consumed = json_str(l[0]) + json_names_rest(dv.drop_first());
    assert(q - (pos + 1) == consumed.len());
    assert forall|i: int| 0 <= i < json_str(l[0]).len() + json_names_rest(r).len() implies
        json_names(l)[1 + i] == (json_str(l[0]) + json_names_rest(r))[i] by {}
    if k == l.len() {
        assert(r.skip(k - 1) =~= Seq::<Seq<char>>::empty());
        assert(json_names_rest(r.skip(k - 1)) == Seq::<u8>::empty());
        assert(json_names_rest(r) =~= json_names_rest(dv.drop_first()));
        assert(q == pos + ln - 1);
        assert(json_names(l)[ln - 1] == 93);
    } else {
        assert(r.skip(k - 1)[0] == r[k - 1]);
        assert(r[k - 1] == l[k]);
        assert(r.skip(k - 1).drop_first() =~= r.skip(k));
        assert(json_names_rest(r.skip(k - 1)) == seq![44u8] + json_str(l[k])
            + json_names_rest(r.skip(k)));
        let e = seq![44u8] + json_str(l[k]);
        assert(json_names_rest(r).len() == json_names_rest(dv.drop_first()).len()
            + json_names_rest(r.skip(k - 1)).len());
        assert(json_names_rest(r.skip(k - 1)).len() == e.len() + json_names_rest(
            r.skip(k),
        ).len());
        assert forall|j: int| 0 <= j < e.len() implies b[q + j] == e[j] by {
            let i = consumed.len() + j;
            assert(i < json_str(l[0]).len() + json_names_rest(r).len());
            assert(json_names(l)[1 + i] == (json_str(l[0]) + json_names_rest(r))[i]);
            assert((json_str(l[0]) + json_names_rest(r))[i] == json_names_rest(r)[i - json_str(
                l[0],
            ).len()]);
            assert(json_names_rest(r)[i - json_str(l[0]).len()] == json_names_rest(
                r.skip(k - 1),
            )[j]);
            assert(json_names_rest(r.skip(k - 1))[j] == e[j]);
            assert(b[pos + 1 + i] == json_names(l)[1 + i]);
        }
        assert(b[q] == e[0]);
        assert(b[q] == 44);
        assert forall|j: int| 0 <= j < json_str(l[k]).len() implies b.subrange(
            q + 1,
            q + 1 + json_str(l[k]).len(),
        )[j] == json_str(l[k])[j] by {
            assert(b[q + 1 + j] == e[1 + j]);
            assert(e[1 + j] == json_str(l[k])[j]);
        }
        assert(b.subrange(q + 1, q + 1 + json_str(l[k]).len()) =~= json_str(l[k]));
        assert(str_at(b, q + 1, l[k]));
    }
}

/// Parse a canonical JSON array of strings.
#[verifier::spinoff_prover]
#[verifier::rlimit(100)]
fn parse_names(b: &Vec<u8>, pos: usize) -> (r: Result<(Vec<String>, usize), InvalidMetadata>)
    requires
        pos <= b@.len(),
    ensures
        match r {
            Ok((l, p2)) => pos < p2 <= b@.len() && b@.subrange(pos as int, p2 as int)
                == json_names(l.deep_view()),
            Err(_) => true,
        },
        forall|l: Seq<Seq<char>>| #[trigger]
            names_at(b@, pos as int, l) ==> match r {
                Ok(p) => p.0.deep_view() == l && p.1 == pos + json_names(l).len(),
                Err(_) => false,
            },
{
    let n = b.len();
    if pos >= n || b[pos] != 91 {
        proof {
            assert forall|l: Seq<Seq<char>>| !names_at(b@, pos as int, l) by {
                if names_at(b@, pos as int, l) {
                    assert(b@.subrange(pos as int, pos + json_names(l).len())[0] == 91);
                }
            }
        }
        return Err(InvalidMetadata);
    }
    let mut out: Vec<String> = Vec::new();
    if n - pos >= 2 && b[pos + 1] == 93 {
        proof {
            assert(out.deep_view() =~= Seq::<Seq<char>>::empty());
            assert(b@.subrange(pos as int, pos + 2) =~= json_names(out.deep_view()));
            assert forall|l: Seq<Seq<char>>| #[trigger] names_at(b@, pos as int, l) implies
                out.deep_view() == l && pos + 2 == pos + json_names(l).len() by {
                if l.len() > 0 {
                    assert(b@.subrange(pos as int, pos + json_names(l).len())[1] == json_names(
                        l,
                    )[1]);
                    assert(json_names(l)[1] == json_str(l[0])[0]);
                }
                assert(l =~= out.deep_view());
            }
        }
        return Ok((out, pos + 2));
    }
    proof {
        assert forall|l: Seq<Seq<char>>| #[trigger] names_at(b@, pos as int, l) implies l.len()
            >= 1 && str_at(b@, pos + 1, l[0]) by {
            assert(b@.subrange(pos as int, pos + json_names(l).len()).len() == json_names(
                l,
            ).len());
            if l.len() == 0 {
                assert(json_names(l).len() == 2);
                assert(b@.subrange(pos as int, pos + 2)[1] == json_names(l)[1]);
                assert(b@[pos + 1] == 93);
            } else {
                assert forall|i: int| 0 <= i < json_str(l[0]).len() implies b@.subrange(
                    pos + 1,
                    pos + 1 + json_str(l[0]).len(),
                )[i] == json_str(l[0])[i] by {
                    assert(json_names(l)[1 + i] == json_str(l[0])[i]);
                    assert(b@.subrange(pos as int, pos + json_names(l).len())[1 + i]
                        == json_names(l)[1 + i]);
                }
                assert(b@.subrange(pos + 1, pos + 1 + json_str(l[0]).len()) =~= json_str(
                    l[0],
                ));
            }
        }
    }
    let (s0, first_end) = match parse_string(b, pos + 1) {
        Ok(x) => x,
        Err(e) => {
            proof {
                assert forall|l: Seq<Seq<char>>| !names_at(b@, pos as int, l) by {}
            }
            return Err(e);
        },
    };
    out.push(s0);
    let mut q = first_end;
    proof {
        assert(out.deep_view() =~= seq![out@[0]@]);
        assert(out.deep_view()[0] == out@[0]@);
        assert(out.deep_view().drop_first() =~= Seq::<Seq<char>>::empty());
        assert(b@.subrange(pos + 1, q as int) + json_names_rest(out.deep_view().drop_first())
            =~= b@.subrange(pos + 1, q as int));
        assert forall|l: Seq<Seq<char>>| #[trigger] names_at(b@, pos as int, l) implies
            out.deep_view().len() <= l.len() && out.deep_view() == l.take(
            out.deep_view().len() as int,
        ) by {
            assert(out.deep_view() =~= l.take(1));
        }
    }
    loop
        invariant
            out@.len() >= 1,
            out.deep_view().len() == out@.len(),
            pos + 1 <= q <= n,
            n == b@.len(),
            b@[pos as int] == 91,
            b@.subrange(pos + 1, q as int) == json_str(out.deep_view()[0]) + json_names_rest(
                out.deep_view().drop_first(),
            ),
            forall|l: Seq<Seq<char>>| #[trigger]
                names_at(b@, pos as int, l) ==> out.deep_view().len() <= l.len()
                    && out.deep_view() == l.take(out.deep_view().len() as int),
        decreases n - q,
    {
        if q >= n {
            proof {
                assert forall|l: Seq<Seq<char>>| !names_at(b@, pos as int, l) by {
                    if names_at(b@, pos as int, l) {
                        lemma_names_scan(b@, pos as int, q as int, out.deep_view(), l);
                    }
                }
            }
            return Err(InvalidMetadata);
        }
        let c = b[q];
        if c == 93 {
            proof {
                let dv = out.deep_view();
                assert(dv.len() >= 1);
                assert(b@.subrange(pos as int, q + 1) =~= seq![91u8] + b@.subrange(
                    pos + 1,
                    q as int,
                ) + seq![93u8]);
                assert(seq![91u8] + (json_str(dv[0]) + json_names_rest(dv.drop_first())) + seq![
                    93u8,
                ] =~= json_names(dv));
                assert forall|l: Seq<Seq<char>>| #[trigger] names_at(b@, pos as int, l) implies
                    dv == l && q + 1 == pos + json_names(l).len() by {
                    lemma_names_scan(b@, pos as int, q as int, dv, l);
                    if dv.len() < l.len() {
                        assert(b@[q as int] == 44);
                    }
                    assert(dv =~= l);
                }
            }
            return Ok((out, q + 1));
        } else if c == 44 {
            proof {
                assert forall|l: Seq<Seq<char>>| #[trigger] names_at(b@, pos as int, l) implies
                    out.deep_view().len() < l.len() && str_at(
                    b@,
                    q + 1,
                    l[out.deep_view().len() as int],
                ) by {
                    lemma_names_scan(b@, pos as int, q as int, out.deep_view(), l);
                    if out.deep_view().len() == l.len() {
                        assert(b@[q as int] == 93);
                    }
                }
            }
            let (s, q2) = match parse_string(b, q + 1) {
                Ok(x) => x,
                Err(e) => {
                    proof {
                        assert forall|l: Seq<Seq<char>>| !names_at(b@, pos as int, l) by {}
                    }
                    return Err(e);
                },
            };
            let ghost dv = out.deep_view();
            out.push(s);
            proof {
                let dv2 = out.deep_view();
                assert(dv2 =~= dv.push(s@));
                assert(dv2[0] == dv[0]);
                let r2 = dv2.drop_first();
                assert(r2 =~= dv.drop_first().push(s@));
                assert(r2.len() >= 1);
                lemma_names_rest_snoc(r2, r2.len() - 1);
                assert(r2.take(r2.len() - 1) =~= dv.drop_first());
                assert(r2.take(r2.len() as int) =~= r2);
                assert(r2[r2.len() - 1] == s@);
                assert(b@.subrange(q as int, q + 1) =~= seq![44u8]);
                assert(b@.subrange(pos + 1, q2 as int) =~= b@.subrange(pos + 1, q as int)
                    + b@.subrange(q as int, q + 1) + b@.subrange(q + 1, q2 as int));
                assert(b@.subrange(pos + 1, q2 as int) =~= json_str(dv2[0]) + json_names_rest(
                    r2,
                ));
                assert forall|l: Seq<Seq<char>>| #[trigger] names_at(b@, pos as int, l) implies
                    dv2.len() <= l.len() && dv2 == l.take(dv2.len() as int) by {
                    assert(s@ == l[dv.len() as int]);
                    assert(dv2 =~= l.take(dv2.len() as int));
                }
            }
            q = q2;
        } else {
            proof {
                assert forall|l: Seq<Seq<char>>| !names_at(b@, pos as int, l) by {
                    if names_at(b@, pos as int, l) {
                        lemma_names_scan(b@, pos as int, q as int, out.deep_view(), l);
                    }
                }
            }
            return Err(InvalidMetadata);
        }
    }
}

/// Does the table already hold a patch of this name?
pub(crate) fn pairs_contain(p: &Vec<(String, ObjectId)>, name: &String) -> (r: bool)
    ensures
        r == exists|i: int| 0 <= i < p@.len() && (#[trigger] p@[i]).0@ == name@,
{
    let n = p.len();
    let mut i: usize = 0;
    while i < n
        invariant
            i <= n,
            n == p@.len(),
            forall|j: int| 0 <= j < i ==> (#[trigger] p@[j]).0@ != name@,
        decreases n - i,
    {
        if p[i].0 == *name {
            return true;
        }
        i = i + 1;
    }
    false
}


/// A canonical patches object for `pl` sits at `pos`, with well-formed ids.
spec fn pairs_at(b: Seq<u8>, pos: int, pl: Seq<(Seq<char>, Seq<u8>)>) -> bool {
    &&& 0 <= pos
    &&& pos + json_pairs(pl).len() <= b.len()
    &&& b.subrange(pos, pos + json_pairs(pl).len()) == json_pairs(pl)
    &&& distinct_seq(names_of(pl))
    &&& forall|i: int| 0 <= i < pl.len() ==> (#[trigger] pl[i]).1.len() == OID_LEN
}

/// What the scan of a canonical patches object knows mid-way.
proof fn lemma_pairs_scan(
    b: Seq<u8>,
    pos: int,
    q: int,
    pv: Seq<(Seq<char>, Seq<u8>)>,
    pl: Seq<(Seq<char>, Seq<u8>)>,
)
    requires
        pairs_at(b, pos, pl),
        1 <= pv.len() <= pl.len(),
        pl.len() >= 1,
        pv == pl.take(pv.len() as int),
        pos + 1 <= q <= b.len(),
        b.subrange(pos + 1, q) == json_pair(pv[0]) + json_pairs_rest(pv.drop_first()),
    ensures
        pv.len() == pl.len() ==> (q == pos + json_pairs(pl).len() - 1 && b[q] == 125),
        pv.len() < pl.len() ==> ({
            let k = pv.len() as int;
            let sp = q + 1 + json_str(pl[k].0).len();
            &&& b[q] == 44
            &&& str_at(b, q + 1, pl[k].0)
            &&& sp < b.len()
            &&& b[sp] == 58
            &&& sp + 1 + json_oid(pl[k].1).len() <= pos + json_pairs(pl).len() - 1
            &&& b.subrange(sp + 1, sp + 1 + json_oid(pl[k].1).len()) == json_oid(pl[k].1)
        }),
{
    let ln = json_pairs(pl).len();
    let k = pv.len() as int;
    let r = pl.drop_first();
    assert forall|i: int| 0 <= i < ln implies b[pos + i] == json_pairs(pl)[i] by {
        assert(b.subrange(pos, pos + ln)[i] == b[pos + i]);
    }
    assert(pv[0] == pl[0]);
    assert(pv.drop_first() =~= r.take(k - 1));
    assert(r.take(k - 1) + r.skip(k - 1) =~= r);
    lemma_pairs_rest_append(r.take(k - 1), r.skip(k - 1));
    assert(json_pairs_rest(r) == json_pairs_rest(pv.drop_first()) + json_pairs_rest(
        r.skip(k - 1),
    ));
    let consumed = json_pair(pl[0]) + json_pairs_rest(pv.drop_first());
    assert(q - (pos + 1) == consumed.len());
    assert forall|i: int| 0 <= i < json_pair(pl[0]).len() + json_pairs_rest(r).len() implies
        json_pairs(pl)[1 + i] == (json_pair(pl[0]) + json_pairs_rest(r))[i] by {}
    if k == pl.len() {
        assert(r.skip(k - 1) =~= Seq::<(Seq<char>, Seq<u8>)>::empty());
        assert(json_pairs_rest(r.skip(k - 1)) == Seq::<u8>::empty());
        assert(json_pairs_rest(r) =~= json_pairs_rest(pv.drop_first()));
        assert(q == pos + ln - 1);
        assert(json_pairs(pl)[ln - 1] == 125);
    } else {
        assert(r.skip(k - 1)[0] == r[k - 1]);
        assert(r[k - 1] == pl[k]);
        assert(r.skip(k - 1).drop_first() =~= r.skip(k));
        assert(json_pairs_rest(r.skip(k - 1)) == seq![44u8] + json_pair(pl[k])
            + json_pairs_rest(r.skip(k)));
        let e = seq![44u8] + json_pair(pl[k]);
        assert(json_pairs_rest(r).len() == json_pairs_rest(pv.drop_first()).len()
            + json_pairs_rest(r.skip(k - 1)).len());
        assert(json_pairs_rest(r.skip(k - 1)).len() == e.len() + json_pairs_rest(
            r.skip(k),
        ).len());
        assert forall|j: int| 0 <= j < e.len() implies b[q + j] == e[j] by {
            let i = consumed.len() + j;
            assert(i < json_pair(pl[0]).len() + json_pairs_rest(r).len());
            assert(json_pairs(pl)[1 + i] == (json_pair(pl[0]) + json_pairs_rest(r))[i]);
            assert((json_pair(pl[0]) + json_pairs_rest(r))[i] == json_pairs_rest(r)[i
                - json_pair(pl[0]).len()]);
            assert(json_pairs_rest(r)[i - json_pair(pl[0]).len()] == json_pairs_rest(
                r.skip(k - 1),
            )[j]);
            assert(json_pairs_rest(r.skip(k - 1))[j] == e[j]);
            assert(b[pos + 1 + i] == json_pairs(pl)[1 + i]);
        }
        assert(b[q] == e[0]);
        assert(b[q] == 44);
        // the member's pieces: its name, a colon, and its id
        assert(json_pair(pl[k]) =~= json_str(pl[k].0) + seq![58u8] + json_oid(pl[k].1));
        let sl = json_str(pl[k].0).len() as int;
        assert forall|j: int| 0 <= j < sl implies b.subrange(q + 1, q + 1 + sl)[j] == json_str(
            pl[k].0,
        )[j] by {
            assert(b[q + 1 + j] == e[1 + j]);
            assert(e[1 + j] == json_pair(pl[k])[j]);
            assert(json_pair(pl[k])[j] == json_str(pl[k].0)[j]);
        }
        assert(b.subrange(q + 1, q + 1 + sl) =~= json_str(pl[k].0));
        assert(str_at(b, q + 1, pl[k].0));
        let sp = q + 1 + sl;
        assert(b[sp] == e[1 + sl]);
        assert(e[1 + sl] == json_pair(pl[k])[sl]);
        assert(json_pair(pl[k])[sl] == 58);
        let ol = json_oid(pl[k].1).len() as int;
        assert forall|j: int| 0 <= j < ol implies b.subrange(sp + 1, sp + 1 + ol)[j]
            == json_oid(pl[k].1)[j] by {
            assert(b[sp + 1 + j] == e[1 + sl + 1 + j]);
            assert(e[1 + sl + 1 + j] == json_pair(pl[k])[sl + 1 + j]);
            assert(json_pair(pl[k])[sl + 1 + j] == json_oid(pl[k].1)[j]);
        }
        assert(b.subrange(sp + 1, sp + 1 + ol) =~= json_oid(pl[k].1));
    }
}

/// Parse the canonical patches object, rejecting duplicate names.
#[verifier::spinoff_prover]
#[verifier::rlimit(100)]
fn parse_pairs(b: &Vec<u8>, pos: usize) -> (r: Result<
    (Vec<(String, ObjectId)>, usize),
    InvalidMetadata,
>)
    requires
        pos <= b@.len(),
    ensures
        match r {
            Ok((p, p2)) => {
                &&& pos < p2 <= b@.len()
                &&& b@.subrange(pos as int, p2 as int) == json_pairs(pairs_view(p@))
                &&& distinct_seq(names_of(pairs_view(p@)))
                &&& forall|i: int| 0 <= i < p@.len() ==> (#[trigger] pairs_view(p@)[i]).1.len()
                    == OID_LEN
            },
            Err(_) => true,
        },
        forall|pl: Seq<(Seq<char>, Seq<u8>)>| #[trigger]
            pairs_at(b@, pos as int, pl) ==> match r {
                Ok(p) => pairs_view(p.0@) == pl && p.1 == pos + json_pairs(pl).len(),
                Err(_) => false,
            },
{
    let n = b.len();
    if pos >= n || b[pos] != 123 {
        proof {
            assert forall|pl: Seq<(Seq<char>, Seq<u8>)>| !pairs_at(b@, pos as int, pl) by {
                if pairs_at(b@, pos as int, pl) {
                    assert(b@.subrange(pos as int, pos + json_pairs(pl).len())[0] == 123);
                }
            }
        }
        return Err(InvalidMetadata);
    }
    let mut out: Vec<(String, ObjectId)> = Vec::new();
    if n - pos >= 2 && b[pos + 1] == 125 {
        proof {
            assert(pairs_view(out@) =~= Seq::<(Seq<char>, Seq<u8>)>::empty());
            assert(b@.subrange(pos as int, pos + 2) =~= json_pairs(pairs_view(out@)));
            assert(names_of(pairs_view(out@)) =~= Seq::<Seq<char>>::empty());
            assert forall|pl: Seq<(Seq<char>, Seq<u8>)>| #[trigger] pairs_at(
                b@,
                pos as int,
                pl,
            ) implies pairs_view(out@) == pl && pos + 2 == pos + json_pairs(pl).len() by {
                if pl.len() > 0 {
                    assert(b@.subrange(pos as int, pos + json_pairs(pl).len())[1] == json_pairs(
                        pl,
                    )[1]);
                    assert(json_pairs(pl)[1] == json_pair(pl[0])[0]);
                    assert(json_pair(pl[0])[0] == json_str(pl[0].0)[0]);
                }
                assert(pl =~= pairs_view(out@));
            }
        }
        return Ok((out, pos + 2));
    }
    proof {
        assert forall|pl: Seq<(Seq<char>, Seq<u8>)>| #[trigger] pairs_at(
            b@,
            pos as int,
            pl,
        ) implies pl.len() >= 1 && str_at(b@, pos + 1, pl[0].0) by {
            assert(b@.subrange(pos as int, pos + json_pairs(pl).len()).len() == json_pairs(
                pl,
            ).len());
            if pl.len() == 0 {
                assert(json_pairs(pl).len() == 2);
                assert(b@.subrange(pos as int, pos + 2)[1] == json_pairs(pl)[1]);
                assert(b@[pos + 1] == 125);
            } else {
                assert forall|i: int| 0 <= i < json_str(pl[0].0).len() implies b@.subrange(
                    pos + 1,
                    pos + 1 + json_str(pl[0].0).len(),
                )[i] == json_str(pl[0].0)[i] by {
                    assert(json_pairs(pl)[1 + i] == json_pair(pl[0])[i]);
                    assert(json_pair(pl[0])[i] == json_str(pl[0].0)[i]);
                    assert(b@.subrange(pos as int, pos + json_pairs(pl).len())[1 + i]
                        == json_pairs(pl)[1 + i]);
                }
                assert(b@.subrange(pos + 1, pos + 1 + json_str(pl[0].0).len()) =~= json_str(
                    pl[0].0,
                ));
            }
        }
    }
    let (s0, sp) = match parse_string(b, pos + 1) {
        Ok(x) => x,
        Err(e) => {
            proof {
                assert forall|pl: Seq<(Seq<char>, Seq<u8>)>| !pairs_at(b@, pos as int, pl) by {}
            }
            return Err(e);
        },
    };
    proof {
        assert forall|pl: Seq<(Seq<char>, Seq<u8>)>| #[trigger] pairs_at(
            b@,
            pos as int,
            pl,
        ) implies sp < n && b@[sp as int] == 58 && sp + 1 + json_oid(pl[0].1).len() <= n
            && b@.subrange(sp + 1, sp + 1 + json_oid(pl[0].1).len()) == json_oid(pl[0].1) by {
            let ln = json_pairs(pl).len();
            assert forall|i: int| 0 <= i < ln implies b@[pos + i] == json_pairs(pl)[i] by {
                assert(b@.subrange(pos as int, pos + ln)[i] == b@[pos + i]);
            }
            assert(s0@ == pl[0].0);
            let sl = json_str(pl[0].0).len() as int;
            assert(json_pair(pl[0]) =~= json_str(pl[0].0) + seq![58u8] + json_oid(pl[0].1));
            assert(json_pairs(pl)[1 + sl] == json_pair(pl[0])[sl]);
            assert(b@[sp as int] == json_pairs(pl)[1 + sl]);
            let ol = json_oid(pl[0].1).len() as int;
            assert forall|j: int| 0 <= j < ol implies b@.subrange(sp + 1, sp + 1 + ol)[j]
                == json_oid(pl[0].1)[j] by {
                assert(json_pairs(pl)[1 + sl + 1 + j] == json_pair(pl[0])[sl + 1 + j]);
                assert(json_pair(pl[0])[sl + 1 + j] == json_oid(pl[0].1)[j]);
                assert(b@[sp + 1 + j] == json_pairs(pl)[1 + sl + 1 + j]);
            }
            assert(b@.subrange(sp + 1, sp + 1 + ol) =~= json_oid(pl[0].1));
        }
    }
    if sp >= n || b[sp] != 58 {
        proof {
            assert forall|pl: Seq<(Seq<char>, Seq<u8>)>| !pairs_at(b@, pos as int, pl) by {}
        }
        return Err(InvalidMetadata);
    }
    let (id0, first_end) = match parse_oid(b, sp + 1) {
        Ok(x) => x,
        Err(e) => {
            proof {
                assert forall|pl: Seq<(Seq<char>, Seq<u8>)>| !pairs_at(b@, pos as int, pl) by {
                    if pairs_at(b@, pos as int, pl) {
                        assert(pl[0].1.len() == OID_LEN);
                    }
                }
            }
            return Err(e);
        },
    };
    out.push((s0, id0));
    let mut q = first_end;
    proof {
        let pv = pairs_view(out@);
        assert(pv =~= seq![(out@[0].0@, out@[0].1@)]);
        assert(pv.drop_first() =~= Seq::<(Seq<char>, Seq<u8>)>::empty());
        assert(b@.subrange(sp as int, sp + 1) =~= seq![58u8]);
        assert(b@.subrange(pos + 1, q as int) =~= b@.subrange(pos + 1, sp as int) + b@.subrange(
            sp as int,
            sp + 1,
        ) + b@.subrange(sp + 1, q as int));
        assert(b@.subrange(pos + 1, q as int) =~= json_pair(pv[0]) + json_pairs_rest(
            pv.drop_first(),
        ));
        assert(names_of(pv).len() == 1);
        assert(distinct_seq(names_of(pv)));
        assert forall|pl: Seq<(Seq<char>, Seq<u8>)>| #[trigger] pairs_at(
            b@,
            pos as int,
            pl,
        ) implies pairs_view(out@).len() <= pl.len() && pairs_view(out@) == pl.take(
            pairs_view(out@).len() as int,
        ) by {
            assert(pl[0].1.len() == OID_LEN);
            assert(id0@ == pl[0].1);
            assert(pairs_view(out@) =~= pl.take(1));
        }
    }
    loop
        invariant
            out@.len() >= 1,
            pos + 1 <= q <= n,
            n == b@.len(),
            b@[pos as int] == 123,
            b@.subrange(pos + 1, q as int) == json_pair(pairs_view(out@)[0]) + json_pairs_rest(
                pairs_view(out@).drop_first(),
            ),
            distinct_seq(names_of(pairs_view(out@))),
            forall|i: int| 0 <= i < out@.len() ==> (#[trigger] pairs_view(out@)[i]).1.len()
                == OID_LEN,
            forall|pl: Seq<(Seq<char>, Seq<u8>)>| #[trigger]
                pairs_at(b@, pos as int, pl) ==> pairs_view(out@).len() <= pl.len()
                    && pairs_view(out@) == pl.take(pairs_view(out@).len() as int),
        decreases n - q,
    {
        if q >= n {
            proof {
                assert forall|pl: Seq<(Seq<char>, Seq<u8>)>| !pairs_at(b@, pos as int, pl) by {
                    if pairs_at(b@, pos as int, pl) {
                        lemma_pairs_scan(b@, pos as int, q as int, pairs_view(out@), pl);
                    }
                }
            }
            return Err(InvalidMetadata);
        }
        let c = b[q];
        if c == 125 {
            proof {
                let pv = pairs_view(out@);
                assert(pv.len() >= 1);
                assert(b@.subrange(pos as int, q + 1) =~= seq![123u8] + b@.subrange(
                    pos + 1,
                    q as int,
                ) + seq![125u8]);
                assert(seq![123u8] + (json_pair(pv[0]) + json_pairs_rest(pv.drop_first())) + seq![
                    125u8,
                ] =~= json_pairs(pv));
                assert forall|pl: Seq<(Seq<char>, Seq<u8>)>| #[trigger] pairs_at(
                    b@,
                    pos as int,
                    pl,
                ) implies pv == pl && q + 1 == pos + json_pairs(pl).len() by {
                    lemma_pairs_scan(b@, pos as int, q as int, pv, pl);
                    if pv.len() < pl.len() {
                        assert(b@[q as int] == 44);
                    }
                    assert(pv =~= pl);
                }
            }
            return Ok((out, q + 1));
        } else if c == 44 {
            proof {
                assert forall|pl: Seq<(Seq<char>, Seq<u8>)>| #[trigger] pairs_at(
                    b@,
                    pos as int,
                    pl,
                ) implies pairs_view(out@).len() < pl.len() && str_at(
                    b@,
                    q + 1,
                    pl[pairs_view(out@).len() as int].0,
                ) by {
                    lemma_pairs_scan(b@, pos as int, q as int, pairs_view(out@), pl);
                    if pairs_view(out@).len() == pl.len() {
                        assert(b@[q as int] == 125);
                    }
                }
            }
            let (s, sp2) = match parse_string(b, q + 1) {
                Ok(x) => x,
                Err(e) => {
                    proof {
                        assert forall|pl: Seq<(Seq<char>, Seq<u8>)>| !pairs_at(
                            b@,
                            pos as int,
                            pl,
                        ) by {}
                    }
                    return Err(e);
                },
            };
            proof {
                assert forall|pl: Seq<(Seq<char>, Seq<u8>)>| #[trigger] pairs_at(
                    b@,
                    pos as int,
                    pl,
                ) implies sp2 < n && b@[sp2 as int] == 58 && sp2 + 1 + json_oid(
                    pl[pairs_view(out@).len() as int].1,
                ).len() <= n && b@.subrange(
                    sp2 + 1,
                    sp2 + 1 + json_oid(pl[pairs_view(out@).len() as int].1).len(),
                ) == json_oid(pl[pairs_view(out@).len() as int].1) by {
                    let k = pairs_view(out@).len() as int;
                    lemma_pairs_scan(b@, pos as int, q as int, pairs_view(out@), pl);
                    assert(s@ == pl[k].0);
                }
            }
            if sp2 >= n || b[sp2] != 58 {
                proof {
                    assert forall|pl: Seq<(Seq<char>, Seq<u8>)>| !pairs_at(
                        b@,
                        pos as int,
                        pl,
                    ) by {}
                }
                return Err(InvalidMetadata);
            }
            let (id, q2) = match parse_oid(b, sp2 + 1) {
                Ok(x) => x,
                Err(e) => {
                    proof {
                        assert forall|pl: Seq<(Seq<char>, Seq<u8>)>| !pairs_at(
                            b@,
                            pos as int,
                            pl,
                        ) by {
                            if pairs_at(b@, pos as int, pl) {
                                let k = pairs_view(out@).len() as int;
                                assert(pl[k].1.len() == OID_LEN);
                            }
                        }
                    }
                    return Err(e);
                },
            };
            if pairs_contain(&out, &s) {
                proof {
                    assert forall|pl: Seq<(Seq<char>, Seq<u8>)>| !pairs_at(
                        b@,
                        pos as int,
                        pl,
                    ) by {
                        if pairs_at(b@, pos as int, pl) {
                            let k = pairs_view(out@).len() as int;
                            assert(s@ == pl[k].0);
                            let i = choose|i: int|
                                0 <= i < out@.len() && (#[trigger] out@[i]).0@ == s@;
                            assert(pairs_view(out@)[i].0 == s@);
                            assert(pl[i].0 == s@);
                            assert(names_of(pl)[i] == pl[i].0);
                            assert(names_of(pl)[k] == pl[k].0);
                        }
                    }
                }
                return Err(InvalidMetadata);
            }
            let ghost pv = pairs_view(out@);
            out.push((s, id));
            proof {
                let pv2 = pairs_view(out@);
                assert(pv2 =~= pv.push((s@, id@)));
                assert(pv2[0] == pv[0]);
                let r2 = pv2.drop_first();
                assert(r2 =~= pv.drop_first().push((s@, id@)));
                assert(r2.len() >= 1);
                lemma_pairs_rest_snoc(r2, r2.len() - 1);
                assert(r2.take(r2.len() - 1) =~= pv.drop_first());
                assert(r2.take(r2.len() as int) =~= r2);
                assert(r2[r2.len() - 1] == (s@, id@));
                assert(b@.subrange(q as int, q + 1) =~= seq![44u8]);
                assert(b@.subrange(sp2 as int, sp2 + 1) =~= seq![58u8]);
                assert(b@.subrange(pos + 1, q2 as int) =~= b@.subrange(pos + 1, q as int)
                    + b@.subrange(q as int, q + 1) + b@.subrange(q + 1, sp2 as int) + b@.subrange(
                    sp2 as int,
                    sp2 + 1,
                ) + b@.subrange(sp2 + 1, q2 as int));
                assert(json_pair((s@, id@)) =~= json_str(s@) + seq![58u8] + json_oid(id@));
                assert(b@.subrange(pos + 1, q2 as int) =~= json_pair(pv2[0]) + json_pairs_rest(
                    r2,
                ));
                // the fresh name keeps the table duplicate-free
                assert forall|i: int, j: int|
                    0 <= i < j < names_of(pv2).len() implies names_of(pv2)[i] != names_of(
                    pv2,
                )[j] by {
                    assert(names_of(pv2)[i] == pv2[i].0);
                    assert(names_of(pv2)[j] == pv2[j].0);
                    if j < pv.len() {
                        assert(names_of(pv)[i] == pv[i].0);
                        assert(names_of(pv)[j] == pv[j].0);
                    } else {
                        assert(pv2[j].0 == s@);
                    }
                }
                assert forall|pl: Seq<(Seq<char>, Seq<u8>)>| #[trigger] pairs_at(
                    b@,
                    pos as int,
                    pl,
                ) implies pv2.len() <= pl.len() && pv2 == pl.take(pv2.len() as int) by {
                    let k = pv.len() as int;
                    assert(s@ == pl[k].0);
                    assert(pl[k].1.len() == OID_LEN);
                    assert(id@ == pl[k].1);
                    assert(pv2 =~= pl.take(pv2.len() as int));
                }
            }
            q = q2;
        } else {
            proof {
                assert forall|pl: Seq<(Seq<char>, Seq<u8>)>| !pairs_at(b@, pos as int, pl) by {
                    if pairs_at(b@, pos as int, pl) {
                        lemma_pairs_scan(b@, pos as int, q as int, pairs_view(out@), pl);
                    }
                }
            }
            return Err(InvalidMetadata);
        }
    }
}

/// Adjacent subranges concatenate.
proof fn lemma_subrange_split(b: Seq<u8>, i: int, j: int, k: int)
    requires
        0 <= i <= j <= k <= b.len(),
    ensures
        b.subrange(i, k) == b.subrange(i, j) + b.subrange(j, k),
{
    assert(b.subrange(i, k) =~= b.subrange(i, j) + b.subrange(j, k));
}


/// The bytes between the version and the head key: the previous entry's id
/// with its key, or nothing for the initial entry.
spec fn prev_part(mv: MetaView) -> Seq<u8> {
    match mv.previous {
        Some(p) => tok_previous() + json_oid(p),
        None => Seq::empty(),
    }
}

/// Offset past the version and previous fields.
spec fn off1(mv: MetaView) -> int {
    12 + prev_part(mv).len() as int
}

/// Offset past the head field.
spec fn off2(mv: MetaView) -> int {
    off1(mv) + 8 + 42
}

/// Offset past the base name field.
spec fn off3(mv: MetaView) -> int {
    off2(mv) + 13 + json_str(mv.base_name).len() as int
}

/// Offset past the base field.
spec fn off4(mv: MetaView) -> int {
    off3(mv) + 8 + 42
}

/// Offset past the applied list.
spec fn off5(mv: MetaView) -> int {
    off4(mv) + 11 + json_names(mv.applied).len() as int
}

/// Offset past the unapplied list.
spec fn off6(mv: MetaView) -> int {
    off5(mv) + 13 + json_names(mv.unapplied).len() as int
}

/// Offset past the patches object.
spec fn off7(mv: MetaView) -> int {
    off6(mv) + 11 + json_pairs(mv.patches).len() as int
}

/// The two parts of a concatenation, and any cut inside its left part.
proof fn lemma_concat_parts(a: Seq<u8>, c: Seq<u8>)
    ensures
        (a + c).subrange(0, a.len() as int) == a,
        (a + c).subrange(a.len() as int, (a + c).len() as int) == c,
        forall|i: int, j: int|
            0 <= i <= j <= a.len() ==> (a + c).subrange(i, j) == #[trigger] a.subrange(i, j),
{
    assert((a + c).subrange(0, a.len() as int) =~= a);
    assert((a + c).subrange(a.len() as int, (a + c).len() as int) =~= c);
    assert forall|i: int, j: int| 0 <= i <= j <= a.len() implies (a + c).subrange(i, j)
        == #[trigger] a.subrange(i, j) by {
        assert((a + c).subrange(i, j) =~= a.subrange(i, j));
    }
}

/// Where each field of the canonical serialization sits.
#[verifier::spinoff_prover]
#[verifier::rlimit(100)]
proof fn lemma_enc_meta_layout(mv: MetaView)
    requires
        mv.typed(),
    ensures
        enc_meta(mv).len() == off7(mv) + 1,
        enc_meta(mv).subrange(0, 12) == tok_version(),
        match mv.previous {
            Some(p) => {
                &&& off1(mv) == 66
                &&& enc_meta(mv).subrange(12, 24) == tok_previous()
                &&& enc_meta(mv).subrange(24, 66) == json_oid(p)
            },
            None => off1(mv) == 12,
        },
        enc_meta(mv).subrange(off1(mv), off1(mv) + 8) == tok_head(),
        enc_meta(mv).subrange(off1(mv) + 8, off1(mv) + 50) == json_oid(mv.head),
        enc_meta(mv).subrange(off2(mv), off2(mv) + 13) == tok_base_name(),
        enc_meta(mv).subrange(off2(mv) + 13, off3(mv)) == json_str(mv.base_name),
        enc_meta(mv).subrange(off3(mv), off3(mv) + 8) == tok_base(),
        enc_meta(mv).subrange(off3(mv) + 8, off3(mv) + 50) == json_oid(mv.base),
        enc_meta(mv).subrange(off4(mv), off4(mv) + 11) == tok_applied(),
        enc_meta(mv).subrange(off4(mv) + 11, off5(mv)) == json_names(mv.applied),
        enc_meta(mv).subrange(off5(mv), off5(mv) + 13) == tok_unapplied(),
        enc_meta(mv).subrange(off5(mv) + 13, off6(mv)) == json_names(mv.unapplied),
        enc_meta(mv).subrange(off6(mv), off6(mv) + 11) == tok_patches(),
        enc_meta(mv).subrange(off6(mv) + 11, off7(mv)) == json_pairs(mv.patches),
        enc_meta(mv)[off7(mv)] == 125,
{
    let t = enc_meta(mv);
    let a14 = tok_version() + prev_part(mv) + tok_head() + json_oid(mv.head) + tok_base_name()
        + json_str(mv.base_name) + tok_base() + json_oid(mv.base) + tok_applied() + json_names(
        mv.applied,
    ) + tok_unapplied() + json_names(mv.unapplied) + tok_patches() + json_pairs(mv.patches);
    assert(t == a14 + seq![125u8]);
    let a13 = tok_version() + prev_part(mv) + tok_head() + json_oid(mv.head) + tok_base_name()
        + json_str(mv.base_name) + tok_base() + json_oid(mv.base) + tok_applied() + json_names(
        mv.applied,
    ) + tok_unapplied() + json_names(mv.unapplied) + tok_patches();
    let a12 = tok_version() + prev_part(mv) + tok_head() + json_oid(mv.head) + tok_base_name()
        + json_str(mv.base_name) + tok_base() + json_oid(mv.base) + tok_applied() + json_names(
        mv.applied,
    ) + tok_unapplied() + json_names(mv.unapplied);
    let a11 = tok_version() + prev_part(mv) + tok_head() + json_oid(mv.head) + tok_base_name()
        + json_str(mv.base_name) + tok_base() + json_oid(mv.base) + tok_applied() + json_names(
        mv.applied,
    ) + tok_unapplied();
    let a10 = tok_version() + prev_part(mv) + tok_head() + json_oid(mv.head) + tok_base_name()
        + json_str(mv.base_name) + tok_base() + json_oid(mv.base) + tok_applied() + json_names(
        mv.applied,
    );
    let a9 = tok_version() + prev_part(mv) + tok_head() + json_oid(mv.head) + tok_base_name()
        + json_str(mv.base_name) + tok_base() + json_oid(mv.base) + tok_applied();
    let a8 = tok_version() + prev_part(mv) + tok_head() + json_oid(mv.head) + tok_base_name()
        + json_str(mv.base_name) + tok_base() + json_oid(mv.base);
    let a7 = tok_version() + prev_part(mv) + tok_head() + json_oid(mv.head) + tok_base_name()
        + json_str(mv.base_name) + tok_base();
    let a6 = tok_version() + prev_part(mv) + tok_head() + json_oid(mv.head) + tok_base_name()
        + json_str(mv.base_name);
    let a5 = tok_version() + prev_part(mv) + tok_head() + json_oid(mv.head) + tok_base_name();
    let a4 = tok_version() + prev_part(mv) + tok_head() + json_oid(mv.head);
    let a3 = tok_version() + prev_part(mv) + tok_head();
    let a2 = tok_version() + prev_part(mv);
    let a1 = tok_version();
    assert(json_oid(mv.head).len() == 42);
    assert(json_oid(mv.base).len() == 42);
    lemma_concat_parts(a14, seq![125u8]);
    assert(t[a14.len() as int] == 125);
    lemma_concat_parts(a13, json_pairs(mv.patches));
    lemma_concat_parts(a12, tok_patches());
    lemma_concat_parts(a11, json_names(mv.unapplied));
    lemma_concat_parts(a10, tok_unapplied());
    lemma_concat_parts(a9, json_names(mv.applied));
    lemma_concat_parts(a8, tok_applied());
    lemma_concat_parts(a7, json_oid(mv.base));
    lemma_concat_parts(a6, tok_base());
    lemma_concat_parts(a5, json_str(mv.base_name));
    lemma_concat_parts(a4, tok_base_name());
    lemma_concat_parts(a3, json_oid(mv.head));
    lemma_concat_parts(a2, tok_head());
    lemma_concat_parts(a1, prev_part(mv));
    assert(a1.len() == 12);
    assert(a2.len() == off1(mv));
    assert(a3.len() == off1(mv) + 8);
    assert(a4.len() == off2(mv));
    assert(a5.len() == off2(mv) + 13);
    assert(a6.len() == off3(mv));
    assert(a7.len() == off3(mv) + 8);
    assert(a8.len() == off4(mv));
    assert(a9.len() == off4(mv) + 11);
    assert(a10.len() == off5(mv));
    assert(a11.len() == off5(mv) + 13);
    assert(a12.len() == off6(mv));
    assert(a13.len() == off6(mv) + 11);
    assert(a14.len() == off7(mv));
    match mv.previous {
        Some(p) => {
            assert(json_oid(p).len() == 42);
            assert(prev_part(mv) == tok_previous() + json_oid(p));
            lemma_concat_parts(tok_previous(), json_oid(p));
            assert(prev_part(mv).subrange(0, 12) == tok_previous());
            assert(prev_part(mv).subrange(12, 54) == json_oid(p));
            assert(t.subrange(12, 24) =~= prev_part(mv).subrange(0, 12));
            assert(t.subrange(24, 66) =~= prev_part(mv).subrange(12, 54));
        },
        None => {},
    }
}

/// Read the version guard and the id and name fields that precede the three
/// patch collections.
#[verifier::spinoff_prover]
#[verifier::rlimit(100)]
fn decode_head(b: &Vec<u8>, toks: &(
    Vec<u8>,
    Vec<u8>,
    Vec<u8>,
    Vec<u8>,
    Vec<u8>,
    Vec<u8>,
    Vec<u8>,
    Vec<u8>,
)) -> (r: Result<(Option<ObjectId>, ObjectId, String, ObjectId, usize), InvalidMetadata>)
    requires
        toks.0@ == tok_version(),
        toks.1@ == tok_previous(),
        toks.2@ == tok_head(),
        toks.3@ == tok_base_name(),
        toks.4@ == tok_base(),
    ensures
        match r {
            Ok(t) => {
                &&& t.1.wf()
                &&& t.3.wf()
                &&& match t.0 {
                    Some(p) => p.wf(),
                    None => true,
                }
                &&& t.4 <= b@.len()
                &&& b@.subrange(0, t.4 as int) == tok_version() + (match t.0 {
                    Some(p) => tok_previous() + json_oid(p@),
                    None => Seq::<u8>::empty(),
                }) + tok_head() + json_oid(t.1@) + tok_base_name() + json_str(t.2@) + tok_base()
                    + json_oid(t.3@)
            },
            Err(_) => true,
        },
        forall|mv: MetaView|
            (mv.typed() && b@ == #[trigger] enc_meta(mv)) ==> match r {
                Ok(t) => {
                    &&& match (&t.0, mv.previous) {
                        (Some(a), Some(c)) => a@ == c,
                        (None, None) => true,
                        _ => false,
                    }
                    &&& t.1@ == mv.head
                    &&& t.2@ == mv.base_name
                    &&& t.3@ == mv.base
                    &&& t.4 == off4(mv)
                },
                Err(_) => false,
            },
{
    let n = b.len();
    let p0 = match eat_lit(b, 0, &toks.0) {
        Ok(p) => p,
        Err(e) => {
            proof {
                assert forall|mv: MetaView| !(mv.typed() && b@ == #[trigger] enc_meta(mv)) by {
                    if mv.typed() && b@ == enc_meta(mv) {
                        lemma_enc_meta_layout(mv);
                        assert(b@.subrange(0, 12) == tok_version());
                        assert(b@.len() == off7(mv) + 1);
                    }
                }
            }
            return Err(e);
        },
    };
    // optional previous entry id
    let at_prev = at_lit(b, p0, &toks.1);
    let mut previous: Option<ObjectId> = None;
    let mut p1: usize = p0;
    if at_prev {
        proof {
            assert forall|mv: MetaView| (mv.typed() && b@ == #[trigger] enc_meta(mv)) implies
                mv.previous is Some && (match mv.previous {
                Some(p) => p.len() == OID_LEN && b@.subrange(24, 66) == json_oid(p) && 66
                    <= b@.len(),
                None => false,
            }) by {
                lemma_enc_meta_layout(mv);
                assert(b@.len() == off7(mv) + 1);
                if mv.previous is None {
                    assert(off1(mv) == 12);
                    assert(b@.subrange(12, 20) == tok_head());
                    assert(b@.subrange(12, 20)[2] == tok_head()[2]);
                    assert(b@[14] == 104);
                    assert(b@.subrange(12, 24)[2] == tok_previous()[2]);
                    assert(b@[14] == 112);
                }
            }
        }
        let pa = match eat_lit(b, p0, &toks.1) {
            Ok(p) => p,
            Err(_) => {
                proof {
                    assert(false);
                }
                return Err(InvalidMetadata);
            },
        };
        let (id, pb) = match parse_oid(b, pa) {
            Ok(x) => x,
            Err(e) => {
                proof {
                    assert forall|mv: MetaView| !(mv.typed() && b@ == #[trigger] enc_meta(
                        mv,
                    )) by {
                        if mv.typed() && b@ == enc_meta(mv) {
                            match mv.previous {
                                Some(p) => {
                                    assert(b@.subrange(24, 66) == json_oid(p));
                                },
                                None => {},
                            }
                        }
                    }
                }
                return Err(e);
            },
        };
        previous = Some(id);
        p1 = pb;
        proof {
            assert forall|mv: MetaView| (mv.typed() && b@ == #[trigger] enc_meta(mv)) implies
                p1 == off1(mv) && (match (&previous, mv.previous) {
                (Some(a), Some(c)) => a@ == c,
                _ => false,
            }) by {
                lemma_enc_meta_layout(mv);
                match mv.previous {
                    Some(p) => {
                        assert(b@.subrange(24, 66) == json_oid(p));
                        assert(id@ == p);
                    },
                    None => {},
                }
            }
        }
    } else {
        proof {
            assert forall|mv: MetaView| (mv.typed() && b@ == #[trigger] enc_meta(mv)) implies
                p1 == off1(mv) && (match (&previous, mv.previous) {
                (None, None) => true,
                (Some(a), Some(c)) => a@ == c,
                _ => false,
            }) by {
                lemma_enc_meta_layout(mv);
                assert(b@.len() == off7(mv) + 1);
                match mv.previous {
                    Some(p) => {
                        assert(b@.subrange(12, 24) == tok_previous());
                        assert(12 + tok_previous().len() <= b@.len());
                    },
                    None => {},
                }
            }
        }
    }
    let ghost prev_view: Option<Seq<u8>> = match &previous {
        Some(id) => Some(id@),
        None => None,
    };
    proof {
        assert(b@.subrange(0, p1 as int) =~= tok_version() + (match prev_view {
            Some(pv) => tok_previous() + json_oid(pv),
            None => Seq::<u8>::empty(),
        }));
        assert forall|mv: MetaView| (mv.typed() && b@ == #[trigger] enc_meta(mv)) implies
            prev_view == mv.previous by {}
    }
    let p2 = match eat_lit(b, p1, &toks.2) {
        Ok(p) => p,
        Err(e) => {
            proof {
                assert forall|mv: MetaView| !(mv.typed() && b@ == #[trigger] enc_meta(mv)) by {
                    if mv.typed() && b@ == enc_meta(mv) {
                        lemma_enc_meta_layout(mv);
                        assert(b@.subrange(off1(mv), off1(mv) + 8) == tok_head());
                        assert(off1(mv) + 8 <= b@.len());
                    }
                }
            }
            return Err(e);
        },
    };
    let (head, p3) = match parse_oid(b, p2) {
        Ok(x) => x,
        Err(e) => {
            proof {
                assert forall|mv: MetaView| !(mv.typed() && b@ == #[trigger] enc_meta(mv)) by {
                    if mv.typed() && b@ == enc_meta(mv) {
                        lemma_enc_meta_layout(mv);
                        assert(b@.subrange(off1(mv) + 8, off1(mv) + 50) == json_oid(mv.head));
                        assert(off1(mv) + 50 <= b@.len());
                    }
                }
            }
            return Err(e);
        },
    };
    proof {
        assert forall|mv: MetaView| (mv.typed() && b@ == #[trigger] enc_meta(mv)) implies p3
            == off2(mv) && head@ == mv.head by {
            lemma_enc_meta_layout(mv);
            assert(b@.subrange(off1(mv) + 8, off1(mv) + 50) == json_oid(mv.head));
            assert(off1(mv) + 50 <= b@.len());
        }
    }
    let p4 = match eat_lit(b, p3, &toks.3) {
        Ok(p) => p,
        Err(e) => {
            proof {
                assert forall|mv: MetaView| !(mv.typed() && b@ == #[trigger] enc_meta(mv)) by {
                    if mv.typed() && b@ == enc_meta(mv) {
                        lemma_enc_meta_layout(mv);
                        assert(b@.subrange(off2(mv), off2(mv) + 13) == tok_base_name());
                        assert(off2(mv) + 13 <= b@.len());
                    }
                }
            }
            return Err(e);
        },
    };
    let (base_name, p5) = match parse_string(b, p4) {
        Ok(x) => x,
        Err(e) => {
            proof {
                assert forall|mv: MetaView| !(mv.typed() && b@ == #[trigger] enc_meta(mv)) by {
                    if mv.typed() && b@ == enc_meta(mv) {
                        lemma_enc_meta_layout(mv);
                        assert(b@.subrange(off2(mv) + 13, off3(mv)) == json_str(mv.base_name));
                        assert(str_at(b@, off2(mv) + 13, mv.base_name));
                    }
                }
            }
            return Err(e);
        },
    };
    proof {
        assert forall|mv: MetaView| (mv.typed() && b@ == #[trigger] enc_meta(mv)) implies p5
            == off3(mv) && base_name@ == mv.base_name by {
            lemma_enc_meta_layout(mv);
            assert(b@.subrange(off2(mv) + 13, off3(mv)) == json_str(mv.base_name));
            assert(str_at(b@, off2(mv) + 13, mv.base_name));
        }
    }
    let p6 = match eat_lit(b, p5, &toks.4) {
        Ok(p) => p,
        Err(e) => {
            proof {
                assert forall|mv: MetaView| !(mv.typed() && b@ == #[trigger] enc_meta(mv)) by {
                    if mv.typed() && b@ == enc_meta(mv) {
                        lemma_enc_meta_layout(mv);
                        assert(b@.subrange(off3(mv), off3(mv) + 8) == tok_base());
                        assert(off3(mv) + 8 <= b@.len());
                    }
                }
            }
            return Err(e);
        },
    };
    let (base, p7) = match parse_oid(b, p6) {
        Ok(x) => x,
        Err(e) => {
            proof {
                assert forall|mv: MetaView| !(mv.typed() && b@ == #[trigger] enc_meta(mv)) by {
                    if mv.typed() && b@ == enc_meta(mv) {
                        lemma_enc_meta_layout(mv);
                        assert(b@.subrange(off3(mv) + 8, off3(mv) + 50) == json_oid(mv.base));
                        assert(off3(mv) + 50 <= b@.len());
                    }
                }
            }
            return Err(e);
        },
    };
    proof {
        assert forall|mv: MetaView| (mv.typed() && b@ == #[trigger] enc_meta(mv)) implies p7
            == off4(mv) && base@ == mv.base by {
            lemma_enc_meta_layout(mv);
            assert(b@.subrange(off3(mv) + 8, off3(mv) + 50) == json_oid(mv.base));
            assert(off3(mv) + 50 <= b@.len());
        }
    }
    proof {
        let e1 = tok_version() + (match prev_view {
            Some(pv) => tok_previous() + json_oid(pv),
            None => Seq::<u8>::empty(),
        });
        assert(b@.subrange(0, p1 as int) == e1);
        let e2 = e1 + tok_head();
        lemma_subrange_split(b@, 0, p1 as int, p2 as int);
        assert(b@.subrange(0, p2 as int) == e2);
        let e3 = e2 + json_oid(head@);
        lemma_subrange_split(b@, 0, p2 as int, p3 as int);
        assert(b@.subrange(0, p3 as int) == e3);
        let e4 = e3 + tok_base_name();
        lemma_subrange_split(b@, 0, p3 as int, p4 as int);
        assert(b@.subrange(0, p4 as int) == e4);
        let e5 = e4 + json_str(base_name@);
        lemma_subrange_split(b@, 0, p4 as int, p5 as int);
        assert(b@.subrange(0, p5 as int) == e5);
        let e6 = e5 + tok_base();
        lemma_subrange_split(b@, 0, p5 as int, p6 as int);
        assert(b@.subrange(0, p6 as int) == e6);
        let e7 = e6 + json_oid(base@);
        lemma_subrange_split(b@, 0, p6 as int, p7 as int);
        assert(b@.subrange(0, p7 as int) == e7);
    }
    Ok((previous, head, base_name, base, p7))
}

/// Read the applied and unapplied lists and the patches object.
#[verifier::spinoff_prover]
#[verifier::rlimit(100)]
fn decode_lists(b: &Vec<u8>, toks: &(
    Vec<u8>,
    Vec<u8>,
    Vec<u8>,
    Vec<u8>,
    Vec<u8>,
    Vec<u8>,
    Vec<u8>,
    Vec<u8>,
), p7: usize) -> (r: Result<(Vec<String>, Vec<String>, Vec<(String, ObjectId)>, usize),
    InvalidMetadata>)
    requires
        p7 <= b@.len(),
        toks.5@ == tok_applied(),
        toks.6@ == tok_unapplied(),
        toks.7@ == tok_patches(),
    ensures
        match r {
            Ok(t) => {
                &&& p7 < t.3 <= b@.len()
                &&& b@.subrange(p7 as int, t.3 as int) == tok_applied() + json_names(
                    t.0.deep_view(),
                ) + tok_unapplied() + json_names(t.1.deep_view()) + tok_patches() + json_pairs(
                    pairs_view(t.2@),
                )
                &&& distinct_seq(names_of(pairs_view(t.2@)))
                &&& forall|i: int| 0 <= i < t.2@.len() ==> (#[trigger] pairs_view(
                    t.2@,
                )[i]).1.len() == OID_LEN
            },
            Err(_) => true,
        },
        forall|mv: MetaView|
            (mv.typed() && b@ == #[trigger] enc_meta(mv) && p7 == off4(mv)) ==> match r {
                Ok(t) => {
                    &&& t.0.deep_view() == mv.applied
                    &&& t.1.deep_view() == mv.unapplied
                    &&& pairs_view(t.2@) == mv.patches
                    &&& t.3 == off7(mv)
                },
                Err(_) => false,
            },
{
    let n = b.len();
    let p8 = match eat_lit(b, p7, &toks.5) {
        Ok(p) => p,
        Err(e) => {
            proof {
                assert forall|mv: MetaView| !(mv.typed() && b@ == #[trigger] enc_meta(mv) && p7 == off4(mv)) by {
                    if mv.typed() && b@ == enc_meta(mv) && p7 == off4(mv) {
                        lemma_enc_meta_layout(mv);
                        assert(b@.subrange(off4(mv), off4(mv) + 11) == tok_applied());
                        assert(off4(mv) + 11 <= b@.len());
                    }
                }
            }
            return Err(e);
        },
    };
    let (applied, p9) = match parse_names(b, p8) {
        Ok(x) => x,
        Err(e) => {
            proof {
                assert forall|mv: MetaView| !(mv.typed() && b@ == #[trigger] enc_meta(mv) && p7 == off4(mv)) by {
                    if mv.typed() && b@ == enc_meta(mv) && p7 == off4(mv) {
                        lemma_enc_meta_layout(mv);
                        assert(b@.subrange(off4(mv) + 11, off5(mv)) == json_names(mv.applied));
                        assert(names_at(b@, off4(mv) + 11, mv.applied));
                    }
                }
            }
            return Err(e);
        },
    };
    proof {
        assert forall|mv: MetaView| (mv.typed() && b@ == #[trigger] enc_meta(mv) && p7 == off4(mv)) implies p9
            == off5(mv) && applied.deep_view() == mv.applied by {
            lemma_enc_meta_layout(mv);
            assert(b@.subrange(off4(mv) + 11, off5(mv)) == json_names(mv.applied));
            assert(names_at(b@, off4(mv) + 11, mv.applied));
        }
    }
    let p10 = match eat_lit(b, p9, &toks.6) {
        Ok(p) => p,
        Err(e) => {
            proof {
                assert forall|mv: MetaView| !(mv.typed() && b@ == #[trigger] enc_meta(mv) && p7 == off4(mv)) by {
                    if mv.typed() && b@ == enc_meta(mv) && p7 == off4(mv) {
                        lemma_enc_meta_layout(mv);
                        assert(b@.subrange(off5(mv), off5(mv) + 13) == tok_unapplied());
                        assert(off5(mv) + 13 <= b@.len());
                    }
                }
            }
            return Err(e);
        },
    };
    let (unapplied, p11) = match parse_names(b, p10) {
        Ok(x) => x,
        Err(e) => {
            proof {
                assert forall|mv: MetaView| !(mv.typed() && b@ == #[trigger] enc_meta(mv) && p7 == off4(mv)) by {
                    if mv.typed() && b@ == enc_meta(mv) && p7 == off4(mv) {
                        lemma_enc_meta_layout(mv);
                        assert(b@.subrange(off5(mv) + 13, off6(mv)) == json_names(
                            mv.unapplied,
                        ));
                        assert(names_at(b@, off5(mv) + 13, mv.unapplied));
                    }
                }
            }
            return Err(e);
        },
    };
    proof {
        assert forall|mv: MetaView| (mv.typed() && b@ == #[trigger] enc_meta(mv) && p7 == off4(mv)) implies p11
            == off6(mv) && unapplied.deep_view() == mv.unapplied by {
            lemma_enc_meta_layout(mv);
            assert(b@.subrange(off5(mv) + 13, off6(mv)) == json_names(mv.unapplied));
            assert(names_at(b@, off5(mv) + 13, mv.unapplied));
        }
    }
    let p12 = match eat_lit(b, p11, &toks.7) {
        Ok(p) => p,
        Err(e) => {
            proof {
                assert forall|mv: MetaView| !(mv.typed() && b@ == #[trigger] enc_meta(mv) && p7 == off4(mv)) by {
                    if mv.typed() && b@ == enc_meta(mv) && p7 == off4(mv) {
                        lemma_enc_meta_layout(mv);
                        assert(b@.subrange(off6(mv), off6(mv) + 11) == tok_patches());
                        assert(off6(mv) + 11 <= b@.len());
                    }
                }
            }
            return Err(e);
        },
    };
    let (patches, p13) = match parse_pairs(b, p12) {
        Ok(x) => x,
        Err(e) => {
            proof {
                assert forall|mv: MetaView| !(mv.typed() && b@ == #[trigger] enc_meta(mv) && p7 == off4(mv)) by {
                    if mv.typed() && b@ == enc_meta(mv) && p7 == off4(mv) {
                        lemma_enc_meta_layout(mv);
                        assert(b@.subrange(off6(mv) + 11, off7(mv)) == json_pairs(mv.patches));
                        assert(pairs_at(b@, off6(mv) + 11, mv.patches));
                    }
                }
            }
            return Err(e);
        },
    };
    proof {
        assert forall|mv: MetaView| (mv.typed() && b@ == #[trigger] enc_meta(mv) && p7 == off4(mv)) implies p13
            == off7(mv) && pairs_view(patches@) == mv.patches by {
            lemma_enc_meta_layout(mv);
            assert(b@.subrange(off6(mv) + 11, off7(mv)) == json_pairs(mv.patches));
            assert(pairs_at(b@, off6(mv) + 11, mv.patches));
        }
    }
    proof {
        let f8 = tok_applied();
        assert(b@.subrange(p7 as int, p8 as int) =~= f8);
        let f9 = f8 + json_names(applied.deep_view());
        lemma_subrange_split_from(b@, p7 as int, p8 as int, p9 as int);
        assert(b@.subrange(p7 as int, p9 as int) == f9);
        let f10 = f9 + tok_unapplied();
        lemma_subrange_split_from(b@, p7 as int, p9 as int, p10 as int);
        assert(b@.subrange(p7 as int, p10 as int) == f10);
        let f11 = f10 + json_names(unapplied.deep_view());
        lemma_subrange_split_from(b@, p7 as int, p10 as int, p11 as int);
        assert(b@.subrange(p7 as int, p11 as int) == f11);
        let f12 = f11 + tok_patches();
        lemma_subrange_split_from(b@, p7 as int, p11 as int, p12 as int);
        assert(b@.subrange(p7 as int, p12 as int) == f12);
        let f13 = f12 + json_pairs(pairs_view(patches@));
        lemma_subrange_split_from(b@, p7 as int, p12 as int, p13 as int);
        assert(b@.subrange(p7 as int, p13 as int) == f13);
    }
    Ok((applied, unapplied, patches, p13))
}

/// Adjacent subranges starting anywhere concatenate.
proof fn lemma_subrange_split_from(b: Seq<u8>, i: int, j: int, k: int)
    requires
        0 <= i <= j <= k <= b.len(),
    ensures
        b.subrange(i, k) == b.subrange(i, j) + b.subrange(j, k),
{
    assert(b.subrange(i, k) =~= b.subrange(i, j) + b.subrange(j, k));
}

/// Deserialize a metadata record, accepting exactly the canonical form that
/// `encode_meta` writes and rejecting everything else: a record comes back
/// exactly from its own serialization.
#[verifier::spinoff_prover]
#[verifier::rlimit(100)]
pub fn decode_meta(b: &Vec<u8>) -> (r: Result<MetaRecord, InvalidMetadata>)
    ensures
        match r {
            Ok(m) => m@.typed() && b@ == enc_meta(m@),
            Err(_) => true,
        },
        forall|mv: MetaView|
            (mv.typed() && b@ == #[trigger] enc_meta(mv)) ==> match r {
                Ok(m) => m@ == mv,
                Err(_) => false,
            },
{
    let n = b.len();
    let toks = key_tokens();
    let (previous, head, base_name, base, p7) = match decode_head(b, &toks) {
        Ok(x) => x,
        Err(e) => {
            proof {
                assert forall|mv: MetaView| !(mv.typed() && b@ == #[trigger] enc_meta(mv)) by {}
            }
            return Err(e);
        },
    };
    let ghost prev_view: Option<Seq<u8>> = match &previous {
        Some(id) => Some(id@),
        None => None,
    };
    let (applied, unapplied, patches, p13) = match decode_lists(b, &toks, p7) {
        Ok(x) => x,
        Err(e) => {
            proof {
                assert forall|mv: MetaView| !(mv.typed() && b@ == #[trigger] enc_meta(mv)) by {}
            }
            return Err(e);
        },
    };
    proof {
        assert forall|mv: MetaView| (mv.typed() && b@ == #[trigger] enc_meta(mv)) implies p13
            == off7(mv) by {}
    }
    if p13 >= n || b[p13] != 125 || p13 != n - 1 {
        proof {
            assert forall|mv: MetaView| !(mv.typed() && b@ == #[trigger] enc_meta(mv)) by {
                if mv.typed() && b@ == enc_meta(mv) {
                    lemma_enc_meta_layout(mv);
                    assert(b@[off7(mv)] == 125);
                    assert(b@.len() == off7(mv) + 1);
                }
            }
        }
        return Err(InvalidMetadata);
    }
    let m = MetaRecord { previous, head, base, base_name, applied, unapplied, patches };
    proof {
        assert(m@.previous == prev_view);
        assert(m@.typed());
        let e7 = tok_version() + (match m@.previous {
            Some(pv) => tok_previous() + json_oid(pv),
            None => Seq::<u8>::empty(),
        }) + tok_head() + json_oid(m@.head) + tok_base_name() + json_str(m@.base_name)
            + tok_base() + json_oid(m@.base);
        assert(b@.subrange(0, p7 as int) == e7);
        let e13 = e7 + (tok_applied() + json_names(m@.applied) + tok_unapplied() + json_names(
            m@.unapplied,
        ) + tok_patches() + json_pairs(m@.patches));
        lemma_subrange_split(b@, 0, p7 as int, p13 as int);
        assert(b@.subrange(0, p13 as int) == e13);
        assert(b@.subrange(p13 as int, n as int) =~= seq![125u8]);
        lemma_subrange_split(b@, 0, p13 as int, n as int);
        assert(b@.subrange(0, n as int) == e13 + seq![125u8]);
        assert(e13 + seq![125u8] =~= enc_meta(m@));
        assert(b@.subrange(0, n as int) =~= b@);
        assert forall|mv: MetaView| (mv.typed() && b@ == #[trigger] enc_meta(mv)) implies m@
            =~= mv by {}
    }
    Ok(m)
}

} // verus!
