//! Object identifiers.
//!
//! An [`ObjectId`] is the content address of a Git object: a fixed number of
//! raw bytes, written in canonical lowercase hexadecimal wherever the id is
//! serialized.

use vstd::prelude::*;

verus! {

/// Number of raw bytes in an object id.
pub const OID_LEN: usize = 20;

/// The lowercase hexadecimal digit for a value below 16.
pub open spec fn hex_digit(n: u8) -> u8 {
    if n < 10 {
        (48 + n) as u8
    } else {
        (87 + n) as u8
    }
}

/// Lowercase hexadecimal rendering of a byte sequence, two digits per byte.
pub open spec fn hex_of(b: Seq<u8>) -> Seq<u8> {
    Seq::new(
        b.len() * 2,
        |i: int|
            if i % 2 == 0 {
                hex_digit((b[i / 2] / 16) as u8)
            } else {
                hex_digit((b[i / 2] % 16) as u8)
            },
    )
}

/// Does this byte stand for a hexadecimal digit (either case)?
pub open spec fn is_hex_byte(c: u8) -> bool {
    (48 <= c <= 57) || (97 <= c <= 102) || (65 <= c <= 70)
}

/// The value of a hexadecimal digit byte.
pub open spec fn hex_val(c: u8) -> u8
    recommends
        is_hex_byte(c),
{
    if 48 <= c <= 57 {
        (c - 48) as u8
    } else if 97 <= c <= 102 {
        (c - 87) as u8
    } else {
        (c - 55) as u8
    }
}

/// The bytes denoted by a sequence of hexadecimal digit bytes of even length.
pub open spec fn bytes_of_hex(h: Seq<u8>) -> Seq<u8>
    recommends
        h.len() % 2 == 0,
        forall|i: int| 0 <= i < h.len() ==> is_hex_byte(h[i]),
{
    Seq::new(h.len() / 2, |i: int| (hex_val(h[2 * i]) * 16 + hex_val(h[2 * i + 1])) as u8)
}

/// Reading lowercase hexadecimal back yields the original bytes.
pub proof fn lemma_hex_round_trip(b: Seq<u8>)
    ensures
        bytes_of_hex(hex_of(b)) =~= b,
        forall|i: int| 0 <= i < hex_of(b).len() ==> is_hex_byte(#[trigger] hex_of(b)[i]),
{
    assert forall|i: int| 0 <= i < hex_of(b).len() implies is_hex_byte(#[trigger] hex_of(b)[i]) by {
        let v = if i % 2 == 0 {
            (b[i / 2] / 16) as u8
        } else {
            (b[i / 2] % 16) as u8
        };
        assert(v < 16);
    }
    assert forall|i: int| 0 <= i < b.len() implies bytes_of_hex(hex_of(b))[i] == b[i] by {
        assert((2 * i) / 2 == i);
        assert((2 * i + 1) / 2 == i);
        assert(hex_of(b)[2 * i] == hex_digit((b[i] / 16) as u8));
        assert(hex_of(b)[2 * i + 1] == hex_digit((b[i] % 16) as u8));
        assert(hex_val(hex_digit((b[i] / 16) as u8)) == b[i] / 16);
        assert(hex_val(hex_digit((b[i] % 16) as u8)) == b[i] % 16);
        assert(b[i] / 16 * 16 + b[i] % 16 == b[i]) by (nonlinear_arith);
    }
}

/// An object id: the content address of one Git object.
pub struct ObjectId {
    bytes: Vec<u8>,
}

impl View for ObjectId {
    type V = Seq<u8>;

    closed spec fn view(&self) -> Seq<u8> {
        self.bytes@
    }
}

impl ObjectId {
    /// A well-formed id holds exactly `OID_LEN` bytes.
    pub open spec fn wf(&self) -> bool {
        self@.len() == OID_LEN
    }

    /// Wrap raw bytes; rejects any length other than `OID_LEN`.
    pub fn from_bytes(bytes: Vec<u8>) -> (r: Option<ObjectId>)
        ensures
            match r {
                Some(id) => id@ == bytes@ && id.wf(),
                None => bytes@.len() != OID_LEN,
            },
    {
        if bytes.len() == OID_LEN {
            Some(ObjectId { bytes })
        } else {
            None
        }
    }

    /// Parse a hexadecimal spelling (either case); rejects any other input.
    pub fn from_hex(h: &[u8]) -> (r: Option<ObjectId>)
        ensures
            match r {
                Some(id) => {
                    &&& id.wf()
                    &&& h@.len() == 2 * OID_LEN
                    &&& forall|i: int| 0 <= i < h@.len() ==> is_hex_byte(h@[i])
                    &&& id@ == bytes_of_hex(h@)
                },
                None => h@.len() != 2 * OID_LEN || exists|i: int|
                    0 <= i < h@.len() && !is_hex_byte(h@[i]),
            },
    {
        if h.len() != 2 * OID_LEN {
            return None;
        }
        let mut bytes: Vec<u8> = Vec::new();
        let mut i: usize = 0;
        while i < OID_LEN
            invariant
                i <= OID_LEN,
                h@.len() == 2 * OID_LEN,
                bytes@.len() == i,
                forall|j: int| 0 <= j < 2 * i ==> is_hex_byte(h@[j]),
                forall|j: int| 0 <= j < i ==> bytes@[j] == bytes_of_hex(h@)[j],
            decreases OID_LEN - i,
        {
            let hi = h[2 * i];
            let lo = h[2 * i + 1];
            let hi_ok = (48 <= hi && hi <= 57) || (97 <= hi && hi <= 102) || (65 <= hi && hi
                <= 70);
            let lo_ok = (48 <= lo && lo <= 57) || (97 <= lo && lo <= 102) || (65 <= lo && lo
                <= 70);
            if !hi_ok || !lo_ok {
                return None;
            }
            let hv = if hi <= 57 {
                hi - 48
            } else if hi >= 97 {
                hi - 87
            } else {
                hi - 55
            };
            let lv = if lo <= 57 {
                lo - 48
            } else if lo >= 97 {
                lo - 87
            } else {
                lo - 55
            };
            bytes.push(hv * 16 + lv);
            i = i + 1;
        }
        Some(ObjectId { bytes })
    }

    /// The raw bytes of this id.
    pub fn as_bytes(&self) -> (r: &[u8])
        ensures
            r@ == self@,
    {
        self.bytes.as_slice()
    }

    /// Canonical lowercase hexadecimal spelling of this id.
    pub fn to_hex(&self) -> (r: Vec<u8>)
        ensures
            r@ == hex_of(self@),
    {
        let mut out: Vec<u8> = Vec::new();
        let mut i: usize = 0;
        let n = self.bytes.len();
        while i < n
            invariant
                i <= n,
                n == self@.len(),
                out@.len() == 2 * i,
                forall|j: int| 0 <= j < 2 * i ==> out@[j] == hex_of(self@)[j],
            decreases n - i,
        {
            let b = self.bytes[i];
            let hi = b / 16;
            let lo = b % 16;
            let hc = if hi < 10 {
                48 + hi
            } else {
                87 + hi
            };
            let lc = if lo < 10 {
                48 + lo
            } else {
                87 + lo
            };
            out.push(hc);
            out.push(lc);
            i = i + 1;
        }
        assert(out@ =~= hex_of(self@));
        out
    }
}

impl Clone for ObjectId {
    /// A clone denotes the same object.
    fn clone(&self) -> (r: Self)
        ensures
            r@ == self@,
    {
        let mut bytes: Vec<u8> = Vec::new();
        let mut i: usize = 0;
        let n = self.bytes.len();
        while i < n
            invariant
                i <= n,
                n == self.bytes@.len(),
                bytes@ == self.bytes@.subrange(0, i as int),
            decreases n - i,
        {
            bytes.push(self.bytes[i]);
            i = i + 1;
        }
        assert(bytes@ =~= self.bytes@);
        ObjectId { bytes }
    }
}

impl PartialEq for ObjectId {
    fn eq(&self, other: &Self) -> (r: bool) {
        if self.bytes.len() != other.bytes.len() {
            return false;
        }
        let n = self.bytes.len();
        let mut i: usize = 0;
        while i < n
            invariant
                i <= n,
                n == self.bytes@.len() == other.bytes@.len(),
                forall|j: int| 0 <= j < i ==> self.bytes@[j] == other.bytes@[j],
            decreases n - i,
        {
            if self.bytes[i] != other.bytes[i] {
                return false;
            }
            i = i + 1;
        }
        proof {
            assert(self.bytes@ =~= other.bytes@);
        }
        true
    }
}

impl vstd::std_specs::cmp::PartialEqSpecImpl for ObjectId {
    open spec fn obeys_eq_spec() -> bool {
        true
    }

    open spec fn eq_spec(&self, other: &ObjectId) -> bool {
        self@ == other@
    }
}

} // verus!
