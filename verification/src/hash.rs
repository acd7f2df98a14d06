//! Object identities: fixed-width binary hashes with hexadecimal
//! encoding and decoding.
//!
//! An identity is an immutable value, comparable byte-wise. The all-zero
//! identity doubles as the "no value" marker in history lines and as the
//! "must exist" sentinel of edit preconditions.

use vstd::prelude::*;
use vstd::arithmetic::div_mod::lemma_fundamental_div_mod;

verus! {

/// Width in bytes of an object identity.
pub const ID_LEN: usize = 20;

/// A fixed-width binary object identity.
#[derive(Debug, Clone, Hash)]
pub struct ObjectId {
    bytes: Vec<u8>,
}

impl View for ObjectId {
    type V = Seq<u8>;

    closed spec fn view(&self) -> Seq<u8> {
        self.bytes@
    }
}

/// An identity is well formed when it has exactly the hash width.
pub open spec fn id_wf(id: ObjectId) -> bool {
    id@.len() == ID_LEN
}

/// The all-zero identity.
pub open spec fn spec_null_id() -> Seq<u8> {
    Seq::new(ID_LEN as nat, |i: int| 0u8)
}

/// Is `c` the ASCII code of a hexadecimal digit?
pub open spec fn is_hex_digit(c: u8) -> bool {
    (48 <= c <= 57) || (97 <= c <= 102) || (65 <= c <= 70)
}

/// Every element of `s` is a hexadecimal digit.
pub open spec fn is_hex_seq(s: Seq<u8>) -> bool {
    forall|i: int| 0 <= i < s.len() ==> is_hex_digit(#[trigger] s[i])
}

/// Numeric value of a hexadecimal digit.
pub open spec fn hex_val(c: u8) -> u8 {
    if 48 <= c <= 57 {
        (c - 48) as u8
    } else if 97 <= c <= 102 {
        (c - 87) as u8
    } else {
        (c - 55) as u8
    }
}

/// Lower-case ASCII digit for a value below 16.
pub open spec fn lower_hex_char(v: u8) -> u8 {
    if v < 10 {
        (48 + v) as u8
    } else {
        (87 + v) as u8
    }
}

/// The bytes encoded by a sequence of hexadecimal digit pairs.
pub open spec fn hex_decoded(s: Seq<u8>) -> Seq<u8> {
    Seq::new((s.len() / 2) as nat, |i: int| (hex_val(s[2 * i]) * 16 + hex_val(s[2 * i + 1])) as u8)
}

/// The lower-case hexadecimal rendering of a byte sequence.
pub open spec fn hex_encoded(b: Seq<u8>) -> Seq<u8> {
    Seq::new(
        (b.len() * 2) as nat,
        |i: int|
            if i % 2 == 0 {
                lower_hex_char(b[i / 2] / 16)
            } else {
                lower_hex_char(b[i / 2] % 16)
            },
    )
}

/// Decoding inverts encoding: rendering a byte sequence in hexadecimal and
/// reading it back yields the original bytes.
pub proof fn lemma_hex_round_trip(b: Seq<u8>)
    ensures
        hex_encoded(b).len() == b.len() * 2,
        is_hex_seq(hex_encoded(b)),
        hex_decoded(hex_encoded(b)) =~= b,
{
    let e = hex_encoded(b);
    assert forall|i: int| 0 <= i < e.len() implies is_hex_digit(#[trigger] e[i]) by {
        let v = if i % 2 == 0 {
            b[i / 2] / 16
        } else {
            b[i / 2] % 16
        };
        assert(v < 16);
    }
    assert forall|i: int| 0 <= i < b.len() implies hex_decoded(e)[i] == b[i] by {
        let hi = b[i] / 16;
        let lo = b[i] % 16;
        assert(e[2 * i] == lower_hex_char(hi));
        assert((2 * i + 1) % 2 == 1);
        assert((2 * i + 1) / 2 == i);
        assert(e[2 * i + 1] == lower_hex_char(lo));
        assert(hex_val(lower_hex_char(hi)) == hi);
        assert(hex_val(lower_hex_char(lo)) == lo);
        lemma_fundamental_div_mod(b[i] as int, 16);
    }
}

/// Decides whether `c` is a hexadecimal digit.
fn hex_digit(c: u8) -> (r: bool)
    ensures
        r == is_hex_digit(c),
{
    (48 <= c && c <= 57) || (97 <= c && c <= 102) || (65 <= c && c <= 70)
}

/// Numeric value of a hexadecimal digit.
fn hex_digit_val(c: u8) -> (r: u8)
    requires
        is_hex_digit(c),
    ensures
        r == hex_val(c),
{
    if 48 <= c && c <= 57 {
        c - 48
    } else if 97 <= c && c <= 102 {
        c - 87
    } else {
        c - 55
    }
}

/// Lower-case digit for a value below 16.
fn hex_digit_char(v: u8) -> (r: u8)
    requires
        v < 16,
    ensures
        r == lower_hex_char(v),
{
    if v < 10 {
        48 + v
    } else {
        87 + v
    }
}

impl ObjectId {
    /// Reads an identity from exactly `2 * ID_LEN` hexadecimal digits;
    /// any other input is rejected.
    pub fn from_hex(h: &Vec<u8>) -> (r: Option<ObjectId>)
        ensures
            r is Some <==> h@.len() == 2 * ID_LEN && is_hex_seq(h@),
            r is Some ==> r->0@ == hex_decoded(h@) && id_wf(r->0),
    {
        if h.len() != 2 * ID_LEN {
            return None;
        }
        let mut out: Vec<u8> = Vec::new();
        let mut i: usize = 0;
        while i < ID_LEN
            invariant
                h@.len() == 2 * ID_LEN,
                i <= ID_LEN,
                out@.len() == i,
                forall|j: int| 0 <= j < 2 * i ==> is_hex_digit(#[trigger] h@[j]),
                forall|j: int|
                    0 <= j < i ==> out@[j] == (hex_val(h@[2 * j]) * 16 + hex_val(
                        h@[2 * j + 1],
                    )) as u8,
            decreases ID_LEN - i,
        {
            let hi = h[2 * i];
            let lo = h[2 * i + 1];
            if !hex_digit(hi) || !hex_digit(lo) {
                return None;
            }
            let b = hex_digit_val(hi) * 16 + hex_digit_val(lo);
            out.push(b);
            i += 1;
        }
        proof {
            assert(out@ =~= hex_decoded(h@));
        }
        Some(ObjectId { bytes: out })
    }

    /// Renders the identity as lower-case hexadecimal digits.
    pub fn to_hex(&self) -> (r: Vec<u8>)
        ensures
            r@ == hex_encoded(self@),
    {
        let mut out: Vec<u8> = Vec::new();
        let n: usize = self.bytes.len();
        let mut i: usize = 0;
        while i < n
            invariant
                n == self@.len(),
                i <= n,
                out@.len() == 2 * i,
                forall|j: int| 0 <= j < 2 * i ==> out@[j] == hex_encoded(self@)[j],
            decreases n - i,
        {
            let b = self.bytes[i];
            let c_hi = hex_digit_char(b / 16);
            let c_lo = hex_digit_char(b % 16);
            proof {
                assert((2 * i as int) % 2 == 0);
                assert((2 * i as int) / 2 == i as int);
                assert((2 * i as int + 1) % 2 == 1);
                assert((2 * i as int + 1) / 2 == i as int);
            }
            out.push(c_hi);
            out.push(c_lo);
            i += 1;
        }
        proof {
            assert(out@ =~= hex_encoded(self@));
        }
        out
    }

    /// Builds an identity from raw bytes of the hash width.
    pub fn from_bytes(b: Vec<u8>) -> (r: ObjectId)
        requires
            b@.len() == ID_LEN,
        ensures
            r@ == b@,
            id_wf(r),
    {
        ObjectId { bytes: b }
    }

    /// The raw bytes of the identity.
    pub fn as_bytes(&self) -> (r: &Vec<u8>)
        ensures
            r@ == self@,
    {
        &self.bytes
    }

    /// The all-zero identity.
    pub fn null() -> (r: ObjectId)
        ensures
            r@ == spec_null_id(),
            id_wf(r),
    {
        let mut out: Vec<u8> = Vec::new();
        let mut i: usize = 0;
        while i < ID_LEN
            invariant
                i <= ID_LEN,
                out@.len() == i,
                forall|j: int| 0 <= j < i ==> out@[j] == 0u8,
            decreases ID_LEN - i,
        {
            out.push(0);
            i += 1;
        }
        proof {
            assert(out@ =~= spec_null_id());
        }
        ObjectId { bytes: out }
    }

    /// Is this the all-zero identity?
    pub fn is_null(&self) -> (r: bool)
        ensures
            r == (self@ == spec_null_id()),
    {
        if self.bytes.len() != ID_LEN {
            proof {
                assert(self@ != spec_null_id());
            }
            return false;
        }
        let mut i: usize = 0;
        while i < ID_LEN
            invariant
                self@.len() == ID_LEN,
                i <= ID_LEN,
                forall|j: int| 0 <= j < i ==> self@[j] == 0u8,
            decreases ID_LEN - i,
        {
            if self.bytes[i] != 0 {
                proof {
                    assert(self@[i as int] != spec_null_id()[i as int]);
                }
                return false;
            }
            i += 1;
        }
        proof {
            assert(self@ =~= spec_null_id());
        }
        true
    }

    /// A copy of this identity.
    pub fn duplicate(&self) -> (r: ObjectId)
        ensures
            r@ == self@,
    {
        ObjectId { bytes: crate::bytestr::bytes_clone(&self.bytes) }
    }
}

impl PartialEq for ObjectId {
    fn eq(&self, other: &ObjectId) -> (r: bool) {
        crate::bytestr::bytes_eq(&self.bytes, &other.bytes)
    }
}

impl vstd::std_specs::cmp::PartialEqSpecImpl for ObjectId {
    open spec fn obeys_eq_spec() -> bool {
        true
    }

    open spec fn eq_spec(&self, other: &ObjectId) -> bool {
        self@ == other@
    }
}

} // verus!
