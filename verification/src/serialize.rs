//! Canonical byte encodings.
//!
//! Every payload type defines one canonical byte sequence; node digests are
//! computed over these encodings, so the encoding of a value is a function of
//! its abstract view alone.  Integers are encoded little-endian and
//! width-exact, booleans as one byte, characters as the low eight bits of the
//! code point, and strings as their UTF-8 bytes with no length prefix.

use vstd::bytes::{
    spec_u16_to_le_bytes, spec_u32_to_le_bytes, spec_u64_to_le_bytes, u16_to_le_bytes,
    u32_to_le_bytes, u64_to_le_bytes,
};
use vstd::prelude::*;
use vstd::utf8::encode_utf8;

verus! {

/// A value with a canonical byte encoding.  The encoding is given at the
/// spec level as a function of the value's view, and `to_bytes` produces
/// exactly that sequence.
pub trait Serialize: View + Sized {
    /// The canonical byte encoding of a value with view `v`.
    spec fn bytes_of(v: Self::V) -> Seq<u8>;

    /// Produce the canonical byte encoding.
    fn to_bytes(&self) -> (r: Vec<u8>)
        ensures
            r@ == Self::bytes_of(self@),
    ;
}

/// A value that can be duplicated without changing its view.
pub trait DupValue: View + Sized {
    /// A copy of the value with the same view.
    fn dup(&self) -> (r: Self)
        ensures
            r@ == self@,
    ;
}

/// The UTF-8 bytes of a string value.
pub open spec fn str_bytes(v: Seq<char>) -> Seq<u8> {
    encode_utf8(v)
}

/// The views of a sequence of strings.
pub open spec fn str_views(s: Seq<String>) -> Seq<Seq<char>> {
    s.map_values(|p: String| p@)
}

/// The views of a sequence of values.
pub open spec fn views_of<T: View>(s: Seq<T>) -> Seq<T::V> {
    s.map_values(|x: T| x@)
}

impl Serialize for String {
    open spec fn bytes_of(v: Seq<char>) -> Seq<u8> {
        str_bytes(v)
    }

    fn to_bytes(&self) -> (r: Vec<u8>) {
        self.as_str().as_bytes_vec()
    }
}

impl Serialize for Vec<u8> {
    open spec fn bytes_of(v: Seq<u8>) -> Seq<u8> {
        v
    }

    fn to_bytes(&self) -> (r: Vec<u8>) {
        let mut r: Vec<u8> = Vec::new();
        let mut i: usize = 0;
        while i < self.len()
            invariant
                i <= self@.len(),
                r@ == self@.take(i as int),
            decreases self@.len() - i,
        {
            r.push(self[i]);
            i = i + 1;
            proof {
                assert(r@ =~= self@.take(i as int));
            }
        }
        proof {
            assert(self@.take(self@.len() as int) =~= self@);
        }
        r
    }
}

impl Serialize for u64 {
    open spec fn bytes_of(v: u64) -> Seq<u8> {
        spec_u64_to_le_bytes(v)
    }

    fn to_bytes(&self) -> (r: Vec<u8>) {
        u64_to_le_bytes(*self)
    }
}

impl Serialize for u32 {
    open spec fn bytes_of(v: u32) -> Seq<u8> {
        spec_u32_to_le_bytes(v)
    }

    fn to_bytes(&self) -> (r: Vec<u8>) {
        u32_to_le_bytes(*self)
    }
}

impl Serialize for u16 {
    open spec fn bytes_of(v: u16) -> Seq<u8> {
        spec_u16_to_le_bytes(v)
    }

    fn to_bytes(&self) -> (r: Vec<u8>) {
        u16_to_le_bytes(*self)
    }
}

/// Low byte of a signed value: the mask keeps it in byte range.
proof fn lemma_low_byte_bound(y: i64)
    ensures
        0 <= y & 0xff < 256,
{
    assert(0 <= y & 0xff < 256) by (bit_vector);
}

/// The two's-complement little-endian bytes of a signed value, lowest
/// first: byte `k` is the value shifted right by `8 k`, masked to a byte.
pub open spec fn i64_le_bytes(x: i64) -> Seq<u8> {
    seq![
        (x & 0xff) as u8,
        ((x >> 8) & 0xff) as u8,
        ((x >> 16) & 0xff) as u8,
        ((x >> 24) & 0xff) as u8,
        ((x >> 32) & 0xff) as u8,
        ((x >> 40) & 0xff) as u8,
        ((x >> 48) & 0xff) as u8,
        ((x >> 56) & 0xff) as u8,
    ]
}

/// One two's-complement little-endian byte of a signed value.
fn le_byte(x: i64, shift: u32) -> (r: u8)
    requires
        shift < 64,
    ensures
        r == ((x >> shift) & 0xff) as u8,
{
    let shifted: i64 = x >> shift;
    proof {
        lemma_low_byte_bound(shifted);
    }
    (shifted & 0xff) as u8
}

impl Serialize for i64 {
    open spec fn bytes_of(v: i64) -> Seq<u8> {
        i64_le_bytes(v)
    }

    fn to_bytes(&self) -> (r: Vec<u8>) {
        let x = *self;
        let mut r: Vec<u8> = Vec::new();
        r.push(le_byte(x, 0));
        r.push(le_byte(x, 8));
        r.push(le_byte(x, 16));
        r.push(le_byte(x, 24));
        r.push(le_byte(x, 32));
        r.push(le_byte(x, 40));
        r.push(le_byte(x, 48));
        r.push(le_byte(x, 56));
        proof {
            assert((x >> 0u32) == x) by (bit_vector);
            assert(r@ =~= i64_le_bytes(x));
        }
        r
    }
}

impl Serialize for i32 {
    open spec fn bytes_of(v: i32) -> Seq<u8> {
        i64_le_bytes(v as i64).take(4)
    }

    fn to_bytes(&self) -> (r: Vec<u8>) {
        let x: i64 = *self as i64;
        let mut r: Vec<u8> = Vec::new();
        r.push(le_byte(x, 0));
        r.push(le_byte(x, 8));
        r.push(le_byte(x, 16));
        r.push(le_byte(x, 24));
        proof {
            assert((x >> 0u32) == x) by (bit_vector);
            assert(r@ =~= i64_le_bytes(x).take(4));
        }
        r
    }
}

impl Serialize for i16 {
    open spec fn bytes_of(v: i16) -> Seq<u8> {
        i64_le_bytes(v as i64).take(2)
    }

    fn to_bytes(&self) -> (r: Vec<u8>) {
        let x: i64 = *self as i64;
        let mut r: Vec<u8> = Vec::new();
        r.push(le_byte(x, 0));
        r.push(le_byte(x, 8));
        proof {
            assert((x >> 0u32) == x) by (bit_vector);
            assert(r@ =~= i64_le_bytes(x).take(2));
        }
        r
    }
}

impl Serialize for i8 {
    open spec fn bytes_of(v: i8) -> Seq<u8> {
        i64_le_bytes(v as i64).take(1)
    }

    fn to_bytes(&self) -> (r: Vec<u8>) {
        let x: i64 = *self as i64;
        let mut r: Vec<u8> = Vec::new();
        r.push(le_byte(x, 0));
        proof {
            assert((x >> 0u32) == x) by (bit_vector);
            assert(r@ =~= i64_le_bytes(x).take(1));
        }
        r
    }
}

impl Serialize for u8 {
    open spec fn bytes_of(v: u8) -> Seq<u8> {
        seq![v]
    }

    fn to_bytes(&self) -> (r: Vec<u8>) {
        let mut r: Vec<u8> = Vec::new();
        r.push(*self);
        proof {
            assert(r@ =~= seq![self@]);
        }
        r
    }
}

impl Serialize for bool {
    open spec fn bytes_of(v: bool) -> Seq<u8> {
        seq![if v { 1u8 } else { 0u8 }]
    }

    fn to_bytes(&self) -> (r: Vec<u8>) {
        let mut r: Vec<u8> = Vec::new();
        r.push(if *self { 1u8 } else { 0u8 });
        proof {
            assert(r@ =~= Self::bytes_of(self@));
        }
        r
    }
}

impl Serialize for char {
    open spec fn bytes_of(v: char) -> Seq<u8> {
        seq![(v as u32 & 0xff) as u8]
    }

    fn to_bytes(&self) -> (r: Vec<u8>) {
        let code: u32 = *self as u32;
        let low: u32 = code & 0xff;
        assert(low < 256) by (bit_vector)
            requires
                low == code & 0xff,
        ;
        let mut r: Vec<u8> = Vec::new();
        r.push(low as u8);
        proof {
            assert(r@ =~= Self::bytes_of(self@));
        }
        r
    }
}

impl DupValue for String {
    fn dup(&self) -> (r: String) {
        self.clone()
    }
}

impl DupValue for u64 {
    fn dup(&self) -> (r: u64) {
        *self
    }
}

impl DupValue for bool {
    fn dup(&self) -> (r: bool) {
        *self
    }
}

impl DupValue for (String, String) {
    fn dup(&self) -> (r: (String, String)) {
        (self.0.clone(), self.1.clone())
    }
}

/// Whether `s` occurs, by view, among the strings of `v`.
pub fn contains_string(v: &Vec<String>, s: &String) -> (r: bool)
    ensures
        r == str_views(v@).contains(s@),
{
    let mut i: usize = 0;
    while i < v.len()
        invariant
            i <= v@.len(),
            forall|j: int| 0 <= j < i ==> (#[trigger] v@[j])@ != s@,
        decreases v@.len() - i,
    {
        if v[i].eq(s) {
            proof {
                assert(str_views(v@)[i as int] == s@);
            }
            return true;
        }
        i = i + 1;
    }
    proof {
        if str_views(v@).contains(s@) {
            let j = choose|j: int| 0 <= j < str_views(v@).len() && str_views(v@)[j] == s@;
            assert(v@[j]@ == s@);
        }
    }
    false
}

/// A copy of a vector of strings with the same view.
pub fn dup_string_vec(v: &Vec<String>) -> (r: Vec<String>)
    ensures
        r@ == v@,
{
    let mut r: Vec<String> = Vec::new();
    let mut i: usize = 0;
    while i < v.len()
        invariant
            i <= v@.len(),
            r@ == v@.take(i as int),
        decreases v@.len() - i,
    {
        r.push(v[i].clone());
        i = i + 1;
        proof {
            assert(r@ =~= v@.take(i as int));
        }
    }
    proof {
        assert(v@.take(v@.len() as int) =~= v@);
    }
    r
}

} // verus!
