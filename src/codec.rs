//! Encoding of typed attribute values into index key bytes.
use vstd::prelude::*;
use vstd::string::*;
use vstd::utf8::{decode_utf8, encode_utf8, valid_utf8};

use crate::keys::MAX_SIZEOF_STRING_KEY;

verus! {

/// A typed attribute value that can be written into an index.
pub enum IndexValue {
    Bytes(Vec<u8>),
    String(String),
    Bool(bool),
    Binary(Vec<u8>),
    Uint128(u128),
    Uint64(u64),
    Uint32(u32),
    Uint16(u16),
    Uint8(u8),
    Int128(i128),
    Int64(i64),
    Int32(i32),
    Int16(i16),
    Int8(i8),
}

/// The `n` low-order bytes of `x`, least significant first.
pub open spec fn le_bytes(x: nat, n: nat) -> Seq<u8>
    decreases n,
{
    if n == 0 {
        Seq::empty()
    } else {
        seq![(x % 256) as u8] + le_bytes(x / 256, (n - 1) as nat)
    }
}

/// The fixed-width key of a string's UTF-8 bytes: cut to the key width, or
/// padded with zero bytes up to it.
pub open spec fn string_key(b: Seq<u8>) -> Seq<u8> {
    if b.len() > MAX_SIZEOF_STRING_KEY {
        b.take(MAX_SIZEOF_STRING_KEY as int)
    } else {
        b + Seq::new((MAX_SIZEOF_STRING_KEY - b.len()) as nat, |i: int| 0u8)
    }
}

pub proof fn lemma_string_key_len(b: Seq<u8>)
    ensures
        string_key(b).len() == MAX_SIZEOF_STRING_KEY,
{
}

pub open spec fn str_bytes(s: Seq<char>) -> Seq<u8> {
    encode_utf8(s)
}

/// The key bytes of a value: little-endian integers of their own width
/// (signed ones in two's complement), 0 or 1 for a bool, raw bytes as they
/// are, and the fixed-width key for a string.
pub open spec fn encode(v: IndexValue) -> Seq<u8> {
    match v {
        IndexValue::Bytes(b) => b@,
        IndexValue::String(s) => string_key(str_bytes(s@)),
        IndexValue::Bool(x) => if x { seq![1u8] } else { seq![0u8] },
        IndexValue::Binary(b) => b@,
        IndexValue::Uint128(x) => le_bytes(x as nat, 16),
        IndexValue::Uint64(x) => le_bytes(x as nat, 8),
        IndexValue::Uint32(x) => le_bytes(x as nat, 4),
        IndexValue::Uint16(x) => le_bytes(x as nat, 2),
        IndexValue::Uint8(x) => le_bytes(x as nat, 1),
        IndexValue::Int128(x) => le_bytes((x as u128) as nat, 16),
        IndexValue::Int64(x) => le_bytes((x as u64) as nat, 8),
        IndexValue::Int32(x) => le_bytes((x as u32) as nat, 4),
        IndexValue::Int16(x) => le_bytes((x as u16) as nat, 2),
        IndexValue::Int8(x) => le_bytes((x as u8) as nat, 1),
    }
}

/// Two values are the same when they have the same variant and payload.
pub open spec fn same_value(a: IndexValue, b: IndexValue) -> bool {
    match (a, b) {
        (IndexValue::Bytes(x), IndexValue::Bytes(y)) => x@ == y@,
        (IndexValue::String(x), IndexValue::String(y)) => x@ == y@,
        (IndexValue::Bool(x), IndexValue::Bool(y)) => x == y,
        (IndexValue::Binary(x), IndexValue::Binary(y)) => x@ == y@,
        (IndexValue::Uint128(x), IndexValue::Uint128(y)) => x == y,
        (IndexValue::Uint64(x), IndexValue::Uint64(y)) => x == y,
        (IndexValue::Uint32(x), IndexValue::Uint32(y)) => x == y,
        (IndexValue::Uint16(x), IndexValue::Uint16(y)) => x == y,
        (IndexValue::Uint8(x), IndexValue::Uint8(y)) => x == y,
        (IndexValue::Int128(x), IndexValue::Int128(y)) => x == y,
        (IndexValue::Int64(x), IndexValue::Int64(y)) => x == y,
        (IndexValue::Int32(x), IndexValue::Int32(y)) => x == y,
        (IndexValue::Int16(x), IndexValue::Int16(y)) => x == y,
        (IndexValue::Int8(x), IndexValue::Int8(y)) => x == y,
        _ => false,
    }
}

pub open spec fn same_opt_value(a: Option<IndexValue>, b: Option<IndexValue>) -> bool {
    match (a, b) {
        (None, None) => true,
        (Some(x), Some(y)) => same_value(x, y),
        _ => false,
    }
}

/// Copies a byte vector.
pub fn copy_bytes(b: &[u8]) -> (r: Vec<u8>)
    ensures
        r@ == b@,
{
    let mut r: Vec<u8> = Vec::with_capacity(b.len());
    let mut i: usize = 0;
    while i < b.len()
        invariant
            i <= b@.len(),
            r@ == b@.take(i as int),
        decreases b@.len() - i,
    {
        r.push(b[i]);
        assert(b@.take(i + 1) =~= b@.take(i as int).push(b@[i as int]));
        i = i + 1;
    }
    assert(b@.take(i as int) =~= b@);
    r
}

/// The `n` low-order bytes of `x`, least significant first.
pub fn le_bytes_of(x: u128, n: usize) -> (r: Vec<u8>)
    requires
        n <= 16,
    ensures
        r@ == le_bytes(x as nat, n as nat),
{
    let mut out: Vec<u8> = Vec::with_capacity(n);
    let mut v: u128 = x;
    let mut i: usize = 0;
    assert(out@ + le_bytes(v as nat, n as nat) =~= le_bytes(x as nat, n as nat));
    while i < n
        invariant
            i <= n,
            out@ + le_bytes(v as nat, (n - i) as nat) == le_bytes(x as nat, n as nat),
        decreases n - i,
    {
        let ghost rest = le_bytes(v as nat, (n - i) as nat);
        let ghost tail = le_bytes((v / 256) as nat, (n - i - 1) as nat);
        assert(rest == seq![(v % 256) as u8] + tail);
        let b: u8 = (v % 256) as u8;
        out.push(b);
        v = v / 256;
        i = i + 1;
        assert(out@ + tail =~= (out@.drop_last() + seq![b]) + tail);
    }
    assert(out@ + le_bytes(v as nat, 0) =~= out@);
    out
}

/// The fixed-width key of a string.
pub fn string_key_of(s: &String) -> (r: Vec<u8>)
    ensures
        r@ == string_key(str_bytes(s@)),
{
    let b: &[u8] = s.as_str().as_bytes();
    let mut r: Vec<u8> = Vec::with_capacity(MAX_SIZEOF_STRING_KEY);
    let mut i: usize = 0;
    let n: usize = if b.len() > MAX_SIZEOF_STRING_KEY { MAX_SIZEOF_STRING_KEY } else { b.len() };
    while i < n
        invariant
            n <= b@.len(),
            n <= MAX_SIZEOF_STRING_KEY,
            i <= n,
            r@ == b@.take(i as int),
        decreases n - i,
    {
        r.push(b[i]);
        assert(b@.take(i + 1) =~= b@.take(i as int).push(b@[i as int]));
        i = i + 1;
    }
    while i < MAX_SIZEOF_STRING_KEY
        invariant
            n <= i <= MAX_SIZEOF_STRING_KEY,
            n <= b@.len(),
            n == b@.len() || n == MAX_SIZEOF_STRING_KEY,
            r@ == b@.take(n as int) + Seq::new((i - n) as nat, |j: int| 0u8),
        decreases MAX_SIZEOF_STRING_KEY - i,
    {
        r.push(0u8);
        assert(r@ =~= b@.take(n as int) + Seq::new((i + 1 - n) as nat, |j: int| 0u8));
        i = i + 1;
    }
    assert(b@.take(n as int) + Seq::new(0, |j: int| 0u8) =~= b@.take(n as int));
    if b.len() <= MAX_SIZEOF_STRING_KEY {
        assert(b@.take(n as int) =~= b@);
    }
    r
}

impl IndexValue {
    /// The key bytes of this value.
    pub fn to_bytes(&self) -> (r: Vec<u8>)
        ensures
            r@ == encode(*self),
    {
        match self {
            IndexValue::Bytes(b) => copy_bytes(b.as_slice()),
            IndexValue::String(s) => string_key_of(s),
            IndexValue::Uint128(x) => le_bytes_of(*x, 16),
            IndexValue::Uint64(x) => le_bytes_of(*x as u128, 8),
            IndexValue::Uint32(x) => le_bytes_of(*x as u128, 4),
            IndexValue::Uint16(x) => le_bytes_of(*x as u128, 2),
            IndexValue::Uint8(x) => le_bytes_of(*x as u128, 1),
            IndexValue::Int128(x) => le_bytes_of(*x as u128, 16),
            IndexValue::Int64(x) => le_bytes_of((*x as u64) as u128, 8),
            IndexValue::Int32(x) => le_bytes_of((*x as u32) as u128, 4),
            IndexValue::Int16(x) => le_bytes_of((*x as u16) as u128, 2),
            IndexValue::Int8(x) => le_bytes_of((*x as u8) as u128, 1),
            IndexValue::Bool(x) => {
                let mut r: Vec<u8> = Vec::new();
                r.push(if *x { 1u8 } else { 0u8 });
                r
            },
            IndexValue::Binary(b) => copy_bytes(b.as_slice()),
        }
    }

    /// A copy of this value.
    pub fn copy(&self) -> (r: IndexValue)
        ensures
            same_value(r, *self),
            encode(r) == encode(*self),
    {
        match self {
            IndexValue::Bytes(b) => IndexValue::Bytes(copy_bytes(b.as_slice())),
            IndexValue::String(s) => IndexValue::String(s.clone()),
            IndexValue::Bool(x) => IndexValue::Bool(*x),
            IndexValue::Binary(b) => IndexValue::Binary(copy_bytes(b.as_slice())),
            IndexValue::Uint128(x) => IndexValue::Uint128(*x),
            IndexValue::Uint64(x) => IndexValue::Uint64(*x),
            IndexValue::Uint32(x) => IndexValue::Uint32(*x),
            IndexValue::Uint16(x) => IndexValue::Uint16(*x),
            IndexValue::Uint8(x) => IndexValue::Uint8(*x),
            IndexValue::Int128(x) => IndexValue::Int128(*x),
            IndexValue::Int64(x) => IndexValue::Int64(*x),
            IndexValue::Int32(x) => IndexValue::Int32(*x),
            IndexValue::Int16(x) => IndexValue::Int16(*x),
            IndexValue::Int8(x) => IndexValue::Int8(*x),
        }
    }
}

/// The text that UTF-8 bytes encode, when they are valid UTF-8.
pub open spec fn text_of(b: Seq<u8>) -> Option<Seq<char>> {
    if valid_utf8(b) {
        Some(decode_utf8(b))
    } else {
        None
    }
}

/// Relies on `String::from_utf8`: it accepts exactly the valid UTF-8 byte
/// strings, and the string it returns holds the characters they encode.
#[verifier::external_body]
pub(crate) fn string_from_utf8(b: Vec<u8>) -> (r: Option<String>)
    ensures
        r is Some <==> valid_utf8(b@),
        r matches Some(s) ==> s@ == decode_utf8(b@),
{
    String::from_utf8(b).ok()
}

/// A 16-bit number as two big-endian bytes, so that byte order is numeric order.
pub open spec fn be16(w: u16) -> Seq<u8> {
    seq![(w / 256) as u8, (w % 256) as u8]
}

/// A 32-bit number as four big-endian bytes, so that byte order is numeric order.
pub open spec fn be32(x: u32) -> Seq<u8> {
    seq![(x / 16777216) as u8, ((x / 65536) % 256) as u8, ((x / 256) % 256) as u8, (x % 256) as u8]
}

pub open spec fn from_be16(b: Seq<u8>) -> u16 {
    (b[0] as int * 256 + b[1] as int) as u16
}

pub open spec fn from_be32(b: Seq<u8>) -> u32 {
    (b[0] as int * 16777216 + b[1] as int * 65536 + b[2] as int * 256 + b[3] as int) as u32
}

pub proof fn lemma_be16_round_trip(w: u16)
    ensures
        from_be16(be16(w)) == w,
        be16(w).len() == 2,
{
}

pub proof fn lemma_be32_round_trip(x: u32)
    ensures
        from_be32(be32(x)) == x,
        be32(x).len() == 4,
{
}

/// The big-endian bytes of a 16-bit number.
pub fn be16_of(w: u16) -> (r: Vec<u8>)
    ensures
        r@ == be16(w),
{
    let mut r: Vec<u8> = Vec::with_capacity(2);
    r.push((w / 256) as u8);
    r.push((w % 256) as u8);
    assert(r@ =~= be16(w));
    r
}

/// The big-endian bytes of a 32-bit number.
pub fn be32_of(x: u32) -> (r: Vec<u8>)
    ensures
        r@ == be32(x),
{
    let mut r: Vec<u8> = Vec::with_capacity(4);
    r.push((x / 16777216) as u8);
    r.push(((x / 65536) % 256) as u8);
    r.push(((x / 256) % 256) as u8);
    r.push((x % 256) as u8);
    assert(r@ =~= be32(x));
    r
}

/// The number held in two big-endian bytes.
pub fn read_be16(b: &[u8]) -> (r: u16)
    requires
        b@.len() == 2,
    ensures
        r == from_be16(b@),
{
    (b[0] as u16) * 256 + (b[1] as u16)
}

/// The concatenation of two byte strings.
pub fn concat_bytes(a: &[u8], b: &[u8]) -> (r: Vec<u8>)
    ensures
        r@ == a@ + b@,
{
    let mut r = copy_bytes(a);
    let mut i: usize = 0;
    while i < b.len()
        invariant
            i <= b@.len(),
            r@ == a@ + b@.take(i as int),
        decreases b@.len() - i,
    {
        r.push(b[i]);
        assert(r@ =~= a@ + b@.take(i + 1));
        i = i + 1;
    }
    assert(b@.take(i as int) =~= b@);
    r
}

} // verus!
