//! Small helpers: page-size normalisation, zero padding, and the storage
//! names of custom indices.
use vstd::prelude::*;
use vstd::string::*;

verus! {

pub const DEFAULT_LIMIT: usize = 100;

pub const MAX_LIMIT: usize = 500;

/// The page size asked for, clamped to `1..=MAX_LIMIT`, or the default.
pub open spec fn limit_of(limit: Option<u16>) -> usize {
    match limit {
        None => DEFAULT_LIMIT,
        Some(x) => if x < 1 {
            1
        } else if x as usize > MAX_LIMIT {
            MAX_LIMIT
        } else {
            x as usize
        },
    }
}

/// The page size and direction of a paginated query.
pub fn prepare_limit_and_desc(limit: Option<u16>, desc: Option<bool>) -> (r: (usize, bool))
    ensures
        r.0 == limit_of(limit),
        1 <= r.0 <= MAX_LIMIT,
        r.1 == (desc == Some(true)),
{
    let n: usize = match limit {
        None => DEFAULT_LIMIT,
        Some(x) => {
            let x = x as usize;
            if x < 1 {
                1
            } else if x > MAX_LIMIT {
                MAX_LIMIT
            } else {
                x
            }
        },
    };
    let d = match desc {
        Some(b) => b,
        None => false,
    };
    (n, d)
}

/// The length of `s` once its trailing zero bytes are dropped, keeping the
/// first byte in any case.
pub open spec fn unpadded_len(s: Seq<u8>) -> nat
    decreases s.len(),
{
    if s.len() <= 1 {
        s.len()
    } else if s.last() == 0 {
        unpadded_len(s.drop_last())
    } else {
        s.len()
    }
}

/// Drops the trailing zero bytes of a non-empty byte string, keeping its
/// first byte.
pub fn unpad_vec(bytes: Vec<u8>) -> (r: Vec<u8>)
    requires
        bytes@.len() > 0,
    ensures
        r@ == bytes@.take(unpadded_len(bytes@) as int),
{
    let ghost orig = bytes@;
    let mut bytes = bytes;
    let mut i: usize = bytes.len() - 1;
    proof {
        assert(orig.take(orig.len() as int) =~= orig);
    }
    while i != 0 && bytes[i] == 0
        invariant
            i < bytes@.len(),
            bytes@.len() == i + 1,
            bytes@.len() <= orig.len(),
            bytes@ == orig.take(bytes@.len() as int),
            unpadded_len(orig) == unpadded_len(bytes@),
        decreases i,
    {
        let ghost b = bytes@;
        bytes.pop();
        assert(bytes@ =~= b.drop_last());
        assert(bytes@ =~= orig.take(bytes@.len() as int));
        i = i - 1;
    }
    proof {
        assert(unpadded_len(bytes@) == bytes@.len());
    }
    bytes
}

/// Extends a byte string with zero bytes up to `target_length`.
pub fn pad_vec(vec: Vec<u8>, target_length: usize) -> (r: Vec<u8>)
    ensures
        r@ == if vec@.len() >= target_length {
            vec@
        } else {
            vec@ + Seq::new((target_length - vec@.len()) as nat, |i: int| 0u8)
        },
{
    let ghost orig = vec@;
    let mut padded = vec;
    let n = padded.len();
    if n >= target_length {
        return padded;
    }
    let mut i: usize = n;
    while i < target_length
        invariant
            n <= i <= target_length,
            n == orig.len(),
            padded@ == orig + Seq::new((i - n) as nat, |j: int| 0u8),
        decreases target_length - i,
    {
        padded.push(0u8);
        assert(padded@ =~= orig + Seq::new((i + 1 - n) as nat, |j: int| 0u8));
        i = i + 1;
    }
    padded
}

/// The storage name of the custom index `index_name`.
pub fn build_index_storage_key(index_name: &String) -> (r: String)
    ensures
        r@ == "_ix_"@ + index_name@,
{
    String::from_str("_ix_").concat(index_name.as_str())
}

/// The storage name of the reverse map of the custom index `index_name`.
pub fn build_reverse_mapping_storage_key(index_name: &String) -> (r: String)
    ensures
        r@ == "_id_2_"@ + index_name@,
{
    String::from_str("_id_2_").concat(index_name.as_str())
}

} // verus!
