//! The legacy snapshot format: an obfuscated tile id in the file name and a
//! zlib-compressed payload of a slot table followed by block records.

use vstd::prelude::*;

verus! {

/// The digit value of one cipher byte, or 10 for a byte outside the
/// alphabet: o, l, h, w, j, s, k, t, r, i stand for the digits 0 through 9.
pub open spec fn cipher_digit(c: u8) -> int {
    if c == 111 {
        0
    } else if c == 108 {
        1
    } else if c == 104 {
        2
    } else if c == 119 {
        3
    } else if c == 106 {
        4
    } else if c == 115 {
        5
    } else if c == 107 {
        6
    } else if c == 116 {
        7
    } else if c == 114 {
        8
    } else if c == 105 {
        9
    } else {
        10
    }
}

/// Whether every byte of `s` lies in the cipher alphabet.
pub open spec fn digits_valid(s: Seq<u8>) -> bool {
    forall|i: int| 0 <= i < s.len() ==> cipher_digit(#[trigger] s[i]) < 10
}

/// The base-10 value of a deciphered digit string.
pub open spec fn digits_value(s: Seq<u8>) -> int
    decreases s.len(),
{
    if s.len() == 0 {
        0
    } else {
        digits_value(s.drop_last()) * 10 + cipher_digit(s.last())
    }
}

/// A deciphered value is never negative.
pub proof fn lemma_digits_value_nonneg(s: Seq<u8>)
    ensures
        digits_value(s) >= 0,
    decreases s.len(),
{
    if s.len() > 0 {
        lemma_digits_value_nonneg(s.drop_last());
    }
}

/// Extending a digit string never shrinks its value.
pub proof fn lemma_digits_value_mono(s: Seq<u8>, n: int)
    requires
        0 <= n <= s.len(),
    ensures
        digits_value(s.subrange(0, n)) <= digits_value(s),
    decreases s.len() - n,
{
    if n < s.len() {
        lemma_digits_value_mono(s, n + 1);
        let a = s.subrange(0, n);
        let b = s.subrange(0, n + 1);
        assert(b.drop_last() =~= a);
        assert(b.last() == s[n]);
        lemma_digits_value_nonneg(a);
    } else {
        assert(s.subrange(0, n) =~= s);
    }
}

/// What the name of a snapshot file decodes to: the tile coordinates
/// (column, row), or nothing when the name is too short, a character of the
/// id falls outside the cipher alphabet, or the id reaches 2^18. The id
/// occupies the bytes between a four-byte prefix and a two-byte suffix.
pub open spec fn decode_filename(name: Seq<u8>) -> Option<(int, int)> {
    if name.len() < 7 {
        None
    } else {
        let mid = name.subrange(4, name.len() - 2);
        if digits_valid(mid) && digits_value(mid) < 262144 {
            Some((digits_value(mid) % 512, digits_value(mid) / 512))
        } else {
            None
        }
    }
}

/// The slot of block index `i` in an inflated snapshot: a little-endian
/// 16-bit value; zero means the block is absent, a nonzero value points at a
/// 515-byte record.
pub open spec fn slot_of(d: Seq<u8>, i: int) -> int {
    d[2 * i] + 256 * d[2 * i + 1]
}

/// The bytes of the record that the slot of block index `i` points at.
pub open spec fn block_bytes(d: Seq<u8>, i: int) -> Seq<u8> {
    d.subrange(32768 + (slot_of(d, i) - 1) * 515, 32768 + (slot_of(d, i) - 1) * 515 + 515)
}

/// Whether an inflated snapshot is well formed: it holds the whole slot
/// table and every nonzero slot points at a record inside the data.
pub open spec fn payload_wf(d: Seq<u8>) -> bool {
    &&& d.len() >= 32768
    &&& forall|i: int|
        0 <= i < 16384 ==> (#[trigger] slot_of(d, i)) == 0 || 32768 + (slot_of(d, i) - 1) * 515
            + 515 <= d.len()
}

/// Whether a snapshot's bytes inflate to a well-formed payload.
pub open spec fn snapshot_ok(data: Seq<u8>) -> bool {
    match zlib_inflated(data) {
        Some(d) => payload_wf(d),
        None => false,
    }
}

/// What zlib inflation yields for a byte sequence, or nothing when the
/// stream is not a valid zlib stream: a function of the bytes alone.
pub uninterp spec fn zlib_inflated(data: Seq<u8>) -> Option<Seq<u8>>;

/// Relies on miniz_oxide's decompress_to_vec_zlib: whether inflation
/// succeeds, and what it yields, depend on the input bytes alone.
#[verifier::external_body]
pub(crate) fn inflate_zlib(data: &Vec<u8>) -> (r: Option<Vec<u8>>)
    ensures
        match r {
            Some(v) => zlib_inflated(data@) == Some(v@),
            None => zlib_inflated(data@) is None,
        },
{
    miniz_oxide::inflate::decompress_to_vec_zlib(data.as_slice()).ok()
}

/// Copies `len` bytes of `d` starting at `start` into a fresh vector.
pub(crate) fn sub_vec(d: &Vec<u8>, start: usize, len: usize) -> (r: Vec<u8>)
    requires
        start + len <= d@.len(),
    ensures
        r@ == d@.subrange(start as int, start as int + len as int),
{
    let mut r: Vec<u8> = Vec::new();
    let dn = d.len();
    let mut i: usize = 0;
    while i < len
        invariant
            i <= len,
            dn == d@.len(),
            start + len <= dn,
            r@.len() == i,
            forall|j: int| 0 <= j < i ==> r@[j] == d@[start + j],
        decreases len - i,
    {
        r.push(d[start + i]);
        i = i + 1;
    }
    proof {
        assert(r@ =~= d@.subrange(start as int, start as int + len as int));
    }
    r
}

} // verus!
