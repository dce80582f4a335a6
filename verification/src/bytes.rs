//! Reading multi-byte machine words and NUL-terminated strings out of a
//! byte buffer, in either byte order. These are the primitives the ELF
//! decoder is built on; every multi-byte field of an image is read with the
//! image's own endianness.

use crate::summarize::Endianness;
use vstd::prelude::*;

verus! {

/// The value of `n` bytes at `off` read as a little-endian word.
pub open spec fn word_le(b: Seq<u8>, off: int, n: int) -> int
    decreases n,
{
    if n <= 0 {
        0
    } else {
        b[off] + 256 * word_le(b, off + 1, n - 1)
    }
}

/// The value of `n` bytes at `off` read as a big-endian word.
pub open spec fn word_be(b: Seq<u8>, off: int, n: int) -> int
    decreases n,
{
    if n <= 0 {
        0
    } else {
        256 * word_be(b, off, n - 1) + b[off + n - 1]
    }
}

/// The value of `n` bytes at `off` read in byte order `e`.
pub open spec fn word(b: Seq<u8>, off: int, n: int, e: Endianness) -> int {
    match e {
        Endianness::Little => word_le(b, off, n),
        Endianness::Big => word_be(b, off, n),
    }
}

/// 256 to the power `n`.
pub open spec fn pow256(n: int) -> int
    decreases n,
{
    if n <= 0 {
        1
    } else {
        256 * pow256(n - 1)
    }
}

pub proof fn lemma_pow256_values()
    ensures
        pow256(1) == 0x100,
        pow256(2) == 0x10000,
        pow256(4) == 0x100000000,
        pow256(8) == 0x10000000000000000,
{
    assert(pow256(0) == 1);
    assert(pow256(1) == 0x100);
    assert(pow256(2) == 0x10000);
    assert(pow256(3) == 0x1000000);
    assert(pow256(4) == 0x100000000);
    assert(pow256(5) == 0x10000000000);
    assert(pow256(6) == 0x1000000000000);
    assert(pow256(7) == 0x100000000000000);
    assert(pow256(8) == 0x10000000000000000);
}

pub proof fn lemma_pow256_mono(m: int, n: int)
    requires
        0 <= m <= n,
    ensures
        pow256(m) <= pow256(n),
    decreases n,
{
    if m < n {
        lemma_pow256_mono(m, n - 1);
        assert(pow256(n - 1) >= 1) by {
            lemma_pow256_pos(n - 1);
        }
    }
}

pub proof fn lemma_pow256_pos(n: int)
    ensures
        pow256(n) >= 1,
    decreases n,
{
    if n > 0 {
        lemma_pow256_pos(n - 1);
    }
}

/// A little-endian word of `n` bytes lies below `pow256(n)`.
pub proof fn lemma_word_le_bound(b: Seq<u8>, off: int, n: int)
    ensures
        0 <= word_le(b, off, n) < pow256(if n <= 0 { 0 } else { n }),
    decreases n,
{
    if n > 0 {
        lemma_word_le_bound(b, off + 1, n - 1);
    }
}

/// A big-endian word of `n` bytes lies below `pow256(n)`.
pub proof fn lemma_word_be_bound(b: Seq<u8>, off: int, n: int)
    ensures
        0 <= word_be(b, off, n) < pow256(if n <= 0 { 0 } else { n }),
    decreases n,
{
    if n > 0 {
        lemma_word_be_bound(b, off, n - 1);
    }
}

/// A word of `n` bytes lies below `pow256(n)`.
pub proof fn lemma_word_bound(b: Seq<u8>, off: int, n: int, e: Endianness)
    ensures
        0 <= word(b, off, n, e) < pow256(if n <= 0 { 0 } else { n }),
{
    lemma_word_le_bound(b, off, n);
    lemma_word_be_bound(b, off, n);
}

/// Reads the `n`-byte word at `off` in byte order `e`.
pub fn read_word(b: &Vec<u8>, off: usize, n: usize, e: Endianness) -> (r: u64)
    requires
        n <= 8,
        off + n <= b@.len(),
    ensures
        r as int == word(b@, off as int, n as int, e),
{
    proof {
        lemma_pow256_values();
    }
    let blen: usize = b.len();
    match e {
        Endianness::Little => {
            let mut r: u64 = 0;
            let mut i: usize = n;
            while i > 0
                invariant
                    i <= n <= 8,
                    off + n <= b@.len(),
                    off + n <= usize::MAX,
                    r as int == word_le(b@, off + i, n - i),
                decreases i,
            {
                proof {
                    lemma_word_le_bound(b@, off + i, n - i);
                    lemma_pow256_mono(n - i, 7);
                    lemma_pow256_values();
                }
                i = i - 1;
                r = r * 256 + (b[off + i] as u64);
            }
            r
        },
        Endianness::Big => {
            let mut r: u64 = 0;
            let mut i: usize = 0;
            while i < n
                invariant
                    i <= n <= 8,
                    off + n <= b@.len(),
                    off + n <= usize::MAX,
                    r as int == word_be(b@, off as int, i as int),
                decreases n - i,
            {
                proof {
                    lemma_word_be_bound(b@, off as int, i as int);
                    lemma_pow256_mono(i as int, 7);
                    lemma_pow256_values();
                }
                r = r * 256 + (b[off + i] as u64);
                i = i + 1;
            }
            r
        },
    }
}

/// The index of the first NUL byte in `[lo, hi)`, or `hi` if there is none.
pub open spec fn nul_pos(b: Seq<u8>, lo: int, hi: int) -> int
    decreases hi - lo,
{
    if lo >= hi {
        hi
    } else if b[lo] == 0 {
        lo
    } else {
        nul_pos(b, lo + 1, hi)
    }
}

/// Whether `[lo, hi)` holds a NUL byte.
pub open spec fn has_nul(b: Seq<u8>, lo: int, hi: int) -> bool {
    nul_pos(b, lo, hi) < hi
}

/// The bytes from `lo` up to the first NUL before `hi`.
pub open spec fn cstr_at(b: Seq<u8>, lo: int, hi: int) -> Seq<u8> {
    b.subrange(lo, nul_pos(b, lo, hi))
}

pub proof fn lemma_nul_pos(b: Seq<u8>, lo: int, hi: int)
    requires
        lo <= hi,
    ensures
        lo <= nul_pos(b, lo, hi) <= hi,
        nul_pos(b, lo, hi) < hi ==> b[nul_pos(b, lo, hi)] == 0,
        forall|j: int| lo <= j < nul_pos(b, lo, hi) ==> b[j] != 0,
    decreases hi - lo,
{
    if lo < hi && b[lo] != 0 {
        lemma_nul_pos(b, lo + 1, hi);
    }
}

/// Scans `[lo, hi)` for a NUL terminator and copies out the bytes before
/// it; `None` when the range holds no NUL.
pub fn read_cstr(b: &Vec<u8>, lo: usize, hi: usize) -> (r: Option<Vec<u8>>)
    requires
        lo <= hi <= b@.len(),
    ensures
        r is Some <==> has_nul(b@, lo as int, hi as int),
        r matches Some(v) ==> v@ == cstr_at(b@, lo as int, hi as int),
{
    proof {
        lemma_nul_pos(b@, lo as int, hi as int);
    }
    let ghost np = nul_pos(b@, lo as int, hi as int);
    let mut p = lo;
    while p < hi && b[p] != 0
        invariant
            lo <= p <= hi <= b@.len(),
            np == nul_pos(b@, lo as int, hi as int),
            lo <= np <= hi,
            p <= np,
            forall|j: int| lo <= j < p ==> b@[j] != 0,
        decreases hi - p,
    {
        proof {
            lemma_nul_pos(b@, lo as int, hi as int);
        }
        p = p + 1;
    }
    if p >= hi {
        assert(!has_nul(b@, lo as int, hi as int)) by {
            lemma_nul_pos(b@, lo as int, hi as int);
        }
        return None;
    }
    assert(p == np) by {
        lemma_nul_pos(b@, lo as int, hi as int);
    }
    let mut v: Vec<u8> = Vec::new();
    let mut j = lo;
    while j < p
        invariant
            lo <= j <= p <= b@.len(),
            v@ == b@.subrange(lo as int, j as int),
        decreases p - j,
    {
        v.push(b[j]);
        assert(v@ =~= b@.subrange(lo as int, j + 1));
        j = j + 1;
    }
    assert(v@ =~= cstr_at(b@, lo as int, hi as int));
    Some(v)
}

} // verus!
