//! Endianness-aware encoding and decoding of machine words.
//!
//! A field of the object file is an `n`-byte word, stored either
//! little-endian or big-endian.  [`word_bytes`] gives the encoding of a
//! value, [`word_val`] reads a value back from a byte sequence, and the
//! round-trip lemmas relate the two.

use vstd::prelude::*;

verus! {

/// 256 to the `n`: the number of values an `n`-byte word can hold.
pub open spec fn pow256(n: nat) -> int
    decreases n,
{
    if n == 0 {
        1
    } else {
        256 * pow256((n - 1) as nat)
    }
}

/// The `n`-byte little-endian encoding of the low `n` bytes of `v`.
pub open spec fn word_le(v: u64, n: nat) -> Seq<u8>
    decreases n,
{
    if n == 0 {
        Seq::empty()
    } else {
        seq![(v % 256) as u8] + word_le(v / 256, (n - 1) as nat)
    }
}

/// The `n`-byte big-endian encoding of the low `n` bytes of `v`.
pub open spec fn word_be(v: u64, n: nat) -> Seq<u8>
    decreases n,
{
    if n == 0 {
        Seq::empty()
    } else {
        word_be(v / 256, (n - 1) as nat) + seq![(v % 256) as u8]
    }
}

/// The `n`-byte encoding of the low `n` bytes of `v` in the given order.
pub open spec fn word_bytes(v: u64, n: nat, little: bool) -> Seq<u8> {
    if little {
        word_le(v, n)
    } else {
        word_be(v, n)
    }
}

/// The value stored little-endian in `s`.
pub open spec fn le_val(s: Seq<u8>) -> int
    decreases s.len(),
{
    if s.len() == 0 {
        0
    } else {
        s[0] + 256 * le_val(s.drop_first())
    }
}

/// The value stored big-endian in `s`.
pub open spec fn be_val(s: Seq<u8>) -> int
    decreases s.len(),
{
    if s.len() == 0 {
        0
    } else {
        256 * be_val(s.drop_last()) + s.last()
    }
}

/// The value stored in `s` in the given byte order.
pub open spec fn word_val(s: Seq<u8>, little: bool) -> int {
    if little {
        le_val(s)
    } else {
        be_val(s)
    }
}

pub proof fn lemma_word_le_len(v: u64, n: nat)
    ensures
        word_le(v, n).len() == n,
    decreases n,
{
    if n > 0 {
        lemma_word_le_len(v / 256, (n - 1) as nat);
    }
}

pub proof fn lemma_word_be_len(v: u64, n: nat)
    ensures
        word_be(v, n).len() == n,
    decreases n,
{
    if n > 0 {
        lemma_word_be_len(v / 256, (n - 1) as nat);
    }
}

pub broadcast proof fn lemma_word_bytes_len(v: u64, n: nat, little: bool)
    ensures
        #[trigger] word_bytes(v, n, little).len() == n,
{
    lemma_word_le_len(v, n);
    lemma_word_be_len(v, n);
}

pub proof fn lemma_pow256_pos(n: nat)
    ensures
        pow256(n) >= 1,
    decreases n,
{
    if n > 0 {
        lemma_pow256_pos((n - 1) as nat);
    }
}

/// Any `u64` fits in eight bytes.
pub proof fn lemma_pow256_8()
    ensures
        pow256(8) == 0x1_0000_0000_0000_0000,
        pow256(4) == 0x1_0000_0000,
        pow256(2) == 0x1_0000,
{
    reveal_with_fuel(pow256, 9);
}

pub proof fn lemma_pow256_mono(m: nat, n: nat)
    requires
        m <= n,
    ensures
        pow256(m) <= pow256(n),
    decreases n,
{
    if m < n {
        lemma_pow256_mono(m, (n - 1) as nat);
        lemma_pow256_pos((n - 1) as nat);
    }
}

/// A stored word is bounded by its width's capacity.
pub proof fn lemma_le_val_bound(s: Seq<u8>)
    ensures
        0 <= le_val(s) < pow256(s.len()),
    decreases s.len(),
{
    if s.len() == 0 {
    } else {
        lemma_le_val_bound(s.drop_first());
    }
}

/// A stored word is bounded by its width's capacity.
pub proof fn lemma_be_val_bound(s: Seq<u8>)
    ensures
        0 <= be_val(s) < pow256(s.len()),
    decreases s.len(),
{
    if s.len() == 0 {
    } else {
        lemma_be_val_bound(s.drop_last());
    }
}

/// A stored word is bounded by its width's capacity.
pub proof fn lemma_word_val_bound(s: Seq<u8>, little: bool)
    ensures
        0 <= word_val(s, little) < pow256(s.len()),
{
    lemma_le_val_bound(s);
    lemma_be_val_bound(s);
}

/// Reading back a little-endian word gives the value reduced modulo the
/// word's capacity.
pub proof fn lemma_le_val_word_le(v: u64, n: nat)
    ensures
        le_val(word_le(v, n)) == v as int % pow256(n),
    decreases n,
{
    if n == 0 {
        assert(v as int % 1 == 0);
    } else {
        let s = word_le(v, n);
        let rest = word_le(v / 256, (n - 1) as nat);
        assert(s.drop_first() =~= rest);
        lemma_le_val_word_le(v / 256, (n - 1) as nat);
        lemma_pow256_pos((n - 1) as nat);
        assert(v as int % (256 * pow256((n - 1) as nat)) == v as int % 256 + 256 * ((v as int
            / 256) % pow256((n - 1) as nat))) by {
            lemma_mod_breakdown_256(v as int, pow256((n - 1) as nat));
        }
    }
}

/// Reading back a big-endian word gives the value reduced modulo the
/// word's capacity.
pub proof fn lemma_be_val_word_be(v: u64, n: nat)
    ensures
        be_val(word_be(v, n)) == v as int % pow256(n),
    decreases n,
{
    if n == 0 {
        assert(v as int % 1 == 0);
    } else {
        let s = word_be(v, n);
        let rest = word_be(v / 256, (n - 1) as nat);
        lemma_word_be_len(v / 256, (n - 1) as nat);
        assert(s.drop_last() =~= rest);
        assert(s.last() == (v % 256) as u8);
        lemma_be_val_word_be(v / 256, (n - 1) as nat);
        lemma_pow256_pos((n - 1) as nat);
        assert(v as int % (256 * pow256((n - 1) as nat)) == v as int % 256 + 256 * ((v as int
            / 256) % pow256((n - 1) as nat))) by {
            lemma_mod_breakdown_256(v as int, pow256((n - 1) as nat));
        }
    }
}

/// For a non-negative `a` and positive `p`:
/// `a % (256 * p) == a % 256 + 256 * ((a / 256) % p)`.
proof fn lemma_mod_breakdown_256(a: int, p: int)
    requires
        a >= 0,
        p >= 1,
    ensures
        a % (256 * p) == a % 256 + 256 * ((a / 256) % p),
{
    vstd::arithmetic::div_mod::lemma_mod_breakdown(a, 256, p);
}

/// A word encoded and read back in the same byte order gives the value
/// reduced modulo the word's capacity; a value that fits comes back as is.
pub proof fn lemma_word_roundtrip(v: u64, n: nat, little: bool)
    ensures
        word_val(word_bytes(v, n, little), little) == v as int % pow256(n),
        v < pow256(n) ==> word_val(word_bytes(v, n, little), little) == v,
    decreases n,
{
    lemma_le_val_word_le(v, n);
    lemma_be_val_word_be(v, n);
    lemma_pow256_pos(n);
    if v < pow256(n) {
        vstd::arithmetic::div_mod::lemma_small_mod(v as nat, pow256(n) as nat);
    }
}

/// Append the `n`-byte little-endian encoding of `v` to `out`.
fn push_word_le(out: &mut Vec<u8>, v: u64, n: usize)
    ensures
        final(out)@ == old(out)@ + word_le(v, n as nat),
    decreases n,
{
    if n == 0 {
        assert(old(out)@ + word_le(v, 0) =~= old(out)@);
    } else {
        out.push((v % 256) as u8);
        push_word_le(out, v / 256, n - 1);
        assert(old(out)@.push((v % 256) as u8) + word_le(v / 256, (n - 1) as nat) =~= old(out)@
            + word_le(v, n as nat));
    }
}

/// Append the `n`-byte big-endian encoding of `v` to `out`.
fn push_word_be(out: &mut Vec<u8>, v: u64, n: usize)
    ensures
        final(out)@ == old(out)@ + word_be(v, n as nat),
    decreases n,
{
    if n == 0 {
        assert(old(out)@ + word_be(v, 0) =~= old(out)@);
    } else {
        push_word_be(out, v / 256, n - 1);
        out.push((v % 256) as u8);
        assert((old(out)@ + word_be(v / 256, (n - 1) as nat)).push((v % 256) as u8) =~= old(out)@
            + word_be(v, n as nat));
    }
}

/// Append the `n`-byte encoding of `v` in the given byte order to `out`.
pub fn push_word(out: &mut Vec<u8>, v: u64, n: usize, little: bool)
    ensures
        final(out)@ == old(out)@ + word_bytes(v, n as nat, little),
{
    if little {
        push_word_le(out, v, n);
    } else {
        push_word_be(out, v, n);
    }
}

/// Read the `n`-byte little-endian word at `off`.
fn read_word_le(bytes: &[u8], off: usize, n: usize) -> (r: u64)
    requires
        n <= 8,
        off + n <= bytes@.len(),
    ensures
        r == le_val(bytes@.subrange(off as int, off + n)),
        r < pow256(n as nat),
    decreases n,
{
    proof {
        lemma_pow256_8();
        lemma_pow256_mono(n as nat, 8);
    }
    let _len = bytes.len();
    if n == 0 {
        assert(bytes@.subrange(off as int, off as int) =~= Seq::<u8>::empty());
        0
    } else {
        let rest = read_word_le(bytes, off + 1, n - 1);
        let b = bytes[off];
        proof {
            let s = bytes@.subrange(off as int, off + n);
            assert(s.drop_first() =~= bytes@.subrange(off + 1, off + n));
            assert(s[0] == bytes@[off as int]);
            lemma_pow256_pos((n - 1) as nat);
        }
        b as u64 + 256 * rest
    }
}

/// Read the `n`-byte big-endian word at `off`.
fn read_word_be(bytes: &[u8], off: usize, n: usize) -> (r: u64)
    requires
        n <= 8,
        off + n <= bytes@.len(),
    ensures
        r == be_val(bytes@.subrange(off as int, off + n)),
        r < pow256(n as nat),
    decreases n,
{
    proof {
        lemma_pow256_8();
        lemma_pow256_mono(n as nat, 8);
    }
    let _len = bytes.len();
    if n == 0 {
        assert(bytes@.subrange(off as int, off as int) =~= Seq::<u8>::empty());
        0
    } else {
        let rest = read_word_be(bytes, off, n - 1);
        let b = bytes[off + n - 1];
        proof {
            let s = bytes@.subrange(off as int, off + n);
            assert(s.drop_last() =~= bytes@.subrange(off as int, off + n - 1));
            assert(s.last() == bytes@[off + n - 1]);
            lemma_pow256_pos((n - 1) as nat);
        }
        256 * rest + b as u64
    }
}

/// Read the `n`-byte word at `off` in the given byte order.
pub fn read_word(bytes: &[u8], off: usize, n: usize, little: bool) -> (r: u64)
    requires
        n <= 8,
        off + n <= bytes@.len(),
    ensures
        r == word_val(bytes@.subrange(off as int, off + n), little),
        r < pow256(n as nat),
{
    if little {
        read_word_le(bytes, off, n)
    } else {
        read_word_be(bytes, off, n)
    }
}

/// Append all of `data` to `out`.
pub fn push_bytes(out: &mut Vec<u8>, data: &[u8])
    ensures
        final(out)@ == old(out)@ + data@,
{
    let n = data.len();
    let mut j: usize = 0;
    while j < n
        invariant
            0 <= j <= n,
            n == data@.len(),
            out@ == old(out)@ + data@.subrange(0, j as int),
        decreases n - j,
    {
        out.push(data[j]);
        assert(old(out)@ + data@.subrange(0, j + 1) =~= (old(out)@ + data@.subrange(
            0,
            j as int,
        )).push(data@[j as int]));
        j = j + 1;
    }
    assert(old(out)@ + data@.subrange(0, n as int) =~= old(out)@ + data@);
}

/// Copy the `n` bytes starting at `off` into a fresh vector.
pub fn copy_range(bytes: &[u8], off: usize, n: usize) -> (v: Vec<u8>)
    requires
        off + n <= bytes@.len(),
    ensures
        v@ == bytes@.subrange(off as int, off + n),
{
    let len = bytes.len();
    let mut v: Vec<u8> = Vec::new();
    let mut j: usize = 0;
    while j < n
        invariant
            0 <= j <= n,
            len == bytes@.len(),
            off + n <= bytes@.len(),
            v@ == bytes@.subrange(off as int, off + j),
        decreases n - j,
    {
        v.push(bytes[off + j]);
        assert(bytes@.subrange(off as int, off + j + 1) =~= bytes@.subrange(
            off as int,
            off + j,
        ).push(bytes@[off + j]));
        j = j + 1;
    }
    v
}

} // verus!
