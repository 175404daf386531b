use vstd::prelude::*;
use vstd::arithmetic::div_mod::{lemma_add_mod_noop, lemma_small_mod};
use crate::bytes::{be32_at, be32_bytes, lemma_be32_roundtrip};

verus! {

/// The value that the OpenType specification requires every standalone sfnt to sum to.
pub const SFNT_CHECKSUM_MAGIC: u32 = 0xB1B0_AFBA;

/// The byte at `i` of `s`, or zero past its end (the padding of the last word).
pub open spec fn byte_or_zero(s: Seq<u8>, i: int) -> int {
    if 0 <= i < s.len() {
        s[i] as int
    } else {
        0
    }
}

/// The `j`-th big-endian 32-bit word of `s`, its missing bytes taken as zero.
pub open spec fn word_at(s: Seq<u8>, j: int) -> int {
    byte_or_zero(s, 4 * j) * 0x100_0000 + byte_or_zero(s, 4 * j + 1) * 0x1_0000
        + byte_or_zero(s, 4 * j + 2) * 0x100 + byte_or_zero(s, 4 * j + 3)
}

/// How many 32-bit words `s` spans, the last one possibly partial.
pub open spec fn word_count(s: Seq<u8>) -> nat {
    ((s.len() + 3) / 4) as nat
}

/// The sum of the first `n` words of `s`, as an unbounded integer.
pub open spec fn words_sum(s: Seq<u8>, n: nat) -> int
    decreases n,
{
    if n == 0 {
        0
    } else {
        words_sum(s, (n - 1) as nat) + word_at(s, n - 1)
    }
}

/// The sfnt checksum of `s`: the sum of all its words modulo 2^32.
pub open spec fn spec_sfnt_checksum(s: Seq<u8>) -> u32 {
    (words_sum(s, word_count(s)) % 0x1_0000_0000) as u32
}

/// `s` with the four bytes at `at` replaced by the big-endian bytes of `v`.
pub open spec fn put_be32(s: Seq<u8>, at: int, v: u32) -> Seq<u8> {
    s.take(at) + be32_bytes(v) + s.skip(at + 4)
}

/// The adjustment that makes a font whose adjustment field holds zero sum to the magic value.
pub open spec fn adjustment_for(cleared: Seq<u8>) -> u32 {
    ((SFNT_CHECKSUM_MAGIC - spec_sfnt_checksum(cleared)) % 0x1_0000_0000) as u32
}

/// `s` with its checksum adjustment field at `at` recomputed: the field is cleared, the
/// checksum of the result taken, and the field set to the magic value minus that checksum.
#[verifier::opaque]
pub open spec fn with_checksum_adjustment(s: Seq<u8>, at: int) -> Seq<u8> {
    let cleared = put_be32(s, at, 0);
    put_be32(cleared, at, adjustment_for(cleared))
}

/// The sum of all big-endian words of `data`, a partial last word padded with zero bytes,
/// modulo 2^32.
pub fn sfnt_checksum(data: &[u8]) -> (sum: u32)
    ensures
        sum == spec_sfnt_checksum(data@),
{
    let len = data.len();
    let mut sum: u32 = 0;
    let mut i: usize = 0;
    while i < len
        invariant
            len == data@.len(),
            i <= len,
            i < len ==> i % 4 == 0,
            sum as int == words_sum(data@, ((i + 3) / 4) as nat) % 0x1_0000_0000,
        decreases len - i,
    {
        let b0 = data[i] as u32;
        let b1: u32 = if len - i > 1 { data[i + 1] as u32 } else { 0 };
        let b2: u32 = if len - i > 2 { data[i + 2] as u32 } else { 0 };
        let b3: u32 = if len - i > 3 { data[i + 3] as u32 } else { 0 };
        let word: u32 = b0 * 0x100_0000 + b1 * 0x1_0000 + b2 * 0x100 + b3;
        let ghost j: int = i as int / 4;
        proof {
            assert(4 * j == i);
            assert(word == word_at(data@, j));
            let w = words_sum(data@, j as nat);
            assert(((i + 3) / 4) as nat == j as nat);
            assert(words_sum(data@, (j + 1) as nat) == w + word);
            lemma_add_mod_noop(w, word as int, 0x1_0000_0000);
            lemma_small_mod(word as nat, 0x1_0000_0000);
            lemma_small_mod(sum as nat, 0x1_0000_0000);
        }
        sum = sum.wrapping_add(word);
        if len - i <= 4 {
            i = len;
        } else {
            i = i + 4;
        }
        assert(((i + 3) / 4) as nat == (j + 1) as nat);
    }
    sum
}

/// Byte by byte, what `put_be32` leaves in place and what it writes.
pub proof fn lemma_put_be32_bytes(s: Seq<u8>, at: int, v: u32)
    requires
        0 <= at,
        at + 4 <= s.len(),
    ensures
        put_be32(s, at, v).len() == s.len(),
        forall|i: int|
            0 <= i < s.len() ==> #[trigger] put_be32(s, at, v)[i] == if at <= i < at + 4 {
                be32_bytes(v)[i - at]
            } else {
                s[i]
            },
{
}

/// Writing a word at a word-aligned position changes the running sum by the difference of
/// the new and the old word, and only once the sum reaches that word.
proof fn lemma_words_sum_put(s: Seq<u8>, at: int, v: u32, n: nat)
    requires
        0 <= at,
        at % 4 == 0,
        at + 4 <= s.len(),
    ensures
        words_sum(put_be32(s, at, v), n) == words_sum(s, n) + if n > at / 4 {
            v - word_at(s, at / 4)
        } else {
            0
        },
    decreases n,
{
    let t = put_be32(s, at, v);
    lemma_put_be32_bytes(s, at, v);
    if n > 0 {
        lemma_words_sum_put(s, at, v, (n - 1) as nat);
        let j = n - 1;
        if j == at / 4 {
            lemma_be32_roundtrip(v);
            let b = be32_bytes(v);
            assert(t[at] == b[0]);
            assert(t[at + 1] == b[1]);
            assert(t[at + 2] == b[2]);
            assert(t[at + 3] == b[3]);
            assert(word_at(t, j) == be32_at(b, 0));
        } else {
            assert(byte_or_zero(t, 4 * j) == byte_or_zero(s, 4 * j));
            assert(byte_or_zero(t, 4 * j + 1) == byte_or_zero(s, 4 * j + 1));
            assert(byte_or_zero(t, 4 * j + 2) == byte_or_zero(s, 4 * j + 2));
            assert(byte_or_zero(t, 4 * j + 3) == byte_or_zero(s, 4 * j + 3));
        }
    }
}

/// A font whose checksum adjustment field sits on a word boundary sums to the magic value
/// once that field has been recomputed.
pub proof fn lemma_adjusted_checksum_is_magic(s: Seq<u8>, at: int)
    requires
        0 <= at,
        at % 4 == 0,
        at + 4 <= s.len(),
    ensures
        spec_sfnt_checksum(with_checksum_adjustment(s, at)) == SFNT_CHECKSUM_MAGIC,
{
    reveal(with_checksum_adjustment);
    let m: int = 0x1_0000_0000;
    let cleared = put_be32(s, at, 0);
    lemma_put_be32_bytes(s, at, 0);
    let a = adjustment_for(cleared);
    let t = put_be32(cleared, at, a);
    lemma_put_be32_bytes(cleared, at, a);
    let n = word_count(s);
    assert(word_count(cleared) == n);
    assert(word_count(t) == n);
    lemma_words_sum_put(cleared, at, a, n);
    lemma_be32_roundtrip(0);
    let b = be32_bytes(0);
    assert(cleared[at] == b[0]);
    assert(cleared[at + 1] == b[1]);
    assert(cleared[at + 2] == b[2]);
    assert(cleared[at + 3] == b[3]);
    assert(word_at(cleared, at / 4) == be32_at(b, 0));
    let w = words_sum(cleared, n);
    assert(words_sum(t, n) == w + a);
    let c = spec_sfnt_checksum(cleared);
    assert(c == w % m);
    assert(a == (SFNT_CHECKSUM_MAGIC - c) % m);
    lemma_add_mod_noop(w, a as int, m);
    lemma_small_mod(a as nat, m as nat);
    assert((w + a) % m == (c + a) % m);
    lemma_add_mod_noop(c as int, SFNT_CHECKSUM_MAGIC - c, m);
    lemma_small_mod(c as nat, m as nat);
    lemma_small_mod(SFNT_CHECKSUM_MAGIC as nat, m as nat);
}

/// Recomputing the checksum adjustment keeps the length of the font.
pub proof fn lemma_with_checksum_adjustment_len(s: Seq<u8>, at: int)
    requires
        0 <= at,
        at + 4 <= s.len(),
    ensures
        with_checksum_adjustment(s, at).len() == s.len(),
{
    reveal(with_checksum_adjustment);
    lemma_put_be32_bytes(s, at, 0);
    let cleared = put_be32(s, at, 0);
    lemma_put_be32_bytes(cleared, at, adjustment_for(cleared));
}

/// Recomputes the whole-font checksum adjustment of the `head` table that starts at
/// `head_offset` and is `head_length` bytes long. Fails, leaving `font` unchanged, where the
/// table is too short to hold the field or the field does not lie inside `font`.
pub fn set_checksum_adjustment(font: &mut [u8], head_offset: usize, head_length: usize) -> (r:
    Result<(), ()>)
    ensures
        r is Ok <==> head_length >= 12 && head_offset + 12 <= old(font)@.len(),
        r is Ok ==> final(font)@ == with_checksum_adjustment(old(font)@, head_offset + 8),
        r is Err ==> final(font)@ == old(font)@,
{
    let len = font.len();
    if head_length < 12 {
        return Err(());
    }
    let adjustment_offset = match head_offset.checked_add(8) {
        Some(o) => o,
        None => return Err(()),
    };
    let adjustment_end = match adjustment_offset.checked_add(4) {
        Some(e) => e,
        None => return Err(()),
    };
    if adjustment_end > len {
        return Err(());
    }
    let ghost at: int = adjustment_offset as int;
    let ghost before = font@;
    font[adjustment_offset] = 0;
    font[adjustment_offset + 1] = 0;
    font[adjustment_offset + 2] = 0;
    font[adjustment_offset + 3] = 0;
    proof {
        assert(font@ =~= put_be32(before, at, 0));
    }
    let ghost cleared = font@;
    let checksum = sfnt_checksum(font);
    let adjustment = SFNT_CHECKSUM_MAGIC.wrapping_sub(checksum);
    assert(adjustment == adjustment_for(cleared));
    font[adjustment_offset] = (adjustment / 0x100_0000) as u8;
    font[adjustment_offset + 1] = ((adjustment / 0x1_0000) % 0x100) as u8;
    font[adjustment_offset + 2] = ((adjustment / 0x100) % 0x100) as u8;
    font[adjustment_offset + 3] = (adjustment % 0x100) as u8;
    proof {
        assert(font@ =~= put_be32(cleared, at, adjustment));
        reveal(with_checksum_adjustment);
    }
    Ok(())
}

/// The words of `s` are the first words of `s + t` when `s` is a whole number of words.
proof fn lemma_words_sum_prefix(s: Seq<u8>, t: Seq<u8>, n: nat)
    requires
        s.len() % 4 == 0,
        4 * n <= s.len(),
    ensures
        words_sum(s + t, n) == words_sum(s, n),
    decreases n,
{
    if n > 0 {
        lemma_words_sum_prefix(s, t, (n - 1) as nat);
        let j = n - 1;
        assert(byte_or_zero(s + t, 4 * j) == byte_or_zero(s, 4 * j));
        assert(byte_or_zero(s + t, 4 * j + 1) == byte_or_zero(s, 4 * j + 1));
        assert(byte_or_zero(s + t, 4 * j + 2) == byte_or_zero(s, 4 * j + 2));
        assert(byte_or_zero(s + t, 4 * j + 3) == byte_or_zero(s, 4 * j + 3));
    }
}

/// The words of `s + t` past those of `s` are the words of `t`.
proof fn lemma_words_sum_suffix(s: Seq<u8>, t: Seq<u8>, n: nat)
    requires
        s.len() % 4 == 0,
    ensures
        words_sum(s + t, (s.len() / 4 + n) as nat) == words_sum(s, (s.len() / 4) as nat)
            + words_sum(t, n),
    decreases n,
{
    let w = s.len() / 4;
    if n == 0 {
        lemma_words_sum_prefix(s, t, w as nat);
    } else {
        lemma_words_sum_suffix(s, t, (n - 1) as nat);
        let j = n - 1;
        let st = s + t;
        assert(4 * (w + j) == s.len() + 4 * j);
        assert(byte_or_zero(st, 4 * (w + j)) == byte_or_zero(t, 4 * j));
        assert(byte_or_zero(st, 4 * (w + j) + 1) == byte_or_zero(t, 4 * j + 1));
        assert(byte_or_zero(st, 4 * (w + j) + 2) == byte_or_zero(t, 4 * j + 2));
        assert(byte_or_zero(st, 4 * (w + j) + 3) == byte_or_zero(t, 4 * j + 3));
        assert(word_at(st, w + j) == word_at(t, j));
    }
}

/// The checksum of a single word is that word read big-endian.
pub proof fn lemma_checksum_of_word(b: Seq<u8>)
    requires
        b.len() == 4,
    ensures
        spec_sfnt_checksum(b) == be32_at(b, 0),
{
    assert(word_count(b) == 1);
    assert(words_sum(b, 0) == 0);
    assert(words_sum(b, 1) == words_sum(b, 0) + word_at(b, 0));
    assert(word_at(b, 0) == be32_at(b, 0));
    lemma_small_mod(be32_at(b, 0) as nat, 0x1_0000_0000);
}

/// The checksum of the empty font is zero.
pub proof fn lemma_checksum_of_nothing()
    ensures
        spec_sfnt_checksum(Seq::<u8>::empty()) == 0,
{
}

/// Checksums add, modulo 2^32, over a concatenation whose first part is a whole number of
/// words.
pub proof fn lemma_checksum_concat(s: Seq<u8>, t: Seq<u8>)
    requires
        s.len() % 4 == 0,
    ensures
        spec_sfnt_checksum(s + t) == (spec_sfnt_checksum(s) + spec_sfnt_checksum(t))
            % 0x1_0000_0000,
{
    let m: int = 0x1_0000_0000;
    let ws = s.len() / 4;
    let wt = word_count(t);
    assert(word_count(s) == ws);
    assert(word_count(s + t) == ws + wt);
    lemma_words_sum_suffix(s, t, wt);
    let a = words_sum(s, ws as nat);
    let b = words_sum(t, wt);
    lemma_add_mod_noop(a, b, m);
}

} // verus!

