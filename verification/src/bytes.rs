//! Little-endian fields of the packets that Bluetooth sends.

use vstd::prelude::*;

verus! {

/// The number in two bytes, low byte first.
pub open spec fn word_of(lo: u8, hi: u8) -> u16 {
    (lo as int + 256 * (hi as int)) as u16
}

/// The low byte of a number.
pub open spec fn low(w: u16) -> u8 {
    (w as int % 256) as u8
}

/// The high byte of a number.
pub open spec fn high(w: u16) -> u8 {
    (w as int / 256) as u8
}

/// The two bytes of a number, low byte first.
pub open spec fn word_bytes(w: u16) -> Seq<u8> {
    seq![low(w), high(w)]
}

/// The number in three bytes, low byte first.
pub open spec fn triple_of(a: u8, b: u8, c: u8) -> u32 {
    (a as int + 256 * (b as int) + 65_536 * (c as int)) as u32
}

/// The number in four bytes, low byte first.
pub open spec fn quad_of(a: u8, b: u8, c: u8, d: u8) -> u32 {
    (a as int + 256 * (b as int) + 65_536 * (c as int) + 16_777_216 * (d as int)) as u32
}

/// The number in bytes, low byte first.
pub open spec fn number_in(s: Seq<u8>) -> nat
    decreases s.len(),
{
    if s.len() == 0 {
        0
    } else {
        s[0] as nat + 256 * number_in(s.skip(1))
    }
}

/// One more than the highest number that `n` bytes hold.
pub open spec fn byte_range(n: nat) -> nat
    decreases n,
{
    if n == 0 {
        1
    } else {
        256 * byte_range((n - 1) as nat)
    }
}

/// The number in the sixteen bytes at a place.
pub fn wide(bytes: &[u8], at: usize) -> (r: u128)
    requires
        at + 16 <= bytes@.len(),
    ensures
        r == number_in(bytes@.subrange(at as int, at + 16)),
{
    let mut sum: u128 = 0;
    let mut i: usize = 16;
    let end: usize = bytes.len();
    while i > 0
        invariant
            i <= 16,
            at + 16 <= bytes@.len(),
            bytes@.len() == end,
            sum == number_in(bytes@.subrange(at + i, at + 16)),
            sum < byte_range((16 - i) as nat),
        decreases i,
    {
        proof {
            reveal_with_fuel(byte_range, 17);
            let longer = bytes@.subrange(at + i - 1, at + 16);
            assert(longer.skip(1) =~= bytes@.subrange(at + i, at + 16));
            assert(byte_range((16 - i) as nat) <= byte_range(15));
        }
        sum = bytes[at + i - 1] as u128 + 256 * sum;
        i -= 1;
    }
    sum
}

/// The word at a place in a packet.
pub open spec fn word_at(s: Seq<u8>, i: int) -> u16 {
    word_of(s[i], s[i + 1])
}

/// Two bytes carry a number and give it back.
pub proof fn lemma_word(w: u16)
    ensures
        word_of(low(w), high(w)) == w,
{
}

/// A number is told by its two bytes.
pub proof fn lemma_word_bytes(lo: u8, hi: u8)
    ensures
        low(word_of(lo, hi)) == lo,
        high(word_of(lo, hi)) == hi,
{
}

pub fn word(lo: u8, hi: u8) -> (r: u16)
    ensures
        r == word_of(lo, hi),
{
    lo as u16 + 256 * (hi as u16)
}

pub fn triple(a: u8, b: u8, c: u8) -> (r: u32)
    ensures
        r == triple_of(a, b, c),
{
    a as u32 + 256 * (b as u32) + 65_536 * (c as u32)
}

pub fn quad(a: u8, b: u8, c: u8, d: u8) -> (r: u32)
    ensures
        r == quad_of(a, b, c, d),
{
    a as u32 + 256 * (b as u32) + 65_536 * (c as u32) + 16_777_216 * (d as u32)
}

pub fn low_byte(w: u16) -> (r: u8)
    ensures
        r == low(w),
{
    (w % 256) as u8
}

pub fn high_byte(w: u16) -> (r: u8)
    ensures
        r == high(w),
{
    (w / 256) as u8
}

/// Adds the two bytes of a number.
pub fn push_word(out: &mut Vec<u8>, w: u16)
    ensures
        final(out)@ == old(out)@ + word_bytes(w),
{
    let ghost was = out@;
    out.push(low_byte(w));
    out.push(high_byte(w));
    assert(out@ =~= was + word_bytes(w));
}

/// Adds `bytes[from..to]`.
pub fn push_part(out: &mut Vec<u8>, bytes: &[u8], from: usize, to: usize)
    requires
        from <= to <= bytes@.len(),
    ensures
        final(out)@ == old(out)@ + bytes@.subrange(from as int, to as int),
{
    let ghost was = out@;
    let mut i: usize = from;
    assert(out@ =~= was + bytes@.subrange(from as int, from as int));
    while i < to
        invariant
            from <= i <= to <= bytes@.len(),
            out@ == was + bytes@.subrange(from as int, i as int),
        decreases to - i,
    {
        out.push(bytes[i]);
        assert(out@ =~= was + bytes@.subrange(from as int, i + 1));
        i += 1;
    }
}

/// `bytes[from..to]` by itself.
pub fn part(bytes: &[u8], from: usize, to: usize) -> (r: Vec<u8>)
    requires
        from <= to <= bytes@.len(),
    ensures
        r@ == bytes@.subrange(from as int, to as int),
{
    let mut out: Vec<u8> = Vec::new();
    push_part(&mut out, bytes, from, to);
    assert(out@ =~= bytes@.subrange(from as int, to as int));
    out
}

/// A copy of the bytes.
pub fn copied(bytes: &[u8]) -> (r: Vec<u8>)
    ensures
        r@ == bytes@,
{
    let r = part(bytes, 0, bytes.len());
    assert(bytes@.subrange(0, bytes@.len() as int) =~= bytes@);
    r
}

/// What a list of packets holds.
pub open spec fn packets(v: Seq<Vec<u8>>) -> Seq<Seq<u8>> {
    v.map_values(|p: Vec<u8>| p@)
}

/// Whether a byte is among others.
pub fn holds_byte(bytes: &[u8], wanted: u8) -> (r: bool)
    ensures
        r == bytes@.contains(wanted),
{
    let mut i: usize = 0;
    while i < bytes.len()
        invariant
            i <= bytes@.len(),
            forall|j: int| 0 <= j < i ==> bytes@[j] != wanted,
        decreases bytes@.len() - i,
    {
        if bytes[i] == wanted {
            return true;
        }
        i += 1;
    }
    false
}

/// Whether a number is among others.
pub fn holds_word(words: &[u16], wanted: u16) -> (r: bool)
    ensures
        r == words@.contains(wanted),
{
    let mut i: usize = 0;
    while i < words.len()
        invariant
            i <= words@.len(),
            forall|j: int| 0 <= j < i ==> words@[j] != wanted,
        decreases words@.len() - i,
    {
        if words[i] == wanted {
            return true;
        }
        i += 1;
    }
    false
}

/// A copy of numbers.
pub fn copied_words(words: &[u16]) -> (r: Vec<u16>)
    ensures
        r@ == words@,
{
    let mut out: Vec<u16> = Vec::new();
    let mut i: usize = 0;
    while i < words.len()
        invariant
            i <= words@.len(),
            out@ == words@.take(i as int),
        decreases words@.len() - i,
    {
        out.push(words[i]);
        assert(out@ =~= words@.take(i + 1));
        i += 1;
    }
    assert(words@.take(words@.len() as int) =~= words@);
    out
}

} // verus!
