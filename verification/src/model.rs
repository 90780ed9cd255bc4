//! The mathematical model of SHA-1.
//!
//! A message is a sequence of booleans, most significant bit first. The spec
//! functions here define the message schedule, the 80-round compression
//! function, length padding, and the digest of a whole message; the engine in
//! `engine` is verified against them.

use vstd::prelude::*;

verus! {

/// The five-word chaining value carried between blocks.
pub struct Chain {
    pub a: u32,
    pub b: u32,
    pub c: u32,
    pub d: u32,
    pub e: u32,
}

/// The fixed SHA-1 initial chaining value.
pub open spec fn init_chain() -> Chain {
    Chain {
        a: 0x67452301u32,
        b: 0xEFCDAB89u32,
        c: 0x98BADCFEu32,
        d: 0x10325476u32,
        e: 0xC3D2E1F0u32,
    }
}

/// Circular left shift of a 32-bit word.
pub open spec fn rotl(x: u32, n: u32) -> u32
    recommends
        0 < n < 32,
{
    (x << n) | (x >> ((32 - n) as u32))
}

/// The round-dependent nonlinear function of the middle three words.
pub open spec fn round_f(i: int, b: u32, c: u32, d: u32) -> u32 {
    if i < 20 {
        (b & c) | ((!b) & d)
    } else if i < 40 {
        b ^ c ^ d
    } else if i < 60 {
        (b & c) | (b & d) | (c & d)
    } else {
        b ^ c ^ d
    }
}

/// The round-dependent additive constant.
pub open spec fn round_k(i: int) -> u32 {
    if i < 20 {
        0x5A827999u32
    } else if i < 40 {
        0x6ED9EBA1u32
    } else if i < 60 {
        0x8F1BBCDCu32
    } else {
        0xCA62C1D6u32
    }
}

/// Word `i` of the message schedule expanded from the 16 block words `m`.
pub open spec fn sched(m: Seq<u32>, i: int) -> u32
    recommends
        m.len() == 16,
        0 <= i < 80,
    decreases i,
{
    if i < 16 {
        m[i]
    } else {
        rotl(sched(m, i - 3) ^ sched(m, i - 8) ^ sched(m, i - 14) ^ sched(m, i - 16), 1)
    }
}

/// One mixing round: rounds are numbered from 0, and round `i` maps the
/// working variables as the SHA-1 specification prescribes.
pub open spec fn round_step(m: Seq<u32>, i: int, s: Chain) -> Chain {
    let t = s.e.wrapping_add(round_f(i, s.b, s.c, s.d)).wrapping_add(rotl(s.a, 5)).wrapping_add(
        sched(m, i),
    ).wrapping_add(round_k(i));
    Chain { a: t, b: s.a, c: rotl(s.b, 30), d: s.c, e: s.d }
}

/// The working variables after the first `n` rounds, starting from `s`.
pub open spec fn rounds(m: Seq<u32>, n: int, s: Chain) -> Chain
    decreases n,
{
    if n <= 0 {
        s
    } else {
        round_step(m, n - 1, rounds(m, n - 1, s))
    }
}

/// The compression function on a block already split into 16 words: run all
/// 80 rounds, then add the result back onto the incoming chaining value.
pub open spec fn compress_words(s: Chain, m: Seq<u32>) -> Chain
    recommends
        m.len() == 16,
{
    let r = rounds(m, 80, s);
    Chain {
        a: s.a.wrapping_add(r.a),
        b: s.b.wrapping_add(r.b),
        c: s.c.wrapping_add(r.c),
        d: s.d.wrapping_add(r.d),
        e: s.e.wrapping_add(r.e),
    }
}

/// The unsigned value of a bit sequence, most significant bit first, folded
/// into a 32-bit word exactly as a left-shift-and-or loop does.
pub open spec fn word_of_bits(bits: Seq<bool>) -> u32
    recommends
        bits.len() <= 32,
    decreases bits.len(),
{
    if bits.len() == 0 {
        0u32
    } else {
        (word_of_bits(bits.drop_last()) << 1u32) | (if bits.last() {
            1u32
        } else {
            0u32
        })
    }
}

/// The 16 words of a 512-bit block, 32 consecutive bits each.
pub open spec fn block_words(bits: Seq<bool>) -> Seq<u32>
    recommends
        bits.len() == 512,
{
    Seq::new(16, |i: int| word_of_bits(bits.subrange(32 * i, 32 * i + 32)))
}

/// The compression function on a 512-bit block of raw bits.
pub open spec fn compress_block(s: Chain, block: Seq<bool>) -> Chain
    recommends
        block.len() == 512,
{
    compress_words(s, block_words(block))
}

/// Fold the compression function over a whole sequence of complete blocks.
pub open spec fn process_blocks(s: Chain, bits: Seq<bool>) -> Chain
    recommends
        bits.len() % 512 == 0,
    decreases bits.len(),
{
    if bits.len() < 512 {
        s
    } else {
        process_blocks(compress_block(s, bits.take(512)), bits.skip(512))
    }
}

/// The 64 bits of a 64-bit word, most significant first.
pub open spec fn u64_bits_be(x: u64) -> Seq<bool> {
    Seq::new(64, |i: int| (x >> ((63 - i) as u64)) & 1u64 == 1u64)
}

/// How many zero bits padding appends after the leading one bit, for a
/// message of `len` bits: enough to land on 448 modulo 512.
pub open spec fn pad_zero_count(len: nat) -> nat {
    ((960 - ((len % 512) + 1)) % 512) as nat
}

/// The padding appended to a message of `len` bits: a one bit, zero bits to
/// 448 modulo 512, then the message length as a 64-bit big-endian field.
pub open spec fn padding_of(len: nat) -> Seq<bool>
    recommends
        len < 0x1_0000_0000_0000_0000,
{
    seq![true] + Seq::new(pad_zero_count(len), |i: int| false) + u64_bits_be(len as u64)
}

/// A message followed by its padding: always a whole number of blocks.
pub open spec fn padded(msg: Seq<bool>) -> Seq<bool>
    recommends
        msg.len() < 0x1_0000_0000_0000_0000,
{
    msg + padding_of(msg.len())
}

/// The chaining value after absorbing a whole padded message.
pub open spec fn sha1_chain(msg: Seq<bool>) -> Chain
    recommends
        msg.len() < 0x1_0000_0000_0000_0000,
{
    process_blocks(init_chain(), padded(msg))
}

/// The SHA-1 digest of a message, as five 32-bit words in order.
pub open spec fn sha1_words(msg: Seq<bool>) -> Seq<u32>
    recommends
        msg.len() < 0x1_0000_0000_0000_0000,
{
    let s = sha1_chain(msg);
    seq![s.a, s.b, s.c, s.d, s.e]
}

/// The eight bits of a byte, most significant first.
pub open spec fn byte_bits(x: u8) -> Seq<bool> {
    Seq::new(8, |i: int| (x >> ((7 - i) as u8)) & 1u8 == 1u8)
}

/// The bit expansion of a byte sequence: each byte contributes its eight
/// bits, most significant first, in input order.
pub open spec fn bytes_bits(s: Seq<u8>) -> Seq<bool>
    decreases s.len(),
{
    if s.len() == 0 {
        Seq::empty()
    } else {
        bytes_bits(s.drop_last()) + byte_bits(s.last())
    }
}

/// The lowercase hexadecimal digit for a value below 16.
pub open spec fn hex_digit(n: u32) -> char {
    if n == 0 {
        '0'
    } else if n == 1 {
        '1'
    } else if n == 2 {
        '2'
    } else if n == 3 {
        '3'
    } else if n == 4 {
        '4'
    } else if n == 5 {
        '5'
    } else if n == 6 {
        '6'
    } else if n == 7 {
        '7'
    } else if n == 8 {
        '8'
    } else if n == 9 {
        '9'
    } else if n == 10 {
        'a'
    } else if n == 11 {
        'b'
    } else if n == 12 {
        'c'
    } else if n == 13 {
        'd'
    } else if n == 14 {
        'e'
    } else {
        'f'
    }
}

/// The eight hexadecimal digits of a 32-bit word, most significant first.
pub open spec fn word_hex(w: u32) -> Seq<char> {
    Seq::new(8, |i: int| hex_digit((w >> ((4 * (7 - i)) as u32)) & 0xfu32))
}

/// A word sequence rendered as lowercase hexadecimal text, in order.
pub open spec fn words_hex(ws: Seq<u32>) -> Seq<char>
    decreases ws.len(),
{
    if ws.len() == 0 {
        Seq::empty()
    } else {
        words_hex(ws.drop_last()) + word_hex(ws.last())
    }
}

/// Absorbing `x + y` is absorbing `x`, then `y`, when `x` is whole blocks.
pub proof fn lemma_process_blocks_append(s: Chain, x: Seq<bool>, y: Seq<bool>)
    requires
        x.len() % 512 == 0,
    ensures
        process_blocks(s, x + y) == process_blocks(process_blocks(s, x), y),
    decreases x.len(),
{
    if x.len() == 0 {
        assert(x + y =~= y);
    } else {
        assert(x.len() >= 512);
        assert((x + y).take(512) =~= x.take(512));
        assert((x + y).skip(512) =~= x.skip(512) + y);
        assert(x.skip(512).len() % 512 == 0);
        lemma_process_blocks_append(compress_block(s, x.take(512)), x.skip(512), y);
    }
}

/// Absorbing one more complete block applies the compression function once.
pub proof fn lemma_process_blocks_snoc(s: Chain, x: Seq<bool>, b: Seq<bool>)
    requires
        x.len() % 512 == 0,
        b.len() == 512,
    ensures
        process_blocks(s, x + b) == compress_block(process_blocks(s, x), b),
{
    lemma_process_blocks_append(s, x, b);
    let t = process_blocks(s, x);
    assert(b.take(512) =~= b);
    assert(b.skip(512) =~= Seq::<bool>::empty());
    assert(process_blocks(t, b) == process_blocks(compress_block(t, b), b.skip(512)));
    assert(process_blocks(compress_block(t, b), b.skip(512)) == compress_block(t, b));
}

} // verus!
