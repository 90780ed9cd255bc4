//! The streaming engine: buffering, block dispatch, padding, finalization.

use crate::model::block_words;
use crate::model::compress_words;
use crate::model::hex_digit;
use crate::model::init_chain;
use crate::model::lemma_process_blocks_snoc;
use crate::model::pad_zero_count;
use crate::model::padded;
use crate::model::padding_of;
use crate::model::process_blocks;
use crate::model::rotl;
use crate::model::round_f;
use crate::model::round_k;
use crate::model::rounds;
use crate::model::sched;
use crate::model::sha1_chain;
use crate::model::sha1_words;
use crate::model::u64_bits_be;
use crate::model::word_hex;
use crate::model::word_of_bits;
use crate::model::words_hex;
use crate::model::Chain;
use vstd::prelude::*;
use vstd::slice::slice_subrange;
use vstd::string::StringExecFns;

verus! {

/// Append `src[from..to]` to `dst`.
fn push_range(dst: &mut Vec<bool>, src: &[bool], from: usize, to: usize)
    requires
        from <= to <= src@.len(),
    ensures
        final(dst)@ == old(dst)@ + src@.subrange(from as int, to as int),
{
    assert(old(dst)@ + src@.subrange(from as int, from as int) =~= old(dst)@);
    let mut k: usize = from;
    while k < to
        invariant
            from <= k <= to <= src@.len(),
            dst@ == old(dst)@ + src@.subrange(from as int, k as int),
        decreases to - k,
    {
        dst.push(src[k]);
        assert(src@.subrange(from as int, k + 1 as int) =~= src@.subrange(
            from as int,
            k as int,
        ).push(src@[k as int]));
        k = k + 1;
    }
}

/// A streaming SHA-1 engine.
///
/// The abstract state of an engine is the sequence of message bits it has
/// accumulated since construction or the last finalization; `add` appends to
/// it and `finalize` digests it. The view of an engine is that bit sequence.
pub struct SHA1 {
    last_block: Vec<bool>,
    result_a: u32,
    result_b: u32,
    result_c: u32,
    result_d: u32,
    result_e: u32,
    len: u64,
    msg: Ghost<Seq<bool>>,
}

impl View for SHA1 {
    type V = Seq<bool>;

    closed spec fn view(&self) -> Seq<bool> {
        self.msg@
    }
}

impl SHA1 {
    /// The chaining value currently held by the engine.
    pub closed spec fn chain(&self) -> Chain {
        Chain {
            a: self.result_a,
            b: self.result_b,
            c: self.result_c,
            d: self.result_d,
            e: self.result_e,
        }
    }

    /// The engine invariant: the bit counter counts the accumulated bits, the
    /// buffer holds exactly the bits past the last complete block boundary,
    /// and the chaining value is the fold of the compression function over
    /// the complete blocks.
    pub closed spec fn wf(&self) -> bool {
        &&& self.len == self@.len()
        &&& self.last_block@ == self@.skip(self@.len() - (self@.len() % 512))
        &&& self.chain() == process_blocks(
            init_chain(),
            self@.take(self@.len() - (self@.len() % 512)),
        )
    }

    /// A fresh engine: initial chaining value, empty buffer, zero counter.
    pub fn new() -> (s: SHA1)
        ensures
            s.wf(),
            s@ == Seq::<bool>::empty(),
    {
        let s = SHA1 {
            last_block: Vec::new(),
            result_a: 0x67452301,
            result_b: 0xEFCDAB89,
            result_c: 0x98BADCFE,
            result_d: 0x10325476,
            result_e: 0xC3D2E1F0,
            len: 0,
            msg: Ghost(Seq::empty()),
        };
        proof {
            assert(s@.skip(0) =~= Seq::<bool>::empty());
            assert(s@.take(0) =~= Seq::<bool>::empty());
        }
        s
    }

    /// Circular left shift; the shift amount is reduced modulo the word
    /// width, and a reduced amount of zero is excluded so that the right
    /// shift by the complementary amount stays in range.
    fn circular_shift(num: u32, shift: u32) -> (r: u32)
        requires
            shift % 32 != 0,
        ensures
            r == rotl(num, shift % 32),
    {
        let shift: u32 = shift % 32;
        (num << shift) | (num >> (32 - shift))
    }

    /// Run the compression function on one block of 16 words, folding it
    /// into the chaining value. Nothing but the chaining value changes.
    #[verifier::loop_isolation(false)]
    fn calc_block(&mut self, message: &[u32])
        requires
            message@.len() == 16,
        ensures
            final(self).chain() == compress_words(old(self).chain(), message@),
            final(self).last_block@ == old(self).last_block@,
            final(self).len == old(self).len,
            final(self).msg == old(self).msg,
    {
        let ghost st0 = self.chain();
        let ghost m = message@;

        let mut a = self.result_a;
        let mut b = self.result_b;
        let mut c = self.result_c;
        let mut d = self.result_d;
        let mut e = self.result_e;

        let mut w: Vec<u32> = Vec::new();
        for i in 0..16usize
            invariant
                w@.len() == i,
                forall|j: int| 0 <= j < i ==> w@[j] == sched(m, j),
        {
            w.push(message[i]);
        }
        for i in 16..80usize
            invariant
                w@.len() == i,
                forall|j: int| 0 <= j < i ==> w@[j] == sched(m, j),
        {
            let x = w[i - 3] ^ w[i - 8] ^ w[i - 14] ^ w[i - 16];
            let nw = Self::circular_shift(x, 1);
            proof {
                assert(w@[i - 3] == sched(m, i - 3));
                assert(w@[i - 8] == sched(m, i - 8));
                assert(w@[i - 14] == sched(m, i - 14));
                assert(w@[i - 16] == sched(m, i - 16));
                assert(sched(m, i as int) == rotl(x, 1));
            }
            w.push(nw);
        }

        for i in 0..80usize
            invariant
                w@.len() == 80,
                forall|j: int| 0 <= j < 80 ==> w@[j] == sched(m, j),
                (Chain { a, b, c, d, e }) == rounds(m, i as int, st0),
        {
            let (f, k) = if i < 20 {
                ((b & c) | (!b & d), 0x5A827999u32)
            } else if i < 40 {
                (b ^ c ^ d, 0x6ED9EBA1u32)
            } else if i < 60 {
                ((b & c) | (b & d) | (c & d), 0x8F1BBCDCu32)
            } else {
                (b ^ c ^ d, 0xCA62C1D6u32)
            };
            proof {
                assert(f == round_f(i as int, b, c, d));
                assert(k == round_k(i as int));
            }

            let tmp = e.wrapping_add(f).wrapping_add(Self::circular_shift(a, 5)).wrapping_add(
                w[i],
            ).wrapping_add(k);

            e = d;
            d = c;
            c = Self::circular_shift(b, 30);
            b = a;
            a = tmp;
            proof {
                assert((Chain { a, b, c, d, e }) == rounds(m, i + 1, st0));
            }
        }

        self.result_a = self.result_a.wrapping_add(a);
        self.result_b = self.result_b.wrapping_add(b);
        self.result_c = self.result_c.wrapping_add(c);
        self.result_d = self.result_d.wrapping_add(d);
        self.result_e = self.result_e.wrapping_add(e);
        proof {
            assert(self.chain() == compress_words(st0, m));
        }
    }

    /// Fold a bit slice, most significant bit first, into a 32-bit word.
    fn bits2num(bits: &[bool]) -> (r: u32)
        requires
            bits@.len() <= 32,
        ensures
            r == word_of_bits(bits@),
    {
        let mut result: u32 = 0;
        let n: usize = bits.len();
        assert(bits@.take(0) =~= Seq::<bool>::empty());
        for i in 0..n
            invariant
                n == bits@.len() <= 32,
                result == word_of_bits(bits@.take(i as int)),
        {
            let bit: u32 = if bits[i] {
                1
            } else {
                0
            };
            result = (result << 1u32) | bit;
            proof {
                assert(bits@.take(i + 1).drop_last() =~= bits@.take(i as int));
                assert(bits@.take(i + 1).last() == bits@[i as int]);
            }
        }
        assert(bits@.take(n as int) =~= bits@);
        result
    }

    /// Split a 512-bit block into its 16 words.
    fn group_bits(bits: &[bool]) -> (w: Vec<u32>)
        requires
            bits@.len() == 512,
        ensures
            w@ == block_words(bits@),
    {
        let mut w: Vec<u32> = Vec::new();
        for i in 0..16usize
            invariant
                bits@.len() == 512,
                w@.len() == i,
                forall|j: int|
                    0 <= j < i ==> w@[j] == word_of_bits(bits@.subrange(32 * j, 32 * j + 32)),
        {
            let part = slice_subrange(bits, 32 * i, 32 * i + 32);
            w.push(Self::bits2num(part));
        }
        assert(w@ =~= block_words(bits@));
        w
    }

    /// Ingest a chunk of message bits, of any length and alignment.
    ///
    /// The accumulated message grows by exactly the chunk; internally, the
    /// buffer is filled to a block boundary, every complete block is
    /// compressed, and the remainder is buffered.
    #[verifier::loop_isolation(false)]
    pub fn add(&mut self, message: &[bool])
        requires
            old(self).wf(),
            old(self)@.len() + message@.len() < 0x1_0000_0000_0000_0000,
        ensures
            final(self).wf(),
            final(self)@ == old(self)@ + message@,
    {
        let ghost m0 = self@;
        let ghost mm = message@;
        let ghost total = m0 + mm;
        let ghost q0 = m0.len() - (m0.len() % 512);
        proof {
            assert(self.last_block@.len() == m0.len() % 512);
        }

        self.msg = Ghost(self.msg@ + message@);
        self.len = self.len + message.len() as u64;

        if message.len() < 512 && message.len() + self.last_block.len() < 512 {
            let to = message.len();
            push_range(&mut self.last_block, message, 0, to);
            proof {
                assert(mm.subrange(0, mm.len() as int) =~= mm);
                assert(total.len() % 512 == m0.len() % 512 + mm.len());
                assert(total.take(total.len() - (total.len() % 512)) =~= m0.take(q0));
                assert(total.skip(total.len() - (total.len() % 512)) =~= m0.skip(q0) + mm);
            }
            return ;
        }

        let mut l: usize = 512 - self.last_block.len();
        push_range(&mut self.last_block, message, 0, l);
        proof {
            assert(self.last_block@.len() == 512);
            assert(m0.take(q0) + (m0.skip(q0) + mm.subrange(0, l as int)) =~= total.take(
                m0.len() + l,
            ));
            lemma_process_blocks_snoc(init_chain(), m0.take(q0), self.last_block@);
            assert((m0.len() + l) % 512 == 0);
        }
        let wds = Self::group_bits(self.last_block.as_slice());
        self.calc_block(wds.as_slice());
        proof {
            assert(self.chain() == process_blocks(init_chain(), total.take(m0.len() + l)));
        }

        while message.len() - l >= 512
            invariant
                l <= message@.len(),
                (m0.len() + l) % 512 == 0,
                self.chain() == process_blocks(init_chain(), total.take(m0.len() + l)),
                self.len == old(self).len + message@.len(),
                self.msg@ == total,
            decreases message@.len() - l,
        {
            let wds = Self::group_bits(slice_subrange(message, l, l + 512));
            self.calc_block(wds.as_slice());
            proof {
                assert(total.take(m0.len() + l) + mm.subrange(l as int, l + 512) =~= total.take(
                    m0.len() + l + 512,
                ));
                lemma_process_blocks_snoc(
                    init_chain(),
                    total.take(m0.len() + l),
                    mm.subrange(l as int, l + 512),
                );
            }
            l = l + 512;
        }

        self.last_block = Vec::new();
        let to = message.len();
        push_range(&mut self.last_block, message, l, to);
        proof {
            assert(self.last_block@ == mm.subrange(l as int, mm.len() as int));
            assert(total.len() % 512 == mm.len() - l);
            assert(total.skip(total.len() - (total.len() % 512)) =~= mm.subrange(
                l as int,
                mm.len() as int,
            ));
            assert(total.take(total.len() - (total.len() % 512)) =~= total.take(m0.len() + l));
        }
    }

    /// The 64 bits of the counter, most significant first.
    fn num2bits(num: u64) -> (r: Vec<bool>)
        ensures
            r@ == u64_bits_be(num),
    {
        let mut r: Vec<bool> = Vec::new();
        for i in 0..64usize
            invariant
                r@.len() == i,
                forall|j: int| 0 <= j < i ==> r@[j] == u64_bits_be(num)[j],
        {
            r.push((num >> ((63 - i) as u64)) & 1u64 == 1u64);
        }
        assert(r@ =~= u64_bits_be(num));
        r
    }

    /// Append the padding to the buffer: a one bit, zero bits to 448 modulo
    /// 512, then the 64-bit big-endian bit count. The padded buffer is one
    /// or two whole blocks.
    #[verifier::loop_isolation(false)]
    fn addition(&mut self)
        requires
            old(self).last_block@.len() < 512,
            old(self).last_block@.len() == old(self).len as nat % 512,
        ensures
            final(self).last_block@ == old(self).last_block@ + padding_of(old(self).len as nat),
            final(self).last_block@.len() == 512 || final(self).last_block@.len() == 1024,
            final(self).chain() == old(self).chain(),
            final(self).len == old(self).len,
            final(self).msg == old(self).msg,
    {
        let ghost b0 = self.last_block@;
        let ghost zc = pad_zero_count(self.len as nat);
        let ghost b1 = b0 + seq![true];
        proof {
            assert((b1.len() + zc) % 512 == 448 && zc < 512);
        }

        self.last_block.push(true);
        assert(self.last_block@ =~= b1 + Seq::new(0, |i: int| false));

        while self.last_block.len() % 512 != 448
            invariant
                b1.len() <= self.last_block@.len() <= b1.len() + zc,
                self.last_block@ == b1 + Seq::new(
                    (self.last_block@.len() - b1.len()) as nat,
                    |i: int| false,
                ),
                self.chain() == old(self).chain(),
                self.len == old(self).len,
                self.msg == old(self).msg,
            decreases b1.len() + zc - self.last_block@.len(),
        {
            proof {
                let k = (self.last_block@.len() - b1.len()) as nat;
                assert(k < zc) by {
                    if k == zc {
                        assert(self.last_block@.len() % 512 == 448);
                    }
                };
                assert(b1 + Seq::new((k + 1) as nat, |i: int| false) =~= (b1 + Seq::new(
                    k,
                    |i: int| false,
                )).push(false));
            }
            self.last_block.push(false);
        }
        proof {
            let k = (self.last_block@.len() - b1.len()) as nat;
            assert(k == zc);
        }

        let lenbits = Self::num2bits(self.len);
        let to = lenbits.len();
        push_range(&mut self.last_block, lenbits.as_slice(), 0, to);
        proof {
            assert(u64_bits_be(self.len).subrange(0, 64) =~= u64_bits_be(self.len));
            assert(self.last_block@ =~= b0 + padding_of(old(self).len as nat));
            assert(b1.len() + zc <= 1023);
            assert((b1.len() + zc) == 448 || (b1.len() + zc) == 960);
        }
    }

    /// Digest the accumulated message and reset the engine.
    ///
    /// The result is the SHA-1 digest of exactly the bits accumulated since
    /// construction or the previous finalization; afterwards the engine is
    /// construction-equivalent, so a second finalization digests the empty
    /// message.
    pub fn finalize(&mut self) -> (digest: Digest)
        requires
            old(self).wf(),
        ensures
            final(self).wf(),
            final(self)@ == Seq::<bool>::empty(),
            digest@ == sha1_words(old(self)@),
    {
        let ghost m0 = self@;
        let ghost q0 = m0.len() - (m0.len() % 512);
        let ghost pd = padding_of(m0.len());

        self.addition();
        let ghost buf = self.last_block@;
        proof {
            assert(buf == m0.skip(q0) + pd);
            assert(m0.take(q0) + buf =~= padded(m0));
        }

        let wds = Self::group_bits(slice_subrange(self.last_block.as_slice(), 0, 512));
        self.calc_block(wds.as_slice());
        proof {
            assert(m0.take(q0) + buf.subrange(0, 512) =~= padded(m0).take(q0 + 512));
            lemma_process_blocks_snoc(init_chain(), m0.take(q0), buf.subrange(0, 512));
            assert(self.chain() == process_blocks(init_chain(), padded(m0).take(q0 + 512)));
        }
        if self.last_block.len() > 512 {
            let wds2 = Self::group_bits(slice_subrange(self.last_block.as_slice(), 512, 1024));
            self.calc_block(wds2.as_slice());
            proof {
                assert(padded(m0).take(q0 + 512) + buf.subrange(512, 1024) =~= padded(m0));
                lemma_process_blocks_snoc(
                    init_chain(),
                    padded(m0).take(q0 + 512),
                    buf.subrange(512, 1024),
                );
            }
        } else {
            proof {
                assert(padded(m0).take(q0 + 512) =~= padded(m0));
            }
        }
        proof {
            assert(self.chain() == sha1_chain(m0));
        }

        let mut words: Vec<u32> = Vec::new();
        words.push(self.result_a);
        words.push(self.result_b);
        words.push(self.result_c);
        words.push(self.result_d);
        words.push(self.result_e);
        proof {
            assert(words@ =~= sha1_words(m0));
        }
        let digest = Digest { words };

        self.clear();

        digest
    }

    /// Reset the engine to its construction state.
    pub fn clear(&mut self)
        ensures
            final(self).wf(),
            final(self)@ == Seq::<bool>::empty(),
    {
        *self = Self::new();
    }
}

/// A 160-bit SHA-1 digest: five 32-bit words, most significant word first,
/// big-endian within and across words. Its view is the word sequence.
pub struct Digest {
    words: Vec<u32>,
}

impl View for Digest {
    type V = Seq<u32>;

    closed spec fn view(&self) -> Seq<u32> {
        self.words@
    }
}

/// Any four masked bits of a word are below 16.
proof fn lemma_nibble_bound(w: u32, sh: u32)
    by (bit_vector)
    ensures
        (w >> sh) & 0xfu32 < 16,
{
}

/// Append the hexadecimal digit of a value below 16.
fn push_hex_digit(s: &mut String, n: u32)
    requires
        n < 16,
    ensures
        final(s)@ == old(s)@ + seq![hex_digit(n)],
{
    if n == 0 {
        s.append("0");
        proof {
            reveal_strlit("0");
            assert(s@ =~= old(s)@ + seq![hex_digit(n)]);
        }
    } else if n == 1 {
        s.append("1");
        proof {
            reveal_strlit("1");
            assert(s@ =~= old(s)@ + seq![hex_digit(n)]);
        }
    } else if n == 2 {
        s.append("2");
        proof {
            reveal_strlit("2");
            assert(s@ =~= old(s)@ + seq![hex_digit(n)]);
        }
    } else if n == 3 {
        s.append("3");
        proof {
            reveal_strlit("3");
            assert(s@ =~= old(s)@ + seq![hex_digit(n)]);
        }
    } else if n == 4 {
        s.append("4");
        proof {
            reveal_strlit("4");
            assert(s@ =~= old(s)@ + seq![hex_digit(n)]);
        }
    } else if n == 5 {
        s.append("5");
        proof {
            reveal_strlit("5");
            assert(s@ =~= old(s)@ + seq![hex_digit(n)]);
        }
    } else if n == 6 {
        s.append("6");
        proof {
            reveal_strlit("6");
            assert(s@ =~= old(s)@ + seq![hex_digit(n)]);
        }
    } else if n == 7 {
        s.append("7");
        proof {
            reveal_strlit("7");
            assert(s@ =~= old(s)@ + seq![hex_digit(n)]);
        }
    } else if n == 8 {
        s.append("8");
        proof {
            reveal_strlit("8");
            assert(s@ =~= old(s)@ + seq![hex_digit(n)]);
        }
    } else if n == 9 {
        s.append("9");
        proof {
            reveal_strlit("9");
            assert(s@ =~= old(s)@ + seq![hex_digit(n)]);
        }
    } else if n == 10 {
        s.append("a");
        proof {
            reveal_strlit("a");
            assert(s@ =~= old(s)@ + seq![hex_digit(n)]);
        }
    } else if n == 11 {
        s.append("b");
        proof {
            reveal_strlit("b");
            assert(s@ =~= old(s)@ + seq![hex_digit(n)]);
        }
    } else if n == 12 {
        s.append("c");
        proof {
            reveal_strlit("c");
            assert(s@ =~= old(s)@ + seq![hex_digit(n)]);
        }
    } else if n == 13 {
        s.append("d");
        proof {
            reveal_strlit("d");
            assert(s@ =~= old(s)@ + seq![hex_digit(n)]);
        }
    } else if n == 14 {
        s.append("e");
        proof {
            reveal_strlit("e");
            assert(s@ =~= old(s)@ + seq![hex_digit(n)]);
        }
    } else {
        s.append("f");
        proof {
            reveal_strlit("f");
            assert(s@ =~= old(s)@ + seq![hex_digit(n)]);
        }
    }
}

impl Digest {
    /// The digest words, most significant first.
    pub fn words(&self) -> (w: &Vec<u32>)
        ensures
            w@ == self@,
    {
        &self.words
    }

    /// The digest as 40 lowercase hexadecimal characters.
    #[verifier::loop_isolation(false)]
    pub fn to_hex(&self) -> (s: String)
        ensures
            s@ == words_hex(self@),
    {
        let mut s = String::new();
        let n: usize = self.words.len();
        assert(words_hex(self@.take(0)) =~= Seq::<char>::empty());
        for i in 0..n
            invariant
                n == self@.len(),
                s@ == words_hex(self@.take(i as int)),
        {
            let w = self.words[i];
            assert(word_hex(w).take(0) =~= Seq::<char>::empty());
            for j in 0..8usize
                invariant
                    i < n == self@.len(),
                    w == self@[i as int],
                    s@ == words_hex(self@.take(i as int)) + word_hex(w).take(j as int),
            {
                let nib: u32 = (w >> ((4 * (7 - j)) as u32)) & 0xf;
                proof {
                    lemma_nibble_bound(w, (4 * (7 - j)) as u32);
                }
                push_hex_digit(&mut s, nib);
                proof {
                    assert(word_hex(w).take(j + 1) =~= word_hex(w).take(j as int).push(
                        word_hex(w)[j as int],
                    ));
                }
            }
            proof {
                assert(self@.take(i + 1).drop_last() =~= self@.take(i as int));
                assert(word_hex(w).take(8) =~= word_hex(w));
                assert(words_hex(self@.take(i + 1)) == words_hex(self@.take(i as int)) + word_hex(
                    w,
                ));
            }
        }
        assert(self@.take(n as int) =~= self@);
        s
    }
}

} // verus!
