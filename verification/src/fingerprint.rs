//! Change detection.
//!
//! A cheap content fingerprint over the serialized entry set decides
//! whether anything is written this cycle. The fingerprint is the 64-bit
//! FNV-1a hash folded over the characters of the serialized text; the
//! previous cycle's fingerprint is carried as `Option<u64>`, where `None`
//! stands for "not yet computed", so the first cycle always counts as
//! changed.

use vstd::prelude::*;

verus! {

/// The offset basis of the 64-bit FNV-1a hash.
pub const FNV_OFFSET: u64 = 0xcbf2_9ce4_8422_2325;

/// The prime of the 64-bit FNV-1a hash.
pub const FNV_PRIME: u64 = 0x0000_0100_0000_01b3;

/// Folds one character into the hash state.
pub open spec fn fnv_step(h: u64, c: char) -> u64 {
    (h ^ ((c as u32) as u64)).wrapping_mul(FNV_PRIME)
}

/// The fingerprint of a character sequence.
pub open spec fn fingerprint_of(s: Seq<char>) -> u64
    decreases s.len(),
{
    if s.len() == 0 {
        FNV_OFFSET
    } else {
        fnv_step(fingerprint_of(s.drop_last()), s.last())
    }
}

/// Computes the fingerprint of a serialized entry set.
pub fn fingerprint(s: &str) -> (r: u64)
    ensures
        r == fingerprint_of(s@),
{
    let n = s.unicode_len();
    let mut h: u64 = FNV_OFFSET;
    let mut i: usize = 0;
    while i < n
        invariant
            0 <= i <= n,
            n == s@.len(),
            h == fingerprint_of(s@.take(i as int)),
        decreases n - i,
    {
        proof {
            assert(s@.take(i as int + 1).drop_last() =~= s@.take(i as int));
            assert(s@.take(i as int + 1).last() == s@[i as int]);
        }
        let c = s.get_char(i);
        h = (h ^ ((c as u32) as u64)).wrapping_mul(FNV_PRIME);
        i += 1;
    }
    proof {
        assert(s@.take(n as int) =~= s@);
    }
    h
}

/// Whether the current fingerprint differs from the previous cycle's.
/// With no previous fingerprint — the first cycle after a start — every
/// set counts as changed.
pub fn changed(previous: Option<u64>, current: u64) -> (r: bool)
    ensures
        r == (previous != Some(current)),
{
    match previous {
        None => true,
        Some(p) => p != current,
    }
}

/// Two cycles serializing to the same text compute the same fingerprint,
/// so storing the first cycle's fingerprint suppresses the second
/// cycle's write: `changed` is false exactly on the stored fingerprint.
pub proof fn lemma_unchanged_text_same_fingerprint(a: Seq<char>, b: Seq<char>)
    requires
        a == b,
    ensures
        fingerprint_of(a) == fingerprint_of(b),
{
}

} // verus!
