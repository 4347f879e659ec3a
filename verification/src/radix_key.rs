//! The key-extraction contract and the order that it induces.
use vstd::prelude::*;

verus! {

/// A value that is sorted by a fixed number of key bytes.
///
/// `LEVELS` is the number of significant byte positions. Level `0` is the most
/// significant byte of the key, level `LEVELS - 1` the least significant one.
pub trait RadixKey: Sized {
    const LEVELS: usize;

    /// The key byte at `level`, as a mathematical function of the value.
    spec fn key_byte(&self, level: int) -> u8;

    /// Extracts the key byte at `level`.
    fn get_level(&self, level: usize) -> (byte: u8)
        requires
            level < Self::LEVELS,
        ensures
            byte == self.key_byte(level as int),
    ;
}

/// The whole key of `a`: its bytes from the most to the least significant level.
pub open spec fn key_of<T: RadixKey>(a: T) -> Seq<u8> {
    Seq::new(T::LEVELS as nat, |level: int| a.key_byte(level))
}

/// `a` is not greater than `b` when both are compared lexicographically over the
/// levels `level..LEVELS`.
pub open spec fn le_from<T: RadixKey>(a: T, b: T, level: int) -> bool
    decreases T::LEVELS - level,
{
    if level >= T::LEVELS {
        true
    } else if a.key_byte(level) != b.key_byte(level) {
        a.key_byte(level) < b.key_byte(level)
    } else {
        le_from(a, b, level + 1)
    }
}

/// `a` and `b` agree on every key byte of the levels `level..LEVELS`.
pub open spec fn eq_from<T: RadixKey>(a: T, b: T, level: int) -> bool {
    forall|l: int| level <= l < T::LEVELS ==> a.key_byte(l) == b.key_byte(l)
}

/// `s` is in ascending order of the key bytes at the levels `level..LEVELS`.
pub open spec fn sorted_from<T: RadixKey>(s: Seq<T>, level: int) -> bool {
    forall|i: int, j: int| 0 <= i < j < s.len() ==> le_from(s[i], s[j], level)
}

/// `s` is in ascending order of the whole key.
pub open spec fn sorted<T: RadixKey>(s: Seq<T>) -> bool {
    sorted_from(s, 0)
}

/// Every element of `s` has the byte `b` at `level`.
pub open spec fn all_have_byte<T: RadixKey>(s: Seq<T>, level: int, b: int) -> bool {
    forall|i: int| 0 <= i < s.len() ==> (#[trigger] s[i]).key_byte(level) as int == b
}

/// The order is reflexive at every level.
pub proof fn lemma_le_from_reflexive<T: RadixKey>(a: T, level: int)
    ensures
        le_from(a, a, level),
    decreases T::LEVELS - level,
{
    if level < T::LEVELS {
        lemma_le_from_reflexive(a, level + 1);
    }
}

/// The order is transitive at every level.
pub proof fn lemma_le_from_transitive<T: RadixKey>(a: T, b: T, c: T, level: int)
    requires
        le_from(a, b, level),
        le_from(b, c, level),
    ensures
        le_from(a, c, level),
    decreases T::LEVELS - level,
{
    if level < T::LEVELS {
        if a.key_byte(level) == b.key_byte(level) && b.key_byte(level) == c.key_byte(level) {
            lemma_le_from_transitive(a, b, c, level + 1);
        }
    }
}

/// Any two values are comparable at every level.
pub proof fn lemma_le_from_total<T: RadixKey>(a: T, b: T, level: int)
    ensures
        le_from(a, b, level) || le_from(b, a, level),
    decreases T::LEVELS - level,
{
    if level < T::LEVELS {
        lemma_le_from_total(a, b, level + 1);
    }
}

/// Two values that are each not greater than the other agree on every byte.
pub proof fn lemma_le_from_antisymmetric<T: RadixKey>(a: T, b: T, level: int)
    requires
        le_from(a, b, level),
        le_from(b, a, level),
    ensures
        eq_from(a, b, level),
    decreases T::LEVELS - level,
{
    if level < T::LEVELS {
        lemma_le_from_antisymmetric(a, b, level + 1);
        assert forall|l: int| level <= l < T::LEVELS implies a.key_byte(l) == b.key_byte(l) by {
            if l > level {
                assert(level + 1 <= l);
            }
        }
    }
}

/// `le_from` with the level as a machine integer.
pub open spec fn le_at<T: RadixKey>(a: T, b: T, level: usize) -> bool {
    le_from(a, b, level as int)
}

/// `sorted_from` with the level as a machine integer.
pub open spec fn sorted_at<T: RadixKey>(s: Seq<T>, level: usize) -> bool {
    sorted_from(s, level as int)
}

} // verus!
