//! Keys for the containers.
//!
//! The containers require two capabilities of a key type: an equality test
//! and a deterministic 64-bit hash. Both are supplied through the
//! [`HashKey`] trait, stated over the key's abstract view so that two keys
//! with the same view always hash alike. The hash itself is an external
//! collaborator as far as the containers are concerned: the only property
//! the tables rely on is that it is a fixed function of the key.

use vstd::prelude::*;

verus! {

/// A key usable by the containers: it can be compared for equality and
/// hashed to a 64-bit value, and both operations are functions of the
/// key's view alone.
pub trait HashKey: View + Sized {
    /// The hash of a key with view `kv`, as a mathematical function.
    spec fn hash_spec(kv: Self::V) -> u64;

    /// Hash this key.
    fn key_hash(&self) -> (h: u64)
        ensures
            h == Self::hash_spec(self@),
    ;

    /// Compare this key with another; equality of keys is equality of
    /// their views.
    fn key_eq(&self, other: &Self) -> (r: bool)
        ensures
            r == (self@ == other@),
    ;
}

/// The FNV-1a offset basis for 64-bit hashes.
pub const FNV_OFFSET: u64 = 0xcbf2_9ce4_8422_2325;

/// The FNV-1a prime for 64-bit hashes.
pub const FNV_PRIME: u64 = 0x100_0000_01b3;

/// One FNV-1a step: fold the character `c` into the running hash `h`.
pub open spec fn fnv1a_step(h: u64, c: char) -> u64 {
    (((h ^ (c as u64)) as nat * FNV_PRIME as nat) % 0x1_0000_0000_0000_0000) as u64
}

/// The FNV-1a hash of a character sequence.
pub open spec fn fnv1a(s: Seq<char>) -> u64
    decreases s.len(),
{
    if s.len() == 0 {
        FNV_OFFSET
    } else {
        fnv1a_step(fnv1a(s.drop_last()), s.last())
    }
}

/// Hash the characters of a string with FNV-1a.
pub fn hash_chars(s: &str) -> (h: u64)
    ensures
        h == fnv1a(s@),
{
    let n: usize = s.unicode_len();
    let mut h: u64 = FNV_OFFSET;
    let mut i: usize = 0;
    while i < n
        invariant
            n == s@.len(),
            0 <= i <= n,
            h == fnv1a(s@.take(i as int)),
        decreases n - i,
    {
        let c: char = s.get_char(i);
        let folded: u64 = h ^ (c as u64);
        h = folded.wrapping_mul(FNV_PRIME);
        proof {
            assert(s@.take(i + 1).drop_last() =~= s@.take(i as int));
            assert(s@.take(i + 1).last() == s@[i as int]);
        }
        i = i + 1;
    }
    proof {
        assert(s@.take(n as int) =~= s@);
    }
    h
}

/// Character-wise string equality: two strings are equal exactly when
/// their character sequences are.
pub fn str_eq(a: &str, b: &str) -> (r: bool)
    ensures
        r == (a@ == b@),
{
    let na: usize = a.unicode_len();
    let nb: usize = b.unicode_len();
    if na != nb {
        return false;
    }
    let mut i: usize = 0;
    while i < na
        invariant
            na == a@.len(),
            na == b@.len(),
            0 <= i <= na,
            forall|j: int| 0 <= j < i ==> a@[j] == b@[j],
        decreases na - i,
    {
        if a.get_char(i) != b.get_char(i) {
            return false;
        }
        i = i + 1;
    }
    proof {
        assert(a@ =~= b@);
    }
    true
}

impl<'a> HashKey for &'a str {
    open spec fn hash_spec(kv: Seq<char>) -> u64 {
        fnv1a(kv)
    }

    fn key_hash(&self) -> (h: u64) {
        hash_chars(*self)
    }

    fn key_eq(&self, other: &Self) -> (r: bool) {
        str_eq(*self, *other)
    }
}

impl HashKey for String {
    open spec fn hash_spec(kv: Seq<char>) -> u64 {
        fnv1a(kv)
    }

    fn key_hash(&self) -> (h: u64) {
        hash_chars(self.as_str())
    }

    fn key_eq(&self, other: &Self) -> (r: bool) {
        self.eq(other)
    }
}

/// The index of the storage cell that a key with view `kv` ideally lands
/// in, for a table of `n` cells: the key's hash reduced modulo `n`.
pub open spec fn bucket_of<K: HashKey>(kv: <K as View>::V, n: int) -> int {
    K::hash_spec(kv) as int % n
}

/// A fixed bit-scrambling step used to hash integer keys: spreads the bits
/// of `x` so that nearby integers land in unrelated slots.
pub open spec fn scramble64(x: u64) -> u64 {
    ((((x ^ (x >> 31)) as nat) * (FNV_PRIME as nat)) % 0x1_0000_0000_0000_0000) as u64
}

impl HashKey for u64 {
    open spec fn hash_spec(kv: u64) -> u64 {
        scramble64(kv)
    }

    fn key_hash(&self) -> (h: u64) {
        let folded: u64 = *self ^ (*self >> 31);
        folded.wrapping_mul(FNV_PRIME)
    }

    fn key_eq(&self, other: &Self) -> (r: bool) {
        *self == *other
    }
}

} // verus!
