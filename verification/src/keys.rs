//! What the relay's tables are keyed by: addresses, bundle ids, mailbox tags, region names.

use vstd::prelude::*;

use crate::table::{Aged, TableKey};
use crate::text::chars_of;

verus! {

/// A node's address: its public key.
pub type PubKeyBytes = [u8; 32];

/// What identifies a bundle.
pub type BundleId = [u8; 32];

/// The digest, under a salt, of `next` behind something whose digest is `so_far`: digests are
/// polynomials in a number that the salt decides.
pub open spec fn mixed(salt: u64, so_far: u64, next: u64) -> u64 {
    so_far.wrapping_mul(salt.wrapping_mul(2).wrapping_add(0x100_0000_01b3u64)).wrapping_add(next)
}

/// The digest, under a salt, of a run of bytes.
pub open spec fn bytes_digest(s: Seq<u8>, salt: u64) -> u64
    decreases s.len(),
{
    if s.len() == 0 {
        0xcbf2_9ce4_8422_2325u64
    } else {
        mixed(salt, bytes_digest(s.drop_last(), salt), s.last() as u64)
    }
}

/// The digest, under a salt, of a run of characters.
pub open spec fn chars_digest(s: Seq<char>, salt: u64) -> u64
    decreases s.len(),
{
    if s.len() == 0 {
        0xcbf2_9ce4_8422_2325u64
    } else {
        mixed(salt, chars_digest(s.drop_last(), salt), (s.last() as u32) as u64)
    }
}

fn mix(salt: u64, so_far: u64, next: u64) -> (d: u64)
    ensures
        d == mixed(salt, so_far, next),
{
    so_far.wrapping_mul(salt.wrapping_mul(2).wrapping_add(0x100_0000_01b3u64)).wrapping_add(next)
}

/// Do `a` and `b` hold the same bytes?
pub fn same_bytes(a: &[u8], b: &[u8]) -> (res: bool)
    ensures
        res == (a@ == b@),
{
    if a.len() != b.len() {
        return false;
    }
    let mut i: usize = 0;
    while i < a.len()
        invariant
            a.len() == b.len(),
            i <= a.len(),
            forall|j: int| 0 <= j < i ==> a@[j] == b@[j],
        decreases a.len() - i,
    {
        if a[i] != b[i] {
            assert(a@[i as int] != b@[i as int]);
            return false;
        }
        i += 1;
    }
    assert(a@ =~= b@);
    true
}

/// The digest of `bytes` under a salt.
fn digest_bytes(bytes: &[u8], salt: u64) -> (d: u64)
    ensures
        d == bytes_digest(bytes@, salt),
{
    let mut d: u64 = 0xcbf2_9ce4_8422_2325u64;
    let mut i: usize = 0;
    assert(bytes@.take(0) =~= Seq::<u8>::empty());
    while i < bytes.len()
        invariant
            i <= bytes.len(),
            d == bytes_digest(bytes@.take(i as int), salt),
        decreases bytes.len() - i,
    {
        assert(bytes@.take(i + 1).drop_last() =~= bytes@.take(i as int));
        d = mix(salt, d, bytes[i] as u64);
        i += 1;
    }
    assert(bytes@.take(i as int) =~= bytes@);
    d
}

/// The digest of the characters of `s` under a salt.
fn digest_text(s: &str, salt: u64) -> (d: u64)
    ensures
        d == chars_digest(s@, salt),
{
    let chars = chars_of(s);
    let mut d: u64 = 0xcbf2_9ce4_8422_2325u64;
    let mut i: usize = 0;
    assert(chars@.take(0) =~= Seq::<char>::empty());
    while i < chars.len()
        invariant
            i <= chars.len(),
            d == chars_digest(chars@.take(i as int), salt),
        decreases chars.len() - i,
    {
        assert(chars@.take(i + 1).drop_last() =~= chars@.take(i as int));
        d = mix(salt, d, (chars[i] as u32) as u64);
        i += 1;
    }
    assert(chars@.take(i as int) =~= chars@);
    d
}

impl<const N: usize> TableKey for [u8; N] {
    open spec fn digest_of(key: Seq<u8>, salt: u64) -> u64 {
        bytes_digest(key, salt)
    }

    fn digest(&self, salt: u64) -> (d: u64) {
        digest_bytes(self.as_slice(), salt)
    }

    fn same(&self, other: &Self) -> (res: bool) {
        same_bytes(self.as_slice(), other.as_slice())
    }
}

impl TableKey for String {
    open spec fn digest_of(key: Seq<char>, salt: u64) -> u64 {
        chars_digest(key, salt)
    }

    fn digest(&self, salt: u64) -> (d: u64) {
        digest_text(self.as_str(), salt)
    }

    fn same(&self, other: &Self) -> (res: bool) {
        *self == *other
    }
}

impl TableKey for u32 {
    open spec fn digest_of(key: u32, salt: u64) -> u64 {
        key as u64
    }

    fn digest(&self, salt: u64) -> (d: u64) {
        *self as u64
    }

    fn same(&self, other: &Self) -> (res: bool) {
        *self == *other
    }
}

impl TableKey for u64 {
    open spec fn digest_of(key: u64, salt: u64) -> u64 {
        key
    }

    fn digest(&self, salt: u64) -> (d: u64) {
        *self
    }

    fn same(&self, other: &Self) -> (res: bool) {
        *self == *other
    }
}

impl<A: TableKey, B: TableKey> TableKey for (A, B) {
    open spec fn digest_of(key: (A::V, B::V), salt: u64) -> u64 {
        mixed(salt, A::digest_of(key.0, salt), B::digest_of(key.1, salt))
    }

    fn digest(&self, salt: u64) -> (d: u64) {
        mix(salt, self.0.digest(salt), self.1.digest(salt))
    }

    fn same(&self, other: &Self) -> (res: bool) {
        self.0.same(&other.0) && self.1.same(&other.1)
    }
}

/// An expiry in epoch milliseconds: `0` never expires, and the nearest expiry leaves first.
impl Aged for u64 {
    open spec fn live_at(self, now: u64) -> bool {
        self == 0 || self > now
    }

    open spec fn rank(self) -> u64 {
        if self == 0 {
            u64::MAX
        } else {
            self
        }
    }

    fn is_live_at(&self, now: u64) -> (res: bool) {
        *self == 0 || *self > now
    }

    fn eviction_rank(&self) -> (r: u64) {
        if *self == 0 {
            u64::MAX
        } else {
            *self
        }
    }
}

} // verus!
