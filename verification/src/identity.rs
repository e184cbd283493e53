//! Who this relay is: addresses in base58, and the seed that its identity is derived from.

use vstd::prelude::*;
use vstd::string::*;
use vstd::utf8::encode_utf8;

use crate::base58::bs58_text;
use crate::text::chars_of;

verus! {

/// The BLAKE3 hash of `data`.
pub uninterp spec fn blake3_hash(data: Seq<u8>) -> Seq<u8>;

/// Can a run of this many bytes be written in base58? The encoder makes room for half as many
/// characters more than there are bytes, and no buffer holds more than `isize::MAX` bytes.
pub open spec fn encodable(len: nat) -> bool {
    len + (len + 1) / 2 <= isize::MAX
}

/// Calls `bs58::encode(data).into_string()`, and claims that with its default alphabet it writes
/// the base58 of `data`: a `1` for each leading zero byte, and the digits of the number that the
/// bytes spell.
#[verifier::external_body]
fn bs58_encode(data: &[u8]) -> (text: String)
    requires
        encodable(data@.len()),
    ensures
        text@ == bs58_text(data@),
{
    bs58::encode(data).into_string()
}

/// Calls `blake3::hash(data)`, and claims that the 32 bytes it gives are a function of `data`,
/// which it names.
#[verifier::external_body]
fn blake3_of(data: &[u8]) -> (hash: [u8; 32])
    ensures
        hash@ == blake3_hash(data@),
{
    *blake3::hash(data).as_bytes()
}

/// An address in base58.
pub fn bs58_addr(addr: &[u8]) -> (text: String)
    requires
        encodable(addr@.len()),
    ensures
        text@ == bs58_text(addr@),
{
    bs58_encode(addr)
}

/// The first `n` characters of `s`, or all of them where there are fewer.
pub open spec fn at_most(s: Seq<char>, n: int) -> Seq<char> {
    if s.len() <= n {
        s
    } else {
        s.take(n)
    }
}

/// The first `n` characters of `s`, or all of them where there are fewer.
pub fn prefix(s: &str, n: usize) -> (res: String)
    ensures
        res@ == at_most(s@, n as int),
{
    if chars_of(s).len() <= n {
        s.to_owned()
    } else {
        s.substring_char(0, n).to_owned()
    }
}

/// The text of a short address: the first ten characters of its base58.
pub open spec fn short_text(addr: Seq<u8>) -> Seq<char> {
    at_most(bs58_text(addr), 10)
}

/// A short base58 prefix of an address for compact log lines.
pub fn short_b58(addr: &[u8]) -> (text: String)
    requires
        encodable(addr@.len()),
    ensures
        text@ == short_text(addr@),
{
    let full = bs58_encode(addr);
    prefix(full.as_str(), 10)
}

/// What is hashed for a region's seed: a fixed label, the shared seed, and the region's name.
pub open spec fn region_seed_input(base: Seq<u8>, region: Seq<char>) -> Seq<u8> {
    encode_utf8("hop.relay.region.v1"@) + base + encode_utf8(region)
}

/// The seed of the identity of `region`'s relay, derived from the seed that all regions share.
pub fn region_seed(base: &[u8; 32], region: &str) -> (seed: [u8; 32])
    ensures
        seed@ == blake3_hash(region_seed_input(base@, region@)),
{
    let mut input: Vec<u8> = Vec::new();
    input.extend_from_slice("hop.relay.region.v1".as_bytes());
    input.extend_from_slice(base.as_slice());
    input.extend_from_slice(region.as_bytes());
    assert(input@ =~= region_seed_input(base@, region@));
    blake3_of(input.as_slice())
}

/// The seed that the relay runs under: its region's, where it has a region, else the base seed.
pub fn regional_seed(base: &[u8; 32], region: Option<&str>) -> (seed: [u8; 32])
    ensures
        match region {
            Some(r) => seed@ == blake3_hash(region_seed_input(base@, r@)),
            None => seed@ == base@,
        },
{
    match region {
        Some(r) => region_seed(base, r),
        None => *base,
    }
}

/// The first 32 of `bytes`.
fn seed_of(bytes: &Vec<u8>) -> (seed: [u8; 32])
    requires
        bytes@.len() == 32,
    ensures
        seed@ == bytes@,
{
    let mut seed: [u8; 32] = [0u8; 32];
    let mut i: usize = 0;
    while i < 32
        invariant
            i <= 32,
            bytes@.len() == 32,
            forall|j: int| 0 <= j < i ==> seed@[j] == bytes@[j],
        decreases 32 - i,
    {
        seed[i] = bytes[i];
        i += 1;
    }
    assert(seed@ =~= bytes@);
    seed
}

/// A file that was to be read: its path, and its bytes or why it could not be read.
#[derive(Debug)]
pub struct FileRead {
    /// The path.
    pub path: String,
    /// What came of reading it.
    pub read: Result<Vec<u8>, String>,
}

/// Where the relay's seed comes from.
#[derive(Debug)]
pub enum LoadedIdentity {
    /// It was read.
    Seed([u8; 32]),
    /// A seed was asked for that cannot be had: the relay must not start.
    Fatal(String),
    /// There is none yet: one is to be generated, and kept for the next start.
    Generate,
}

/// Is `res` what comes of the two files?
pub open spec fn loads(
    identity_file: Option<FileRead>,
    key_file: Option<Vec<u8>>,
    res: LoadedIdentity,
) -> bool {
    match identity_file {
        Some(file) => match file.read {
            Ok(bytes) => if bytes@.len() == 32 {
                res matches LoadedIdentity::Seed(seed) && seed@ == bytes@
            } else {
                res matches LoadedIdentity::Fatal(why) && why@ == "--identity-file "@ + file.path@
                    + " must be exactly 32 bytes"@
            },
            Err(e) => res matches LoadedIdentity::Fatal(why) && why@ == "--identity-file "@
                + file.path@ + " unreadable: "@ + e@,
        },
        None => match key_file {
            Some(bytes) => if bytes@.len() == 32 {
                res matches LoadedIdentity::Seed(seed) && seed@ == bytes@
            } else {
                res is Generate
            },
            None => res is Generate,
        },
    }
}

/// Loads the relay's seed. One that `identity_file` was to give must be there and be 32 bytes
/// long; without such a file the seed is the one kept in `key_file`, where that can be read and
/// is 32 bytes long.
pub fn load_identity(identity_file: &Option<FileRead>, key_file: &Option<Vec<u8>>) -> (res:
    LoadedIdentity)
    ensures
        loads(*identity_file, *key_file, res),
{
    if let Some(file) = identity_file {
        let mut why = "--identity-file ".to_owned();
        why.append(file.path.as_str());
        match &file.read {
            Ok(bytes) => {
                if bytes.len() == 32 {
                    return LoadedIdentity::Seed(seed_of(bytes));
                }
                why.append(" must be exactly 32 bytes");
            },
            Err(e) => {
                why.append(" unreadable: ");
                why.append(e.as_str());
            },
        }
        return LoadedIdentity::Fatal(why);
    }
    if let Some(bytes) = key_file {
        if bytes.len() == 32 {
            return LoadedIdentity::Seed(seed_of(bytes));
        }
    }
    LoadedIdentity::Generate
}

/// The relay's seed is stable across restarts: a seed that was generated and kept is the one that
/// the next start loads.
pub proof fn law_a_kept_seed_is_loaded_again(kept: Vec<u8>, seed: [u8; 32], res: LoadedIdentity)
    requires
        kept@ == seed@,
        loads(None, Some(kept), res),
    ensures
        res matches LoadedIdentity::Seed(loaded) && loaded@ == seed@,
{
}

/// An identity file that was asked for is never passed over: either its 32 bytes are the seed, or
/// the relay does not start.
pub proof fn law_an_identity_file_is_never_passed_over(
    file: FileRead,
    key_file: Option<Vec<u8>>,
    res: LoadedIdentity,
)
    requires
        loads(Some(file), key_file, res),
    ensures
        res !is Generate,
        res matches LoadedIdentity::Seed(seed) ==> file.read is Ok && file.read->Ok_0@ == seed@,
{
}

/// What is hashed for two regions, or under two base seeds, differs: only the hash itself could
/// make their seeds agree.
pub proof fn law_region_seed_inputs_differ(
    base: Seq<u8>,
    other: Seq<u8>,
    region: Seq<char>,
    another: Seq<char>,
)
    requires
        base.len() == 32,
        other.len() == 32,
        base != other || region != another,
    ensures
        region_seed_input(base, region) != region_seed_input(other, another),
{
    let label = encode_utf8("hop.relay.region.v1"@);
    let (a, b) = (region_seed_input(base, region), region_seed_input(other, another));
    let n = label.len() as int;
    assert(a.subrange(n, n + 32) =~= base);
    assert(b.subrange(n, n + 32) =~= other);
    assert(a.skip(n + 32) =~= encode_utf8(region));
    assert(b.skip(n + 32) =~= encode_utf8(another));
    if a == b {
        vstd::utf8::encode_utf8_decode_utf8(region);
        vstd::utf8::encode_utf8_decode_utf8(another);
    }
}

/// A prefix is what its name says: the first `n` characters, or all of them where there are no more.
pub proof fn law_a_prefix_is_the_first_characters(s: &str, n: usize, res: String)
    requires
        call_ensures(prefix, (s, n), res),
    ensures
        s@.len() <= n ==> res@ == s@,
        s@.len() > n ==> res@.len() == n && forall|i: int|
            0 <= i < n ==> #[trigger] res@[i] == s@[i],
{
}

/// A short address is the first ten characters of the address in base58, and an address in full is
/// all of them.
pub proof fn law_a_short_address_is_ten_characters(addr: &[u8], full: String, short: String)
    requires
        encodable(addr@.len()),
        call_ensures(bs58_addr, (addr,), full),
        call_ensures(short_b58, (addr,), short),
    ensures
        full@ == bs58_text(addr@),
        full@.len() >= 10 ==> short@ == full@.take(10),
        full@.len() < 10 ==> short@ == full@,
{
    if full@.len() == 10 {
        assert(full@.take(10) =~= full@);
    }
}

/// Addresses of up to a thousand million bytes can be written in base58 on any machine.
pub proof fn law_any_address_can_be_written(len: nat)
    requires
        len <= 1_000_000_000,
    ensures
        encodable(len),
{
}

/// What a region's relay runs under: the hash of a fixed label, the shared seed and the region's
/// name, in this order; without a region, the shared seed itself.
pub proof fn law_what_a_region_runs_under(
    base: &[u8; 32],
    region: &str,
    seed: [u8; 32],
    regional: [u8; 32],
    alone: [u8; 32],
)
    requires
        call_ensures(region_seed, (base, region), seed),
        call_ensures(regional_seed, (base, Some(region)), regional),
        call_ensures(regional_seed, (base, None), alone),
    ensures
        seed@ == blake3_hash(
            encode_utf8("hop.relay.region.v1"@) + base@ + encode_utf8(region@),
        ),
        regional@ == seed@,
        alone@ == base@,
{
}

/// What comes of the files, case by case: the 32 bytes of the identity file, where one was asked
/// for; else the 32 bytes of the key file; else a new seed. An identity file that was asked for and
/// cannot be used is fatal, and it is told why.
pub proof fn law_where_the_seed_comes_from(
    identity_file: &Option<FileRead>,
    key_file: &Option<Vec<u8>>,
    res: LoadedIdentity,
)
    requires
        call_ensures(load_identity, (identity_file, key_file), res),
    ensures
        *identity_file matches Some(file) ==> (file.read matches Ok(bytes) ==> {
            &&& bytes@.len() == 32 ==> (res matches LoadedIdentity::Seed(seed) && seed@ == bytes@)
            &&& bytes@.len() != 32 ==> (res matches LoadedIdentity::Fatal(why) && why@
                == "--identity-file "@ + file.path@ + " must be exactly 32 bytes"@)
        }),
        *identity_file matches Some(file) ==> (file.read matches Err(e) ==> (res matches
            LoadedIdentity::Fatal(why) && why@ == "--identity-file "@ + file.path@
            + " unreadable: "@ + e@)),
        *identity_file is None ==> (*key_file matches Some(bytes) ==> {
            &&& bytes@.len() == 32 ==> (res matches LoadedIdentity::Seed(seed) && seed@ == bytes@)
            &&& bytes@.len() != 32 ==> res is Generate
        }),
        *identity_file is None && *key_file is None ==> res is Generate,
{
}

} // verus!
