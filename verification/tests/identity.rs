//! Addresses and seeds, with the real base58 and BLAKE3.

use hop_relayd::identity::{
    bs58_addr, load_identity, prefix, region_seed, regional_seed, short_b58, FileRead,
    LoadedIdentity,
};

#[test]
fn region_seed_is_deterministic_distinct_per_region_and_bound_to_the_base() {
    let base = [3u8; 32];
    let a = region_seed(&base, "us-central1");
    let a2 = region_seed(&base, "us-central1");
    let b = region_seed(&base, "europe-west1");
    assert_eq!(a, a2, "same base+region => identical seed (any node computes it)");
    assert_ne!(a, b, "different regions get distinct seeds");
    let other_base = [4u8; 32];
    assert_ne!(
        region_seed(&other_base, "us-central1"),
        a,
        "the region seed is bound to the base seed"
    );
    assert_ne!(a, base, "the seed is a hash, not the base itself");
}

#[test]
fn a_region_seed_hashes_the_label_the_base_and_the_region() {
    let base = [3u8; 32];
    for region in ["", "us-central1", "señal"] {
        let mut h = blake3::Hasher::new();
        h.update(b"hop.relay.region.v1");
        h.update(&base);
        h.update(region.as_bytes());
        assert_eq!(region_seed(&base, region), *h.finalize().as_bytes());
    }
}

#[test]
fn regional_identity_derives_per_region_and_passes_through_without_a_region() {
    let seed = [11u8; 32];
    assert_eq!(regional_seed(&seed, None), seed, "no --region keeps the base identity");
    let regional = regional_seed(&seed, Some("us-central1"));
    assert_eq!(
        regional,
        region_seed(&seed, "us-central1"),
        "the regional identity is exactly the one derived from region_seed"
    );
    assert_ne!(regional, seed, "a per-region node is a distinct node from the base");
}

#[test]
fn short_b58_is_a_ten_char_prefix() {
    let addr = [42u8; 32];
    let full = bs58::encode(addr).into_string();
    let short = short_b58(&addr);
    assert!(short.len() <= 10);
    assert_eq!(short.len(), 10, "a 32-byte address b58 is well over 10 chars");
    assert!(full.starts_with(&short), "the short form is a prefix of the full");
}

#[test]
fn addresses_are_written_in_base58() {
    assert_eq!(bs58_addr(&[0x04, 0x30, 0x5e, 0x2b, 0x24, 0x73, 0xf0, 0x58]), "he11owor1d");
    assert_eq!(bs58_addr(&[]), "");
    assert_eq!(bs58_addr(&[0, 0]), "11");
    assert_eq!(bs58_addr(&[57]), "z");
    assert_eq!(bs58_addr(&[58]), "21");
    assert_eq!(bs58_addr(&[0, 0, 1, 0]), "115R");
    let digits: String = (0..58u8).map(|d| bs58_addr(&[d])).collect();
    assert_eq!(digits, "123456789ABCDEFGHJKLMNPQRSTUVWXYZabcdefghijkmnopqrstuvwxyz");
    assert_eq!(short_b58(&[1]), "2", "what is shorter than ten characters stays whole");
}

#[test]
fn prefixes_count_characters() {
    assert_eq!(prefix("añ→b", 3), "añ→");
    assert_eq!(prefix("añ", 3), "añ");
    assert_eq!(prefix("añ", 2), "añ");
    assert_eq!(prefix("añ", 0), "");
}

fn file(read: Result<Vec<u8>, String>) -> Option<FileRead> {
    Some(FileRead { path: "/k".to_string(), read })
}

fn seed(loaded: LoadedIdentity) -> [u8; 32] {
    match loaded {
        LoadedIdentity::Seed(seed) => seed,
        other => panic!("a seed is loaded, got {other:?}"),
    }
}

#[test]
fn load_identity_from_a_valid_32_byte_file_is_deterministic() {
    let a = seed(load_identity(&file(Ok(vec![7u8; 32])), &None));
    let b = seed(load_identity(&file(Ok(vec![7u8; 32])), &Some(vec![9u8; 32])));
    assert_eq!(a, b, "same seed file => same seed across loads");
    assert_eq!(a, [7u8; 32], "the exact seed bytes");
    let c = seed(load_identity(&file(Ok(vec![8u8; 32])), &None));
    assert_ne!(a, c, "a different seed file => a different seed");
    let bytes: Vec<u8> = (0..32).collect();
    assert_eq!(seed(load_identity(&file(Ok(bytes.clone())), &None)).to_vec(), bytes);
}

#[test]
fn load_identity_panics_on_a_wrong_sized_identity_file() {
    for n in [0, 16, 31, 33] {
        match load_identity(&file(Ok(vec![1u8; n])), &Some(vec![2u8; 32])) {
            LoadedIdentity::Fatal(why) => {
                assert_eq!(why, "--identity-file /k must be exactly 32 bytes")
            }
            other => panic!("a wrong-sized --identity-file must not fall back, got {other:?}"),
        }
    }
}

#[test]
fn load_identity_panics_on_an_unreadable_identity_file() {
    match load_identity(&file(Err("no such file".to_string())), &Some(vec![2u8; 32])) {
        LoadedIdentity::Fatal(why) => {
            assert_eq!(why, "--identity-file /k unreadable: no such file")
        }
        other => panic!("an unreadable --identity-file must not fall back, got {other:?}"),
    }
}

#[test]
fn load_identity_generates_and_persists_when_no_key_exists_then_reloads_it() {
    assert!(matches!(load_identity(&None, &None), LoadedIdentity::Generate));
    assert_eq!(
        seed(load_identity(&None, &Some(vec![5u8; 32]))),
        [5u8; 32],
        "the persisted seed is reloaded => stable address across restarts"
    );
    assert!(matches!(
        load_identity(&None, &Some(vec![5u8; 31])),
        LoadedIdentity::Generate
    ));
}
