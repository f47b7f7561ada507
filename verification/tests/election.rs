use sha3::{Digest, Keccak256};
use signing_core::hashing::signing_seed;
use signing_core::signing_manager::{KeygenPartyId, SigningManager};
use signing_core::types::SigningError;

#[test]
fn seed_matches_independent_keccak() {
    let pk = vec![0xAAu8; 32];
    let enc = vec![1u8, 2, 3];
    let seed = signing_seed(&pk, &enc, 7);
    let mut data = pk.clone();
    data.extend_from_slice(&enc);
    data.push(7);
    let expected = Keccak256::digest(&data);
    assert_eq!(seed.as_slice(), expected.as_slice());
    // a different ssid must move the seed
    assert_ne!(signing_seed(&pk, &enc, 0), seed);
}

#[test]
fn deterministic_committee() {
    let sm = SigningManager::new();
    let pk = vec![0xAAu8; 32];
    let enc = vec![9u8, 9, 9];
    let seed = signing_seed(&pk, &enc, 0);
    let unjailed = vec![1u16, 2, 3, 4];
    let jailed: Vec<u16> = Vec::new();
    let a = sm.generate_signers(&seed, 1, &unjailed, &jailed).unwrap();
    let b = sm.generate_signers(&seed, 1, &unjailed, &jailed).unwrap();
    assert_eq!(a, b);
    assert_eq!(a.len(), 2);
    assert_ne!(a[0], a[1]);
    for p in &a {
        assert!((1..=4).contains(&p.0));
    }
    // a different seed is free to elect a different committee, and the
    // sampler must actually depend on the seed for at least one of these
    let mut distinct = false;
    for ssid in 1..=8u8 {
        let other = sm
            .generate_signers(&signing_seed(&pk, &enc, ssid), 1, &unjailed, &jailed)
            .unwrap();
        if other != a {
            distinct = true;
        }
    }
    assert!(distinct);
}

#[test]
fn jailed_top_up() {
    let sm = SigningManager::new();
    let seed = [0x11u8; 32];
    let unjailed = vec![1u16];
    let jailed = vec![2u16, 3, 4];
    // pool before sampling is [1, 2]: both members must be selected
    let set = sm.generate_signers(&seed, 1, &unjailed, &jailed).unwrap();
    assert_eq!(set.len(), 2);
    assert!(set.contains(&KeygenPartyId(1)));
    assert!(set.contains(&KeygenPartyId(2)));
}

#[test]
fn pool_too_small_fails() {
    let sm = SigningManager::new();
    let seed = [0x11u8; 32];
    let r = sm.generate_signers(&seed, 1, &vec![1u16], &Vec::new());
    assert_eq!(r.unwrap_err(), SigningError::CommitteeSelectionFailed);
}

#[test]
fn invalid_indices_fail_selection() {
    let sm = SigningManager::new();
    let seed = [0x11u8; 32];
    let r = sm.generate_signers(&seed, 1, &vec![0u16, 0, 0], &Vec::new());
    assert_eq!(r.unwrap_err(), SigningError::CommitteeSelectionFailed);
}

#[test]
fn party_index_zero_is_invalid() {
    assert_eq!(
        KeygenPartyId::try_from(0).unwrap_err(),
        SigningError::InvalidPartyIndex
    );
    assert_eq!(KeygenPartyId::try_from(3).unwrap(), KeygenPartyId(3));
}
