use normfs::seed::{Seed, SeedError, SeedSource, SEED_SIZE};

#[test]
fn test_from_bytes() {
    let bytes = [42u8; SEED_SIZE];
    let seed = Seed::from_bytes(bytes);

    assert_eq!(seed.as_bytes(), &bytes);
}

#[test]
fn a_stored_seed_is_loaded_as_it_is() {
    let content: Vec<u8> = (0..SEED_SIZE as u8).collect();
    let seed = match Seed::load(&content) {
        Ok(seed) => seed,
        Err(e) => panic!("{e:?}"),
    };
    assert_eq!(&seed.as_bytes()[..], &content[..]);
}

#[test]
fn a_seed_of_another_size_is_refused() {
    for n in [0, 31, 33] {
        match Seed::load(&vec![7u8; n]) {
            Err(e) => assert_eq!(e, SeedError::InvalidSeed),
            Ok(_) => panic!("{n} bytes are not a seed"),
        }
    }
}

#[test]
fn an_existing_seed_is_loaded_and_a_missing_one_generated() {
    assert_eq!(Seed::open(true), SeedSource::Load);
    assert_eq!(Seed::open(false), SeedSource::Generate);
}

#[test]
fn wiping_leaves_zeros() {
    let mut seed = Seed::from_bytes([0x5Au8; SEED_SIZE]);
    seed.wipe();
    assert_eq!(seed.as_bytes(), &[0u8; SEED_SIZE]);
}
