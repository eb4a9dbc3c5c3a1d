use hyperion::entropy::{next_fast_rng, next_secure_rng, provide_entropy, EntropyCollector};
use rand::{Rng, SeedableRng};
use rand_chacha::ChaCha20Rng;

#[test]
fn fresh_pool_is_insecure() {
    let mut pool = EntropyCollector::new([7; 32]);
    assert_eq!(pool.gen_secure(), None);
    assert!(next_secure_rng(&mut pool).is_none());
    // the fast generator is seeded with the built in data
    let expected: [u8; 32] = ChaCha20Rng::from_seed([7; 32]).gen();
    assert_eq!(pool.gen_fast(), expected);
}

#[test]
fn feeding_reseeds_with_the_running_hash() {
    let mut pool = EntropyCollector::new([1; 32]);
    pool.feed(b"some entropy");
    let mut hasher = blake3::Hasher::new();
    hasher.update(&[1; 32]);
    hasher.update(b"some entropy");
    let seed = *hasher.finalize().as_bytes();
    let expected: [u8; 32] = ChaCha20Rng::from_seed(seed).gen();
    assert_eq!(pool.gen_secure(), Some(expected));
}

#[test]
fn the_hash_chains_over_all_feeds() {
    let mut pool = EntropyCollector::new([0; 32]);
    provide_entropy(&mut pool, b"a");
    provide_entropy(&mut pool, b"b");
    let first = *blake3::hash(&[&[0u8; 32][..], b"a"].concat()).as_bytes();
    let second = *blake3::hash(&[&first[..], b"b"].concat()).as_bytes();
    let expected: [u8; 32] = ChaCha20Rng::from_seed(second).gen();
    assert_eq!(pool.gen_fast(), expected);
    assert!(next_secure_rng(&mut pool).is_some());
    let _fast = next_fast_rng(&mut pool);
}

#[test]
fn draws_follow_the_generator_stream() {
    let mut pool = EntropyCollector::new([3; 32]);
    let mut rng = ChaCha20Rng::from_seed([3; 32]);
    let first: [u8; 32] = rng.gen();
    let second: [u8; 32] = rng.gen();
    let third: [u8; 32] = rng.gen();
    assert_eq!(pool.gen_fast(), first);
    assert_eq!(pool.gen_fast(), second);
    let _ = next_fast_rng(&mut pool);
    assert_eq!(pool.gen_fast(), {
        let fourth: [u8; 32] = rng.gen();
        let _ = third;
        fourth
    });
    // feeding restarts the stream of the new seed
    pool.feed(b"x");
    let seed = *blake3::hash(&[&[3u8; 32][..], b"x"].concat()).as_bytes();
    let expected: [u8; 32] = ChaCha20Rng::from_seed(seed).gen();
    assert_eq!(pool.gen_secure(), Some(expected));
}

#[test]
fn generators_are_seeded_with_the_next_draw() {
    let mut pool = EntropyCollector::new([9; 32]);
    let mut rng = ChaCha20Rng::from_seed([9; 32]);
    let first: [u8; 32] = rng.gen();
    assert_eq!(next_fast_rng(&mut pool).get_seed(), first);
    pool.feed(b"y");
    let seed = *blake3::hash(&[&[9u8; 32][..], b"y"].concat()).as_bytes();
    let expected: [u8; 32] = ChaCha20Rng::from_seed(seed).gen();
    assert_eq!(next_secure_rng(&mut pool).unwrap().get_seed(), expected);
}
