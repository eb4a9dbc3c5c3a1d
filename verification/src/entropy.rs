//! The entropy pool: a BLAKE3 chain over all entropy fed in, seeding ChaCha random
//! number generators.

use vstd::prelude::*;

use rand_chacha::{ChaCha20Rng, ChaCha8Rng};

verus! {

#[verifier::external_type_specification]
#[verifier::external_body]
pub struct ExChaCha20Rng(ChaCha20Rng);

#[verifier::external_type_specification]
#[verifier::external_body]
pub struct ExChaCha8Rng(ChaCha8Rng);

/// The BLAKE3 hash of `input`.
pub uninterp spec fn blake3_of(input: Seq<u8>) -> Seq<u8>;

/// `blake3::Hasher` fed `prev` and then `data`, finalized: the crate documents that
/// feeding a hasher in parts gives the hash of the parts joined, so the result is the
/// BLAKE3 hash of `prev` followed by `data`.
#[verifier::external_body]
fn blake3_chain(prev: &[u8; 32], data: &[u8]) -> (r: [u8; 32])
    ensures
        r@ == blake3_of(prev@ + data@),
{
    let mut hasher = blake3::Hasher::new();
    hasher.update(prev);
    hasher.update(data);
    *hasher.finalize().as_bytes()
}

/// The seed a ChaCha20 generator was made with: the key it keeps, which
/// `ChaCha20Rng::get_seed` gives back.
pub uninterp spec fn chacha20_seed_of(rng: ChaCha20Rng) -> Seq<u8>;

/// The seed a ChaCha8 generator was made with: the key it keeps, which
/// `ChaCha8Rng::get_seed` gives back.
pub uninterp spec fn chacha8_seed_of(rng: ChaCha8Rng) -> Seq<u8>;

/// `<ChaCha20Rng as SeedableRng>::from_seed`: a generator that keeps `seed` as its key
/// (`get_seed` gives it back) and starts at the beginning of its stream.
#[verifier::external_body]
fn chacha20_from_seed(seed: [u8; 32]) -> (r: ChaCha20Rng)
    ensures
        chacha20_seed_of(r) == seed@,
{
    <ChaCha20Rng as rand::SeedableRng>::from_seed(seed)
}

/// `<ChaCha8Rng as SeedableRng>::from_seed`: a generator that keeps `seed` as its key
/// (`get_seed` gives it back) and starts at the beginning of its stream.
#[verifier::external_body]
fn chacha8_from_seed(seed: [u8; 32]) -> (r: ChaCha8Rng)
    ensures
        chacha8_seed_of(r) == seed@,
{
    <ChaCha8Rng as rand::SeedableRng>::from_seed(seed)
}

/// The 32 bytes that `rand::Rng::gen::<[u8; 32]>` draws from a `ChaCha20Rng` seeded
/// with `seed`, at word `word_pos` of its output stream. Each byte takes one 32-bit
/// word of the stream, so one draw takes 32 words.
pub uninterp spec fn chacha20_draw(seed: Seq<u8>, word_pos: int) -> Seq<u8>;

/// `<ChaCha20Rng as SeedableRng>::from_seed`, `ChaCha20Rng::set_word_pos` and
/// `rand::Rng::gen::<[u8; 32]>`: the 32 bytes of the stream of `seed` drawn from word
/// `word_pos` on. The stream is a function of the seed and the position alone.
#[verifier::external_body]
fn chacha20_draw_at(seed: [u8; 32], word_pos: u128) -> (r: [u8; 32])
    ensures
        r@ == chacha20_draw(seed@, word_pos as int),
{
    let mut rng = <ChaCha20Rng as rand::SeedableRng>::from_seed(seed);
    rng.set_word_pos(word_pos);
    rand::Rng::gen::<[u8; 32]>(&mut rng)
}

/// Words of the generator's stream that one draw of 32 bytes takes.
pub const DRAW_WORDS: u128 = 32;

/// Collects entropy into a running BLAKE3 hash; a ChaCha20 generator seeded with the
/// hash hands out 32 bytes at a time. The generator is held as its seed (the hash)
/// and the number of draws made since it was seeded.
pub struct EntropyCollector {
    sha: [u8; 32],
    draws: u64,
    insecure: bool,
}

impl EntropyCollector {
    /// The running hash, which seeds the generator.
    pub closed spec fn digest(&self) -> Seq<u8> {
        self.sha@
    }

    /// Draws made from the generator since it was last seeded (counted modulo 2^64,
    /// as the generator's stream repeats well before that).
    pub closed spec fn draws(&self) -> u64 {
        self.draws
    }

    /// Is the generator still seeded with the built in data only?
    pub closed spec fn insecure(&self) -> bool {
        self.insecure
    }

    /// The bytes of the next draw.
    pub open spec fn next_draw(&self) -> Seq<u8> {
        chacha20_draw(self.digest(), self.draws() as int * DRAW_WORDS as int)
    }

    /// A pool that starts from `init_data`; its generator, seeded with `init_data`, is
    /// insecure until entropy is fed in.
    pub fn new(init_data: [u8; 32]) -> (r: Self)
        ensures
            r.digest() == init_data@,
            r.draws() == 0,
            r.insecure(),
    {
        EntropyCollector { sha: init_data, draws: 0, insecure: true }
    }

    /// Mix `data` into the running hash and reseed the generator with the new hash.
    pub fn feed(&mut self, data: &[u8])
        ensures
            final(self).digest() == blake3_of(old(self).digest() + data@),
            final(self).draws() == 0,
            !final(self).insecure(),
    {
        let seed = blake3_chain(&self.sha, data);
        self.sha = seed;
        self.draws = 0;
        self.insecure = false;
    }

    /// Draw 32 bytes from the generator.
    fn draw(&mut self) -> (r: [u8; 32])
        ensures
            r@ == old(self).next_draw(),
            final(self).digest() == old(self).digest(),
            final(self).draws() == (old(self).draws() + 1) % 0x1_0000_0000_0000_0000,
            final(self).insecure() == old(self).insecure(),
    {
        let r = chacha20_draw_at(self.sha, self.draws as u128 * DRAW_WORDS);
        self.draws = self.draws.wrapping_add(1);
        r
    }

    /// The next 32 bytes of the generator, secure or not.
    pub fn gen_fast(&mut self) -> (r: [u8; 32])
        ensures
            r@ == old(self).next_draw(),
            final(self).digest() == old(self).digest(),
            final(self).draws() == (old(self).draws() + 1) % 0x1_0000_0000_0000_0000,
            final(self).insecure() == old(self).insecure(),
    {
        self.draw()
    }

    /// The next 32 bytes of the generator, once it has been seeded with fed entropy;
    /// nothing is drawn before.
    pub fn gen_secure(&mut self) -> (r: Option<[u8; 32]>)
        ensures
            old(self).insecure() ==> r is None && *final(self) == *old(self),
            !old(self).insecure() ==> (r matches Some(b) && b@ == old(self).next_draw()),
            !old(self).insecure() ==> final(self).draws() == (old(self).draws() + 1)
                % 0x1_0000_0000_0000_0000,
            final(self).digest() == old(self).digest(),
            final(self).insecure() == old(self).insecure(),
    {
        if self.insecure {
            return None;
        }
        Some(self.draw())
    }
}

/// Mix `data` into the pool.
pub fn provide_entropy(pool: &mut EntropyCollector, data: &[u8])
    ensures
        final(pool).digest() == blake3_of(old(pool).digest() + data@),
        final(pool).draws() == 0,
        !final(pool).insecure(),
{
    pool.feed(data)
}

/// A fresh ChaCha20 generator, seeded with the next draw of the pool
/// ([`EntropyCollector::gen_secure`]), once the pool has been fed.
pub fn next_secure_rng(pool: &mut EntropyCollector) -> (r: Option<ChaCha20Rng>)
    ensures
        r is Some <==> !old(pool).insecure(),
        r matches Some(g) ==> chacha20_seed_of(g) == old(pool).next_draw(),
        old(pool).insecure() ==> *final(pool) == *old(pool),
        !old(pool).insecure() ==> final(pool).draws() == (old(pool).draws() + 1) % 0x1_0000_0000_0000_0000,
        final(pool).digest() == old(pool).digest(),
        final(pool).insecure() == old(pool).insecure(),
{
    match pool.gen_secure() {
        Some(seed) => Some(chacha20_from_seed(seed)),
        None => None,
    }
}

/// A fresh ChaCha8 generator seeded with the next draw of the pool
/// ([`EntropyCollector::gen_fast`]), secure or not.
pub fn next_fast_rng(pool: &mut EntropyCollector) -> (r: ChaCha8Rng)
    ensures
        chacha8_seed_of(r) == old(pool).next_draw(),
        final(pool).digest() == old(pool).digest(),
        final(pool).draws() == (old(pool).draws() + 1) % 0x1_0000_0000_0000_0000,
        final(pool).insecure() == old(pool).insecure(),
{
    chacha8_from_seed(pool.gen_fast())
}

/// Once entropy has been fed in, the pool stays secure: no call makes it insecure
/// again (each keeps the flag or, feeding, clears it), so every later secure draw and
/// every later secure generator is there.
pub proof fn lemma_secure_once_fed(states: Seq<EntropyCollector>, fed: int)
    requires
        0 <= fed < states.len(),
        !states[fed].insecure(),
        forall|i: int|
            fed <= i < states.len() - 1 ==> #[trigger] states[i + 1].insecure() == states[i].insecure()
                || !states[i + 1].insecure(),
    ensures
        forall|i: int| fed <= i < states.len() ==> !#[trigger] states[i].insecure(),
    decreases states.len() - fed,
{
    if fed < states.len() - 1 {
        assert(states[fed + 1].insecure() == states[fed].insecure() || !states[fed + 1].insecure());
        lemma_secure_once_fed(states, fed + 1);
    }
}

} // verus!
