use vstd::prelude::*;

verus! {

/// The word `c` turned left by 24 bits.
pub open spec fn rotl24(c: u64) -> u64 {
    (c << 24) | (c >> 40)
}

/// A small fast counting generator of 64-bit words: three state words and a counter.
#[derive(Clone, Copy, Debug)]
pub struct Sfc64 {
    pub a: u64,
    pub b: u64,
    pub c: u64,
    pub counter: u64,
}

impl Sfc64 {
    /// The state that a seed gives before the warm-up draws.
    pub open spec fn initial(seed: u64) -> Sfc64 {
        Sfc64 { a: seed, b: seed, c: seed, counter: 1 }
    }

    /// The word that the next draw returns.
    pub open spec fn output(self) -> u64 {
        self.a.wrapping_add(self.b).wrapping_add(self.counter)
    }

    /// The state after one draw.
    pub open spec fn stepped(self) -> Sfc64 {
        Sfc64 {
            a: self.b ^ (self.b >> 11),
            b: self.c.wrapping_add(self.c << 3),
            c: rotl24(self.c).wrapping_add(self.output()),
            counter: self.counter.wrapping_add(1),
        }
    }

    /// The state after `n` draws.
    pub open spec fn advanced(self, n: nat) -> Sfc64
        decreases n,
    {
        if n == 0 {
            self
        } else {
            self.advanced((n - 1) as nat).stepped()
        }
    }

    /// The first `n` words drawn from this state.
    pub open spec fn stream(self, n: nat) -> Seq<u64> {
        Seq::new(n, |i: int| self.advanced(i as nat).output())
    }

    /// The state that a generator seeded with `seed` starts from: the
    /// initial state after twelve draws.
    pub open spec fn seeded(seed: u64) -> Sfc64 {
        Sfc64::initial(seed).advanced(12)
    }

    pub fn new(seed: u64) -> (r: Sfc64)
        ensures
            r == Sfc64::seeded(seed),
    {
        let mut result = Sfc64 { a: seed, b: seed, c: seed, counter: 1 };
        let mut i: usize = 0;
        while i < 12
            invariant
                i <= 12,
                result == Sfc64::initial(seed).advanced(i as nat),
            decreases 12 - i,
        {
            result.next_u64();
            i += 1;
        }
        result
    }

    pub fn next_u64(&mut self) -> (r: u64)
        ensures
            r == old(self).output(),
            *final(self) == old(self).stepped(),
    {
        let result = self.a.wrapping_add(self.b).wrapping_add(self.counter);
        self.counter = self.counter.wrapping_add(1);
        self.a = self.b ^ (self.b >> 11);
        self.b = self.c.wrapping_add(self.c << 3);
        self.c = ((self.c << 24) | (self.c >> 40)).wrapping_add(result);
        result
    }

    /// The upper half of the next word.
    pub fn next_u32(&mut self) -> (r: u32)
        ensures
            r == (old(self).output() >> 32) as u32,
            *final(self) == old(self).stepped(),
    {
        let w = self.next_u64();
        assert((w >> 32) <= 0xffff_ffff) by (bit_vector);
        (w >> 32) as u32
    }

    /// Overwrites every element of `values` with the next word drawn.
    pub fn fill(&mut self, values: &mut Vec<u64>)
        ensures
            final(values)@ == old(self).stream(old(values)@.len()),
            *final(self) == old(self).advanced(old(values)@.len()),
    {
        let mut idx: usize = 0;
        let n = values.len();
        while idx < n
            invariant
                idx <= n,
                n == values@.len(),
                n == old(values)@.len(),
                *self == old(self).advanced(idx as nat),
                forall|k: int| 0 <= k < idx ==> values@[k] == old(self).advanced(k as nat).output(),
            decreases n - idx,
        {
            let w = self.next_u64();
            values[idx] = w;
            idx += 1;
        }
        assert(values@ =~= old(self).stream(n as nat));
    }
}

/// Derives a sequence of well-mixed seeds from one base seed.
#[derive(Clone, Copy, Debug)]
pub struct SeedGenerator {
    pub state: u64,
}

/// The increment between two states of the seed generator.
pub const SEED_STEP: u64 = 0x9e3779b97f4a7c15;

/// The finalising mix applied to a state of the seed generator.
pub open spec fn mix64(z: u64) -> u64 {
    let z1 = (z ^ (z >> 30)).wrapping_mul(0xbf58476d1ce4e5b9);
    let z2 = (z1 ^ (z1 >> 27)).wrapping_mul(0x94d049bb133111eb);
    z2 ^ (z2 >> 31)
}

impl SeedGenerator {
    pub fn new(seed: u64) -> (r: SeedGenerator)
        ensures
            r.state == seed,
    {
        SeedGenerator { state: seed }
    }

    pub fn next(&mut self) -> (r: u64)
        ensures
            final(self).state == old(self).state.wrapping_add(SEED_STEP),
            r == mix64(final(self).state),
    {
        self.state = self.state.wrapping_add(SEED_STEP);
        let z = self.state;
        let z = (z ^ (z >> 30)).wrapping_mul(0xbf58476d1ce4e5b9);
        let z = (z ^ (z >> 27)).wrapping_mul(0x94d049bb133111eb);
        z ^ (z >> 31)
    }
}

/// Why the system has given no random number, as the crate getrandom says it.
#[verifier::external_type_specification]
#[verifier::external_body]
pub struct ExRandomError(getrandom::Error);

/// `getrandom::u64` asks the system for a random word: nothing is known
/// of the word, nor of whether the system gives one.
#[verifier::external_body]
pub fn get_seed() -> (r: Result<u64, getrandom::Error>) {
    getrandom::u64()
}

/// No seed could be had from the system.
pub struct SeedUnavailable {
    pub cause: getrandom::Error,
}

/// The seeds of `count` threads, derived from one base seed.
pub struct SeedPlan {
    pub base_seed: u64,
    pub seeds: Vec<u64>,
}

/// The state of the seed generator begun with `seed` after `n` seeds.
pub open spec fn seed_state(seed: u64, n: nat) -> u64
    decreases n,
{
    if n == 0 {
        seed
    } else {
        seed_state(seed, (n - 1) as nat).wrapping_add(SEED_STEP)
    }
}

/// The seed numbered `i`, from 0, that the generator begun with `seed` gives.
pub open spec fn seed_number(seed: u64, i: nat) -> u64 {
    mix64(seed_state(seed, i + 1))
}

/// The seeds of `count` threads, drawn one after the other from a
/// generator begun with `base_seed`.
pub fn thread_seeds(base_seed: u64, count: u32) -> (r: Vec<u64>)
    ensures
        r@.len() == count,
        forall|i: int| 0 <= i < count ==> r@[i] == seed_number(base_seed, i as nat),
{
    let mut generator = SeedGenerator::new(base_seed);
    let mut seeds: Vec<u64> = Vec::new();
    let mut id: u32 = 0;
    while id < count
        invariant
            id <= count,
            seeds@.len() == id,
            generator.state == seed_state(base_seed, id as nat),
            forall|i: int| 0 <= i < id ==> seeds@[i] == seed_number(base_seed, i as nat),
        decreases count - id,
    {
        let seed = generator.next();
        seeds.push(seed);
        id += 1;
    }
    seeds
}

/// The seeds of `count` threads, derived from the base seed that the
/// system has given, or the cause for which it has given none.
pub fn plan_from(given: Result<u64, getrandom::Error>, count: u32) -> (r: Result<
    SeedPlan,
    SeedUnavailable,
>)
    ensures
        match (given, r) {
            (Ok(base_seed), Ok(plan)) => plan.base_seed == base_seed && plan.seeds@.len() == count
                && forall|i: int|
                0 <= i < count ==> plan.seeds@[i] == seed_number(base_seed, i as nat),
            (Err(cause), Err(e)) => e.cause == cause,
            _ => false,
        },
{
    match given {
        Ok(base_seed) => Ok(SeedPlan { base_seed, seeds: thread_seeds(base_seed, count) }),
        Err(cause) => Err(SeedUnavailable { cause }),
    }
}

/// Asks the system for a base seed and derives the seeds of `count`
/// threads from it. Whether the system gives a seed is not known.
pub fn plan_seeds(count: u32) -> (r: Result<SeedPlan, SeedUnavailable>)
    ensures
        match r {
            Ok(plan) => plan.seeds@.len() == count && forall|i: int|
                0 <= i < count ==> plan.seeds@[i] == seed_number(plan.base_seed, i as nat),
            Err(_) => true,
        },
{
    plan_from(get_seed(), count)
}


/// The generator as a source of random numbers for the crate rand.
impl rand::RngCore for Sfc64 {
    /// The upper half of the next word.
    fn next_u32(&mut self) -> (r: u32)
        ensures
            r == (old(self).output() >> 32) as u32,
            *final(self) == old(self).stepped(),
    {
        Sfc64::next_u32(self)
    }

    /// The next word.
    fn next_u64(&mut self) -> (r: u64)
        ensures
            r == old(self).output(),
            *final(self) == old(self).stepped(),
    {
        Sfc64::next_u64(self)
    }

    /// `rand_core::impls::fill_bytes_via_next` fills `dst` with the bytes
    /// of words drawn from the generator: nothing is claimed of them.
    #[verifier::external_body]
    fn fill_bytes(&mut self, dst: &mut [u8]) {
        rand::rand_core::impls::fill_bytes_via_next(self, dst)
    }
}

} // verus!
