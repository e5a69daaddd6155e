use vstd::prelude::*;
use vstd::wrapping::u64_specs;

verus! {

/// A point in `D`-dimensional space with integer components.
#[derive(Debug, Clone)]
pub struct Vector(pub Vec<i32>);

/// Multiplier of the linear congruential generator behind `Vector::random`.
pub const LCG_MULTIPLIER: u64 = 6364136223846793005;

/// Increment of the linear congruential generator behind `Vector::random`.
pub const LCG_INCREMENT: u64 = 1442695040888963407;

/// One step of the generator: `s * LCG_MULTIPLIER + LCG_INCREMENT` modulo `2^64`.
pub open spec fn next_state(s: u64) -> u64 {
    u64_specs::wrapping_add(u64_specs::wrapping_mul(s, LCG_MULTIPLIER), LCG_INCREMENT)
}

/// The state of the generator after `n` steps from `seed`.
pub open spec fn state_after(seed: u64, n: nat) -> u64
    decreases n,
{
    if n == 0 {
        seed
    } else {
        next_state(state_after(seed, (n - 1) as nat))
    }
}

/// The component drawn from a state: its upper 32 bits, read as a signed integer.
pub open spec fn component_of(s: u64) -> i32 {
    ((s >> 32u64) as u32) as i32
}

/// The `n` components that `Vector::random` draws from `seed`.
pub open spec fn random_components(seed: u64, n: nat) -> Seq<i32> {
    Seq::new(n, |i: int| component_of(state_after(seed, (i + 1) as nat)))
}

impl View for Vector {
    type V = Seq<i32>;

    open spec fn view(&self) -> Seq<i32> {
        self.0@
    }
}

impl Vector {
    /// Wraps the given components.
    pub fn new(components: Vec<i32>) -> (r: Vector)
        ensures
            r@ == components@,
    {
        Vector(components)
    }

    /// The number of components.
    pub fn len(&self) -> (r: usize)
        ensures
            r == self@.len(),
    {
        self.0.len()
    }

    /// Whether the vector has no component.
    pub fn is_empty(&self) -> (r: bool)
        ensures
            r == (self@.len() == 0),
    {
        self.0.len() == 0
    }

    /// A vector of `n` pseudo-random components drawn from `seed`.
    ///
    /// The same seed always gives the same vector: there is no global
    /// random state.
    pub fn random(n: usize, seed: u64) -> (r: Vector)
        ensures
            r@ == random_components(seed, n as nat),
    {
        let mut components: Vec<i32> = Vec::new();
        let mut state: u64 = seed;
        let mut i: usize = 0;
        while i < n
            invariant
                i <= n,
                state == state_after(seed, i as nat),
                components@ =~= random_components(seed, i as nat),
            decreases n - i,
        {
            state = state.wrapping_mul(LCG_MULTIPLIER).wrapping_add(LCG_INCREMENT);
            components.push(((state >> 32u64) as u32) as i32);
            i = i + 1;
        }
        Vector(components)
    }
}

} // verus!
