use vstd::prelude::*;
use vstd::wrapping::u64_specs;

verus! {

/// A 64-bit mixing step (the SplitMix64 finaliser).
pub open spec fn mix_spec(x: u64) -> u64 {
    let z0 = u64_specs::wrapping_add(x, 0x9E3779B97F4A7C15u64);
    let z1 = u64_specs::wrapping_mul(z0 ^ (z0 >> 30u64), 0xBF58476D1CE4E5B9u64);
    let z2 = u64_specs::wrapping_mul(z1 ^ (z1 >> 27u64), 0x94D049BB133111EBu64);
    z2 ^ (z2 >> 31u64)
}

/// The random substream of tree number `tree` of a forest with seed `seed`.
pub open spec fn stream_spec(seed: u32, tree: u32) -> u64 {
    mix_spec(((seed as u64) << 32u64) | (tree as u64))
}

/// Word number `counter` of the substream `stream`.
pub open spec fn draw_spec(stream: u64, counter: u64) -> u64 {
    mix_spec(stream ^ mix_spec(counter))
}

pub fn mix(x: u64) -> (r: u64)
    ensures
        r == mix_spec(x),
{
    let z0 = x.wrapping_add(0x9E3779B97F4A7C15u64);
    let z1 = (z0 ^ (z0 >> 30u64)).wrapping_mul(0xBF58476D1CE4E5B9u64);
    let z2 = (z1 ^ (z1 >> 27u64)).wrapping_mul(0x94D049BB133111EBu64);
    z2 ^ (z2 >> 31u64)
}

/// The substream of one tree: it depends on the seed and the tree's index only,
/// so trees can be built in any order and give the same forest.
pub fn stream(seed: u32, tree: u32) -> (r: u64)
    ensures
        r == stream_spec(seed, tree),
{
    mix(((seed as u64) << 32u64) | (tree as u64))
}

/// A word of a substream, addressed by a counter.
pub fn draw(stream: u64, counter: u64) -> (r: u64)
    ensures
        r == draw_spec(stream, counter),
{
    mix(stream ^ mix(counter))
}

} // verus!
