use vstd::prelude::*;

verus! {

/// Keys that can derive a pseudo-random seed from themselves.
pub trait Seedable {
    /// The seed of the key.
    spec fn seed_spec(&self) -> usize;

    fn generate_seed(&self) -> (s: usize)
        ensures
            s == self.seed_spec(),
    ;
}

/// The splitmix64 finalizer.
pub open spec fn mix_spec(z0: u64) -> u64 {
    let z1 = vstd::wrapping::u64_specs::wrapping_mul(z0 ^ (z0 >> 30u64), 0xbf58476d1ce4e5b9u64);
    let z2 = vstd::wrapping::u64_specs::wrapping_mul(z1 ^ (z1 >> 27u64), 0x94d049bb133111ebu64);
    z2 ^ (z2 >> 31u64)
}

/// Mixes the bits of `z` (splitmix64).
pub fn mix_int(z: u64) -> (r: usize)
    ensures
        r == mix_spec(z) as usize,
{
    let mut z = z;
    z = (z ^ (z >> 30u64)).wrapping_mul(0xbf58476d1ce4e5b9u64);
    z = (z ^ (z >> 27u64)).wrapping_mul(0x94d049bb133111ebu64);
    (z ^ (z >> 31u64)) as usize
}

impl Seedable for i8 {
    open spec fn seed_spec(&self) -> usize {
        mix_spec(*self as u64) as usize
    }

    fn generate_seed(&self) -> (s: usize) {
        mix_int(*self as u64)
    }
}

impl Seedable for i16 {
    open spec fn seed_spec(&self) -> usize {
        mix_spec(*self as u64) as usize
    }

    fn generate_seed(&self) -> (s: usize) {
        mix_int(*self as u64)
    }
}

impl Seedable for i32 {
    open spec fn seed_spec(&self) -> usize {
        mix_spec(*self as u64) as usize
    }

    fn generate_seed(&self) -> (s: usize) {
        mix_int(*self as u64)
    }
}

impl Seedable for i64 {
    open spec fn seed_spec(&self) -> usize {
        mix_spec(*self as u64) as usize
    }

    fn generate_seed(&self) -> (s: usize) {
        mix_int(*self as u64)
    }
}

impl Seedable for isize {
    open spec fn seed_spec(&self) -> usize {
        mix_spec(*self as u64) as usize
    }

    fn generate_seed(&self) -> (s: usize) {
        mix_int(*self as u64)
    }
}

impl Seedable for u8 {
    open spec fn seed_spec(&self) -> usize {
        mix_spec(*self as u64) as usize
    }

    fn generate_seed(&self) -> (s: usize) {
        mix_int(*self as u64)
    }
}

impl Seedable for u16 {
    open spec fn seed_spec(&self) -> usize {
        mix_spec(*self as u64) as usize
    }

    fn generate_seed(&self) -> (s: usize) {
        mix_int(*self as u64)
    }
}

impl Seedable for u32 {
    open spec fn seed_spec(&self) -> usize {
        mix_spec(*self as u64) as usize
    }

    fn generate_seed(&self) -> (s: usize) {
        mix_int(*self as u64)
    }
}

impl Seedable for u64 {
    open spec fn seed_spec(&self) -> usize {
        mix_spec(*self as u64) as usize
    }

    fn generate_seed(&self) -> (s: usize) {
        mix_int(*self as u64)
    }
}

impl Seedable for usize {
    open spec fn seed_spec(&self) -> usize {
        mix_spec(*self as u64) as usize
    }

    fn generate_seed(&self) -> (s: usize) {
        mix_int(*self as u64)
    }
}

/// The seed of a key of type `i8` is the splitmix64 finalizer of the key's value
/// taken as 64 bits.
pub proof fn law_i8_seed_is_mixed(k: i8)
    ensures
        k.seed_spec() == mix_spec(k as u64) as usize,
{
}

/// The seed of a key of type `i16` is the splitmix64 finalizer of the key's value
/// taken as 64 bits.
pub proof fn law_i16_seed_is_mixed(k: i16)
    ensures
        k.seed_spec() == mix_spec(k as u64) as usize,
{
}

/// The seed of a key of type `i32` is the splitmix64 finalizer of the key's value
/// taken as 64 bits.
pub proof fn law_i32_seed_is_mixed(k: i32)
    ensures
        k.seed_spec() == mix_spec(k as u64) as usize,
{
}

/// The seed of a key of type `i64` is the splitmix64 finalizer of the key's value
/// taken as 64 bits.
pub proof fn law_i64_seed_is_mixed(k: i64)
    ensures
        k.seed_spec() == mix_spec(k as u64) as usize,
{
}

/// The seed of a key of type `isize` is the splitmix64 finalizer of the key's value
/// taken as 64 bits.
pub proof fn law_isize_seed_is_mixed(k: isize)
    ensures
        k.seed_spec() == mix_spec(k as u64) as usize,
{
}

/// The seed of a key of type `u8` is the splitmix64 finalizer of the key's value
/// taken as 64 bits.
pub proof fn law_u8_seed_is_mixed(k: u8)
    ensures
        k.seed_spec() == mix_spec(k as u64) as usize,
{
}

/// The seed of a key of type `u16` is the splitmix64 finalizer of the key's value
/// taken as 64 bits.
pub proof fn law_u16_seed_is_mixed(k: u16)
    ensures
        k.seed_spec() == mix_spec(k as u64) as usize,
{
}

/// The seed of a key of type `u32` is the splitmix64 finalizer of the key's value
/// taken as 64 bits.
pub proof fn law_u32_seed_is_mixed(k: u32)
    ensures
        k.seed_spec() == mix_spec(k as u64) as usize,
{
}

/// The seed of a key of type `u64` is the splitmix64 finalizer of the key's value
/// taken as 64 bits.
pub proof fn law_u64_seed_is_mixed(k: u64)
    ensures
        k.seed_spec() == mix_spec(k as u64) as usize,
{
}

/// The seed of a key of type `usize` is the splitmix64 finalizer of the key's value
/// taken as 64 bits.
pub proof fn law_usize_seed_is_mixed(k: usize)
    ensures
        k.seed_spec() == mix_spec(k as u64) as usize,
{
}

/// The mixer is the splitmix64 finalizer: it fixes 0 and takes 1, 10 and 256 to the
/// finalizer's values (odd ones, so such keys get towers of one level).
pub proof fn law_mix_values()
    ensures
        mix_spec(0) == 0,
        mix_spec(1) == 0x5692161d100b05e5u64,
        mix_spec(10) == 0x075c8519a9320579u64,
        mix_spec(256) == 0xf82a6f1d1144170du64,
{
    assert((0u64 ^ (0u64 >> 30u64)) == 0x0u64) by (bit_vector);
    assert(vstd::wrapping::u64_specs::wrapping_mul(0x0u64, 0xbf58476d1ce4e5b9u64) == 0x0u64);
    assert((0x0u64 ^ (0x0u64 >> 27u64)) == 0x0u64) by (bit_vector);
    assert(vstd::wrapping::u64_specs::wrapping_mul(0x0u64, 0x94d049bb133111ebu64) == 0x0u64);
    assert((0x0u64 ^ (0x0u64 >> 31u64)) == 0x0u64) by (bit_vector);
    assert((1u64 ^ (1u64 >> 30u64)) == 0x1u64) by (bit_vector);
    assert(vstd::wrapping::u64_specs::wrapping_mul(0x1u64, 0xbf58476d1ce4e5b9u64) == 0xbf58476d1ce4e5b9u64);
    assert((0xbf58476d1ce4e5b9u64 ^ (0xbf58476d1ce4e5b9u64 >> 27u64)) == 0xbf58477af7ec081au64) by (bit_vector);
    assert(vstd::wrapping::u64_specs::wrapping_mul(0xbf58477af7ec081au64, 0x94d049bb133111ebu64) == 0x5692161dbd2f29deu64);
    assert((0x5692161dbd2f29deu64 ^ (0x5692161dbd2f29deu64 >> 31u64)) == 0x5692161d100b05e5u64) by (bit_vector);
    assert((10u64 ^ (10u64 >> 30u64)) == 0xau64) by (bit_vector);
    assert(vstd::wrapping::u64_specs::wrapping_mul(0xau64, 0xbf58476d1ce4e5b9u64) == 0x7972ca4320f0f93au64);
    assert((0x7972ca4320f0f93au64 ^ (0x7972ca4320f0f93au64 >> 27u64)) == 0x7972ca4c0ea9b15eu64) by (bit_vector);
    assert(vstd::wrapping::u64_specs::wrapping_mul(0x7972ca4c0ea9b15eu64, 0x94d049bb133111ebu64) == 0x75c8519a78b0f4au64);
    assert((0x75c8519a78b0f4au64 ^ (0x75c8519a78b0f4au64 >> 31u64)) == 0x75c8519a9320579u64) by (bit_vector);
    assert((256u64 ^ (256u64 >> 30u64)) == 0x100u64) by (bit_vector);
    assert(vstd::wrapping::u64_specs::wrapping_mul(0x100u64, 0xbf58476d1ce4e5b9u64) == 0x58476d1ce4e5b900u64);
    assert((0x58476d1ce4e5b900u64 ^ (0x58476d1ce4e5b900u64 >> 27u64)) == 0x58476d17ec081a9cu64) by (bit_vector);
    assert(vstd::wrapping::u64_specs::wrapping_mul(0x58476d17ec081a9cu64, 0x94d049bb133111ebu64) == 0xf82a6f1ce110c934u64);
    assert((0xf82a6f1ce110c934u64 ^ (0xf82a6f1ce110c934u64 >> 31u64)) == 0xf82a6f1d1144170du64) by (bit_vector);
}

} // verus!
