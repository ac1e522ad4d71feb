//! Splitting a 64-bit address into tag, set index and block offset.
use vstd::prelude::*;

verus! {

/// Width in bits of every address the model handles.
pub const ADDRESS_BITS: u32 = 64;

/// The low `n` bits set, every other bit clear.
pub open spec fn low_mask(n: u32) -> u128 {
    !(0xffff_ffff_ffff_ffff_ffff_ffff_ffff_ffffu128 << n)
}

/// Whether `s` set-index bits and `b` block-offset bits fit in an address.
pub open spec fn bits_fit(s: u32, b: u32) -> bool {
    s + b <= ADDRESS_BITS
}

/// The high bits of `addr`, above the set index and the block offset.
pub open spec fn tag_of(addr: u64, s: u32, b: u32) -> u64 {
    ((addr as u128) >> ((s + b) as u128)) as u64
}

/// The `s` bits of `addr` just above its `b` offset bits.
pub open spec fn index_of(addr: u64, s: u32, b: u32) -> u64 {
    (((addr as u128) >> (b as u128)) & low_mask(s)) as u64
}

/// The low `b` bits of `addr`.
pub open spec fn offset_of(addr: u64, b: u32) -> u64 {
    ((addr as u128) & low_mask(b)) as u64
}

/// The address whose parts are `tag`, `index` and `offset`.
pub open spec fn compose(tag: u64, index: u64, offset: u64, s: u32, b: u32) -> u128 {
    ((tag as u128) << ((s + b) as u128)) | ((index as u128) << (b as u128)) | (offset as u128)
}

/// Decomposing an address and composing its parts again gives the address back,
/// and the set index always names one of the `2^s` sets.
pub proof fn lemma_decompose_round_trip(addr: u64, s: u32, b: u32)
    requires
        bits_fit(s, b),
    ensures
        compose(tag_of(addr, s, b), index_of(addr, s, b), offset_of(addr, b), s, b) == addr as u128,
        (index_of(addr, s, b) as u128) < (1u128 << (s as u128)),
        (offset_of(addr, b) as u128) < (1u128 << (b as u128)),
{
    assert(((((addr as u128) >> ((s + b) as u128)) as u64) as u128) << ((s + b) as u128)
        | (((((addr as u128) >> (b as u128)) & !(0xffff_ffff_ffff_ffff_ffff_ffff_ffff_ffffu128
        << s)) as u64) as u128) << (b as u128)
        | ((((addr as u128) & !(0xffff_ffff_ffff_ffff_ffff_ffff_ffff_ffffu128 << b)) as u64)
        as u128) == addr as u128) by (bit_vector)
        requires
            s + b <= 64,
    ;
    assert((((((addr as u128) >> (b as u128)) & !(0xffff_ffff_ffff_ffff_ffff_ffff_ffff_ffffu128
        << s)) as u64) as u128) < (1u128 << (s as u128))) by (bit_vector)
        requires
            s + b <= 64,
    ;
    assert(((((addr as u128) & !(0xffff_ffff_ffff_ffff_ffff_ffff_ffff_ffffu128 << b)) as u64)
        as u128) < (1u128 << (b as u128))) by (bit_vector)
        requires
            s + b <= 64,
    ;
}

/// The tag, set index and block offset of `addr` under `s` index bits and `b` offset bits.
pub fn decompose(addr: u64, s: u32, b: u32) -> (r: (u64, u64, u64))
    requires
        bits_fit(s, b),
    ensures
        r.0 == tag_of(addr, s, b),
        r.1 == index_of(addr, s, b),
        r.2 == offset_of(addr, b),
{
    let wide = addr as u128;
    let all: u128 = 0xffff_ffff_ffff_ffff_ffff_ffff_ffff_ffffu128;
    let tag = (wide >> (s + b)) as u64;
    let index = ((wide >> b) & !(all << s)) as u64;
    let offset = (wide & !(all << b)) as u64;
    (tag, index, offset)
}

} // verus!
