use vstd::prelude::*;

verus! {

/// Bit `t` of `x` is set.
pub open spec fn bit_set(x: u128, t: int) -> bool {
    (x >> (t as u128)) & 1u128 == 1u128
}

/// The numbers below `n` whose bits are set in `x`, in increasing order.
pub open spec fn set_bits_below(x: u128, n: int) -> Seq<u8>
    decreases n,
{
    if n <= 0 {
        Seq::empty()
    } else if bit_set(x, n - 1) {
        set_bits_below(x, n - 1).push((n - 1) as u8)
    } else {
        set_bits_below(x, n - 1)
    }
}

/// The processors a mapping cell names: the numbers of its set bits below
/// 127 (bit 127 is the padding flag), in increasing order.
pub fn split_u128_to_u8(x: u128) -> (r: Vec<u8>)
    ensures
        r@ == set_bits_below(x, 127),
{
    let mut r: Vec<u8> = Vec::new();
    let mut t: u8 = 0;
    while t < 127
        invariant
            t <= 127,
            r@ == set_bits_below(x, t as int),
        decreases 127 - t,
    {
        if (x >> t) & 1 == 1 {
            r.push(t);
        }
        t = t + 1;
    }
    r
}

} // verus!
