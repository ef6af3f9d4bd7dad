use vstd::prelude::*;

use crate::layer::{ConvMapping, InfoWrapper, QuantizedWeightUnit, WeightUnit};
use crate::ordering::{lemma_lex_order, lex_le, lex_lt, vec_lex_lt};
use vstd::arithmetic::div_mod::{lemma_fundamental_div_mod, lemma_fundamental_div_mod_converse, lemma_mod_bound};

verus! {

/// The value fits in an `i32`.
pub open spec fn fits_i32(x: int) -> bool {
    i32::MIN <= x <= i32::MAX
}

/// Division rounding toward zero, as Rust's integer `/` does.
pub open spec fn trunc_div(a: int, b: int) -> int {
    if a >= 0 {
        if b > 0 {
            a / b
        } else {
            -(a / -b)
        }
    } else {
        if b > 0 {
            -((-a) / b)
        } else {
            (-a) / (-b)
        }
    }
}

/// Full output rows that `count` outputs of a convolution cover.
pub open spec fn rows_of(conv: ConvMapping, count: i32) -> int {
    trunc_div(count as int, conv.o.2 as int)
}

/// Outputs beyond the full rows.
pub open spec fn cols_of(conv: ConvMapping, count: i32) -> int {
    count - rows_of(conv, count) * conv.o.2
}

/// Every intermediate of the input count computation fits in an `i32`,
/// and the division by the output width is defined.
pub open spec fn input_count_defined(conv: ConvMapping, count: i32) -> bool {
    let (k0, k1) = (conv.k.0 as int, conv.k.1 as int);
    let (s0, s1) = (conv.s.0 as int, conv.s.1 as int);
    let o2 = conv.o.2 as int;
    let i2 = conv.i.2 as int;
    let rows = rows_of(conv, count);
    let col = cols_of(conv, count);
    let in_rows = k1 + (rows - 1) * s1;
    let remain = k1 * s1 + (col - 1) * s0 * s1;
    let extra = (k1 - s1) * k0 + (col - 1) * (k1 - s1) * s0;
    let in_rows2 = if rows == 0 { 0 } else { in_rows };
    let remain2 = if rows == 0 { remain + extra } else { remain };
    let remain3 = if col == 0 { 0 } else { remain2 };
    &&& o2 != 0
    &&& !(count == i32::MIN && o2 == -1)
    &&& fits_i32(rows * o2)
    &&& fits_i32(col)
    &&& fits_i32(rows - 1)
    &&& fits_i32((rows - 1) * s1)
    &&& fits_i32(in_rows)
    &&& fits_i32(k1 * s1)
    &&& fits_i32(col - 1)
    &&& fits_i32((col - 1) * s0)
    &&& fits_i32((col - 1) * s0 * s1)
    &&& fits_i32(remain)
    &&& (rows == 0 ==> {
        &&& fits_i32(k1 - s1)
        &&& fits_i32((k1 - s1) * k0)
        &&& fits_i32((col - 1) * (k1 - s1))
        &&& fits_i32((col - 1) * (k1 - s1) * s0)
        &&& fits_i32(extra)
        &&& fits_i32(remain + extra)
    })
    &&& fits_i32(in_rows2 * i2)
    &&& fits_i32(in_rows2 * i2 + remain3)
}

/// How many input values a processor must hold to compute `count`
/// consecutive outputs of a convolution, starting at the beginning of an
/// output row: full kernel-high bands for the full rows covered, plus the
/// part of a band the remaining outputs read.
pub open spec fn spec_input_count(conv: ConvMapping, count: i32) -> int {
    let (k0, k1) = (conv.k.0 as int, conv.k.1 as int);
    let (s0, s1) = (conv.s.0 as int, conv.s.1 as int);
    let i2 = conv.i.2 as int;
    let rows = rows_of(conv, count);
    let col = cols_of(conv, count);
    let in_rows = if rows == 0 { 0 } else { k1 + (rows - 1) * s1 };
    let remain = if col == 0 {
        0
    } else if rows == 0 {
        k1 * s1 + (col - 1) * s0 * s1 + (k1 - s1) * k0 + (col - 1) * (k1 - s1) * s0
    } else {
        k1 * s1 + (col - 1) * s0 * s1
    };
    in_rows * i2 + remain
}

/// The input count of a unit of layer `info` computing `count` outputs;
/// -1 for a layer that is not a convolution.
pub open spec fn spec_unit_input_count(info: InfoWrapper, count: i32) -> int {
    match info {
        InfoWrapper::Convolution(conv) => spec_input_count(conv, count),
        _ => -1,
    }
}

/// The unit's input count is computed without overflow.
pub open spec fn unit_input_count_defined(info: InfoWrapper, count: i32) -> bool {
    match info {
        InfoWrapper::Convolution(conv) => input_count_defined(conv, count),
        _ => true,
    }
}

/// `a / b` for `i32`, rounding toward zero, computed on magnitudes.
pub(crate) fn i32_div(a: i32, b: i32) -> (r: i32)
    requires
        b != 0,
        !(a == i32::MIN && b == -1),
    ensures
        r == trunc_div(a as int, b as int),
{
    let aa: i64 = if a >= 0 { a as i64 } else { -(a as i64) };
    let bb: i64 = if b >= 0 { b as i64 } else { -(b as i64) };
    let q: i64 = aa / bb;
    proof {
        assert(0 <= q <= aa) by (nonlinear_arith)
            requires
                q == aa / bb,
                aa >= 0,
                bb >= 1,
        ;
        if aa == 2147483648 {
            assert(bb >= 2 ==> q <= 1073741824) by (nonlinear_arith)
                requires
                    q == aa / bb,
                    aa == 2147483648,
            ;
        }
    }
    if (a >= 0) == (b > 0) {
        q as i32
    } else {
        (-q) as i32
    }
}

pub(crate) fn conv_input_count(conv: &ConvMapping, count: i32) -> (r: i32)
    requires
        input_count_defined(*conv, count),
    ensures
        r == spec_input_count(*conv, count),
{
    let rows = i32_div(count, conv.o.2);
    assert(rows == rows_of(*conv, count));
    let col = count - rows * conv.o.2;
    let mut in_rows = conv.k.1 + (rows - 1) * conv.s.1;
    let mut remain = conv.k.1 * conv.s.1 + (col - 1) * conv.s.0 * conv.s.1;
    if rows == 0 {
        in_rows = 0;
        remain = remain + ((conv.k.1 - conv.s.1) * conv.k.0 + (col - 1) * (conv.k.1 - conv.s.1)
            * conv.s.0);
    }
    if col == 0 {
        remain = 0;
    }
    in_rows * conv.i.2 + remain
}

/// Number of input values a weight unit's processor holds for the unit's
/// outputs (see `spec_input_count`); -1 when the unit is not a convolution.
pub fn get_input_count<T>(weight: &WeightUnit<T>) -> (r: i32)
    requires
        unit_input_count_defined(weight.info, weight.count),
    ensures
        r == spec_unit_input_count(weight.info, weight.count),
{
    if let InfoWrapper::Convolution(conv) = &weight.info {
        conv_input_count(conv, weight.count)
    } else {
        -1
    }
}

/// `get_input_count` for a quantized weight unit.
pub fn get_input_count_quant<S>(weight: &QuantizedWeightUnit<S>) -> (r: i32)
    requires
        unit_input_count_defined(weight.info, weight.count),
    ensures
        r == spec_unit_input_count(weight.info, weight.count),
{
    if let InfoWrapper::Convolution(conv) = &weight.info {
        conv_input_count(conv, weight.count)
    } else {
        -1
    }
}

/// The page size recorded for group `group_nr`: the size of the first
/// entry for the group, or -1 when the group has none.
pub fn find_pagesize(page_vec: &Vec<(u16, i32)>, group_nr: u16) -> (r: i32)
    ensures
        (forall|i: int| 0 <= i < page_vec@.len() ==> #[trigger] page_vec@[i].0 != group_nr)
            ==> r == -1,
        forall|i: int|
            0 <= i < page_vec@.len() && #[trigger] page_vec@[i].0 == group_nr && (forall|j: int|
                0 <= j < i ==> page_vec@[j].0 != group_nr) ==> r == page_vec@[i].1,
{
    let mut t: usize = 0;
    while t < page_vec.len()
        invariant
            t <= page_vec@.len(),
            forall|j: int| 0 <= j < t ==> page_vec@[j].0 != group_nr,
        decreases page_vec@.len() - t,
    {
        if page_vec[t].0 == group_nr {
            return page_vec[t].1;
        }
        t = t + 1;
    }
    -1
}

/// `result` is `unsorted` stably sorted by start position: `perm` says
/// which unit of the unsorted list stands at each place, the start positions are in
/// lexicographic order, and units with equal start positions keep their
/// order in the unsorted list.
pub open spec fn stably_sorted_by_start<T>(
    unsorted: Seq<WeightUnit<T>>,
    result: Seq<WeightUnit<T>>,
    perm: Seq<int>,
) -> bool {
    &&& perm.len() == unsorted.len() == result.len()
    &&& forall|i: int| 0 <= i < perm.len() ==> 0 <= #[trigger] perm[i] < unsorted.len()
    &&& forall|i: int, j: int| 0 <= i < j < perm.len() ==> perm[i] != perm[j]
    &&& forall|i: int| 0 <= i < perm.len() ==> #[trigger] result[i] == unsorted[perm[i]]
    &&& forall|i: int, j: int|
        0 <= i < j < result.len() ==> lex_le(result[i].start_pos_in@, result[j].start_pos_in@)
    &&& forall|i: int, j: int|
        0 <= i < j < result.len() && result[i].start_pos_in@ == result[j].start_pos_in@
            ==> perm[i] < perm[j]
}

/// Sorts weight units by their start positions (lexicographically), keeping
/// units with equal start positions in their order in the unsorted list.
pub fn rearrange_weight<T>(weight: &mut Vec<WeightUnit<T>>)
    ensures
        exists|perm: Seq<int>| stably_sorted_by_start(old(weight)@, final(weight)@, perm),
{
    let ghost unsorted = old(weight)@;
    let mut input: Vec<WeightUnit<T>> = Vec::new();
    std::mem::swap(&mut input, weight);
    let n = input.len();
    let mut out: Vec<WeightUnit<T>> = Vec::new();
    let ghost mut perm: Seq<int> = Seq::empty();
    let mut t: usize = 0;
    while t < n
        invariant
            n == unsorted.len(),
            t <= n,
            input@ == unsorted.subrange(t as int, n as int),
            out@.len() == t,
            perm.len() == t,
            forall|i: int| 0 <= i < t ==> 0 <= #[trigger] perm[i] < t,
            forall|i: int, j: int| 0 <= i < j < t ==> perm[i] != perm[j],
            forall|i: int| 0 <= i < t ==> #[trigger] out@[i] == unsorted[perm[i]],
            forall|i: int, j: int|
                0 <= i < j < t ==> lex_le(out@[i].start_pos_in@, out@[j].start_pos_in@),
            forall|i: int, j: int|
                0 <= i < j < t && out@[i].start_pos_in@ == out@[j].start_pos_in@ ==> perm[i]
                    < perm[j],
        decreases n - t,
    {
        let x = input.remove(0);
        assert(x == unsorted[t as int]);
        let mut p: usize = 0;
        while p < out.len() && !vec_lex_lt(&x.start_pos_in, &out[p].start_pos_in)
            invariant
                p <= out@.len(),
                forall|i: int| 0 <= i < p ==> !lex_lt(x.start_pos_in@, #[trigger] out@[i].start_pos_in@),
            decreases out@.len() - p,
        {
            p = p + 1;
        }
        proof {
            assert forall|i: int| 0 <= i < p implies lex_le(
                #[trigger] out@[i].start_pos_in@,
                x.start_pos_in@,
            ) by {
                lemma_lex_order(out@[i].start_pos_in@, x.start_pos_in@, x.start_pos_in@);
            }
            assert forall|j: int| p <= j < out@.len() implies lex_lt(
                x.start_pos_in@,
                #[trigger] out@[j].start_pos_in@,
            ) by {
                let a = x.start_pos_in@;
                let b = out@[p as int].start_pos_in@;
                let c = out@[j].start_pos_in@;
                lemma_lex_order(a, b, c);
                assert(lex_le(b, c));
            }
        }
        let ghost old_out = out@;
        let ghost old_perm = perm;
        out.insert(p, x);
        proof {
            perm = old_perm.subrange(0, p as int).push(t as int) + old_perm.subrange(
                p as int,
                t as int,
            );
            assert forall|i: int| 0 <= i <= t implies #[trigger] out@[i] == unsorted[perm[i]] by {
                if i < p {
                    assert(out@[i] == old_out[i]);
                } else if i > p {
                    assert(out@[i] == old_out[i - 1]);
                }
            }
            assert forall|i: int, j: int|
                0 <= i < j <= t implies lex_le(out@[i].start_pos_in@, out@[j].start_pos_in@) by {
                let a = out@[i].start_pos_in@;
                let c = out@[j].start_pos_in@;
                lemma_lex_order(a, c, a);
                if i < p && j < p {
                    assert(out@[i] == old_out[i] && out@[j] == old_out[j]);
                } else if i < p && j == p {
                    assert(out@[i] == old_out[i]);
                } else if i < p && j > p {
                    assert(out@[i] == old_out[i] && out@[j] == old_out[j - 1]);
                } else if i == p {
                    assert(out@[j] == old_out[j - 1]);
                } else {
                    assert(out@[i] == old_out[i - 1] && out@[j] == old_out[j - 1]);
                }
            }
            assert forall|i: int, j: int|
                0 <= i < j <= t && out@[i].start_pos_in@ == out@[j].start_pos_in@ implies perm[i]
                < perm[j] by {
                let a = out@[i].start_pos_in@;
                lemma_lex_order(a, a, a);
                if i < p && j < p {
                    assert(out@[i] == old_out[i] && out@[j] == old_out[j]);
                } else if i < p && j == p {
                    assert(out@[i] == old_out[i]);
                } else if i < p && j > p {
                    assert(out@[i] == old_out[i] && out@[j] == old_out[j - 1]);
                } else if i == p {
                    assert(out@[j] == old_out[j - 1]);
                } else {
                    assert(out@[i] == old_out[i - 1] && out@[j] == old_out[j - 1]);
                }
            }
            assert(input@ =~= unsorted.subrange(t as int + 1, n as int));
        }
        t = t + 1;
    }
    std::mem::swap(&mut out, weight);
    assert(unsorted.subrange(0, n as int) =~= unsorted);
    assert(stably_sorted_by_start(unsorted, weight@, perm));
}

/// The input count of `r` full output rows and `q` further outputs, for a
/// square kernel `k`, square stride `s` and input row width `i2`.
spec fn band_count(k: int, s: int, i2: int, r: int, q: int) -> int {
    let in_rows = if r == 0 { 0 } else { k + (r - 1) * s };
    let remain = if q == 0 {
        0
    } else if r == 0 {
        k * s + (q - 1) * s * s + (k - s) * k + (q - 1) * (k - s) * s
    } else {
        k * s + (q - 1) * s * s
    };
    in_rows * i2 + remain
}

proof fn lemma_input_count_split(conv: ConvMapping, count: i32)
    requires
        conv.k.0 == conv.k.1,
        conv.s.0 == conv.s.1,
        conv.o.2 >= 1,
        count >= 0,
    ensures
        spec_input_count(conv, count) == band_count(
            conv.k.0 as int,
            conv.s.0 as int,
            conv.i.2 as int,
            count as int / conv.o.2 as int,
            count as int % conv.o.2 as int,
        ),
{
    let o2 = conv.o.2 as int;
    let c = count as int;
    lemma_fundamental_div_mod(c, o2);
    assert(o2 * (c / o2) == (c / o2) * o2) by (nonlinear_arith);
}

/// A run of outputs needs more inputs the longer it is.  For a square
/// kernel `k`, a square stride, output rows of `o2` outputs and an input
/// row just wide enough for them (`i2 == (o2 - 1) * s + k`): one more output
/// always needs strictly more inputs; a single output (in a row of at
/// least two) needs a whole `k x k` window, and a whole output row needs
/// `k` whole input rows.
pub proof fn lemma_input_count_grows(conv: ConvMapping, count: i32)
    requires
        conv.k.0 == conv.k.1,
        conv.k.0 > 0,
        conv.s.0 == conv.s.1,
        conv.s.0 > 0,
        conv.o.2 >= 1,
        conv.i.2 == (conv.o.2 - 1) * conv.s.0 + conv.k.0,
        0 <= count < i32::MAX,
    ensures
        spec_input_count(conv, count) < spec_input_count(conv, (count + 1) as i32),
        conv.o.2 >= 2 ==> spec_input_count(conv, 1) == conv.k.0 * conv.k.1,
        spec_input_count(conv, conv.o.2) == conv.k.1 * conv.i.2,
{
    let k = conv.k.0 as int;
    let s = conv.s.0 as int;
    let o2 = conv.o.2 as int;
    let i2 = conv.i.2 as int;
    let c = count as int;
    lemma_input_count_split(conv, count);
    lemma_input_count_split(conv, (count + 1) as i32);
    lemma_input_count_split(conv, conv.o.2);
    let r = c / o2;
    let q = c % o2;
    lemma_fundamental_div_mod(c, o2);
    lemma_mod_bound(c, o2);
    assert(o2 * r == r * o2) by (nonlinear_arith);
    assert(r >= 0) by (nonlinear_arith)
        requires
            c == r * o2 + q,
            c >= 0,
            0 <= q < o2,
    ;
    assert(o2 == 1 * o2 + 0);
    lemma_fundamental_div_mod_converse(o2, o2, 1, 0);
    assert((k + (1 - 1) * s) * i2 == k * i2) by (nonlinear_arith);
    assert(band_count(k, s, i2, 1, 0) == k * i2);
    if o2 >= 2 {
        lemma_input_count_split(conv, 1);
        assert(1 == 0 * o2 + 1);
        lemma_fundamental_div_mod_converse(1, o2, 0, 1);
        assert(band_count(k, s, i2, 0, 1) == k * k) by (nonlinear_arith)
            requires
                band_count(k, s, i2, 0, 1) == k * s + (k - s) * k,
        ;
    }
    let before = band_count(k, s, i2, r, q);
    if q + 1 < o2 {
        assert(c + 1 == r * o2 + (q + 1));
        lemma_fundamental_div_mod_converse(c + 1, o2, r, q + 1);
        let after = band_count(k, s, i2, r, q + 1);
        if r == 0 {
            if q == 0 {
                assert(after == k * k) by (nonlinear_arith)
                    requires
                        after == k * s + (k - s) * k,
                ;
                assert(k * k > 0) by (nonlinear_arith)
                    requires
                        k > 0,
                ;
            } else {
                assert(after - before == s * k) by (nonlinear_arith)
                    requires
                        after == k * s + q * s * s + (k - s) * k + q * (k - s) * s,
                        before == k * s + (q - 1) * s * s + (k - s) * k + (q - 1) * (k - s) * s,
                ;
                assert(s * k > 0) by (nonlinear_arith)
                    requires
                        k > 0,
                        s > 0,
                ;
            }
        } else {
            let base = (k + (r - 1) * s) * i2;
            if q == 0 {
                assert(after - before == k * s);
            } else {
                assert(after - before == s * s) by (nonlinear_arith)
                    requires
                        after == base + (k * s + q * s * s),
                        before == base + (k * s + (q - 1) * s * s),
                ;
            }
            assert(k * s > 0 && s * s > 0) by (nonlinear_arith)
                requires
                    k > 0,
                    s > 0,
            ;
        }
    } else {
        assert(q == o2 - 1);
        assert(c + 1 == (r + 1) * o2 + 0) by (nonlinear_arith)
            requires
                c == r * o2 + q,
                q == o2 - 1,
        ;
        lemma_fundamental_div_mod_converse(c + 1, o2, r + 1, 0);
        let after = band_count(k, s, i2, r + 1, 0);
        assert(after == (k + r * s) * i2);
        if r == 0 {
            if q == 0 {
                assert(before == 0);
                assert(after == k * i2);
                assert(k * i2 > 0) by (nonlinear_arith)
                    requires
                        k > 0,
                        i2 >= k,
                ;
            } else {
                assert(after - before == s * k) by (nonlinear_arith)
                    requires
                        after == k * i2,
                        i2 == (o2 - 1) * s + k,
                        q == o2 - 1,
                        before == k * s + (q - 1) * s * s + (k - s) * k + (q - 1) * (k - s) * s,
                ;
                assert(s * k > 0) by (nonlinear_arith)
                    requires
                        k > 0,
                        s > 0,
                ;
            }
        } else {
            if q == 0 {
                assert(after - before == s * i2) by (nonlinear_arith)
                    requires
                        after == (k + r * s) * i2,
                        before == (k + (r - 1) * s) * i2,
                ;
                assert(s * i2 > 0) by (nonlinear_arith)
                    requires
                        s > 0,
                        i2 >= k,
                        k > 0,
                ;
            } else {
                assert(after - before == s * s) by (nonlinear_arith)
                    requires
                        after == (k + r * s) * i2,
                        before == (k + (r - 1) * s) * i2 + (k * s + (q - 1) * s * s),
                        i2 == (o2 - 1) * s + k,
                        q == o2 - 1,
                ;
                assert(s * s > 0) by (nonlinear_arith)
                    requires
                        s > 0,
                ;
            }
        }
    }
}

} // verus!
