use vstd::prelude::*;

use crate::conv_schedule::{
    convolution_schedule, layouts_view, planned_outputs, planned_views, schedule_defined, LayoutView,
    PlannedOutput, UnitLayout,
};
use crate::layer::{InfoWrapper, QuantizedWeightUnit};
use crate::weights::fits_i32;

verus! {

/// How a rescaled accumulator is rounded to an integer.
#[derive(Clone, Copy, Debug, PartialEq, Eq)]
pub enum Rounding {
    /// To the nearest integer, halves away from zero.
    Nearest,
    /// Toward zero.
    TowardZero,
}

/// Number of output kernels the result has room for.
pub open spec fn kernel_slots() -> int {
    1500
}

/// The position fields of quantized weight units.
pub open spec fn quant_layouts<S>(units: Seq<QuantizedWeightUnit<S>>) -> Seq<LayoutView> {
    units.map_values(
        |u: QuantizedWeightUnit<S>|
            LayoutView { kernel: u.which_kernel, count: u.count, pos: u.start_pos_in@, info: u.info },
    )
}

/// Sum of the first `n` products `(input - z_in) * (weight - z_w)` of the
/// taps.
pub open spec fn tap_sum(input: Seq<u8>, data: Seq<u8>, zin: u8, zw: u8, taps: Seq<(int, int)>, n: int) -> int
    decreases n,
{
    if n <= 0 {
        0
    } else {
        tap_sum(input, data, zin, zw, taps, n - 1) + (input[taps[n - 1].0] - zin) * (data[taps[n - 1].1] - zw)
    }
}

/// The taps read inside the input and the weights, and every partial sum
/// fits in an `i32`.
pub open spec fn taps_defined(input: Seq<u8>, data: Seq<u8>, zin: u8, zw: u8, taps: Seq<(int, int)>) -> bool {
    &&& forall|t: int| 0 <= t < taps.len() ==> 0 <= (#[trigger] taps[t]).0 < input.len() && 0 <= taps[t].1 < data.len()
    &&& forall|n: int| 1 <= n <= taps.len() ==> fits_i32(#[trigger] tap_sum(input, data, zin, zw, taps, n))
}

/// The taps of a fully connected unit: input and weight `t` for each `t`.
pub open spec fn dense_taps(len: int) -> Seq<(int, int)> {
    Seq::new(len as nat, |t: int| (t, t))
}

/// One accumulated output: its kernel, the unit that computes it, and its
/// accumulator after the bias.
pub struct AccOutput {
    pub kernel: u16,
    pub unit: int,
    pub taps: Seq<(int, int)>,
}

/// The accumulator of an output: the unit's bias plus its tap sum.
pub open spec fn acc_of<S>(input: Seq<u8>, units: Seq<QuantizedWeightUnit<S>>, o: AccOutput) -> int {
    let u = units[o.unit];
    u.bias + tap_sum(input, u.data@, u.zero_points.0, u.zero_points.1, o.taps, o.taps.len() as int)
}

/// The outputs of a share, in the order they are computed, with how their
/// accumulators are rounded after rescaling.
pub open spec fn share_outputs<S>(input: Seq<u8>, units: Seq<QuantizedWeightUnit<S>>) -> Seq<AccOutput> {
    match units[0].info {
        InfoWrapper::Convolution(conv) => planned_outputs(conv, quant_layouts(units), input.len() as int).map_values(
            |p: crate::conv_schedule::PlannedView| AccOutput { kernel: p.kernel, unit: p.unit, taps: p.taps },
        ),
        InfoWrapper::Linear(_) => Seq::new(
            units.len(),
            |i: int| AccOutput { kernel: units[i].which_kernel, unit: i, taps: dense_taps(input.len() as int) },
        ),
        _ => Seq::empty(),
    }
}

/// The rounding the share's layer uses.
pub open spec fn share_rounding<S>(units: Seq<QuantizedWeightUnit<S>>) -> Rounding {
    match units[0].info {
        InfoWrapper::Convolution(_) => Rounding::Nearest,
        _ => Rounding::TowardZero,
    }
}

/// The output byte of a rescaled accumulator `r`: plus the unit's output
/// zero point, clamped to 0..=255.
pub open spec fn output_byte(r: int, zout: u8) -> u8 {
    let v = r + zout;
    if v < 0 {
        0u8
    } else if v > 255 {
        255u8
    } else {
        v as u8
    }
}

/// The outputs of kernel `kernel` among the first `n`, in order.
pub open spec fn kernel_bucket(kernels: Seq<u16>, bytes: Seq<u8>, kernel: int, n: int) -> Seq<u8>
    decreases n,
{
    if n <= 0 {
        Seq::empty()
    } else if kernels[n - 1] == kernel {
        kernel_bucket(kernels, bytes, kernel, n - 1).push(bytes[n - 1])
    } else {
        kernel_bucket(kernels, bytes, kernel, n - 1)
    }
}

/// The outputs grouped by kernel: those of kernel 0, then kernel 1, and so
/// on below `t`, each group in computation order.
pub open spec fn grouped_by_kernel(kernels: Seq<u16>, bytes: Seq<u8>, t: int) -> Seq<u8>
    decreases t,
{
    if t <= 0 {
        Seq::empty()
    } else {
        grouped_by_kernel(kernels, bytes, t - 1) + kernel_bucket(kernels, bytes, t - 1, kernels.len() as int)
    }
}

/// The computation is defined for the share: a convolution's schedule is
/// defined, a fully connected unit has as many weights as inputs, every tap
/// is in range with sums fitting, every accumulator fits, every kernel has
/// a slot, and the rescaling accepts every accumulator and gives values to
/// which the output zero point can be added.
pub open spec fn quant_defined<S, F: Fn(&S, i32, Rounding) -> i32>(
    input: Seq<u8>,
    units: Seq<QuantizedWeightUnit<S>>,
    rescale: F,
) -> bool {
    units.len() > 0 ==> {
        let outs = share_outputs(input, units);
        &&& (units[0].info matches InfoWrapper::Convolution(conv) ==> schedule_defined(
            conv,
            quant_layouts(units),
            input.len() as int,
        ))
        &&& (units[0].info matches InfoWrapper::Linear(_) ==> forall|i: int|
            0 <= i < units.len() ==> (#[trigger] units[i]).data@.len() == input.len())
        &&& forall|p: int|
            0 <= p < outs.len() ==> {
                let o = #[trigger] outs[p];
                let u = units[o.unit];
                &&& 0 <= o.unit < units.len()
                &&& taps_defined(input, u.data@, u.zero_points.0, u.zero_points.1, o.taps)
                &&& fits_i32(acc_of(input, units, o))
                &&& o.kernel < kernel_slots()
                &&& call_requires(rescale, (&u.m, acc_of(input, units, o) as i32, share_rounding(units)))
                &&& forall|r: i32|
                    #[trigger] call_ensures(rescale, (&u.m, acc_of(input, units, o) as i32, share_rounding(units)), r)
                        ==> r + u.zero_points.2 <= i32::MAX
            }
    }
}


/// The kernels of the outputs.
pub open spec fn output_kernels(outs: Seq<AccOutput>) -> Seq<u16> {
    outs.map_values(|o: AccOutput| o.kernel)
}

/// The output bytes for rescaled accumulators `rs`.
pub open spec fn output_bytes<S>(units: Seq<QuantizedWeightUnit<S>>, outs: Seq<AccOutput>, rs: Seq<i32>) -> Seq<u8> {
    Seq::new(outs.len(), |p: int| output_byte(rs[p] as int, units[outs[p].unit].zero_points.2))
}

/// `rs` are values the rescaling may give for the outputs' accumulators.
pub open spec fn rescaled_by<S, F: Fn(&S, i32, Rounding) -> i32>(
    input: Seq<u8>,
    units: Seq<QuantizedWeightUnit<S>>,
    rescale: F,
    outs: Seq<AccOutput>,
    rs: Seq<i32>,
) -> bool {
    &&& rs.len() == outs.len()
    &&& forall|p: int|
        0 <= p < outs.len() ==> call_ensures(
            rescale,
            (&units[outs[p].unit].m, acc_of(input, units, outs[p]) as i32, share_rounding(units)),
            #[trigger] rs[p],
        )
}

fn quant_layouts_exec<S>(units: &Vec<QuantizedWeightUnit<S>>) -> (r: Vec<UnitLayout>)
    ensures
        layouts_view(r@) == quant_layouts(units@),
{
    let mut r: Vec<UnitLayout> = Vec::new();
    let mut t: usize = 0;
    while t < units.len()
        invariant
            t <= units@.len(),
            layouts_view(r@) == quant_layouts(units@).take(t as int),
        decreases units@.len() - t,
    {
        let u = &units[t];
        let ghost before = layouts_view(r@);
        r.push(UnitLayout { which_kernel: u.which_kernel, count: u.count, start_pos_in: u.start_pos_in.clone(), info: u.info });
        proof {
            assert(layouts_view(r@) =~= before.push(quant_layouts(units@)[t as int]));
            assert(quant_layouts(units@).take(t + 1) =~= quant_layouts(units@).take(t as int).push(quant_layouts(units@)[t as int]));
        }
        t = t + 1;
    }
    assert(quant_layouts(units@).take(units@.len() as int) =~= quant_layouts(units@));
    r
}

/// The tap sum of an output.
fn accumulate_taps(input: &Vec<u8>, data: &Vec<u8>, zin: u8, zw: u8, taps: &Vec<(usize, usize)>) -> (r: i32)
    requires
        taps_defined(input@, data@, zin, zw, crate::conv_schedule::taps_view(taps@)),
    ensures
        r == tap_sum(input@, data@, zin, zw, crate::conv_schedule::taps_view(taps@), taps@.len() as int),
{
    let ghost tv = crate::conv_schedule::taps_view(taps@);
    let mut acc: i32 = 0;
    let mut t: usize = 0;
    while t < taps.len()
        invariant
            tv == crate::conv_schedule::taps_view(taps@),
            taps_defined(input@, data@, zin, zw, tv),
            t <= taps@.len(),
            acc == tap_sum(input@, data@, zin, zw, tv, t as int),
        decreases taps@.len() - t,
    {
        let (index, widx) = taps[t];
        assert(tv[t as int] == (index as int, widx as int));
        assert(fits_i32(tap_sum(input@, data@, zin, zw, tv, t + 1)));
        let x = input[index] as i32 - zin as i32;
        let y = data[widx] as i32 - zw as i32;
        assert(-255 <= x <= 255 && -255 <= y <= 255);
        assert(-65025 <= x * y <= 65025) by (nonlinear_arith)
            requires
                -255 <= x <= 255,
                -255 <= y <= 255,
        ;
        acc = acc + x * y;
        t = t + 1;
    }
    acc
}

/// The tap sum of a fully connected unit.
fn accumulate_dense(input: &Vec<u8>, data: &Vec<u8>, zin: u8, zw: u8) -> (r: i32)
    requires
        data@.len() == input@.len(),
        taps_defined(input@, data@, zin, zw, dense_taps(input@.len() as int)),
    ensures
        r == tap_sum(input@, data@, zin, zw, dense_taps(input@.len() as int), input@.len() as int),
{
    let ghost tv = dense_taps(input@.len() as int);
    let mut acc: i32 = 0;
    let mut t: usize = 0;
    while t < input.len()
        invariant
            tv == dense_taps(input@.len() as int),
            data@.len() == input@.len(),
            taps_defined(input@, data@, zin, zw, tv),
            t <= input@.len(),
            acc == tap_sum(input@, data@, zin, zw, tv, t as int),
        decreases input@.len() - t,
    {
        assert(tv[t as int] == (t as int, t as int));
        assert(fits_i32(tap_sum(input@, data@, zin, zw, tv, t + 1)));
        let x = data[t] as i32 - zw as i32;
        let y = input[t] as i32 - zin as i32;
        assert(-65025 <= x * y <= 65025) by (nonlinear_arith)
            requires
                -255 <= x <= 255,
                -255 <= y <= 255,
        ;
        assert(x * y == y * x) by (nonlinear_arith);
        acc = acc + x * y;
        t = t + 1;
    }
    acc
}

fn clamp_byte(v: i32) -> (r: u8)
    ensures
        r == (if v < 0 {
            0u8
        } else if v > 255 {
            255u8
        } else {
            v as u8
        }),
{
    if v < 0 {
        0
    } else if v > 255 {
        255
    } else {
        v as u8
    }
}

/// The outputs grouped by kernel below `slots`.
fn group_outputs(kernels: &Vec<u16>, bytes: &Vec<u8>) -> (r: Vec<u8>)
    requires
        kernels@.len() == bytes@.len(),
    ensures
        r@ == grouped_by_kernel(kernels@, bytes@, kernel_slots()),
{
    let mut r: Vec<u8> = Vec::new();
    let mut t: usize = 0;
    while t < 1500
        invariant
            t <= 1500,
            kernels@.len() == bytes@.len(),
            r@ == grouped_by_kernel(kernels@, bytes@, t as int),
        decreases 1500 - t,
    {
        let ghost base = r@;
        let mut p: usize = 0;
        while p < kernels.len()
            invariant
                t < 1500,
                p <= kernels@.len(),
                kernels@.len() == bytes@.len(),
                base == grouped_by_kernel(kernels@, bytes@, t as int),
                r@ == base + kernel_bucket(kernels@, bytes@, t as int, p as int),
            decreases kernels@.len() - p,
        {
            if kernels[p] as usize == t {
                r.push(bytes[p]);
                assert(r@ =~= base + kernel_bucket(kernels@, bytes@, t as int, p + 1));
            }
            p = p + 1;
        }
        t = t + 1;
    }
    r
}


/// Number of the first `n` kernels equal to `x`.
pub open spec fn kernel_occurrences(kernels: Seq<u16>, x: int, n: int) -> int
    decreases n,
{
    if n <= 0 {
        0
    } else if kernels[n - 1] == x {
        kernel_occurrences(kernels, x, n - 1) + 1
    } else {
        kernel_occurrences(kernels, x, n - 1)
    }
}

/// Number of the first `n` kernels below `t`.
pub open spec fn kernels_below(kernels: Seq<u16>, t: int, n: int) -> int
    decreases n,
{
    if n <= 0 {
        0
    } else if kernels[n - 1] < t {
        kernels_below(kernels, t, n - 1) + 1
    } else {
        kernels_below(kernels, t, n - 1)
    }
}

proof fn lemma_bucket_len(kernels: Seq<u16>, bytes: Seq<u8>, x: int, n: int)
    ensures
        kernel_bucket(kernels, bytes, x, n).len() == kernel_occurrences(kernels, x, n),
    decreases n,
{
    if n > 0 {
        lemma_bucket_len(kernels, bytes, x, n - 1);
    }
}

proof fn lemma_below_step(kernels: Seq<u16>, t: int, n: int)
    ensures
        kernels_below(kernels, t + 1, n) == kernels_below(kernels, t, n) + kernel_occurrences(kernels, t, n),
    decreases n,
{
    if n > 0 {
        lemma_below_step(kernels, t, n - 1);
    }
}

proof fn lemma_grouped_len(kernels: Seq<u16>, bytes: Seq<u8>, t: int)
    requires
        t >= 0,
    ensures
        grouped_by_kernel(kernels, bytes, t).len() == kernels_below(kernels, t, kernels.len() as int),
    decreases t,
{
    if t == 0 {
        lemma_below_none(kernels, kernels.len() as int);
    } else {
        lemma_grouped_len(kernels, bytes, t - 1);
        lemma_bucket_len(kernels, bytes, t - 1, kernels.len() as int);
        lemma_below_step(kernels, t - 1, kernels.len() as int);
    }
}

proof fn lemma_below_none(kernels: Seq<u16>, n: int)
    ensures
        kernels_below(kernels, 0, n) == 0,
    decreases n,
{
    if n > 0 {
        lemma_below_none(kernels, n - 1);
    }
}

proof fn lemma_below_all(kernels: Seq<u16>, t: int, n: int)
    requires
        0 <= n <= kernels.len(),
        forall|i: int| 0 <= i < kernels.len() ==> #[trigger] kernels[i] < t,
    ensures
        kernels_below(kernels, t, n) == n,
    decreases n,
{
    if n > 0 {
        lemma_below_all(kernels, t, n - 1);
    }
}

/// Grouping by kernel loses no output and adds none: when every kernel has
/// a slot, the grouped result holds exactly as many values as were
/// computed.
pub proof fn lemma_grouping_keeps_every_output(kernels: Seq<u16>, bytes: Seq<u8>)
    requires
        forall|i: int| 0 <= i < kernels.len() ==> #[trigger] kernels[i] < kernel_slots(),
    ensures
        grouped_by_kernel(kernels, bytes, kernel_slots()).len() == kernels.len(),
{
    lemma_grouped_len(kernels, bytes, kernel_slots());
    lemma_below_all(kernels, kernel_slots(), kernels.len() as int);
}

/// The quantized computation of a processor's share.  For a convolution,
/// each planned output (see `convolution_schedule`) accumulates
/// `(input - z_in) * (weight - z_w)` over its taps; for a fully connected
/// layer, each unit accumulates that over all inputs.  The accumulator plus
/// the bias is rescaled by `rescale` with the unit's factor `m` (rounding
/// to nearest for a convolution, toward zero otherwise), the output zero
/// point is added and the value clamped to a byte.  The bytes are returned
/// grouped by kernel, kernels in increasing order.  Other layers, and an
/// empty share, give nothing.
pub fn distributed_computation_quant<S, F: Fn(&S, i32, Rounding) -> i32>(
    input_distribution: Vec<u8>,
    weight_distribution: Vec<QuantizedWeightUnit<S>>,
    rescale: F,
) -> (r: Vec<u8>)
    requires
        quant_defined(input_distribution@, weight_distribution@, rescale),
    ensures
        weight_distribution@.len() == 0 ==> r@.len() == 0,
        weight_distribution@.len() > 0 ==> r@.len() == share_outputs(input_distribution@, weight_distribution@).len(),
        weight_distribution@.len() > 0 ==> exists|rs: Seq<i32>|
            #[trigger] rescaled_by(
                input_distribution@,
                weight_distribution@,
                rescale,
                share_outputs(input_distribution@, weight_distribution@),
                rs,
            ) && r@ == grouped_by_kernel(
                output_kernels(share_outputs(input_distribution@, weight_distribution@)),
                output_bytes(weight_distribution@, share_outputs(input_distribution@, weight_distribution@), rs),
                kernel_slots(),
            ),
{
    if weight_distribution.len() == 0 {
        return Vec::new();
    }
    let ghost input = input_distribution@;
    let ghost units = weight_distribution@;
    let ghost outs = share_outputs(input, units);
    let ghost mode = share_rounding(units);
    let mut kernels: Vec<u16> = Vec::new();
    let mut bytes: Vec<u8> = Vec::new();
    let ghost mut rs: Seq<i32> = Seq::empty();
    match weight_distribution[0].info {
        InfoWrapper::Convolution(conv) => {
            let layouts = quant_layouts_exec(&weight_distribution);
            let plan = convolution_schedule(&conv, &layouts, input_distribution.len());
            assert(outs.len() == plan@.len());
            let mut p: usize = 0;
            while p < plan.len()
                invariant
                    input == input_distribution@,
                    units == weight_distribution@,
                    units.len() > 0,
                    units[0].info == InfoWrapper::Convolution(conv),
                    outs == share_outputs(input, units),
                    mode == Rounding::Nearest,
                    mode == share_rounding(units),
                    quant_defined(input, units, rescale),
                    planned_views(plan@) == planned_outputs(conv, quant_layouts(units), input.len() as int),
                    outs.len() == plan@.len(),
                    p <= plan@.len(),
                    kernels@.len() == p,
                    bytes@.len() == p,
                    rs.len() == p,
                    forall|q: int| 0 <= q < p ==> kernels@[q] == outs[q].kernel,
                    forall|q: int|
                        0 <= q < p ==> call_ensures(
                            rescale,
                            (&units[outs[q].unit].m, acc_of(input, units, outs[q]) as i32, mode),
                            #[trigger] rs[q],
                        ),
                    forall|q: int| 0 <= q < p ==> bytes@[q] == output_byte(rs[q] as int, units[outs[q].unit].zero_points.2),
                decreases plan@.len() - p,
            {
                let o = &plan[p];
                let ghost out = outs[p as int];
                assert(out.unit == o.unit && out.kernel == o.kernel && out.taps == crate::conv_schedule::taps_view(o.taps@));
                assert(0 <= out.unit < units.len());
                let u = &weight_distribution[o.unit];
                let acc0 = accumulate_taps(&input_distribution, &u.data, u.zero_points.0, u.zero_points.1, &o.taps);
                let acc = acc0 + u.bias;
                assert(acc == acc_of(input, units, out));
                let scaled = rescale(&u.m, acc, Rounding::Nearest);
                let byte = clamp_byte(scaled + u.zero_points.2 as i32);
                kernels.push(o.kernel);
                bytes.push(byte);
                proof {
                    rs = rs.push(scaled);
                }
                p = p + 1;
            }
        },
        InfoWrapper::Linear(_) => {
            let n = weight_distribution.len();
            let mut i: usize = 0;
            while i < n
                invariant
                    input == input_distribution@,
                    units == weight_distribution@,
                    n == units.len(),
                    units[0].info matches InfoWrapper::Linear(_),
                    outs == share_outputs(input, units),
                    mode == Rounding::TowardZero,
                    mode == share_rounding(units),
                    quant_defined(input, units, rescale),
                    outs.len() == n,
                    i <= n,
                    kernels@.len() == i,
                    bytes@.len() == i,
                    rs.len() == i,
                    forall|q: int| 0 <= q < i ==> kernels@[q] == outs[q].kernel,
                    forall|q: int|
                        0 <= q < i ==> call_ensures(
                            rescale,
                            (&units[outs[q].unit].m, acc_of(input, units, outs[q]) as i32, mode),
                            #[trigger] rs[q],
                        ),
                    forall|q: int| 0 <= q < i ==> bytes@[q] == output_byte(rs[q] as int, units[outs[q].unit].zero_points.2),
                decreases n - i,
            {
                let ghost out = outs[i as int];
                assert(out.unit == i && out.taps == dense_taps(input.len() as int));
                let u = &weight_distribution[i];
                assert(u.data@.len() == input.len());
                let acc0 = accumulate_dense(&input_distribution, &u.data, u.zero_points.0, u.zero_points.1);
                let acc = acc0 + u.bias;
                assert(acc == acc_of(input, units, out));
                let scaled = rescale(&u.m, acc, Rounding::TowardZero);
                let byte = clamp_byte(scaled + u.zero_points.2 as i32);
                kernels.push(u.which_kernel);
                bytes.push(byte);
                proof {
                    rs = rs.push(scaled);
                }
                i = i + 1;
            }
        },
        _ => {},
    }
    proof {
        assert(kernels@.len() == outs.len());
        assert(kernels@ =~= output_kernels(outs));
        assert(bytes@ =~= output_bytes(units, outs, rs));
        assert(rescaled_by(input, units, rescale, outs, rs));
        assert forall|i: int| 0 <= i < kernels@.len() implies #[trigger] kernels@[i] < kernel_slots() by {
            assert(outs[i].kernel < kernel_slots());
        }
        lemma_grouping_keeps_every_output(kernels@, bytes@);
    }
    group_outputs(&kernels, &bytes)
}

} // verus!
