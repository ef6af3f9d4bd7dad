use vstd::prelude::*;

use crate::input_mapping::{cpu_of_output, inputs_of, output_number, output_product, shape_product, shape_product_fits};
use crate::layer::{InfoWrapper, Layer, LayerWeights, WeightUnit};
use crate::ordering::lex_le;
use crate::partition::{
    f32_exact_limit, find_which_cpu, lemma_which_cpu_defined_for_outputs, lemma_which_cpu_first, lemma_which_cpu_monotone,
    lemma_which_cpu_steps_by_one, portion_total, spec_which_cpu, which_cpu_defined,
};
use crate::weights::{rearrange_weight, stably_sorted_by_start};

verus! {

/// A weight unit as a value.
pub struct UnitView<T> {
    pub data: Seq<T>,
    pub bias: T,
    pub which_kernel: u16,
    pub count: i32,
    pub start: Seq<i32>,
    pub info: InfoWrapper,
}

/// The values of a weight unit.
pub open spec fn unit_view<T>(u: WeightUnit<T>) -> UnitView<T> {
    UnitView {
        data: u.data@,
        bias: u.bias,
        which_kernel: u.which_kernel,
        count: u.count,
        start: u.start_pos_in@,
        info: u.info,
    }
}

/// The values of a list of weight units.
pub open spec fn unit_views<T>(s: Seq<WeightUnit<T>>) -> Seq<UnitView<T>> {
    s.map_values(|u: WeightUnit<T>| unit_view(u))
}

/// The values of the processors' lists of weight units.
pub open spec fn list_views<T>(s: Seq<Vec<WeightUnit<T>>>) -> Seq<Seq<UnitView<T>>> {
    s.map_values(|l: Vec<WeightUnit<T>>| unit_views(l@))
}

/// `perm` witnesses that `result` is `unsorted` stably sorted by start
/// position.
pub open spec fn stable_sort_witness<T>(unsorted: Seq<UnitView<T>>, result: Seq<UnitView<T>>, perm: Seq<int>) -> bool {
    &&& perm.len() == unsorted.len() == result.len()
    &&& forall|i: int| 0 <= i < perm.len() ==> 0 <= #[trigger] perm[i] < unsorted.len()
    &&& forall|i: int, j: int| 0 <= i < j < perm.len() ==> perm[i] != perm[j]
    &&& forall|i: int| 0 <= i < perm.len() ==> #[trigger] result[i] == unsorted[perm[i]]
    &&& forall|i: int, j: int| 0 <= i < j < result.len() ==> lex_le(result[i].start, result[j].start)
    &&& forall|i: int, j: int|
        0 <= i < j < result.len() && result[i].start == result[j].start ==> perm[i] < perm[j]
}

/// `result` is `unsorted` stably sorted by start position.
pub open spec fn sorted_by_start_of<T>(unsorted: Seq<UnitView<T>>, result: Seq<UnitView<T>>) -> bool {
    exists|perm: Seq<int>| #[trigger] stable_sort_witness(unsorted, result, perm)
}

/// What the dealing of a convolution's outputs reads.
pub struct DealParams<L> {
    pub layer: L,
    pub portions: Seq<u8>,
    pub oc: i32,
    pub o1: int,
    pub o2: int,
    pub total: int,
}

/// The units sent to each processor so far (in the order sent), the unit
/// being filled, the current processor and the number of outputs dealt.
pub struct DealState<T> {
    pub sent: Seq<Seq<UnitView<T>>>,
    pub unit: UnitView<T>,
    pub cpu: int,
    pub count: int,
}

/// The dealing parameters of a layer: its output count and the extents of
/// its output rows and columns.
pub open spec fn deal_params<L: Layer>(layer: L, portions: Seq<u8>, total: u8) -> DealParams<L> {
    let out = layer.spec_output_shape();
    DealParams {
        layer: layer,
        portions: portions,
        oc: shape_product(out, out.len() as int) as i32,
        o1: out[1] as int,
        o2: out[2] as int,
        total: total as int,
    }
}

/// Before any output: empty lists, an empty unit with bias `zero`, the
/// first processor.
pub open spec fn initial_deal<T, L: Layer>(p: DealParams<L>, zero: T) -> DealState<T> {
    DealState {
        sent: Seq::new(p.total as nat, |w: int| Seq::<UnitView<T>>::empty()),
        unit: UnitView {
            data: Seq::empty(),
            bias: zero,
            which_kernel: 0,
            count: 0,
            start: Seq::empty(),
            info: p.layer.spec_info(),
        },
        cpu: 0,
        count: 0,
    }
}

/// `st` with its current unit appended to the current processor's list.
pub open spec fn send_unit<T>(st: DealState<T>) -> DealState<T> {
    DealState {
        sent: st.sent.update(st.cpu, st.sent[st.cpu].push(st.unit)),
        unit: st.unit,
        cpu: st.cpu,
        count: st.count,
    }
}

/// The input positions output (j, k, m) reads.
pub open spec fn deal_inputs<L: Layer>(p: DealParams<L>, j: int, k: int, m: int) -> Seq<Seq<i32>> {
    p.layer.spec_input(seq![j as i32, k as i32, m as i32])
}

/// The state after the processor check of output (j, k, m): when
/// `find_which_cpu` names another processor, the unit is sent, the next
/// processor takes over and a new unit starts at the output's first input.
pub open spec fn deal_switch<T, L: Layer>(p: DealParams<L>, st: DealState<T>, j: int, k: int, m: int) -> DealState<T> {
    let pos = deal_inputs(p, j, k, m);
    if spec_which_cpu(p.portions, st.count as i32, p.oc as u32) != st.cpu {
        let s = send_unit(st);
        DealState {
            sent: s.sent,
            unit: UnitView {
                data: s.unit.data,
                bias: s.unit.bias,
                which_kernel: s.unit.which_kernel,
                count: 0,
                start: pos[0],
                info: s.unit.info,
            },
            cpu: s.cpu + 1,
            count: s.count,
        }
    } else {
        st
    }
}

/// The state after the kernel check of output (j, k, m): the first output
/// of channel `j` sends a unit holding weights and starts the unit of
/// kernel `j` with its weights and bias.
pub open spec fn deal_kernel<T, L: Layer + LayerWeights<T>>(p: DealParams<L>, st: DealState<T>, j: int, k: int, m: int) -> DealState<T> {
    let pos = deal_inputs(p, j, k, m);
    if k == 0 && m == 0 {
        let s = if st.unit.data.len() > 0 {
            send_unit(st)
        } else {
            st
        };
        DealState {
            sent: s.sent,
            unit: UnitView {
                data: p.layer.spec_weights_from_input(pos, j as i32),
                bias: p.layer.spec_bias(j as i32),
                which_kernel: j as u16,
                count: 0,
                start: pos[0],
                info: s.unit.info,
            },
            cpu: s.cpu,
            count: s.count,
        }
    } else {
        st
    }
}

/// One output (j, k, m) dealt.
pub open spec fn deal_step<T, L: Layer + LayerWeights<T>>(p: DealParams<L>, st: DealState<T>, j: int, k: int, m: int) -> DealState<T> {
    let s = deal_kernel(p, deal_switch(p, st, j, k, m), j, k, m);
    DealState {
        sent: s.sent,
        unit: UnitView {
            data: s.unit.data,
            bias: s.unit.bias,
            which_kernel: s.unit.which_kernel,
            count: (s.unit.count + 1) as i32,
            start: s.unit.start,
            info: s.unit.info,
        },
        cpu: s.cpu,
        count: s.count + 1,
    }
}

/// Outputs (j, k, 0..m) dealt from `st`.
pub open spec fn deal_columns<T, L: Layer + LayerWeights<T>>(p: DealParams<L>, st: DealState<T>, j: int, k: int, m: int) -> DealState<T>
    decreases m,
{
    if m <= 0 {
        st
    } else {
        deal_step(p, deal_columns(p, st, j, k, m - 1), j, k, m - 1)
    }
}

/// Outputs (j, 0..k, all columns) dealt from `st`.
pub open spec fn deal_rows<T, L: Layer + LayerWeights<T>>(p: DealParams<L>, st: DealState<T>, j: int, k: int) -> DealState<T>
    decreases k,
{
    if k <= 0 {
        st
    } else {
        deal_columns(p, deal_rows(p, st, j, k - 1), j, k - 1, p.o2)
    }
}

/// Outputs of channels 0..j dealt.
pub open spec fn deal_channels<T, L: Layer + LayerWeights<T>>(p: DealParams<L>, zero: T, j: int) -> DealState<T>
    decreases j,
{
    if j <= 0 {
        initial_deal(p, zero)
    } else {
        deal_rows(p, deal_channels(p, zero, j - 1), j - 1, p.o1)
    }
}

/// The state before output (j, k, m) is dealt.
pub open spec fn state_before<T, L: Layer + LayerWeights<T>>(p: DealParams<L>, zero: T, j: int, k: int, m: int) -> DealState<T> {
    deal_columns(p, deal_rows(p, deal_channels(p, zero, j), j, k), j, k, m)
}

/// Dealing output (j, k, m) neither overflows nor indexes out of range.
pub open spec fn deal_step_ok<T, L: Layer + LayerWeights<T>>(p: DealParams<L>, zero: T, j: int, k: int, m: int) -> bool {
    let st = state_before(p, zero, j, k, m);
    let s1 = deal_switch(p, st, j, k, m);
    let s2 = deal_kernel(p, s1, j, k, m);
    &&& which_cpu_defined(p.portions, st.count as i32, p.oc as u32)
    &&& 0 <= st.count < i32::MAX
    &&& deal_inputs(p, j, k, m).len() > 0
    &&& (spec_which_cpu(p.portions, st.count as i32, p.oc as u32) != st.cpu ==> st.cpu < p.total)
    &&& (k == 0 && m == 0 && s1.unit.data.len() > 0 ==> s1.cpu < p.total)
    &&& s2.unit.count < i32::MAX
}

/// Every output of the convolution layer dealt: the units each processor
/// is sent, in the order sent.
pub open spec fn dealt_units<T, L: Layer + LayerWeights<T>>(p: DealParams<L>, zero: T) -> Seq<Seq<UnitView<T>>> {
    let out = p.layer.spec_output_shape();
    send_unit(deal_channels(p, zero, out[0] as int)).sent
}

/// The inputs on which dealing a convolution layer's weights does not
/// panic.
pub open spec fn conv_deal_defined<T, L: Layer + LayerWeights<T>>(layer: L, total: u8, portions: Seq<u8>, zero: T) -> bool {
    let out = layer.spec_output_shape();
    let p = deal_params(layer, portions, total);
    &&& out.len() >= 3
    &&& forall|j: int, k: int, m: int|
        0 <= j < out[0] && 0 <= k < out[1] && 0 <= m < out[2] ==> #[trigger] deal_step_ok(p, zero, j, k, m)
    &&& deal_channels(p, zero, out[0] as int).cpu < total
}

/// The unit of output `j` of a fully connected layer with `c_in` inputs.
pub open spec fn linear_unit<T, L: Layer + LayerWeights<T>>(layer: L, c_in: int, j: int) -> UnitView<T> {
    UnitView {
        data: if c_in > 0 {
            layer.spec_weights().subrange(j * c_in, j * c_in + c_in)
        } else {
            Seq::empty()
        },
        bias: layer.spec_bias(j as i32),
        which_kernel: j as u16,
        count: 0,
        start: Seq::empty(),
        info: layer.spec_info(),
    }
}

/// The units of outputs 0..n of a fully connected layer, each sent to the
/// processor `find_which_cpu` names for its number.
pub open spec fn linear_sent<T, L: Layer + LayerWeights<T>>(
    layer: L,
    portions: Seq<u8>,
    total: int,
    c_in: int,
    c_out: i32,
    n: int,
) -> Seq<Seq<UnitView<T>>>
    decreases n,
{
    if n <= 0 {
        Seq::new(total as nat, |w: int| Seq::<UnitView<T>>::empty())
    } else {
        let prev = linear_sent::<T, L>(layer, portions, total, c_in, c_out, n - 1);
        let w = spec_which_cpu(portions, (n - 1) as i32, c_out as u32);
        prev.update(w, prev[w].push(linear_unit::<T, L>(layer, c_in, n - 1)))
    }
}

/// The inputs on which dealing a fully connected layer's weights does not
/// panic.
pub open spec fn linear_deal_defined<T, L: Layer + LayerWeights<T>>(layer: L, total: u8, portions: Seq<u8>, c_in: i32, c_out: i32) -> bool {
    forall|j: int|
        0 <= j < c_out ==> {
            &&& #[trigger] which_cpu_defined(portions, j as i32, c_out as u32)
            &&& spec_which_cpu(portions, j as i32, c_out as u32) < total
            &&& (c_in > 0 ==> j * c_in + c_in - 1 <= i32::MAX && j * c_in + c_in <= layer.spec_weights().len())
        }
}

/// The inputs on which `distribute_weight` does not panic.
pub open spec fn weight_deal_defined<T, L: Layer + LayerWeights<T>>(layer: L, total: u8, portions: Seq<u8>, zero: T) -> bool {
    &&& total == portions.len() as u8
    &&& match layer.spec_info() {
        InfoWrapper::Convolution(_) => shape_product_fits(layer.spec_output_shape()) && conv_deal_defined(
            layer,
            total,
            portions,
            zero,
        ),
        InfoWrapper::Linear(info) => linear_deal_defined::<T, L>(layer, total, portions, info.c_in, info.c_out),
        _ => true,
    }
}

fn copy_vec<T: Copy>(v: &Vec<T>) -> (r: Vec<T>)
    ensures
        r@ == v@,
{
    let mut r: Vec<T> = Vec::new();
    let mut i: usize = 0;
    while i < v.len()
        invariant
            i <= v@.len(),
            r@ == v@.take(i as int),
        decreases v@.len() - i,
    {
        r.push(v[i]);
        i = i + 1;
        assert(r@ =~= v@.take(i as int));
    }
    assert(v@.take(v@.len() as int) =~= v@);
    r
}

fn copy_unit<T: Copy>(u: &WeightUnit<T>) -> (r: WeightUnit<T>)
    ensures
        unit_view(r) == unit_view(*u),
{
    WeightUnit {
        data: copy_vec(&u.data),
        bias: u.bias,
        which_kernel: u.which_kernel,
        count: u.count,
        start_pos_in: copy_vec(&u.start_pos_in),
        info: u.info,
    }
}

fn empty_lists<T>(total: usize) -> (r: Vec<Vec<WeightUnit<T>>>)
    ensures
        r@.len() == total,
        list_views(r@) == Seq::new(total as nat, |w: int| Seq::<UnitView<T>>::empty()),
{
    let mut r: Vec<Vec<WeightUnit<T>>> = Vec::new();
    let mut i: usize = 0;
    while i < total
        invariant
            i <= total,
            r@.len() == i,
            list_views(r@) == Seq::new(i as nat, |w: int| Seq::<UnitView<T>>::empty()),
        decreases total - i,
    {
        let ghost before = r@;
        r.push(Vec::new());
        i = i + 1;
        assert(list_views(r@) =~= Seq::new(i as nat, |w: int| Seq::<UnitView<T>>::empty())) by {
            assert(r@[i - 1]@ == Seq::<WeightUnit<T>>::empty());
            assert(unit_views(Seq::<WeightUnit<T>>::empty()) =~= Seq::<UnitView<T>>::empty());
            assert forall|x: int| 0 <= x < i implies #[trigger] list_views(r@)[x] == Seq::<UnitView<T>>::empty() by {
                if x < i - 1 {
                    assert(r@[x] == before[x]);
                    assert(list_views(before)[x] == Seq::<UnitView<T>>::empty());
                }
            }
        }
    }
    r
}

/// Appends a copy of `u` to list `w`.
fn push_copy<T: Copy>(lists: &mut Vec<Vec<WeightUnit<T>>>, w: usize, u: &WeightUnit<T>)
    requires
        w < old(lists)@.len(),
    ensures
        final(lists)@.len() == old(lists)@.len(),
        list_views(final(lists)@) == list_views(old(lists)@).update(
            w as int,
            list_views(old(lists)@)[w as int].push(unit_view(*u)),
        ),
{
    let c = copy_unit(u);
    let mut l: Vec<WeightUnit<T>> = Vec::new();
    std::mem::swap(&mut l, &mut lists[w]);
    let ghost before = l@;
    l.push(c);
    assert(unit_views(l@) =~= unit_views(before).push(unit_view(*u)));
    std::mem::swap(&mut l, &mut lists[w]);
    assert(list_views(lists@) =~= list_views(old(lists)@).update(
        w as int,
        list_views(old(lists)@)[w as int].push(unit_view(*u)),
    ));
}

proof fn lemma_sorted_views<T>(unsorted: Seq<WeightUnit<T>>, result: Seq<WeightUnit<T>>, perm: Seq<int>)
    requires
        stably_sorted_by_start(unsorted, result, perm),
    ensures
        stable_sort_witness(unit_views(unsorted), unit_views(result), perm),
{
    let ov = unit_views(unsorted);
    let rv = unit_views(result);
    assert forall|i: int| 0 <= i < perm.len() implies #[trigger] rv[i] == ov[perm[i]] by {
        assert(result[i] == unsorted[perm[i]]);
    }
    assert forall|i: int, j: int| 0 <= i < j < rv.len() implies lex_le(rv[i].start, rv[j].start) by {
        assert(lex_le(result[i].start_pos_in@, result[j].start_pos_in@));
    }
    assert forall|i: int, j: int|
        0 <= i < j < rv.len() && rv[i].start == rv[j].start implies perm[i] < perm[j] by {
        assert(result[i].start_pos_in@ == result[j].start_pos_in@);
    }
}

/// Sorts list `w` by start position, stably.
fn sort_list<T>(lists: &mut Vec<Vec<WeightUnit<T>>>, w: usize)
    requires
        w < old(lists)@.len(),
    ensures
        final(lists)@.len() == old(lists)@.len(),
        forall|x: int|
            0 <= x < old(lists)@.len() && x != w ==> #[trigger] list_views(final(lists)@)[x] == list_views(
                old(lists)@,
            )[x],
        sorted_by_start_of(list_views(old(lists)@)[w as int], list_views(final(lists)@)[w as int]),
{
    let mut l: Vec<WeightUnit<T>> = Vec::new();
    std::mem::swap(&mut l, &mut lists[w]);
    let ghost before = l@;
    rearrange_weight(&mut l);
    proof {
        let perm = choose|perm: Seq<int>| stably_sorted_by_start(before, l@, perm);
        lemma_sorted_views(before, l@, perm);
    }
    std::mem::swap(&mut l, &mut lists[w]);
    proof {
        assert forall|x: int|
            0 <= x < old(lists)@.len() && x != w implies #[trigger] list_views(lists@)[x] == list_views(
                old(lists)@,
            )[x] by {
            assert(lists@[x] == old(lists)@[x]);
        }
    }
}

proof fn lemma_sorted_empty<T>()
    ensures
        sorted_by_start_of(Seq::<UnitView<T>>::empty(), Seq::<UnitView<T>>::empty()),
{
    assert(stable_sort_witness(Seq::<UnitView<T>>::empty(), Seq::<UnitView<T>>::empty(), Seq::<int>::empty()));
}

/// The lists of the processors before the current one are sorted versions
/// of what they were sent; the others are exactly what they were sent, and
/// nothing was sent to a processor after the current one.
pub open spec fn lists_match<T>(lists: Seq<Seq<UnitView<T>>>, st: DealState<T>, total: int) -> bool {
    &&& lists.len() == total
    &&& st.sent.len() == total
    &&& 0 <= st.cpu <= total
    &&& forall|w: int|
        0 <= w < total ==> if w < st.cpu {
            sorted_by_start_of(st.sent[w], #[trigger] lists[w])
        } else {
            lists[w] == st.sent[w]
        }
    &&& forall|w: int| st.cpu < w < total ==> (#[trigger] st.sent[w]).len() == 0
}


/// The exec values stand for dealing state `st`.
pub open spec fn deal_matches<T>(
    lists: Seq<Vec<WeightUnit<T>>>,
    unit: WeightUnit<T>,
    which_cpu: u8,
    count: i32,
    st: DealState<T>,
    total: int,
) -> bool {
    &&& lists_match(list_views(lists), st, total)
    &&& unit_view(unit) == st.unit
    &&& which_cpu == st.cpu
    &&& count == st.count
}

proof fn lemma_send_matches<T>(lists: Seq<Seq<UnitView<T>>>, st: DealState<T>, total: int)
    requires
        lists_match(lists, st, total),
        st.cpu < total,
    ensures
        lists_match(lists.update(st.cpu, lists[st.cpu].push(st.unit)), send_unit(st), total),
{
    let l2 = lists.update(st.cpu, lists[st.cpu].push(st.unit));
    let s2 = send_unit(st);
    assert forall|w: int| 0 <= w < total implies if w < s2.cpu {
        sorted_by_start_of(s2.sent[w], #[trigger] l2[w])
    } else {
        l2[w] == s2.sent[w]
    } by {
        if w < st.cpu {
            assert(l2[w] == lists[w]);
            assert(s2.sent[w] == st.sent[w]);
        }
    }
}

proof fn lemma_advance_matches<T>(lists: Seq<Seq<UnitView<T>>>, l2: Seq<Seq<UnitView<T>>>, st: DealState<T>, total: int)
    requires
        lists_match(lists, st, total),
        st.cpu < total,
        l2.len() == lists.len(),
        forall|x: int| 0 <= x < lists.len() && x != st.cpu ==> #[trigger] l2[x] == lists[x],
        sorted_by_start_of(lists[st.cpu], l2[st.cpu]),
    ensures
        lists_match(
            l2,
            DealState { sent: st.sent, unit: st.unit, cpu: st.cpu + 1, count: st.count },
            total,
        ),
{
    let s2 = DealState { sent: st.sent, unit: st.unit, cpu: st.cpu + 1, count: st.count };
    assert forall|w: int| 0 <= w < total implies if w < s2.cpu {
        sorted_by_start_of(s2.sent[w], #[trigger] l2[w])
    } else {
        l2[w] == s2.sent[w]
    } by {
        if w != st.cpu {
            assert(l2[w] == lists[w]);
        }
    }
}

/// Deals the outputs of a convolution layer to the processors: units of
/// consecutive outputs of one kernel, cut where the processor changes, each
/// processor's list sorted by start position when it is complete.
#[verifier::rlimit(60)]
fn deal_convolution<T: Copy, L: Layer + LayerWeights<T>>(
    layer: &L,
    total_cpu_count: u8,
    portions: &Vec<u8>,
    output_shape: &Vec<i32>,
    output_count: i32,
    info: InfoWrapper,
    zero: T,
) -> (r: Vec<Vec<WeightUnit<T>>>)
    requires
        output_shape@ == layer.spec_output_shape(),
        output_count == shape_product(output_shape@, output_shape@.len() as int),
        info == layer.spec_info(),
        conv_deal_defined(*layer, total_cpu_count, portions@, zero),
    ensures
        r@.len() == total_cpu_count,
        forall|w: int|
            0 <= w < total_cpu_count ==> sorted_by_start_of(
                dealt_units(deal_params(*layer, portions@, total_cpu_count), zero)[w],
                #[trigger] list_views(r@)[w],
            ),
{
    let ghost p = deal_params(*layer, portions@, total_cpu_count);
    let total = total_cpu_count as usize;
    let mut weight_to_send: Vec<Vec<WeightUnit<T>>> = empty_lists(total);
    let mut which_cpu: u8 = 0;
    let mut count: i32 = 0;
    let mut kernel_data: WeightUnit<T> = WeightUnit {
        data: Vec::new(),
        bias: zero,
        which_kernel: 0,
        count: 0,
        start_pos_in: Vec::new(),
        info: info,
    };
    proof {
        let st0 = initial_deal(p, zero);
        assert(list_views(weight_to_send@) =~= st0.sent);
        assert(unit_view(kernel_data) == st0.unit) by {
            assert(kernel_data.data@ =~= Seq::<T>::empty());
            assert(kernel_data.start_pos_in@ =~= Seq::<i32>::empty());
        }
        assert(deal_channels(p, zero, 0) == st0);
    }
    let o0 = output_shape[0];
    let o1 = output_shape[1];
    let o2 = output_shape[2];
    assert(p.o1 == o1 && p.o2 == o2 && p.oc == output_count);
    let mut j: i32 = 0;
    while j < o0
        invariant
            p == deal_params(*layer, portions@, total_cpu_count),
            conv_deal_defined(*layer, total_cpu_count, portions@, zero),
            output_shape@ == layer.spec_output_shape(),
            o0 == output_shape@[0],
            p.o1 == o1,
            p.o2 == o2,
            p.oc == output_count,
            total == total_cpu_count,
            p.total == total,
            0 <= j,
            o0 >= 0 ==> j <= o0,
            o0 < 0 ==> j == 0,
            deal_matches(weight_to_send@, kernel_data, which_cpu, count, deal_channels(p, zero, j as int), total as int),
        decreases o0 - j,
    {
        let mut new_kernel_flag = true;
        let mut k: i32 = 0;
        while k < o1
            invariant
                p == deal_params(*layer, portions@, total_cpu_count),
                conv_deal_defined(*layer, total_cpu_count, portions@, zero),
                output_shape@ == layer.spec_output_shape(),
                o0 == output_shape@[0],
                p.o1 == o1,
                p.o2 == o2,
                p.oc == output_count,
                total == total_cpu_count,
                p.total == total,
                0 <= j < o0,
                0 <= k,
                o1 >= 0 ==> k <= o1,
                o1 < 0 ==> k == 0,
                new_kernel_flag <==> (k == 0 || o2 <= 0),
                deal_matches(
                    weight_to_send@,
                    kernel_data,
                    which_cpu,
                    count,
                    deal_rows(p, deal_channels(p, zero, j as int), j as int, k as int),
                    total as int,
                ),
            decreases o1 - k,
        {
            let mut m: i32 = 0;
            while m < o2
                invariant
                    p == deal_params(*layer, portions@, total_cpu_count),
                    conv_deal_defined(*layer, total_cpu_count, portions@, zero),
                    output_shape@ == layer.spec_output_shape(),
                    o0 == output_shape@[0],
                    p.o1 == o1,
                    p.o2 == o2,
                    p.oc == output_count,
                    total == total_cpu_count,
                    p.total == total,
                    0 <= j < o0,
                    0 <= k < o1,
                    0 <= m,
                    o2 >= 0 ==> m <= o2,
                    o2 < 0 ==> m == 0,
                    o2 > 0 ==> (new_kernel_flag <==> (k == 0 && m == 0)),
                    o2 <= 0 ==> new_kernel_flag,
                    deal_matches(
                        weight_to_send@,
                        kernel_data,
                        which_cpu,
                        count,
                        state_before(p, zero, j as int, k as int, m as int),
                        total as int,
                    ),
                decreases o2 - m,
            {
                let ghost st = state_before(p, zero, j as int, k as int, m as int);
                assert(deal_step_ok(p, zero, j as int, k as int, m as int));
                let mut position: Vec<i32> = Vec::new();
                position.push(j);
                position.push(k);
                position.push(m);
                assert(position@ =~= seq![j, k, m]);
                let pos = layer.get_input(position);
                assert(pos.deep_view() == deal_inputs(p, j as int, k as int, m as int));
                assert(pos@[0]@ =~= pos.deep_view()[0]);
                let sw = find_which_cpu(portions, count, output_count as u32);
                if sw != which_cpu {
                    proof {
                        lemma_send_matches(list_views(weight_to_send@), st, total as int);
                    }
                    let ghost l0 = list_views(weight_to_send@);
                    push_copy(&mut weight_to_send, which_cpu as usize, &kernel_data);
                    let ghost l1 = list_views(weight_to_send@);
                    sort_list(&mut weight_to_send, which_cpu as usize);
                    proof {
                        lemma_advance_matches(l1, list_views(weight_to_send@), send_unit(st), total as int);
                    }
                    kernel_data.start_pos_in = copy_vec(&pos[0]);
                    which_cpu = which_cpu + 1;
                    kernel_data.count = 0;
                }
                let ghost s1 = deal_switch(p, st, j as int, k as int, m as int);
                assert(deal_matches(weight_to_send@, kernel_data, which_cpu, count, s1, total as int));
                if new_kernel_flag {
                    if kernel_data.data.len() > 0 {
                        proof {
                            lemma_send_matches(list_views(weight_to_send@), s1, total as int);
                        }
                        push_copy(&mut weight_to_send, which_cpu as usize, &kernel_data);
                    }
                    kernel_data.bias = layer.get_bias(j);
                    kernel_data.start_pos_in = copy_vec(&pos[0]);
                    kernel_data.data = layer.get_weights_from_input(pos, j);
                    kernel_data.which_kernel = j as u16;
                    new_kernel_flag = false;
                    kernel_data.count = 0;
                }
                let ghost s2 = deal_kernel(p, s1, j as int, k as int, m as int);
                assert(deal_matches(weight_to_send@, kernel_data, which_cpu, count, s2, total as int));
                kernel_data.count = kernel_data.count + 1;
                count = count + 1;
                assert(deal_matches(
                    weight_to_send@,
                    kernel_data,
                    which_cpu,
                    count,
                    state_before(p, zero, j as int, k as int, m + 1),
                    total as int,
                ));
                m = m + 1;
            }
            k = k + 1;
        }
        j = j + 1;
    }
    proof {
        let stf = deal_channels(p, zero, o0 as int);
        assert(o0 <= 0 ==> deal_channels(p, zero, j as int) == stf);
        lemma_send_matches(list_views(weight_to_send@), stf, total as int);
    }
    push_copy(&mut weight_to_send, which_cpu as usize, &kernel_data);
    let ghost l1 = list_views(weight_to_send@);
    sort_list(&mut weight_to_send, which_cpu as usize);
    proof {
        let sf = send_unit(deal_channels(p, zero, o0 as int));
        lemma_advance_matches(l1, list_views(weight_to_send@), sf, total as int);
        assert forall|w: int| 0 <= w < total_cpu_count implies sorted_by_start_of(
            dealt_units(p, zero)[w],
            #[trigger] list_views(weight_to_send@)[w],
        ) by {
            if w > sf.cpu {
                assert(sf.sent[w].len() == 0);
                assert(sf.sent[w] =~= Seq::<UnitView<T>>::empty());
                assert(list_views(weight_to_send@)[w] == sf.sent[w]);
                lemma_sorted_empty::<T>();
            }
        }
    }
    weight_to_send
}

/// Deals the outputs of a fully connected layer: output `j` gets its row
/// of the weight matrix and its bias, and goes to the processor
/// `find_which_cpu` names for it.
fn deal_linear<T: Copy, L: Layer + LayerWeights<T>>(
    layer: &L,
    total_cpu_count: u8,
    portions: &Vec<u8>,
    c_in: i32,
    c_out: i32,
    info: InfoWrapper,
    zero: T,
) -> (r: Vec<Vec<WeightUnit<T>>>)
    requires
        info == layer.spec_info(),
        linear_deal_defined::<T, L>(*layer, total_cpu_count, portions@, c_in, c_out),
    ensures
        list_views(r@) == linear_sent::<T, L>(*layer, portions@, total_cpu_count as int, c_in as int, c_out, if c_out > 0 {
            c_out as int
        } else {
            0
        }),
{
    let weight = layer.get_weights();
    let total = total_cpu_count as usize;
    let mut weight_to_send: Vec<Vec<WeightUnit<T>>> = empty_lists(total);
    let mut kernel_data: WeightUnit<T> = WeightUnit {
        data: Vec::new(),
        bias: zero,
        which_kernel: 0,
        count: 0,
        start_pos_in: Vec::new(),
        info: info,
    };
    let mut count: i32 = 0;
    let mut j: i32 = 0;
    while j < c_out
        invariant
            info == layer.spec_info(),
            linear_deal_defined::<T, L>(*layer, total_cpu_count, portions@, c_in, c_out),
            weight@ == layer.spec_weights(),
            total == total_cpu_count,
            0 <= j,
            c_out >= 0 ==> j <= c_out,
            c_out < 0 ==> j == 0,
            count == j,
            weight_to_send@.len() == total,
            kernel_data.data@ == Seq::<T>::empty(),
            kernel_data.count == 0,
            kernel_data.start_pos_in@ == Seq::<i32>::empty(),
            kernel_data.info == info,
            list_views(weight_to_send@) == linear_sent::<T, L>(*layer, portions@, total as int, c_in as int, c_out, j as int),
        decreases c_out - j,
    {
        assert(which_cpu_defined(portions@, j as i32, c_out as u32));
        proof {
            if c_in > 0 {
                assert(layer.spec_weights().subrange(j * c_in, j * c_in) =~= Seq::<T>::empty());
            }
        }
        let mut k: i32 = 0;
        while k < c_in
            invariant
                linear_deal_defined::<T, L>(*layer, total_cpu_count, portions@, c_in, c_out),
                weight@ == layer.spec_weights(),
                0 <= j < c_out,
                0 <= k,
                c_in >= 0 ==> k <= c_in,
                c_in < 0 ==> k == 0,
                c_in > 0 ==> kernel_data.data@ == layer.spec_weights().subrange(j * c_in, j * c_in + k),
                c_in <= 0 ==> kernel_data.data@ == Seq::<T>::empty(),
                kernel_data.count == 0,
                kernel_data.start_pos_in@ == Seq::<i32>::empty(),
                kernel_data.info == info,
            decreases c_in - k,
        {
            assert(which_cpu_defined(portions@, j as i32, c_out as u32));
            assert(j * c_in + k <= j * c_in + c_in - 1);
            assert(0 <= j * c_in + k) by (nonlinear_arith)
                requires
                    0 <= j,
                    0 <= k,
                    c_in > 0,
            ;
            let idx = (j * c_in + k) as usize;
            kernel_data.data.push(weight[idx]);
            assert(kernel_data.data@ =~= layer.spec_weights().subrange(j * c_in, j * c_in + k + 1));
            k = k + 1;
        }
        kernel_data.which_kernel = j as u16;
        let which_cpu = find_which_cpu(portions, count, c_out as u32);
        kernel_data.bias = layer.get_bias(j);
        proof {
            assert(unit_view(kernel_data) == linear_unit::<T, L>(*layer, c_in as int, j as int)) by {
                if c_in <= 0 {
                    assert(kernel_data.data@ =~= Seq::<T>::empty());
                }
            }
        }
        push_copy(&mut weight_to_send, which_cpu as usize, &kernel_data);
        kernel_data.data.clear();
        count = count + 1;
        j = j + 1;
    }
    weight_to_send
}

/// Deals a layer's weights to `total_cpu_count` processors, sharing the
/// outputs in proportion to `portions` (see `find_which_cpu`).
///
/// - A convolution: the outputs are taken channel by channel, row by row;
///   each processor receives units of consecutive outputs of one kernel
///   (the kernel's weights and bias, the first input position and the
///   number of outputs), a unit being cut where the processor changes, and
///   its list is sorted by start position.
/// - A fully connected layer: output `j` with its weight row and bias goes
///   to the processor that computes it.
/// - A batch normalisation: all weights in one unit, kept by one list.
/// - Layers without weights (clipped linear unit, max pooling): no lists.
///
/// `zero` is the bias a unit holds before any kernel has been read.
pub fn distribute_weight<T: Copy, L: Layer + LayerWeights<T>>(
    layer: &L,
    total_cpu_count: u8,
    portions: Vec<u8>,
    zero: T,
) -> (r: Vec<Vec<WeightUnit<T>>>)
    requires
        weight_deal_defined(*layer, total_cpu_count, portions@, zero),
    ensures
        match layer.spec_info() {
            InfoWrapper::Convolution(_) => {
                &&& r@.len() == total_cpu_count
                &&& forall|w: int|
                    0 <= w < total_cpu_count ==> sorted_by_start_of(
                        dealt_units(deal_params(*layer, portions@, total_cpu_count), zero)[w],
                        #[trigger] list_views(r@)[w],
                    )
            },
            InfoWrapper::Linear(info) => list_views(r@) == linear_sent::<T, L>(
                *layer,
                portions@,
                total_cpu_count as int,
                info.c_in as int,
                info.c_out,
                if info.c_out > 0 {
                    info.c_out as int
                } else {
                    0
                },
            ),
            InfoWrapper::BatchNorm2d(_) => list_views(r@) == seq![
                seq![
                    UnitView {
                        data: layer.spec_weights(),
                        bias: zero,
                        which_kernel: 0,
                        count: 0,
                        start: Seq::empty(),
                        info: layer.spec_info(),
                    },
                ],
            ],
            _ => r@.len() == 0,
        },
{
    let output_shape = layer.get_output_shape();
    let info = layer.get_info();
    match info {
        InfoWrapper::Convolution(_) => {
            let output_count = output_product(&output_shape);
            deal_convolution(layer, total_cpu_count, &portions, &output_shape, output_count, info, zero)
        },
        InfoWrapper::Linear(lin) => {
            deal_linear(layer, total_cpu_count, &portions, lin.c_in, lin.c_out, info, zero)
        },
        InfoWrapper::BatchNorm2d(_) => {
            let kernel_data = WeightUnit {
                data: layer.get_weights(),
                bias: zero,
                which_kernel: 0,
                count: 0,
                start_pos_in: Vec::new(),
                info: info,
            };
            let mut list: Vec<WeightUnit<T>> = Vec::new();
            list.push(kernel_data);
            let mut r: Vec<Vec<WeightUnit<T>>> = Vec::new();
            r.push(list);
            proof {
                assert(kernel_data.start_pos_in@ =~= Seq::<i32>::empty());
                assert(unit_views(r@[0]@) =~= seq![unit_view(kernel_data)]);
                assert(list_views(r@) =~= seq![seq![unit_view(kernel_data)]]);
            }
            r
        },
        _ => Vec::new(),
    }
}

/// Sum of the output counts of the units.
pub open spec fn units_count<T>(s: Seq<UnitView<T>>) -> int
    decreases s.len(),
{
    if s.len() == 0 {
        0
    } else {
        units_count(s.drop_last()) + s.last().count
    }
}

/// Sum of the output counts of the units of the first `n` lists.
pub open spec fn lists_count<T>(ls: Seq<Seq<UnitView<T>>>, n: int) -> int
    decreases n,
{
    if n <= 0 {
        0
    } else {
        lists_count(ls, n - 1) + units_count(ls[n - 1])
    }
}

/// The part of a side that the output loops visit.
pub open spec fn visited_side(o: int) -> int {
    if o > 0 {
        o
    } else {
        0
    }
}

/// Every kernel of the layer has at least one weight.
pub open spec fn kernels_have_weights<T, L: Layer + LayerWeights<T>>(p: DealParams<L>, o0: int) -> bool {
    forall|j: int| 0 <= j < o0 ==> (#[trigger] p.layer.spec_weights_from_input(deal_inputs(p, j, 0, 0), j as i32)).len() > 0
}

/// The outputs dealt so far are all counted: by the units sent and the unit
/// being filled.
pub open spec fn deal_counted<T, L>(p: DealParams<L>, st: DealState<T>) -> bool {
    &&& st.sent.len() == p.total
    &&& 0 <= st.cpu
    &&& lists_count(st.sent, p.total) + st.unit.count == st.count
    &&& (st.unit.data.len() == 0 ==> st.unit.count == 0)
}

proof fn lemma_units_push<T>(s: Seq<UnitView<T>>, u: UnitView<T>)
    ensures
        units_count(s.push(u)) == units_count(s) + u.count,
{
    assert(s.push(u).drop_last() =~= s);
}

proof fn lemma_lists_update<T>(ls: Seq<Seq<UnitView<T>>>, i: int, x: Seq<UnitView<T>>, n: int)
    requires
        0 <= i < ls.len(),
        n <= ls.len(),
    ensures
        lists_count(ls.update(i, x), n) == lists_count(ls, n) + if i < n {
            units_count(x) - units_count(ls[i])
        } else {
            0
        },
    decreases n,
{
    if n > 0 {
        lemma_lists_update(ls, i, x, n - 1);
    }
}

proof fn lemma_lists_empty<T>(total: int, n: int)
    requires
        0 <= n <= total,
    ensures
        lists_count(Seq::new(total as nat, |w: int| Seq::<UnitView<T>>::empty()), n) == 0,
    decreases n,
{
    if n > 0 {
        lemma_lists_empty::<T>(total, n - 1);
        assert(units_count(Seq::<UnitView<T>>::empty()) == 0);
    }
}

proof fn lemma_send_counted<T, L>(p: DealParams<L>, st: DealState<T>)
    requires
        deal_counted(p, st),
        st.cpu < p.total,
    ensures
        lists_count(send_unit(st).sent, p.total) == lists_count(st.sent, p.total) + st.unit.count,
        send_unit(st).sent.len() == p.total,
{
    lemma_units_push(st.sent[st.cpu], st.unit);
    lemma_lists_update(st.sent, st.cpu, st.sent[st.cpu].push(st.unit), p.total);
}

proof fn lemma_step_counted<T, L: Layer + LayerWeights<T>>(p: DealParams<L>, zero: T, j: int, k: int, m: int)
    requires
        deal_counted(p, state_before(p, zero, j, k, m)),
        deal_step_ok(p, zero, j, k, m),
        k == 0 && m == 0 ==> p.layer.spec_weights_from_input(deal_inputs(p, j, 0, 0), j as i32).len() > 0,
        !(k == 0 && m == 0) ==> state_before(p, zero, j, k, m).unit.data.len() > 0,
    ensures
        deal_counted(p, deal_step(p, state_before(p, zero, j, k, m), j, k, m)),
        deal_step(p, state_before(p, zero, j, k, m), j, k, m).count == state_before(p, zero, j, k, m).count + 1,
        deal_step(p, state_before(p, zero, j, k, m), j, k, m).unit.data.len() > 0,
{
    let st = state_before(p, zero, j, k, m);
    let s1 = deal_switch(p, st, j, k, m);
    if spec_which_cpu(p.portions, st.count as i32, p.oc as u32) != st.cpu {
        lemma_send_counted(p, st);
    }
    assert(deal_counted(p, s1));
    if k == 0 && m == 0 && s1.unit.data.len() > 0 {
        lemma_send_counted(p, s1);
    }
}

proof fn lemma_columns_counted<T, L: Layer + LayerWeights<T>>(p: DealParams<L>, zero: T, j: int, k: int, m: int)
    requires
        conv_deal_defined(p.layer, p.total as u8, p.portions, zero),
        p == deal_params(p.layer, p.portions, p.total as u8),
        0 <= p.total <= 255,
        kernels_have_weights(p, p.layer.spec_output_shape()[0] as int),
        0 <= j < p.layer.spec_output_shape()[0],
        0 <= k < p.o1,
        0 <= m <= p.o2,
        deal_counted(p, state_before(p, zero, j, k, 0)),
        k > 0 ==> state_before(p, zero, j, k, 0).unit.data.len() > 0,
    ensures
        deal_counted(p, state_before(p, zero, j, k, m)),
        state_before(p, zero, j, k, m).count == state_before(p, zero, j, k, 0).count + m,
        m > 0 || k > 0 ==> state_before(p, zero, j, k, m).unit.data.len() > 0,
    decreases m,
{
    if m > 0 {
        lemma_columns_counted(p, zero, j, k, m - 1);
        assert(deal_step_ok(p, zero, j, k, m - 1));
        lemma_step_counted(p, zero, j, k, m - 1);
    }
}

proof fn lemma_rows_counted<T, L: Layer + LayerWeights<T>>(p: DealParams<L>, zero: T, j: int, k: int)
    requires
        conv_deal_defined(p.layer, p.total as u8, p.portions, zero),
        p == deal_params(p.layer, p.portions, p.total as u8),
        0 <= p.total <= 255,
        kernels_have_weights(p, p.layer.spec_output_shape()[0] as int),
        0 <= j < p.layer.spec_output_shape()[0],
        0 <= k <= visited_side(p.o1),
        deal_counted(p, deal_channels(p, zero, j)),
    ensures
        deal_counted(p, deal_rows(p, deal_channels(p, zero, j), j, k)),
        deal_rows(p, deal_channels(p, zero, j), j, k).count == deal_channels(p, zero, j).count + k
            * visited_side(p.o2),
        k > 0 && p.o2 > 0 ==> deal_rows(p, deal_channels(p, zero, j), j, k).unit.data.len() > 0,
    decreases k,
{
    if k > 0 {
        lemma_rows_counted(p, zero, j, k - 1);
        let c = deal_channels(p, zero, j).count;
        if p.o2 > 0 {
            lemma_columns_counted(p, zero, j, k - 1, p.o2);
            assert(c + (k - 1) * p.o2 + p.o2 == c + k * p.o2) by (nonlinear_arith);
        } else {
            assert(deal_rows(p, deal_channels(p, zero, j), j, k) == deal_rows(p, deal_channels(p, zero, j), j, k - 1));
        }
    }
}

proof fn lemma_channels_counted<T, L: Layer + LayerWeights<T>>(p: DealParams<L>, zero: T, j: int)
    requires
        conv_deal_defined(p.layer, p.total as u8, p.portions, zero),
        p == deal_params(p.layer, p.portions, p.total as u8),
        0 <= p.total <= 255,
        kernels_have_weights(p, p.layer.spec_output_shape()[0] as int),
        0 <= j <= visited_side(p.layer.spec_output_shape()[0] as int),
    ensures
        deal_counted(p, deal_channels(p, zero, j)),
        deal_channels(p, zero, j).count == j * (visited_side(p.o1) * visited_side(p.o2)),
    decreases j,
{
    if j == 0 {
        lemma_lists_empty::<T>(p.total, p.total);
        assert(deal_channels(p, zero, 0).unit.data.len() == 0);
    } else {
        lemma_channels_counted(p, zero, j - 1);
        lemma_rows_counted(p, zero, j - 1, visited_side(p.o1));
        if p.o1 <= 0 {
            assert(deal_rows(p, deal_channels(p, zero, j - 1), j - 1, p.o1) == deal_channels(p, zero, j - 1));
        }
        let a = visited_side(p.o1);
        let b = visited_side(p.o2);
        assert((j - 1) * (a * b) + a * b == j * (a * b)) by (nonlinear_arith);
    }
}

/// No output of a convolution is lost or counted twice: when every kernel
/// has weights, the output counts of all units dealt to all processors add
/// up to the number of outputs.
pub proof fn lemma_deal_counts_every_output<T, L: Layer + LayerWeights<T>>(
    layer: L,
    total_cpu_count: u8,
    portions: Seq<u8>,
    zero: T,
)
    requires
        layer.spec_info() is Convolution,
        weight_deal_defined(layer, total_cpu_count, portions, zero),
        kernels_have_weights(
            deal_params(layer, portions, total_cpu_count),
            layer.spec_output_shape()[0] as int,
        ),
    ensures
        lists_count(dealt_units(deal_params(layer, portions, total_cpu_count), zero), total_cpu_count as int)
            == visited_side(layer.spec_output_shape()[0] as int) * (visited_side(
            layer.spec_output_shape()[1] as int,
        ) * visited_side(layer.spec_output_shape()[2] as int)),
{
    let p = deal_params(layer, portions, total_cpu_count);
    let o0 = layer.spec_output_shape()[0] as int;
    lemma_channels_counted(p, zero, visited_side(o0));
    let stf = deal_channels(p, zero, o0);
    assert(deal_channels(p, zero, visited_side(o0)) == stf);
    lemma_send_counted(p, stf);
}

/// The deal is at the processor `find_which_cpu` names for the last output
/// dealt (the first processor before any).
pub open spec fn cpu_tracks<T>(portions: Seq<u8>, oc: i32, st: DealState<T>) -> bool {
    &&& st.count == 0 ==> st.cpu == 0
    &&& st.count > 0 ==> st.cpu == spec_which_cpu(portions, (st.count - 1) as i32, oc as u32)
}

/// Every processor has a non-zero portion and the layer has outputs.
pub open spec fn no_skipped_processor<L>(p: DealParams<L>) -> bool {
    &&& forall|i: int| 0 <= i < p.portions.len() ==> #[trigger] p.portions[i] > 0
    &&& p.oc >= 1
}

proof fn lemma_step_tracks<T, L: Layer + LayerWeights<T>>(p: DealParams<L>, zero: T, j: int, k: int, m: int)
    requires
        no_skipped_processor(p),
        deal_step_ok(p, zero, j, k, m),
        cpu_tracks(p.portions, p.oc, state_before(p, zero, j, k, m)),
    ensures
        deal_switch(p, state_before(p, zero, j, k, m), j, k, m).cpu == spec_which_cpu(
            p.portions,
            state_before(p, zero, j, k, m).count as i32,
            p.oc as u32,
        ),
        cpu_tracks(p.portions, p.oc, deal_step(p, state_before(p, zero, j, k, m), j, k, m)),
        deal_step(p, state_before(p, zero, j, k, m), j, k, m).count == state_before(p, zero, j, k, m).count + 1,
{
    let st = state_before(p, zero, j, k, m);
    let c = st.count;
    if c == 0 {
        lemma_which_cpu_first(p.portions, p.oc as u32);
    } else {
        lemma_which_cpu_monotone(p.portions, (c - 1) as i32, c as i32, p.oc as u32);
        lemma_which_cpu_steps_by_one(p.portions, c as i32, p.oc as u32);
    }
}

proof fn lemma_columns_track<T, L: Layer + LayerWeights<T>>(p: DealParams<L>, zero: T, j: int, k: int, m: int)
    requires
        conv_deal_defined(p.layer, p.total as u8, p.portions, zero),
        p == deal_params(p.layer, p.portions, p.total as u8),
        0 <= p.total <= 255,
        no_skipped_processor(p),
        0 <= j < p.layer.spec_output_shape()[0],
        0 <= k < p.o1,
        0 <= m <= p.o2,
        cpu_tracks(p.portions, p.oc, state_before(p, zero, j, k, 0)),
    ensures
        cpu_tracks(p.portions, p.oc, state_before(p, zero, j, k, m)),
        state_before(p, zero, j, k, m).count == state_before(p, zero, j, k, 0).count + m,
    decreases m,
{
    if m > 0 {
        lemma_columns_track(p, zero, j, k, m - 1);
        assert(deal_step_ok(p, zero, j, k, m - 1));
        lemma_step_tracks(p, zero, j, k, m - 1);
    }
}

proof fn lemma_rows_track<T, L: Layer + LayerWeights<T>>(p: DealParams<L>, zero: T, j: int, k: int)
    requires
        conv_deal_defined(p.layer, p.total as u8, p.portions, zero),
        p == deal_params(p.layer, p.portions, p.total as u8),
        0 <= p.total <= 255,
        no_skipped_processor(p),
        0 <= j < p.layer.spec_output_shape()[0],
        0 <= k <= p.o1,
        p.o2 > 0,
        cpu_tracks(p.portions, p.oc, deal_channels(p, zero, j)),
    ensures
        cpu_tracks(p.portions, p.oc, deal_rows(p, deal_channels(p, zero, j), j, k)),
        deal_rows(p, deal_channels(p, zero, j), j, k).count == deal_channels(p, zero, j).count + k * p.o2,
    decreases k,
{
    if k > 0 {
        lemma_rows_track(p, zero, j, k - 1);
        lemma_columns_track(p, zero, j, k - 1, p.o2);
        let c = deal_channels(p, zero, j).count;
        assert(c + (k - 1) * p.o2 + p.o2 == c + k * p.o2) by (nonlinear_arith);
    }
}

proof fn lemma_channels_track<T, L: Layer + LayerWeights<T>>(p: DealParams<L>, zero: T, j: int)
    requires
        conv_deal_defined(p.layer, p.total as u8, p.portions, zero),
        p == deal_params(p.layer, p.portions, p.total as u8),
        0 <= p.total <= 255,
        no_skipped_processor(p),
        0 <= j <= p.layer.spec_output_shape()[0],
        p.o1 > 0,
        p.o2 > 0,
    ensures
        cpu_tracks(p.portions, p.oc, deal_channels(p, zero, j)),
        deal_channels(p, zero, j).count == j * (p.o1 * p.o2),
    decreases j,
{
    if j > 0 {
        lemma_channels_track(p, zero, j - 1);
        lemma_rows_track(p, zero, j - 1, p.o1);
        assert((j - 1) * (p.o1 * p.o2) + p.o1 * p.o2 == j * (p.o1 * p.o2)) by (nonlinear_arith);
    }
}

/// Weights and inputs go to the same processor: when every processor has a
/// non-zero portion, output (j, k, m) of a convolution is dealt while the
/// deal is at the processor that the input mapping marks for that output
/// (`cpu_of_output` of its number), so its unit lands in that processor's
/// list.
pub proof fn lemma_deal_matches_input_mapping<T, L: Layer + LayerWeights<T>>(
    layer: L,
    total_cpu_count: u8,
    portions: Seq<u8>,
    zero: T,
    j: int,
    k: int,
    m: int,
)
    requires
        layer.spec_info() is Convolution,
        weight_deal_defined(layer, total_cpu_count, portions, zero),
        forall|i: int| 0 <= i < portions.len() ==> #[trigger] portions[i] > 0,
        shape_product(layer.spec_output_shape(), layer.spec_output_shape().len() as int) >= 1,
        0 <= j < layer.spec_output_shape()[0],
        0 <= k < layer.spec_output_shape()[1],
        0 <= m < layer.spec_output_shape()[2],
    ensures
        deal_switch(
            deal_params(layer, portions, total_cpu_count),
            state_before(deal_params(layer, portions, total_cpu_count), zero, j, k, m),
            j,
            k,
            m,
        ).cpu == cpu_of_output(
            portions,
            deal_params(layer, portions, total_cpu_count).oc,
            output_number(layer.spec_output_shape()[1] as int, layer.spec_output_shape()[2] as int, j, k, m),
        ),
{
    let p = deal_params(layer, portions, total_cpu_count);
    let out = layer.spec_output_shape();
    assert(i32::MIN <= shape_product(out, out.len() as int) <= i32::MAX);
    assert(no_skipped_processor(p));
    lemma_channels_track(p, zero, j);
    lemma_rows_track(p, zero, j, k);
    lemma_columns_track(p, zero, j, k, m);
    assert(deal_step_ok(p, zero, j, k, m));
    lemma_step_tracks(p, zero, j, k, m);
    let n = output_number(p.o1, p.o2, j, k, m);
    assert(state_before(p, zero, j, k, m).count == n) by {
        assert(j * (p.o1 * p.o2) + k * p.o2 + m == n);
    }
    if n == 0 {
        lemma_which_cpu_first(portions, p.oc as u32);
    }
}

/// Plain conditions under which dealing a convolution layer's weights
/// never fails: three positive output sides whose product is below 2^24,
/// one portion per processor (at most 255), not all zero and with a total
/// below 2^24, and every output reads at least one input.
pub open spec fn conv_deal_plain<L: Layer>(layer: L, total: u8, portions: Seq<u8>) -> bool {
    let out = layer.spec_output_shape();
    &&& out.len() == 3
    &&& out[0] > 0 && out[1] > 0 && out[2] > 0
    &&& out[0] * out[1] * out[2] < f32_exact_limit()
    &&& portions.len() == total
    &&& 0 < portion_total(portions) < f32_exact_limit()
    &&& forall|j: int, k: int, m: int|
        0 <= j < out[0] && 0 <= k < out[1] && 0 <= m < out[2] ==> (#[trigger] inputs_of(layer, j, k, m)).len() > 0
}

/// The deal is no further than the processor `find_which_cpu` names for the
/// last output dealt, and the unit being filled counts no more outputs than
/// were dealt.
pub open spec fn deal_within<T>(portions: Seq<u8>, oc: i32, st: DealState<T>) -> bool {
    &&& st.count >= 0
    &&& st.cpu >= 0
    &&& st.count == 0 ==> st.cpu == 0
    &&& st.count > 0 ==> st.cpu <= spec_which_cpu(portions, (st.count - 1) as i32, oc as u32)
    &&& 0 <= st.unit.count <= st.count
}

proof fn lemma_plain_params<L: Layer>(layer: L, total: u8, portions: Seq<u8>)
    requires
        conv_deal_plain(layer, total, portions),
    ensures
        deal_params(layer, portions, total).oc == layer.spec_output_shape()[0] * layer.spec_output_shape()[1]
            * layer.spec_output_shape()[2],
        shape_product_fits(layer.spec_output_shape()),
{
    let out = layer.spec_output_shape();
    let (a, b, c) = (out[0] as int, out[1] as int, out[2] as int);
    assert(shape_product(out, 0) == 1);
    assert(shape_product(out, 1) == a);
    assert(shape_product(out, 2) == a * b);
    assert(shape_product(out, 3) == a * b * c);
    assert(0 < a * b <= a * b * c) by (nonlinear_arith)
        requires
            a > 0,
            b > 0,
            c > 0,
    ;
}

proof fn lemma_plain_step<T, L: Layer + LayerWeights<T>>(p: DealParams<L>, zero: T, j: int, k: int, m: int)
    requires
        conv_deal_plain(p.layer, p.total as u8, p.portions),
        p == deal_params(p.layer, p.portions, p.total as u8),
        0 <= p.total <= 255,
        0 <= j < p.layer.spec_output_shape()[0],
        0 <= k < p.o1,
        0 <= m < p.o2,
        deal_within(p.portions, p.oc, state_before(p, zero, j, k, m)),
        state_before(p, zero, j, k, m).count == output_number(p.o1, p.o2, j, k, m),
    ensures
        deal_step_ok(p, zero, j, k, m),
        deal_within(p.portions, p.oc, deal_step(p, state_before(p, zero, j, k, m), j, k, m)),
        deal_step(p, state_before(p, zero, j, k, m), j, k, m).count == state_before(p, zero, j, k, m).count + 1,
{
    let out = p.layer.spec_output_shape();
    lemma_plain_params(p.layer, p.total as u8, p.portions);
    let st = state_before(p, zero, j, k, m);
    let n = st.count;
    let (a, b, c) = (out[0] as int, out[1] as int, out[2] as int);
    assert(n + 1 <= a * b * c) by (nonlinear_arith)
        requires
            n == j * (b * c) + k * c + m,
            0 <= j < a,
            0 <= k < b,
            0 <= m < c,
    ;
    assert(p.oc == a * b * c);
    lemma_which_cpu_defined_for_outputs(p.portions, n as i32, p.oc as u32);
    if n > 0 {
        lemma_which_cpu_monotone(p.portions, (n - 1) as i32, n as i32, p.oc as u32);
    } else {
        lemma_which_cpu_first(p.portions, p.oc as u32);
    }
    assert(inputs_of(p.layer, j, k, m).len() > 0);
}

proof fn lemma_columns_plain<T, L: Layer + LayerWeights<T>>(p: DealParams<L>, zero: T, j: int, k: int, m: int)
    requires
        conv_deal_plain(p.layer, p.total as u8, p.portions),
        p == deal_params(p.layer, p.portions, p.total as u8),
        0 <= p.total <= 255,
        0 <= j < p.layer.spec_output_shape()[0],
        0 <= k < p.o1,
        0 <= m <= p.o2,
        deal_within(p.portions, p.oc, state_before(p, zero, j, k, 0)),
        state_before(p, zero, j, k, 0).count == output_number(p.o1, p.o2, j, k, 0),
    ensures
        deal_within(p.portions, p.oc, state_before(p, zero, j, k, m)),
        state_before(p, zero, j, k, m).count == output_number(p.o1, p.o2, j, k, m),
    decreases m,
{
    if m > 0 {
        lemma_columns_plain(p, zero, j, k, m - 1);
        lemma_plain_step(p, zero, j, k, m - 1);
    }
}

proof fn lemma_rows_plain<T, L: Layer + LayerWeights<T>>(p: DealParams<L>, zero: T, j: int, k: int)
    requires
        conv_deal_plain(p.layer, p.total as u8, p.portions),
        p == deal_params(p.layer, p.portions, p.total as u8),
        0 <= p.total <= 255,
        0 <= j < p.layer.spec_output_shape()[0],
        0 <= k <= p.o1,
        deal_within(p.portions, p.oc, deal_channels(p, zero, j)),
        deal_channels(p, zero, j).count == output_number(p.o1, p.o2, j, 0, 0),
    ensures
        deal_within(p.portions, p.oc, deal_rows(p, deal_channels(p, zero, j), j, k)),
        deal_rows(p, deal_channels(p, zero, j), j, k).count == output_number(p.o1, p.o2, j, k, 0),
    decreases k,
{
    if k > 0 {
        lemma_rows_plain(p, zero, j, k - 1);
        lemma_columns_plain(p, zero, j, k - 1, p.o2);
        assert(output_number(p.o1, p.o2, j, k - 1, p.o2) == output_number(p.o1, p.o2, j, k, 0)) by (nonlinear_arith);
    }
}

proof fn lemma_channels_plain<T, L: Layer + LayerWeights<T>>(p: DealParams<L>, zero: T, j: int)
    requires
        conv_deal_plain(p.layer, p.total as u8, p.portions),
        p == deal_params(p.layer, p.portions, p.total as u8),
        0 <= p.total <= 255,
        0 <= j <= p.layer.spec_output_shape()[0],
    ensures
        deal_within(p.portions, p.oc, deal_channels(p, zero, j)),
        deal_channels(p, zero, j).count == output_number(p.o1, p.o2, j, 0, 0),
    decreases j,
{
    if j > 0 {
        lemma_channels_plain(p, zero, j - 1);
        lemma_rows_plain(p, zero, j - 1, p.o1);
        assert(output_number(p.o1, p.o2, j - 1, p.o1, 0) == output_number(p.o1, p.o2, j, 0, 0)) by (nonlinear_arith);
    } else {
        assert(output_number(p.o1, p.o2, 0, 0, 0) == 0);
    }
}

/// The plain conditions suffice: under them every step of dealing a
/// convolution layer's weights is defined, whatever the weights are.
pub proof fn lemma_plain_conditions_suffice<T, L: Layer + LayerWeights<T>>(layer: L, total_cpu_count: u8, portions: Seq<u8>, zero: T)
    requires
        conv_deal_plain(layer, total_cpu_count, portions),
    ensures
        conv_deal_defined(layer, total_cpu_count, portions, zero),
        shape_product_fits(layer.spec_output_shape()),
{
    let p = deal_params(layer, portions, total_cpu_count);
    let out = layer.spec_output_shape();
    lemma_plain_params(layer, total_cpu_count, portions);
    assert forall|j: int, k: int, m: int|
        0 <= j < out[0] && 0 <= k < out[1] && 0 <= m < out[2] implies #[trigger] deal_step_ok(p, zero, j, k, m) by {
        lemma_channels_plain(p, zero, j);
        lemma_rows_plain(p, zero, j, k);
        lemma_columns_plain(p, zero, j, k, m);
        lemma_plain_step(p, zero, j, k, m);
    }
    lemma_channels_plain(p, zero, out[0] as int);
    let n = deal_channels(p, zero, out[0] as int).count;
    let (a, b, c) = (out[0] as int, out[1] as int, out[2] as int);
    assert(n == a * (b * c) && 1 <= n <= a * b * c) by (nonlinear_arith)
        requires
            n == a * (b * c) + 0 * c + 0,
            a > 0,
            b > 0,
            c > 0,
    ;
    lemma_which_cpu_defined_for_outputs(portions, (n - 1) as i32, p.oc as u32);
}

/// Plain conditions under which dealing a fully connected layer's weights
/// never fails: one portion per processor, not all zero and with a total
/// below 2^24, fewer than 2^24 outputs, and a weight matrix of at least
/// `c_out` rows of `c_in` weights whose indices fit in an `i32`.
pub open spec fn linear_deal_plain<T, L: Layer + LayerWeights<T>>(layer: L, total: u8, portions: Seq<u8>, c_in: i32, c_out: i32) -> bool {
    &&& portions.len() == total
    &&& 0 < portion_total(portions) < f32_exact_limit()
    &&& c_out < f32_exact_limit()
    &&& (c_in > 0 && c_out > 0 ==> c_out * c_in <= i32::MAX + 1 && c_out * c_in <= layer.spec_weights().len())
}

/// The plain conditions suffice for a fully connected layer.
pub proof fn lemma_linear_plain_conditions_suffice<T, L: Layer + LayerWeights<T>>(
    layer: L,
    total: u8,
    portions: Seq<u8>,
    c_in: i32,
    c_out: i32,
)
    requires
        linear_deal_plain::<T, L>(layer, total, portions, c_in, c_out),
    ensures
        linear_deal_defined::<T, L>(layer, total, portions, c_in, c_out),
{
    assert forall|j: int| 0 <= j < c_out implies {
        &&& #[trigger] which_cpu_defined(portions, j as i32, c_out as u32)
        &&& spec_which_cpu(portions, j as i32, c_out as u32) < total
        &&& (c_in > 0 ==> j * c_in + c_in - 1 <= i32::MAX && j * c_in + c_in <= layer.spec_weights().len())
    } by {
        lemma_which_cpu_defined_for_outputs(portions, j as i32, c_out as u32);
        if c_in > 0 {
            assert(j * c_in + c_in <= c_out * c_in) by (nonlinear_arith)
                requires
                    0 <= j < c_out,
                    c_in > 0,
            ;
        }
    }
}

/// Unit `u` is the unit of kernel `j`: it names the kernel and holds the
/// kernel's bias and its weights (as the layer gives them for the kernel's
/// first output).
pub open spec fn kernel_unit<T, L: Layer + LayerWeights<T>>(p: DealParams<L>, u: UnitView<T>, j: int) -> bool {
    &&& 0 <= j < p.layer.spec_output_shape()[0]
    &&& u.which_kernel == j as u16
    &&& u.bias == p.layer.spec_bias(j as i32)
    &&& u.data == p.layer.spec_weights_from_input(inputs_of(p.layer, j, 0, 0), j as i32)
}

/// `u` is the unit of some kernel of the layer.
pub open spec fn of_some_kernel<T, L: Layer + LayerWeights<T>>(p: DealParams<L>, u: UnitView<T>) -> bool {
    exists|j: int| #[trigger] kernel_unit(p, u, j)
}

/// Every unit sent so far, and the unit being filled once an output has
/// been dealt, is the unit of some kernel.
pub open spec fn deal_carries<T, L: Layer + LayerWeights<T>>(p: DealParams<L>, st: DealState<T>) -> bool {
    &&& st.count >= 0
    &&& st.cpu >= 0
    &&& st.sent.len() == p.total
    &&& forall|w: int, i: int|
        0 <= w < st.sent.len() && 0 <= i < st.sent[w].len() ==> of_some_kernel(p, #[trigger] st.sent[w][i])
    &&& st.count > 0 ==> of_some_kernel(p, st.unit)
    &&& st.count == 0 ==> st.cpu == 0 && st.unit.data.len() == 0
}

proof fn lemma_send_carries<T, L: Layer + LayerWeights<T>>(p: DealParams<L>, st: DealState<T>)
    requires
        deal_carries(p, st),
        of_some_kernel(p, st.unit),
        st.cpu < p.total,
    ensures
        send_unit(st).sent.len() == p.total,
        forall|w: int, i: int|
            0 <= w < p.total && 0 <= i < send_unit(st).sent[w].len() ==> of_some_kernel(
                p,
                #[trigger] send_unit(st).sent[w][i],
            ),
{
    let s2 = send_unit(st);
    assert forall|w: int, i: int| 0 <= w < p.total && 0 <= i < s2.sent[w].len() implies of_some_kernel(
        p,
        #[trigger] s2.sent[w][i],
    ) by {
        if w == st.cpu {
            if i < st.sent[w].len() {
                assert(s2.sent[w][i] == st.sent[w][i]);
            }
        } else {
            assert(s2.sent[w] == st.sent[w]);
        }
    }
}

proof fn lemma_step_carries<T, L: Layer + LayerWeights<T>>(p: DealParams<L>, zero: T, j: int, k: int, m: int)
    requires
        p.o1 > 0,
        p.o2 > 0,
        0 <= j < p.layer.spec_output_shape()[0],
        0 <= k < p.o1,
        0 <= m < p.o2,
        deal_step_ok(p, zero, j, k, m),
        deal_carries(p, state_before(p, zero, j, k, m)),
        state_before(p, zero, j, k, m).count == output_number(p.o1, p.o2, j, k, m),
    ensures
        deal_carries(p, deal_step(p, state_before(p, zero, j, k, m), j, k, m)),
        deal_step(p, state_before(p, zero, j, k, m), j, k, m).count == state_before(p, zero, j, k, m).count + 1,
{
    let st = state_before(p, zero, j, k, m);
    let (o1, o2) = (p.o1, p.o2);
    if st.count == 0 {
        assert(j == 0 && k == 0 && m == 0) by (nonlinear_arith)
            requires
                j * (o1 * o2) + k * o2 + m == 0,
                j >= 0,
                0 <= k,
                0 <= m,
                o1 > 0,
                o2 > 0,
        ;
        crate::partition::lemma_which_cpu_first(p.portions, p.oc as u32);
    }
    let s1 = deal_switch(p, st, j, k, m);
    if spec_which_cpu(p.portions, st.count as i32, p.oc as u32) != st.cpu {
        lemma_send_carries(p, st);
        let jj = choose|jj: int| #[trigger] kernel_unit(p, st.unit, jj);
        assert(kernel_unit(p, s1.unit, jj));
    }
    assert(deal_carries(p, s1) || st.count == 0);
    let s2 = deal_kernel(p, s1, j, k, m);
    if k == 0 && m == 0 {
        if s1.unit.data.len() > 0 {
            lemma_send_carries(p, s1);
        }
        assert(kernel_unit(p, s2.unit, j));
    } else {
        assert(st.count > 0);
    }
    let s3 = deal_step(p, st, j, k, m);
    let jj = choose|jj: int| #[trigger] kernel_unit(p, s2.unit, jj);
    assert(kernel_unit(p, s3.unit, jj));
}

proof fn lemma_columns_carry<T, L: Layer + LayerWeights<T>>(p: DealParams<L>, zero: T, j: int, k: int, m: int)
    requires
        conv_deal_defined(p.layer, p.total as u8, p.portions, zero),
        p == deal_params(p.layer, p.portions, p.total as u8),
        p.o1 > 0,
        p.o2 > 0,
        0 <= j < p.layer.spec_output_shape()[0],
        0 <= k < p.o1,
        0 <= m <= p.o2,
        deal_carries(p, state_before(p, zero, j, k, 0)),
        state_before(p, zero, j, k, 0).count == output_number(p.o1, p.o2, j, k, 0),
    ensures
        deal_carries(p, state_before(p, zero, j, k, m)),
        state_before(p, zero, j, k, m).count == output_number(p.o1, p.o2, j, k, m),
    decreases m,
{
    if m > 0 {
        lemma_columns_carry(p, zero, j, k, m - 1);
        assert(deal_step_ok(p, zero, j, k, m - 1));
        lemma_step_carries(p, zero, j, k, m - 1);
    }
}

proof fn lemma_rows_carry<T, L: Layer + LayerWeights<T>>(p: DealParams<L>, zero: T, j: int, k: int)
    requires
        conv_deal_defined(p.layer, p.total as u8, p.portions, zero),
        p == deal_params(p.layer, p.portions, p.total as u8),
        p.o1 > 0,
        p.o2 > 0,
        0 <= j < p.layer.spec_output_shape()[0],
        0 <= k <= p.o1,
        deal_carries(p, deal_channels(p, zero, j)),
        deal_channels(p, zero, j).count == output_number(p.o1, p.o2, j, 0, 0),
    ensures
        deal_carries(p, deal_rows(p, deal_channels(p, zero, j), j, k)),
        deal_rows(p, deal_channels(p, zero, j), j, k).count == output_number(p.o1, p.o2, j, k, 0),
    decreases k,
{
    if k > 0 {
        lemma_rows_carry(p, zero, j, k - 1);
        lemma_columns_carry(p, zero, j, k - 1, p.o2);
        assert(output_number(p.o1, p.o2, j, k - 1, p.o2) == output_number(p.o1, p.o2, j, k, 0)) by (nonlinear_arith);
    }
}

proof fn lemma_channels_carry<T, L: Layer + LayerWeights<T>>(p: DealParams<L>, zero: T, j: int)
    requires
        conv_deal_defined(p.layer, p.total as u8, p.portions, zero),
        p == deal_params(p.layer, p.portions, p.total as u8),
        0 <= p.total,
        p.o1 > 0,
        p.o2 > 0,
        0 <= j <= p.layer.spec_output_shape()[0],
    ensures
        deal_carries(p, deal_channels(p, zero, j)),
        deal_channels(p, zero, j).count == output_number(p.o1, p.o2, j, 0, 0),
    decreases j,
{
    if j > 0 {
        lemma_channels_carry(p, zero, j - 1);
        lemma_rows_carry(p, zero, j - 1, p.o1);
        assert(output_number(p.o1, p.o2, j - 1, p.o1, 0) == output_number(p.o1, p.o2, j, 0, 0)) by (nonlinear_arith);
    } else {
        assert(output_number(p.o1, p.o2, 0, 0, 0) == 0);
        let st = initial_deal(p, zero);
        assert(st.sent.len() == p.total);
    }
}

/// Each unit dealt for a convolution is the unit of one of the layer's
/// kernels `j`: it names kernel `j` and carries the bias the layer gives
/// for kernel `j` and the weights the layer gives for kernel `j`.
pub proof fn lemma_dealt_units_carry_their_kernel<T, L: Layer + LayerWeights<T>>(
    layer: L,
    total_cpu_count: u8,
    portions: Seq<u8>,
    zero: T,
)
    requires
        layer.spec_info() is Convolution,
        weight_deal_defined(layer, total_cpu_count, portions, zero),
        layer.spec_output_shape()[0] > 0,
        layer.spec_output_shape()[1] > 0,
        layer.spec_output_shape()[2] > 0,
    ensures
        forall|w: int, i: int|
            #![trigger dealt_units(deal_params(layer, portions, total_cpu_count), zero)[w][i]]
            0 <= w < total_cpu_count && 0 <= i < dealt_units(deal_params(layer, portions, total_cpu_count), zero)[w].len()
                ==> exists|j: int|
                #![trigger layer.spec_bias(j as i32)]
                0 <= j < layer.spec_output_shape()[0] && dealt_units(
                    deal_params(layer, portions, total_cpu_count),
                    zero,
                )[w][i].which_kernel == j as u16 && dealt_units(
                    deal_params(layer, portions, total_cpu_count),
                    zero,
                )[w][i].bias == layer.spec_bias(j as i32) && dealt_units(
                    deal_params(layer, portions, total_cpu_count),
                    zero,
                )[w][i].data == layer.spec_weights_from_input(inputs_of(layer, j, 0, 0), j as i32),
{
    let p = deal_params(layer, portions, total_cpu_count);
    let o0 = layer.spec_output_shape()[0] as int;
    lemma_channels_carry(p, zero, o0);
    let stf = deal_channels(p, zero, o0);
    assert(stf.count > 0) by (nonlinear_arith)
        requires
            stf.count == o0 * (p.o1 * p.o2) + 0 * p.o2 + 0,
            o0 > 0,
            p.o1 > 0,
            p.o2 > 0,
    ;
    lemma_send_carries(p, stf);
    let du = dealt_units(p, zero);
    assert forall|w: int, i: int| #![trigger du[w][i]] 0 <= w < total_cpu_count && 0 <= i < du[w].len() implies exists|j: int|
        #![trigger layer.spec_bias(j as i32)]
        0 <= j < o0 && du[w][i].which_kernel == j as u16 && du[w][i].bias == layer.spec_bias(j as i32)
            && du[w][i].data == layer.spec_weights_from_input(inputs_of(layer, j, 0, 0), j as i32) by {
        assert(of_some_kernel(p, du[w][i]));
        let j = choose|j: int| #[trigger] kernel_unit(p, du[w][i], j);
        assert(kernel_unit(p, du[w][i], j));
    }
}

} // verus!
