use vstd::prelude::*;

use crate::layer::{ConvMapping, InfoWrapper};
use crate::ordering::{lex_lt, vec_lex_lt};
use crate::weights::{conv_input_count, fits_i32, i32_div, spec_unit_input_count, trunc_div, unit_input_count_defined};

verus! {

/// The position fields of a weight unit: its kernel, how many outputs it
/// computes, where its first output's input window starts, and its layer.
pub struct UnitLayout {
    pub which_kernel: u16,
    pub count: i32,
    pub start_pos_in: Vec<i32>,
    pub info: InfoWrapper,
}

/// A `UnitLayout` as values.
pub struct LayoutView {
    pub kernel: u16,
    pub count: i32,
    pub pos: Seq<i32>,
    pub info: InfoWrapper,
}

/// The values of a `UnitLayout`.
pub open spec fn layout_view(u: UnitLayout) -> LayoutView {
    LayoutView { kernel: u.which_kernel, count: u.count, pos: u.start_pos_in@, info: u.info }
}

/// The values of a list of layouts.
pub open spec fn layouts_view(us: Seq<UnitLayout>) -> Seq<LayoutView> {
    us.map_values(|u: UnitLayout| layout_view(u))
}

/// Rust's `a / b` on `i32` is defined: no division by zero, no overflow.
pub open spec fn div_ok(a: int, b: int) -> bool {
    b != 0 && !(a == i32::MIN && b == -1)
}

/// The value as a `usize`, as an `as` cast gives it.
pub open spec fn as_usize(x: int) -> int {
    (x as usize) as int
}

/// `a * b` on `usize` does not overflow.
pub open spec fn usize_mul_ok(a: int, b: int) -> bool {
    a * b <= usize::MAX
}

/// The output channels per group, cut to `u16`.
pub open spec fn o_pg16(conv: ConvMapping) -> int {
    (conv.o_pg as u16) as int
}

/// The output group a kernel belongs to.
pub open spec fn kernel_group(conv: ConvMapping, kernel: u16) -> int {
    kernel as int / o_pg16(conv)
}

/// The smallest kernel number among the first `n` units.
pub open spec fn min_kernel(units: Seq<LayoutView>, n: int) -> int
    decreases n,
{
    if n <= 1 {
        units[0].kernel as int
    } else {
        let rest = min_kernel(units, n - 1);
        if (units[n - 1].kernel as int) < rest {
            units[n - 1].kernel as int
        } else {
            rest
        }
    }
}

/// Half a kernel extent, rounded toward zero.
pub open spec fn half(k: i32) -> int {
    trunc_div(k as int, 2)
}

/// The scan that finds the input groups whose outputs are all computed.
pub struct GroupScan {
    pub max_pos_count: int,
    pub prev_group: int,
    pub completed: Seq<u16>,
    pub ok: bool,
}

/// One unit of the group scan.
pub open spec fn group_scan_step(conv: ConvMapping, u: LayoutView, st: GroupScan) -> GroupScan {
    if !st.ok {
        st
    } else {
        let pos = u.pos;
        let defined1 = pos.len() >= 3 && fits_i32(pos[1] + half(conv.k.0)) && fits_i32(pos[2] + half(conv.k.1))
            && div_ok(pos[0] as int, conv.i_pg as int);
        if !defined1 {
            GroupScan { ok: false, ..st }
        } else {
            let padded_row = pos[1] + half(conv.k.0);
            let padded_col = pos[2] + half(conv.k.1);
            let cur_group = (trunc_div(pos[0] as int, conv.i_pg as int) as u16) as int;
            let mpc1 = if st.prev_group != cur_group {
                0
            } else {
                st.max_pos_count
            };
            let a = trunc_div(padded_row, conv.s.1 as int) * conv.o.2;
            let cpc = a + trunc_div(padded_col, conv.s.0 as int);
            let defined2 = div_ok(padded_row, conv.s.1 as int) && div_ok(padded_col, conv.s.0 as int) && fits_i32(a)
                && fits_i32(cpc) && (cpc <= mpc1 ==> fits_i32(cpc + u.count)) && fits_i32(
                conv.o.1 * conv.o.2,
            );
            if !defined2 {
                GroupScan { ok: false, ..st }
            } else {
                let mpc2 = if cpc <= mpc1 {
                    if mpc1 >= cpc + u.count {
                        mpc1
                    } else {
                        cpc + u.count
                    }
                } else {
                    mpc1
                };
                let completed = if mpc2 >= conv.o.1 * conv.o.2 && !st.completed.contains(cur_group as u16) {
                    st.completed.push(cur_group as u16)
                } else {
                    st.completed
                };
                GroupScan { max_pos_count: mpc2, prev_group: cur_group, completed: completed, ok: true }
            }
        }
    }
}

/// The group scan after the first `n` units.
pub open spec fn group_scan(conv: ConvMapping, units: Seq<LayoutView>, n: int) -> GroupScan
    decreases n,
{
    if n <= 0 {
        GroupScan {
            max_pos_count: 0,
            prev_group: kernel_group(conv, units[0].kernel),
            completed: Seq::empty(),
            ok: true,
        }
    } else {
        group_scan_step(conv, units[n - 1], group_scan(conv, units, n - 1))
    }
}

/// The input count of a unit.
pub open spec fn layout_input_count(u: LayoutView) -> int {
    spec_unit_input_count(u.info, u.count)
}

/// The input count of a unit is defined.
pub open spec fn layout_input_count_ok(u: LayoutView) -> bool {
    unit_input_count_defined(u.info, u.count)
}

/// The number of page slots: one per output group the units can span,
/// plus two.
pub open spec fn page_slots(conv: ConvMapping, n: int) -> int {
    n / as_usize(conv.o_pg as int) + 2
}

/// The page table scan: sizes of the pages of incomplete output groups.
pub struct PageScan {
    pub pages: Seq<i32>,
    pub ok: bool,
}

/// One unit of the page scan.
pub open spec fn page_scan_step(
    conv: ConvMapping,
    units: Seq<LayoutView>,
    start_group: int,
    completed: Seq<u16>,
    i: int,
    st: PageScan,
) -> PageScan {
    if !st.ok {
        st
    } else {
        let u = units[i];
        let cg = kernel_group(conv, u.kernel);
        if completed.contains(cg as u16) {
            st
        } else {
            let idx = cg - start_group;
            if !(0 <= idx < st.pages.len()) {
                PageScan { ok: false, ..st }
            } else if st.pages[idx] != 0 {
                st
            } else {
                let with_next = i + 1 < units.len() && kernel_group(conv, units[i + 1].kernel) == cg;
                let ic = layout_input_count(u);
                let defined = layout_input_count_ok(u) && (with_next ==> layout_input_count_ok(units[i + 1])
                    && fits_i32(ic + layout_input_count(units[i + 1])));
                if !defined {
                    PageScan { ok: false, ..st }
                } else {
                    let v = if with_next {
                        ic + layout_input_count(units[i + 1])
                    } else {
                        ic
                    };
                    PageScan { pages: st.pages.update(idx, v as i32), ok: true }
                }
            }
        }
    }
}

/// The page scan after the first `n` units.
pub open spec fn page_scan(
    conv: ConvMapping,
    units: Seq<LayoutView>,
    start_group: int,
    completed: Seq<u16>,
    n: int,
) -> PageScan
    decreases n,
{
    if n <= 0 {
        PageScan { pages: Seq::new(page_slots(conv, units.len() as int) as nat, |x: int| 0i32), ok: true }
    } else {
        page_scan_step(conv, units, start_group, completed, n - 1, page_scan(conv, units, start_group, completed, n - 1))
    }
}


/// The fixed inputs of the output loop: the layer, the units, the input
/// length, the first output group, the completed groups and the page table.
pub struct ScheduleCtx {
    pub conv: ConvMapping,
    pub units: Seq<LayoutView>,
    pub len: int,
    pub start_group: int,
    pub completed: Seq<u16>,
    pub pages: Seq<i32>,
}

/// One planned output: the kernel it belongs to, the unit that computes
/// it, and its taps (input index, weight index) in accumulation order.
pub struct PlannedView {
    pub kernel: u16,
    pub unit: int,
    pub taps: Seq<(int, int)>,
}

/// The state of the output loop.
pub struct CalcState {
    pub start_point: int,
    pub max_visited: Seq<i32>,
    pub first_row: bool,
    pub out_side_rows: int,
    pub in_side_rows: int,
    pub offset: int,
    pub page_size: int,
    pub prev_group: int,
    pub positions: Seq<Seq<i32>>,
    pub outputs: Seq<PlannedView>,
    pub ok: bool,
}

/// What one output's taps are computed from.
pub struct OutputCtx {
    pub start_point: int,
    pub page_size: int,
    pub offset: int,
    pub padded_row: int,
    pub padded_col: int,
    pub first_row: bool,
    pub adjustment: int,
    pub special: bool,
}

/// The taps of one output so far, with the row counters they update.
pub struct TapState {
    pub taps: Seq<(int, int)>,
    pub osr: int,
    pub isr: int,
    pub ok: bool,
}

/// `index - as_usize(a) * as_usize(b)` is computed without overflow.
pub open spec fn take_ok(index: int, a: int, b: int) -> bool {
    usize_mul_ok(as_usize(a), as_usize(b)) && index - as_usize(a) * as_usize(b) >= 0
}

/// `index - as_usize(a) * as_usize(b)`.
pub open spec fn take(index: int, a: int, b: int) -> int {
    index - as_usize(a) * as_usize(b)
}

/// Where tap (c, j, kk) of an output reads its input, before adjustment.
pub open spec fn raw_index_sum(ctx: ScheduleCtx, oc: OutputCtx, c: int, j: int, kk: int) -> int {
    c * oc.page_size + j * ctx.conv.i.2 + kk + oc.start_point
}

/// The raw index is computed without overflow.
pub open spec fn raw_index_ok(ctx: ScheduleCtx, oc: OutputCtx, c: int, j: int, kk: int) -> bool {
    let channel = c * oc.page_size;
    let col = j * ctx.conv.i.2;
    &&& fits_i32(channel)
    &&& fits_i32(col)
    &&& fits_i32(channel + col)
    &&& fits_i32(channel + col + kk)
    &&& fits_i32(channel + col + kk + oc.start_point)
}

/// How many values of the page remain after the start point.
pub open spec fn remaining_of(ctx: ScheduleCtx, oc: OutputCtx) -> int {
    if oc.special {
        (oc.page_size - layout_input_count(ctx.units[1]) - oc.start_point) * ctx.conv.i_pg
    } else {
        (oc.page_size - oc.start_point + oc.offset) * ctx.conv.i_pg
    }
}

/// The remaining count is computed without overflow.
pub open spec fn remaining_ok(ctx: ScheduleCtx, oc: OutputCtx) -> bool {
    &&& fits_i32(oc.page_size - oc.start_point)
    &&& fits_i32(oc.page_size - oc.start_point + oc.offset)
    &&& fits_i32((oc.page_size - oc.start_point + oc.offset) * ctx.conv.i_pg)
    &&& oc.special ==> {
        &&& layout_input_count_ok(ctx.units[1])
        &&& fits_i32(oc.page_size - layout_input_count(ctx.units[1]))
        &&& fits_i32(oc.page_size - layout_input_count(ctx.units[1]) - oc.start_point)
        &&& fits_i32((oc.page_size - layout_input_count(ctx.units[1]) - oc.start_point) * ctx.conv.i_pg)
    }
}

/// How many values complete the rows the kernel window spans.
pub open spec fn to_complete_of(ctx: ScheduleCtx, oc: OutputCtx) -> int {
    (ctx.conv.k.1 * ctx.conv.i.2 - oc.padded_col) * ctx.conv.i_pg
}

/// The count to complete is computed without overflow.
pub open spec fn to_complete_ok(ctx: ScheduleCtx, oc: OutputCtx) -> bool {
    &&& fits_i32(ctx.conv.k.1 * ctx.conv.i.2)
    &&& fits_i32(ctx.conv.k.1 * ctx.conv.i.2 - oc.padded_col)
    &&& fits_i32((ctx.conv.k.1 * ctx.conv.i.2 - oc.padded_col) * ctx.conv.i_pg)
}

/// Where tap (c, j, kk) reads its weight.
pub open spec fn weight_index_sum(ctx: ScheduleCtx, c: int, j: int, kk: int) -> int {
    c * ctx.conv.k.0 * ctx.conv.k.1 + j * ctx.conv.k.1 + kk
}

/// The weight index is computed without overflow.
pub open spec fn weight_index_ok(ctx: ScheduleCtx, c: int, j: int, kk: int) -> bool {
    &&& fits_i32(c * ctx.conv.k.0)
    &&& fits_i32(c * ctx.conv.k.0 * ctx.conv.k.1)
    &&& fits_i32(j * ctx.conv.k.1)
    &&& fits_i32(c * ctx.conv.k.0 * ctx.conv.k.1 + j * ctx.conv.k.1)
    &&& fits_i32(weight_index_sum(ctx, c, j, kk))
}

/// Values missing per row when the page cannot hold the window, split
/// over `rows` rows and the group's channels.
pub open spec fn empty_positions(ctx: ScheduleCtx, to_complete: int, remaining: int, rows: int) -> int {
    trunc_div(trunc_div(to_complete - remaining, rows), ctx.conv.i_pg as int)
}

/// Those missing values are computed without overflow.
pub open spec fn empty_positions_ok(ctx: ScheduleCtx, to_complete: int, remaining: int, rows: int) -> bool {
    &&& fits_i32(to_complete - remaining)
    &&& div_ok(to_complete - remaining, rows)
    &&& div_ok(trunc_div(to_complete - remaining, rows), ctx.conv.i_pg as int)
}

/// One tap (c, j, kk) of an output: its input index, adjusted for a page
/// that ends before the window (tails) or a first row that starts inside
/// it (heads), and its weight index.
pub open spec fn tap_step(ctx: ScheduleCtx, oc: OutputCtx, ts: TapState, c: int, j: int, kk: int) -> TapState {
    let conv = ctx.conv;
    if !ts.ok {
        ts
    } else if !(raw_index_ok(ctx, oc, c, j, kk) && remaining_ok(ctx, oc) && to_complete_ok(ctx, oc)
        && weight_index_ok(ctx, c, j, kk)) {
        TapState { ok: false, ..ts }
    } else {
        let index0 = as_usize(raw_index_sum(ctx, oc, c, j, kk));
        let remaining = remaining_of(ctx, oc);
        let to_complete = to_complete_of(ctx, oc);
        let widx = as_usize(weight_index_sum(ctx, c, j, kk));
        if remaining < to_complete && !oc.first_row {
            let osr = if oc.padded_row >= conv.s.1 {
                conv.s.1 as int
            } else {
                conv.k.1 as int
            };
            let isr = conv.k.1 - osr;
            let ep = empty_positions(ctx, to_complete, remaining, osr);
            if !(fits_i32(isr) && empty_positions_ok(ctx, to_complete, remaining, osr) && (j > isr ==> fits_i32(j - isr)
                && take_ok(index0, j - isr, ep))) {
                TapState { ok: false, ..ts }
            } else {
                let index = if j > isr {
                    take(index0, j - isr, ep)
                } else {
                    index0
                };
                TapState { taps: ts.taps.push((index, widx)), osr: osr, isr: isr, ok: true }
            }
        } else if oc.first_row && remaining >= to_complete {
            let defined = if j < ts.osr {
                take_ok(index0, j, oc.adjustment)
            } else {
                fits_i32(ts.osr - 1) && take_ok(index0, ts.osr - 1, oc.adjustment)
            };
            if !defined {
                TapState { ok: false, ..ts }
            } else {
                let index = if j < ts.osr {
                    take(index0, j, oc.adjustment)
                } else {
                    take(index0, ts.osr - 1, oc.adjustment)
                };
                TapState { taps: ts.taps.push((index, widx)), ..ts }
            }
        } else if oc.first_row && remaining < to_complete {
            let osr = conv.k.0 as int;
            let ep = empty_positions(ctx, to_complete, remaining, osr);
            let gap = j > 0 && oc.adjustment == 0;
            let index1 = if gap {
                take(index0, j, ep)
            } else {
                index0
            };
            let defined = empty_positions_ok(ctx, to_complete, remaining, osr) && (gap ==> take_ok(index0, j, ep))
                && if j < osr {
                take_ok(index1, j, oc.adjustment)
            } else {
                fits_i32(osr - 1) && take_ok(index1, osr - 1, oc.adjustment)
            };
            if !defined {
                TapState { ok: false, ..ts }
            } else {
                let index = if j < osr {
                    take(index1, j, oc.adjustment)
                } else {
                    take(index1, osr - 1, oc.adjustment)
                };
                TapState { taps: ts.taps.push((index, widx)), osr: osr, isr: 0, ok: true }
            }
        } else {
            TapState { taps: ts.taps.push((index0, widx)), ..ts }
        }
    }
}

/// Taps (c, j, 0..n) after `ts`.
pub open spec fn fold_taps_k(ctx: ScheduleCtx, oc: OutputCtx, ts: TapState, c: int, j: int, n: int) -> TapState
    decreases n,
{
    if n <= 0 {
        ts
    } else {
        tap_step(ctx, oc, fold_taps_k(ctx, oc, ts, c, j, n - 1), c, j, n - 1)
    }
}

/// Taps (c, 0..n, all) after `ts`.
pub open spec fn fold_taps_j(ctx: ScheduleCtx, oc: OutputCtx, ts: TapState, c: int, n: int) -> TapState
    decreases n,
{
    if n <= 0 {
        ts
    } else {
        fold_taps_k(ctx, oc, fold_taps_j(ctx, oc, ts, c, n - 1), c, n - 1, ctx.conv.k.1 as int)
    }
}

/// Taps (0..n, all, all) after `ts`.
pub open spec fn fold_taps_c(ctx: ScheduleCtx, oc: OutputCtx, ts: TapState, n: int) -> TapState
    decreases n,
{
    if n <= 0 {
        ts
    } else {
        fold_taps_j(ctx, oc, fold_taps_c(ctx, oc, ts, n - 1), n - 1, ctx.conv.k.0 as int)
    }
}

/// Unit `i` computes the first output of a two-unit share that starts a
/// group mid-page.
pub open spec fn special_pair(ctx: ScheduleCtx, i: int) -> bool {
    i == 0 && ctx.units.len() == 2 && kernel_group(ctx.conv, ctx.units[1].kernel) == kernel_group(
        ctx.conv,
        ctx.units[0].kernel,
    ) && !ctx.completed.contains(kernel_group(ctx.conv, ctx.units[0].kernel) as u16)
}

/// One output of unit `i`: its taps, then the window moves one stride
/// along the row, or to the next row when the row ends.
pub open spec fn output_step(ctx: ScheduleCtx, st: CalcState, i: int, adjustment: int) -> CalcState {
    let conv = ctx.conv;
    if !st.ok {
        st
    } else {
        let pos = st.positions[i];
        let pr = pos[1] + half(conv.k.0);
        let pc = pos[2] + half(conv.k.1);
        if !(fits_i32(pr) && fits_i32(pc)) {
            CalcState { ok: false, ..st }
        } else {
            let oc = OutputCtx {
                start_point: st.start_point,
                page_size: st.page_size,
                offset: st.offset,
                padded_row: pr,
                padded_col: pc,
                first_row: st.first_row,
                adjustment: adjustment,
                special: special_pair(ctx, i),
            };
            let ts = fold_taps_c(
                ctx,
                oc,
                TapState { taps: Seq::empty(), osr: st.out_side_rows, isr: st.in_side_rows, ok: true },
                conv.i_pg as int,
            );
            let p2 = pos[2] + conv.s.0;
            let sp1 = st.start_point + conv.s.0;
            let t2 = p2 + half(conv.k.0) + conv.k.0;
            let wraps = t2 > conv.i.2;
            let sp2 = sp1 - conv.s.0 + conv.k.0 + (conv.s.1 - 1) * conv.i.1;
            let sp3 = sp2 - (ts.osr - 1) * adjustment;
            let defined = ts.ok && fits_i32(p2) && fits_i32(sp1) && fits_i32(p2 + half(conv.k.0)) && fits_i32(t2) && (
            wraps ==> {
                &&& fits_i32(pos[1] + conv.s.1)
                &&& fits_i32(sp1 - conv.s.0)
                &&& fits_i32(sp1 - conv.s.0 + conv.k.0)
                &&& fits_i32(conv.s.1 - 1)
                &&& fits_i32((conv.s.1 - 1) * conv.i.1)
                &&& fits_i32(sp2)
                &&& st.first_row ==> fits_i32(ts.osr - 1) && fits_i32((ts.osr - 1) * adjustment) && fits_i32(sp3)
            });
            if !defined {
                CalcState { ok: false, ..st }
            } else {
                let new_pos = if wraps {
                    pos.update(2, (0 - half(conv.k.0)) as i32).update(1, (pos[1] + conv.s.1) as i32)
                } else {
                    pos.update(2, p2 as i32)
                };
                let sp = if !wraps {
                    sp1
                } else if st.first_row {
                    sp3
                } else {
                    sp2
                };
                CalcState {
                    start_point: sp,
                    max_visited: if lex_lt(st.max_visited, new_pos) {
                        new_pos
                    } else {
                        st.max_visited
                    },
                    first_row: st.first_row && !wraps,
                    out_side_rows: ts.osr,
                    in_side_rows: ts.isr,
                    positions: st.positions.update(i, new_pos),
                    outputs: st.outputs.push(PlannedView { kernel: ctx.units[i].kernel, unit: i, taps: ts.taps }),
                    ..st
                }
            }
        }
    }
}

/// `n` outputs of unit `i`.
pub open spec fn unit_outputs(ctx: ScheduleCtx, st: CalcState, i: int, adjustment: int, n: int) -> CalcState
    decreases n,
{
    if n <= 0 {
        st
    } else {
        output_step(ctx, unit_outputs(ctx, st, i, adjustment, n - 1), i, adjustment)
    }
}


/// The input length cut to `i32`, as an `as i32` cast gives it.
pub open spec fn len_i32(ctx: ScheduleCtx) -> int {
    (ctx.len as i32) as int
}

/// The position unit `i` is compared with when it continues within the
/// same page: the previous unit's position (its own for the first unit).
pub open spec fn previous_position(st: CalcState, i: int) -> Seq<i32> {
    st.positions[if i >= 1 {
        i - 1
    } else {
        0
    }]
}

/// Unit `i`: choose its page, reset the head handling when it starts a
/// share, move the start point to where its inputs begin, then compute its
/// outputs.
pub open spec fn unit_step(ctx: ScheduleCtx, st: CalcState, i: int) -> CalcState {
    let conv = ctx.conv;
    let u = ctx.units[i];
    let pos = st.positions[i];
    if !st.ok {
        st
    } else if !(pos.len() >= 3 && fits_i32(pos[1] + half(conv.k.0)) && fits_i32(pos[2] + half(conv.k.1))) {
        CalcState { ok: false, ..st }
    } else if u.count == 0 {
        st
    } else {
        let pr = pos[1] + half(conv.k.0);
        let pc = pos[2] + half(conv.k.1);
        let g = kernel_group(conv, u.kernel);
        let group_changed = st.prev_group != g;
        let offset = if group_changed {
            st.offset + st.page_size * conv.i_pg
        } else {
            st.offset
        };
        let d_off = group_changed ==> fits_i32(st.page_size * conv.i_pg) && fits_i32(st.offset + st.page_size * conv.i_pg);
        let complete = ctx.completed.contains(g as u16);
        let idx = g - ctx.start_group;
        let d_page = if complete {
            fits_i32(conv.i.1 * conv.i.2)
        } else {
            0 <= idx < ctx.pages.len() && (ctx.units.len() == 1 ==> div_ok(len_i32(ctx), conv.i_pg as int))
        };
        let page_size = if complete {
            conv.i.1 * conv.i.2
        } else if ctx.units.len() == 1 {
            trunc_div(len_i32(ctx), conv.i_pg as int)
        } else {
            ctx.pages[idx] as int
        };
        let heads = (!complete && ctx.units.len() == 2) || i == 0;
        let osr1 = if heads {
            if conv.i.2 - pr <= conv.k.1 {
                conv.k.1 as int
            } else {
                conv.s.1 as int
            }
        } else {
            st.out_side_rows
        };
        let isr1 = if heads {
            conv.k.1 - osr1
        } else {
            st.in_side_rows
        };
        let adjustment = if heads {
            pc
        } else {
            0
        };
        let d_heads = heads ==> fits_i32(conv.i.2 - pr) && fits_i32(conv.k.1 - osr1);
        let mv = st.max_visited;
        let later = lex_lt(mv, pos);
        let d_later = later ==> mv.len() >= 1 && div_ok(pos[0] as int, conv.i_pg as int) && div_ok(mv[0] as int, conv.i_pg as int);
        let new_group = later && trunc_div(pos[0] as int, conv.i_pg as int) != trunc_div(mv[0] as int, conv.i_pg as int);
        let down = (conv.k.1 - conv.s.1) * conv.i.2;
        let across = (conv.i_pg - 1) * page_size;
        let sp_a = st.start_point + down + across;
        let d_a = fits_i32(conv.k.1 - conv.s.1) && fits_i32(down) && fits_i32(st.start_point + down) && fits_i32(
            conv.i_pg - 1,
        ) && fits_i32(across) && fits_i32(sp_a);
        let sp_b = trunc_div(len_i32(ctx), conv.i_pg as int) - layout_input_count(u);
        let d_b = div_ok(len_i32(ctx), conv.i_pg as int) && layout_input_count_ok(u) && fits_i32(sp_b);
        let prev = previous_position(st, i);
        let d1 = prev[1] - pos[1];
        let d2 = prev[2] - pos[2];
        let sp_c = st.start_point - d1 * conv.i.2 - d2;
        let d_c = pos.len() >= 3 && prev.len() >= 3 && (forall|t: int|
            0 <= t < pos.len() && t < prev.len() ==> fits_i32(#[trigger] prev[t] - pos[t])) && fits_i32(d1 * conv.i.2)
            && fits_i32(st.start_point - d1 * conv.i.2) && fits_i32(sp_c);
        let defined = d_off && d_page && d_heads && d_later && (later ==> (new_group ==> d_a) && (!new_group ==> d_b))
            && (!later ==> d_c);
        if !defined {
            CalcState { ok: false, ..st }
        } else {
            let st2 = CalcState {
                start_point: if later {
                    if new_group {
                        sp_a
                    } else {
                        sp_b
                    }
                } else {
                    sp_c
                },
                first_row: heads || (later && !new_group) || st.first_row,
                out_side_rows: osr1,
                in_side_rows: isr1,
                offset: offset,
                page_size: page_size,
                prev_group: g,
                ..st
            };
            unit_outputs(ctx, st2, i, adjustment, u.count as int)
        }
    }
}

/// The output loop after the first `n` units.
pub open spec fn calc_units(ctx: ScheduleCtx, st0: CalcState, n: int) -> CalcState
    decreases n,
{
    if n <= 0 {
        st0
    } else {
        unit_step(ctx, calc_units(ctx, st0, n - 1), n - 1)
    }
}

/// The state before the output loop.
pub open spec fn initial_calc(ctx: ScheduleCtx) -> CalcState {
    CalcState {
        start_point: 0,
        max_visited: ctx.units[0].pos,
        first_row: false,
        out_side_rows: 0,
        in_side_rows: 0,
        offset: 0,
        page_size: 0,
        prev_group: kernel_group(ctx.conv, ctx.units[0].kernel),
        positions: ctx.units.map_values(|u: LayoutView| u.pos),
        outputs: Seq::empty(),
        ok: true,
    }
}

/// The context of the output loop for units `units` of convolution `conv`
/// reading an input of length `len`.
pub open spec fn schedule_ctx(conv: ConvMapping, units: Seq<LayoutView>, len: int) -> ScheduleCtx {
    let n = units.len() as int;
    let start_group = min_kernel(units, n) / o_pg16(conv);
    let completed = group_scan(conv, units, n).completed;
    ScheduleCtx {
        conv: conv,
        units: units,
        len: len,
        start_group: start_group,
        completed: completed,
        pages: page_scan(conv, units, start_group, completed, n).pages,
    }
}

/// The inputs on which the schedule is computed without panicking.
pub open spec fn schedule_defined(conv: ConvMapping, units: Seq<LayoutView>, len: int) -> bool {
    let ctx = schedule_ctx(conv, units, len);
    &&& units.len() >= 1
    &&& o_pg16(conv) != 0
    &&& page_slots(conv, units.len() as int) <= usize::MAX
    &&& group_scan(conv, units, units.len() as int).ok
    &&& page_scan(conv, units, ctx.start_group, ctx.completed, units.len() as int).ok
    &&& calc_units(ctx, initial_calc(ctx), units.len() as int).ok
}

/// The planned outputs of a convolution share, in the order they are
/// computed.
pub open spec fn planned_outputs(conv: ConvMapping, units: Seq<LayoutView>, len: int) -> Seq<PlannedView> {
    let ctx = schedule_ctx(conv, units, len);
    calc_units(ctx, initial_calc(ctx), units.len() as int).outputs
}


/// Tap `t` of the taps reads weight `t`, for each of the first `n` taps.
pub open spec fn taps_read_weights_in_order(taps: Seq<(int, int)>, n: int) -> bool {
    forall|t: int| 0 <= t < n ==> (#[trigger] taps[t]).1 == t
}

proof fn lemma_fold_k_weights(ctx: ScheduleCtx, oc: OutputCtx, ts: TapState, c: int, j: int, n: int)
    requires
        ctx.conv.k.0 >= 0,
        ctx.conv.k.1 >= 0,
        0 <= c,
        0 <= j,
        0 <= n <= ctx.conv.k.1,
        ts.taps.len() == c * ctx.conv.k.0 * ctx.conv.k.1 + j * ctx.conv.k.1,
        taps_read_weights_in_order(ts.taps, ts.taps.len() as int),
    ensures
        fold_taps_k(ctx, oc, ts, c, j, n).ok ==> {
            &&& fold_taps_k(ctx, oc, ts, c, j, n).taps.len() == ts.taps.len() + n
            &&& taps_read_weights_in_order(
                fold_taps_k(ctx, oc, ts, c, j, n).taps,
                fold_taps_k(ctx, oc, ts, c, j, n).taps.len() as int,
            )
        },
    decreases n,
{
    if n > 0 {
        lemma_fold_k_weights(ctx, oc, ts, c, j, n - 1);
        let prev = fold_taps_k(ctx, oc, ts, c, j, n - 1);
        let next = fold_taps_k(ctx, oc, ts, c, j, n);
        if next.ok {
            assert(prev.ok);
            let w = weight_index_sum(ctx, c, j, n - 1);
            let (k0, k1) = (ctx.conv.k.0 as int, ctx.conv.k.1 as int);
            assert(0 <= c * k0 * k1 && 0 <= j * k1) by (nonlinear_arith)
                requires
                    0 <= c,
                    0 <= j,
                    0 <= k0,
                    0 <= k1,
            ;
            assert(w == prev.taps.len());
            assert(as_usize(w) == w);
            assert(next.taps == prev.taps.push((next.taps.last().0, w)));
        }
    }
}

proof fn lemma_fold_j_weights(ctx: ScheduleCtx, oc: OutputCtx, ts: TapState, c: int, n: int)
    requires
        ctx.conv.k.0 >= 0,
        ctx.conv.k.1 >= 0,
        0 <= c,
        0 <= n <= ctx.conv.k.0,
        ts.taps.len() == c * ctx.conv.k.0 * ctx.conv.k.1,
        taps_read_weights_in_order(ts.taps, ts.taps.len() as int),
    ensures
        fold_taps_j(ctx, oc, ts, c, n).ok ==> {
            &&& fold_taps_j(ctx, oc, ts, c, n).taps.len() == ts.taps.len() + n * ctx.conv.k.1
            &&& taps_read_weights_in_order(
                fold_taps_j(ctx, oc, ts, c, n).taps,
                fold_taps_j(ctx, oc, ts, c, n).taps.len() as int,
            )
        },
    decreases n,
{
    if n > 0 {
        lemma_fold_j_weights(ctx, oc, ts, c, n - 1);
        let prev = fold_taps_j(ctx, oc, ts, c, n - 1);
        let k1 = ctx.conv.k.1 as int;
        lemma_fold_k_ok_prefix(ctx, oc, prev, c, n - 1, k1);
        if prev.ok {
            assert(prev.taps.len() == c * ctx.conv.k.0 * k1 + (n - 1) * k1) by (nonlinear_arith)
                requires
                    prev.taps.len() == ts.taps.len() + (n - 1) * k1,
                    ts.taps.len() == c * ctx.conv.k.0 * k1,
            ;
            lemma_fold_k_weights(ctx, oc, prev, c, n - 1, k1);
            assert((n - 1) * k1 + k1 == n * k1) by (nonlinear_arith);
        }
    }
}

proof fn lemma_fold_k_ok_prefix(ctx: ScheduleCtx, oc: OutputCtx, ts: TapState, c: int, j: int, n: int)
    ensures
        fold_taps_k(ctx, oc, ts, c, j, n).ok ==> ts.ok,
    decreases n,
{
    if n > 0 {
        lemma_fold_k_ok_prefix(ctx, oc, ts, c, j, n - 1);
    }
}

proof fn lemma_fold_j_ok_prefix(ctx: ScheduleCtx, oc: OutputCtx, ts: TapState, c: int, n: int)
    ensures
        fold_taps_j(ctx, oc, ts, c, n).ok ==> ts.ok,
    decreases n,
{
    if n > 0 {
        lemma_fold_j_ok_prefix(ctx, oc, ts, c, n - 1);
        lemma_fold_k_ok_prefix(ctx, oc, fold_taps_j(ctx, oc, ts, c, n - 1), c, n - 1, ctx.conv.k.1 as int);
    }
}

proof fn lemma_fold_c_weights(ctx: ScheduleCtx, oc: OutputCtx, ts: TapState, n: int)
    requires
        ctx.conv.k.0 >= 0,
        ctx.conv.k.1 >= 0,
        0 <= n <= ctx.conv.i_pg,
        ts.taps.len() == 0,
    ensures
        fold_taps_c(ctx, oc, ts, n).ok ==> {
            &&& fold_taps_c(ctx, oc, ts, n).taps.len() == n * ctx.conv.k.0 * ctx.conv.k.1
            &&& taps_read_weights_in_order(
                fold_taps_c(ctx, oc, ts, n).taps,
                fold_taps_c(ctx, oc, ts, n).taps.len() as int,
            )
        },
    decreases n,
{
    let (k0, k1) = (ctx.conv.k.0 as int, ctx.conv.k.1 as int);
    if n > 0 {
        lemma_fold_c_weights(ctx, oc, ts, n - 1);
        let prev = fold_taps_c(ctx, oc, ts, n - 1);
        lemma_fold_j_ok_prefix(ctx, oc, prev, n - 1, k0);
        if prev.ok {
            lemma_fold_j_weights(ctx, oc, prev, n - 1, k0);
            assert((n - 1) * k0 * k1 + k0 * k1 == n * k0 * k1) by (nonlinear_arith);
        }
    } else {
        assert(0 * k0 * k1 == 0) by (nonlinear_arith);
    }
}

/// Every output planned so far has its taps in weight order.
pub open spec fn outputs_read_weights_in_order(conv: ConvMapping, outs: Seq<PlannedView>) -> bool {
    forall|p: int|
        0 <= p < outs.len() ==> {
            &&& (#[trigger] outs[p]).taps.len() == conv.i_pg * conv.k.0 * conv.k.1
            &&& taps_read_weights_in_order(outs[p].taps, outs[p].taps.len() as int)
        }
}

proof fn lemma_output_step_weights(ctx: ScheduleCtx, st: CalcState, i: int, adjustment: int)
    requires
        ctx.conv.k.0 >= 0,
        ctx.conv.k.1 >= 0,
        ctx.conv.i_pg >= 0,
        outputs_read_weights_in_order(ctx.conv, st.outputs),
    ensures
        outputs_read_weights_in_order(ctx.conv, output_step(ctx, st, i, adjustment).outputs),
{
    let st2 = output_step(ctx, st, i, adjustment);
    if st.ok {
        let pos = st.positions[i];
        let pr = pos[1] + half(ctx.conv.k.0);
        let pc = pos[2] + half(ctx.conv.k.1);
        let oc = OutputCtx {
            start_point: st.start_point,
            page_size: st.page_size,
            offset: st.offset,
            padded_row: pr,
            padded_col: pc,
            first_row: st.first_row,
            adjustment: adjustment,
            special: special_pair(ctx, i),
        };
        let ts0 = TapState { taps: Seq::empty(), osr: st.out_side_rows, isr: st.in_side_rows, ok: true };
        lemma_fold_c_weights(ctx, oc, ts0, ctx.conv.i_pg as int);
        assert forall|p: int| 0 <= p < st2.outputs.len() implies {
            &&& (#[trigger] st2.outputs[p]).taps.len() == ctx.conv.i_pg * ctx.conv.k.0 * ctx.conv.k.1
            &&& taps_read_weights_in_order(st2.outputs[p].taps, st2.outputs[p].taps.len() as int)
        } by {
            if p < st.outputs.len() && st2.outputs.len() > st.outputs.len() {
                assert(st2.outputs[p] == st.outputs[p]);
            }
        }
    }
}

proof fn lemma_unit_outputs_weights(ctx: ScheduleCtx, st: CalcState, i: int, adjustment: int, n: int)
    requires
        ctx.conv.k.0 >= 0,
        ctx.conv.k.1 >= 0,
        ctx.conv.i_pg >= 0,
        outputs_read_weights_in_order(ctx.conv, st.outputs),
    ensures
        outputs_read_weights_in_order(ctx.conv, unit_outputs(ctx, st, i, adjustment, n).outputs),
    decreases n,
{
    if n > 0 {
        lemma_unit_outputs_weights(ctx, st, i, adjustment, n - 1);
        lemma_output_step_weights(ctx, unit_outputs(ctx, st, i, adjustment, n - 1), i, adjustment);
    }
}

proof fn lemma_calc_units_weights(ctx: ScheduleCtx, st: CalcState, n: int)
    requires
        ctx.conv.k.0 >= 0,
        ctx.conv.k.1 >= 0,
        ctx.conv.i_pg >= 0,
        outputs_read_weights_in_order(ctx.conv, st.outputs),
    ensures
        outputs_read_weights_in_order(ctx.conv, calc_units(ctx, st, n).outputs),
    decreases n,
{
    if n > 0 {
        lemma_calc_units_weights(ctx, st, n - 1);
        let prev = calc_units(ctx, st, n - 1);
        let u = ctx.units[n - 1];
        let pos = prev.positions[n - 1];
        if prev.ok && pos.len() >= 3 && fits_i32(pos[1] + half(ctx.conv.k.0)) && fits_i32(pos[2] + half(ctx.conv.k.1)) && u.count != 0 {
            let pc = pos[2] + half(ctx.conv.k.1);
            let g = kernel_group(ctx.conv, u.kernel);
            let complete = ctx.completed.contains(g as u16);
            let heads = (!complete && ctx.units.len() == 2) || n - 1 == 0;
            let adjustment = if heads {
                pc
            } else {
                0
            };
            assert forall|st2: CalcState| st2.outputs == prev.outputs implies outputs_read_weights_in_order(
                ctx.conv,
                #[trigger] unit_outputs(ctx, st2, n - 1, adjustment, u.count as int).outputs,
            ) by {
                lemma_unit_outputs_weights(ctx, st2, n - 1, adjustment, u.count as int);
            }
        }
    }
}

/// Every output of a convolution share reads each weight of its kernel
/// once, in the kernel's layout: the share has `i_pg * k.0 * k.1` taps, and
/// tap `c * k.0 * k.1 + j * k.1 + k` (input channel `c` of the group,
/// kernel row `j`, kernel column `k`) multiplies by weight
/// `c * k.0 * k.1 + j * k.1 + k`, so each input channel of the group meets
/// its own channel's weights.
pub proof fn lemma_taps_read_weights_in_layout(conv: ConvMapping, units: Seq<LayoutView>, len: int)
    requires
        conv.k.0 >= 0,
        conv.k.1 >= 0,
        conv.i_pg >= 0,
    ensures
        forall|p: int|
            0 <= p < planned_outputs(conv, units, len).len() ==> {
                &&& (#[trigger] planned_outputs(conv, units, len)[p]).taps.len() == conv.i_pg * conv.k.0 * conv.k.1
                &&& forall|c: int, j: int, k: int|
                    0 <= c < conv.i_pg && 0 <= j < conv.k.0 && 0 <= k < conv.k.1 ==> (
                    #[trigger] planned_outputs(conv, units, len)[p].taps[c * conv.k.0 * conv.k.1 + j * conv.k.1 + k]).1
                        == c * conv.k.0 * conv.k.1 + j * conv.k.1 + k
            },
{
    let ctx = schedule_ctx(conv, units, len);
    let st0 = initial_calc(ctx);
    lemma_calc_units_weights(ctx, st0, units.len() as int);
    let outs = planned_outputs(conv, units, len);
    assert forall|p: int| 0 <= p < outs.len() implies {
        &&& (#[trigger] outs[p]).taps.len() == conv.i_pg * conv.k.0 * conv.k.1
        &&& forall|c: int, j: int, k: int|
            0 <= c < conv.i_pg && 0 <= j < conv.k.0 && 0 <= k < conv.k.1 ==> (
            #[trigger] outs[p].taps[c * conv.k.0 * conv.k.1 + j * conv.k.1 + k]).1 == c * conv.k.0 * conv.k.1 + j
                * conv.k.1 + k
    } by {
        assert forall|c: int, j: int, k: int|
            0 <= c < conv.i_pg && 0 <= j < conv.k.0 && 0 <= k < conv.k.1 implies (
            #[trigger] outs[p].taps[c * conv.k.0 * conv.k.1 + j * conv.k.1 + k]).1 == c * conv.k.0 * conv.k.1 + j
                * conv.k.1 + k by {
            let (k0, k1, g) = (conv.k.0 as int, conv.k.1 as int, conv.i_pg as int);
            assert(0 <= c * k0 * k1 + j * k1 + k < g * k0 * k1) by (nonlinear_arith)
                requires
                    0 <= c < g,
                    0 <= j < k0,
                    0 <= k < k1,
            ;
        }
    }
}

/// Whether `x` occurs in `v`.
pub(crate) fn contains_u16(v: &Vec<u16>, x: u16) -> (r: bool)
    ensures
        r == v@.contains(x),
{
    let mut t: usize = 0;
    while t < v.len()
        invariant
            t <= v@.len(),
            forall|w: int| 0 <= w < t ==> v@[w] != x,
        decreases v@.len() - t,
    {
        if v[t] == x {
            assert(v@[t as int] == x);
            return true;
        }
        t = t + 1;
    }
    false
}

fn layout_input_count_exec(u: &UnitLayout) -> (r: i32)
    requires
        layout_input_count_ok(layout_view(*u)),
    ensures
        r == layout_input_count(layout_view(*u)),
{
    if let InfoWrapper::Convolution(c) = &u.info {
        conv_input_count(c, u.count)
    } else {
        -1
    }
}

fn group_of(conv: &ConvMapping, kernel: u16) -> (r: u16)
    requires
        o_pg16(*conv) != 0,
    ensures
        r == kernel_group(*conv, kernel),
{
    kernel / (conv.o_pg as u16)
}

/// The first output group: that of the smallest kernel.
fn first_group(conv: &ConvMapping, units: &Vec<UnitLayout>) -> (r: u16)
    requires
        units@.len() >= 1,
        o_pg16(*conv) != 0,
    ensures
        r == min_kernel(layouts_view(units@), units@.len() as int) / o_pg16(*conv),
{
    let ghost us = layouts_view(units@);
    let mut m: u16 = units[0].which_kernel;
    let mut t: usize = 1;
    while t < units.len()
        invariant
            us == layouts_view(units@),
            1 <= t <= units@.len(),
            m == min_kernel(us, t as int),
        decreases units@.len() - t,
    {
        if units[t].which_kernel < m {
            m = units[t].which_kernel;
        }
        t = t + 1;
    }
    m / (conv.o_pg as u16)
}

proof fn lemma_group_scan_ok_prefix(conv: ConvMapping, units: Seq<LayoutView>, n: int, m: int)
    requires
        n <= m,
        group_scan(conv, units, m).ok,
    ensures
        group_scan(conv, units, n).ok,
    decreases m - n,
{
    if n < m {
        lemma_group_scan_ok_prefix(conv, units, n, m - 1);
    }
}

/// The input groups whose outputs this share completes.
fn scan_groups(conv: &ConvMapping, units: &Vec<UnitLayout>) -> (r: Vec<u16>)
    requires
        units@.len() >= 1,
        o_pg16(*conv) != 0,
        group_scan(*conv, layouts_view(units@), units@.len() as int).ok,
    ensures
        r@ == group_scan(*conv, layouts_view(units@), units@.len() as int).completed,
{
    let ghost us = layouts_view(units@);
    let n = units.len();
    let mut max_pos_count: i32 = 0;
    let mut prev_group: u16 = group_of(conv, units[0].which_kernel);
    let mut completed: Vec<u16> = Vec::new();
    let kh0 = conv.k.0 / 2;
    let kh1 = conv.k.1 / 2;
    assert(kh0 == half(conv.k.0) && kh1 == half(conv.k.1));
    let mut i: usize = 0;
    while i < n
        invariant
            us == layouts_view(units@),
            n == units@.len(),
            i <= n,
            kh0 == half(conv.k.0),
            kh1 == half(conv.k.1),
            group_scan(*conv, us, n as int).ok,
            group_scan(*conv, us, i as int).ok,
            max_pos_count == group_scan(*conv, us, i as int).max_pos_count,
            prev_group == group_scan(*conv, us, i as int).prev_group,
            completed@ == group_scan(*conv, us, i as int).completed,
        decreases n - i,
    {
        proof {
            lemma_group_scan_ok_prefix(*conv, us, i + 1, n as int);
        }
        let pos = &units[i].start_pos_in;
        assert(us[i as int].pos == pos@);
        let padded_row = pos[1] + kh0;
        let padded_col = pos[2] + kh1;
        let cur_group = i32_div(pos[0], conv.i_pg) as u16;
        if prev_group != cur_group {
            max_pos_count = 0;
        }
        let cur_pos_count = i32_div(padded_row, conv.s.1) * conv.o.2 + i32_div(padded_col, conv.s.0);
        if cur_pos_count <= max_pos_count {
            let reach = cur_pos_count + units[i].count;
            if reach > max_pos_count {
                max_pos_count = reach;
            }
        }
        let full = conv.o.1 * conv.o.2;
        if max_pos_count >= full && !contains_u16(&completed, cur_group) {
            completed.push(cur_group);
        }
        prev_group = cur_group;
        i = i + 1;
    }
    completed
}

proof fn lemma_page_scan_ok_prefix(
    conv: ConvMapping,
    units: Seq<LayoutView>,
    start_group: int,
    completed: Seq<u16>,
    n: int,
    m: int,
)
    requires
        n <= m,
        page_scan(conv, units, start_group, completed, m).ok,
    ensures
        page_scan(conv, units, start_group, completed, n).ok,
    decreases m - n,
{
    if n < m {
        lemma_page_scan_ok_prefix(conv, units, start_group, completed, n, m - 1);
    }
}

proof fn lemma_as_usize_nonzero(x: i32)
    requires
        x != 0,
    ensures
        as_usize(x as int) > 0,
{
    assert((x as usize) != 0usize) by (bit_vector)
        requires
            x != 0i32,
    ;
}

proof fn lemma_page_scan_len(
    conv: ConvMapping,
    units: Seq<LayoutView>,
    start_group: int,
    completed: Seq<u16>,
    n: int,
)
    requires
        o_pg16(conv) != 0,
    ensures
        page_scan(conv, units, start_group, completed, n).pages.len() == page_slots(conv, units.len() as int),
    decreases n,
{
    if n > 0 {
        lemma_page_scan_len(conv, units, start_group, completed, n - 1);
    } else {
        lemma_as_usize_nonzero(conv.o_pg);
        assert((units.len() as int) / as_usize(conv.o_pg as int) >= 0) by (nonlinear_arith)
            requires
                as_usize(conv.o_pg as int) > 0,
        ;
    }
}

/// The page size of every incomplete output group: the input count of its
/// first unit, plus that of the next unit when it is in the same group.
fn scan_pages(conv: &ConvMapping, units: &Vec<UnitLayout>, start_group: u16, completed: &Vec<u16>) -> (r: Vec<i32>)
    requires
        units@.len() >= 1,
        o_pg16(*conv) != 0,
        page_scan(*conv, layouts_view(units@), start_group as int, completed@, units@.len() as int).ok,
        page_slots(*conv, units@.len() as int) <= usize::MAX,
    ensures
        r@ == page_scan(*conv, layouts_view(units@), start_group as int, completed@, units@.len() as int).pages,
{
    let ghost us = layouts_view(units@);
    let n = units.len();
    proof {
        lemma_as_usize_nonzero(conv.o_pg);
        assert(n as int / as_usize(conv.o_pg as int) >= 0) by (nonlinear_arith)
            requires
                n >= 0,
                as_usize(conv.o_pg as int) > 0,
        ;
    }
    let slots = n / (conv.o_pg as usize) + 2;
    let mut pages: Vec<i32> = Vec::new();
    let mut t: usize = 0;
    while t < slots
        invariant
            t <= slots,
            pages@.len() == t,
            forall|w: int| 0 <= w < t ==> pages@[w] == 0i32,
        decreases slots - t,
    {
        pages.push(0);
        t = t + 1;
    }
    proof {
        assert(pages@ =~= page_scan(*conv, us, start_group as int, completed@, 0).pages);
    }
    let mut i: usize = 0;
    while i < n
        invariant
            us == layouts_view(units@),
            n == units@.len(),
            i <= n,
            o_pg16(*conv) != 0,
            page_scan(*conv, us, start_group as int, completed@, n as int).ok,
            page_scan(*conv, us, start_group as int, completed@, i as int).ok,
            pages@ == page_scan(*conv, us, start_group as int, completed@, i as int).pages,
        decreases n - i,
    {
        proof {
            lemma_page_scan_ok_prefix(*conv, us, start_group as int, completed@, i + 1, n as int);
            lemma_page_scan_len(*conv, us, start_group as int, completed@, i as int);
        }
        let cur_group = group_of(conv, units[i].which_kernel);
        if !contains_u16(completed, cur_group) && pages[cur_group as usize - start_group as usize] == 0 {
            let idx = cur_group as usize - start_group as usize;
            let mut v = layout_input_count_exec(&units[i]);
            if i + 1 < n && group_of(conv, units[i + 1].which_kernel) == cur_group {
                v = v + layout_input_count_exec(&units[i + 1]);
            }
            pages.set(idx, v);
        }
        i = i + 1;
    }
    pages
}


/// The taps of a list as values.
pub open spec fn taps_view(v: Seq<(usize, usize)>) -> Seq<(int, int)> {
    v.map_values(|t: (usize, usize)| (t.0 as int, t.1 as int))
}

/// The exec values of an output's context agree with `oc` and `ctx`.
pub open spec fn output_args_match(
    conv: ConvMapping,
    ctx: ScheduleCtx,
    oc: OutputCtx,
    start_point: i32,
    page_size: i32,
    offset: i32,
    padded_row: i32,
    padded_col: i32,
    first_row: bool,
    adjustment: i32,
    special: bool,
    unit1: UnitLayout,
) -> bool {
    &&& ctx.conv == conv
    &&& oc.start_point == start_point
    &&& oc.page_size == page_size
    &&& oc.offset == offset
    &&& oc.padded_row == padded_row
    &&& oc.padded_col == padded_col
    &&& oc.first_row == first_row
    &&& oc.adjustment == adjustment
    &&& oc.special == special
    &&& (special ==> ctx.units.len() >= 2 && ctx.units[1] == layout_view(unit1))
}

fn take_exec(index: usize, a: i32, b: i32) -> (r: usize)
    requires
        take_ok(index as int, a as int, b as int),
    ensures
        r == take(index as int, a as int, b as int),
{
    index - (a as usize) * (b as usize)
}

/// One tap of an output: appends it and updates the row counters.
#[verifier::rlimit(40)]
fn tap_exec(
    conv: &ConvMapping,
    Ghost(ctx): Ghost<ScheduleCtx>,
    Ghost(oc): Ghost<OutputCtx>,
    start_point: i32,
    page_size: i32,
    offset: i32,
    padded_row: i32,
    padded_col: i32,
    first_row: bool,
    adjustment: i32,
    special: bool,
    unit1: &UnitLayout,
    c: i32,
    j: i32,
    kk: i32,
    taps: &mut Vec<(usize, usize)>,
    osr: &mut i32,
    isr: &mut i32,
)
    requires
        output_args_match(*conv, ctx, oc, start_point, page_size, offset, padded_row, padded_col, first_row, adjustment, special, *unit1),
        tap_step(ctx, oc, TapState { taps: taps_view(old(taps)@), osr: *old(osr) as int, isr: *old(isr) as int, ok: true }, c as int, j as int, kk as int).ok,
    ensures
        ({
            let ts = tap_step(ctx, oc, TapState { taps: taps_view(old(taps)@), osr: *old(osr) as int, isr: *old(isr) as int, ok: true }, c as int, j as int, kk as int);
            &&& taps_view(final(taps)@) == ts.taps
            &&& *final(osr) == ts.osr
            &&& *final(isr) == ts.isr
        }),
{
    let ghost before = taps_view(taps@);
    let channel = c * page_size;
    let col = j * conv.i.2;
    let row = kk;
    let mut index: usize = (channel + col + row + start_point) as usize;
    let mut remaining = (page_size - start_point + offset) * conv.i_pg;
    if special {
        let ic1 = layout_input_count_exec(unit1);
        remaining = (page_size - ic1 - start_point) * conv.i_pg;
    }
    assert(remaining == remaining_of(ctx, oc));
    let to_complete = (conv.k.1 * conv.i.2 - padded_col) * conv.i_pg;
    if remaining < to_complete && !first_row {
        if padded_row >= conv.s.1 {
            *osr = conv.s.1;
        } else {
            *osr = conv.k.1;
        }
        *isr = conv.k.1 - *osr;
        let empty_pos = i32_div(i32_div(to_complete - remaining, *osr), conv.i_pg);
        if j > *isr {
            index = take_exec(index, j - *isr, empty_pos);
        }
    } else if first_row && remaining >= to_complete {
        if j < *osr {
            index = take_exec(index, j, adjustment);
        } else {
            index = take_exec(index, *osr - 1, adjustment);
        }
    } else if first_row && remaining < to_complete {
        *osr = conv.k.0;
        *isr = 0;
        let empty_pos = i32_div(i32_div(to_complete - remaining, *osr), conv.i_pg);
        if j > *isr && adjustment == 0 {
            index = take_exec(index, j - *isr, empty_pos);
        }
        if j < *osr {
            index = take_exec(index, j, adjustment);
        } else {
            index = take_exec(index, *osr - 1, adjustment);
        }
    }
    let widx: usize = (c * conv.k.0 * conv.k.1 + j * conv.k.1 + kk) as usize;
    taps.push((index, widx));
    proof {
        assert(taps_view(taps@) =~= before.push((index as int, widx as int)));
    }
}


proof fn lemma_fold_taps_k_prefix(ctx: ScheduleCtx, oc: OutputCtx, ts: TapState, c: int, j: int, n: int, m: int)
    requires
        n <= m,
        fold_taps_k(ctx, oc, ts, c, j, m).ok,
    ensures
        fold_taps_k(ctx, oc, ts, c, j, n).ok,
    decreases m - n,
{
    if n < m {
        lemma_fold_taps_k_prefix(ctx, oc, ts, c, j, n, m - 1);
    }
}

proof fn lemma_fold_taps_k_fail(ctx: ScheduleCtx, oc: OutputCtx, ts: TapState, c: int, j: int, n: int)
    requires
        !ts.ok,
    ensures
        !fold_taps_k(ctx, oc, ts, c, j, n).ok,
    decreases n,
{
    if n > 0 {
        lemma_fold_taps_k_fail(ctx, oc, ts, c, j, n - 1);
    }
}

proof fn lemma_fold_taps_j_fail(ctx: ScheduleCtx, oc: OutputCtx, ts: TapState, c: int, n: int)
    requires
        !ts.ok,
    ensures
        !fold_taps_j(ctx, oc, ts, c, n).ok,
    decreases n,
{
    if n > 0 {
        lemma_fold_taps_j_fail(ctx, oc, ts, c, n - 1);
        lemma_fold_taps_k_fail(ctx, oc, fold_taps_j(ctx, oc, ts, c, n - 1), c, n - 1, ctx.conv.k.1 as int);
    }
}

proof fn lemma_fold_taps_j_prefix(ctx: ScheduleCtx, oc: OutputCtx, ts: TapState, c: int, n: int, m: int)
    requires
        n <= m,
        fold_taps_j(ctx, oc, ts, c, m).ok,
    ensures
        fold_taps_j(ctx, oc, ts, c, n).ok,
    decreases m - n,
{
    if n < m {
        if !fold_taps_j(ctx, oc, ts, c, m - 1).ok {
            lemma_fold_taps_k_fail(ctx, oc, fold_taps_j(ctx, oc, ts, c, m - 1), c, m - 1, ctx.conv.k.1 as int);
        }
        lemma_fold_taps_j_prefix(ctx, oc, ts, c, n, m - 1);
    }
}

proof fn lemma_fold_taps_c_prefix(ctx: ScheduleCtx, oc: OutputCtx, ts: TapState, n: int, m: int)
    requires
        n <= m,
        fold_taps_c(ctx, oc, ts, m).ok,
    ensures
        fold_taps_c(ctx, oc, ts, n).ok,
    decreases m - n,
{
    if n < m {
        if !fold_taps_c(ctx, oc, ts, m - 1).ok {
            lemma_fold_taps_j_fail(ctx, oc, fold_taps_c(ctx, oc, ts, m - 1), m - 1, ctx.conv.k.0 as int);
        }
        lemma_fold_taps_c_prefix(ctx, oc, ts, n, m - 1);
    }
}

/// The tap state of a list of taps and row counters.
pub open spec fn tap_state_of(taps: Seq<(usize, usize)>, osr: i32, isr: i32) -> TapState {
    TapState { taps: taps_view(taps), osr: osr as int, isr: isr as int, ok: true }
}

/// All taps of one output, in accumulation order (channel, kernel column,
/// kernel row), with the row counters they leave.
#[verifier::rlimit(40)]
fn output_taps(
    conv: &ConvMapping,
    Ghost(ctx): Ghost<ScheduleCtx>,
    Ghost(oc): Ghost<OutputCtx>,
    start_point: i32,
    page_size: i32,
    offset: i32,
    padded_row: i32,
    padded_col: i32,
    first_row: bool,
    adjustment: i32,
    special: bool,
    unit1: &UnitLayout,
    osr: &mut i32,
    isr: &mut i32,
) -> (taps: Vec<(usize, usize)>)
    requires
        output_args_match(*conv, ctx, oc, start_point, page_size, offset, padded_row, padded_col, first_row, adjustment, special, *unit1),
        fold_taps_c(ctx, oc, tap_state_of(Seq::empty(), *old(osr), *old(isr)), conv.i_pg as int).ok,
    ensures
        tap_state_of(taps@, *final(osr), *final(isr)) == fold_taps_c(
            ctx,
            oc,
            tap_state_of(Seq::empty(), *old(osr), *old(isr)),
            conv.i_pg as int,
        ),
{
    let ghost init = tap_state_of(Seq::empty(), *osr, *isr);
    let mut taps: Vec<(usize, usize)> = Vec::new();
    proof {
        assert(taps_view(taps@) =~= Seq::<(int, int)>::empty());
    }
    let mut c: i32 = 0;
    while c < conv.i_pg
        invariant
            output_args_match(*conv, ctx, oc, start_point, page_size, offset, padded_row, padded_col, first_row, adjustment, special, *unit1),
            fold_taps_c(ctx, oc, init, conv.i_pg as int).ok,
            0 <= c,
            c <= conv.i_pg || conv.i_pg <= 0,
            conv.i_pg <= 0 ==> c == 0,
            tap_state_of(taps@, *osr, *isr) == fold_taps_c(ctx, oc, init, c as int),
        decreases conv.i_pg - c,
    {
        proof {
            lemma_fold_taps_c_prefix(ctx, oc, init, c + 1, conv.i_pg as int);
        }
        let ghost base_c = fold_taps_c(ctx, oc, init, c as int);
        let mut j: i32 = 0;
        while j < conv.k.0
            invariant
                output_args_match(*conv, ctx, oc, start_point, page_size, offset, padded_row, padded_col, first_row, adjustment, special, *unit1),
                0 <= c < conv.i_pg,
                base_c == fold_taps_c(ctx, oc, init, c as int),
                fold_taps_j(ctx, oc, base_c, c as int, conv.k.0 as int).ok,
                0 <= j,
                j <= conv.k.0 || conv.k.0 <= 0,
                conv.k.0 <= 0 ==> j == 0,
                tap_state_of(taps@, *osr, *isr) == fold_taps_j(ctx, oc, base_c, c as int, j as int),
            decreases conv.k.0 - j,
        {
            proof {
                lemma_fold_taps_j_prefix(ctx, oc, base_c, c as int, j + 1, conv.k.0 as int);
            }
            let ghost base_j = fold_taps_j(ctx, oc, base_c, c as int, j as int);
            let mut kk: i32 = 0;
            while kk < conv.k.1
                invariant
                    output_args_match(*conv, ctx, oc, start_point, page_size, offset, padded_row, padded_col, first_row, adjustment, special, *unit1),
                    0 <= c < conv.i_pg,
                    0 <= j < conv.k.0,
                    base_j == fold_taps_j(ctx, oc, base_c, c as int, j as int),
                    fold_taps_k(ctx, oc, base_j, c as int, j as int, conv.k.1 as int).ok,
                    0 <= kk,
                    kk <= conv.k.1 || conv.k.1 <= 0,
                    conv.k.1 <= 0 ==> kk == 0,
                    tap_state_of(taps@, *osr, *isr) == fold_taps_k(ctx, oc, base_j, c as int, j as int, kk as int),
                decreases conv.k.1 - kk,
            {
                proof {
                    lemma_fold_taps_k_prefix(ctx, oc, base_j, c as int, j as int, kk + 1, conv.k.1 as int);
                }
                tap_exec(conv, Ghost(ctx), Ghost(oc), start_point, page_size, offset, padded_row, padded_col, first_row, adjustment, special, unit1, c, j, kk, &mut taps, osr, isr);
                kk = kk + 1;
            }
            proof {
                if conv.k.1 <= 0 {
                    assert(fold_taps_k(ctx, oc, base_j, c as int, j as int, kk as int) == fold_taps_k(ctx, oc, base_j, c as int, j as int, conv.k.1 as int));
                }
            }
            j = j + 1;
        }
        proof {
            if conv.k.0 <= 0 {
                assert(fold_taps_j(ctx, oc, base_c, c as int, j as int) == fold_taps_j(ctx, oc, base_c, c as int, conv.k.0 as int));
            }
        }
        c = c + 1;
    }
    proof {
        if conv.i_pg <= 0 {
            assert(fold_taps_c(ctx, oc, init, c as int) == fold_taps_c(ctx, oc, init, conv.i_pg as int));
        }
    }
    taps
}


/// One planned output of a convolution share: the kernel it belongs to,
/// the unit that computes it, and its taps (input index, weight index) in
/// accumulation order.
pub struct PlannedOutput {
    pub kernel: u16,
    pub unit: usize,
    pub taps: Vec<(usize, usize)>,
}

/// The values of a planned output.
pub open spec fn planned_view(p: PlannedOutput) -> PlannedView {
    PlannedView { kernel: p.kernel, unit: p.unit as int, taps: taps_view(p.taps@) }
}

/// The values of a list of planned outputs.
pub open spec fn planned_views(ps: Seq<PlannedOutput>) -> Seq<PlannedView> {
    ps.map_values(|p: PlannedOutput| planned_view(p))
}

struct CalcExec {
    start_point: i32,
    max_visited: Vec<i32>,
    first_row: bool,
    out_side_rows: i32,
    in_side_rows: i32,
    offset: i32,
    page_size: i32,
    prev_group: u16,
    positions: Vec<Vec<i32>>,
    outputs: Vec<PlannedOutput>,
}

spec fn calc_view(e: CalcExec) -> CalcState {
    CalcState {
        start_point: e.start_point as int,
        max_visited: e.max_visited@,
        first_row: e.first_row,
        out_side_rows: e.out_side_rows as int,
        in_side_rows: e.in_side_rows as int,
        offset: e.offset as int,
        page_size: e.page_size as int,
        prev_group: e.prev_group as int,
        positions: e.positions@.map_values(|v: Vec<i32>| v@),
        outputs: planned_views(e.outputs@),
        ok: true,
    }
}

/// One output of unit `i`.
#[verifier::rlimit(60)]
fn output_exec(
    conv: &ConvMapping,
    Ghost(ctx): Ghost<ScheduleCtx>,
    e: &mut CalcExec,
    i: usize,
    adjustment: i32,
    special: bool,
    unit1: &UnitLayout,
    kernel: u16,
)
    requires
        ctx.conv == *conv,
        i < old(e).positions@.len(),
        old(e).positions@[i as int]@.len() >= 3,
        i < ctx.units.len(),
        ctx.units[i as int].kernel == kernel,
        special == special_pair(ctx, i as int),
        special ==> ctx.units.len() >= 2 && ctx.units[1] == layout_view(*unit1),
        output_step(ctx, calc_view(*old(e)), i as int, adjustment as int).ok,
    ensures
        calc_view(*final(e)) == output_step(ctx, calc_view(*old(e)), i as int, adjustment as int),
        final(e).positions@.len() == old(e).positions@.len(),
        final(e).positions@[i as int]@.len() >= 3,
{
    let ghost st = calc_view(*e);
    let ghost target = output_step(ctx, st, i as int, adjustment as int);
    let kh0 = conv.k.0 / 2;
    let kh1 = conv.k.1 / 2;
    assert(kh0 == half(conv.k.0) && kh1 == half(conv.k.1));
    assert(e.positions@[i as int]@ == st.positions[i as int]);
    let padded_row = e.positions[i][1] + kh0;
    let padded_col = e.positions[i][2] + kh1;
    let ghost oc = OutputCtx {
        start_point: st.start_point,
        page_size: st.page_size,
        offset: st.offset,
        padded_row: padded_row as int,
        padded_col: padded_col as int,
        first_row: st.first_row,
        adjustment: adjustment as int,
        special: special,
    };
    let ghost ts = fold_taps_c(ctx, oc, TapState { taps: Seq::empty(), osr: st.out_side_rows, isr: st.in_side_rows, ok: true }, conv.i_pg as int);
    assert(tap_state_of(Seq::empty(), e.out_side_rows, e.in_side_rows) == TapState { taps: Seq::empty(), osr: st.out_side_rows, isr: st.in_side_rows, ok: true }) by {
        assert(taps_view(Seq::<(usize, usize)>::empty()) =~= Seq::<(int, int)>::empty());
    }
    let mut osr = e.out_side_rows;
    let mut isr = e.in_side_rows;
    let taps = output_taps(conv, Ghost(ctx), Ghost(oc), e.start_point, e.page_size, e.offset, padded_row, padded_col, e.first_row, adjustment, special, unit1, &mut osr, &mut isr);
    e.out_side_rows = osr;
    e.in_side_rows = isr;
    let ghost outputs_before = e.outputs@;
    e.outputs.push(PlannedOutput { kernel, unit: i, taps });
    let ghost pos = st.positions[i as int];
    let p2 = e.positions[i][2] + conv.s.0;
    e.positions[i].set(2, p2);
    e.start_point = e.start_point + conv.s.0;
    let wraps = p2 + kh0 + conv.k.0 > conv.i.2;
    if wraps {
        e.positions[i].set(2, 0 - kh0);
        let p1 = e.positions[i][1] + conv.s.1;
        e.positions[i].set(1, p1);
        e.start_point = e.start_point - conv.s.0 + conv.k.0 + ((conv.s.1 - 1) * conv.i.1);
        if e.first_row {
            e.start_point = e.start_point - (e.out_side_rows - 1) * adjustment;
            e.first_row = false;
        }
    }
    let ghost new_pos = e.positions@[i as int]@;
    proof {
        if wraps {
            assert(new_pos =~= pos.update(2, (0 - half(conv.k.0)) as i32).update(1, (pos[1] + conv.s.1) as i32));
        } else {
            assert(new_pos =~= pos.update(2, p2 as i32));
        }
    }
    if vec_lex_lt(&e.max_visited, &e.positions[i]) {
        e.max_visited = e.positions[i].clone();
    }
    proof {
        assert(calc_view(*e).positions =~= st.positions.update(i as int, new_pos));
        assert(calc_view(*e).outputs =~= st.outputs.push(PlannedView { kernel: ctx.units[i as int].kernel, unit: i as int, taps: ts.taps }));
        assert(calc_view(*e) == target);
    }
}


proof fn lemma_unit_outputs_prefix(ctx: ScheduleCtx, st: CalcState, i: int, adjustment: int, n: int, m: int)
    requires
        n <= m,
        unit_outputs(ctx, st, i, adjustment, m).ok,
    ensures
        unit_outputs(ctx, st, i, adjustment, n).ok,
    decreases m - n,
{
    if n < m {
        lemma_unit_outputs_prefix(ctx, st, i, adjustment, n, m - 1);
    }
}

/// The context of the output loop agrees with the exec values.
spec fn ctx_matches(
    ctx: ScheduleCtx,
    conv: ConvMapping,
    units: Seq<UnitLayout>,
    completed: Seq<u16>,
    pages: Seq<i32>,
    start_group: u16,
    input_len: usize,
) -> bool {
    &&& ctx.conv == conv
    &&& ctx.units == layouts_view(units)
    &&& ctx.completed == completed
    &&& ctx.pages == pages
    &&& ctx.start_group == start_group as int
    &&& ctx.len == input_len as int
    &&& o_pg16(conv) != 0
}

/// Unit `i` of the output loop.
#[verifier::rlimit(80)]
fn unit_exec(
    conv: &ConvMapping,
    Ghost(ctx): Ghost<ScheduleCtx>,
    e: &mut CalcExec,
    units: &Vec<UnitLayout>,
    i: usize,
    completed: &Vec<u16>,
    pages: &Vec<i32>,
    start_group: u16,
    input_len: usize,
)
    requires
        ctx_matches(ctx, *conv, units@, completed@, pages@, start_group, input_len),
        i < units@.len(),
        old(e).positions@.len() == units@.len(),
        unit_step(ctx, calc_view(*old(e)), i as int).ok,
    ensures
        calc_view(*final(e)) == unit_step(ctx, calc_view(*old(e)), i as int),
        final(e).positions@.len() == units@.len(),
{
    let ghost st = calc_view(*e);
    let n = units.len();
    let kh0 = conv.k.0 / 2;
    let kh1 = conv.k.1 / 2;
    assert(kh0 == half(conv.k.0) && kh1 == half(conv.k.1));
    assert(e.positions@[i as int]@ == st.positions[i as int]);
    assert(ctx.units[i as int] == layout_view(units@[i as int]));
    let padded_row = e.positions[i][1] + kh0;
    let padded_col = e.positions[i][2] + kh1;
    let mut adjustment: i32 = 0;
    if units[i].count == 0 {
        return;
    }
    let group_nr = group_of(conv, units[i].which_kernel);
    if e.prev_group != group_nr {
        e.offset = e.offset + e.page_size * conv.i_pg;
        e.prev_group = group_nr;
    }
    let complete = contains_u16(completed, group_nr);
    if complete {
        e.page_size = conv.i.1 * conv.i.2;
    } else {
        e.page_size = pages[group_nr as usize - start_group as usize];
        if n == 1 {
            e.page_size = i32_div(input_len as i32, conv.i_pg);
        }
    }
    if (!complete && n == 2) || i == 0 {
        e.first_row = true;
        if conv.i.2 - padded_row <= conv.k.1 {
            e.out_side_rows = conv.k.1;
        } else {
            e.out_side_rows = conv.s.1;
        }
        adjustment = padded_col;
        e.in_side_rows = conv.k.1 - e.out_side_rows;
    }
    if vec_lex_lt(&e.max_visited, &e.positions[i]) {
        if i32_div(e.positions[i][0], conv.i_pg) != i32_div(e.max_visited[0], conv.i_pg) {
            let rows_to_move_down = conv.k.1 - conv.s.1;
            e.start_point = e.start_point + rows_to_move_down * conv.i.2 + (conv.i_pg - 1) * e.page_size;
        } else {
            e.start_point = i32_div(input_len as i32, conv.i_pg) - layout_input_count_exec(&units[i]);
            e.first_row = true;
        }
    } else {
        let prev_idx: usize = if i >= 1 {
            i - 1
        } else {
            0
        };
        assert(e.positions@[prev_idx as int]@ == previous_position(st, i as int));
        let d1 = e.positions[prev_idx][1] - e.positions[i][1];
        let d2 = e.positions[prev_idx][2] - e.positions[i][2];
        e.start_point = e.start_point - d1 * conv.i.2 - d2;
    }
    let ghost st2 = calc_view(*e);
    assert(unit_step(ctx, st, i as int) == unit_outputs(ctx, st2, i as int, adjustment as int, units@[i as int].count as int));
    let special = i == 0 && n == 2 && group_of(conv, units[1].which_kernel) == group_of(conv, units[0].which_kernel)
        && !contains_u16(completed, group_of(conv, units[0].which_kernel));
    assert(special == special_pair(ctx, i as int));
    let unit1 = if n >= 2 {
        &units[1]
    } else {
        &units[0]
    };
    assert(n >= 2 ==> ctx.units[1] == layout_view(units@[1]));
    let count = units[i].count;
    let mut done: i32 = 0;
    while done < count
        invariant
            ctx_matches(ctx, *conv, units@, completed@, pages@, start_group, input_len),
            i < units@.len(),
            count == units@[i as int].count,
            0 <= done,
            done <= count || count < 0,
            count < 0 ==> done == 0,
            special == special_pair(ctx, i as int),
            special ==> ctx.units.len() >= 2 && ctx.units[1] == layout_view(*unit1),
            unit_outputs(ctx, st2, i as int, adjustment as int, count as int).ok,
            calc_view(*e) == unit_outputs(ctx, st2, i as int, adjustment as int, done as int),
            e.positions@.len() == units@.len(),
            e.positions@[i as int]@.len() >= 3,
        decreases count - done,
    {
        proof {
            lemma_unit_outputs_prefix(ctx, st2, i as int, adjustment as int, done + 1, count as int);
        }
        output_exec(conv, Ghost(ctx), e, i, adjustment, special, unit1, units[i].which_kernel);
        done = done + 1;
    }
    proof {
        if count < 0 {
            assert(unit_outputs(ctx, st2, i as int, adjustment as int, count as int) == st2);
        }
    }
}


proof fn lemma_calc_units_prefix(ctx: ScheduleCtx, st0: CalcState, n: int, m: int)
    requires
        n <= m,
        calc_units(ctx, st0, m).ok,
    ensures
        calc_units(ctx, st0, n).ok,
    decreases m - n,
{
    if n < m {
        lemma_calc_units_prefix(ctx, st0, n, m - 1);
    }
}

fn start_positions(units: &Vec<UnitLayout>) -> (r: Vec<Vec<i32>>)
    ensures
        r@.len() == units@.len(),
        r@.map_values(|v: Vec<i32>| v@) == layouts_view(units@).map_values(|u: LayoutView| u.pos),
{
    let mut r: Vec<Vec<i32>> = Vec::new();
    let mut t: usize = 0;
    while t < units.len()
        invariant
            t <= units@.len(),
            r@.len() == t,
            forall|w: int| 0 <= w < t ==> (#[trigger] r@[w])@ == units@[w].start_pos_in@,
        decreases units@.len() - t,
    {
        r.push(units[t].start_pos_in.clone());
        t = t + 1;
    }
    assert(r@.map_values(|v: Vec<i32>| v@) =~= layouts_view(units@).map_values(|u: LayoutView| u.pos));
    r
}

/// Plans the outputs a processor computes for its share of a convolution:
/// for each weight unit in turn, each of its outputs, with the input and
/// weight index of every multiply-accumulate.  The input indices walk the
/// processor's received input pages: a page per output group (the whole
/// input plane for groups the share completes), a start point that moves
/// one stride per output and one stride of rows per output row, and
/// corrections for a first row that starts inside the window (heads) and a
/// page that ends before the window does (tails).
pub fn convolution_schedule(conv: &ConvMapping, units: &Vec<UnitLayout>, input_len: usize) -> (r: Vec<PlannedOutput>)
    requires
        schedule_defined(*conv, layouts_view(units@), input_len as int),
    ensures
        planned_views(r@) == planned_outputs(*conv, layouts_view(units@), input_len as int),
{
    let ghost us = layouts_view(units@);
    let n = units.len();
    let start_group = first_group(conv, units);
    let completed = scan_groups(conv, units);
    let pages = scan_pages(conv, units, start_group, &completed);
    let ghost ctx = schedule_ctx(*conv, us, input_len as int);
    let mut e = CalcExec {
        start_point: 0,
        max_visited: units[0].start_pos_in.clone(),
        first_row: false,
        out_side_rows: 0,
        in_side_rows: 0,
        offset: 0,
        page_size: 0,
        prev_group: group_of(conv, units[0].which_kernel),
        positions: start_positions(units),
        outputs: Vec::new(),
    };
    proof {
        assert(planned_views(e.outputs@) =~= Seq::<PlannedView>::empty());
        assert(calc_view(e) == initial_calc(ctx));
    }
    let mut i: usize = 0;
    while i < n
        invariant
            us == layouts_view(units@),
            n == units@.len(),
            ctx == schedule_ctx(*conv, us, input_len as int),
            ctx_matches(ctx, *conv, units@, completed@, pages@, start_group, input_len),
            calc_units(ctx, initial_calc(ctx), n as int).ok,
            i <= n,
            e.positions@.len() == n,
            calc_view(e) == calc_units(ctx, initial_calc(ctx), i as int),
        decreases n - i,
    {
        proof {
            lemma_calc_units_prefix(ctx, initial_calc(ctx), i + 1, n as int);
        }
        unit_exec(conv, Ghost(ctx), &mut e, units, i, &completed, &pages, start_group, input_len);
        i = i + 1;
    }
    e.outputs
}

} // verus!
