use vstd::prelude::*;

use crate::mapping_analysis::{
    box_cells, box_cols, box_rows, column_cells, covers_first_box, flatten_cells, is_padding_cell, mapping_cells,
    row_cells,
};
use crate::util::bit_set;
use vstd::arithmetic::div_mod::{lemma_fundamental_div_mod, lemma_fundamental_div_mod_converse, lemma_mod_bound};

verus! {

/// Number of non-zero cells that are not padding among the first `n`.
pub open spec fn core_cells_before(cells: Seq<(usize, usize, usize, u128)>, n: int) -> int
    decreases n,
{
    if n <= 0 {
        0
    } else if cells[n - 1].3 != 0 && !is_padding_cell(cells[n - 1].3) {
        core_cells_before(cells, n - 1) + 1
    } else {
        core_cells_before(cells, n - 1)
    }
}

/// The (row, column) from which the `p`-th core value is read: the column
/// runs over a row of `w` values, then the row over `h` rows, and both
/// start again; with rows of no values the column only grows.
pub open spec fn read_position(p: int, h: int, w: int) -> (int, int) {
    if w == 0 {
        (0, p)
    } else {
        ((p / w) % h, p % w)
    }
}

/// Height of the first channel of the input.
pub open spec fn input_rows<T>(input: Seq<Vec<Vec<T>>>) -> int {
    input[0]@.len() as int
}

/// Width of the first row of the first channel of the input.
pub open spec fn input_cols<T>(input: Seq<Vec<Vec<T>>>) -> int {
    input[0]@[0]@.len() as int
}

/// Where the value of cell `n` (a core cell) is read in the input:
/// (channel, row, column).
pub open spec fn source_of<T>(input: Seq<Vec<Vec<T>>>, cells: Seq<(usize, usize, usize, u128)>, n: int) -> (int, int, int) {
    let rc = read_position(core_cells_before(cells, n), input_rows(input), input_cols(input));
    (cells[n].0 as int, rc.0, rc.1)
}

/// The value sent for cell `n`: `zero` for a padding cell, else the input
/// value at its source.
pub open spec fn routed_value<T>(input: Seq<Vec<Vec<T>>>, zero: T, cells: Seq<(usize, usize, usize, u128)>, n: int) -> T {
    if is_padding_cell(cells[n].3) {
        zero
    } else {
        let s = source_of(input, cells, n);
        input[s.0]@[s.1]@[s.2]
    }
}

/// The values processor `a` receives from the first `n` cells: one for
/// each cell that names it, in cell order.
pub open spec fn routed_to<T>(
    input: Seq<Vec<Vec<T>>>,
    zero: T,
    cells: Seq<(usize, usize, usize, u128)>,
    a: int,
    n: int,
) -> Seq<T>
    decreases n,
{
    if n <= 0 {
        Seq::empty()
    } else if 0 <= a < 127 && bit_set(cells[n - 1].3, a) {
        routed_to(input, zero, cells, a, n - 1).push(routed_value(input, zero, cells, n - 1))
    } else {
        routed_to(input, zero, cells, a, n - 1)
    }
}

/// The input value that core cell `n` reads exists.
pub open spec fn source_in_input<T>(input: Seq<Vec<Vec<T>>>, cells: Seq<(usize, usize, usize, u128)>, n: int) -> bool {
    let s = source_of(input, cells, n);
    &&& input.len() > 0
    &&& input[0]@.len() > 0
    &&& 0 <= s.0 < input.len()
    &&& 0 <= s.1 < input[s.0]@.len()
    &&& 0 <= s.2 < input[s.0]@[s.1]@.len()
}

/// The inputs on which `distribute_input` does not panic: the mapping can
/// be read as a box, every processor a cell names exists, and every core
/// cell reads an input value that exists.
pub open spec fn routing_defined<T>(input: Seq<Vec<Vec<T>>>, mapping: Seq<Vec<Vec<u128>>>, total_cpu_count: u8) -> bool {
    let cells = mapping_cells(mapping);
    &&& covers_first_box(mapping)
    &&& forall|n: int, a: int|
        0 <= n < cells.len() && 0 <= a < 127 && #[trigger] bit_set(cells[n].3, a) ==> a
            < total_cpu_count
    &&& forall|n: int|
        0 <= n < cells.len() && cells[n].3 != 0 && !is_padding_cell(cells[n].3)
            ==> #[trigger] source_in_input(input, cells, n)
}

proof fn lemma_bit_of_zero(t: u128)
    by (bit_vector)
    requires
        t < 127,
    ensures
        (0u128 >> t) & 1u128 != 1u128,
{
}

proof fn lemma_read_start(h: int, w: int)
    requires
        h > 0,
        w >= 0,
    ensures
        read_position(0, h, w) == (0int, 0int),
{
    if w > 0 {
        lemma_fundamental_div_mod_converse(0, w, 0, 0);
        lemma_fundamental_div_mod_converse(0, h, 0, 0);
    }
}

proof fn lemma_read_step(p: int, h: int, w: int, y: int, x: int)
    requires
        h > 0,
        w >= 0,
        read_position(p, h, w) == (y, x),
    ensures
        0 <= y < h,
        read_position(p + 1, h, w) == (if w > 0 && x + 1 == w {
            if y + 1 == h {
                (0int, 0int)
            } else {
                (y + 1, 0int)
            }
        } else {
            (y, x + 1)
        }),
{
    if w > 0 {
        let q = p / w;
        let r = p % w;
        lemma_fundamental_div_mod(p, w);
        lemma_mod_bound(p, w);
        assert(w * q == q * w) by (nonlinear_arith);
        let qq = q / h;
        lemma_fundamental_div_mod(q, h);
        lemma_mod_bound(q, h);
        assert(h * qq == qq * h) by (nonlinear_arith);
        if r + 1 == w {
            assert(p + 1 == (q + 1) * w + 0) by (nonlinear_arith)
                requires
                    p == q * w + r,
                    r + 1 == w,
            ;
            lemma_fundamental_div_mod_converse(p + 1, w, q + 1, 0);
            if y + 1 == h {
                assert(q + 1 == (qq + 1) * h + 0) by (nonlinear_arith)
                    requires
                        q == qq * h + y,
                        y + 1 == h,
                ;
                lemma_fundamental_div_mod_converse(q + 1, h, qq + 1, 0);
            } else {
                lemma_fundamental_div_mod_converse(q + 1, h, qq, y + 1);
            }
        } else {
            lemma_fundamental_div_mod_converse(p + 1, w, q, r + 1);
        }
    }
}

/// Sends each input value to the processors that need it.  The cells of
/// the mapping are taken in order; a non-zero cell names its processors by
/// its bits below 127, and each of them receives `zero` when the cell is
/// padding (bit 127 set), else the next input value, read row by row from
/// the cell's channel with a row and column counter that wrap at the shape
/// of the first channel.  An empty mapping means the whole input is passed
/// and gives no lists.
pub fn distribute_input<T: Copy>(
    input: Vec<Vec<Vec<T>>>,
    mapping: Vec<Vec<Vec<u128>>>,
    total_cpu_count: u8,
    zero: T,
) -> (r: Vec<Vec<T>>)
    requires
        routing_defined(input@, mapping@, total_cpu_count),
    ensures
        mapping@.len() == 0 ==> r@.len() == 0,
        mapping@.len() > 0 ==> {
            &&& r@.len() == total_cpu_count
            &&& forall|a: int|
                0 <= a < total_cpu_count ==> (#[trigger] r@[a])@ == routed_to(
                    input@,
                    zero,
                    mapping_cells(mapping@),
                    a,
                    mapping_cells(mapping@).len() as int,
                )
        },
{
    if mapping.len() == 0 {
        return Vec::new();
    }
    let cells = flatten_cells(&mapping);
    let ghost cs = cells@;
    let total = total_cpu_count as usize;
    let mut out: Vec<Vec<T>> = Vec::new();
    let mut a: usize = 0;
    while a < total
        invariant
            a <= total,
            out@.len() == a,
            forall|b: int| 0 <= b < a ==> (#[trigger] out@[b])@ == Seq::<T>::empty(),
        decreases total - a,
    {
        out.push(Vec::new());
        a = a + 1;
    }
    let mut i_x: usize = 0;
    let mut i_y: usize = 0;
    let mut n: usize = 0;
    while n < cells.len()
        invariant
            cs == cells@,
            cs == mapping_cells(mapping@),
            routing_defined(input@, mapping@, total_cpu_count),
            total == total_cpu_count,
            n <= cs.len(),
            out@.len() == total,
            forall|b: int| 0 <= b < total ==> (#[trigger] out@[b])@ == routed_to(input@, zero, cs, b, n as int),
            (exists|m: int| 0 <= m < n && cs[m].3 != 0 && !is_padding_cell(cs[m].3)) ==> {
                &&& input@.len() > 0
                &&& input@[0]@.len() > 0
                &&& read_position(core_cells_before(cs, n as int), input_rows(input@), input_cols(input@))
                    == (i_y as int, i_x as int)
            },
            (forall|m: int| 0 <= m < n ==> !(cs[m].3 != 0 && !is_padding_cell(cs[m].3))) ==> (
            core_cells_before(cs, n as int) == 0 && i_x == 0 && i_y == 0),
        decreases cs.len() - n,
    {
        let (ci, _cj, _ck, v) = cells[n];
        let ghost nn = n as int;
        if v == 0 {
            proof {
                assert forall|b: int| 0 <= b < total implies (#[trigger] out@[b])@ == routed_to(
                    input@,
                    zero,
                    cs,
                    b,
                    nn + 1,
                ) by {
                    if 0 <= b < 127 {
                        lemma_bit_of_zero(b as u128);
                    }
                }
                assert(core_cells_before(cs, nn + 1) == core_cells_before(cs, nn));
                if exists|m: int| 0 <= m < nn + 1 && cs[m].3 != 0 && !is_padding_cell(cs[m].3) {
                    let m = choose|m: int| 0 <= m < nn + 1 && cs[m].3 != 0 && !is_padding_cell(cs[m].3);
                    assert(m < nn);
                }
            }
            n = n + 1;
            continue;
        }
        let pad = (v >> 127u8) == 1;
        assert(pad == is_padding_cell(v));
        proof {
            if !pad {
                assert(source_in_input(input@, cs, nn));
                if !(exists|m: int| 0 <= m < nn && cs[m].3 != 0 && !is_padding_cell(cs[m].3)) {
                    lemma_read_start(input_rows(input@), input_cols(input@));
                }
                assert(read_position(core_cells_before(cs, nn), input_rows(input@), input_cols(input@))
                    == (i_y as int, i_x as int));
            }
        }
        let val: T = if pad {
            zero
        } else {
            input[ci][i_y][i_x]
        };
        assert(val == routed_value(input@, zero, cs, nn));
        let mut k: u8 = 0;
        while k < 127
            invariant
                cs == cells@,
                cs == mapping_cells(mapping@),
                0 <= nn < cs.len(),
                v == cs[nn].3,
                routing_defined(input@, mapping@, total_cpu_count),
                total == total_cpu_count,
                k <= 127,
                out@.len() == total,
                val == routed_value(input@, zero, cs, nn),
                forall|b: int|
                    0 <= b < total ==> (#[trigger] out@[b])@ == if b < k && bit_set(v, b) {
                        routed_to(input@, zero, cs, b, nn).push(val)
                    } else {
                        routed_to(input@, zero, cs, b, nn)
                    },
            decreases 127 - k,
        {
            if (v >> k) & 1 == 1 {
                assert(bit_set(v, k as int));
                assert(k < total_cpu_count);
                let ghost before = out@;
                let mut l: Vec<T> = Vec::new();
                std::mem::swap(&mut l, &mut out[k as usize]);
                l.push(val);
                std::mem::swap(&mut l, &mut out[k as usize]);
                proof {
                    assert forall|b: int| 0 <= b < total implies (#[trigger] out@[b])@ == if b < k + 1
                        && bit_set(v, b) {
                        routed_to(input@, zero, cs, b, nn).push(val)
                    } else {
                        routed_to(input@, zero, cs, b, nn)
                    } by {
                        if b != k {
                            assert(out@[b] == before[b]);
                        }
                    }
                }
            } else {
                assert(!bit_set(v, k as int));
            }
            k = k + 1;
        }
        proof {
            assert forall|b: int| 0 <= b < total implies (#[trigger] out@[b])@ == routed_to(
                input@,
                zero,
                cs,
                b,
                nn + 1,
            ) by {
                if b >= 127 {
                    assert(!(b < 127 && bit_set(v, b)));
                }
            }
        }
        if !pad {
            let ghost p = core_cells_before(cs, nn);
            proof {
                assert(source_in_input(input@, cs, nn));
                if !(exists|m: int| 0 <= m < nn && cs[m].3 != 0 && !is_padding_cell(cs[m].3)) {
                    lemma_read_start(input_rows(input@), input_cols(input@));
                }
                assert(input@[ci as int]@[i_y as int]@.len() == input@[ci as int]@[i_y as int].len());
                lemma_read_step(p, input_rows(input@), input_cols(input@), i_y as int, i_x as int);
                assert(core_cells_before(cs, nn + 1) == p + 1);
            }
            i_x = i_x + 1;
            if i_x == input[0][0].len() {
                i_x = 0;
                i_y = i_y + 1;
                if i_y == input[0].len() {
                    i_x = 0;
                    i_y = 0;
                }
            }
        } else {
            proof {
                assert(core_cells_before(cs, nn + 1) == core_cells_before(cs, nn));
                if exists|m: int| 0 <= m < nn + 1 && cs[m].3 != 0 && !is_padding_cell(cs[m].3) {
                    let m = choose|m: int| 0 <= m < nn + 1 && cs[m].3 != 0 && !is_padding_cell(cs[m].3);
                    assert(m < nn);
                }
            }
        }
        n = n + 1;
    }
    out
}

/// The input is a box of channels with at least one row of at least one
/// value, every channel shaped like the first.
pub open spec fn input_is_box<T>(input: Seq<Vec<Vec<T>>>) -> bool {
    &&& input.len() > 0
    &&& input_rows(input) > 0
    &&& input_cols(input) > 0
    &&& forall|c: int| 0 <= c < input.len() ==> (#[trigger] input[c])@.len() == input_rows(input)
    &&& forall|c: int, y: int|
        0 <= c < input.len() && 0 <= y < input_rows(input) ==> (#[trigger] input[c]@[y])@.len() == input_cols(input)
}

/// Plain conditions under which routing never fails: the mapping can be
/// read as a box with no more channels than the input, the input is a box,
/// and every processor a cell names exists.
pub open spec fn routing_plain<T>(input: Seq<Vec<Vec<T>>>, mapping: Seq<Vec<Vec<u128>>>, total_cpu_count: u8) -> bool {
    let cells = mapping_cells(mapping);
    &&& covers_first_box(mapping)
    &&& input_is_box(input)
    &&& mapping.len() <= input.len()
    &&& forall|n: int, a: int|
        0 <= n < cells.len() && 0 <= a < 127 && #[trigger] bit_set(cells[n].3, a) ==> a
            < total_cpu_count
}

proof fn lemma_column_channels(raw: Seq<Vec<Vec<u128>>>, i: int, j: int, k: int)
    requires
        0 <= i <= usize::MAX,
    ensures
        forall|t: int| 0 <= t < column_cells(raw, i, j, k).len() ==> (#[trigger] column_cells(raw, i, j, k)[t]).0 == i,
    decreases k,
{
    if k > 0 {
        lemma_column_channels(raw, i, j, k - 1);
        let prev = column_cells(raw, i, j, k - 1);
        assert((i as usize) as int == i);
        assert forall|t: int| 0 <= t < column_cells(raw, i, j, k).len() implies (#[trigger] column_cells(
            raw,
            i,
            j,
            k,
        )[t]).0 == i by {
            if t < prev.len() {
                assert(column_cells(raw, i, j, k)[t] == prev[t]);
            }
        }
    }
}

proof fn lemma_row_channels(raw: Seq<Vec<Vec<u128>>>, i: int, j: int, d2: int)
    requires
        0 <= i <= usize::MAX,
    ensures
        forall|t: int| 0 <= t < row_cells(raw, i, j, d2).len() ==> (#[trigger] row_cells(raw, i, j, d2)[t]).0 == i,
    decreases j,
{
    if j > 0 {
        lemma_row_channels(raw, i, j - 1, d2);
        lemma_column_channels(raw, i, j - 1, d2);
        let a = row_cells(raw, i, j - 1, d2);
        let b = column_cells(raw, i, j - 1, d2);
        assert forall|t: int| 0 <= t < (a + b).len() implies (#[trigger] (a + b)[t]).0 == i by {
            if t >= a.len() {
                assert((a + b)[t] == b[t - a.len()]);
            }
        }
    }
}

proof fn lemma_box_channels(raw: Seq<Vec<Vec<u128>>>, i: int, d1: int, d2: int)
    requires
        0 <= i <= raw.len(),
        raw.len() <= usize::MAX,
    ensures
        forall|t: int| 0 <= t < box_cells(raw, i, d1, d2).len() ==> (#[trigger] box_cells(raw, i, d1, d2)[t]).0 < i,
    decreases i,
{
    if i > 0 {
        lemma_box_channels(raw, i - 1, d1, d2);
        lemma_row_channels(raw, i - 1, d1, d2);
        let a = box_cells(raw, i - 1, d1, d2);
        let b = row_cells(raw, i - 1, d1, d2);
        assert forall|t: int| 0 <= t < (a + b).len() implies (#[trigger] (a + b)[t]).0 < i by {
            if t >= a.len() {
                assert((a + b)[t] == b[t - a.len()]);
            }
        }
    }
}

/// The plain conditions suffice: under them every core cell reads an input
/// value that exists, so routing is defined.
pub proof fn lemma_routing_plain_suffices<T>(input: Seq<Vec<Vec<T>>>, mapping: Seq<Vec<Vec<u128>>>, total_cpu_count: u8)
    requires
        mapping.len() <= usize::MAX,
        routing_plain(input, mapping, total_cpu_count),
    ensures
        routing_defined(input, mapping, total_cpu_count),
{
    let cells = mapping_cells(mapping);
    lemma_box_channels(mapping, mapping.len() as int, box_rows(mapping), box_cols(mapping));
    let h = input_rows(input);
    let w = input_cols(input);
    assert forall|n: int|
        0 <= n < cells.len() && cells[n].3 != 0 && !is_padding_cell(cells[n].3) implies #[trigger] source_in_input(
        input,
        cells,
        n,
    ) by {
        let p = core_cells_before(cells, n);
        let q = p / w;
        lemma_mod_bound(p, w);
        lemma_mod_bound(q, h);
        let s = source_of(input, cells, n);
        assert(s.0 < mapping.len());
        assert(input[s.0]@.len() == h);
        assert(input[s.0]@[s.1]@.len() == w);
    }
}

} // verus!
