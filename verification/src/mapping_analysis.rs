use vstd::prelude::*;

use crate::layer::Mapping;
use crate::partition::{find_which_cpu, spec_which_cpu, which_cpu_defined};
use crate::util::{bit_set, set_bits_below, split_u128_to_u8};

verus! {

/// Every row and column of `raw` is at least as long as the first one, so
/// that the box `raw.len() x raw[0].len() x raw[0][0].len()` can be read.
pub open spec fn covers_first_box(raw: Seq<Vec<Vec<u128>>>) -> bool {
    raw.len() > 0 ==> {
        &&& forall|j: int| 0 <= j < raw.len() ==> (#[trigger] raw[j])@.len() >= raw[0]@.len()
        &&& forall|j: int, k: int|
            0 <= j < raw.len() && 0 <= k < raw[0]@.len() ==> (#[trigger] raw[j]@[k])@.len()
                >= raw[0]@[0]@.len()
    }
}

/// Extent of the first box along its second axis.
pub open spec fn box_rows(raw: Seq<Vec<Vec<u128>>>) -> int {
    if raw.len() > 0 {
        raw[0]@.len() as int
    } else {
        0
    }
}

/// Extent of the first box along its third axis.
pub open spec fn box_cols(raw: Seq<Vec<Vec<u128>>>) -> int {
    if raw.len() > 0 && raw[0]@.len() > 0 {
        raw[0]@[0]@.len() as int
    } else {
        0
    }
}

/// (j, k, m) lies in the first box of `raw`.
pub open spec fn in_first_box(raw: Seq<Vec<Vec<u128>>>, j: int, k: int, m: int) -> bool {
    0 <= j < raw.len() && 0 <= k < box_rows(raw) && 0 <= m < box_cols(raw)
}

/// A position as stored in the end markers: each coordinate cut to `u16`.
pub open spec fn position_key(j: int, k: int, m: int) -> (u16, u16, u16) {
    (j as u16, k as u16, m as u16)
}

/// Lexicographic "strictly less" on coordinate triples.
pub open spec fn triple_lt(a: (u16, u16, u16), b: (u16, u16, u16)) -> bool {
    a.0 < b.0 || (a.0 == b.0 && (a.1 < b.1 || (a.1 == b.1 && a.2 < b.2)))
}

/// The cell at (j, k, m) names processor `i`.
pub open spec fn names(raw: Seq<Vec<Vec<u128>>>, i: int, j: int, k: int, m: int) -> bool {
    in_first_box(raw, j, k, m) && bit_set(raw[j]@[k]@[m], i)
}

/// `last` is the greatest position key, starting from (0, 0, 0), of the
/// cells that name processor `i`.
pub open spec fn is_last_position(raw: Seq<Vec<Vec<u128>>>, i: int, last: (u16, u16, u16)) -> bool {
    &&& (last == (0u16, 0u16, 0u16) || exists|j: int, k: int, m: int|
        #[trigger] names(raw, i, j, k, m) && position_key(j, k, m) == last)
    &&& forall|j: int, k: int, m: int|
        #[trigger] names(raw, i, j, k, m) ==> !triple_lt(last, position_key(j, k, m))
}

fn triple_less(a: (u16, u16, u16), b: (u16, u16, u16)) -> (r: bool)
    ensures
        r == triple_lt(a, b),
{
    a.0 < b.0 || (a.0 == b.0 && (a.1 < b.1 || (a.1 == b.1 && a.2 < b.2)))
}

proof fn lemma_triple_order(a: (u16, u16, u16), b: (u16, u16, u16), c: (u16, u16, u16))
    ensures
        triple_lt(a, b) && triple_lt(b, c) ==> triple_lt(a, c),
        !triple_lt(a, b) && !triple_lt(b, a) ==> a == b,
        triple_lt(a, b) ==> !triple_lt(b, a),
{
}

/// The greatest position key of the cells that name processor `i`.
fn last_position(raw: &Vec<Vec<Vec<u128>>>, i: u8) -> (r: (u16, u16, u16))
    requires
        covers_first_box(raw@),
        i < 128,
    ensures
        is_last_position(raw@, i as int, r),
{
    let mut last: (u16, u16, u16) = (0, 0, 0);
    let ghost mut found = false;
    let ghost mut wit: (int, int, int) = (0, 0, 0);
    let mut j: usize = 0;
    while j < raw.len()
        invariant
            covers_first_box(raw@),
            i < 128,
            j <= raw@.len(),
            !found ==> last == (0u16, 0u16, 0u16),
            found ==> names(raw@, i as int, wit.0, wit.1, wit.2) && position_key(wit.0, wit.1, wit.2)
                == last,
            forall|x: int, y: int, z: int|
                x < j && #[trigger] names(raw@, i as int, x, y, z) ==> !triple_lt(last, position_key(x, y, z)),
        decreases raw@.len() - j,
    {
        let mut k: usize = 0;
        while k < raw[0].len()
            invariant
                covers_first_box(raw@),
                i < 128,
                j < raw@.len(),
                k <= box_rows(raw@),
                !found ==> last == (0u16, 0u16, 0u16),
                found ==> names(raw@, i as int, wit.0, wit.1, wit.2) && position_key(wit.0, wit.1, wit.2)
                    == last,
                forall|x: int, y: int, z: int|
                    (x < j || (x == j && y < k)) && #[trigger] names(raw@, i as int, x, y, z)
                        ==> !triple_lt(last, position_key(x, y, z)),
            decreases box_rows(raw@) - k,
        {
            let mut m: usize = 0;
            while m < raw[0][0].len()
                invariant
                    covers_first_box(raw@),
                    i < 128,
                    j < raw@.len(),
                    k < box_rows(raw@),
                    m <= box_cols(raw@),
                    !found ==> last == (0u16, 0u16, 0u16),
                    found ==> names(raw@, i as int, wit.0, wit.1, wit.2) && position_key(
                        wit.0,
                        wit.1,
                        wit.2,
                    ) == last,
                    forall|x: int, y: int, z: int|
                        (x < j || (x == j && y < k) || (x == j && y == k && z < m)) && #[trigger] names(
                            raw@,
                            i as int,
                            x,
                            y,
                            z,
                        ) ==> !triple_lt(last, position_key(x, y, z)),
                decreases box_cols(raw@) - m,
            {
                assert(raw@[j as int]@.len() >= raw@[0]@.len());
                assert(raw@[j as int]@[k as int]@.len() >= raw@[0]@[0]@.len());
                if (raw[j][k][m] >> i) & 1 == 1 {
                    let cand: (u16, u16, u16) = (j as u16, k as u16, m as u16);
                    let ghost prev = last;
                    if triple_less(last, cand) {
                        last = cand;
                    }
                    proof {
                        assert(names(raw@, i as int, j as int, k as int, m as int));
                        if triple_lt(prev, cand) {
                            found = true;
                            wit = (j as int, k as int, m as int);
                        }
                        assert forall|x: int, y: int, z: int|
                            (x < j || (x == j && y < k) || (x == j && y == k && z < m + 1)) && #[trigger] names(
                                raw@,
                                i as int,
                                x,
                                y,
                                z,
                            ) implies !triple_lt(last, position_key(x, y, z)) by {
                            lemma_triple_order(last, prev, position_key(x, y, z));
                            lemma_triple_order(prev, cand, position_key(x, y, z));
                            lemma_triple_order(last, cand, position_key(x, y, z));
                        }
                    }
                }
                m = m + 1;
            }
            k = k + 1;
        }
        j = j + 1;
    }
    last
}

/// For each of the first `num_mcu_next` processors, the position of the last
/// input cell it receives: the greatest position key, starting from
/// (0, 0, 0), of the cells of the mapping whose bit for that processor is
/// set.
pub fn mark_end(raw_mapping: &Vec<Vec<Vec<u128>>>, num_mcu_next: u8) -> (r: Vec<(u8, Vec<u16>)>)
    requires
        num_mcu_next <= 128,
        num_mcu_next > 0 ==> covers_first_box(raw_mapping@),
    ensures
        r@.len() == num_mcu_next,
        forall|i: int|
            0 <= i < num_mcu_next ==> {
                &&& (#[trigger] r@[i]).0 == i
                &&& r@[i].1@.len() == 3
                &&& is_last_position(raw_mapping@, i, (r@[i].1@[0], r@[i].1@[1], r@[i].1@[2]))
            },
{
    let mut res: Vec<(u8, Vec<u16>)> = Vec::new();
    let mut i: u8 = 0;
    while i < num_mcu_next
        invariant
            num_mcu_next <= 128,
            num_mcu_next > 0 ==> covers_first_box(raw_mapping@),
            i <= num_mcu_next,
            res@.len() == i,
            forall|x: int|
                0 <= x < i ==> {
                    &&& (#[trigger] res@[x]).0 == x
                    &&& res@[x].1@.len() == 3
                    &&& is_last_position(raw_mapping@, x, (res@[x].1@[0], res@[x].1@[1], res@[x].1@[2]))
                },
        decreases num_mcu_next - i,
    {
        let last = last_position(raw_mapping, i);
        let mut last_pos: Vec<u16> = Vec::new();
        last_pos.push(last.0);
        last_pos.push(last.1);
        last_pos.push(last.2);
        proof {
            assert((last_pos@[0], last_pos@[1], last_pos@[2]) == last);
        }
        res.push((i, last_pos));
        i = i + 1;
    }
    res
}


/// The phases of one sender while the mapping is analysed: the values of
/// the vectors of a `Mapping` before empty entries are dropped.
pub struct PhaseStream {
    pub count: Seq<u16>,
    pub map: Seq<Seq<u8>>,
    pub padding_pos: Seq<Seq<u16>>,
    pub end_pos: Seq<(u16, u8, u16)>,
}

/// The fixed inputs of the analysis: the number of senders, their portions,
/// the number of core cells (cut to `u32`) and the end positions.
pub struct AnalysisParams {
    pub ncp: int,
    pub portions: Seq<u8>,
    pub core_number: u32,
    pub e_pos: Seq<(u8, Seq<u16>)>,
}

/// The analysis state after some cells: each sender's phases, the number
/// of non-padding cells seen, and whether every step so far was defined.
pub struct AnalysisState {
    pub streams: Seq<PhaseStream>,
    pub core_count: int,
    pub ok: bool,
}

/// A stream with no phases.
pub open spec fn empty_stream() -> PhaseStream {
    PhaseStream {
        count: Seq::empty(),
        map: Seq::empty(),
        padding_pos: Seq::empty(),
        end_pos: Seq::empty(),
    }
}

/// The state before any cell.
pub open spec fn initial_state(ncp: int) -> AnalysisState {
    AnalysisState { streams: Seq::new(ncp as nat, |x: int| empty_stream()), core_count: 0, ok: true }
}

/// The stream with its first phase opened (empty, count 0) if it had none.
pub open spec fn open_stream(s: PhaseStream) -> PhaseStream {
    if s.count.len() == 0 {
        PhaseStream {
            count: seq![0u16],
            map: seq![Seq::empty()],
            padding_pos: seq![Seq::empty()],
            end_pos: s.end_pos,
        }
    } else {
        s
    }
}

/// A new phase starts when the receivers differ from those of the current,
/// non-empty, phase.
pub open spec fn advance_phase(s: PhaseStream, next: Seq<u8>) -> PhaseStream {
    let ph = s.count.len() - 1;
    if next != s.map[ph] && s.map[ph].len() > 0 {
        PhaseStream {
            count: s.count.push(0u16),
            map: s.map.push(Seq::empty()),
            padding_pos: s.padding_pos.push(Seq::empty()),
            end_pos: s.end_pos,
        }
    } else {
        s
    }
}

/// The end markers for the cell with position key `key`, sent as value
/// `temp` of phase `phase`: one for each entry of `e_pos` at that position,
/// in order.
pub open spec fn end_marks(e_pos: Seq<(u8, Seq<u16>)>, key: Seq<u16>, phase: u16, temp: u16) -> Seq<(u16, u8, u16)>
    decreases e_pos.len(),
{
    if e_pos.len() == 0 {
        Seq::empty()
    } else {
        let rest = end_marks(e_pos.drop_last(), key, phase, temp);
        if e_pos.last().1 == key {
            rest.push((phase, e_pos.last().0, temp))
        } else {
            rest
        }
    }
}

/// The current phase of `s` takes one more value: its receivers become
/// `next`, a padding value records its offset, end markers are added.
pub open spec fn record_value(s: PhaseStream, next: Seq<u8>, pad: bool, key: Seq<u16>, e_pos: Seq<(u8, Seq<u16>)>) -> PhaseStream {
    let ph = s.count.len() - 1;
    let temp = s.count[ph];
    PhaseStream {
        count: s.count.update(ph, (temp + 1) as u16),
        map: s.map.update(ph, next),
        padding_pos: if pad {
            s.padding_pos.update(ph, s.padding_pos[ph].push(temp))
        } else {
            s.padding_pos
        },
        end_pos: s.end_pos + end_marks(e_pos, key, ph as u16, temp),
    }
}

/// The cell value has its padding flag set.
pub open spec fn is_padding_cell(v: u128) -> bool {
    v >> 127u128 == 1u128
}

/// The sender of the current cell: the processor `find_which_cpu` names for
/// the core cells seen so far, moved back by one for a padding cell past the
/// last sender.
pub open spec fn sender_of(ap: AnalysisParams, core_count: int) -> int {
    let c0 = spec_which_cpu(ap.portions, core_count as i32, ap.core_number);
    if c0 >= ap.ncp {
        c0 - 1
    } else {
        c0
    }
}

/// One cell of the analysis.
pub open spec fn analysis_step(ap: AnalysisParams, st: AnalysisState, cell: (usize, usize, usize, u128)) -> AnalysisState {
    let (i, j, k, v) = cell;
    if !st.ok || v == 0 {
        st
    } else {
        let pad = is_padding_cell(v);
        let c0 = spec_which_cpu(ap.portions, st.core_count as i32, ap.core_number);
        let cpu = sender_of(ap, st.core_count);
        let next = set_bits_below(v, 127);
        let s1 = advance_phase(open_stream(st.streams[cpu]), next);
        let ph = s1.count.len() - 1;
        let defined = {
            &&& st.core_count <= i32::MAX
            &&& which_cpu_defined(ap.portions, st.core_count as i32, ap.core_number)
            &&& (c0 >= ap.ncp ==> pad)
            &&& 0 <= cpu < ap.ncp
            &&& ph < 100000
            &&& s1.count[ph] < 65535
            &&& (!pad ==> st.core_count < i32::MAX)
        };
        if !defined {
            AnalysisState { streams: st.streams, core_count: st.core_count, ok: false }
        } else {
            let key = seq![i as u16, j as u16, k as u16];
            AnalysisState {
                streams: st.streams.update(cpu, record_value(s1, next, pad, key, ap.e_pos)),
                core_count: if pad {
                    st.core_count
                } else {
                    st.core_count + 1
                },
                ok: true,
            }
        }
    }
}

/// The state after the first `n` cells.
pub open spec fn run_analysis(ap: AnalysisParams, cells: Seq<(usize, usize, usize, u128)>, n: int) -> AnalysisState
    decreases n,
{
    if n <= 0 {
        initial_state(ap.ncp)
    } else {
        analysis_step(ap, run_analysis(ap, cells, n - 1), cells[n - 1])
    }
}

/// Cells (i, j, 0..k) with their values.
pub open spec fn column_cells(raw: Seq<Vec<Vec<u128>>>, i: int, j: int, k: int) -> Seq<(usize, usize, usize, u128)>
    decreases k,
{
    if k <= 0 {
        Seq::empty()
    } else {
        column_cells(raw, i, j, k - 1).push((i as usize, j as usize, (k - 1) as usize, raw[i]@[j]@[k - 1]))
    }
}

/// Cells (i, 0..j, 0..d2).
pub open spec fn row_cells(raw: Seq<Vec<Vec<u128>>>, i: int, j: int, d2: int) -> Seq<(usize, usize, usize, u128)>
    decreases j,
{
    if j <= 0 {
        Seq::empty()
    } else {
        row_cells(raw, i, j - 1, d2) + column_cells(raw, i, j - 1, d2)
    }
}

/// Cells (0..i, 0..d1, 0..d2) in row-major order.
pub open spec fn box_cells(raw: Seq<Vec<Vec<u128>>>, i: int, d1: int, d2: int) -> Seq<(usize, usize, usize, u128)>
    decreases i,
{
    if i <= 0 {
        Seq::empty()
    } else {
        box_cells(raw, i - 1, d1, d2) + row_cells(raw, i - 1, d1, d2)
    }
}

/// All cells of the first box of `raw`, in the order they are visited.
pub open spec fn mapping_cells(raw: Seq<Vec<Vec<u128>>>) -> Seq<(usize, usize, usize, u128)> {
    box_cells(raw, raw.len() as int, box_rows(raw), box_cols(raw))
}

/// The entries of `s` that are not empty.
pub open spec fn keep_nonempty(s: Seq<Seq<u8>>) -> Seq<Seq<u8>>
    decreases s.len(),
{
    if s.len() == 0 {
        s
    } else if s.last().len() > 0 {
        keep_nonempty(s.drop_last()).push(s.last())
    } else {
        keep_nonempty(s.drop_last())
    }
}

/// The entries of `s` that are not zero.
pub open spec fn keep_nonzero(s: Seq<u16>) -> Seq<u16>
    decreases s.len(),
{
    if s.len() == 0 {
        s
    } else if s.last() != 0 {
        keep_nonzero(s.drop_last()).push(s.last())
    } else {
        keep_nonzero(s.drop_last())
    }
}

/// The `Mapping` a stream is reduced to: zero counts and empty receiver
/// lists dropped, and as many padding lists kept as counts remain.
pub open spec fn reduced_stream(s: PhaseStream) -> PhaseStream {
    let count = keep_nonzero(s.count);
    PhaseStream {
        count: count,
        map: keep_nonempty(s.map),
        padding_pos: s.padding_pos.take(count.len() as int),
        end_pos: s.end_pos,
    }
}

/// The stream a `Mapping` holds.
pub open spec fn stream_of(m: Mapping) -> PhaseStream {
    PhaseStream {
        count: m.count@,
        map: m.map@.map_values(|v: Vec<u8>| v@),
        padding_pos: m.padding_pos@.map_values(|v: Vec<u16>| v@),
        end_pos: m.end_pos@,
    }
}


/// The end positions as values.
pub open spec fn end_positions_of(e_pos: Seq<(u8, Vec<u16>)>) -> Seq<(u8, Seq<u16>)> {
    e_pos.map_values(|p: (u8, Vec<u16>)| (p.0, p.1@))
}

/// Every phase has a count, a receiver list and a padding list, and every
/// count is at least 1.
pub open spec fn stream_ok(s: PhaseStream) -> bool {
    &&& s.map.len() == s.count.len()
    &&& s.padding_pos.len() == s.count.len()
    &&& forall|x: int| 0 <= x < s.count.len() ==> #[trigger] s.count[x] >= 1
}

fn vec_u8_eq(a: &Vec<u8>, b: &Vec<u8>) -> (r: bool)
    ensures
        r == (a@ == b@),
{
    if a.len() != b.len() {
        return false;
    }
    let mut i: usize = 0;
    while i < a.len()
        invariant
            a@.len() == b@.len(),
            i <= a@.len(),
            forall|x: int| 0 <= x < i ==> a@[x] == b@[x],
        decreases a@.len() - i,
    {
        if a[i] != b[i] {
            return false;
        }
        i = i + 1;
    }
    assert(a@ =~= b@);
    true
}

/// Opens the first phase of a stream that has none.
fn open_phase(s: &mut Mapping)
    requires
        stream_ok(stream_of(*old(s))),
    ensures
        stream_of(*final(s)) == open_stream(stream_of(*old(s))),
{
    if s.count.len() == 0 {
        s.count.push(0);
        s.map.push(Vec::new());
        s.padding_pos.push(Vec::new());
        proof {
            assert(stream_of(*s).count =~= seq![0u16]);
            assert(stream_of(*s).map =~= seq![Seq::<u8>::empty()]);
            assert(stream_of(*s).padding_pos =~= seq![Seq::<u16>::empty()]);
        }
    }
}

/// Starts a new phase when the receivers change.
fn next_phase(s: &mut Mapping, next: &Vec<u8>)
    requires
        stream_of(*old(s)).count.len() > 0,
        stream_of(*old(s)).map.len() == stream_of(*old(s)).count.len(),
        stream_of(*old(s)).padding_pos.len() == stream_of(*old(s)).count.len(),
    ensures
        stream_of(*final(s)) == advance_phase(stream_of(*old(s)), next@),
{
    let ph = s.count.len() - 1;
    let same = vec_u8_eq(next, &s.map[ph]);
    assert(s.map@[ph as int]@ == stream_of(*s).map[ph as int]);
    if !same && s.map[ph].len() > 0 {
        let ghost before = stream_of(*s);
        s.count.push(0);
        s.map.push(Vec::new());
        s.padding_pos.push(Vec::new());
        proof {
            assert(stream_of(*s).count =~= before.count.push(0u16));
            assert(stream_of(*s).map =~= before.map.push(Seq::empty()));
            assert(stream_of(*s).padding_pos =~= before.padding_pos.push(Seq::empty()));
        }
    }
}

/// The end markers for position `key`, sent as value `temp` of phase `ph`,
/// appended to `out`.
fn push_end_marks(out: &mut Vec<(u16, u8, u16)>, e_pos: &Vec<(u8, Vec<u16>)>, key: (u16, u16, u16), ph: u16, temp: u16)
    ensures
        final(out)@ == old(out)@ + end_marks(
            end_positions_of(e_pos@),
            seq![key.0, key.1, key.2],
            ph,
            temp,
        ),
{
    let ghost keyv = seq![key.0, key.1, key.2];
    let ghost start = out@;
    let mut t: usize = 0;
    while t < e_pos.len()
        invariant
            t <= e_pos@.len(),
            keyv == seq![key.0, key.1, key.2],
            out@ == start + end_marks(end_positions_of(e_pos@).take(t as int), keyv, ph, temp),
        decreases e_pos@.len() - t,
    {
        let p = &e_pos[t];
        let hit = p.1.len() == 3 && p.1[0] == key.0 && p.1[1] == key.1 && p.1[2] == key.2;
        proof {
            let ep = end_positions_of(e_pos@);
            assert(ep.take(t + 1).drop_last() =~= ep.take(t as int));
            assert(ep.take(t + 1).last() == (p.0, p.1@));
            assert(keyv.len() == 3 && keyv[0] == key.0 && keyv[1] == key.1 && keyv[2] == key.2);
            if hit {
                assert(p.1@ =~= keyv);
            } else {
                if p.1@ == keyv {
                    assert(p.1@.len() == 3);
                    assert(p.1@[0] == key.0 && p.1@[1] == key.1 && p.1@[2] == key.2);
                }
            }
        }
        if hit {
            out.push((ph, p.0, temp));
        }
        t = t + 1;
    }
    proof {
        assert(end_positions_of(e_pos@).take(e_pos@.len() as int) =~= end_positions_of(e_pos@));
    }
}

/// The current phase takes one more value.
fn record_cell(s: &mut Mapping, next: Vec<u8>, pad: bool, key: (u16, u16, u16), e_pos: &Vec<(u8, Vec<u16>)>)
    requires
        stream_of(*old(s)).count.len() > 0,
        stream_of(*old(s)).map.len() == stream_of(*old(s)).count.len(),
        stream_of(*old(s)).padding_pos.len() == stream_of(*old(s)).count.len(),
        stream_of(*old(s)).count[stream_of(*old(s)).count.len() - 1] < 65535,
    ensures
        stream_of(*final(s)) == record_value(
            stream_of(*old(s)),
            next@,
            pad,
            seq![key.0, key.1, key.2],
            end_positions_of(e_pos@),
        ),
{
    let ghost before = stream_of(*s);
    let ph = s.count.len() - 1;
    let ghost next_view = next@;
    s.map.set(ph, next);
    let temp = s.count[ph];
    if pad {
        s.padding_pos[ph].push(temp);
    }
    push_end_marks(&mut s.end_pos, e_pos, key, ph as u16, temp);
    s.count.set(ph, temp + 1);
    proof {
        let after = record_value(before, next_view, pad, seq![key.0, key.1, key.2], end_positions_of(e_pos@));
        assert(stream_of(*s).count =~= after.count);
        assert(stream_of(*s).map =~= after.map);
        assert(stream_of(*s).padding_pos =~= after.padding_pos);
        assert(stream_of(*s).end_pos =~= after.end_pos);
    }
}


/// Product of the first `n` entries of a shape.
pub open spec fn usize_product(s: Seq<usize>, n: int) -> int
    decreases n,
{
    if n <= 0 {
        1
    } else {
        usize_product(s, n - 1) * s[n - 1]
    }
}

/// The analysis parameters for the given inputs.
pub open spec fn analysis_params(
    num_cpus_previous: u8,
    e_pos: Seq<(u8, Vec<u16>)>,
    core_shape: Seq<usize>,
    portions: Seq<u8>,
) -> AnalysisParams {
    AnalysisParams {
        ncp: num_cpus_previous as int,
        portions: portions,
        core_number: usize_product(core_shape, core_shape.len() as int) as usize as u32,
        e_pos: end_positions_of(e_pos),
    }
}

/// The state after analysing every cell of the mapping.
pub open spec fn final_analysis(
    raw: Seq<Vec<Vec<u128>>>,
    num_cpus_previous: u8,
    e_pos: Seq<(u8, Vec<u16>)>,
    core_shape: Seq<usize>,
    portions: Seq<u8>,
) -> AnalysisState {
    let cells = mapping_cells(raw);
    run_analysis(analysis_params(num_cpus_previous, e_pos, core_shape, portions), cells, cells.len() as int)
}

/// The inputs on which `analyse_mapping` does not panic: for a non-empty
/// mapping, the core count fits, the first row is not empty, every row and
/// column reaches the first box, and every step of the analysis is defined.
pub open spec fn analysis_defined(
    raw: Seq<Vec<Vec<u128>>>,
    num_cpus_previous: u8,
    e_pos: Seq<(u8, Vec<u16>)>,
    core_shape: Seq<usize>,
    portions: Seq<u8>,
) -> bool {
    raw.len() > 0 ==> {
        &&& forall|n: int| 1 <= n <= core_shape.len() ==> #[trigger] usize_product(core_shape, n) <= usize::MAX
        &&& raw[0]@.len() > 0
        &&& covers_first_box(raw)
        &&& final_analysis(raw, num_cpus_previous, e_pos, core_shape, portions).ok
    }
}

proof fn lemma_run_ok_prefix(ap: AnalysisParams, cells: Seq<(usize, usize, usize, u128)>, n: int, m: int)
    requires
        n <= m,
        run_analysis(ap, cells, m).ok,
    ensures
        run_analysis(ap, cells, n).ok,
    decreases m - n,
{
    if n < m {
        lemma_run_ok_prefix(ap, cells, n, m - 1);
    }
}

fn usize_shape_product(shape: &Vec<usize>) -> (r: usize)
    requires
        forall|n: int| 1 <= n <= shape@.len() ==> #[trigger] usize_product(shape@, n) <= usize::MAX,
    ensures
        r == usize_product(shape@, shape@.len() as int),
{
    let mut r: usize = 1;
    let mut i: usize = 0;
    while i < shape.len()
        invariant
            i <= shape@.len(),
            forall|n: int| 1 <= n <= shape@.len() ==> #[trigger] usize_product(shape@, n) <= usize::MAX,
            r == usize_product(shape@, i as int),
        decreases shape@.len() - i,
    {
        assert(usize_product(shape@, i + 1) <= usize::MAX);
        assert(usize_product(shape@, i + 1) == r * shape@[i as int]);
        assert(r * shape@[i as int] >= 0) by (nonlinear_arith)
            requires
                r >= 0,
                shape@[i as int] >= 0,
        ;
        r = r * shape[i];
        i = i + 1;
    }
    r
}

/// The cells of the first box of `raw` in row-major order.
pub(crate) fn flatten_cells(raw: &Vec<Vec<Vec<u128>>>) -> (r: Vec<(usize, usize, usize, u128)>)
    requires
        covers_first_box(raw@),
    ensures
        r@ == mapping_cells(raw@),
{
    let mut cells: Vec<(usize, usize, usize, u128)> = Vec::new();
    if raw.len() == 0 {
        return cells;
    }
    let d1 = raw[0].len();
    let d2 = if d1 > 0 {
        raw[0][0].len()
    } else {
        0
    };
    let mut i: usize = 0;
    while i < raw.len()
        invariant
            raw@.len() > 0,
            covers_first_box(raw@),
            d1 == box_rows(raw@),
            d2 == box_cols(raw@),
            i <= raw@.len(),
            cells@ == box_cells(raw@, i as int, d1 as int, d2 as int),
        decreases raw@.len() - i,
    {
        let mut j: usize = 0;
        while j < d1
            invariant
                raw@.len() > 0,
                covers_first_box(raw@),
                d1 == box_rows(raw@),
                d2 == box_cols(raw@),
                i < raw@.len(),
                j <= d1,
                cells@ == box_cells(raw@, i as int, d1 as int, d2 as int) + row_cells(raw@, i as int, j as int, d2 as int),
            decreases d1 - j,
        {
            let mut k: usize = 0;
            while k < d2
                invariant
                    raw@.len() > 0,
                    covers_first_box(raw@),
                    d1 == box_rows(raw@),
                    d2 == box_cols(raw@),
                    i < raw@.len(),
                    j < d1,
                    k <= d2,
                    cells@ == box_cells(raw@, i as int, d1 as int, d2 as int) + row_cells(raw@, i as int, j as int, d2 as int)
                        + column_cells(raw@, i as int, j as int, k as int),
                decreases d2 - k,
            {
                assert(raw@[i as int]@.len() >= raw@[0]@.len());
                assert(raw@[i as int]@[j as int]@.len() >= raw@[0]@[0]@.len());
                let ghost before = cells@;
                cells.push((i, j, k, raw[i][j][k]));
                proof {
                    assert(cells@ =~= box_cells(raw@, i as int, d1 as int, d2 as int) + row_cells(raw@, i as int, j as int, d2 as int)
                        + column_cells(raw@, i as int, j as int, k + 1));
                }
                k = k + 1;
            }
            proof {
                assert(cells@ =~= box_cells(raw@, i as int, d1 as int, d2 as int) + row_cells(raw@, i as int, j + 1, d2 as int));
            }
            j = j + 1;
        }
        proof {
            assert(cells@ =~= box_cells(raw@, i + 1, d1 as int, d2 as int));
        }
        i = i + 1;
    }
    cells
}

fn drop_zero_counts(v: &Vec<u16>) -> (r: Vec<u16>)
    ensures
        r@ == keep_nonzero(v@),
{
    let mut r: Vec<u16> = Vec::new();
    let mut t: usize = 0;
    while t < v.len()
        invariant
            t <= v@.len(),
            r@ == keep_nonzero(v@.take(t as int)),
        decreases v@.len() - t,
    {
        assert(v@.take(t + 1).drop_last() =~= v@.take(t as int));
        if v[t] != 0 {
            r.push(v[t]);
        }
        t = t + 1;
    }
    assert(v@.take(v@.len() as int) =~= v@);
    r
}

fn drop_empty_lists(v: &Vec<Vec<u8>>) -> (r: Vec<Vec<u8>>)
    ensures
        r@.map_values(|x: Vec<u8>| x@) == keep_nonempty(v@.map_values(|x: Vec<u8>| x@)),
{
    let ghost vv = v@.map_values(|x: Vec<u8>| x@);
    let mut r: Vec<Vec<u8>> = Vec::new();
    let mut t: usize = 0;
    while t < v.len()
        invariant
            t <= v@.len(),
            vv == v@.map_values(|x: Vec<u8>| x@),
            r@.map_values(|x: Vec<u8>| x@) == keep_nonempty(vv.take(t as int)),
        decreases v@.len() - t,
    {
        assert(vv.take(t + 1).drop_last() =~= vv.take(t as int));
        assert(vv.take(t + 1).last() == v@[t as int]@);
        if v[t].len() > 0 {
            let ghost before = r@.map_values(|x: Vec<u8>| x@);
            let c = v[t].clone();
            r.push(c);
            assert(r@.map_values(|x: Vec<u8>| x@) =~= before.push(v@[t as int]@));
        }
        t = t + 1;
    }
    assert(vv.take(v@.len() as int) =~= vv);
    r
}

proof fn lemma_keep_nonzero_all(s: Seq<u16>)
    requires
        forall|x: int| 0 <= x < s.len() ==> #[trigger] s[x] >= 1,
    ensures
        keep_nonzero(s) == s,
    decreases s.len(),
{
    if s.len() > 0 {
        lemma_keep_nonzero_all(s.drop_last());
        assert(s.drop_last().push(s.last()) =~= s);
    }
}

/// The reduced `Mapping` of a sender: zero counts and empty receiver lists
/// dropped, padding lists cut to the number of counts.
fn reduce_mapping(m: Mapping) -> (r: Mapping)
    requires
        stream_ok(stream_of(m)),
    ensures
        stream_of(r) == reduced_stream(stream_of(m)),
{
    let count = drop_zero_counts(&m.count);
    let map = drop_empty_lists(&m.map);
    proof {
        lemma_keep_nonzero_all(m.count@);
    }
    let mut padding_pos = m.padding_pos;
    padding_pos.truncate(count.len());
    let r = Mapping { count, map, padding_pos, end_pos: m.end_pos };
    proof {
        assert(stream_of(r).padding_pos =~= stream_of(m).padding_pos.take(count@.len() as int));
    }
    r
}


fn empty_mapping() -> (r: Mapping)
    ensures
        stream_of(r) == empty_stream(),
{
    let r = Mapping { count: Vec::new(), map: Vec::new(), padding_pos: Vec::new(), end_pos: Vec::new() };
    proof {
        assert(stream_of(r).map =~= Seq::<Seq<u8>>::empty());
        assert(stream_of(r).padding_pos =~= Seq::<Seq<u16>>::empty());
    }
    r
}

/// Turns an input mapping into per-sender phase lists: the cells are taken
/// in order, each non-zero cell is a value sent by the processor that
/// computed it (the processor `find_which_cpu` names for the core cells
/// counted so far; a padding cell past the last sender goes to the one
/// before), a new phase starts when the receivers change, padding values
/// and end positions are recorded with their offset in the phase.  An empty
/// mapping gives no senders.
#[verifier::rlimit(50)]
pub fn analyse_mapping(
    raw_mapping: Vec<Vec<Vec<u128>>>,
    num_cpus_previous: u8,
    _num_cpus_next: u8,
    e_pos: Vec<(u8, Vec<u16>)>,
    core_shape: Vec<usize>,
    portions: Vec<u8>,
) -> (r: Vec<Mapping>)
    requires
        analysis_defined(raw_mapping@, num_cpus_previous, e_pos@, core_shape@, portions@),
    ensures
        raw_mapping@.len() == 0 ==> r@.len() == 0,
        raw_mapping@.len() > 0 ==> {
            &&& r@.len() == num_cpus_previous
            &&& forall|x: int|
                0 <= x < num_cpus_previous ==> stream_of(#[trigger] r@[x]) == reduced_stream(
                    final_analysis(raw_mapping@, num_cpus_previous, e_pos@, core_shape@, portions@).streams[x],
                )
        },
{
    if raw_mapping.len() == 0 {
        return Vec::new();
    }
    let core_number = usize_shape_product(&core_shape);
    let ghost ap = analysis_params(num_cpus_previous, e_pos@, core_shape@, portions@);
    let ncp = num_cpus_previous as usize;
    let mut mappping: Vec<Mapping> = Vec::new();
    let mut x: usize = 0;
    while x < ncp
        invariant
            x <= ncp,
            mappping@.len() == x,
            forall|y: int| 0 <= y < x ==> stream_of(#[trigger] mappping@[y]) == empty_stream(),
        decreases ncp - x,
    {
        mappping.push(empty_mapping());
        x = x + 1;
    }
    let cells = flatten_cells(&raw_mapping);
    let ghost total = cells@.len() as int;
    proof {
        assert(initial_state(ap.ncp).streams.len() == ncp);
    }
    let mut core_count: i32 = 0;
    let mut n: usize = 0;
    while n < cells.len()
        invariant
            ap == analysis_params(num_cpus_previous, e_pos@, core_shape@, portions@),
            ncp == num_cpus_previous,
            core_number == usize_product(core_shape@, core_shape@.len() as int),
            cells@ == mapping_cells(raw_mapping@),
            total == cells@.len(),
            run_analysis(ap, cells@, total).ok,
            n <= total,
            mappping@.len() == ncp,
            run_analysis(ap, cells@, n as int).streams.len() == ncp,
            core_count == run_analysis(ap, cells@, n as int).core_count,
            forall|y: int| 0 <= y < ncp ==> stream_of(#[trigger] mappping@[y]) == run_analysis(ap, cells@, n as int).streams[y],
            forall|y: int| 0 <= y < ncp ==> stream_ok(#[trigger] run_analysis(ap, cells@, n as int).streams[y]),
            forall|y: int| 0 <= y < ncp ==> (#[trigger] run_analysis(ap, cells@, n as int).streams[y]).count.len() <= 100000,
        decreases total - n,
    {
        proof {
            lemma_run_ok_prefix(ap, cells@, n + 1, total);
        }
        let ghost st = run_analysis(ap, cells@, n as int);
        let (ci, cj, ck, v) = cells[n];
        if v != 0 {
            let pad = (v >> 127u8) == 1;
            assert(pad == is_padding_cell(v));
            let mut cur = find_which_cpu(&portions, core_count, core_number as u32) as usize;
            if cur >= ncp {
                cur = cur - 1;
            }
            assert(cur == sender_of(ap, st.core_count));
            let mut s = empty_mapping();
            std::mem::swap(&mut s, &mut mappping[cur]);
            open_phase(&mut s);
            let next = split_u128_to_u8(v);
            next_phase(&mut s, &next);
            record_cell(&mut s, next, pad, (ci as u16, cj as u16, ck as u16), &e_pos);
            std::mem::swap(&mut s, &mut mappping[cur]);
            if !pad {
                core_count = core_count + 1;
            }
            proof {
                let st2 = run_analysis(ap, cells@, n + 1);
                assert(st2 == analysis_step(ap, st, cells@[n as int]));
                assert forall|y: int| 0 <= y < ncp implies stream_of(#[trigger] mappping@[y]) == st2.streams[y]
                    && stream_ok(st2.streams[y]) && st2.streams[y].count.len() <= 100000 by {
                    if y == cur {
                        let s1 = advance_phase(open_stream(st.streams[y]), set_bits_below(v, 127));
                        let ph = s1.count.len() - 1;
                        assert(st2.streams[y].count[ph] >= 1);
                        assert forall|z: int| 0 <= z < st2.streams[y].count.len() implies #[trigger] st2.streams[y].count[z] >= 1 by {
                            if z != ph {
                                assert(st2.streams[y].count[z] == s1.count[z]);
                            }
                        }
                    }
                }
            }
        } else {
            proof {
                assert(run_analysis(ap, cells@, n + 1) == st);
            }
        }
        n = n + 1;
    }
    let mut result: Vec<Mapping> = Vec::new();
    let mut y: usize = 0;
    while y < ncp
        invariant
            y <= ncp,
            ncp == num_cpus_previous,
            ap == analysis_params(num_cpus_previous, e_pos@, core_shape@, portions@),
            cells@ == mapping_cells(raw_mapping@),
            total == cells@.len(),
            mappping@.len() == ncp,
            result@.len() == y,
            forall|z: int| y <= z < ncp ==> stream_of(#[trigger] mappping@[z]) == run_analysis(ap, cells@, total).streams[z],
            forall|z: int| 0 <= z < ncp ==> stream_ok(#[trigger] run_analysis(ap, cells@, total).streams[z]),
            forall|z: int| 0 <= z < y ==> stream_of(#[trigger] result@[z]) == reduced_stream(run_analysis(ap, cells@, total).streams[z]),
        decreases ncp - y,
    {
        let mut m = empty_mapping();
        std::mem::swap(&mut m, &mut mappping[y]);
        result.push(reduce_mapping(m));
        y = y + 1;
    }
    result
}


/// Sum of the counts.
pub open spec fn count_total(c: Seq<u16>) -> int
    decreases c.len(),
{
    if c.len() == 0 {
        0
    } else {
        count_total(c.drop_last()) + c.last()
    }
}

/// Sum of the counts of the first `n` streams, after reduction.
pub open spec fn sent_total(streams: Seq<PhaseStream>, n: int) -> int
    decreases n,
{
    if n <= 0 {
        0
    } else {
        sent_total(streams, n - 1) + count_total(reduced_stream(streams[n - 1]).count)
    }
}

/// Number of non-zero cells among the first `n`.
pub open spec fn nonzero_cells(cells: Seq<(usize, usize, usize, u128)>, n: int) -> int
    decreases n,
{
    if n <= 0 {
        0
    } else if cells[n - 1].3 != 0 {
        nonzero_cells(cells, n - 1) + 1
    } else {
        nonzero_cells(cells, n - 1)
    }
}

proof fn lemma_total_push_zero(c: Seq<u16>)
    ensures
        count_total(c.push(0u16)) == count_total(c),
{
    assert(c.push(0u16).drop_last() =~= c);
}

proof fn lemma_total_bump(c: Seq<u16>, i: int)
    requires
        0 <= i < c.len(),
        c[i] < 65535,
    ensures
        count_total(c.update(i, (c[i] + 1) as u16)) == count_total(c) + 1,
    decreases c.len(),
{
    let d = c.update(i, (c[i] + 1) as u16);
    if i == c.len() - 1 {
        assert(d.drop_last() =~= c.drop_last());
    } else {
        lemma_total_bump(c.drop_last(), i);
        assert(d.drop_last() =~= c.drop_last().update(i, (c[i] + 1) as u16));
    }
}

proof fn lemma_total_keep_nonzero(c: Seq<u16>)
    ensures
        count_total(keep_nonzero(c)) == count_total(c),
    decreases c.len(),
{
    if c.len() > 0 {
        lemma_total_keep_nonzero(c.drop_last());
        let k = keep_nonzero(c.drop_last());
        assert(k.push(c.last()).drop_last() =~= k);
    }
}

/// Sum of the counts of the first `n` streams, before reduction.
spec fn raw_total(streams: Seq<PhaseStream>, n: int) -> int
    decreases n,
{
    if n <= 0 {
        0
    } else {
        raw_total(streams, n - 1) + count_total(streams[n - 1].count)
    }
}

proof fn lemma_raw_total_update(streams: Seq<PhaseStream>, i: int, x: PhaseStream, n: int)
    requires
        0 <= i < streams.len(),
        n <= streams.len(),
    ensures
        raw_total(streams.update(i, x), n) == raw_total(streams, n) + if i < n {
            count_total(x.count) - count_total(streams[i].count)
        } else {
            0
        },
    decreases n,
{
    if n > 0 {
        lemma_raw_total_update(streams, i, x, n - 1);
    }
}

proof fn lemma_raw_total_empty(ncp: int, n: int)
    requires
        0 <= n <= ncp,
    ensures
        raw_total(initial_state(ncp).streams, n) == 0,
    decreases n,
{
    if n > 0 {
        lemma_raw_total_empty(ncp, n - 1);
    }
}

proof fn lemma_sent_is_raw(streams: Seq<PhaseStream>, n: int)
    ensures
        sent_total(streams, n) == raw_total(streams, n),
    decreases n,
{
    if n > 0 {
        lemma_sent_is_raw(streams, n - 1);
        lemma_total_keep_nonzero(streams[n - 1].count);
    }
}

proof fn lemma_run_counts(ap: AnalysisParams, cells: Seq<(usize, usize, usize, u128)>, n: int)
    requires
        ap.ncp >= 0,
        0 <= n <= cells.len(),
        run_analysis(ap, cells, n).ok,
    ensures
        run_analysis(ap, cells, n).streams.len() == ap.ncp,
        raw_total(run_analysis(ap, cells, n).streams, ap.ncp) == nonzero_cells(cells, n),
    decreases n,
{
    if n == 0 {
        lemma_raw_total_empty(ap.ncp, ap.ncp);
    } else {
        lemma_run_ok_prefix(ap, cells, n - 1, n);
        lemma_run_counts(ap, cells, n - 1);
        let st = run_analysis(ap, cells, n - 1);
        let (i, j, k, v) = cells[n - 1];
        if v != 0 {
            let pad = is_padding_cell(v);
            let cpu = sender_of(ap, st.core_count);
            let next = set_bits_below(v, 127);
            let s0 = st.streams[cpu];
            let so = open_stream(s0);
            let s1 = advance_phase(so, next);
            let ph = s1.count.len() - 1;
            assert(count_total(so.count) == count_total(s0.count)) by {
                if s0.count.len() == 0 {
                    let z = seq![0u16];
                    assert(z.drop_last() =~= Seq::<u16>::empty());
                    assert(z.last() == 0u16);
                    assert(count_total(Seq::<u16>::empty()) == 0);
                    assert(count_total(z) == 0);
                }
            }
            assert(count_total(s1.count) == count_total(so.count)) by {
                lemma_total_push_zero(so.count);
            }
            let key = seq![i as u16, j as u16, k as u16];
            let s2 = record_value(s1, next, pad, key, ap.e_pos);
            lemma_total_bump(s1.count, ph);
            lemma_raw_total_update(st.streams, cpu, s2, ap.ncp);
        }
    }
}

/// Every non-zero cell of the mapping is sent exactly once: over all
/// senders and phases of the reduced result, the counts add up to the
/// number of non-zero cells of the mapping.
pub proof fn lemma_analysis_sends_every_cell(
    raw: Seq<Vec<Vec<u128>>>,
    num_cpus_previous: u8,
    e_pos: Seq<(u8, Vec<u16>)>,
    core_shape: Seq<usize>,
    portions: Seq<u8>,
)
    requires
        raw.len() > 0,
        analysis_defined(raw, num_cpus_previous, e_pos, core_shape, portions),
    ensures
        sent_total(
            final_analysis(raw, num_cpus_previous, e_pos, core_shape, portions).streams,
            num_cpus_previous as int,
        ) == nonzero_cells(mapping_cells(raw), mapping_cells(raw).len() as int),
{
    let ap = analysis_params(num_cpus_previous, e_pos, core_shape, portions);
    let cells = mapping_cells(raw);
    lemma_run_counts(ap, cells, cells.len() as int);
    lemma_sent_is_raw(run_analysis(ap, cells, cells.len() as int).streams, num_cpus_previous as int);
}

/// Number of end markers in `marks` for receiver `r`.
pub open spec fn markers_for(marks: Seq<(u16, u8, u16)>, r: u8) -> int
    decreases marks.len(),
{
    if marks.len() == 0 {
        0
    } else {
        markers_for(marks.drop_last(), r) + if marks.last().1 == r {
            1int
        } else {
            0int
        }
    }
}

/// Number of end markers for receiver `r` in the first `n` streams.
pub open spec fn stream_markers(streams: Seq<PhaseStream>, r: u8, n: int) -> int
    decreases n,
{
    if n <= 0 {
        0
    } else {
        stream_markers(streams, r, n - 1) + markers_for(streams[n - 1].end_pos, r)
    }
}

/// Number of end positions of `e_pos` for receiver `r` at position `pos`.
pub open spec fn end_positions_at(e_pos: Seq<(u8, Seq<u16>)>, r: u8, pos: Seq<u16>) -> int
    decreases e_pos.len(),
{
    if e_pos.len() == 0 {
        0
    } else {
        end_positions_at(e_pos.drop_last(), r, pos) + if e_pos.last().0 == r && e_pos.last().1 == pos {
            1int
        } else {
            0int
        }
    }
}

/// Over the first `n` cells, the number of end positions for receiver `r`
/// that name a non-zero cell, each cell by its full position (channel,
/// row, column).
pub open spec fn named_cell_ends(
    cells: Seq<(usize, usize, usize, u128)>,
    e_pos: Seq<(u8, Seq<u16>)>,
    r: u8,
    n: int,
) -> int
    decreases n,
{
    if n <= 0 {
        0
    } else {
        named_cell_ends(cells, e_pos, r, n - 1) + if cells[n - 1].3 != 0 {
            end_positions_at(
                e_pos,
                r,
                seq![cells[n - 1].0 as u16, cells[n - 1].1 as u16, cells[n - 1].2 as u16],
            )
        } else {
            0
        }
    }
}

proof fn lemma_markers_concat(a: Seq<(u16, u8, u16)>, b: Seq<(u16, u8, u16)>, r: u8)
    ensures
        markers_for(a + b, r) == markers_for(a, r) + markers_for(b, r),
    decreases b.len(),
{
    if b.len() == 0 {
        assert(a + b =~= a);
    } else {
        lemma_markers_concat(a, b.drop_last(), r);
        assert((a + b).drop_last() =~= a + b.drop_last());
        assert((a + b).last() == b.last());
    }
}

proof fn lemma_end_marks_count(e_pos: Seq<(u8, Seq<u16>)>, key: Seq<u16>, phase: u16, temp: u16, r: u8)
    ensures
        markers_for(end_marks(e_pos, key, phase, temp), r) == end_positions_at(e_pos, r, key),
    decreases e_pos.len(),
{
    if e_pos.len() > 0 {
        lemma_end_marks_count(e_pos.drop_last(), key, phase, temp, r);
        let rest = end_marks(e_pos.drop_last(), key, phase, temp);
        let x = (phase, e_pos.last().0, temp);
        assert(rest.push(x).drop_last() =~= rest);
    }
}

proof fn lemma_stream_markers_update(streams: Seq<PhaseStream>, i: int, x: PhaseStream, r: u8, n: int)
    requires
        0 <= i < streams.len(),
        n <= streams.len(),
    ensures
        stream_markers(streams.update(i, x), r, n) == stream_markers(streams, r, n) + if i < n {
            markers_for(x.end_pos, r) - markers_for(streams[i].end_pos, r)
        } else {
            0
        },
    decreases n,
{
    if n > 0 {
        lemma_stream_markers_update(streams, i, x, r, n - 1);
    }
}

proof fn lemma_stream_markers_empty(ncp: int, r: u8, n: int)
    requires
        0 <= n <= ncp,
    ensures
        stream_markers(initial_state(ncp).streams, r, n) == 0,
    decreases n,
{
    if n > 0 {
        lemma_stream_markers_empty(ncp, r, n - 1);
    }
}

proof fn lemma_run_markers(ap: AnalysisParams, cells: Seq<(usize, usize, usize, u128)>, r: u8, n: int)
    requires
        ap.ncp >= 0,
        0 <= n <= cells.len(),
        run_analysis(ap, cells, n).ok,
    ensures
        run_analysis(ap, cells, n).streams.len() == ap.ncp,
        stream_markers(run_analysis(ap, cells, n).streams, r, ap.ncp) == named_cell_ends(cells, ap.e_pos, r, n),
    decreases n,
{
    if n == 0 {
        lemma_stream_markers_empty(ap.ncp, r, ap.ncp);
    } else {
        lemma_run_ok_prefix(ap, cells, n - 1, n);
        lemma_run_markers(ap, cells, r, n - 1);
        let st = run_analysis(ap, cells, n - 1);
        let (i, j, k, v) = cells[n - 1];
        if v != 0 {
            let pad = is_padding_cell(v);
            let cpu = sender_of(ap, st.core_count);
            let next = set_bits_below(v, 127);
            let s1 = advance_phase(open_stream(st.streams[cpu]), next);
            let ph = s1.count.len() - 1;
            let temp = s1.count[ph];
            let key = seq![i as u16, j as u16, k as u16];
            let s2 = record_value(s1, next, pad, key, ap.e_pos);
            assert(s1.end_pos == st.streams[cpu].end_pos);
            lemma_markers_concat(s1.end_pos, end_marks(ap.e_pos, key, ph as u16, temp), r);
            lemma_end_marks_count(ap.e_pos, key, ph as u16, temp, r);
            lemma_stream_markers_update(st.streams, cpu, s2, r, ap.ncp);
        }
    }
}

/// End positions are matched by the full position of a cell: over all
/// senders, the end markers for receiver `r` are exactly one for each end
/// position of `e_pos` for `r` and each non-zero cell of the mapping whose
/// channel, row and column (as `u16`) are that position.
pub proof fn lemma_end_markers_match_cells(
    raw: Seq<Vec<Vec<u128>>>,
    num_cpus_previous: u8,
    e_pos: Seq<(u8, Vec<u16>)>,
    core_shape: Seq<usize>,
    portions: Seq<u8>,
    r: u8,
)
    requires
        raw.len() > 0,
        analysis_defined(raw, num_cpus_previous, e_pos, core_shape, portions),
    ensures
        stream_markers(
            final_analysis(raw, num_cpus_previous, e_pos, core_shape, portions).streams,
            r,
            num_cpus_previous as int,
        ) == named_cell_ends(
            mapping_cells(raw),
            end_positions_of(e_pos),
            r,
            mapping_cells(raw).len() as int,
        ),
{
    let ap = analysis_params(num_cpus_previous, e_pos, core_shape, portions);
    let cells = mapping_cells(raw);
    lemma_run_markers(ap, cells, r, cells.len() as int);
}

/// Marker `m` names a phase `ph` (as `u16`) of `count` and an offset below
/// that phase's count.
pub open spec fn marker_in_phase(count: Seq<u16>, m: (u16, u8, u16)) -> bool {
    exists|ph: int| 0 <= ph < count.len() && ph as u16 == m.0 && m.2 < #[trigger] count[ph]
}

/// Every end marker and padding offset of the stream points at a value the
/// stream sends: the marker's phase (as `u16`) is one of the stream's
/// phases and its offset is below that phase's count, and each phase's
/// padding offsets are below its count.
pub open spec fn marks_point_into(s: PhaseStream) -> bool {
    &&& s.padding_pos.len() == s.count.len()
    &&& forall|x: int| 0 <= x < s.end_pos.len() ==> marker_in_phase(s.count, #[trigger] s.end_pos[x])
    &&& forall|ph: int, y: int|
        0 <= ph < s.count.len() && 0 <= y < s.padding_pos[ph].len() ==> #[trigger] s.padding_pos[ph][y]
            < s.count[ph]
}

proof fn lemma_open_points(s: PhaseStream)
    requires
        marks_point_into(s),
    ensures
        marks_point_into(open_stream(s)),
{
    if s.count.len() == 0 {
        if s.end_pos.len() > 0 {
            assert(marker_in_phase(s.count, s.end_pos[0]));
        }
        assert(s.end_pos.len() == 0);
        let s2 = open_stream(s);
        assert(s2.end_pos.len() == 0);
        assert forall|ph: int, y: int| 0 <= ph < s2.count.len() && 0 <= y < s2.padding_pos[ph].len() implies #[trigger] s2.padding_pos[ph][y]
            < s2.count[ph] by {
            assert(s2.padding_pos[ph] =~= Seq::<u16>::empty());
        }
    }
}

proof fn lemma_advance_points(s: PhaseStream, next: Seq<u8>)
    requires
        marks_point_into(s),
        s.count.len() > 0,
        s.map.len() == s.count.len(),
    ensures
        marks_point_into(advance_phase(s, next)),
{
    let s2 = advance_phase(s, next);
    let last = s.count.len() - 1;
    if next != s.map[last] && s.map[last].len() > 0 {
        assert(s2.end_pos == s.end_pos);
        assert forall|x: int| 0 <= x < s2.end_pos.len() implies marker_in_phase(s2.count, #[trigger] s2.end_pos[x]) by {
            let e = s.end_pos[x];
            assert(marker_in_phase(s.count, e));
            let ph = choose|ph: int| 0 <= ph < s.count.len() && ph as u16 == e.0 && e.2 < #[trigger] s.count[ph];
            assert(s2.count[ph] == s.count[ph]);
        }
        assert forall|ph: int, y: int| 0 <= ph < s2.count.len() && 0 <= y < s2.padding_pos[ph].len() implies #[trigger] s2.padding_pos[ph][y]
            < s2.count[ph] by {
            if ph < s.count.len() {
                assert(s2.padding_pos[ph] == s.padding_pos[ph]);
            }
        }
    }
}

proof fn lemma_end_marks_phase(e_pos: Seq<(u8, Seq<u16>)>, key: Seq<u16>, phase: u16, temp: u16)
    ensures
        forall|x: int|
            0 <= x < end_marks(e_pos, key, phase, temp).len() ==> (#[trigger] end_marks(e_pos, key, phase, temp)[x]).0
                == phase && end_marks(e_pos, key, phase, temp)[x].2 == temp,
    decreases e_pos.len(),
{
    if e_pos.len() > 0 {
        lemma_end_marks_phase(e_pos.drop_last(), key, phase, temp);
        let rest = end_marks(e_pos.drop_last(), key, phase, temp);
        let all = end_marks(e_pos, key, phase, temp);
        assert forall|x: int| 0 <= x < all.len() implies (#[trigger] all[x]).0 == phase && all[x].2 == temp by {
            if x < rest.len() {
                assert(all[x] == rest[x]);
            }
        }
    }
}

proof fn lemma_record_points(s: PhaseStream, next: Seq<u8>, pad: bool, key: Seq<u16>, e_pos: Seq<(u8, Seq<u16>)>)
    requires
        marks_point_into(s),
        s.count.len() > 0,
        s.map.len() == s.count.len(),
        s.count[s.count.len() - 1] < 65535,
    ensures
        marks_point_into(record_value(s, next, pad, key, e_pos)),
{
    let ph = s.count.len() - 1;
    let temp = s.count[ph];
    let s2 = record_value(s, next, pad, key, e_pos);
    let new_marks = end_marks(e_pos, key, ph as u16, temp);
    lemma_end_marks_phase(e_pos, key, ph as u16, temp);
    assert forall|x: int| 0 <= x < s2.end_pos.len() implies marker_in_phase(s2.count, #[trigger] s2.end_pos[x]) by {
        if x < s.end_pos.len() {
            assert(s2.end_pos[x] == s.end_pos[x]);
            let e = s.end_pos[x];
            assert(marker_in_phase(s.count, e));
            let p2 = choose|p2: int| 0 <= p2 < s.count.len() && p2 as u16 == e.0 && e.2 < #[trigger] s.count[p2];
            assert(s2.count[p2] >= s.count[p2]);
        } else {
            assert(s2.end_pos[x] == new_marks[x - s.end_pos.len()]);
            assert(s2.count[ph] == temp + 1);
        }
    }
    assert forall|p2: int, y: int| 0 <= p2 < s2.count.len() && 0 <= y < s2.padding_pos[p2].len() implies #[trigger] s2.padding_pos[p2][y]
        < s2.count[p2] by {
        if p2 == ph && pad && y == s.padding_pos[ph].len() {
            assert(s2.padding_pos[p2][y] == temp);
        } else {
            assert(s2.padding_pos[p2][y] == s.padding_pos[p2][y]);
            assert(s2.count[p2] >= s.count[p2]);
        }
    }
}

proof fn lemma_run_points(ap: AnalysisParams, cells: Seq<(usize, usize, usize, u128)>, n: int)
    requires
        ap.ncp >= 0,
        0 <= n <= cells.len(),
        run_analysis(ap, cells, n).ok,
    ensures
        run_analysis(ap, cells, n).streams.len() == ap.ncp,
        forall|x: int|
            0 <= x < ap.ncp ==> {
                &&& marks_point_into(#[trigger] run_analysis(ap, cells, n).streams[x])
                &&& run_analysis(ap, cells, n).streams[x].map.len() == run_analysis(ap, cells, n).streams[x].count.len()
            },
    decreases n,
{
    if n > 0 {
        lemma_run_ok_prefix(ap, cells, n - 1, n);
        lemma_run_points(ap, cells, n - 1);
        let st = run_analysis(ap, cells, n - 1);
        let (i, j, k, v) = cells[n - 1];
        if v != 0 {
            let pad = is_padding_cell(v);
            let cpu = sender_of(ap, st.core_count);
            let next = set_bits_below(v, 127);
            let so = open_stream(st.streams[cpu]);
            lemma_open_points(st.streams[cpu]);
            let s1 = advance_phase(so, next);
            lemma_advance_points(so, next);
            let key = seq![i as u16, j as u16, k as u16];
            lemma_record_points(s1, next, pad, key, ap.e_pos);
        }
    }
}

/// Every end marker points at a value its sender sends: for each sender
/// of the reduced result, each end marker names one of its phases and an
/// offset below that phase's count, and each padding offset lies below
/// its phase's count.
pub proof fn lemma_end_markers_point_at_sent_values(
    raw: Seq<Vec<Vec<u128>>>,
    num_cpus_previous: u8,
    e_pos: Seq<(u8, Vec<u16>)>,
    core_shape: Seq<usize>,
    portions: Seq<u8>,
    x: int,
)
    requires
        raw.len() > 0,
        analysis_defined(raw, num_cpus_previous, e_pos, core_shape, portions),
        0 <= x < num_cpus_previous,
    ensures
        marks_point_into(reduced_stream(final_analysis(raw, num_cpus_previous, e_pos, core_shape, portions).streams[x])),
{
    let ap = analysis_params(num_cpus_previous, e_pos, core_shape, portions);
    let cells = mapping_cells(raw);
    lemma_run_points(ap, cells, cells.len() as int);
    let s = run_analysis(ap, cells, cells.len() as int).streams[x];
    lemma_run_counts_positive(ap, cells, cells.len() as int);
    lemma_keep_nonzero_all(s.count);
    assert(s.padding_pos.take(s.count.len() as int) =~= s.padding_pos);
}

proof fn lemma_run_counts_positive(ap: AnalysisParams, cells: Seq<(usize, usize, usize, u128)>, n: int)
    requires
        ap.ncp >= 0,
        0 <= n <= cells.len(),
        run_analysis(ap, cells, n).ok,
    ensures
        forall|x: int, ph: int|
            0 <= x < ap.ncp && 0 <= ph < run_analysis(ap, cells, n).streams[x].count.len() ==> #[trigger] run_analysis(
                ap,
                cells,
                n,
            ).streams[x].count[ph] >= 1,
    decreases n,
{
    if n > 0 {
        lemma_run_ok_prefix(ap, cells, n - 1, n);
        lemma_run_counts_positive(ap, cells, n - 1);
        lemma_run_points(ap, cells, n - 1);
        let st = run_analysis(ap, cells, n - 1);
        let st2 = run_analysis(ap, cells, n);
        let (i, j, k, v) = cells[n - 1];
        if v != 0 {
            let cpu = sender_of(ap, st.core_count);
            let next = set_bits_below(v, 127);
            let s1 = advance_phase(open_stream(st.streams[cpu]), next);
            let last = s1.count.len() - 1;
            assert forall|x: int, ph: int| 0 <= x < ap.ncp && 0 <= ph < st2.streams[x].count.len() implies #[trigger] st2.streams[x].count[ph]
                >= 1 by {
                if x == cpu && ph != last {
                    assert(st2.streams[x].count[ph] == s1.count[ph]);
                    if ph < st.streams[cpu].count.len() {
                        assert(s1.count[ph] == st.streams[cpu].count[ph]);
                    }
                }
            }
        }
    }
}

/// The cell at position `pos` (channel, row, column) lies in the first box
/// of `raw` and is not zero.
pub open spec fn names_nonzero_cell(raw: Seq<Vec<Vec<u128>>>, pos: Seq<u16>) -> bool {
    &&& pos.len() == 3
    &&& in_first_box(raw, pos[0] as int, pos[1] as int, pos[2] as int)
    &&& raw[pos[0] as int]@[pos[1] as int]@[pos[2] as int] != 0
}

/// Number of end positions of `e_pos` for receiver `r` that name a
/// non-zero cell of the first box of `raw`.
pub open spec fn ends_at_nonzero_cells(raw: Seq<Vec<Vec<u128>>>, e_pos: Seq<(u8, Seq<u16>)>, r: u8) -> int
    decreases e_pos.len(),
{
    if e_pos.len() == 0 {
        0
    } else {
        ends_at_nonzero_cells(raw, e_pos.drop_last(), r) + if e_pos.last().0 == r && names_nonzero_cell(
            raw,
            e_pos.last().1,
        ) {
            1int
        } else {
            0int
        }
    }
}

/// Number of non-zero cells among the first `n` whose position is `pos`.
spec fn cells_at(cells: Seq<(usize, usize, usize, u128)>, pos: Seq<u16>, n: int) -> int
    decreases n,
{
    if n <= 0 {
        0
    } else {
        cells_at(cells, pos, n - 1) + if cells[n - 1].3 != 0 && seq![
            cells[n - 1].0 as u16,
            cells[n - 1].1 as u16,
            cells[n - 1].2 as u16,
        ] == pos {
            1int
        } else {
            0int
        }
    }
}

proof fn lemma_cells_at_concat(a: Seq<(usize, usize, usize, u128)>, b: Seq<(usize, usize, usize, u128)>, pos: Seq<u16>, m: int)
    requires
        0 <= m <= b.len(),
    ensures
        cells_at(a + b, pos, a.len() + m) == cells_at(a, pos, a.len() as int) + cells_at(b, pos, m),
    decreases m,
{
    if m == 0 {
        lemma_cells_at_prefix(a + b, a, pos, a.len() as int);
    } else {
        lemma_cells_at_concat(a, b, pos, m - 1);
        assert((a + b)[a.len() + m - 1] == b[m - 1]);
    }
}

proof fn lemma_cells_at_prefix(s: Seq<(usize, usize, usize, u128)>, t: Seq<(usize, usize, usize, u128)>, pos: Seq<u16>, n: int)
    requires
        0 <= n <= s.len(),
        n <= t.len(),
        forall|x: int| 0 <= x < n ==> s[x] == t[x],
    ensures
        cells_at(s, pos, n) == cells_at(t, pos, n),
    decreases n,
{
    if n > 0 {
        lemma_cells_at_prefix(s, t, pos, n - 1);
    }
}

proof fn lemma_key_matches(i: int, j: int, c: int, pos: Seq<u16>)
    requires
        0 <= i < 65536,
        0 <= j < 65536,
        0 <= c < 65536,
    ensures
        (seq![i as usize as u16, j as usize as u16, c as usize as u16] == pos) <==> (pos.len() == 3 && pos[0] == i
            && pos[1] == j && pos[2] == c),
{
    let key = seq![i as usize as u16, j as usize as u16, c as usize as u16];
    if pos.len() == 3 && pos[0] == i && pos[1] == j && pos[2] == c {
        assert(key =~= pos);
    }
}

proof fn lemma_column_cells_at(raw: Seq<Vec<Vec<u128>>>, i: int, j: int, k: int, pos: Seq<u16>)
    requires
        0 <= i < raw.len(),
        0 <= j < raw[i]@.len(),
        0 <= k <= raw[i]@[j]@.len(),
        i < 65536,
        j < 65536,
        k <= 65536,
    ensures
        column_cells(raw, i, j, k).len() == k,
        cells_at(column_cells(raw, i, j, k), pos, k) == if pos.len() == 3 && pos[0] == i && pos[1] == j && pos[2] < k
            && raw[i]@[j]@[pos[2] as int] != 0 {
            1int
        } else {
            0int
        },
    decreases k,
{
    if k > 0 {
        lemma_column_cells_at(raw, i, j, k - 1, pos);
        let prev = column_cells(raw, i, j, k - 1);
        let cur = column_cells(raw, i, j, k);
        lemma_cells_at_prefix(cur, prev, pos, k - 1);
        lemma_key_matches(i, j, k - 1, pos);
    }
}

proof fn lemma_row_cells_at(raw: Seq<Vec<Vec<u128>>>, i: int, j: int, d2: int, pos: Seq<u16>)
    requires
        0 <= i < raw.len(),
        0 <= j <= raw[i]@.len(),
        0 <= d2,
        forall|b: int| 0 <= b < j ==> d2 <= (#[trigger] raw[i]@[b])@.len(),
        i < 65536,
        j <= 65536,
        d2 <= 65536,
    ensures
        cells_at(row_cells(raw, i, j, d2), pos, row_cells(raw, i, j, d2).len() as int) == if pos.len() == 3 && pos[0]
            == i && pos[1] < j && pos[2] < d2 && raw[i]@[pos[1] as int]@[pos[2] as int] != 0 {
            1int
        } else {
            0int
        },
    decreases j,
{
    if j > 0 {
        lemma_row_cells_at(raw, i, j - 1, d2, pos);
        lemma_column_cells_at(raw, i, j - 1, d2, pos);
        let a = row_cells(raw, i, j - 1, d2);
        let b = column_cells(raw, i, j - 1, d2);
        lemma_cells_at_concat(a, b, pos, b.len() as int);
    }
}

proof fn lemma_box_cells_at(raw: Seq<Vec<Vec<u128>>>, i: int, d1: int, d2: int, pos: Seq<u16>)
    requires
        0 <= i <= raw.len(),
        0 <= d1,
        0 <= d2,
        forall|a: int| 0 <= a < i ==> d1 <= (#[trigger] raw[a])@.len(),
        forall|a: int, b: int| 0 <= a < i && 0 <= b < d1 ==> d2 <= (#[trigger] raw[a]@[b])@.len(),
        raw.len() <= 65536,
        d1 <= 65536,
        d2 <= 65536,
    ensures
        cells_at(box_cells(raw, i, d1, d2), pos, box_cells(raw, i, d1, d2).len() as int) == if pos.len() == 3
            && pos[0] < i && pos[1] < d1 && pos[2] < d2 && raw[pos[0] as int]@[pos[1] as int]@[pos[2] as int] != 0 {
            1int
        } else {
            0int
        },
    decreases i,
{
    if i > 0 {
        lemma_box_cells_at(raw, i - 1, d1, d2, pos);
        assert forall|b: int| 0 <= b < d1 implies d2 <= (#[trigger] raw[i - 1]@[b])@.len() by {
            assert(d2 <= raw[i - 1]@[b]@.len());
        }
        lemma_row_cells_at(raw, i - 1, d1, d2, pos);
        let a = box_cells(raw, i - 1, d1, d2);
        let b = row_cells(raw, i - 1, d1, d2);
        lemma_cells_at_concat(a, b, pos, b.len() as int);
    }
}

proof fn lemma_named_ends_split(cells: Seq<(usize, usize, usize, u128)>, e_pos: Seq<(u8, Seq<u16>)>, r: u8, n: int)
    requires
        e_pos.len() > 0,
        0 <= n,
    ensures
        named_cell_ends(cells, e_pos, r, n) == named_cell_ends(cells, e_pos.drop_last(), r, n) + if e_pos.last().0
            == r {
            cells_at(cells, e_pos.last().1, n)
        } else {
            0
        },
    decreases n,
{
    if n > 0 {
        lemma_named_ends_split(cells, e_pos, r, n - 1);
        let key = seq![cells[n - 1].0 as u16, cells[n - 1].1 as u16, cells[n - 1].2 as u16];
        assert(end_positions_at(e_pos, r, key) == end_positions_at(e_pos.drop_last(), r, key) + if e_pos.last().0
            == r && e_pos.last().1 == key {
            1int
        } else {
            0int
        });
    }
}

proof fn lemma_named_ends_count(raw: Seq<Vec<Vec<u128>>>, e_pos: Seq<(u8, Seq<u16>)>, r: u8)
    requires
        raw.len() > 0,
        covers_first_box(raw),
        raw.len() <= 65536,
        box_rows(raw) <= 65536,
        box_cols(raw) <= 65536,
    ensures
        named_cell_ends(mapping_cells(raw), e_pos, r, mapping_cells(raw).len() as int) == ends_at_nonzero_cells(
            raw,
            e_pos,
            r,
        ),
    decreases e_pos.len(),
{
    let cells = mapping_cells(raw);
    if e_pos.len() == 0 {
        lemma_named_ends_empty(cells, e_pos, r, cells.len() as int);
    } else {
        lemma_named_ends_count(raw, e_pos.drop_last(), r);
        lemma_named_ends_split(cells, e_pos, r, cells.len() as int);
        let (d1, d2) = (box_rows(raw), box_cols(raw));
        assert forall|a: int, b: int| 0 <= a < raw.len() && 0 <= b < d1 implies d2 <= (#[trigger] raw[a]@[b])@.len() by {
            if d1 > 0 {
                assert(raw[a]@[b]@.len() >= raw[0]@[0]@.len());
            }
        }
        lemma_box_cells_at(raw, raw.len() as int, d1, d2, e_pos.last().1);
    }
}

proof fn lemma_named_ends_empty(cells: Seq<(usize, usize, usize, u128)>, e_pos: Seq<(u8, Seq<u16>)>, r: u8, n: int)
    requires
        e_pos.len() == 0,
    ensures
        named_cell_ends(cells, e_pos, r, n) == 0,
    decreases n,
{
    if n > 0 {
        lemma_named_ends_empty(cells, e_pos, r, n - 1);
    }
}

/// Each end position that names a non-zero cell of the mapping gives its
/// receiver exactly one end marker: when the mapping's sides fit in `u16`
/// positions, the end markers for receiver `r` over all senders are as
/// many as the end positions of `e_pos` for `r` that name a non-zero cell
/// (channel, row and column all matching).
pub proof fn lemma_one_end_marker_per_named_cell(
    raw: Seq<Vec<Vec<u128>>>,
    num_cpus_previous: u8,
    e_pos: Seq<(u8, Vec<u16>)>,
    core_shape: Seq<usize>,
    portions: Seq<u8>,
    r: u8,
)
    requires
        raw.len() > 0,
        analysis_defined(raw, num_cpus_previous, e_pos, core_shape, portions),
        raw.len() <= 65536,
        box_rows(raw) <= 65536,
        box_cols(raw) <= 65536,
    ensures
        stream_markers(
            final_analysis(raw, num_cpus_previous, e_pos, core_shape, portions).streams,
            r,
            num_cpus_previous as int,
        ) == ends_at_nonzero_cells(raw, end_positions_of(e_pos), r),
{
    lemma_end_markers_match_cells(raw, num_cpus_previous, e_pos, core_shape, portions, r);
    lemma_named_ends_count(raw, end_positions_of(e_pos), r);
}

} // verus!
