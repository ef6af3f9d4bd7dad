use vstd::prelude::*;

use crate::layer::{ConvMapping, InfoWrapper, Layer};
use crate::partition::{find_which_cpu, spec_which_cpu, which_cpu_defined};
use crate::util::bit_set;

verus! {

/// The flag bit that marks a cell of the input mapping as zero padding.
pub open spec fn padding_flag() -> u128 {
    1u128 << 127u8
}

/// Half the zero padding on each side for a kernel extent `k`: the kernel
/// extent read as `u16`, halved.
pub open spec fn pad_half(k: i32) -> int {
    ((k as u16) / 2) as int
}

/// `m` is a `d0 x d1 x d2` box of cells.
pub open spec fn is_box(m: Seq<Vec<Vec<u128>>>, d0: int, d1: int, d2: int) -> bool {
    &&& m.len() == d0
    &&& forall|a: int| 0 <= a < d0 ==> (#[trigger] m[a])@.len() == d1
    &&& forall|a: int, b: int| 0 <= a < d0 && 0 <= b < d1 ==> (#[trigger] m[a]@[b])@.len() == d2
}

/// The cell at (a, b, c).
pub open spec fn cell(m: Seq<Vec<Vec<u128>>>, a: int, b: int, c: int) -> u128 {
    m[a]@[b]@[c]
}

/// Flattened number of output (j, k, m) in row-major order.
pub open spec fn output_number(o1: int, o2: int, j: int, k: int, m: int) -> int {
    j * (o1 * o2) + k * o2 + m
}

/// The processor that computes output number `n`: 0 for the first output,
/// then as `find_which_cpu` assigns it.
pub open spec fn cpu_of_output(portions: Seq<u8>, oc: i32, n: int) -> int {
    if n == 0 {
        0
    } else {
        spec_which_cpu(portions, n as i32, oc as u32)
    }
}

/// The input positions output (j, k, m) reads.
pub open spec fn inputs_of<L: Layer>(layer: L, j: int, k: int, m: int) -> Seq<Seq<i32>> {
    layer.spec_input(seq![j as i32, k as i32, m as i32])
}

/// Input `q` of output (j, k, m) lands in cell (a, b, c) of the padded
/// input box.
pub open spec fn lands_in<L: Layer>(
    layer: L,
    half0: int,
    half1: int,
    j: int,
    k: int,
    m: int,
    q: int,
    a: int,
    b: int,
    c: int,
) -> bool {
    let pos = inputs_of(layer, j, k, m);
    &&& 0 <= q < pos.len()
    &&& pos[q][0] == a
    &&& pos[q][1] + half0 == b
    &&& pos[q][2] + half1 == c
}

/// One of the first `p` inputs of output (j, k, m) lands in (a, b, c).
pub open spec fn read_among<L: Layer>(
    layer: L,
    half0: int,
    half1: int,
    j: int,
    k: int,
    m: int,
    p: int,
    a: int,
    b: int,
    c: int,
) -> bool {
    exists|q: int| 0 <= q < p && #[trigger] lands_in(layer, half0, half1, j, k, m, q, a, b, c)
}

/// Output (j, k, m) reads cell (a, b, c).
pub open spec fn reads<L: Layer>(
    layer: L,
    half0: int,
    half1: int,
    j: int,
    k: int,
    m: int,
    a: int,
    b: int,
    c: int,
) -> bool {
    read_among(layer, half0, half1, j, k, m, inputs_of(layer, j, k, m).len() as int, a, b, c)
}

/// Cell (b, c) of a padded plane lies in the zero padding border.
pub open spec fn is_padding(half0: int, half1: int, in1: int, in2: int, b: int, c: int) -> bool {
    ((b > in1 || b == 0) && half0 != 0) || ((c > in2 || c == 0) && half1 != 0)
}

/// The parameters of a convolution's input mapping: the layer, the
/// processor portions, the output count, the output plane (o1 x o2), the
/// padding halves and the unpadded input plane (in1 x in2).
pub struct MappingParams<L> {
    pub layer: L,
    pub portions: Seq<u8>,
    pub oc: i32,
    pub o1: int,
    pub o2: int,
    pub half0: int,
    pub half1: int,
    pub in1: int,
    pub in2: int,
}

/// The bits output (j, k, m) adds to cell (a, b, c): its processor's bit,
/// and the padding flag for a border cell, when it reads the cell.
pub open spec fn contribution<L: Layer>(
    mp: MappingParams<L>,
    j: int,
    k: int,
    m: int,
    a: int,
    b: int,
    c: int,
) -> u128 {
    if reads(mp.layer, mp.half0, mp.half1, j, k, m, a, b, c) {
        (1u128 << (cpu_of_output(mp.portions, mp.oc, output_number(mp.o1, mp.o2, j, k, m)) as u8))
            | (if is_padding(mp.half0, mp.half1, mp.in1, mp.in2, b, c) {
            padding_flag()
        } else {
            0u128
        })
    } else {
        0u128
    }
}

/// Cell value `v` after also recording outputs (j, k, 0..m).
pub open spec fn fold_columns<L: Layer>(
    mp: MappingParams<L>,
    v: u128,
    j: int,
    k: int,
    m: int,
    a: int,
    b: int,
    c: int,
) -> u128
    decreases m,
{
    if m <= 0 {
        v
    } else {
        fold_columns(mp, v, j, k, m - 1, a, b, c) | contribution(mp, j, k, m - 1, a, b, c)
    }
}

/// Cell value `v` after also recording outputs (j, 0..k, all columns).
pub open spec fn fold_rows<L: Layer>(
    mp: MappingParams<L>,
    v: u128,
    j: int,
    k: int,
    a: int,
    b: int,
    c: int,
) -> u128
    decreases k,
{
    if k <= 0 {
        v
    } else {
        fold_columns(mp, fold_rows(mp, v, j, k - 1, a, b, c), j, k - 1, mp.o2, a, b, c)
    }
}

/// Cell value after recording outputs (0..j, all rows, all columns).
pub open spec fn fold_channels<L: Layer>(mp: MappingParams<L>, j: int, a: int, b: int, c: int) -> u128
    decreases j,
{
    if j <= 0 {
        0u128
    } else {
        fold_rows(mp, fold_channels(mp, j - 1, a, b, c), j - 1, mp.o1, a, b, c)
    }
}


/// Product of the first `n` entries of a shape.
pub open spec fn shape_product(s: Seq<i32>, n: int) -> int
    decreases n,
{
    if n <= 0 {
        1
    } else {
        shape_product(s, n - 1) * s[n - 1]
    }
}

/// Every partial product of the shape fits in an `i32`.
pub open spec fn shape_product_fits(s: Seq<i32>) -> bool {
    forall|n: int| 1 <= n <= s.len() ==> i32::MIN <= #[trigger] shape_product(s, n) <= i32::MAX
}

/// Number of outputs of the layer.
pub open spec fn output_count_of<L: Layer>(layer: L) -> int {
    shape_product(layer.spec_output_shape(), layer.spec_output_shape().len() as int)
}

/// Number of outputs the three nested output loops visit.
pub open spec fn visited_outputs(o0: int, o1: int, o2: int) -> int {
    if o0 > 0 && o1 > 0 && o2 > 0 {
        o0 * (o1 * o2)
    } else {
        0
    }
}

/// The mapping parameters of a convolution layer `conv` with input shape
/// `input_shape`.
pub open spec fn mapping_params<L: Layer>(
    layer: L,
    conv: ConvMapping,
    input_shape: Seq<usize>,
    portions: Seq<u8>,
) -> MappingParams<L> {
    let out = layer.spec_output_shape();
    MappingParams {
        layer: layer,
        portions: portions,
        oc: output_count_of(layer) as i32,
        o1: out[1] as int,
        o2: out[2] as int,
        half0: pad_half(conv.k.0),
        half1: pad_half(conv.k.1),
        in1: input_shape[1] as int,
        in2: input_shape[2] as int,
    }
}

/// The inputs of output (j, k, m) all name a cell of the padded input box.
pub open spec fn inputs_in_box<L: Layer>(
    layer: L,
    half0: int,
    half1: int,
    d0: int,
    d1: int,
    d2: int,
    j: int,
    k: int,
    m: int,
) -> bool {
    let pos = inputs_of(layer, j, k, m);
    forall|q: int|
        0 <= q < pos.len() ==> {
            &&& (#[trigger] pos[q]).len() >= 3
            &&& 0 <= pos[q][0] < d0
            &&& i32::MIN <= pos[q][1] + half0 <= i32::MAX
            &&& 0 <= pos[q][1] + half0 < d1
            &&& i32::MIN <= pos[q][2] + half1 <= i32::MAX
            &&& 0 <= pos[q][2] + half1 < d2
        }
}

/// The inputs on which building the input mapping of convolution `conv`
/// does not panic: the shapes have three dimensions, the padded plane and
/// the output count fit, every processor number `find_which_cpu` is asked
/// for is defined and below 128, and every input position an output reads
/// lies in the padded input box.
pub open spec fn conv_mapping_defined<L: Layer>(
    layer: L,
    conv: ConvMapping,
    input_shape: Seq<usize>,
    portions: Seq<u8>,
) -> bool {
    let out = layer.spec_output_shape();
    let mp = mapping_params(layer, conv, input_shape, portions);
    let n_out = visited_outputs(out[0] as int, out[1] as int, out[2] as int);
    &&& input_shape.len() >= 3
    &&& out.len() >= 3
    &&& input_shape[1] + 2 * mp.half0 <= usize::MAX
    &&& input_shape[2] + 2 * mp.half1 <= usize::MAX
    &&& n_out <= i32::MAX
    &&& forall|n: int|
        1 <= n <= n_out ==> #[trigger] which_cpu_defined(portions, n as i32, mp.oc as u32)
    &&& forall|n: int| 1 <= n < n_out ==> #[trigger] spec_which_cpu(portions, n as i32, mp.oc as u32) < 128
    &&& forall|j: int, k: int, m: int|
        0 <= j < out[0] && 0 <= k < out[1] && 0 <= m < out[2] ==> #[trigger] inputs_in_box(
            layer,
            mp.half0,
            mp.half1,
            input_shape[0] as int,
            input_shape[1] + 2 * mp.half0,
            input_shape[2] + 2 * mp.half1,
            j,
            k,
            m,
        )
}

/// The inputs on which `get_input_mapping` does not panic.
pub open spec fn input_mapping_defined<L: Layer>(
    layer: L,
    total_cpu_count: u8,
    input_shape: Seq<usize>,
    portions: Seq<u8>,
) -> bool {
    &&& total_cpu_count == portions.len() as u8
    &&& shape_product_fits(layer.spec_output_shape())
    &&& match layer.spec_info() {
        InfoWrapper::Convolution(conv) => conv_mapping_defined(layer, conv, input_shape, portions),
        _ => true,
    }
}

/// The input mapping of a convolution: cell (a, b, c) of the zero-padded
/// input holds the bit of every processor with an output that reads it,
/// and the padding flag when it lies in the padding border.
pub open spec fn conv_mapping_cell<L: Layer>(
    layer: L,
    conv: ConvMapping,
    input_shape: Seq<usize>,
    portions: Seq<u8>,
    a: int,
    b: int,
    c: int,
) -> u128 {
    let mp = mapping_params(layer, conv, input_shape, portions);
    fold_channels(mp, layer.spec_output_shape()[0] as int, a, b, c)
}

proof fn lemma_or_step(base: u128, bit: u128, flag: u128)
    by (bit_vector)
    ensures
        (base | (bit | flag)) | bit | flag == base | (bit | flag),
        base | bit | flag == base | (bit | flag),
        (base | (bit | 0u128)) | bit == base | (bit | 0u128),
        base | bit == base | (bit | 0u128),
        base | 0u128 == base,
{
}

proof fn lemma_output_number_step(o0: int, o1: int, o2: int, j: int, k: int, m: int)
    requires
        0 <= j < o0,
        0 <= k < o1,
        0 <= m < o2,
    ensures
        output_number(o1, o2, j, k, m) + 1 <= visited_outputs(o0, o1, o2),
        output_number(o1, o2, j, k, o2) == output_number(o1, o2, j, k + 1, 0),
        output_number(o1, o2, j, o1, 0) == output_number(o1, o2, j + 1, 0, 0),
        output_number(o1, o2, j, k, m) >= 0,
{
    assert(output_number(o1, o2, j, k, m) + 1 <= o0 * (o1 * o2)) by (nonlinear_arith)
        requires
            0 <= j < o0,
            0 <= k < o1,
            0 <= m < o2,
    ;
    assert(output_number(o1, o2, j, k, o2) == output_number(o1, o2, j, k + 1, 0))
        by (nonlinear_arith);
    assert(output_number(o1, o2, j, o1, 0) == output_number(o1, o2, j + 1, 0, 0))
        by (nonlinear_arith);
    assert(output_number(o1, o2, j, k, m) >= 0) by (nonlinear_arith)
        requires
            0 <= j < o0,
            0 <= k < o1,
            0 <= m < o2,
    ;
}

/// ORs `v` into cell (a, b, c) of a box.
fn or_cell(m: &mut Vec<Vec<Vec<u128>>>, d0: usize, d1: usize, d2: usize, a: usize, b: usize, c: usize, v: u128)
    requires
        is_box(old(m)@, d0 as int, d1 as int, d2 as int),
        a < d0,
        b < d1,
        c < d2,
    ensures
        is_box(final(m)@, d0 as int, d1 as int, d2 as int),
        forall|x: int, y: int, z: int|
            0 <= x < d0 && 0 <= y < d1 && 0 <= z < d2 ==> #[trigger] cell(final(m)@, x, y, z) == if x
                == a && y == b && z == c {
                cell(old(m)@, x, y, z) | v
            } else {
                cell(old(m)@, x, y, z)
            },
{
    let old_v = m[a][b][c];
    m[a][b][c] = old_v | v;
    proof {
        assert forall|x: int, y: int, z: int|
            0 <= x < d0 && 0 <= y < d1 && 0 <= z < d2 implies #[trigger] cell(m@, x, y, z) == if x
            == a && y == b && z == c {
            cell(old(m)@, x, y, z) | v
        } else {
            cell(old(m)@, x, y, z)
        } by {
            if x != a {
                assert(m@[x] == old(m)@[x]);
            } else if y != b {
                assert(m@[x]@[y] == old(m)@[x]@[y]);
            }
        }
    }
}

/// A `d0 x d1 x d2` box of zeros.
fn zero_box(d0: usize, d1: usize, d2: usize) -> (m: Vec<Vec<Vec<u128>>>)
    ensures
        is_box(m@, d0 as int, d1 as int, d2 as int),
        forall|x: int, y: int, z: int|
            0 <= x < d0 && 0 <= y < d1 && 0 <= z < d2 ==> #[trigger] cell(m@, x, y, z) == 0,
{
    let mut row: Vec<u128> = Vec::new();
    let mut z: usize = 0;
    while z < d2
        invariant
            z <= d2,
            row@.len() == z,
            forall|w: int| 0 <= w < z ==> row@[w] == 0,
        decreases d2 - z,
    {
        row.push(0);
        z = z + 1;
    }
    let mut plane: Vec<Vec<u128>> = Vec::new();
    let mut y: usize = 0;
    while y < d1
        invariant
            y <= d1,
            row@.len() == d2,
            forall|w: int| 0 <= w < d2 ==> row@[w] == 0,
            plane@.len() == y,
            forall|v: int| 0 <= v < y ==> (#[trigger] plane@[v])@ == row@,
        decreases d1 - y,
    {
        plane.push(row.clone());
        y = y + 1;
    }
    let mut m: Vec<Vec<Vec<u128>>> = Vec::new();
    let mut x: usize = 0;
    while x < d0
        invariant
            x <= d0,
            plane@.len() == d1,
            forall|v: int| 0 <= v < d1 ==> (#[trigger] plane@[v])@ == row@,
            row@.len() == d2,
            forall|w: int| 0 <= w < d2 ==> row@[w] == 0,
            m@.len() == x,
            forall|u: int| 0 <= u < x ==> (#[trigger] m@[u])@.len() == d1,
            forall|u: int, v: int| 0 <= u < x && 0 <= v < d1 ==> (#[trigger] m@[u]@[v])@ == row@,
        decreases d0 - x,
    {
        let copy = clone_plane(&plane);
        m.push(copy);
        x = x + 1;
    }
    m
}

fn clone_plane(plane: &Vec<Vec<u128>>) -> (r: Vec<Vec<u128>>)
    ensures
        r@.len() == plane@.len(),
        forall|v: int| 0 <= v < plane@.len() ==> (#[trigger] r@[v])@ == plane@[v]@,
{
    let mut r: Vec<Vec<u128>> = Vec::new();
    let mut y: usize = 0;
    while y < plane.len()
        invariant
            y <= plane@.len(),
            r@.len() == y,
            forall|v: int| 0 <= v < y ==> (#[trigger] r@[v])@ == plane@[v]@,
        decreases plane@.len() - y,
    {
        r.push(plane[y].clone());
        y = y + 1;
    }
    r
}


/// Records the inputs every output of convolution `conv` reads into a
/// zero box of the padded input's shape.
#[verifier::rlimit(50)]
fn conv_input_mapping<L: Layer>(
    layer: &L,
    conv: &ConvMapping,
    input_shape: &Vec<usize>,
    portions: &Vec<u8>,
    output_count: i32,
) -> (r: Vec<Vec<Vec<u128>>>)
    requires
        layer.spec_info() == InfoWrapper::Convolution(*conv),
        output_count == output_count_of(*layer),
        conv_mapping_defined(*layer, *conv, input_shape@, portions@),
    ensures
        is_box(
            r@,
            input_shape@[0] as int,
            input_shape@[1] + 2 * pad_half(conv.k.0),
            input_shape@[2] + 2 * pad_half(conv.k.1),
        ),
        forall|a: int, b: int, c: int|
            0 <= a < input_shape@[0] && 0 <= b < input_shape@[1] + 2 * pad_half(conv.k.0) && 0 <= c
                < input_shape@[2] + 2 * pad_half(conv.k.1) ==> #[trigger] cell(r@, a, b, c)
                == conv_mapping_cell(*layer, *conv, input_shape@, portions@, a, b, c),
{
    let ghost mp = mapping_params(*layer, *conv, input_shape@, portions@);
    let kernel_size: (u16, u16) = (conv.k.0 as u16, conv.k.1 as u16);
    let padding_numbers: (u16, u16) = (kernel_size.0 / 2 * 2, kernel_size.1 / 2 * 2);
    let half0: i32 = (padding_numbers.0 / 2) as i32;
    let half1: i32 = (padding_numbers.1 / 2) as i32;
    assert(half0 == mp.half0 && half1 == mp.half1);
    let in1 = input_shape[1];
    let in2 = input_shape[2];
    let d0 = input_shape[0];
    let d1 = in1 + padding_numbers.0 as usize;
    let d2 = in2 + padding_numbers.1 as usize;
    let mut mapping = zero_box(d0, d1, d2);
    let output_shape = layer.get_output_shape();
    let o0 = output_shape[0];
    let o1 = output_shape[1];
    let o2 = output_shape[2];
    assert(o1 == mp.o1 && o2 == mp.o2);
    let ghost n_out = visited_outputs(o0 as int, o1 as int, o2 as int);
    let mut count: i32 = 0;
    let mut which_cpu: u8 = 0;
    let mut j: i32 = 0;
    while j < o0
        invariant
            mp == mapping_params(*layer, *conv, input_shape@, portions@),
            conv_mapping_defined(*layer, *conv, input_shape@, portions@),
            output_count == mp.oc,
            o0 == layer.spec_output_shape()[0],
            o1 == mp.o1,
            o2 == mp.o2,
            n_out == visited_outputs(o0 as int, o1 as int, o2 as int),
            half0 == mp.half0,
            half1 == mp.half1,
            in1 == mp.in1,
            in2 == mp.in2,
            d0 == input_shape@[0],
            d1 == in1 + 2 * half0,
            d2 == in2 + 2 * half1,
            padding_numbers.0 == 2 * half0,
            padding_numbers.1 == 2 * half1,
            0 <= j,
            j <= o0 || o0 < 0,
            o0 <= 0 ==> j == 0,
            o1 > 0 && o2 > 0 ==> count == output_number(o1 as int, o2 as int, j as int, 0, 0),
            !(o1 > 0 && o2 > 0) ==> count == 0,
            count == 0 || (count <= n_out && o0 > 0 && o1 > 0 && o2 > 0),
            which_cpu == cpu_of_output(portions@, output_count, count as int),
            is_box(mapping@, d0 as int, d1 as int, d2 as int),
            forall|a: int, b: int, c: int|
                0 <= a < d0 && 0 <= b < d1 && 0 <= c < d2 ==> #[trigger] cell(mapping@, a, b, c)
                    == fold_channels(mp, j as int, a, b, c),
        decreases o0 - j,
    {
        let mut k: i32 = 0;
        while k < o1
            invariant
                mp == mapping_params(*layer, *conv, input_shape@, portions@),
                conv_mapping_defined(*layer, *conv, input_shape@, portions@),
                output_count == mp.oc,
                o0 == layer.spec_output_shape()[0],
                o1 == mp.o1,
                o2 == mp.o2,
                n_out == visited_outputs(o0 as int, o1 as int, o2 as int),
                half0 == mp.half0,
                half1 == mp.half1,
                in1 == mp.in1,
                in2 == mp.in2,
                d0 == input_shape@[0],
                d1 == in1 + 2 * half0,
                d2 == in2 + 2 * half1,
                padding_numbers.0 == 2 * half0,
                padding_numbers.1 == 2 * half1,
                0 <= j < o0,
                0 <= k <= o1 || o1 <= 0,
                o1 <= 0 ==> k == 0,
                k >= 0,
                o1 > 0 && o2 > 0 ==> count == output_number(o1 as int, o2 as int, j as int, k as int, 0),
                !(o1 > 0 && o2 > 0) ==> count == 0,
                count == 0 || (count <= n_out && o0 > 0 && o1 > 0 && o2 > 0),
                which_cpu == cpu_of_output(portions@, output_count, count as int),
                is_box(mapping@, d0 as int, d1 as int, d2 as int),
                forall|a: int, b: int, c: int|
                    0 <= a < d0 && 0 <= b < d1 && 0 <= c < d2 ==> #[trigger] cell(mapping@, a, b, c)
                        == fold_rows(mp, fold_channels(mp, j as int, a, b, c), j as int, k as int, a, b, c),
            decreases o1 - k,
        {
            let mut mm: i32 = 0;
            while mm < o2
                invariant
                    mp == mapping_params(*layer, *conv, input_shape@, portions@),
                    conv_mapping_defined(*layer, *conv, input_shape@, portions@),
                    output_count == mp.oc,
                    o0 == layer.spec_output_shape()[0],
                    o1 == mp.o1,
                    o2 == mp.o2,
                    n_out == visited_outputs(o0 as int, o1 as int, o2 as int),
                    half0 == mp.half0,
                    half1 == mp.half1,
                    in1 == mp.in1,
                    in2 == mp.in2,
                    d0 == input_shape@[0],
                    d1 == in1 + 2 * half0,
                    d2 == in2 + 2 * half1,
                    padding_numbers.0 == 2 * half0,
                    padding_numbers.1 == 2 * half1,
                    0 <= j < o0,
                    0 <= k < o1,
                    0 <= mm <= o2 || o2 <= 0,
                    o2 <= 0 ==> mm == 0,
                    mm >= 0,
                    o2 > 0 ==> count == output_number(o1 as int, o2 as int, j as int, k as int, mm as int),
                    o2 <= 0 ==> count == 0,
                    count <= n_out,
                    which_cpu == cpu_of_output(portions@, output_count, count as int),
                    is_box(mapping@, d0 as int, d1 as int, d2 as int),
                    forall|a: int, b: int, c: int|
                        0 <= a < d0 && 0 <= b < d1 && 0 <= c < d2 ==> #[trigger] cell(mapping@, a, b, c)
                            == fold_columns(
                            mp,
                            fold_rows(mp, fold_channels(mp, j as int, a, b, c), j as int, k as int, a, b, c),
                            j as int,
                            k as int,
                            mm as int,
                            a,
                            b,
                            c,
                        ),
                decreases o2 - mm,
            {
                proof {
                    lemma_output_number_step(o0 as int, o1 as int, o2 as int, j as int, k as int, mm as int);
                    assert(inputs_in_box(*layer, mp.half0, mp.half1, d0 as int, d1 as int, d2 as int, j as int, k as int, mm as int));
                    if count > 0 {
                        assert(spec_which_cpu(portions@, count, output_count as u32) < 128);
                    }
                }
                let mut position: Vec<i32> = Vec::new();
                position.push(j);
                position.push(k);
                position.push(mm);
                assert(position@ =~= seq![j, k, mm]);
                let pos = layer.get_input(position);
                let ghost inputs = inputs_of(*layer, j as int, k as int, mm as int);
                assert(pos.deep_view() == inputs);
                let bit: u128 = 1u128 << which_cpu;
                proof {
                    assert forall|a: int, b: int, c: int|
                        0 <= a < d0 && 0 <= b < d1 && 0 <= c < d2 implies #[trigger] cell(mapping@, a, b, c)
                        == fold_columns(
                            mp,
                            fold_rows(mp, fold_channels(mp, j as int, a, b, c), j as int, k as int, a, b, c),
                            j as int,
                            k as int,
                            mm as int,
                            a,
                            b,
                            c,
                        ) | 0u128 by {
                        lemma_or_step(cell(mapping@, a, b, c), 0u128, 0u128);
                    }
                }
                let mut p: usize = 0;
                while p < pos.len()
                    invariant
                        mp == mapping_params(*layer, *conv, input_shape@, portions@),
                        conv_mapping_defined(*layer, *conv, input_shape@, portions@),
                        output_count == mp.oc,
                        half0 == mp.half0,
                        half1 == mp.half1,
                        in1 == mp.in1,
                        in2 == mp.in2,
                        d0 == input_shape@[0],
                        d1 == in1 + 2 * half0,
                        d2 == in2 + 2 * half1,
                        padding_numbers.0 == 2 * half0,
                        padding_numbers.1 == 2 * half1,
                        p <= pos@.len(),
                        pos.deep_view() == inputs,
                        inputs == inputs_of(*layer, j as int, k as int, mm as int),
                        inputs_in_box(*layer, mp.half0, mp.half1, d0 as int, d1 as int, d2 as int, j as int, k as int, mm as int),
                        bit == 1u128 << (cpu_of_output(mp.portions, mp.oc, output_number(mp.o1, mp.o2, j as int, k as int, mm as int)) as u8),
                        is_box(mapping@, d0 as int, d1 as int, d2 as int),
                        forall|a: int, b: int, c: int|
                            0 <= a < d0 && 0 <= b < d1 && 0 <= c < d2 ==> #[trigger] cell(mapping@, a, b, c)
                                == fold_columns(
                                mp,
                                fold_rows(mp, fold_channels(mp, j as int, a, b, c), j as int, k as int, a, b, c),
                                j as int,
                                k as int,
                                mm as int,
                                a,
                                b,
                                c,
                            ) | (if read_among(*layer, half0 as int, half1 as int, j as int, k as int, mm as int, p as int, a, b, c) {
                                bit | (if is_padding(half0 as int, half1 as int, in1 as int, in2 as int, b, c) {
                                    padding_flag()
                                } else {
                                    0u128
                                })
                            } else {
                                0u128
                            }),
                    decreases pos@.len() - p,
                {
                    let ghost q = p as int;
                    assert(pos@[q]@ =~= pos.deep_view()[q]);
                    let a: usize = pos[p][0] as usize;
                    let b: usize = (pos[p][1] + half0) as usize;
                    let c: usize = (pos[p][2] + half1) as usize;
                    assert(lands_in(*layer, half0 as int, half1 as int, j as int, k as int, mm as int, q, a as int, b as int, c as int));
                    let ghost before = mapping@;
                    or_cell(&mut mapping, d0, d1, d2, a, b, c, bit);
                    let pad = (b > in1 || b == 0) && padding_numbers.0 != 0 || (c > in2 || c == 0)
                        && padding_numbers.1 != 0;
                    if pad {
                        or_cell(&mut mapping, d0, d1, d2, a, b, c, 1u128 << 127u8);
                    }
                    proof {
                        assert forall|x: int, y: int, z: int|
                            0 <= x < d0 && 0 <= y < d1 && 0 <= z < d2 implies #[trigger] cell(mapping@, x, y, z)
                            == fold_columns(
                                mp,
                                fold_rows(mp, fold_channels(mp, j as int, x, y, z), j as int, k as int, x, y, z),
                                j as int,
                                k as int,
                                mm as int,
                                x,
                                y,
                                z,
                            ) | (if read_among(*layer, half0 as int, half1 as int, j as int, k as int, mm as int, p + 1, x, y, z) {
                                bit | (if is_padding(half0 as int, half1 as int, in1 as int, in2 as int, y, z) {
                                    padding_flag()
                                } else {
                                    0u128
                                })
                            } else {
                                0u128
                            }) by {
                            let base = fold_columns(
                                mp,
                                fold_rows(mp, fold_channels(mp, j as int, x, y, z), j as int, k as int, x, y, z),
                                j as int,
                                k as int,
                                mm as int,
                                x,
                                y,
                                z,
                            );
                            let flag = if is_padding(half0 as int, half1 as int, in1 as int, in2 as int, y, z) {
                                padding_flag()
                            } else {
                                0u128
                            };
                            if x == a && y == b && z == c {
                                assert(read_among(*layer, half0 as int, half1 as int, j as int, k as int, mm as int, p + 1, x, y, z));
                                assert(pad == is_padding(half0 as int, half1 as int, in1 as int, in2 as int, y, z));
                                lemma_or_step(base, bit, flag);
                                if read_among(*layer, half0 as int, half1 as int, j as int, k as int, mm as int, p as int, x, y, z) {
                                    assert(cell(before, x, y, z) == base | (bit | flag));
                                } else {
                                    assert(cell(before, x, y, z) == base | 0u128);
                                }
                            } else {
                                if read_among(*layer, half0 as int, half1 as int, j as int, k as int, mm as int, p + 1, x, y, z) {
                                    let w = choose|w: int| 0 <= w < p + 1 && #[trigger] lands_in(*layer, half0 as int, half1 as int, j as int, k as int, mm as int, w, x, y, z);
                                    assert(w != q);
                                    assert(read_among(*layer, half0 as int, half1 as int, j as int, k as int, mm as int, p as int, x, y, z));
                                }
                            }
                        }
                    }
                    p = p + 1;
                }
                proof {
                    assert forall|a: int, b: int, c: int|
                        0 <= a < d0 && 0 <= b < d1 && 0 <= c < d2 implies #[trigger] cell(mapping@, a, b, c)
                        == fold_columns(
                            mp,
                            fold_rows(mp, fold_channels(mp, j as int, a, b, c), j as int, k as int, a, b, c),
                            j as int,
                            k as int,
                            mm + 1,
                            a,
                            b,
                            c,
                        ) by {
                        assert(pos@.len() == inputs.len());
                    }
                }
                count = count + 1;
                which_cpu = find_which_cpu(portions, count, output_count as u32);
                mm = mm + 1;
            }
            proof {
                if o2 > 0 {
                    lemma_output_number_step(o0 as int, o1 as int, o2 as int, j as int, k as int, 0);
                }
            }
            k = k + 1;
        }
        proof {
            if o1 > 0 && o2 > 0 {
                lemma_output_number_step(o0 as int, o1 as int, o2 as int, j as int, 0, 0);
                assert(output_number(o1 as int, o2 as int, j as int, o1 as int, 0) == output_number(o1 as int, o2 as int, j + 1, 0, 0));
            }
        }
        j = j + 1;
    }
    proof {
        assert(j == o0 || o0 <= 0);
        assert forall|a: int, b: int, c: int|
            0 <= a < d0 && 0 <= b < d1 && 0 <= c < d2 implies #[trigger] cell(mapping@, a, b, c)
            == conv_mapping_cell(*layer, *conv, input_shape@, portions@, a, b, c) by {
            if o0 <= 0 {
                assert(fold_channels(mp, j as int, a, b, c) == 0u128);
                assert(fold_channels(mp, o0 as int, a, b, c) == 0u128);
            }
            assert(layer.spec_output_shape()[0] == o0);
        }
    }
    mapping
}


/// The product of a shape's entries.
pub(crate) fn output_product(shape: &Vec<i32>) -> (r: i32)
    requires
        shape_product_fits(shape@),
    ensures
        r == shape_product(shape@, shape@.len() as int),
{
    let mut r: i32 = 1;
    let mut i: usize = 0;
    while i < shape.len()
        invariant
            i <= shape@.len(),
            shape_product_fits(shape@),
            r == shape_product(shape@, i as int),
        decreases shape@.len() - i,
    {
        assert(i32::MIN <= shape_product(shape@, i + 1) <= i32::MAX);
        r = r * shape[i];
        i = i + 1;
    }
    r
}

/// For every cell of the zero-padded input of a convolution layer, which
/// processors need it: bit `t` is set when an output that processor `t`
/// computes reads the cell, and bit 127 also marks cells of the padding
/// border.  Outputs are dealt to processors in proportion to `portions`
/// (see `find_which_cpu`).  Layers other than convolutions are passed whole
/// and get an empty mapping.
pub fn get_input_mapping<L: Layer>(
    layer: &L,
    total_cpu_count: u8,
    input_shape: Vec<usize>,
    portions: Vec<u8>,
) -> (r: Vec<Vec<Vec<u128>>>)
    requires
        input_mapping_defined(*layer, total_cpu_count, input_shape@, portions@),
    ensures
        match layer.spec_info() {
            InfoWrapper::Convolution(conv) => {
                &&& is_box(
                    r@,
                    input_shape@[0] as int,
                    input_shape@[1] + 2 * pad_half(conv.k.0),
                    input_shape@[2] + 2 * pad_half(conv.k.1),
                )
                &&& forall|a: int, b: int, c: int|
                    0 <= a < input_shape@[0] && 0 <= b < input_shape@[1] + 2 * pad_half(conv.k.0)
                        && 0 <= c < input_shape@[2] + 2 * pad_half(conv.k.1)
                        ==> #[trigger] cell(r@, a, b, c) == conv_mapping_cell(
                        *layer,
                        conv,
                        input_shape@,
                        portions@,
                        a,
                        b,
                        c,
                    )
            },
            _ => r@.len() == 0,
        },
{
    let output_shape = layer.get_output_shape();
    let output_count = output_product(&output_shape);
    match layer.get_info() {
        InfoWrapper::Convolution(conv) => {
            conv_input_mapping(layer, &conv, &input_shape, &portions, output_count)
        },
        _ => Vec::new(),
    }
}


proof fn lemma_bit_or(x: u128, y: u128, t: u128)
    by (bit_vector)
    requires
        t < 128,
    ensures
        ((x | y) >> t) & 1u128 == 1u128 <==> ((x >> t) & 1u128 == 1u128 || (y >> t) & 1u128
            == 1u128),
{
}

proof fn lemma_bit_single(s: u8, t: u128)
    by (bit_vector)
    requires
        s < 128,
        t < 128,
    ensures
        ((1u128 << s) >> t) & 1u128 == 1u128 <==> s as u128 == t,
        (0u128 >> t) & 1u128 != 1u128,
{
}

/// Output (j, k, m) sets bit `t` of cell (a, b, c): it reads the cell and
/// is computed by processor `t`, or `t` is the padding flag and the cell
/// lies in the padding border.
pub open spec fn marks<L: Layer>(mp: MappingParams<L>, t: int, j: int, k: int, m: int, a: int, b: int, c: int) -> bool {
    &&& reads(mp.layer, mp.half0, mp.half1, j, k, m, a, b, c)
    &&& (cpu_of_output(mp.portions, mp.oc, output_number(mp.o1, mp.o2, j, k, m)) == t || (t == 127
        && is_padding(mp.half0, mp.half1, mp.in1, mp.in2, b, c)))
}

proof fn lemma_contribution_bit<L: Layer>(mp: MappingParams<L>, t: int, j: int, k: int, m: int, a: int, b: int, c: int)
    requires
        0 <= t < 128,
        0 <= cpu_of_output(mp.portions, mp.oc, output_number(mp.o1, mp.o2, j, k, m)) < 128,
    ensures
        bit_set(contribution(mp, j, k, m, a, b, c), t) == marks(mp, t, j, k, m, a, b, c),
{
    let cpu = cpu_of_output(mp.portions, mp.oc, output_number(mp.o1, mp.o2, j, k, m));
    let tt = t as u128;
    lemma_bit_single(cpu as u8, tt);
    lemma_bit_single(127u8, tt);
    if reads(mp.layer, mp.half0, mp.half1, j, k, m, a, b, c) {
        let flag = if is_padding(mp.half0, mp.half1, mp.in1, mp.in2, b, c) {
            padding_flag()
        } else {
            0u128
        };
        lemma_bit_or(1u128 << (cpu as u8), flag, tt);
    }
}

/// Every output of the loops has a defined processor below 128.
pub open spec fn cpus_in_range<L: Layer>(mp: MappingParams<L>, o0: int) -> bool {
    forall|j: int, k: int, m: int|
        0 <= j < o0 && 0 <= k < mp.o1 && 0 <= m < mp.o2 ==> 0 <= #[trigger] cpu_of_output(
            mp.portions,
            mp.oc,
            output_number(mp.o1, mp.o2, j, k, m),
        ) < 128
}

proof fn lemma_fold_columns_bit<L: Layer>(mp: MappingParams<L>, o0: int, v: u128, t: int, j: int, k: int, m: int, a: int, b: int, c: int)
    requires
        0 <= t < 128,
        cpus_in_range(mp, o0),
        0 <= j < o0,
        0 <= k < mp.o1,
        m <= mp.o2,
    ensures
        bit_set(fold_columns(mp, v, j, k, m, a, b, c), t) == (bit_set(v, t) || exists|w: int|
            0 <= w < m && #[trigger] marks(mp, t, j, k, w, a, b, c)),
    decreases m,
{
    if m > 0 {
        lemma_fold_columns_bit(mp, o0, v, t, j, k, m - 1, a, b, c);
        lemma_contribution_bit(mp, t, j, k, m - 1, a, b, c);
        lemma_bit_or(fold_columns(mp, v, j, k, m - 1, a, b, c), contribution(mp, j, k, m - 1, a, b, c), t as u128);
        if exists|w: int| 0 <= w < m && #[trigger] marks(mp, t, j, k, w, a, b, c) {
            let w = choose|w: int| 0 <= w < m && #[trigger] marks(mp, t, j, k, w, a, b, c);
            if w < m - 1 {
                assert(exists|w2: int| 0 <= w2 < m - 1 && #[trigger] marks(mp, t, j, k, w2, a, b, c));
            }
        }
    }
}

proof fn lemma_fold_rows_bit<L: Layer>(mp: MappingParams<L>, o0: int, v: u128, t: int, j: int, k: int, a: int, b: int, c: int)
    requires
        0 <= t < 128,
        cpus_in_range(mp, o0),
        0 <= j < o0,
        k <= mp.o1,
    ensures
        bit_set(fold_rows(mp, v, j, k, a, b, c), t) == (bit_set(v, t) || exists|x: int, w: int|
            0 <= x < k && 0 <= w < mp.o2 && #[trigger] marks(mp, t, j, x, w, a, b, c)),
    decreases k,
{
    if k > 0 {
        let inner = fold_rows(mp, v, j, k - 1, a, b, c);
        lemma_fold_rows_bit(mp, o0, v, t, j, k - 1, a, b, c);
        lemma_fold_columns_bit(mp, o0, inner, t, j, k - 1, mp.o2, a, b, c);
        if exists|x: int, w: int| 0 <= x < k && 0 <= w < mp.o2 && #[trigger] marks(mp, t, j, x, w, a, b, c) {
            let (x, w) = choose|x: int, w: int|
                0 <= x < k && 0 <= w < mp.o2 && #[trigger] marks(mp, t, j, x, w, a, b, c);
            if x < k - 1 {
                assert(exists|x2: int, w2: int|
                    0 <= x2 < k - 1 && 0 <= w2 < mp.o2 && #[trigger] marks(mp, t, j, x2, w2, a, b, c));
            } else {
                assert(exists|w2: int| 0 <= w2 < mp.o2 && #[trigger] marks(mp, t, j, k - 1, w2, a, b, c));
            }
        }
        if exists|w2: int| 0 <= w2 < mp.o2 && #[trigger] marks(mp, t, j, k - 1, w2, a, b, c) {
            let w2 = choose|w2: int| 0 <= w2 < mp.o2 && #[trigger] marks(mp, t, j, k - 1, w2, a, b, c);
            assert(marks(mp, t, j, k - 1, w2, a, b, c));
        }
    }
}

proof fn lemma_fold_channels_bit<L: Layer>(mp: MappingParams<L>, o0: int, t: int, j: int, a: int, b: int, c: int)
    requires
        0 <= t < 128,
        cpus_in_range(mp, o0),
        j <= o0,
    ensures
        bit_set(fold_channels(mp, j, a, b, c), t) == exists|y: int, x: int, w: int|
            0 <= y < j && 0 <= x < mp.o1 && 0 <= w < mp.o2 && #[trigger] marks(mp, t, y, x, w, a, b, c),
    decreases j,
{
    if j <= 0 {
        lemma_bit_single(0u8, t as u128);
    } else {
        let inner = fold_channels(mp, j - 1, a, b, c);
        lemma_fold_channels_bit(mp, o0, t, j - 1, a, b, c);
        lemma_fold_rows_bit(mp, o0, inner, t, j - 1, mp.o1, a, b, c);
        if exists|y: int, x: int, w: int|
            0 <= y < j && 0 <= x < mp.o1 && 0 <= w < mp.o2 && #[trigger] marks(mp, t, y, x, w, a, b, c) {
            let (y, x, w) = choose|y: int, x: int, w: int|
                0 <= y < j && 0 <= x < mp.o1 && 0 <= w < mp.o2 && #[trigger] marks(mp, t, y, x, w, a, b, c);
            if y < j - 1 {
                assert(exists|y2: int, x2: int, w2: int|
                    0 <= y2 < j - 1 && 0 <= x2 < mp.o1 && 0 <= w2 < mp.o2 && #[trigger] marks(mp, t, y2, x2, w2, a, b, c));
            } else {
                assert(exists|x2: int, w2: int|
                    0 <= x2 < mp.o1 && 0 <= w2 < mp.o2 && #[trigger] marks(mp, t, j - 1, x2, w2, a, b, c));
            }
        }
        if exists|x2: int, w2: int| 0 <= x2 < mp.o1 && 0 <= w2 < mp.o2 && #[trigger] marks(mp, t, j - 1, x2, w2, a, b, c) {
            let (x2, w2) = choose|x2: int, w2: int|
                0 <= x2 < mp.o1 && 0 <= w2 < mp.o2 && #[trigger] marks(mp, t, j - 1, x2, w2, a, b, c);
            assert(marks(mp, t, j - 1, x2, w2, a, b, c));
        }
    }
}

/// The input mapping marks exactly the inputs each processor needs: bit `t`
/// (below 127) of a cell is set if and only if some output that processor
/// `t` computes reads the cell; bit 127 is set if and only if some output
/// that processor 127 computes reads it, or some output reads it and it
/// lies in the padding border.
pub proof fn lemma_input_mapping_marks<L: Layer>(
    layer: L,
    conv: ConvMapping,
    input_shape: Seq<usize>,
    portions: Seq<u8>,
    t: int,
    a: int,
    b: int,
    c: int,
)
    requires
        conv_mapping_defined(layer, conv, input_shape, portions),
        0 <= t < 128,
    ensures
        ({
            let mp = mapping_params(layer, conv, input_shape, portions);
            bit_set(conv_mapping_cell(layer, conv, input_shape, portions, a, b, c), t)
                <==> exists|j: int, k: int, m: int|
                0 <= j < layer.spec_output_shape()[0] && 0 <= k < mp.o1 && 0 <= m < mp.o2
                    && #[trigger] marks(mp, t, j, k, m, a, b, c)
        }),
{
    let mp = mapping_params(layer, conv, input_shape, portions);
    let o0 = layer.spec_output_shape()[0] as int;
    let n_out = visited_outputs(o0, mp.o1, mp.o2);
    assert forall|j: int, k: int, m: int| 0 <= j < o0 && 0 <= k < mp.o1 && 0 <= m < mp.o2 implies 0
        <= #[trigger] cpu_of_output(mp.portions, mp.oc, output_number(mp.o1, mp.o2, j, k, m)) < 128 by {
        lemma_output_number_step(o0, mp.o1, mp.o2, j, k, m);
        let n = output_number(mp.o1, mp.o2, j, k, m);
        if n > 0 {
            assert(spec_which_cpu(portions, n as i32, mp.oc as u32) < 128);
            assert(which_cpu_defined(portions, n as i32, mp.oc as u32));
            crate::partition::lemma_which_cpu_nonnegative(portions, n as i32, mp.oc as u32);
        }
    }
    if o0 > 0 {
        lemma_fold_channels_bit(mp, o0, t, o0, a, b, c);
    } else {
        lemma_bit_single(0u8, t as u128);
    }
}

/// Some output of the layer reads cell (a, b, c) of the padded input.
pub open spec fn cell_is_read<L: Layer>(layer: L, conv: ConvMapping, a: int, b: int, c: int) -> bool {
    let out = layer.spec_output_shape();
    exists|j: int, k: int, m: int|
        0 <= j < out[0] && 0 <= k < out[1] && 0 <= m < out[2] && #[trigger] reads(
            layer,
            pad_half(conv.k.0),
            pad_half(conv.k.1),
            j,
            k,
            m,
            a,
            b,
            c,
        )
}

/// With a kernel that pads one cell on each side (extent 2 or 3 in both
/// directions) and fewer than 127 processors, the padding flag marks
/// exactly the read cells that hold no input value: bit 127 of a cell of
/// the padded box is set if and only if some output reads the cell and the
/// cell lies outside rows `1..=input_shape[1]` or columns
/// `1..=input_shape[2]`.
pub proof fn lemma_padding_flag_marks_border<L: Layer>(
    layer: L,
    conv: ConvMapping,
    input_shape: Seq<usize>,
    portions: Seq<u8>,
    a: int,
    b: int,
    c: int,
)
    requires
        conv_mapping_defined(layer, conv, input_shape, portions),
        pad_half(conv.k.0) == 1,
        pad_half(conv.k.1) == 1,
        portions.len() < 127,
        0 <= b,
        0 <= c,
    ensures
        bit_set(conv_mapping_cell(layer, conv, input_shape, portions, a, b, c), 127) <==> (cell_is_read(
            layer,
            conv,
            a,
            b,
            c,
        ) && !(1 <= b <= input_shape[1] && 1 <= c <= input_shape[2])),
{
    let mp = mapping_params(layer, conv, input_shape, portions);
    let out = layer.spec_output_shape();
    lemma_input_mapping_marks(layer, conv, input_shape, portions, 127, a, b, c);
    let border = !(1 <= b <= input_shape[1] && 1 <= c <= input_shape[2]);
    assert(is_padding(mp.half0, mp.half1, mp.in1, mp.in2, b, c) == border);
    assert forall|j: int, k: int, m: int|
        0 <= j < out[0] && 0 <= k < mp.o1 && 0 <= m < mp.o2 implies #[trigger] marks(mp, 127, j, k, m, a, b, c)
        == (reads(layer, 1, 1, j, k, m, a, b, c) && border) by {
        let n = output_number(mp.o1, mp.o2, j, k, m);
        if n != 0 {
            crate::partition::lemma_which_cpu_nonnegative(portions, n as i32, mp.oc as u32);
        }
    }
    if bit_set(conv_mapping_cell(layer, conv, input_shape, portions, a, b, c), 127) {
        let (j, k, m) = choose|j: int, k: int, m: int|
            0 <= j < out[0] && 0 <= k < mp.o1 && 0 <= m < mp.o2 && #[trigger] marks(mp, 127, j, k, m, a, b, c);
        assert(reads(layer, pad_half(conv.k.0), pad_half(conv.k.1), j, k, m, a, b, c));
    }
    if cell_is_read(layer, conv, a, b, c) && border {
        let (j, k, m) = choose|j: int, k: int, m: int|
            0 <= j < out[0] && 0 <= k < out[1] && 0 <= m < out[2] && #[trigger] reads(
                layer,
                pad_half(conv.k.0),
                pad_half(conv.k.1),
                j,
                k,
                m,
                a,
                b,
                c,
            );
        assert(marks(mp, 127, j, k, m, a, b, c));
    }
}

} // verus!
