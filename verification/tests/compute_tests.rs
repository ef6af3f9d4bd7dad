use algo::layer::{ConvMapping, InfoWrapper, LinearMapping, QuantizedWeightUnit, ReLU6Info};
use algo::quant_compute::{distributed_computation_quant, Rounding};

fn one_by_one() -> InfoWrapper {
    InfoWrapper::Convolution(ConvMapping { k: (1, 1), s: (1, 1), o: (1, 2, 2), i: (1, 2, 2), i_pg: 1, o_pg: 1 })
}

fn unit(info: InfoWrapper, kernel: u16, count: i32, data: Vec<u8>, bias: i32, zp: (u8, u8, u8), m: f32) -> QuantizedWeightUnit<f32> {
    QuantizedWeightUnit {
        data,
        bias,
        which_kernel: kernel,
        count,
        start_pos_in: vec![0, 0, 0],
        info,
        zero_points: zp,
        m,
        s_out: 1.0,
    }
}

fn rescale(m: &f32, acc: i32, rounding: Rounding) -> i32 {
    match rounding {
        Rounding::Nearest => (acc as f32 * m).round() as i32,
        Rounding::TowardZero => (acc as f32 * m) as i32,
    }
}

#[test]
fn one_by_one_convolution_copies_input() {
    let w = vec![unit(one_by_one(), 0, 4, vec![1], 0, (0, 0, 0), 1.0)];
    let r = distributed_computation_quant(vec![1, 2, 3, 4], w, rescale);
    assert_eq!(r, vec![1, 2, 3, 4]);
}

#[test]
fn zero_points_bias_and_scale() {
    // (x - 1) * (2 - 0) + 10, times 0.5 rounded, plus 5.
    let w = vec![unit(one_by_one(), 0, 4, vec![2], 10, (1, 0, 5), 0.5)];
    let r = distributed_computation_quant(vec![1, 2, 3, 4], w, rescale);
    assert_eq!(r, vec![10, 11, 12, 13]);
}

#[test]
fn outputs_are_clamped() {
    let w = vec![unit(one_by_one(), 0, 4, vec![200], 0, (0, 0, 0), 1.0)];
    let r = distributed_computation_quant(vec![0, 1, 2, 3], w, rescale);
    assert_eq!(r, vec![0, 200, 255, 255]);
}

#[test]
fn dense_units_grouped_by_kernel() {
    let lin = InfoWrapper::Linear(LinearMapping { c_in: 3, c_out: 2 });
    let w = vec![
        unit(lin, 1, 1, vec![1, 2, 3], 5, (10, 1, 3), 0.5),
        unit(lin, 0, 1, vec![0, 0, 0], 1000, (10, 0, 3), 0.5),
    ];
    let r = distributed_computation_quant(vec![10, 20, 30], w, rescale);
    assert_eq!(r, vec![255, 30]);
}

#[test]
fn dense_rescale_rounds_toward_zero() {
    let lin = InfoWrapper::Linear(LinearMapping { c_in: 1, c_out: 1 });
    let w = vec![unit(lin, 0, 1, vec![1], 0, (0, 0, 0), 0.5)];
    let r = distributed_computation_quant(vec![3], w, rescale);
    assert_eq!(r, vec![1]);
}

#[test]
fn empty_share_gives_nothing() {
    let r = distributed_computation_quant(vec![1, 2], Vec::<QuantizedWeightUnit<f32>>::new(), rescale);
    assert!(r.is_empty());
}

#[test]
fn other_layers_give_nothing() {
    let w = vec![unit(InfoWrapper::ReLU6(ReLU6Info {}), 0, 1, vec![1], 0, (0, 0, 0), 1.0)];
    let r = distributed_computation_quant(vec![1, 2], w, rescale);
    assert!(r.is_empty());
}

#[test]
fn one_byte_per_computed_output() {
    let lin = InfoWrapper::Linear(LinearMapping { c_in: 2, c_out: 3 });
    let w = vec![
        unit(lin, 2, 1, vec![1, 1], 0, (0, 0, 0), 1.0),
        unit(lin, 0, 1, vec![1, 0], 0, (0, 0, 0), 1.0),
        unit(lin, 2, 1, vec![0, 1], 0, (0, 0, 0), 1.0),
    ];
    let r = distributed_computation_quant(vec![4, 5], w, rescale);
    assert_eq!(r, vec![4, 9, 5]);
}

fn three_by_three() -> InfoWrapper {
    // A 3x3 kernel over a 4x4 plane padded to 6x6.
    InfoWrapper::Convolution(ConvMapping { k: (3, 3), s: (1, 1), o: (1, 4, 4), i: (1, 6, 6), i_pg: 1, o_pg: 1 })
}

fn whole_plane(data: Vec<u8>, m: f32) -> Vec<QuantizedWeightUnit<f32>> {
    vec![QuantizedWeightUnit {
        data,
        bias: 0,
        which_kernel: 0,
        count: 16,
        start_pos_in: vec![0, -1, -1],
        info: three_by_three(),
        zero_points: (0, 0, 0),
        m,
        s_out: 1.0,
    }]
}

#[test]
fn whole_plane_center_tap() {
    let input: Vec<u8> = (0..36).collect();
    let mut w = vec![0u8; 9];
    w[4] = 1;
    let r = distributed_computation_quant(input, whole_plane(w, 1.0), rescale);
    assert_eq!(r, vec![7, 8, 9, 10, 13, 14, 15, 16, 19, 20, 21, 22, 25, 26, 27, 28]);
}

#[test]
fn whole_plane_corner_tap() {
    let input: Vec<u8> = (0..36).collect();
    let mut w = vec![0u8; 9];
    w[0] = 1;
    let r = distributed_computation_quant(input, whole_plane(w, 1.0), rescale);
    assert_eq!(r, vec![0, 1, 2, 3, 6, 7, 8, 9, 12, 13, 14, 15, 18, 19, 20, 21]);
}

#[test]
fn whole_plane_box_filter() {
    // Each output is the mean of its 3x3 window: 6 * row + column + 7.
    let input: Vec<u8> = (0..36).collect();
    let r = distributed_computation_quant(input, whole_plane(vec![1u8; 9], 1.0 / 9.0), rescale);
    let expected: Vec<u8> = (0..4).flat_map(|row| (0..4).map(move |col| (6 * row + col + 7) as u8)).collect();
    assert_eq!(r, expected);
}
