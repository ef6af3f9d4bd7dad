use algo::input_mapping::get_input_mapping;
use algo::input_routing::distribute_input;
use algo::layer::{ConvMapping, InfoWrapper, Layer, LayerWeights, QuantizedWeightUnit};
use algo::quant_compute::{distributed_computation_quant, Rounding};
use algo::weight_distribution::distribute_weight;

/// A 3x3 convolution with padding 1 over one 4x4 channel.
struct Conv4 {
    kernel: Vec<u8>,
}

impl Layer for Conv4 {
    fn identify(&self) -> &str {
        "Convolution"
    }

    fn get_input(&self, position: Vec<i32>) -> Vec<Vec<i32>> {
        let mut r = Vec::new();
        for dy in 0..3 {
            for dx in 0..3 {
                r.push(vec![0, position[1] + dy - 1, position[2] + dx - 1]);
            }
        }
        r
    }

    fn get_output_shape(&self) -> Vec<i32> {
        vec![1, 4, 4]
    }

    fn get_info(&self) -> InfoWrapper {
        InfoWrapper::Convolution(ConvMapping { k: (3, 3), s: (1, 1), o: (1, 4, 4), i: (1, 6, 6), i_pg: 1, o_pg: 1 })
    }

    fn get_info_no_padding(&self) -> InfoWrapper {
        self.get_info()
    }
}

impl LayerWeights<u8> for Conv4 {
    fn get_bias(&self, _p: i32) -> u8 {
        0
    }

    fn get_weights_from_input(&self, _input: Vec<Vec<i32>>, _c: i32) -> Vec<u8> {
        self.kernel.clone()
    }

    fn get_weights(&self) -> Vec<u8> {
        self.kernel.clone()
    }
}

fn rescale(m: &f32, acc: i32, rounding: Rounding) -> i32 {
    match rounding {
        Rounding::Nearest => (acc as f32 * m).round() as i32,
        Rounding::TowardZero => (acc as f32 * m) as i32,
    }
}

/// Runs the layer over a 4x4 input split between two processors: the
/// input mapping, the routing of the inputs, the dealing of the weights
/// and each processor's share of the computation.
fn run_split(tap: usize) -> (Vec<usize>, Vec<u8>) {
    run_split_over(tap, vec![1, 1])
}

fn run_split_over(tap: usize, portions: Vec<u8>) -> (Vec<usize>, Vec<u8>) {
    let mut kernel = vec![0u8; 9];
    kernel[tap] = 1;
    let layer = Conv4 { kernel };
    let n = portions.len();
    let mapping = get_input_mapping(&layer, n as u8, vec![1, 4, 4], portions.clone());
    let input: Vec<Vec<Vec<u8>>> = vec![(0..4).map(|y| (0..4).map(|x| (10 * y + x + 1) as u8).collect()).collect()];
    let inputs = distribute_input(input, mapping, n as u8, 0u8);
    let weights = distribute_weight(&layer, n as u8, portions, 0u8);
    let mut sizes = Vec::new();
    let mut out = Vec::new();
    for cpu in 0..n {
        sizes.push(inputs[cpu].len());
        let units: Vec<QuantizedWeightUnit<f32>> = weights[cpu]
            .iter()
            .map(|u| QuantizedWeightUnit {
                data: u.data.clone(),
                bias: u.bias as i32,
                which_kernel: u.which_kernel,
                count: u.count,
                start_pos_in: u.start_pos_in.clone(),
                info: u.info,
                zero_points: (0, 0, 0),
                m: 1.0,
                s_out: 1.0,
            })
            .collect();
        out.extend(distributed_computation_quant(inputs[cpu].clone(), units, rescale));
    }
    (sizes, out)
}

#[test]
fn split_convolution_center_tap() {
    let (sizes, out) = run_split(4);
    assert_eq!(sizes, vec![27, 23]);
    assert_eq!(out, vec![1, 2, 3, 4, 11, 12, 13, 14, 21, 22, 23, 24, 31, 32, 33, 34]);
}

#[test]
fn split_convolution_corner_tap() {
    let (_, out) = run_split(0);
    assert_eq!(out, vec![0, 0, 0, 0, 0, 1, 2, 3, 0, 11, 12, 13, 0, 21, 22, 23]);
}

#[test]
fn split_convolution_far_corner_tap() {
    let (_, out) = run_split(8);
    assert_eq!(out, vec![12, 13, 14, 0, 22, 23, 24, 0, 32, 33, 34, 0, 0, 0, 0, 0]);
}

#[test]
fn three_way_split_center_tap() {
    let (_, out) = run_split_over(4, vec![1, 1, 1]);
    assert_eq!(out, vec![1, 2, 3, 4, 11, 12, 13, 14, 21, 22, 23, 24, 31, 32, 33, 34]);
}

#[test]
fn three_way_split_corner_taps() {
    let (_, out) = run_split_over(0, vec![1, 1, 1]);
    assert_eq!(out, vec![0, 0, 0, 0, 0, 1, 2, 3, 0, 11, 12, 13, 0, 21, 22, 23]);
    let (_, out) = run_split_over(8, vec![1, 1, 1]);
    assert_eq!(out, vec![12, 13, 14, 0, 22, 23, 24, 0, 32, 33, 34, 0, 0, 0, 0, 0]);
}
