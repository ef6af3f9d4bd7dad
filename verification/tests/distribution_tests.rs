use algo::input_routing::distribute_input;
use algo::layer::{BatchNorm2dInfo, ConvMapping, InfoWrapper, Layer, LayerWeights, LinearMapping, ReLU6Info, WeightUnit};
use algo::partition::find_which_cpu;
use algo::weight_distribution::distribute_weight;

const PAD: u128 = 1u128 << 127;

/// A 3x3 convolution with padding 1 over a 2x2 input, one output channel.
struct TinyConv;

impl Layer for TinyConv {
    fn identify(&self) -> &str {
        "Convolution"
    }

    fn get_input(&self, position: Vec<i32>) -> Vec<Vec<i32>> {
        let mut r = Vec::new();
        for dy in 0..3 {
            for dx in 0..3 {
                r.push(vec![0, position[1] + dy - 1, position[2] + dx - 1]);
            }
        }
        r
    }

    fn get_output_shape(&self) -> Vec<i32> {
        vec![1, 2, 2]
    }

    fn get_info(&self) -> InfoWrapper {
        InfoWrapper::Convolution(ConvMapping { k: (3, 3), s: (1, 1), o: (1, 2, 2), i: (1, 2, 2), i_pg: 1, o_pg: 1 })
    }

    fn get_info_no_padding(&self) -> InfoWrapper {
        self.get_info()
    }
}

impl LayerWeights<f32> for TinyConv {
    fn get_bias(&self, p: i32) -> f32 {
        p as f32 + 0.25
    }

    fn get_weights_from_input(&self, input: Vec<Vec<i32>>, c: i32) -> Vec<f32> {
        vec![c as f32 + 0.5; input.len()]
    }

    fn get_weights(&self) -> Vec<f32> {
        vec![0.5; 9]
    }
}

/// A layer of a given kind with a fixed weight list.
struct Fixed {
    info: InfoWrapper,
    weights: Vec<f32>,
}

impl Layer for Fixed {
    fn identify(&self) -> &str {
        "Fixed"
    }

    fn get_input(&self, position: Vec<i32>) -> Vec<Vec<i32>> {
        vec![position]
    }

    fn get_output_shape(&self) -> Vec<i32> {
        match self.info {
            InfoWrapper::Linear(l) => vec![l.c_out],
            _ => vec![1, 1, 1],
        }
    }

    fn get_info(&self) -> InfoWrapper {
        self.info
    }

    fn get_info_no_padding(&self) -> InfoWrapper {
        self.info
    }
}

impl LayerWeights<f32> for Fixed {
    fn get_bias(&self, p: i32) -> f32 {
        10.0 * p as f32
    }

    fn get_weights_from_input(&self, _input: Vec<Vec<i32>>, _c: i32) -> Vec<f32> {
        vec![]
    }

    fn get_weights(&self) -> Vec<f32> {
        self.weights.clone()
    }
}

fn summary(units: &[WeightUnit<f32>]) -> Vec<(u16, i32, Vec<i32>)> {
    units.iter().map(|u| (u.which_kernel, u.count, u.start_pos_in.clone())).collect()
}

#[test]
fn convolution_units_follow_processor_changes() {
    let r = distribute_weight(&TinyConv, 2, vec![1, 1], 0.0);
    assert_eq!(r.len(), 2);
    // Outputs 0, 1, 2 go to processor 0, output 3 to processor 1.
    assert_eq!(summary(&r[0]), vec![(0, 3, vec![0, -1, -1])]);
    assert_eq!(summary(&r[1]), vec![(0, 1, vec![0, 0, 0])]);
    assert_eq!(r[0][0].data, vec![0.5; 9]);
    assert_eq!(r[0][0].bias, 0.25);
    assert_eq!(r[1][0].data, vec![0.5; 9]);
    assert_eq!(r[1][0].info, TinyConv.get_info());
}

#[test]
fn convolution_on_one_processor() {
    let r = distribute_weight(&TinyConv, 1, vec![1], 0.0);
    assert_eq!(r.len(), 1);
    assert_eq!(summary(&r[0]), vec![(0, 4, vec![0, -1, -1])]);
}

#[test]
fn processor_without_share_gets_empty_unit() {
    // Portions 0 and 1: the first output is still counted on processor 0,
    // the rest on processor 1.
    let r = distribute_weight(&TinyConv, 2, vec![0, 1], 0.0);
    assert_eq!(summary(&r[0]), vec![(0, 1, vec![0, -1, -1])]);
    assert_eq!(summary(&r[1]), vec![(0, 3, vec![0, -1, 0])]);
}

#[test]
fn dealt_counts_add_up_to_outputs() {
    for portions in [vec![1u8, 1], vec![0, 1], vec![3, 1], vec![1, 0]] {
        let r = distribute_weight(&TinyConv, 2, portions, 0.0);
        let total: i32 = r.iter().flatten().map(|u| u.count).sum();
        assert_eq!(total, 4);
    }
}

#[test]
fn dense_rows_go_to_their_processor() {
    let layer = Fixed {
        info: InfoWrapper::Linear(LinearMapping { c_in: 2, c_out: 4 }),
        weights: vec![1.0, 2.0, 3.0, 4.0, 5.0, 6.0, 7.0, 8.0],
    };
    let r = distribute_weight(&layer, 2, vec![1, 1], 0.0);
    assert_eq!(r.len(), 2);
    let kernels0: Vec<u16> = r[0].iter().map(|u| u.which_kernel).collect();
    let kernels1: Vec<u16> = r[1].iter().map(|u| u.which_kernel).collect();
    assert_eq!(kernels0, vec![0, 1, 2]);
    assert_eq!(kernels1, vec![3]);
    assert_eq!(r[0][1].data, vec![3.0, 4.0]);
    assert_eq!(r[0][1].bias, 10.0);
    assert_eq!(r[1][0].data, vec![7.0, 8.0]);
    assert_eq!(r[1][0].bias, 30.0);
    assert_eq!(r[1][0].count, 0);
    assert!(r[1][0].start_pos_in.is_empty());
}

#[test]
fn batch_norm_weights_stay_together() {
    let layer = Fixed { info: InfoWrapper::BatchNorm2d(BatchNorm2dInfo {}), weights: vec![1.5, 2.5] };
    let r = distribute_weight(&layer, 3, vec![1, 1, 1], -1.0);
    assert_eq!(r.len(), 1);
    assert_eq!(r[0].len(), 1);
    assert_eq!(r[0][0].data, vec![1.5, 2.5]);
    assert_eq!(r[0][0].bias, -1.0);
    assert_eq!(r[0][0].which_kernel, 0);
}

#[test]
fn layers_without_weights_get_no_lists() {
    let relu = Fixed { info: InfoWrapper::ReLU6(ReLU6Info {}), weights: vec![] };
    assert!(distribute_weight(&relu, 2, vec![1, 1], 0.0).is_empty());
    let pool = Fixed { info: InfoWrapper::MaxPool2d((2, 1), 2, 1), weights: vec![] };
    assert!(distribute_weight(&pool, 2, vec![1, 1], 0.0).is_empty());
}

#[test]
fn inputs_go_to_their_readers() {
    let input = vec![vec![vec![10.0f32, 20.0, 30.0]]];
    let mapping = vec![vec![vec![1u128, 3, PAD | 2, 0, 2, 1]]];
    let r = distribute_input(input, mapping, 2, 0.0);
    // The counter wraps after the third value, so the last cell reads 10.
    assert_eq!(r, vec![vec![10.0, 20.0, 10.0], vec![20.0, 0.0, 30.0]]);
}

#[test]
fn rows_are_read_in_order() {
    let input = vec![vec![vec![1, 2], vec![3, 4]], vec![vec![5, 6], vec![7, 8]]];
    let mapping = vec![vec![vec![1u128, 1], vec![1, 1]], vec![vec![0, 0], vec![0, 2]]];
    let r = distribute_input(input, mapping, 2, 0);
    // The counter has wrapped, so channel 1 is read from its first value.
    assert_eq!(r, vec![vec![1, 2, 3, 4], vec![5]]);
}

#[test]
fn padding_cells_send_zero() {
    let input = vec![vec![vec![7u8]]];
    let mapping = vec![vec![vec![PAD | 1, 1, PAD | 1]]];
    let r = distribute_input(input, mapping, 1, 0);
    assert_eq!(r, vec![vec![0, 7, 0]]);
}

#[test]
fn empty_mapping_passes_input_whole() {
    let r = distribute_input(vec![vec![vec![1.0f32]]], vec![], 2, 0.0);
    assert!(r.is_empty());
}

#[test]
fn weights_follow_the_processor_of_each_output() {
    let portions = vec![2u8, 1, 1];
    let r = distribute_weight(&TinyConv, 3, portions.clone(), 0.0);
    for (w, list) in r.iter().enumerate() {
        let dealt: i32 = list.iter().map(|u| u.count).sum();
        let assigned = (0..4).filter(|&n| find_which_cpu(&portions, n, 4) as usize == w).count() as i32;
        assert_eq!(dealt, assigned);
    }
}

#[test]
fn skipped_processor_passes_its_turn_to_the_next() {
    // Portions 1, 0, 1: output 3 belongs to processor 2, but the deal moves
    // on one processor at a time, so its unit goes to processor 1.
    let r = distribute_weight(&TinyConv, 3, vec![1, 0, 1], 0.0);
    assert_eq!(summary(&r[0]), vec![(0, 3, vec![0, -1, -1])]);
    assert_eq!(summary(&r[1]), vec![(0, 1, vec![0, 0, 0])]);
    assert!(r[2].is_empty());
}
