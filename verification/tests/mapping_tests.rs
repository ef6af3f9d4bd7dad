use algo::input_mapping::get_input_mapping;
use algo::layer::{ConvMapping, InfoWrapper, Layer, LinearMapping};
use algo::mapping_analysis::{analyse_mapping, mark_end};
use algo::maxpool2d::MaxPool2d;
use algo::util::split_u128_to_u8;

const PAD: u128 = 1u128 << 127;

/// A 3x3 convolution with padding 1 over a 2x2 input, one output channel.
struct SmallConv;

impl Layer for SmallConv {
    fn identify(&self) -> &str {
        "Convolution"
    }

    fn get_input(&self, position: Vec<i32>) -> Vec<Vec<i32>> {
        let mut r = Vec::new();
        for dy in 0..3 {
            for dx in 0..3 {
                r.push(vec![0, position[1] + dy - 1, position[2] + dx - 1]);
            }
        }
        r
    }

    fn get_output_shape(&self) -> Vec<i32> {
        vec![1, 2, 2]
    }

    fn get_info(&self) -> InfoWrapper {
        InfoWrapper::Convolution(ConvMapping { k: (3, 3), s: (1, 1), o: (1, 2, 2), i: (1, 2, 2), i_pg: 1, o_pg: 1 })
    }

    fn get_info_no_padding(&self) -> InfoWrapper {
        self.get_info()
    }
}

struct Dense;

impl Layer for Dense {
    fn identify(&self) -> &str {
        "Linear"
    }

    fn get_input(&self, position: Vec<i32>) -> Vec<Vec<i32>> {
        vec![position]
    }

    fn get_output_shape(&self) -> Vec<i32> {
        vec![10]
    }

    fn get_info(&self) -> InfoWrapper {
        InfoWrapper::Linear(LinearMapping { c_in: 4, c_out: 10 })
    }

    fn get_info_no_padding(&self) -> InfoWrapper {
        self.get_info()
    }
}

fn small_mapping() -> Vec<Vec<Vec<u128>>> {
    vec![vec![
        vec![1 | PAD, 1 | PAD, 1 | PAD, 1 | PAD],
        vec![1 | PAD, 3, 3, 3 | PAD],
        vec![1 | PAD, 3, 3, 3 | PAD],
        vec![1 | PAD, 3 | PAD, 3 | PAD, 2 | PAD],
    ]]
}

#[test]
fn convolution_mapping_marks_readers_and_border() {
    let m = get_input_mapping(&SmallConv, 2, vec![1, 2, 2], vec![1, 1]);
    assert_eq!(m, small_mapping());
}

#[test]
fn single_processor_mapping() {
    let m = get_input_mapping(&SmallConv, 1, vec![1, 2, 2], vec![1]);
    for row in &m[0] {
        for cell in row {
            assert_eq!(cell & 1, 1);
        }
    }
    assert_eq!(m[0][1][1], 1);
    assert_eq!(m[0][0][0], 1 | PAD);
}

#[test]
fn linear_layer_is_passed_whole() {
    let m = get_input_mapping(&Dense, 2, vec![4], vec![1, 1]);
    assert!(m.is_empty());
}

#[test]
fn last_positions_per_processor() {
    let ends = mark_end(&small_mapping(), 3);
    assert_eq!(ends, vec![(0, vec![0, 3, 2]), (1, vec![0, 3, 3]), (2, vec![0, 0, 0])]);
}

#[test]
fn last_position_of_empty_mapping() {
    let ends = mark_end(&vec![], 1);
    assert_eq!(ends, vec![(0, vec![0, 0, 0])]);
}

#[test]
fn receivers_of_a_cell() {
    assert_eq!(split_u128_to_u8(0), Vec::<u8>::new());
    assert_eq!(split_u128_to_u8(0b1011), vec![0, 1, 3]);
    assert_eq!(split_u128_to_u8(PAD | (1 << 126)), vec![126]);
}

#[test]
fn phases_of_senders() {
    let raw = vec![vec![vec![1u128, 1, 2], vec![0, 3, PAD | 2]]];
    let e_pos = vec![(0u8, vec![0u16, 0, 1]), (1, vec![0, 1, 2])];
    let m = analyse_mapping(raw, 2, 2, e_pos, vec![2, 2], vec![1, 1]);
    assert_eq!(m.len(), 2);
    assert_eq!(m[0].count, vec![2, 1]);
    assert_eq!(m[0].map, vec![vec![0], vec![1]]);
    assert_eq!(m[0].padding_pos, vec![Vec::<u16>::new(), vec![]]);
    assert_eq!(m[0].end_pos, vec![(0, 0, 1)]);
    assert_eq!(m[1].count, vec![1, 1]);
    assert_eq!(m[1].map, vec![vec![0, 1], vec![1]]);
    assert_eq!(m[1].padding_pos, vec![vec![], vec![0]]);
    assert_eq!(m[1].end_pos, vec![(1, 1, 0)]);
}

#[test]
fn empty_mapping_has_no_senders() {
    let m = analyse_mapping(vec![], 3, 2, vec![], vec![4], vec![1, 1, 1]);
    assert!(m.is_empty());
}

#[test]
fn untouched_sender_has_no_phases() {
    let raw = vec![vec![vec![1u128, 1]]];
    let m = analyse_mapping(raw, 2, 1, vec![], vec![2], vec![1, 0]);
    assert_eq!(m[0].count, vec![2]);
    assert_eq!(m[0].map, vec![vec![0]]);
    assert!(m[1].count.is_empty());
    assert!(m[1].map.is_empty());
    assert!(m[1].padding_pos.is_empty());
}

#[test]
fn max_pooling_layer() {
    let l = MaxPool2d { s: 2, k: 3, d: 1 };
    assert_eq!(l.identify(), "MaxPool2d");
    assert_eq!(l.get_input(vec![1, 2, 3]), vec![vec![1, 2, 3]]);
    assert!(l.get_output_shape().is_empty());
    assert_eq!(l.get_info(), InfoWrapper::MaxPool2d((3, 1), 2, 1));
    assert_eq!(l.get_info_no_padding(), InfoWrapper::MaxPool2d((3, 1), 2, 1));
}

#[test]
fn every_nonzero_cell_is_sent_once() {
    let raw = vec![vec![vec![1u128, 1, 2], vec![0, 3, PAD | 2]], vec![vec![PAD, 0, 1], vec![2, 2, 0]]];
    let nonzero = raw.iter().flatten().flatten().filter(|v| **v != 0).count();
    let m = analyse_mapping(raw, 2, 2, vec![], vec![2, 4], vec![1, 1]);
    let sent: usize = m.iter().map(|s| s.count.iter().map(|c| *c as usize).sum::<usize>()).sum();
    assert_eq!(sent, nonzero);
}
