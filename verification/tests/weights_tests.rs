use algo::layer::{ConvMapping, InfoWrapper, LinearMapping, QuantizedWeightUnit, WeightUnit};
use algo::weights::{find_pagesize, get_input_count, get_input_count_quant, rearrange_weight};

fn conv() -> ConvMapping {
    ConvMapping { k: (3, 3), s: (1, 1), o: (4, 8, 8), i: (4, 10, 10), i_pg: 1, o_pg: 1 }
}

fn unit(count: i32, start: Vec<i32>, kernel: u16) -> WeightUnit<f32> {
    WeightUnit {
        data: vec![0.5],
        bias: 0.25,
        which_kernel: kernel,
        count,
        start_pos_in: start,
        info: InfoWrapper::Convolution(conv()),
    }
}

#[test]
fn input_count_of_full_rows() {
    // 16 outputs = 2 full rows of 8: (3 + 1) input rows of width 10, no remainder.
    assert_eq!(get_input_count(&unit(16, vec![0, -1, -1], 0)), 40);
}

#[test]
fn input_count_of_rows_and_remainder() {
    // 19 outputs = 2 rows + 3: 4 rows * 10 + (3*1 + 2*1*1) = 45.
    assert_eq!(get_input_count(&unit(19, vec![0, -1, -1], 0)), 45);
}

#[test]
fn input_count_of_partial_row() {
    // 3 outputs, no full row: remain = 3 + 2 + (3-1)*3 + 2*(3-1)*1 = 15.
    assert_eq!(get_input_count(&unit(3, vec![0, -1, -1], 0)), 15);
}

#[test]
fn input_count_of_nothing() {
    assert_eq!(get_input_count(&unit(0, vec![0, -1, -1], 0)), 0);
}

#[test]
fn input_count_of_linear_is_minus_one() {
    let mut u = unit(5, vec![0, 0, 0], 0);
    u.info = InfoWrapper::Linear(LinearMapping { c_in: 4, c_out: 2 });
    assert_eq!(get_input_count(&u), -1);
}

#[test]
fn input_count_quant_matches() {
    let q: QuantizedWeightUnit<f32> = QuantizedWeightUnit {
        data: vec![1, 2, 3],
        bias: 7,
        which_kernel: 1,
        count: 19,
        start_pos_in: vec![0, -1, -1],
        info: InfoWrapper::Convolution(conv()),
        zero_points: (1, 2, 3),
        m: 0.5,
        s_out: 0.1,
    };
    assert_eq!(get_input_count_quant(&q), 45);
}

#[test]
fn page_size_of_first_matching_group() {
    let pages = vec![(3u16, 10), (5, 20), (3, 30)];
    assert_eq!(find_pagesize(&pages, 3), 10);
    assert_eq!(find_pagesize(&pages, 5), 20);
    assert_eq!(find_pagesize(&pages, 4), -1);
    assert_eq!(find_pagesize(&vec![], 0), -1);
}

#[test]
fn units_sorted_by_start_position_stably() {
    let mut units = vec![
        unit(1, vec![1, 0, 0], 0),
        unit(1, vec![0, 2, 0], 1),
        unit(1, vec![0, 2, 0], 2),
        unit(1, vec![0, 1, 5], 3),
        unit(1, vec![0, 1], 4),
    ];
    rearrange_weight(&mut units);
    let kernels: Vec<u16> = units.iter().map(|u| u.which_kernel).collect();
    assert_eq!(kernels, vec![4, 3, 1, 2, 0]);
}

#[test]
fn sorting_nothing() {
    let mut units: Vec<WeightUnit<f32>> = vec![];
    rearrange_weight(&mut units);
    assert!(units.is_empty());
}
