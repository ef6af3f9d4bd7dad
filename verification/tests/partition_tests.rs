use algo::partition::find_which_cpu;

#[test]
fn equal_portions_split_evenly() {
    // 12 outputs over three equal processors: 4 each.
    let portions = vec![1u8, 1, 1];
    assert_eq!(find_which_cpu(&portions, 0, 12), 0);
    assert_eq!(find_which_cpu(&portions, 4, 12), 0);
    assert_eq!(find_which_cpu(&portions, 5, 12), 1);
    assert_eq!(find_which_cpu(&portions, 8, 12), 1);
    assert_eq!(find_which_cpu(&portions, 9, 12), 2);
    assert_eq!(find_which_cpu(&portions, 12, 12), 2);
}

#[test]
fn share_is_rounded_up() {
    // 10 outputs over portions 1 and 2: 4 per unit, processor 0 takes 4.
    let portions = vec![1u8, 2];
    assert_eq!(find_which_cpu(&portions, 4, 10), 0);
    assert_eq!(find_which_cpu(&portions, 5, 10), 1);
    assert_eq!(find_which_cpu(&portions, 10, 10), 1);
}

#[test]
fn past_the_end_is_number_of_processors() {
    let portions = vec![1u8, 1];
    assert_eq!(find_which_cpu(&portions, 3, 2), 2);
}

#[test]
fn negative_count_reads_as_large_unsigned() {
    let portions = vec![1u8, 1];
    assert_eq!(find_which_cpu(&portions, -1, 4), 2);
}

#[test]
fn no_portions() {
    let portions: Vec<u8> = vec![];
    assert_eq!(find_which_cpu(&portions, 5, 10), 0);
}

#[test]
fn zero_portions_take_nothing() {
    let portions = vec![0u8, 2, 0];
    assert_eq!(find_which_cpu(&portions, 1, 4), 1);
    assert_eq!(find_which_cpu(&portions, 0, 4), 0);
}

#[test]
fn later_outputs_never_go_to_earlier_processors() {
    let portions = vec![1u8, 3, 0, 2];
    let mut last = 0u8;
    for count in 0..=20 {
        let cpu = find_which_cpu(&portions, count, 20);
        assert!(cpu >= last);
        assert!((cpu as usize) < portions.len());
        last = cpu;
    }
}

#[test]
fn each_processor_takes_its_cumulative_share() {
    // 20 outputs over portions 1, 3, 0, 2: 4 per unit, cumulative shares
    // 4, 16, 16, 24.
    let portions = vec![1u8, 3, 0, 2];
    let through = [4, 16, 16, 24];
    for count in 1..=20 {
        let cpu = find_which_cpu(&portions, count, 20) as usize;
        assert!(count <= through[cpu]);
        if cpu > 0 {
            assert!(count > through[cpu - 1]);
        }
    }
}
