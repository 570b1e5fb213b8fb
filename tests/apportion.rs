use vsim::apportion::{allocate_sainte_lague, area_top_up, top_up_seats};

#[test]
fn sainte_lague_example_allocation() {
    let seats = allocate_sainte_lague(&vec![100, 80, 20], 10);
    assert_eq!(seats, vec![5, 4, 1]);
    assert_eq!(seats.iter().sum::<u32>(), 10);
    assert!(seats[0] >= seats[1] && seats[1] >= seats[2]);
}

#[test]
fn sainte_lague_ties_go_to_the_lowest_index() {
    assert_eq!(allocate_sainte_lague(&vec![5, 5, 5], 4), vec![2, 1, 1]);
}

#[test]
fn sainte_lague_zero_seats() {
    assert_eq!(allocate_sainte_lague(&vec![3], 0), vec![0]);
    assert_eq!(allocate_sainte_lague(&vec![], 0), Vec::<u32>::new());
}

#[test]
fn sainte_lague_uses_odd_divisors() {
    assert_eq!(allocate_sainte_lague(&vec![1000, 10], 3), vec![3, 0]);
    assert_eq!(allocate_sainte_lague(&vec![300, 200, 100], 7), vec![4, 2, 1]);
}

#[test]
fn sainte_lague_handles_the_largest_weights() {
    let seats = allocate_sainte_lague(&vec![u32::MAX, u32::MAX - 1], 3);
    assert_eq!(seats, vec![2, 1]);
}

#[test]
fn top_up_is_clamped_at_zero() {
    assert_eq!(top_up_seats(7, 3), 4);
    assert_eq!(top_up_seats(2, 5), 0);
    assert_eq!(top_up_seats(5, 5), 0);
}

#[test]
fn area_top_up_subtracts_local_seats() {
    assert_eq!(area_top_up(&vec![100, 80, 20], &vec![2, 5, 0], 10), vec![3, 0, 1]);
}
