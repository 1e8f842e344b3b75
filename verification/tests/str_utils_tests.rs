use btkit::str_utils::sub_arr;
use btkit::str_utils::sub_str;
use btkit::str_utils::vec_index_of;

#[test]
fn test_sub_str() {
    assert_eq!(sub_str("HELLO", 1, 3), String::from("ELL"));
}

#[test]
fn sub_str_clamps_to_the_end() {
    assert_eq!(sub_str("HELLO", 3, 10), String::from("LO"));
    assert_eq!(sub_str("HELLO", 9, 2), String::from(""));
}

#[test]
fn sub_arr_takes_a_window() {
    assert_eq!(sub_arr(vec![1, 2, 3, 4, 5], 1, 3), vec![2, 3, 4]);
    assert_eq!(sub_arr(vec![1, 2, 3, 4, 5], 4, 10), vec![5]);
    assert_eq!(sub_arr(Vec::<u8>::new(), 2, 2), Vec::<u8>::new());
}

#[test]
fn vec_index_of_finds_the_first_match() {
    assert_eq!(vec_index_of(&vec![7u8, 8, 9, 8], 8), Ok(1));
    assert_eq!(vec_index_of(&vec![7u8, 8, 9], 4), Err(()));
}
