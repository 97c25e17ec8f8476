use draughts::list_p::ListP;
use std::time::Instant;

#[test]
fn min_test_parallel() {
    let n: usize = 10000000;
    let mut l = ListP::new(n);
    // the same numbers for the sort of the standard library: drawing them
    // takes most of the time
    let mut other = l.v.clone();
    let t = Instant::now();
    ListP::quick_sort(&mut l.v, &mut l.tmp, 0);
    println!("par {:?} ", t.elapsed());

    let t = Instant::now();
    other.sort();
    println!("lib {:?}", t.elapsed());
    assert_eq!(l.v, other);
    assert_eq!(l.tmp, other);
}

#[test]
fn sorting_keeps_the_numbers() {
    let mut v = vec![5, -3, 9, 5, 0, i32::MAX, i32::MIN, 7, 5];
    let mut tmp = vec![0; 9];
    let mut expected = v.clone();
    expected.sort();
    ListP::quick_sort(&mut v, &mut tmp, 0);
    assert_eq!(v, expected);
    assert_eq!(tmp, expected);
    // a list of one number, and none
    let mut v = vec![4];
    let mut tmp = vec![1];
    ListP::quick_sort(&mut v, &mut tmp, i32::MAX);
    assert_eq!((v, tmp), (vec![4], vec![1]));
    let mut v: Vec<i32> = vec![];
    let mut tmp: Vec<i32> = vec![];
    ListP::quick_sort(&mut v, &mut tmp, 0);
    assert!(v.is_empty());
}

#[test]
fn a_list_of_numbers_drawn_at_random() {
    let l = ListP::new(1000);
    assert_eq!(l.v.len(), 1000);
    assert_eq!(l.tmp, vec![0; 1000]);
    assert!(l.v.iter().all(|x| 0 <= *x && *x < 100000));
    // a thousand draws below a hundred thousand are not all the same
    assert!(l.v.iter().any(|x| *x != l.v[0]));
}
