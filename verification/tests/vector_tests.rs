use draughts::vector::Vector;
use std::ptr::eq;

#[test]
fn vector_vector() {
    let v = Vector::new(0, vec![0, 1, 2, 3, 4, 5]);
    let mut it = v.into_iter();
    let mut i = 0;
    while let Some(p) = it.next() {
        println!(" {}, {} ", p, i);
        assert!(eq(p, &v.points[i]));
        i += 1;
    }
    assert_eq!(i, 6);
}
