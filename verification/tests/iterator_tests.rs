use draughts::mutable_iterator::MutIter;
use std::cell::RefCell;
use std::ptr;
use std::rc::Rc;

#[derive(Clone, Debug)]
struct St0 {
    a: i32,
    b: i32,
}

#[test]
fn mutable_iterator_vector() {
    let st = RefCell::new(St0 { a: 0, b: 0 });
    let v = vec![Rc::new(st.clone()), Rc::new(st.clone()), Rc::new(st.clone())];
    let mut i1 = MutIter::new(&v, None, Some(3));
    let mut v2: Vec<Rc<RefCell<St0>>> = Vec::new();
    let mut walk = i1.into_iter();
    while let Some(i) = walk.next() {
        (**i).borrow_mut().b += 1;
        v2.push(i.clone());
    }
    let mut i = 0;
    while let Some(it) = i1.next() {
        (**it).borrow_mut().a = i as i32;
        let x = (**it).as_ptr();
        let y = v2[i].as_ptr();
        assert!(ptr::eq(x, y));
        assert_eq!(x, y);
        i += 1;
    }
    assert_eq!(i, 3);
    assert_eq!(v[2].borrow().a, 2);
    assert_eq!(v[2].borrow().b, 1);
}
