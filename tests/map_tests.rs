use pybuiltins::map::{Iterable, Mapper, PyError, PyIter, PyMap, Step};
use std::rc::Rc;

fn list(v: &[i64]) -> Iterable {
    Iterable::List(v.to_vec())
}

/// Steps the combinator until it reports anything but a value.
fn drain(m: &mut PyMap, limit: usize) -> Vec<Step> {
    let mut out = Vec::new();
    for _ in 0..limit {
        let s = m.next();
        out.push(s);
        if !matches!(s, Step::Value(_)) {
            break;
        }
    }
    out
}

#[test]
fn map_add_two_lists() {
    let mut m = PyMap::py_new(Rc::new(Mapper::Sum), vec![list(&[1, 2, 3]), list(&[10, 20])]).unwrap();
    assert_eq!(m.next(), Step::Value(11));
    assert_eq!(m.next(), Step::Value(22));
    assert_eq!(m.next(), Step::Stopped);
}

#[test]
fn map_stops_at_shortest_of_three() {
    let mut m = PyMap::py_new(
        Rc::new(Mapper::Sum),
        vec![list(&[1, 2]), list(&[10, 20, 30]), list(&[100, 200, 300, 400])],
    )
    .unwrap();
    let out = drain(&mut m, 10);
    assert_eq!(out, vec![Step::Value(111), Step::Value(222), Step::Stopped]);
}

#[test]
fn map_first_exhausted_source_short_circuits() {
    let mut m = PyMap::py_new(Rc::new(Mapper::Sum), vec![list(&[]), list(&[1, 2])]).unwrap();
    assert_eq!(m.next(), Step::Stopped);
    assert_eq!(m.iterators[1].pos, 0);
}

#[test]
fn map_callable_stop_ends_sequence() {
    let shared = Rc::new(Mapper::SumBelow(4));
    let mut m = PyMap::py_new(shared.clone(), vec![list(&[1, 2, 3]), list(&[1, 2, 3])]).unwrap();
    assert_eq!(m.next(), Step::Value(2));
    assert_eq!(m.next(), Step::Stopped);
    assert_eq!(m.iterators[0].pos, 2);
    assert_eq!(m.iterators[1].pos, 2);
    assert_eq!(*shared, Mapper::SumBelow(4));
}

#[test]
fn map_propagates_source_error() {
    let bad = PyIter::from_outcomes(vec![Step::Error(PyError::Raised(9))], false);
    let mut m = PyMap::py_new(Rc::new(Mapper::Sum), vec![Iterable::Iter(bad), list(&[1])]).unwrap();
    assert_eq!(m.next(), Step::Error(PyError::Raised(9)));
    assert_eq!(m.iterators[1].pos, 0);
}

#[test]
fn map_propagates_callable_error() {
    let mut m = PyMap::py_new(Rc::new(Mapper::Fail(7)), vec![list(&[1])]).unwrap();
    assert_eq!(m.next(), Step::Error(PyError::Raised(7)));
    let mut m = PyMap::py_new(Rc::new(Mapper::Sum), vec![list(&[i64::MAX]), list(&[1])]).unwrap();
    assert_eq!(m.next(), Step::Error(PyError::Overflow));
}

#[test]
fn map_construction_fails_on_non_iterable() {
    let r = PyMap::py_new(Rc::new(Mapper::Sum), vec![list(&[1]), Iterable::NotIterable]);
    assert!(matches!(r, Err(PyError::NotIterable)));
}

#[test]
fn map_without_sources_calls_with_no_arguments() {
    let mut m = PyMap::py_new(Rc::new(Mapper::Sum), vec![]).unwrap();
    assert_eq!(m.next(), Step::Value(0));
    assert_eq!(m.length_hint(), 0);
}

#[test]
fn map_length_hint_is_maximum() {
    let m = PyMap::py_new(Rc::new(Mapper::Sum), vec![list(&[1, 2]), list(&[1, 2, 3, 4, 5])]).unwrap();
    assert_eq!(m.length_hint(), 5);
    let unhinted = PyIter::from_outcomes(vec![Step::Value(1)], false);
    let m = PyMap::py_new(Rc::new(Mapper::Sum), vec![Iterable::Iter(unhinted)]).unwrap();
    assert_eq!(m.length_hint(), 0);
}

#[test]
fn map_keeps_no_exhausted_flag() {
    let src = PyIter::from_outcomes(vec![Step::Value(1), Step::Stopped, Step::Value(2)], true);
    let mut m = PyMap::py_new(Rc::new(Mapper::Sum), vec![Iterable::Iter(src)]).unwrap();
    assert_eq!(m.next(), Step::Value(1));
    assert_eq!(m.next(), Step::Stopped);
    assert_eq!(m.next(), Step::Value(2));
    assert_eq!(m.next(), Step::Stopped);
    assert_eq!(m.next(), Step::Stopped);
}
