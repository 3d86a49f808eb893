use lisptick::reader::Reader;

#[test]
fn peek_within_window() {
    let r: Reader<char, 2> = Reader::new(vec!['a', 'b', 'c']);
    assert_eq!(r.peek(0), Some('a'));
    assert_eq!(r.peek(1), Some('b'));
    // Beyond the window, even though more input remains.
    assert_eq!(r.peek(2), None);
    assert_eq!(r.curr(), None);
}

#[test]
fn advance_pulls_replacements() {
    let mut r: Reader<char, 2> = Reader::new(vec!['a', 'b', 'c']);
    assert_eq!(r.next(), Some('a'));
    assert_eq!(r.curr(), Some('a'));
    assert_eq!(r.peek(0), Some('b'));
    assert_eq!(r.next(), Some('b'));
    // The element buffered after the source ran dry is still visible:
    // the window never reports end of input while one remains.
    assert_eq!(r.peek(0), Some('c'));
    assert_eq!(r.next(), Some('c'));
    assert_eq!(r.curr(), Some('c'));
    assert_eq!(r.peek(0), None);
    assert_eq!(r.next(), None);
    assert_eq!(r.curr(), None);
}

#[test]
fn short_source_drains() {
    let mut r: Reader<u64, 4> = Reader::new(vec![10, 20]);
    assert_eq!(r.peek(0), Some(10));
    assert_eq!(r.peek(1), Some(20));
    assert_eq!(r.peek(2), None);
    assert_eq!(r.next(), Some(10));
    assert_eq!(r.next(), Some(20));
    assert_eq!(r.next(), None);
}

#[test]
fn empty_source() {
    let mut r: Reader<char, 2> = Reader::new(vec![]);
    assert_eq!(r.peek(0), None);
    assert_eq!(r.next(), None);
    assert_eq!(r.curr(), None);
}

#[test]
fn window_of_one() {
    let mut r: Reader<char, 1> = Reader::new(vec!['x', 'y']);
    assert_eq!(r.peek(0), Some('x'));
    assert_eq!(r.peek(1), None);
    assert_eq!(r.next(), Some('x'));
    assert_eq!(r.peek(0), Some('y'));
    assert_eq!(r.next(), Some('y'));
    assert_eq!(r.next(), None);
}
