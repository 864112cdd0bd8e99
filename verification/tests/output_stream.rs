use tonyutils::output_stream::OutputStream;
use tonyutils::wrap::Wrap;

#[test]
fn arrivals_in_order_pass_straight_through() {
    let arrivals = vec![Wrap(0, 'a'), Wrap(1, 'b'), Wrap(2, 'c')];
    let mut stream = OutputStream::new(arrivals.into_iter(), 3);
    assert_eq!(stream.next(), Some('a'));
    assert_eq!(stream.next(), Some('b'));
    assert_eq!(stream.next(), Some('c'));
    assert_eq!(stream.next(), None);
}

#[test]
fn arrivals_in_reverse_are_put_back_in_order() {
    let arrivals: Vec<Wrap<usize>> = (0..1000).rev().map(|i| Wrap(i, i * 10)).collect();
    let out = OutputStream::new(arrivals.into_iter(), 1000).collect();
    let expected: Vec<usize> = (0..1000).map(|i| i * 10).collect();
    assert_eq!(out, expected);
}

#[test]
fn early_arrivals_wait_for_their_turn() {
    let arrivals = vec![Wrap(2, "two"), Wrap(0, "zero"), Wrap(3, "three"), Wrap(1, "one")];
    let mut stream = OutputStream::new(arrivals.into_iter(), 4);
    assert_eq!(stream.next(), Some("zero"));
    assert_eq!(stream.next(), Some("one"));
    assert_eq!(stream.next(), Some("two"));
    assert_eq!(stream.next(), Some("three"));
    assert_eq!(stream.next(), None);
}

#[test]
fn a_missing_number_ends_the_stream() {
    let arrivals = vec![Wrap(0, 'a'), Wrap(2, 'c'), Wrap(3, 'd')];
    let mut stream = OutputStream::new(arrivals.into_iter(), 3);
    assert_eq!(stream.next(), Some('a'));
    assert_eq!(stream.next(), None);
    assert_eq!(stream.next(), None);
}

#[test]
fn nothing_is_due_before_number_zero() {
    let arrivals = vec![Wrap(1, 'b'), Wrap(2, 'c')];
    let out = OutputStream::new(arrivals.into_iter(), 2).collect();
    assert_eq!(out, Vec::<char>::new());
}

#[test]
fn a_number_that_comes_late_blocks_what_is_pending_behind_it() {
    // Number 0 comes twice. The second one is set aside and stays the
    // smallest pending number, so number 2, which is pending behind it, is
    // never found due, while number 1 is taken straight from the source.
    let arrivals = vec![Wrap(2, 'c'), Wrap(0, 'a'), Wrap(0, 'x'), Wrap(1, 'b')];
    let mut stream = OutputStream::new(arrivals.into_iter(), 4);
    assert_eq!(stream.next(), Some('a'));
    assert_eq!(stream.next(), Some('b'));
    assert_eq!(stream.next(), None);
}

#[test]
fn an_empty_source_gives_nothing() {
    let arrivals: Vec<Wrap<u8>> = Vec::new();
    let mut stream = OutputStream::new(arrivals.into_iter(), 0);
    assert_eq!(stream.next(), None);
}

#[test]
fn the_room_set_aside_does_not_limit_the_stream() {
    let arrivals: Vec<Wrap<usize>> = (0..50).rev().map(|i| Wrap(i, i)).collect();
    let out = OutputStream::new(arrivals.into_iter(), 0).collect();
    let expected: Vec<usize> = (0..50).collect();
    assert_eq!(out, expected);
}

#[test]
fn a_shuffled_source_is_put_back_in_order() {
    // 0..97 in the order i * 35 mod 97, which visits each number once.
    let arrivals: Vec<Wrap<usize>> = (0..97).map(|i| Wrap(i * 35 % 97, i * 35 % 97 + 1000)).collect();
    let out = OutputStream::new(arrivals.into_iter(), 97).collect();
    let expected: Vec<usize> = (0..97).map(|i| i + 1000).collect();
    assert_eq!(out, expected);
}

#[test]
fn the_largest_number_is_the_last_that_can_be_due() {
    // Nothing is due before number zero, so the largest number only waits.
    let arrivals = vec![Wrap(usize::MAX, 'z')];
    let mut stream = OutputStream::new(arrivals.into_iter(), 1);
    assert_eq!(stream.next(), None);
}
