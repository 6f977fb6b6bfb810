use typesystems::Stream;

fn chars(s: &str) -> Vec<char> {
    s.chars().collect()
}

#[test]
fn undo() {
    let mut s = Stream::new(chars("abc"));
    assert_eq!(s.next(), Some('a'));
    assert_eq!(s.next(), Some('b'));
    assert_eq!(s.next(), Some('c'));
    s.undo(2);
    assert_eq!(s.next(), Some('b'));
    assert_eq!(s.next(), Some('c'));
}

#[test]
fn commit() {
    let mut s = Stream::new(chars("abcd"));
    assert_eq!(s.next(), Some('a'));
    assert_eq!(s.next(), Some('b'));
    assert_eq!(s.next(), Some('c'));
    s.undo(1);
    s.commit();
    assert_eq!(s.next(), Some('c'));
    assert_eq!(s.next(), Some('d'));
}

#[test]
fn overflow() {
    let mut s = Stream::new(chars("ab"));
    assert_eq!(s.next(), Some('a'));
    assert_eq!(s.next(), Some('b'));
    assert_eq!(s.next(), None);
    assert_eq!(s.next(), None);
    s.undo(1);
    assert_eq!(s.next(), Some('b'));
    assert_eq!(s.next(), None);
    s.commit();
    s.undo(42);
    assert_eq!(s.next(), None);
}

#[test]
fn undo_replays_in_order() {
    let mut s = Stream::new(vec![1u8, 2, 3, 4, 5]);
    for expected in 1..=4u8 {
        assert_eq!(s.next(), Some(expected));
    }
    s.undo(3);
    assert_eq!(s.len(), 1);
    assert_eq!(s.next(), Some(2));
    assert_eq!(s.next(), Some(3));
    assert_eq!(s.next(), Some(4));
    assert_eq!(s.next(), Some(5));
    assert_eq!(s.next(), None);
}

#[test]
fn undo_stops_at_the_commit() {
    let mut s = Stream::new(vec![1u8, 2, 3]);
    assert_eq!(s.next(), Some(1));
    s.commit();
    s.commit();
    assert_eq!(s.len(), 0);
    assert_eq!(s.next(), Some(2));
    s.undo(2);
    assert_eq!(s.offset(), 1);
    assert_eq!(s.next(), Some(2));
}

#[test]
fn take_while_stops_at_the_first_refusal() {
    let mut s = Stream::new(chars("123ab4"));
    assert_eq!(s.take_while(|c| c.is_ascii_digit()), vec!['1', '2', '3']);
    assert_eq!(s.peek(), Some(&'a'));
    assert_eq!(s.take(|c| c.is_ascii_digit()), Vec::<char>::new());
    s.squash(|c| c.is_ascii_alphabetic());
    assert_eq!(s.next(), Some('4'));
    assert_eq!(s.remaining(), 0);
    assert_eq!(s.fallback::<char>(3), None);
    assert_eq!(s.next(), Some('a'));
    s.skip(|_| true);
    assert_eq!(s.next(), None);
}
