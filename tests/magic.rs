use magicstring::{Chars, MagicString, MagicStringTrait};

fn collect<V: MagicStringTrait>(mut chars: Chars<V>) -> String {
    let mut out = String::new();
    while let Some(c) = chars.next() {
        out.push(c);
    }
    out
}

fn join_slices(string: &MagicString) -> String {
    let mut out = String::new();
    let mut iter = string.iter();
    while let Some(s) = iter.next() {
        out.push_str(s);
    }
    out
}

#[test]
fn bytes() {
    let s = ["a", "b"];
    let string = MagicString::new(&s);
    let mut bytes = string.bytes();
    assert_eq!(bytes.next().unwrap(), b'a');
    assert_eq!(bytes.next().unwrap(), b'b');
}

#[test]
fn chars() {
    let s = ["a", "b"];
    let string = MagicString::new(&s);
    let mut chars = string.chars();
    assert_eq!(chars.next().unwrap(), 'a');
    assert_eq!(chars.next().unwrap(), 'b');
}

#[test]
fn char_indices() {
    let s = ["a", "🍅", "b"];
    let string = MagicString::new(&s);
    let mut chars = string.char_indices();
    assert_eq!(chars.next().unwrap(), (0, 'a'));
    assert_eq!(chars.next().unwrap(), (1, '🍅'));
    assert_eq!(chars.next().unwrap(), (5, 'b'));
}

#[test]
fn lib_collect() {
    let s = ["a", "b"];
    let string = MagicString::new(&s);
    let chars = string.chars();
    let actual = collect(chars);
    let expected = "ab".to_string();
    assert_eq!(actual, expected);
}

#[test]
fn lib_split() {
    let s = ["0123", "4", "56"];
    let string = MagicString::new(&s);
    let (left, right) = string.split_at(3).unwrap();

    let actual = join_slices(&left);
    let expected = "012".to_string();
    assert_eq!(expected, actual);

    let actual = join_slices(&right);
    let expected = "3456".to_string();
    assert_eq!(expected, actual);
}

#[test]
fn split_left() {
    let s = ["0"];
    let string = MagicString::new(&s);
    let (left, _) = string.split_at(1).unwrap();
    assert_eq!(join_slices(&left), "0".to_string());
}

#[test]
fn split_right() {
    let s = ["0"];
    let string = MagicString::new(&s);
    let (_, right) = string.split_at(0).unwrap();
    assert_eq!(join_slices(&right), "0".to_string());
}

#[test]
fn trim_start() {
    let s = ["   ", "  ", "a"];
    let string = MagicString::new(&s);
    let actual = string.trim_start().to_string();
    let expected = "a".to_string();
    assert_eq!(expected, actual);

    let actual = string.trim_start().trim_end().to_string();
    let expected = "a".to_string();
    assert_eq!(expected, actual);
}

#[test]
fn trim_end() {
    let s = ["a    ", " ", "  "];
    let string = MagicString::new(&s);
    let actual = string.trim_end().to_string();
    let expected = "a".to_string();
    assert_eq!(expected, actual);

    let actual = string.trim_end().trim_start().to_string();
    let expected = "a".to_string();
    assert_eq!(expected, actual);
}

#[test]
fn trim() {
    let s = ["  ", " ", "  a    ", " ", "  "];
    let string = MagicString::new(&s);
    let actual = string.trim().to_string();
    let expected = "a".to_string();
    assert_eq!(expected, actual);
}

#[test]
fn split_twice() {
    let s = ["012345"];
    let string = MagicString::new(&s);
    let (_, right) = string.split_at(3).unwrap();
    let (left, _) = right.split_at(2).unwrap();
    let actual = left.to_string();
    let expected = "34".to_string();
    assert_eq!(expected, actual);
}

#[test]
fn iter_backwards() {
    let s = ["0", "1", "2"];
    let string = MagicString::new(&s);

    let mut iter = string.iter();

    assert_eq!(iter.next_back().unwrap(), "2");
    assert_eq!(iter.next_back().unwrap(), "1");
    assert_eq!(iter.next_back().unwrap(), "0");
}

#[test]
fn len() {
    let s = ["12", "3"];
    let string = MagicString::new(&s);
    assert_eq!(string.len(), 3);

    let s = [""];
    let string = MagicString::new(&s);
    assert_eq!(string.len(), 0);

    let s: [&str; 0] = [];
    let string = MagicString::new(&s);
    assert_eq!(string.len(), 0);
}

#[test]
fn pop() {
    let s = ["0", "1", "2"];
    let mut string = MagicString::new(&s);
    let actual = string.pop().unwrap();
    let expected = '2';
    assert_eq!(expected, actual);
}
