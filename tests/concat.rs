use magicstring::{Chars, MagicString, MagicStringTrait};

fn collect<V: MagicStringTrait>(mut chars: Chars<V>) -> String {
    let mut out = String::new();
    while let Some(c) = chars.next() {
        out.push(c);
    }
    out
}

#[test]
fn remove_middle() {
    let s = ["some", "silly", "text"];
    let s = MagicString::new(&s);
    let (left, right) = s.split_at(9).unwrap();
    let left_actual = collect(left.chars());
    let right_actual = collect(right.chars());
    assert_eq!(left_actual, "somesilly".to_string());
    assert_eq!(right_actual, "text".to_string());
    let (left, _) = left.split_at(4).unwrap();
    let s = left.concat(right);
    let actual = collect(s.chars());
    let expected = "sometext".to_string();
    assert_eq!(actual, expected);
}

#[test]
fn multi_concat() {
    let s1 = ["a", "b"];
    let s2 = ["c", "d"];
    let s3 = ["e", "f"];
    let s4 = ["g", "h"];
    let s1 = MagicString::new(&s1);
    let s2 = MagicString::new(&s2);
    let s3 = MagicString::new(&s3);
    let s4 = MagicString::new(&s4);
    let line = s1.concat(s2).concat(s3).concat(s4);
    let line_chars = line.chars();
    let line_actual = collect(line_chars);
    let tree = (s1.concat(s2)).concat(s3.concat(s4));
    let tree_chars = tree.chars();
    let tree_actual = collect(tree_chars);
    let expected = "abcdefgh".to_string();
    assert_eq!(line_actual, expected);
    assert_eq!(line_actual, tree_actual);
}

#[test]
fn concat_collect() {
    let left = ["a", "b"];
    let right = ["c", "d"];
    let left = MagicString::new(&left);
    let right = MagicString::new(&right);
    let string = left.concat(right);
    let chars = string.chars();
    let actual = collect(chars);
    let expected = "abcd".to_string();
    assert_eq!(actual, expected);
}

#[test]
fn concat_split() {
    let left = ["0123", "4", "56"];
    let right = ["c", "d"];
    let left = MagicString::new(&left);
    let right = MagicString::new(&right);
    let string = left.concat(right);
    let (left, right) = string.split_at(3).unwrap();

    let actual = left.to_string();
    let expected = "012".to_string();
    assert_eq!(expected, actual);

    let actual = right.to_string();
    let expected = "3456cd".to_string();
    assert_eq!(expected, actual);
}

#[test]
fn small_trims() {
    let left = ["  "];
    let left = MagicString::new(&left);
    let actual = collect(left.trim_start().chars());
    let expected = "".to_string();
    assert_eq!(expected, actual);
    let actual = collect(left.trim_end().chars());
    let expected = "".to_string();
    assert_eq!(expected, actual);

    let left = ["a"];
    let right = ["  "];
    let left = MagicString::new(&left);
    let right = MagicString::new(&right);
    let s = left.concat(right);
    let actual = collect(s.trim_end().chars());
    let expected = "a".to_string();
    assert_eq!(expected, actual);
}

#[test]
fn big_trims() {
    let left = ["   ", " ", "  "];
    let mid = [" ", "T", " "];
    let right = [" ", "     ", " "];
    let left = MagicString::new(&left);
    let mid = MagicString::new(&mid);
    let right = MagicString::new(&right);
    let s = left.concat(mid).concat(right);
    let actual = collect(s.trim_start().chars());
    let expected = "T        ".to_string();
    assert_eq!(expected, actual);

    let actual = collect(s.trim_end().chars());
    let expected = "       T".to_string();
    assert_eq!(expected, actual);

    let actual = collect(s.trim().chars());
    let expected = "T".to_string();
    assert_eq!(expected, actual);
}
