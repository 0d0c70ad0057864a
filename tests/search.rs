use magicstring::{Contains, Find, MagicString};

#[test]
fn contains_char() {
    let s = ["ab", "cd"];
    let string = MagicString::new(&s);
    assert!(string.contains('a'));
    assert!(string.contains('b'));
    assert!(string.contains('c'));
    assert!(string.contains('d'));

    assert!(!string.contains('e'));

    let (left, _) = string.split_at(3).unwrap();
    assert!(left.contains('c'));
}

#[test]
fn contains_slice_o_chars() {
    let s = ["ab", "cd"];
    let string = MagicString::new(&s);
    assert!(string.contains(['a', 'x'].as_slice()));
    assert!(!string.contains(['y', 'x'].as_slice()));
}

#[test]
fn find_by_char() {
    let input = ["ab ", "c e", "fg"];
    let string = MagicString::new(input.as_slice());

    // Find first space
    let actual = string.find(' ').unwrap();
    let expected = 2;
    assert_eq!(expected, actual);

    // Find 'e'
    let actual = string.find('e').unwrap();
    let expected = 5;
    assert_eq!(expected, actual);
}

#[test]
fn find_by_slice() {
    let input = ["ab ", "c e", "fg"];
    let string = MagicString::new(input.as_slice());

    // Find first space
    let actual = string.find(['|', ' '].as_slice()).unwrap();
    let expected = 2;
    assert_eq!(expected, actual);

    // Find first space
    let actual = string.find(['f', 'g', '%'].as_slice()).unwrap();
    let expected = 6;
    assert_eq!(expected, actual);
}

#[test]
fn rfind_by_char() {
    let s = ["12", "3$45", "6$7", "89"];
    let string = MagicString::new(&s);
    let pos = string.rfind('$').unwrap();
    let string = string.get(..=pos).unwrap();
    let actual = string.to_string();
    let expected = String::from("123$456$");
    assert_eq!(expected, actual);
}

#[test]
fn rfind_by_slice() {
    let s = ["123$456$789"];
    let string = MagicString::new(&s);
    let pos = string.rfind(['|', '$'].as_slice()).unwrap();
    let string = string.get(..=pos).unwrap();
    let actual = string.to_string();
    let expected = String::from("123$456$");
    assert_eq!(expected, actual);
}

#[test]
fn rfind_on_substring() {
    let s = ["01", "23", "4567"];
    let string = MagicString::new(&s);
    let substring = string.get(1..5).unwrap();
    let pos = substring.rfind('3').unwrap();

    let substring = substring.get(..pos).unwrap();
    let actual = substring.to_string();
    let expected = String::from("12");
    assert_eq!(expected, actual);
}
