use magicstring::{Chars, Contains, Find, MagicString, MagicStringTrait, SplitError};

fn collect<V: MagicStringTrait>(mut chars: Chars<V>) -> String {
    let mut out = String::new();
    while let Some(c) = chars.next() {
        out.push(c);
    }
    out
}

#[test]
fn len_is_sum_of_slice_lengths() {
    let s = ["ab", "", "c🍅", "d"];
    let string = MagicString::new(&s);
    let (_, rest) = string.split_at(1).unwrap();
    let mut iter = rest.iter();
    let mut sum = 0;
    while let Some(piece) = iter.next() {
        sum += piece.len();
    }
    assert_eq!(rest.len(), sum);
    assert_eq!(sum, 7);
}

#[test]
fn split_then_rejoin_every_boundary() {
    let s = ["a🍅", "bc", "", "é"];
    let string = MagicString::new(&s);
    let whole = string.to_string();
    for i in 0..=string.len() {
        match string.split_at(i) {
            Ok((left, right)) => {
                assert!(whole.is_char_boundary(i));
                assert_eq!(left.to_string() + &right.to_string(), whole);
                assert_eq!(left.len(), i);
            }
            Err(e) => {
                assert_eq!(e, SplitError::NotCharBoundary);
                assert!(!whole.is_char_boundary(i));
            }
        }
    }
}

#[test]
fn split_past_the_end_is_an_error() {
    let s = ["ab", "c"];
    let string = MagicString::new(&s);
    assert!(matches!(string.split_at(4), Err(SplitError::OutOfBounds)));
    let left = MagicString::new(&s);
    let right = MagicString::new(&s);
    let joined = left.concat(right);
    assert!(matches!(joined.split_at(7), Err(SplitError::OutOfBounds)));
}

#[test]
fn split_inside_a_character_is_an_error() {
    let s = ["a🍅b"];
    let string = MagicString::new(&s);
    assert!(matches!(string.split_at(2), Err(SplitError::NotCharBoundary)));
    let other = ["x"];
    let joined = MagicString::new(&other).concat(string);
    assert!(matches!(joined.split_at(3), Err(SplitError::NotCharBoundary)));
    assert!(matches!(joined.split_at(6), Ok(_)));
}

#[test]
fn concat_content_is_associative() {
    let a = ["a", "b"];
    let b = ["🍅"];
    let c = ["c", "", "d"];
    let a = MagicString::new(&a);
    let b = MagicString::new(&b);
    let c = MagicString::new(&c);
    let left_first = a.concat(b).concat(c);
    let right_first = a.concat(b.concat(c));
    assert_eq!(left_first.to_string(), "ab🍅cd");
    assert_eq!(right_first.to_string(), "ab🍅cd");
    assert_eq!(left_first.len(), right_first.len());
}

#[test]
fn trims_are_idempotent() {
    let s = [" \t", " x ", "y\n", "  "];
    let string = MagicString::new(&s);
    let once = string.trim_start();
    assert_eq!(once.to_string(), "x y\n  ");
    assert_eq!(once.trim_start().to_string(), once.to_string());
    let once = string.trim_end();
    assert_eq!(once.to_string(), " \t x y");
    assert_eq!(once.trim_end().to_string(), once.to_string());
    let once = string.trim();
    assert_eq!(once.to_string(), "x y");
    assert_eq!(once.trim().to_string(), once.to_string());
}

#[test]
fn trim_of_all_white_space_is_empty() {
    let s = ["  ", "\t", " "];
    let string = MagicString::new(&s);
    assert!(string.trim().is_empty());
    assert!(string.trim_start().is_empty());
    assert!(string.trim_end().is_empty());
    let empty: [&str; 0] = [];
    let nothing = MagicString::new(&empty);
    assert!(nothing.trim().is_empty());
}

#[test]
fn trim_keeps_unicode_white_space_rules() {
    let s = ["\u{3000}", "é\u{2003}"];
    let string = MagicString::new(&s);
    assert_eq!(string.trim().to_string(), "é");
}

#[test]
fn find_agrees_with_contains() {
    let s = ["ab", "🍅c", ""];
    let string = MagicString::new(&s);
    for c in ['a', 'c', '🍅', 'z'] {
        assert_eq!(string.find(c).is_some(), string.contains(c));
    }
    assert_eq!(string.find('c'), Some(6));
    assert_eq!(string.find('z'), None);
    assert_eq!(string.rfind('z'), None);
    assert_eq!(string.find(['z', 'y'].as_slice()), None);
}

#[test]
fn rfind_finds_the_last_match() {
    let s = ["a-b", "-", "c-"];
    let string = MagicString::new(&s);
    assert_eq!(string.rfind('-'), Some(5));
    assert_eq!(string.find('-'), Some(1));
    assert_eq!(string.rfind(['b', 'a'].as_slice()), Some(2));
}

#[test]
fn pop_shortens_by_the_character_width() {
    let s = ["a", "🍅", ""];
    let mut string = MagicString::new(&s);
    let before = string.len();
    assert_eq!(string.pop(), Some('🍅'));
    assert_eq!(string.len(), before - '🍅'.len_utf8());
    assert_eq!(string.pop(), Some('a'));
    assert_eq!(string.len(), 0);
    assert_eq!(string.pop(), None);
    assert_eq!(string.len(), 0);
}

#[test]
fn pop_on_a_concatenation() {
    let a = ["xy"];
    let b = ["é"];
    let mut joined = MagicString::new(&a).concat(MagicString::new(&b));
    assert_eq!(joined.pop(), Some('é'));
    assert_eq!(joined.to_string(), "xy");
    assert_eq!(joined.pop(), Some('y'));
    assert_eq!(joined.len(), 1);
}

#[test]
fn char_indices_of_a_concatenation_count_from_the_start() {
    let left = ["a", "🍅", "b"];
    let right = ["c", "d"];
    let left = MagicString::new(&left);
    let right = MagicString::new(&right);
    let string = left.concat(right);
    let mut chars = string.char_indices();
    assert_eq!(chars.next().unwrap(), (0, 'a'));
    assert_eq!(chars.next().unwrap(), (1, '🍅'));
    assert_eq!(chars.next().unwrap(), (5, 'b'));
    assert_eq!(chars.next().unwrap(), (6, 'c'));
    assert_eq!(chars.next().unwrap(), (7, 'd'));
    assert_eq!(chars.next(), None);
}

#[test]
fn bytes_of_a_window() {
    let s = ["xa", "é"];
    let string = MagicString::new(&s);
    let (_, rest) = string.split_at(1).unwrap();
    let mut bytes = rest.bytes();
    assert_eq!(bytes.next(), Some(b'a'));
    assert_eq!(bytes.next(), Some(0xc3));
    assert_eq!(bytes.next(), Some(0xa9));
    assert_eq!(bytes.next(), None);
}

#[test]
fn get_by_every_kind_of_range() {
    let s = ["012", "345"];
    let string = MagicString::new(&s);
    assert_eq!(string.get(1..5).unwrap().to_string(), "1234");
    assert_eq!(string.get(..5).unwrap().to_string(), "01234");
    assert_eq!(string.get(..=4).unwrap().to_string(), "01234");
    assert_eq!(string.get(1..=5).unwrap().to_string(), "12345");
    assert_eq!(string.get(2..).unwrap().to_string(), "2345");
    assert_eq!(string.get(..).unwrap().to_string(), "012345");
    assert!(matches!(string.get(4..2), Err(SplitError::OutOfBounds)));
    assert!(matches!(string.get(0..7), Err(SplitError::OutOfBounds)));
}

#[test]
fn first_character() {
    let s = ["", "🍅x"];
    let string = MagicString::new(&s);
    assert_eq!(string.first(), Some('🍅'));
    let empty = [""];
    assert_eq!(MagicString::new(&empty).first(), None);
}

#[test]
fn width_counts_columns() {
    let s = ["ab", "🍅", "\u{a1}"];
    let string = MagicString::new(&s);
    assert_eq!(string.width(), Some(5));
    assert_eq!(string.width_cjk(), Some(6));
}

#[test]
fn concat_contains() {
    let a = ["ab"];
    let b = ["cd"];
    let joined = MagicString::new(&a).concat(MagicString::new(&b));
    assert!(joined.contains('d'));
    assert!(joined.contains(['x', 'a'].as_slice()));
    assert!(!joined.contains('e'));
}

#[test]
fn empty_split_of_an_empty_string() {
    let s: [&str; 0] = [];
    let string = MagicString::new(&s);
    let (left, right) = string.split_at(0).unwrap();
    assert!(left.is_empty());
    assert!(right.is_empty());
    assert!(matches!(string.split_at(1), Err(SplitError::OutOfBounds)));
}
