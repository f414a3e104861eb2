use texreflow::chars::{is_ascii_digit, is_ascii_whitespace, is_whitespace, len_utf8, same_letter};

#[test]
fn whitespace_is_that_of_unicode() {
    for n in 0..=0x10ffff_u32 {
        if let Some(c) = char::from_u32(n) {
            assert_eq!(is_whitespace(c), c.is_whitespace(), "{n:x}");
        }
    }
}

#[test]
fn ascii_classes_are_those_of_std() {
    for n in 0..=0x10ffff_u32 {
        if let Some(c) = char::from_u32(n) {
            assert_eq!(is_ascii_whitespace(c), c.is_ascii_whitespace(), "{n:x}");
            assert_eq!(is_ascii_digit(c), c.is_ascii_digit(), "{n:x}");
        }
    }
}

#[test]
fn widths_are_those_of_utf8() {
    for n in 0..=0x10ffff_u32 {
        if let Some(c) = char::from_u32(n) {
            assert_eq!(len_utf8(c), c.len_utf8(), "{n:x}");
        }
    }
}

#[test]
fn letters_are_compared_without_ascii_case() {
    for n in 0..0x250_u32 {
        for m in 0..0x250_u32 {
            let a = char::from_u32(n).unwrap();
            let b = char::from_u32(m).unwrap();
            assert_eq!(same_letter(a, b), a.eq_ignore_ascii_case(&b), "{n:x} {m:x}");
        }
    }
}
