use cracken::charsets::{
    class_contains, class_known, Charset, CLASS_ALL, CLASS_BYTES, CLASS_DIGITS, CLASS_LOWER,
    CLASS_SYMBOLS, CLASS_UPPER,
};
use cracken::errors::GenError;

fn members(class: u8) -> Vec<u8> {
    match Charset::from_builtin(class) {
        Ok(cs) => cs.members().to_vec(),
        Err(_) => panic!("unknown class"),
    }
}

#[test]
fn class_letters() {
    assert_eq!(CLASS_DIGITS, b'd');
    assert_eq!(CLASS_LOWER, b'l');
    assert_eq!(CLASS_UPPER, b'u');
    assert_eq!(CLASS_SYMBOLS, b's');
    assert_eq!(CLASS_ALL, b'a');
    assert_eq!(CLASS_BYTES, b'b');
    assert!(class_known(b'd'));
    assert!(!class_known(b'x'));
    assert!(!class_known(b'w'));
}

#[test]
fn builtin_class_members() {
    assert_eq!(members(b'd'), b"0123456789");
    assert_eq!(members(b'l'), b"abcdefghijklmnopqrstuvwxyz");
    assert_eq!(members(b'u'), b"ABCDEFGHIJKLMNOPQRSTUVWXYZ");
    assert_eq!(members(b's'), b" !\"#$%&'()*+,-./:;<=>?@[\\]^_`{|}~");
    let all = members(b'a');
    assert_eq!(all.len(), 95);
    assert_eq!(all[0], b' ');
    assert_eq!(all[94], b'~');
    let bytes = members(b'b');
    assert_eq!(bytes.len(), 256);
    for v in 0..256usize {
        assert_eq!(bytes[v], v as u8);
    }
}

#[test]
fn builtin_class_sizes() {
    let sizes: Vec<usize> = [b'd', b'l', b'u', b's', b'a', b'b']
        .iter()
        .map(|c| members(*c).len())
        .collect();
    assert_eq!(sizes, vec![10, 26, 26, 33, 95, 256]);
}

#[test]
fn all_is_the_union_of_the_four() {
    let mut union: Vec<u8> = Vec::new();
    for c in [b'd', b'l', b'u', b's'] {
        union.extend(members(c));
    }
    union.sort();
    assert_eq!(members(b'a'), union);
    for v in 0..=255u8 {
        let any = class_contains(b'd', v)
            || class_contains(b'l', v)
            || class_contains(b'u', v)
            || class_contains(b's', v);
        assert_eq!(class_contains(b'a', v), any);
        assert!(class_contains(b'b', v));
        assert!(!class_contains(b'x', v));
    }
}

#[test]
fn unknown_class_is_rejected() {
    assert_eq!(Charset::from_builtin(b'x').err(), Some(GenError::InvalidCharset));
    assert_eq!(Charset::from_builtin(b'D').err(), Some(GenError::InvalidCharset));
    assert_eq!(Charset::from_builtin(b'1').err(), Some(GenError::InvalidCharset));
}

#[test]
fn literal_is_a_singleton() {
    let cs = Charset::from_literal(b'p');
    assert_eq!(cs.size(), 1);
    assert_eq!(cs.min_value(), b'p');
    assert_eq!(cs.members(), b"p");
    assert_eq!(cs.next(b'p'), b'p');
}

#[test]
fn custom_is_sorted() {
    let cs = Charset::from_custom(b"zax5").ok().unwrap();
    assert_eq!(cs.members(), b"5axz");
    assert_eq!(cs.size(), 4);
    assert_eq!(cs.min_value(), b'5');
}

#[test]
fn custom_rejects_empty_and_duplicates() {
    assert_eq!(Charset::from_custom(b"").err(), Some(GenError::InvalidCharset));
    assert_eq!(Charset::from_custom(b"abca").err(), Some(GenError::InvalidCharset));
    assert_eq!(Charset::from_custom(b"aa").err(), Some(GenError::InvalidCharset));
    assert!(Charset::from_custom(b"a").is_ok());
}

#[test]
fn next_steps_up_and_wraps() {
    let cs = Charset::from_custom(b"56789").ok().unwrap();
    assert_eq!(cs.next(b'5'), b'6');
    assert_eq!(cs.next(b'6'), b'7');
    assert_eq!(cs.next(b'8'), b'9');
    assert_eq!(cs.next(b'9'), b'5');
    let mut v = cs.min_value();
    let mut seen = vec![v];
    loop {
        let n = cs.next(v);
        if n <= v {
            assert_eq!(n, cs.min_value());
            break;
        }
        seen.push(n);
        v = n;
    }
    assert_eq!(seen, b"56789");
}

#[test]
fn next_over_all_bytes() {
    let cs = Charset::from_builtin(b'b').ok().unwrap();
    assert_eq!(cs.min_value(), 0);
    assert_eq!(cs.next(0), 1);
    assert_eq!(cs.next(254), 255);
    assert_eq!(cs.next(255), 0);
}
