use cracken::errors::GenError;
use cracken::mask::{parse_bytes, parse_mask, MaskOp, ESCAPE, WORDLIST_MARK};

#[test]
fn grammar_bytes() {
    assert_eq!(ESCAPE, b'?');
    assert_eq!(WORDLIST_MARK, b'w');
}

#[test]
fn literals_pass_through() {
    assert_eq!(
        parse_mask("ab1").unwrap(),
        vec![MaskOp::Char(b'a'), MaskOp::Char(b'b'), MaskOp::Char(b'1')]
    );
    assert_eq!(parse_mask("").unwrap(), vec![]);
    assert_eq!(parse_mask("w").unwrap(), vec![MaskOp::Char(b'w')]);
}

#[test]
fn builtin_classes() {
    assert_eq!(
        parse_mask("?d?l?u?s?a?b").unwrap(),
        vec![
            MaskOp::BuiltinCharset(b'd'),
            MaskOp::BuiltinCharset(b'l'),
            MaskOp::BuiltinCharset(b'u'),
            MaskOp::BuiltinCharset(b's'),
            MaskOp::BuiltinCharset(b'a'),
            MaskOp::BuiltinCharset(b'b'),
        ]
    );
}

#[test]
fn custom_and_wordlist_indices_count_from_zero() {
    assert_eq!(
        parse_mask("?1?9?w1?w9").unwrap(),
        vec![
            MaskOp::CustomCharset(0),
            MaskOp::CustomCharset(8),
            MaskOp::Wordlist(0),
            MaskOp::Wordlist(8),
        ]
    );
}

#[test]
fn mixed_mask() {
    assert_eq!(
        parse_mask("pwd?u?l201?1").unwrap(),
        vec![
            MaskOp::Char(b'p'),
            MaskOp::Char(b'w'),
            MaskOp::Char(b'd'),
            MaskOp::BuiltinCharset(b'u'),
            MaskOp::BuiltinCharset(b'l'),
            MaskOp::Char(b'2'),
            MaskOp::Char(b'0'),
            MaskOp::Char(b'1'),
            MaskOp::CustomCharset(0),
        ]
    );
    assert_eq!(
        parse_mask("?w1w?dd").unwrap(),
        vec![
            MaskOp::Wordlist(0),
            MaskOp::Char(b'w'),
            MaskOp::BuiltinCharset(b'd'),
            MaskOp::Char(b'd'),
        ]
    );
}

#[test]
fn unknown_escapes_are_syntax_errors() {
    for bad in ["?", "?x", "a?", "??", "?0", "?w", "?w0", "?wa", "?D", "?d?", "?w1?w", "? "] {
        assert_eq!(parse_mask(bad), Err(GenError::MaskSyntax));
    }
}

#[test]
fn bytes_that_are_no_text() {
    assert_eq!(
        parse_bytes(&[0xff, b'?', b'd', 0x00, 0x0a]).unwrap(),
        vec![
            MaskOp::Char(0xff),
            MaskOp::BuiltinCharset(b'd'),
            MaskOp::Char(0x00),
            MaskOp::Char(0x0a),
        ]
    );
    assert_eq!(parse_bytes(&[b'?', 0xff]), Err(GenError::MaskSyntax));
}
