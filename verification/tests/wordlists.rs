use cracken::errors::GenError;
use cracken::wordlists::Wordlist;

fn words(data: &[u8]) -> Vec<Vec<u8>> {
    let wl = Wordlist::from_bytes(data).ok().unwrap();
    (0..wl.len()).map(|i| wl.word(i).to_vec()).collect()
}

#[test]
fn one_word_per_line() {
    assert_eq!(words(b"a\nbc\ndef\n"), vec![b"a".to_vec(), b"bc".to_vec(), b"def".to_vec()]);
}

#[test]
fn last_line_without_line_feed() {
    assert_eq!(words(b"a\nbc"), vec![b"a".to_vec(), b"bc".to_vec()]);
    assert_eq!(words(b"solo"), vec![b"solo".to_vec()]);
}

#[test]
fn empty_lines_are_empty_words() {
    assert_eq!(words(b"\n"), vec![b"".to_vec()]);
    assert_eq!(words(b"a\n\nb"), vec![b"a".to_vec(), b"".to_vec(), b"b".to_vec()]);
    assert_eq!(words(b"\n\n"), vec![b"".to_vec(), b"".to_vec()]);
    assert_eq!(words(b"\nx\n"), vec![b"".to_vec(), b"x".to_vec()]);
}

#[test]
fn nothing_is_trimmed_or_sorted() {
    assert_eq!(
        words(b" b \r\na\n\tz\na\n"),
        vec![b" b \r".to_vec(), b"a".to_vec(), b"\tz".to_vec(), b"a".to_vec()]
    );
    assert_eq!(words(&[0xff, 0x00, 0x0a, 0x80]), vec![vec![0xff, 0x00], vec![0x80]]);
}

#[test]
fn a_file_without_bytes_is_rejected() {
    assert_eq!(Wordlist::from_bytes(b"").err(), Some(GenError::InvalidCharset));
}

#[test]
fn longest_word() {
    let wl = Wordlist::from_bytes(b"a\nlonger\n\nmid").ok().unwrap();
    assert_eq!(wl.len(), 4);
    assert_eq!(wl.max_word_len(), 6);
    let wl = Wordlist::from_bytes(b"\n").ok().unwrap();
    assert_eq!(wl.max_word_len(), 0);
}
