use cracken::bytes::{put_bytes, shift_bytes};
use cracken::stackbuf::StackBuf;
use cracken::{BUFFER_SIZE, MAX_WORD_SIZE};

#[test]
fn sizes() {
    assert_eq!(BUFFER_SIZE, 8192);
    assert_eq!(MAX_WORD_SIZE, 128);
}

#[test]
fn write_appends_and_clear_forgets() {
    let mut buf = StackBuf::new();
    assert_eq!(buf.len(), 8192);
    assert_eq!(buf.pos(), 0);
    assert_eq!(buf.getdata(), b"");
    buf.write(b"abc\n");
    buf.write(b"");
    buf.write(b"de\n");
    assert_eq!(buf.pos(), 7);
    assert_eq!(buf.getdata(), b"abc\nde\n");
    buf.clear();
    assert_eq!(buf.pos(), 0);
    assert_eq!(buf.getdata(), b"");
    buf.write(b"x");
    assert_eq!(buf.getdata(), b"x");
}

#[test]
fn is_full_at_the_capacity() {
    let mut buf = StackBuf::new();
    assert!(!buf.is_full(8192));
    assert!(buf.is_full(8193));
    buf.write(&vec![7u8; 8000]);
    assert!(!buf.is_full(192));
    assert!(buf.is_full(193));
    buf.write(&vec![8u8; 192]);
    assert_eq!(buf.pos(), 8192);
    assert!(!buf.is_full(0));
    assert!(buf.is_full(1));
    assert_eq!(buf.getdata()[7999], 7);
    assert_eq!(buf.getdata()[8000], 8);
}

#[test]
fn flush_appends_to_the_vector() {
    let mut buf = StackBuf::new();
    let mut out: Vec<u8> = b"0\n".to_vec();
    buf.write(b"1\n2\n");
    buf.flush_to(&mut out);
    assert_eq!(out, b"0\n1\n2\n");
    assert_eq!(buf.pos(), 0);
    buf.flush_to(&mut out);
    assert_eq!(out, b"0\n1\n2\n");
}

#[test]
fn shift_right_and_left() {
    let mut v = b"abcdefgh".to_vec();
    shift_bytes(&mut v, 2, 5, 4);
    assert_eq!(&v[4..7], b"cde");
    assert_eq!(&v[..2], b"ab");
    let mut v = b"abcdefgh".to_vec();
    shift_bytes(&mut v, 3, 8, 1);
    assert_eq!(&v[1..6], b"defgh");
    assert_eq!(&v[..1], b"a");
    let mut v = b"abcdefgh".to_vec();
    shift_bytes(&mut v, 3, 6, 3);
    assert_eq!(v, b"abcdefgh");
    shift_bytes(&mut v, 4, 4, 8);
    assert_eq!(v, b"abcdefgh");
}

#[test]
fn put_overwrites_in_place() {
    let mut v = b"abcdefgh".to_vec();
    put_bytes(&mut v, 2, b"XYZ");
    assert_eq!(v, b"abXYZfgh");
    put_bytes(&mut v, 8, b"");
    assert_eq!(v, b"abXYZfgh");
    put_bytes(&mut v, 0, b"12345678");
    assert_eq!(v, b"12345678");
}
