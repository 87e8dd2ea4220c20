use cracken::errors::GenError;
use cracken::generators::{
    get_word_generator, Action, Cursor, Generator, SinkEvent, WordGenerator,
};
use cracken::stackbuf::StackBuf;
use cracken::wordlists::Wordlist;

fn list(data: &[u8]) -> Wordlist {
    Wordlist::from_bytes(data).ok().unwrap()
}

fn whole(g: &Generator) -> Vec<u8> {
    let mut out: Vec<u8> = Vec::new();
    g.gen(&mut out);
    out
}

/// Runs the generator against a sink that takes `limit` bytes and is then
/// closed. Returns what the sink took and the last action.
fn run_until_closed(g: &Generator, limit: usize) -> (Vec<u8>, Action, usize) {
    let mut taken: Vec<u8> = Vec::new();
    let mut cur = g.start();
    let mut buf = StackBuf::new();
    let mut event = SinkEvent::Ready;
    let mut steps = 0;
    loop {
        let action = g.step(&mut cur, &mut buf, event);
        steps += 1;
        match action {
            Action::Write => {
                if taken.len() + buf.pos() > limit {
                    event = SinkEvent::Closed;
                } else {
                    taken.extend_from_slice(buf.getdata());
                    event = SinkEvent::Ready;
                }
            }
            other => {
                assert_eq!(buf.pos(), 0);
                return (taken, other, steps);
            }
        }
    }
}

#[test]
fn no_wordlists_gives_the_charset_generator() {
    let g = get_word_generator("?d", None, None, &vec![], vec![]).ok().unwrap();
    assert!(matches!(g, Generator::Charset(_)));
    assert_eq!(whole(&g), b"0\n1\n2\n3\n4\n5\n6\n7\n8\n9\n");
    assert_eq!(g.combinations(), 10);
    assert_eq!(g.checked_combinations(), Some(10));
}

#[test]
fn lengths_are_honoured_without_wordlists() {
    let g = get_word_generator("?1?1", Some(1), None, &vec!["ab"], vec![]).ok().unwrap();
    assert_eq!(whole(&g), b"a\nb\naa\nab\nba\nbb\n");
    assert_eq!(g.combinations(), 6);
    let g = get_word_generator("?1?1", None, Some(2), &vec!["ab"], vec![]).ok().unwrap();
    assert_eq!(whole(&g), b"aa\nab\nba\nbb\n");
}

#[test]
fn wordlists_give_the_mixed_generator() {
    let g = get_word_generator("?w1?1", None, None, &vec!["xy"], vec![list(b"p\nqq")])
        .ok()
        .unwrap();
    assert!(matches!(g, Generator::Wordlist(_)));
    assert_eq!(whole(&g), b"px\npy\nqqx\nqqy\n");
    assert_eq!(g.combinations(), 4);
}

#[test]
fn lengths_with_wordlists_are_refused() {
    let lists = || vec![list(b"p\nqq")];
    assert_eq!(
        get_word_generator("?w1", Some(1), None, &vec![], lists()).err(),
        Some(GenError::Configuration)
    );
    assert_eq!(
        get_word_generator("?w1", None, Some(1), &vec![], lists()).err(),
        Some(GenError::Configuration)
    );
    assert_eq!(
        get_word_generator("?d", Some(1), Some(1), &vec![], lists()).err(),
        Some(GenError::Configuration)
    );
    assert_eq!(
        get_word_generator("?x", Some(1), Some(1), &vec![], lists()).err(),
        Some(GenError::Configuration)
    );
}

#[test]
fn errors_pass_through_the_factory() {
    assert_eq!(
        get_word_generator("?x", None, None, &vec![], vec![]).err(),
        Some(GenError::MaskSyntax)
    );
    assert_eq!(
        get_word_generator("?d", Some(2), None, &vec![], vec![]).err(),
        Some(GenError::LengthRange)
    );
    assert_eq!(
        get_word_generator("?d", None, Some(5), &vec![], vec![]).err(),
        Some(GenError::LengthRange)
    );
    assert_eq!(
        get_word_generator("?w1", None, None, &vec![], vec![]).err(),
        Some(GenError::UnsupportedToken)
    );
    assert_eq!(
        get_word_generator("?w2", None, None, &vec![], vec![list(b"a")]).err(),
        Some(GenError::InvalidCharset)
    );
    assert_eq!(
        get_word_generator("?1", None, None, &vec![], vec![list(b"a")]).err(),
        Some(GenError::InvalidCharset)
    );
}

#[test]
fn error_messages() {
    assert_eq!(GenError::MaskSyntax.message(), "invalid mask");
    assert_eq!(GenError::InvalidCharset.message(), "invalid charset or index");
    assert_eq!(GenError::LengthRange.message(), "minlen or maxlen is invalid");
    assert_eq!(GenError::Configuration.message(), "invalid configuration");
    assert_eq!(GenError::UnsupportedToken.message(), "wordlists are not supported here");
}

#[test]
fn steps_hand_out_the_whole_output() {
    let g = get_word_generator("?d?d?d?d", Some(2), None, &vec![], vec![]).ok().unwrap();
    let full = whole(&g);
    let (taken, last, steps) = run_until_closed(&g, usize::MAX);
    assert_eq!(last, Action::Finish);
    assert_eq!(taken, full);
    assert!(steps > 5);
}

#[test]
fn closed_sink_ends_the_run_well() {
    let g = get_word_generator("?d?d?d?d", None, None, &vec![], vec![]).ok().unwrap();
    let full = whole(&g);
    assert_eq!(full.len(), 50000);
    for limit in [0usize, 1, 8191, 8192, 8193, 20000, 49999] {
        let (taken, last, _) = run_until_closed(&g, limit);
        assert_eq!(last, Action::Finish);
        assert!(taken.len() <= limit);
        assert!(taken.len() < full.len());
        assert_eq!(&full[..taken.len()], &taken[..]);
        assert!(taken.is_empty() || taken[taken.len() - 1] == b'\n');
    }
}

#[test]
fn closed_sink_ends_a_mixed_run_well() {
    let lists = vec![list(b"a\nlonger\n\nmid")];
    let g = get_word_generator("?w1?d?d?d?w1", None, None, &vec![], lists).ok().unwrap();
    let full = whole(&g);
    let (taken, last, _) = run_until_closed(&g, 10000);
    assert_eq!(last, Action::Finish);
    assert!(taken.len() <= 10000 && !taken.is_empty());
    assert_eq!(&full[..taken.len()], &taken[..]);
    assert_eq!(taken[taken.len() - 1], b'\n');
}

#[test]
fn failed_write_aborts() {
    let g = get_word_generator("?d", None, None, &vec![], vec![]).ok().unwrap();
    let mut cur = g.start();
    let mut buf = StackBuf::new();
    assert_eq!(g.step(&mut cur, &mut buf, SinkEvent::Ready), Action::Write);
    assert_eq!(buf.getdata(), b"0\n1\n2\n3\n4\n5\n6\n7\n8\n9\n");
    assert_eq!(g.step(&mut cur, &mut buf, SinkEvent::Failed), Action::Abort);
    assert_eq!(buf.pos(), 0);
}

#[test]
fn ready_after_the_last_batch_finishes() {
    let g = get_word_generator("?d", None, None, &vec![], vec![]).ok().unwrap();
    let mut cur = g.start();
    assert!(matches!(cur, Cursor::Charset(_)));
    assert!(!cur.is_finished());
    let mut buf = StackBuf::new();
    assert_eq!(g.step(&mut cur, &mut buf, SinkEvent::Ready), Action::Write);
    assert!(cur.is_finished());
    assert_eq!(g.step(&mut cur, &mut buf, SinkEvent::Ready), Action::Finish);
    assert_eq!(buf.pos(), 0);
    assert_eq!(g.step(&mut cur, &mut buf, SinkEvent::Closed), Action::Finish);
}
