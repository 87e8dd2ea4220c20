use cracken::errors::GenError;
use cracken::generators::{WordGenerator, WordlistGenerator};
use cracken::stackbuf::StackBuf;
use cracken::wordlists::Wordlist;

fn list(data: &[u8]) -> Wordlist {
    Wordlist::from_bytes(data).unwrap()
}

fn generate(w: &WordlistGenerator) -> String {
    let mut out: Vec<u8> = Vec::new();
    w.gen(&mut out);
    String::from_utf8(out).unwrap()
}

#[test]
fn wordlist_then_digit() {
    let g = WordlistGenerator::new("?w1?1", vec![list(b"ab\nc\n")], &vec!["01"]).unwrap();
    assert_eq!(g.mask, "?w1?1");
    assert_eq!(generate(&g), "ab0\nab1\nc0\nc1\n");
}

#[test]
fn words_of_different_lengths_in_the_middle() {
    let g = WordlistGenerator::new("x?w1?1", vec![list(b"a\nbcd\n\nzz")], &vec!["10"]).unwrap();
    assert_eq!(generate(&g), "xa0\nxa1\nxbcd0\nxbcd1\nx0\nx1\nxzz0\nxzz1\n");
}

#[test]
fn same_wordlist_twice_cycles_independently() {
    let g = WordlistGenerator::new("?w1-?w1", vec![list(b"a\nbb")], &vec![]).unwrap();
    assert_eq!(generate(&g), "a-a\na-bb\nbb-a\nbb-bb\n");
}

#[test]
fn two_wordlists_and_a_charset() {
    let lists = vec![list(b"john\nmary\n"), list(b"smith\nng\n")];
    let g = WordlistGenerator::new("?w1?w2?1", lists, &vec!["!#"]).unwrap();
    assert_eq!(
        generate(&g),
        "johnsmith!\njohnsmith#\njohnng!\njohnng#\nmarysmith!\nmarysmith#\nmaryng!\nmaryng#\n"
    );
}

#[test]
fn repeated_lists_in_any_order() {
    let lists = vec![list(b"go\nrun"), list(b"cat\nox")];
    let g = WordlistGenerator::new("?w2?w1?w2", lists, &vec![]).unwrap();
    let verbs = ["go", "run"];
    let nouns = ["cat", "ox"];
    let mut expected = String::new();
    for a in nouns.iter() {
        for b in verbs.iter() {
            for c in nouns.iter() {
                expected.push_str(a);
                expected.push_str(b);
                expected.push_str(c);
                expected.push('\n');
            }
        }
    }
    assert_eq!(generate(&g), expected);
}

#[test]
fn every_combination_exactly_once() {
    let lists = vec![list(b"a\nbb\nccc")];
    let g = WordlistGenerator::new("?w1?1?w1", lists, &vec!["xy"]).unwrap();
    let text = generate(&g);
    let mut all: Vec<&str> = text.lines().collect();
    assert_eq!(all.len(), 3 * 2 * 3);
    all.sort();
    all.dedup();
    assert_eq!(all.len(), 18);
    for w in ["a", "bb", "ccc"] {
        for c in ["x", "y"] {
            for v in ["a", "bb", "ccc"] {
                let word = format!("{}{}{}", w, c, v);
                assert!(all.contains(&word.as_str()));
            }
        }
    }
}

#[test]
fn charsets_only_mask_in_the_mixed_generator() {
    let g = WordlistGenerator::new("?1?d", vec![], &vec!["ab"]).unwrap();
    let text = generate(&g);
    let all: Vec<&str> = text.lines().collect();
    assert_eq!(all.len(), 20);
    assert_eq!(all[0], "a0");
    assert_eq!(all[9], "a9");
    assert_eq!(all[10], "b0");
    assert_eq!(all[19], "b9");
}

#[test]
fn list_of_one_empty_word() {
    let g = WordlistGenerator::new("?w1", vec![list(b"\n")], &vec![]).unwrap();
    assert_eq!(generate(&g), "\n");
}

#[test]
fn output_larger_than_one_batch_with_shifting() {
    let lists = vec![list(b"a\nlonger\n\nmid")];
    let g = WordlistGenerator::new("?d?w1?d?d?w1", lists, &vec![]).unwrap();
    let words = ["a", "longer", "", "mid"];
    let mut expected = String::new();
    for a in 0..10 {
        for w in words.iter() {
            for b in 0..10 {
                for c in 0..10 {
                    for v in words.iter() {
                        expected.push_str(&format!("{}{}{}{}{}\n", a, w, b, c, v));
                    }
                }
            }
        }
    }
    assert!(expected.len() > 3 * 8192);
    assert_eq!(generate(&g), expected);
}

#[test]
fn combinations_is_the_sum_of_sizes() {
    let g = WordlistGenerator::new("?w1?d", vec![list(b"ab\nc\n")], &vec![]).unwrap();
    assert_eq!(g.combinations(), 12);
    assert_eq!(g.checked_combinations(), Some(12));
    assert_eq!(generate(&g).lines().count(), 20);
    let g = WordlistGenerator::new("?w1?w1?u", vec![list(b"a\nb\nc")], &vec![]).unwrap();
    assert_eq!(g.combinations(), 3 + 3 + 26);
}

#[test]
fn mixed_construction_errors() {
    let none: Vec<&str> = vec![];
    assert_eq!(
        WordlistGenerator::new("?w2", vec![list(b"a")], &none).err(),
        Some(GenError::InvalidCharset)
    );
    assert_eq!(
        WordlistGenerator::new("?w1", vec![], &none).err(),
        Some(GenError::InvalidCharset)
    );
    assert_eq!(
        WordlistGenerator::new("?w", vec![list(b"a")], &none).err(),
        Some(GenError::MaskSyntax)
    );
    assert_eq!(
        WordlistGenerator::new("?w0", vec![list(b"a")], &none).err(),
        Some(GenError::MaskSyntax)
    );
    assert_eq!(
        WordlistGenerator::new("", vec![list(b"a")], &none).err(),
        Some(GenError::LengthRange)
    );
    assert_eq!(
        WordlistGenerator::new("?w1?3", vec![list(b"a")], &vec!["x", "y"]).err(),
        Some(GenError::InvalidCharset)
    );
}

#[test]
fn longest_line_must_fit() {
    let none: Vec<&str> = vec![];
    let mut data = vec![b'a'; 126];
    data.push(b'\n');
    data.push(b'b');
    let g = WordlistGenerator::new("?w1?d", vec![list(&data)], &none).unwrap();
    let text = generate(&g);
    assert_eq!(text.lines().count(), 20);
    assert_eq!(text.lines().next().unwrap().len(), 127);
    assert_eq!(
        WordlistGenerator::new("?w1?d?d", vec![list(&data)], &none).err(),
        Some(GenError::Configuration)
    );
    let g = WordlistGenerator::new("?w1?w1", vec![list(&vec![b'z'; 63])], &none);
    assert!(g.is_ok());
    let g = WordlistGenerator::new("?w1?w1", vec![list(&vec![b'z'; 64])], &none);
    assert_eq!(g.err(), Some(GenError::Configuration));
}

#[test]
fn mixed_cursor_walks_the_whole_output() {
    let lists = vec![list(b"a\nlonger\n\nmid")];
    let g = WordlistGenerator::new("?w1?d?d?d?w1", lists, &vec![]).unwrap();
    let mut cur = g.start();
    let mut buf = StackBuf::new();
    let mut streamed: Vec<u8> = Vec::new();
    let mut batches = 0;
    while !cur.is_finished() {
        g.next_batch(&mut cur, &mut buf);
        assert!(buf.pos() > 0);
        assert!(cur.is_finished() || buf.pos() + 128 > 8192);
        assert_eq!(buf.getdata()[buf.pos() - 1], b'\n');
        streamed.extend_from_slice(buf.getdata());
        batches += 1;
    }
    g.next_batch(&mut cur, &mut buf);
    assert_eq!(buf.pos(), 0);
    assert!(batches > 2);
    assert_eq!(String::from_utf8(streamed).unwrap(), generate(&g));
}
