use cracken::errors::GenError;
use cracken::generators::{CharsetGenerator, WordGenerator};

fn generate(w: &CharsetGenerator) -> Vec<u8> {
    let mut out: Vec<u8> = Vec::new();
    w.gen(&mut out);
    out
}

fn lines(out: &[u8]) -> Vec<&[u8]> {
    let mut all: Vec<&[u8]> = out.split(|b| *b == b'\n').collect();
    assert_eq!(all.pop(), Some(&b""[..]));
    all
}

#[test]
fn test_gen_words_single_digit() {
    let mask = "?d";
    let word_gen = CharsetGenerator::new(mask, None, None, &vec![]).unwrap();

    assert_eq!(word_gen.mask, mask);
    assert_eq!(word_gen.minlen, 1);
    assert_eq!(word_gen.maxlen, 1);
    assert_eq!(word_gen.charsets().len(), 1);
    assert_eq!(word_gen.min_word(), "0".as_bytes());

    let res = String::from_utf8(generate(&word_gen)).unwrap();
    assert_eq!(res, "0\n1\n2\n3\n4\n5\n6\n7\n8\n9\n");
    assert_eq!(word_gen.combinations(), 10);
}

#[test]
fn test_gen_upper_lower_1_4() {
    let mask = "?u?l?u?l";
    let word_gen = CharsetGenerator::new(mask, Some(1), None, &vec![]).unwrap();

    assert_eq!(word_gen.mask, mask);
    assert_eq!(word_gen.minlen, 1);
    assert_eq!(word_gen.maxlen, 4);
    assert_eq!(word_gen.charsets().len(), 4);
    assert_eq!(word_gen.min_word(), "AaAa".as_bytes());

    let out = generate(&word_gen);
    let all = lines(&out);
    assert_eq!(all.len(), 26 + 26 * 26 + 26 * 26 * 26 + 26 * 26 * 26 * 26);
    assert_eq!(all[0], b"A");
    assert_eq!(all[25], b"Z");
    assert_eq!(all[26], b"Aa");
    assert_eq!(all[27], b"Ab");
    assert_eq!(all[26 + 26], b"Ba");
    assert_eq!(all[all.len() - 1], b"ZzZz");
    assert_eq!(word_gen.combinations(), all.len() as u64);
}

#[test]
fn test_gen_pwd_upper_lower_year_1_4() {
    let mask = "pwd?u?l201?1";
    let word_gen = CharsetGenerator::new(mask, Some(1), None, &vec!["56789"]).unwrap();

    assert_eq!(word_gen.mask, mask);
    assert_eq!(word_gen.minlen, 1);
    assert_eq!(word_gen.maxlen, 9);
    assert_eq!(word_gen.charsets().len(), 9);
    assert_eq!(word_gen.min_word(), "pwdAa2015".as_bytes());

    let out = generate(&word_gen);
    let all = lines(&out);
    assert_eq!(all.len(), 1 + 1 + 1 + 26 + 676 + 676 + 676 + 676 + 3380);
    assert_eq!(all[0], b"p");
    assert_eq!(all[1], b"pw");
    assert_eq!(all[2], b"pwd");
    assert_eq!(all[3], b"pwdA");
    let full: Vec<&[u8]> = all.iter().copied().filter(|w| w.len() == 9).collect();
    assert_eq!(full.len(), 3380);
    assert_eq!(full[0], b"pwdAa2015");
    assert_eq!(full[1], b"pwdAa2016");
    assert_eq!(full[5], b"pwdAb2015");
    assert_eq!(full[full.len() - 1], b"pwdZz2019");
    assert_eq!(word_gen.combinations(), all.len() as u64);
}

#[test]
fn test_gen_stats() {
    let custom_charsets = vec!["abcd", "01"];
    let combinations = vec![
        ("?d?s?u?l?a?b", 5425305600, None, None),
        ("?d?d?d?d?d?d?d?d", 111111110, Some(1), Some(8)),
        ("?d?d?d?d?d?d?d?d", 10000, Some(4), Some(4)),
        ("?d?d?d?d?d?d?d?d", 100000000, None, Some(8)),
        ("?1?2", 8, None, None),
        ("?d?1?2", 80, None, None),
        ("?d?s?u?l?a?b?1?2", 43402444800, None, None),
        ("?d?1?2?d", 930, Some(1), None),
    ];

    for (mask, result, minlen, maxlen) in combinations {
        let word_gen = CharsetGenerator::new(mask, minlen, maxlen, &custom_charsets).unwrap();
        assert_eq!(word_gen.combinations(), result);
    }
}

#[test]
fn class_product_is_the_count() {
    let word_gen = CharsetGenerator::new("?d?s?u?l?a?b", None, None, &vec![]).unwrap();
    assert_eq!(word_gen.combinations(), 10 * 33 * 26 * 26 * 95 * 256);
    assert_eq!(word_gen.checked_combinations(), Some(5425305600));
}

#[test]
fn fixed_length_block_is_ascending_and_complete() {
    let word_gen = CharsetGenerator::new("?1?d?2", None, None, &vec!["cab", "zy"]).unwrap();
    let out = generate(&word_gen);
    assert_eq!(out.len(), 3 * 10 * 2 * 4);
    let all = lines(&out);
    assert_eq!(all.len(), 60);
    for w in all.iter() {
        assert_eq!(w.len(), 3);
    }
    for i in 1..all.len() {
        assert!(all[i - 1] < all[i]);
    }
    assert_eq!(all[0], b"a0y");
    assert_eq!(all[1], b"a0z");
    assert_eq!(all[2], b"a1y");
    assert_eq!(all[59], b"c9z");
    assert_eq!(word_gen.combinations(), 60);
}

#[test]
fn count_matches_lines_for_every_range() {
    let custom = vec!["xyz"];
    for lo in 1..=4usize {
        for hi in lo..=4usize {
            let g = CharsetGenerator::new("?1a?d?1", Some(lo), Some(hi), &custom).unwrap();
            let out = generate(&g);
            let n = lines(&out).len() as u64;
            assert_eq!(g.combinations(), n);
        }
    }
}

#[test]
fn range_is_blocks_in_increasing_length() {
    let g = CharsetGenerator::new("?1?2?1", Some(1), Some(3), &vec!["ab", "01"]).unwrap();
    let mut expected: Vec<u8> = Vec::new();
    g.gen_by_length(1, &mut expected);
    g.gen_by_length(2, &mut expected);
    g.gen_by_length(3, &mut expected);
    assert_eq!(generate(&g), expected);
    let text = String::from_utf8(expected).unwrap();
    assert_eq!(
        text,
        "a\nb\na0\na1\nb0\nb1\na0a\na0b\na1a\na1b\nb0a\nb0b\nb1a\nb1b\n"
    );
}

#[test]
fn gen_appends_to_what_is_there() {
    let g = CharsetGenerator::new("?1", None, None, &vec!["ab"]).unwrap();
    let mut out: Vec<u8> = b"x\n".to_vec();
    g.gen(&mut out);
    assert_eq!(out, b"x\na\nb\n");
}

#[test]
fn all_bytes_class_emits_every_byte() {
    let g = CharsetGenerator::new("?b", None, None, &vec![]).unwrap();
    let out = generate(&g);
    assert_eq!(out.len(), 512);
    for v in 0..256usize {
        assert_eq!(out[2 * v], v as u8);
        assert_eq!(out[2 * v + 1], b'\n');
    }
}

#[test]
fn output_larger_than_one_batch() {
    let g = CharsetGenerator::new("?d?d?d?d", None, None, &vec![]).unwrap();
    let out = generate(&g);
    assert_eq!(out.len(), 50000);
    let all = lines(&out);
    for (i, w) in all.iter().enumerate() {
        assert_eq!(*w, format!("{:04}", i).as_bytes());
    }
}

#[test]
fn length_errors() {
    let none: Vec<&str> = vec![];
    assert_eq!(CharsetGenerator::new("?d", Some(2), None, &none).err(), Some(GenError::LengthRange));
    assert_eq!(CharsetGenerator::new("?d", None, Some(5), &none).err(), Some(GenError::LengthRange));
    assert_eq!(CharsetGenerator::new("?d?d", Some(0), None, &none).err(), Some(GenError::LengthRange));
    assert_eq!(
        CharsetGenerator::new("?d?d?d", Some(3), Some(2), &none).err(),
        Some(GenError::LengthRange)
    );
    assert_eq!(CharsetGenerator::new("", None, None, &none).err(), Some(GenError::LengthRange));
    assert!(CharsetGenerator::new("?d?d?d", Some(2), Some(3), &none).is_ok());
}

#[test]
fn construction_errors() {
    let none: Vec<&str> = vec![];
    assert_eq!(CharsetGenerator::new("?x", None, None, &none).err(), Some(GenError::MaskSyntax));
    assert_eq!(CharsetGenerator::new("ab?", None, None, &none).err(), Some(GenError::MaskSyntax));
    assert_eq!(CharsetGenerator::new("?1", None, None, &none).err(), Some(GenError::InvalidCharset));
    assert_eq!(
        CharsetGenerator::new("?2", None, None, &vec!["ab"]).err(),
        Some(GenError::InvalidCharset)
    );
    assert_eq!(
        CharsetGenerator::new("?1", None, None, &vec![""]).err(),
        Some(GenError::InvalidCharset)
    );
    assert_eq!(
        CharsetGenerator::new("?1", None, None, &vec!["aba"]).err(),
        Some(GenError::InvalidCharset)
    );
    assert_eq!(
        CharsetGenerator::new("a?w1", None, None, &none).err(),
        Some(GenError::UnsupportedToken)
    );
    let long = "a".repeat(128);
    assert_eq!(
        CharsetGenerator::new(&long, None, None, &none).err(),
        Some(GenError::Configuration)
    );
    let fits = "a".repeat(127);
    let g = CharsetGenerator::new(&fits, None, None, &none).unwrap();
    assert_eq!(generate(&g).len(), 128);
}

#[test]
fn first_failing_token_decides() {
    let none: Vec<&str> = vec![];
    assert_eq!(
        CharsetGenerator::new("?w1?1", None, None, &none).err(),
        Some(GenError::UnsupportedToken)
    );
    assert_eq!(
        CharsetGenerator::new("?1?w1", None, None, &none).err(),
        Some(GenError::InvalidCharset)
    );
    assert_eq!(
        CharsetGenerator::new("?1?w1?x", None, None, &none).err(),
        Some(GenError::MaskSyntax)
    );
}

#[test]
fn count_too_large_for_the_result() {
    let mask = "?b".repeat(9);
    let g = CharsetGenerator::new(&mask, None, None, &vec![]).unwrap();
    assert_eq!(g.checked_combinations(), None);
    let mask = "?b".repeat(7);
    let g = CharsetGenerator::new(&mask, Some(1), None, &vec![]).unwrap();
    let mut sum: u64 = 0;
    let mut p: u64 = 1;
    for _ in 0..7 {
        p *= 256;
        sum += p;
    }
    assert_eq!(g.checked_combinations(), Some(sum));
}

#[test]
fn cursor_walks_the_whole_output() {
    let g = CharsetGenerator::new("?d?d?d?d", Some(3), None, &vec![]).unwrap();
    let mut cur = g.start();
    let mut buf = cracken::stackbuf::StackBuf::new();
    let mut streamed: Vec<u8> = Vec::new();
    let mut batches = 0;
    let mut sizes: Vec<usize> = Vec::new();
    while !cur.is_finished() {
        g.next_batch(&mut cur, &mut buf);
        assert!(buf.pos() > 0);
        assert_eq!(buf.getdata()[buf.pos() - 1], b'\n');
        streamed.extend_from_slice(buf.getdata());
        sizes.push(buf.pos());
        batches += 1;
    }
    assert_eq!(sizes, vec![4000, 8190, 8190, 8190, 8190, 8190, 8190, 860]);
    g.next_batch(&mut cur, &mut buf);
    assert_eq!(buf.pos(), 0);
    assert!(batches > 2);
    assert_eq!(streamed, generate(&g));
}
