//! The generator for masks of character classes only.
use vstd::prelude::*;
use vstd::string::StringSliceAdditionalSpecFns;
use crate::{BUFFER_SIZE, MAX_WORD_SIZE};
use crate::charsets::{Charset, lemma_index_of_ascending, lemma_next_wraps};
use crate::errors::GenError;
use crate::generators::WordGenerator;
use crate::items::{
    byte_idx, charset_digits, charset_values, customs_of, first_error, lemma_byte_word,
    lemma_first_error_stays, mask_digits, resolve_charset, token_error, token_values, word_fits,
};
use crate::mask::{parse_mask, parse_spec};
use crate::odometer::{
    block, block_words, blocks, blocks_count, combos, differ_at, digits_ok, join_lines,
    lemma_block_words_split, lemma_blocks_count_monotone, lemma_blocks_join, lemma_blocks_split,
    lemma_combos_monotone, lemma_combos_take, lemma_digits_of_rank, lemma_join_concat,
    lemma_line_at, lemma_lines_join, lemma_lines_len, lemma_lines_one, lemma_lines_split,
    lemma_rank_bounds, lemma_rank_first, lemma_rank_last, lemma_rank_step, lemma_word_len,
    lemma_words_ascending, lex_less, LINE_FEED, lines, rank, uniform_width, valid_idx, Values,
    values_ascending, word_at, words,
};
use crate::stackbuf::StackBuf;

verus! {

/// What building a charset generator comes to: the digits and the range of
/// lengths, or the reason for which the request is refused. The mask must
/// parse, every token must resolve to a charset, the line of full length
/// must fit in `MAX_WORD_SIZE` bytes, and the lengths, which default to the
/// number of tokens, must satisfy `1 <= minlen <= maxlen <= tokens`.
pub open spec fn charset_plan(
    mask: Seq<u8>,
    minlen: Option<usize>,
    maxlen: Option<usize>,
    customs: Seq<Seq<u8>>,
) -> Result<(Seq<Values>, usize, usize), GenError> {
    match parse_spec(mask) {
        None => Err(GenError::MaskSyntax),
        Some(ops) => match first_error(ops, customs, None, ops.len() as int) {
            Some(e) => Err(e),
            None => if ops.len() >= MAX_WORD_SIZE {
                Err(GenError::Configuration)
            } else {
                let lo = match minlen {
                    Some(m) => m,
                    None => ops.len() as usize,
                };
                let hi = match maxlen {
                    Some(m) => m,
                    None => ops.len() as usize,
                };
                if 1 <= lo <= hi <= ops.len() {
                    Ok((mask_digits(ops, customs, None), lo, hi))
                } else {
                    Err(GenError::LengthRange)
                }
            },
        },
    }
}

/// Generator for masks whose positions are all character classes. It emits
/// the words of every length from `minlen` to `maxlen`, shortest first.
pub struct CharsetGenerator<'a> {
    pub mask: &'a str,
    pub minlen: usize,
    pub maxlen: usize,
    charsets: Vec<Charset>,
    min_word: Vec<u8>,
}

impl<'a> CharsetGenerator<'a> {
    /// The members of each position's charset, ascending.
    pub closed spec fn members(&self) -> Seq<Seq<u8>> {
        Seq::new(self.charsets@.len(), |i: int| self.charsets@[i]@)
    }

    /// The digits of the enumeration, one per position.
    pub open spec fn digits(&self) -> Seq<Values> {
        charset_digits(self.members())
    }

    /// The least length that is generated; the field `minlen`.
    pub closed spec fn lo(&self) -> int {
        self.minlen as int
    }

    /// The greatest length that is generated; the field `maxlen`.
    pub closed spec fn hi(&self) -> int {
        self.maxlen as int
    }

    /// The text of the mask; the field `mask`.
    pub closed spec fn mask_text(&self) -> &'a str {
        self.mask
    }

    /// The private fields agree with each other.
    pub closed spec fn inner_wf(&self) -> bool {
        &&& self.charsets@.len() < MAX_WORD_SIZE
        &&& self.min_word@.len() == self.charsets@.len()
        &&& forall|i: int| 0 <= i < self.charsets@.len() ==> (#[trigger] self.charsets@[i]).wf()
        &&& forall|i: int|
            0 <= i < self.charsets@.len() ==> #[trigger] self.min_word@[i]
                == self.charsets@[i]@[0]
    }

    /// The lengths lie within the mask, and the longest line fits.
    pub open spec fn wf(&self) -> bool {
        &&& self.inner_wf()
        &&& 1 <= self.lo() <= self.hi() <= self.digits().len()
        &&& self.digits().len() < MAX_WORD_SIZE
    }

    /// Builds the generator for `mask`. The lengths default to the number of
    /// tokens; `custom_charsets` are the alphabets that `?1` to `?9` name.
    pub fn new(
        mask: &'a str,
        minlen: Option<usize>,
        maxlen: Option<usize>,
        custom_charsets: &[&'a str],
    ) -> (res: Result<CharsetGenerator<'a>, GenError>)
        ensures
            match charset_plan(mask.spec_bytes(), minlen, maxlen, customs_of(custom_charsets@)) {
                Err(e) => res matches Err(x) && x == e,
                Ok((d, lo, hi)) => res matches Ok(g) && g.wf() && g.digits() == d && g.lo() == lo
                    && g.hi() == hi && g.mask_text() == mask,
            },
    {
        let ops = match parse_mask(mask) {
            Ok(ops) => ops,
            Err(e) => {
                return Err(e);
            },
        };
        let ghost customs = customs_of(custom_charsets@);
        let n = ops.len();
        let mut charsets: Vec<Charset> = Vec::new();
        let mut min_word: Vec<u8> = Vec::new();
        let mut i: usize = 0;
        while i < n
            invariant
                i <= n,
                n == ops@.len(),
                parse_spec(mask.spec_bytes()) == Some(ops@),
                customs == customs_of(custom_charsets@),
                first_error(ops@, customs, None, i as int) is None,
                charsets@.len() == i,
                min_word@.len() == i,
                forall|k: int| 0 <= k < i ==> (#[trigger] charsets@[k]).wf(),
                forall|k: int| 0 <= k < i ==> #[trigger] min_word@[k] == charsets@[k]@[0],
                forall|k: int|
                    0 <= k < i ==> charset_values((#[trigger] charsets@[k])@)
                        == token_values(ops@[k], customs, None),
            decreases n - i,
        {
            match resolve_charset(ops[i], custom_charsets) {
                Err(e) => {
                    proof {
                        assert(token_error(ops@[i as int], customs, None) == Some(e));
                        assert(first_error(ops@, customs, None, i + 1) == Some(e));
                        lemma_first_error_stays(ops@, customs, None, i + 1, n as int);
                    }
                    return Err(e);
                },
                Ok(cs) => {
                    min_word.push(cs.min_value());
                    charsets.push(cs);
                },
            }
            i += 1;
        }
        if n >= MAX_WORD_SIZE {
            return Err(GenError::Configuration);
        }
        let lo = match minlen {
            Some(m) => m,
            None => n,
        };
        let hi = match maxlen {
            Some(m) => m,
            None => n,
        };
        if !(0 < lo && lo <= hi && hi <= n) {
            return Err(GenError::LengthRange);
        }
        let g = CharsetGenerator { mask, minlen: lo, maxlen: hi, charsets, min_word };
        assert(g.digits() =~= mask_digits(ops@, customs, None));
        Ok(g)
    }

    /// `word` is a word of `pwdlen` member bytes followed by a line feed.
    spec fn word_ok(&self, pwdlen: int, word: Seq<u8>) -> bool {
        &&& 1 <= pwdlen <= self.digits().len()
        &&& word.len() == pwdlen + 1
        &&& word[pwdlen] == LINE_FEED
        &&& word_fits(self.members(), word.take(pwdlen))
    }

    /// The number that the word held in `word` has among the words of its
    /// length.
    spec fn word_rank(&self, pwdlen: int, word: Seq<u8>) -> int {
        rank(self.digits().take(pwdlen), byte_idx(self.members(), word.take(pwdlen)))
    }

    /// A word of member bytes is the word of its own number.
    proof fn lemma_word_is_ranked(&self, pwdlen: int, word: Seq<u8>)
        requires
            self.wf(),
            self.word_ok(pwdlen, word),
        ensures
            0 <= self.word_rank(pwdlen, word) < combos(self.digits().take(pwdlen)),
            word == word_at(self.digits().take(pwdlen), self.word_rank(pwdlen, word)).push(
                LINE_FEED,
            ),
    {
        let w = word.take(pwdlen);
        let d = self.digits().take(pwdlen);
        let idx = byte_idx(self.members(), w);
        lemma_byte_word(self.members(), w);
        lemma_rank_bounds(d, idx);
        lemma_digits_of_rank(d, idx);
        assert(word =~= w.push(LINE_FEED));
    }

    /// The first word of length `pwdlen`, with its line feed.
    fn first_word(&self, pwdlen: usize) -> (word: Vec<u8>)
        requires
            self.wf(),
            1 <= pwdlen <= self.digits().len(),
        ensures
            self.word_ok(pwdlen as int, word@),
            self.word_rank(pwdlen as int, word@) == 0,
    {
        let mut word: Vec<u8> = Vec::new();
        let mut i: usize = 0;
        while i < pwdlen
            invariant
                i <= pwdlen <= self.charsets@.len(),
                self.inner_wf(),
                word@.len() == i,
                forall|k: int| 0 <= k < i ==> word@[k] == self.min_word@[k],
            decreases pwdlen - i,
        {
            word.push(self.min_word[i]);
            i += 1;
        }
        word.push(LINE_FEED);
        proof {
            let w = word@.take(pwdlen as int);
            let members = self.members();
            assert forall|k: int| 0 <= k < w.len() implies (#[trigger] members[k]).contains(
                w[k],
            ) && members[k].index_of(w[k]) == 0 by {
                assert(self.charsets@[k].wf());
                assert(w[k] == self.min_word@[k]);
                assert(members[k][0] == w[k]);
                lemma_index_of_ascending(members[k], 0);
            }
            lemma_rank_first(self.digits().take(pwdlen as int), byte_idx(members, w));
        }
        word
    }

    /// Moves `word` on to the next word of its length: the odometer step.
    /// From the last word it returns to the first and reports `false`.
    fn advance(&self, pwdlen: usize, word: &mut Vec<u8>) -> (advanced: bool)
        requires
            self.wf(),
            self.word_ok(pwdlen as int, old(word)@),
        ensures
            self.word_ok(pwdlen as int, final(word)@),
            advanced ==> self.word_rank(pwdlen as int, final(word)@) == self.word_rank(
                pwdlen as int,
                old(word)@,
            ) + 1,
            !advanced ==> self.word_rank(pwdlen as int, old(word)@) == combos(
                self.digits().take(pwdlen as int),
            ) - 1 && self.word_rank(pwdlen as int, final(word)@) == 0,
    {
        let ghost start = word@;
        let ghost members = self.members();
        let ghost d = self.digits().take(pwdlen as int);
        let ghost a = byte_idx(members, start.take(pwdlen as int));
        proof {
            lemma_byte_word(members, start.take(pwdlen as int));
        }
        let mut pos: usize = pwdlen;
        while pos > 0
            invariant
                self.wf(),
                start == old(word)@,
                members == self.members(),
                d == self.digits().take(pwdlen as int),
                a == byte_idx(members, start.take(pwdlen as int)),
                valid_idx(d, a),
                0 <= pos <= pwdlen,
                self.word_ok(pwdlen as int, start),
                self.word_ok(pwdlen as int, word@),
                forall|i: int| 0 <= i < pos ==> word@[i] == start[i],
                forall|i: int|
                    pos <= i < pwdlen ==> a[i] == d[i].len() - 1 && #[trigger] word@[i]
                        == members[i][0],
            decreases pos,
        {
            pos -= 1;
            let chr = word[pos];
            let ghost before = word@;
            proof {
                assert(members[pos as int].contains(before.take(pwdlen as int)[pos as int]));
                assert(self.charsets@[pos as int].wf());
                lemma_next_wraps(self.charsets@[pos as int], chr);
            }
            let next = self.charsets[pos].next(chr);
            word[pos] = next;
            proof {
                let w = word@.take(pwdlen as int);
                assert forall|i: int| 0 <= i < w.len() implies (#[trigger] members[i]).contains(
                    w[i],
                ) by {
                    if i != pos {
                        assert(members[i].contains(before.take(pwdlen as int)[i]));
                    }
                }
                assert(a[pos as int] == members[pos as int].index_of(chr));
                assert(d[pos as int].len() == members[pos as int].len());
            }
            if chr < next {
                proof {
                    let w = word@.take(pwdlen as int);
                    let b = byte_idx(members, w);
                    let m = members[pos as int];
                    lemma_index_of_ascending(m, a[pos as int] + 1);
                    assert(b[pos as int] == a[pos as int] + 1);
                    assert forall|i: int| pos < i < d.len() implies a[i] == d[i].len() - 1
                        && b[i] == 0 by {
                        assert(word@[i] == members[i][0]);
                        assert(self.charsets@[i].wf());
                        lemma_index_of_ascending(members[i], 0);
                    }
                    assert forall|i: int| 0 <= i < pos implies b[i] == a[i] by {
                        assert(word@[i] == start[i]);
                    }
                    lemma_rank_step(d, a, b, pos as int);
                }
                return true;
            }
        }
        proof {
            let w = word@.take(pwdlen as int);
            let b = byte_idx(members, w);
            assert forall|i: int| 0 <= i < d.len() implies a[i] == d[i].len() - 1 && b[i]
                == 0 by {
                assert(word@[i] == members[i][0]);
                assert(self.charsets@[i].wf());
                lemma_index_of_ascending(members[i], 0);
            }
            assert(digits_ok(d)) by {
                assert forall|i: int| 0 <= i < d.len() implies (#[trigger] d[i]).len() > 0 by {
                    assert(0 <= a[i] < d[i].len());
                }
            }
            lemma_rank_last(d, a);
            lemma_rank_first(d, b);
        }
        false
    }

    /// Writes lines of length `pwdlen` into `buf`, from the word held in
    /// `word` on, until the next line would not fit or the last word of
    /// this length has been written. Reports whether the length is
    /// exhausted; `word` is left at the first word not yet written.
    fn fill_by_length(&self, pwdlen: usize, word: &mut Vec<u8>, buf: &mut StackBuf) -> (exhausted:
        bool)
        requires
            self.wf(),
            self.word_ok(pwdlen as int, old(word)@),
            old(buf).wf(),
        ensures
            self.word_ok(pwdlen as int, final(word)@),
            final(buf).wf(),
            exhausted ==> final(buf)@ == old(buf)@ + lines(
                self.digits().take(pwdlen as int),
                self.word_rank(pwdlen as int, old(word)@),
                combos(self.digits().take(pwdlen as int)) as int,
            ) && self.word_rank(pwdlen as int, final(word)@) == 0,
            !exhausted ==> final(buf)@ == old(buf)@ + lines(
                self.digits().take(pwdlen as int),
                self.word_rank(pwdlen as int, old(word)@),
                self.word_rank(pwdlen as int, final(word)@),
            ) && self.word_rank(pwdlen as int, old(word)@) <= self.word_rank(
                pwdlen as int,
                final(word)@,
            ) && final(buf)@.len() + pwdlen + 1 > BUFFER_SIZE,
            old(buf)@.len() + pwdlen + 1 <= BUFFER_SIZE ==> final(buf)@.len() > old(buf)@.len(),
    {
        let ghost d = self.digits().take(pwdlen as int);
        let ghost first = self.word_rank(pwdlen as int, word@);
        let ghost held = buf@;
        proof {
            self.lemma_word_is_ranked(pwdlen as int, word@);
            assert(held + lines(d, first, first) =~= held);
        }
        loop
            invariant
                self.wf(),
                d == self.digits().take(pwdlen as int),
                self.word_ok(pwdlen as int, word@),
                buf.wf(),
                held == old(buf)@,
                first == self.word_rank(pwdlen as int, old(word)@),
                first <= self.word_rank(pwdlen as int, word@) < combos(d),
                buf@ == held + lines(d, first, self.word_rank(pwdlen as int, word@)),
                held.len() + pwdlen + 1 <= BUFFER_SIZE && self.word_rank(pwdlen as int, word@)
                    == first ==> buf@.len() == held.len(),
                self.word_rank(pwdlen as int, word@) > first ==> buf@.len() > held.len(),
            decreases combos(d) - self.word_rank(pwdlen as int, word@),
        {
            if buf.is_full(pwdlen + 1) {
                return false;
            }
            let ghost k = self.word_rank(pwdlen as int, word@);
            proof {
                self.lemma_word_is_ranked(pwdlen as int, word@);
                lemma_lines_split(d, first, k, k + 1);
                lemma_lines_one(d, k);
            }
            buf.write(word.as_slice());
            assert(buf@ =~= held + lines(d, first, k + 1));
            let advanced = self.advance(pwdlen, word);
            if !advanced {
                return true;
            }
            proof {
                self.lemma_word_is_ranked(pwdlen as int, word@);
            }
        }
    }

    /// The word of full length made of every position's smallest member.
    pub fn min_word(&self) -> (w: &[u8])
        requires
            self.wf(),
        ensures
            w@.len() == self.members().len(),
            forall|i: int| 0 <= i < w@.len() ==> #[trigger] w@[i] == self.members()[i][0],
    {
        self.min_word.as_slice()
    }

    /// The charsets of the positions, in mask order.
    pub fn charsets(&self) -> (cs: &[Charset])
        ensures
            cs@.len() == self.members().len(),
            forall|i: int| 0 <= i < cs@.len() ==> (#[trigger] cs@[i])@ == self.members()[i],
    {
        self.charsets.as_slice()
    }

    /// Every byte that `gen` emits: the blocks of the lengths from `minlen`
    /// to `maxlen`, shortest first.
    pub open spec fn output(&self) -> Seq<u8> {
        blocks(self.digits(), self.lo(), self.hi() + 1)
    }

    /// The number of words that `gen` emits.
    pub open spec fn word_count(&self) -> nat {
        blocks_count(self.digits(), self.lo(), self.hi() + 1)
    }

    /// The words that `gen` emits, as a list.
    pub open spec fn words(&self) -> Seq<Seq<u8>> {
        block_words(self.digits(), self.lo(), self.hi() + 1)
    }

    /// The output is the lines of the list of emitted words, and that list
    /// has as many words as `combinations` reports: the count is the number
    /// of lines that `gen` emits.
    pub proof fn lemma_count_is_lines(&self)
        requires
            self.wf(),
        ensures
            self.output() == join_lines(self.words()),
            self.words().len() == self.word_count(),
    {
        lemma_blocks_join(self.digits(), self.lo(), self.hi() + 1);
    }

    /// The output is the blocks of the lengths in increasing order: for
    /// every length in range, the blocks of the shorter lengths, then the
    /// whole block of that length, then the blocks of the longer lengths.
    pub proof fn lemma_output_by_length(&self, len: int)
        requires
            self.wf(),
            self.lo() <= len <= self.hi(),
        ensures
            self.output() == blocks(self.digits(), self.lo(), len) + block(
                self.digits().take(len),
            ) + blocks(self.digits(), len + 1, self.hi() + 1),
            self.word_count() == blocks_count(self.digits(), self.lo(), len) + combos(
                self.digits().take(len),
            ) + blocks_count(self.digits(), len + 1, self.hi() + 1),
    {
        let d = self.digits();
        lemma_blocks_split(d, self.lo(), len, self.hi() + 1);
        lemma_blocks_split(d, len, len + 1, self.hi() + 1);
        assert(blocks(d, len, len) =~= Seq::<u8>::empty());
        assert(blocks(d, len, len + 1) =~= block(d.take(len)));
        assert(blocks_count(d, len, len) == 0);
        assert(blocks_count(d, len, len + 1) == combos(d.take(len)));
        assert(self.output() =~= blocks(d, self.lo(), len) + block(d.take(len)) + blocks(
            d,
            len + 1,
            self.hi() + 1,
        ));
    }

    /// The positions of a prefix of the mask are charsets: one byte per
    /// value, values ascending.
    pub proof fn lemma_prefix_shape(&self, len: int)
        requires
            self.wf(),
            0 <= len <= self.digits().len(),
        ensures
            digits_ok(self.digits().take(len)),
            uniform_width(self.digits().take(len), 1),
            values_ascending(self.digits().take(len)),
    {
        let d = self.digits().take(len);
        assert forall|i: int| 0 <= i < d.len() implies (#[trigger] d[i]).len() > 0 by {
            assert(self.charsets@[i].wf());
        }
        assert forall|i: int, x: int, y: int|
            0 <= i < d.len() && 0 <= x < y < d[i].len() implies lex_less(
            #[trigger] d[i][x],
            #[trigger] d[i][y],
        ) by {
            assert(self.charsets@[i].wf());
            let m = self.members()[i];
            assert(m[x] < m[y]);
            assert(d[i][x].take(0) =~= d[i][y].take(0));
            assert(differ_at(d[i][x], d[i][y], 0));
        }
    }

    /// The block of one length: it holds the product of the sizes of the
    /// first `len` charsets in lines of `len + 1` bytes each, line `k1`
    /// being word `k1` and its line feed; the words ascend in dictionary
    /// order, so that no word occurs twice. With `minlen` and `maxlen` both
    /// `len`, that block is the whole output.
    pub proof fn lemma_fixed_length(&self, len: int, k1: int, k2: int)
        requires
            self.wf(),
            1 <= len <= self.digits().len(),
            0 <= k1 < k2 < combos(self.digits().take(len)),
        ensures
            block(self.digits().take(len)).len() == combos(self.digits().take(len)) * (len + 1),
            0 <= k1 * (len + 1) && (k1 + 1) * (len + 1) <= block(self.digits().take(len)).len(),
            block(self.digits().take(len)).subrange(k1 * (len + 1), (k1 + 1) * (len + 1))
                == word_at(self.digits().take(len), k1).push(LINE_FEED),
            word_at(self.digits().take(len), k1).len() == len,
            lex_less(word_at(self.digits().take(len), k1), word_at(self.digits().take(len), k2)),
            word_at(self.digits().take(len), k1) != word_at(self.digits().take(len), k2),
            self.lo() == len && self.hi() == len ==> self.output() == block(
                self.digits().take(len),
            ) && self.word_count() == combos(self.digits().take(len)),
    {
        let d = self.digits().take(len);
        self.lemma_prefix_shape(len);
        assert(d.len() * 1 + 1 == len + 1);
        lemma_lines_len(d, 1, 0, combos(d) as int);
        lemma_line_at(d, 1, k1);
        lemma_word_len(d, 1, k1);
        lemma_words_ascending(d, 1, k1, k2);
        if self.lo() == len && self.hi() == len {
            self.lemma_output_by_length(len);
            let full = self.digits();
            assert(blocks(full, len, len) =~= Seq::<u8>::empty());
            assert(blocks(full, len + 1, len + 1) =~= Seq::<u8>::empty());
            assert(self.output() =~= block(d));
        }
    }

    /// Every position has a member.
    pub proof fn lemma_digits_ok(&self)
        requires
            self.wf(),
        ensures
            digits_ok(self.digits()),
            forall|i: int|
                0 <= i < self.digits().len() ==> (#[trigger] self.digits()[i]).len()
                    == self.members()[i].len(),
    {
        let d = self.digits();
        assert forall|i: int| 0 <= i < d.len() implies (#[trigger] d[i]).len() > 0 by {
            assert(self.charsets@[i].wf());
        }
    }

    /// Appends to `out` every word of length `pwdlen`, in ascending order,
    /// each followed by a line feed.
    pub fn gen_by_length(&self, pwdlen: usize, out: &mut Vec<u8>)
        requires
            self.wf(),
            1 <= pwdlen <= self.digits().len(),
        ensures
            final(out)@ == old(out)@ + block(self.digits().take(pwdlen as int)),
    {
        let ghost d = self.digits().take(pwdlen as int);
        let mut buf = StackBuf::new();
        let mut word = self.first_word(pwdlen);
        proof {
            assert(old(out)@ + lines(d, 0, 0) =~= old(out)@);
            self.lemma_word_is_ranked(pwdlen as int, word@);
        }
        loop
            invariant_except_break
                out@ == old(out)@ + lines(d, 0, self.word_rank(pwdlen as int, word@)),
            invariant
                self.wf(),
                d == self.digits().take(pwdlen as int),
                self.word_ok(pwdlen as int, word@),
                buf.wf(),
                buf@ == Seq::<u8>::empty(),
                0 <= self.word_rank(pwdlen as int, word@) < combos(d),
            ensures
                out@ == old(out)@ + block(d),
            decreases combos(d) - self.word_rank(pwdlen as int, word@),
        {
            let ghost k = self.word_rank(pwdlen as int, word@);
            let exhausted = self.fill_by_length(pwdlen, &mut word, &mut buf);
            let ghost batch = buf@;
            buf.flush_to(out);
            proof {
                self.lemma_word_is_ranked(pwdlen as int, word@);
                let k2 = if exhausted {
                    combos(d) as int
                } else {
                    self.word_rank(pwdlen as int, word@)
                };
                assert(batch =~= lines(d, k, k2));
                lemma_lines_split(d, 0, k, k2);
                assert(out@ =~= old(out)@ + lines(d, 0, k2));
                if k2 == k {
                    assert(lines(d, k, k).len() == 0);
                }
            }
            if exhausted {
                break ;
            }
        }
    }

    /// The number of words that `gen` emits, or `None` where it exceeds
    /// what the result type can hold.
    pub fn checked_combinations(&self) -> (res: Option<u64>)
        requires
            self.wf(),
        ensures
            match res {
                Some(n) => n == self.word_count(),
                None => self.word_count() > u64::MAX,
            },
    {
        let ghost d = self.digits();
        let ghost lo = self.lo();
        let ghost hi = self.hi();
        proof {
            self.lemma_digits_ok();
            assert(d.take(0) =~= Seq::<Values>::empty());
        }
        let mut total: u64 = 0;
        let mut product: u64 = 1;
        let mut i: usize = 0;
        while i < self.maxlen
            invariant
                self.wf(),
                d == self.digits(),
                lo == self.lo(),
                hi == self.hi(),
                digits_ok(d),
                i <= self.maxlen,
                product == combos(d.take(i as int)),
                total == blocks_count(d, lo, i + 1),
            decreases self.maxlen - i,
        {
            let size = self.charsets[i].size();
            proof {
                lemma_combos_take(d, i as int);
                lemma_combos_monotone(d, i + 1, hi);
                if i + 1 >= lo {
                    lemma_blocks_count_monotone(d, lo, i + 2, hi + 1);
                }
                assert(d[i as int].len() == self.members()[i as int].len());
                assert(blocks_count(d, lo, hi + 1) >= combos(d.take(hi)));
            }
            product = match product.checked_mul(size as u64) {
                Some(p) => p,
                None => {
                    return None;
                },
            };
            i += 1;
            if i >= self.minlen {
                total = match total.checked_add(product) {
                    Some(t) => t,
                    None => {
                        return None;
                    },
                };
            }
        }
        Some(total)
    }

    /// A cursor at the first word of the shortest length.
    pub fn start(&self) -> (cur: CharsetCursor)
        requires
            self.wf(),
        ensures
            self.cursor_ok(&cur),
            !cur.finished(),
            self.emitted(&cur) == Seq::<u8>::empty(),
            self.words_before(&cur) == 0,
    {
        let word = self.first_word(self.minlen);
        let cur = CharsetCursor { pwdlen: self.minlen, word, done: false };
        proof {
            let d = self.digits();
            assert(blocks(d, self.lo(), self.lo()) + lines(d.take(self.lo()), 0, 0)
                =~= Seq::<u8>::empty());
        }
        cur
    }

    /// `cur` stands at a word of this generator, or at the end.
    pub closed spec fn cursor_ok(&self, cur: &CharsetCursor) -> bool {
        cur.done || (self.lo() <= cur.pwdlen <= self.hi() && self.word_ok(
            cur.pwdlen as int,
            cur.word@,
        ))
    }

    /// The bytes of all the lines before `cur`.
    pub closed spec fn emitted(&self, cur: &CharsetCursor) -> Seq<u8> {
        if cur.done {
            self.output()
        } else {
            blocks(self.digits(), self.lo(), cur.pwdlen as int) + lines(
                self.digits().take(cur.pwdlen as int),
                0,
                self.word_rank(cur.pwdlen as int, cur.word@),
            )
        }
    }

    /// Whether `cur` stands at the first word of a length, or at the end.
    pub closed spec fn at_length_start(&self, cur: &CharsetCursor) -> bool {
        cur.done || self.word_rank(cur.pwdlen as int, cur.word@) == 0
    }

    /// The number of lines before `cur`.
    pub closed spec fn words_before(&self, cur: &CharsetCursor) -> int {
        if cur.done {
            self.word_count() as int
        } else {
            blocks_count(self.digits(), self.lo(), cur.pwdlen as int) + self.word_rank(
                cur.pwdlen as int,
                cur.word@,
            )
        }
    }

    /// Clears `buf` and fills it with the lines that follow `cur`, as many
    /// whole lines of one length as fit, and moves `cur` past them: the
    /// batch ends where the words of a length end, or where the buffer is
    /// within one line of full. At the end `buf` stays empty.
    pub fn next_batch(&self, cur: &mut CharsetCursor, buf: &mut StackBuf)
        requires
            self.wf(),
            self.cursor_ok(old(cur)),
            old(buf).wf(),
        ensures
            self.cursor_ok(final(cur)),
            final(buf).wf(),
            self.emitted(final(cur)) == self.emitted(old(cur)) + final(buf)@,
            old(cur).finished() ==> final(cur).finished() && final(buf)@.len() == 0,
            !old(cur).finished() ==> final(buf)@.len() > 0 && self.words_before(final(cur))
                > self.words_before(old(cur)),
            !old(cur).finished() ==> final(buf)@.len() + MAX_WORD_SIZE > BUFFER_SIZE
                || self.at_length_start(final(cur)),
            self.words_before(final(cur)) <= self.word_count(),
    {
        buf.clear();
        if cur.done {
            assert(self.emitted(cur) + buf@ =~= self.emitted(cur));
            return ;
        }
        let pwdlen = cur.pwdlen;
        let ghost d = self.digits();
        let ghost dl = d.take(pwdlen as int);
        let ghost k = self.word_rank(pwdlen as int, cur.word@);
        let ghost lo = self.lo();
        let ghost hi = self.hi();
        proof {
            self.lemma_word_is_ranked(pwdlen as int, cur.word@);
        }
        let exhausted = self.fill_by_length(pwdlen, &mut cur.word, buf);
        proof {
            self.lemma_word_is_ranked(pwdlen as int, cur.word@);
            let k2 = if exhausted {
                combos(dl) as int
            } else {
                self.word_rank(pwdlen as int, cur.word@)
            };
            assert(buf@ =~= lines(dl, k, k2));
            lemma_lines_split(dl, 0, k, k2);
            if k2 == k {
                assert(lines(dl, k, k).len() == 0);
            }
            assert(blocks(d, lo, pwdlen as int) + lines(dl, 0, k2) =~= (blocks(d, lo, pwdlen as int)
                + lines(dl, 0, k)) + buf@);
            lemma_blocks_count_monotone(d, lo, pwdlen + 1, hi + 1);
        }
        if exhausted {
            if pwdlen == self.maxlen {
                cur.done = true;
            } else {
                cur.pwdlen = pwdlen + 1;
                cur.word = self.first_word(pwdlen + 1);
                proof {
                    assert(blocks(d, lo, pwdlen + 1) + lines(d.take(pwdlen + 1), 0, 0) =~= blocks(
                        d,
                        lo,
                        pwdlen as int,
                    ) + lines(dl, 0, combos(dl) as int));
                    self.lemma_word_is_ranked(pwdlen + 1, cur.word@);
                }
            }
        }
    }

    /// What has been emitted up to a cursor is the beginning of the whole
    /// output and ends where a line ends: it is the lines of the first
    /// `words_before` words. All has been emitted exactly when the cursor
    /// is finished.
    pub proof fn lemma_emitted_prefix(&self, cur: &CharsetCursor)
        requires
            self.wf(),
            self.cursor_ok(cur),
        ensures
            self.emitted(cur).is_prefix_of(self.output()),
            0 <= self.words_before(cur) <= self.word_count(),
            self.emitted(cur) == join_lines(self.words().take(self.words_before(cur))),
            cur.finished() <==> self.words_before(cur) == self.word_count(),
            cur.finished() <==> self.emitted(cur) == self.output(),
    {
        self.lemma_count_is_lines();
        if !cur.done {
            let p = cur.pwdlen as int;
            let k = self.word_rank(p, cur.word@);
            self.lemma_word_is_ranked(p, cur.word@);
            self.lemma_before(p, k);
        } else {
            assert(self.words().take(self.words().len() as int) =~= self.words());
        }
    }

    /// The lines before word `k` of length `len` are the beginning of the
    /// output, and not all of it; they are the lines of the words of the
    /// shorter lengths and of the first `k` words of length `len`.
    proof fn lemma_before(&self, len: int, k: int)
        requires
            self.wf(),
            self.lo() <= len <= self.hi(),
            0 <= k < combos(self.digits().take(len)),
        ensures
            (blocks(self.digits(), self.lo(), len) + lines(
                self.digits().take(len),
                0,
                k,
            )).is_prefix_of(self.output()),
            (blocks(self.digits(), self.lo(), len) + lines(self.digits().take(len), 0, k)).len()
                < self.output().len(),
            0 <= blocks_count(self.digits(), self.lo(), len) + k < self.word_count(),
            blocks(self.digits(), self.lo(), len) + lines(self.digits().take(len), 0, k)
                == join_lines(self.words().take(blocks_count(self.digits(), self.lo(), len) + k)),
    {
        let d = self.digits();
        let lo = self.lo();
        let hi = self.hi();
        let dp = d.take(len);
        let c = combos(dp) as int;
        let shown = blocks(d, lo, len) + lines(dp, 0, k);
        self.lemma_output_by_length(len);
        assert(shown.is_prefix_of(self.output()) && shown.len() < self.output().len()) by {
            lemma_lines_split(dp, 0, k, c);
            lemma_lines_split(dp, k, k + 1, c);
            lemma_lines_one(dp, k);
            let rest = lines(dp, k, c) + blocks(d, len + 1, hi + 1);
            assert(rest.len() > 0);
            assert(self.output() =~= shown + rest);
        }
        let before = block_words(d, lo, len);
        let here = words(dp, 0, c);
        let after = block_words(d, len + 1, hi + 1);
        assert(self.words() == before + here + after) by {
            lemma_block_words_split(d, lo, len, hi + 1);
            lemma_block_words_split(d, len, len + 1, hi + 1);
            assert(block_words(d, len, len) =~= Seq::<Seq<u8>>::empty());
            assert(block_words(d, len, len + 1) =~= here);
            assert(self.words() =~= before + here + after);
        }
        lemma_blocks_join(d, lo, len);
        lemma_lines_join(dp, 0, k);
        assert(here.len() == c);
        assert((before + here + after).take(before.len() + k) =~= before + words(dp, 0, k));
        lemma_join_concat(before, words(dp, 0, k));
    }
}

/// A place in the output of a `CharsetGenerator`: the next word to emit.
pub struct CharsetCursor {
    pwdlen: usize,
    word: Vec<u8>,
    done: bool,
}

impl CharsetCursor {
    /// Whether every word has been emitted.
    pub closed spec fn finished(&self) -> bool {
        self.done
    }

    /// Whether every word has been emitted.
    pub fn is_finished(&self) -> (done: bool)
        ensures
            done == self.finished(),
    {
        self.done
    }
}

impl<'a> WordGenerator for CharsetGenerator<'a> {
    open spec fn valid(&self) -> bool {
        self.wf()
    }

    open spec fn spec_output(&self) -> Seq<u8> {
        self.output()
    }

    open spec fn spec_combinations(&self) -> nat {
        self.word_count()
    }

    /// Appends the words of every length from `minlen` to `maxlen`.
    fn gen(&self, out: &mut Vec<u8>) {
        let ghost d = self.digits();
        let mut pwdlen: usize = self.minlen;
        proof {
            assert(old(out)@ + blocks(d, self.lo(), self.lo()) =~= old(out)@);
        }
        while pwdlen <= self.maxlen
            invariant
                self.wf(),
                d == self.digits(),
                self.lo() <= pwdlen <= self.hi() + 1,
                out@ == old(out)@ + blocks(d, self.lo(), pwdlen as int),
            decreases self.hi() + 1 - pwdlen,
        {
            self.gen_by_length(pwdlen, out);
            assert(out@ =~= old(out)@ + blocks(d, self.lo(), pwdlen + 1));
            pwdlen += 1;
        }
    }

    fn combinations(&self) -> (n: u64) {
        match self.checked_combinations() {
            Some(n) => n,
            None => 0,
        }
    }
}

} // verus!
