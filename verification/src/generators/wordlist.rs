//! The generator for masks that mix character classes and wordlists.
use vstd::prelude::*;
use vstd::slice::slice_subrange;
use vstd::string::StringSliceAdditionalSpecFns;
use crate::{BUFFER_SIZE, MAX_WORD_SIZE};
use crate::bytes::{put_bytes, shift_bytes};
use crate::charsets::{Charset, lemma_index_of_ascending, lemma_next_wraps};
use crate::errors::GenError;
use crate::generators::WordGenerator;
use crate::items::{
    charset_values, customs_of, first_error, lemma_charset_width, lemma_first_error_stays,
    lemma_max_line_monotone, lemma_span_bound, lemma_span_len_update, lemma_span_slot, mask_digits,
    max_line, max_line_upto, resolve_charset, token_error, token_values,
};
use crate::mask::{MaskOp, parse_mask, parse_spec};
use crate::odometer::{
    block, combos, digits_of, digits_ok, join_lines, lemma_digits_of_rank, lemma_digits_valid,
    lemma_each_combination_once, lemma_lines_join, lemma_lines_one, lemma_lines_split,
    lemma_rank_bounds, lemma_rank_first, lemma_rank_last, lemma_rank_of_digits, lemma_rank_step,
    lemma_replace_value, lemma_size_sum_monotone, lemma_size_sum_take, lemma_span_one,
    lemma_span_split, lemma_word_of_span, LINE_FEED, lines, rank, size_sum, span, valid_idx, Values,
    word_at, word_of, words,
};
use crate::stackbuf::StackBuf;
use crate::wordlists::{longest, Wordlist};

verus! {

/// The words of each wordlist, in the order in which they were supplied.
pub open spec fn lists_of(wordlists: Seq<Wordlist>) -> Seq<Values> {
    Seq::new(wordlists.len(), |i: int| wordlists[i]@)
}

/// What building a mixed generator comes to: the digits, or the reason for
/// which the request is refused. The mask must parse, every token must
/// resolve, there must be a token, and the longest line must fit in
/// `MAX_WORD_SIZE` bytes.
pub open spec fn wordlist_plan(mask: Seq<u8>, lists: Seq<Values>, customs: Seq<Seq<u8>>) -> Result<
    Seq<Values>,
    GenError,
> {
    match parse_spec(mask) {
        None => Err(GenError::MaskSyntax),
        Some(ops) => match first_error(ops, customs, Some(lists), ops.len() as int) {
            Some(e) => Err(e),
            None => if ops.len() == 0 {
                Err(GenError::LengthRange)
            } else if max_line(mask_digits(ops, customs, Some(lists))) > MAX_WORD_SIZE {
                Err(GenError::Configuration)
            } else {
                Ok(mask_digits(ops, customs, Some(lists)))
            },
        },
    }
}

/// One position of a mixed mask: a charset of its own, or a wordlist
/// shared with every other position that names it.
enum WordlistItem {
    Charset(Charset),
    Wordlist(usize),
}

/// Generator for masks whose positions are character classes and
/// wordlists. A wordlist is held once, whatever the number of positions
/// that range over it.
pub struct WordlistGenerator<'a> {
    pub mask: &'a str,
    items: Vec<WordlistItem>,
    wordlists: Vec<Wordlist>,
}

impl<'a> WordlistGenerator<'a> {
    /// The words of each wordlist held.
    pub closed spec fn lists(&self) -> Seq<Values> {
        lists_of(self.wordlists@)
    }

    /// The values of one position.
    spec fn item_values(item: WordlistItem, lists: Seq<Values>) -> Values {
        match item {
            WordlistItem::Charset(cs) => charset_values(cs@),
            WordlistItem::Wordlist(k) => lists[k as int],
        }
    }

    /// The digits of the enumeration, one per position.
    pub closed spec fn digits(&self) -> Seq<Values> {
        Seq::new(self.items@.len(), |i: int| Self::item_values(self.items@[i], self.lists()))
    }

    /// The text of the mask; the field `mask`.
    pub closed spec fn mask_text(&self) -> &'a str {
        self.mask
    }

    /// The private fields agree with each other.
    pub closed spec fn inner_wf(&self) -> bool {
        &&& forall|k: int| 0 <= k < self.wordlists@.len() ==> (#[trigger] self.wordlists@[k]).wf()
        &&& forall|i: int|
            0 <= i < self.items@.len() ==> match #[trigger] self.items@[i] {
                WordlistItem::Charset(cs) => cs.wf(),
                WordlistItem::Wordlist(k) => k < self.wordlists@.len(),
            }
    }

    /// At least one position, and the longest line fits.
    pub open spec fn wf(&self) -> bool {
        &&& self.inner_wf()
        &&& self.digits().len() >= 1
        &&& max_line(self.digits()) <= MAX_WORD_SIZE
    }

    /// Builds the generator for `mask`. `wordlists` are the lists that
    /// `?w1` to `?w9` name, `custom_charsets` the alphabets that `?1` to
    /// `?9` name.
    pub fn new(
        mask: &'a str,
        wordlists: Vec<Wordlist>,
        custom_charsets: &[&'a str],
    ) -> (res: Result<WordlistGenerator<'a>, GenError>)
        requires
            forall|k: int| 0 <= k < wordlists@.len() ==> (#[trigger] wordlists@[k]).wf(),
        ensures
            match wordlist_plan(
                mask.spec_bytes(),
                lists_of(wordlists@),
                customs_of(custom_charsets@),
            ) {
                Err(e) => res matches Err(x) && x == e,
                Ok(d) => res matches Ok(g) && g.wf() && g.digits() == d && g.lists() == lists_of(
                    wordlists@,
                ) && g.mask_text() == mask,
            },
    {
        let ops = match parse_mask(mask) {
            Ok(ops) => ops,
            Err(e) => {
                return Err(e);
            },
        };
        let ghost customs = customs_of(custom_charsets@);
        let ghost lists = lists_of(wordlists@);
        let n = ops.len();
        let mut items: Vec<WordlistItem> = Vec::new();
        let mut i: usize = 0;
        while i < n
            invariant
                i <= n,
                n == ops@.len(),
                parse_spec(mask.spec_bytes()) == Some(ops@),
                customs == customs_of(custom_charsets@),
                lists == lists_of(wordlists@),
                first_error(ops@, customs, Some(lists), i as int) is None,
                items@.len() == i,
                forall|k: int|
                    0 <= k < i ==> match #[trigger] items@[k] {
                        WordlistItem::Charset(cs) => cs.wf(),
                        WordlistItem::Wordlist(w) => w < wordlists@.len(),
                    },
                forall|k: int|
                    0 <= k < i ==> Self::item_values(#[trigger] items@[k], lists) == token_values(
                        ops@[k],
                        customs,
                        Some(lists),
                    ),
            decreases n - i,
        {
            let op = ops[i];
            let item = match op {
                MaskOp::Wordlist(w) => {
                    if w < wordlists.len() {
                        Ok(WordlistItem::Wordlist(w))
                    } else {
                        Err(GenError::InvalidCharset)
                    }
                },
                _ => match resolve_charset(op, custom_charsets) {
                    Ok(cs) => Ok(WordlistItem::Charset(cs)),
                    Err(e) => Err(e),
                },
            };
            match item {
                Err(e) => {
                    proof {
                        assert(token_error(ops@[i as int], customs, Some(lists)) == Some(e));
                        assert(first_error(ops@, customs, Some(lists), i + 1) == Some(e));
                        lemma_first_error_stays(ops@, customs, Some(lists), i + 1, n as int);
                    }
                    return Err(e);
                },
                Ok(it) => {
                    assert(token_error(ops@[i as int], customs, Some(lists)) is None);
                    assert(Self::item_values(it, lists) == token_values(
                        ops@[i as int],
                        customs,
                        Some(lists),
                    ));
                    items.push(it);
                },
            }
            i += 1;
        }
        if n == 0 {
            return Err(GenError::LengthRange);
        }
        let ghost d = mask_digits(ops@, customs, Some(lists));
        let mut total: usize = 1;
        let mut j: usize = 0;
        while j < n
            invariant
                j <= n,
                n == ops@.len(),
                n == items@.len(),
                n > 0,
                customs == customs_of(custom_charsets@),
                lists == lists_of(wordlists@),
                d.len() == n,
                forall|k: int| 0 <= k < wordlists@.len() ==> (#[trigger] wordlists@[k]).wf(),
                forall|k: int|
                    0 <= k < n ==> match #[trigger] items@[k] {
                        WordlistItem::Charset(cs) => cs.wf(),
                        WordlistItem::Wordlist(w) => w < wordlists@.len(),
                    },
                forall|k: int|
                    0 <= k < n ==> Self::item_values(#[trigger] items@[k], lists) == d[k],
                parse_spec(mask.spec_bytes()) == Some(ops@),
                first_error(ops@, customs, Some(lists), n as int) is None,
                d == mask_digits(ops@, customs, Some(lists)),
                total == max_line_upto(d, j as int),
                total <= MAX_WORD_SIZE,
            decreases n - j,
        {
            let width = match &items[j] {
                WordlistItem::Charset(cs) => {
                    proof {
                        lemma_charset_width(cs@, cs@.len() as int);
                    }
                    1
                },
                WordlistItem::Wordlist(w) => wordlists[*w].max_word_len(),
            };
            assert(width == longest(d[j as int], d[j as int].len() as int));
            if width > MAX_WORD_SIZE - total {
                proof {
                    assert(max_line_upto(d, j + 1) == total + width);
                    lemma_max_line_monotone(d, j + 1, n as int);
                }
                return Err(GenError::Configuration);
            }
            total += width;
            j += 1;
        }
        let g = WordlistGenerator { mask, items, wordlists };
        assert(g.digits() =~= d);
        Ok(g)
    }

    /// The cursor `p` selects a value of `item`: for a charset the current
    /// byte, for a wordlist the index of the current word.
    spec fn item_pos_ok(item: WordlistItem, lists: Seq<Values>, p: usize) -> bool {
        match item {
            WordlistItem::Charset(cs) => p < 256 && cs.has(p as u8),
            WordlistItem::Wordlist(k) => p < lists[k as int].len(),
        }
    }

    /// The index of the value of `item` that the cursor `p` selects.
    spec fn item_idx(item: WordlistItem, p: usize) -> int {
        match item {
            WordlistItem::Charset(cs) => cs@.index_of(p as u8),
            WordlistItem::Wordlist(_) => p as int,
        }
    }

    /// Every position's cursor selects one of its values.
    spec fn pos_ok(&self, positions: Seq<usize>) -> bool {
        &&& positions.len() == self.items@.len()
        &&& forall|i: int|
            0 <= i < self.items@.len() ==> Self::item_pos_ok(
                self.items@[i],
                self.lists(),
                #[trigger] positions[i],
            )
    }

    /// The index of the value that each position's cursor selects.
    spec fn idx_of(&self, positions: Seq<usize>) -> Seq<int> {
        Seq::new(positions.len(), |i: int| Self::item_idx(self.items@[i], positions[i]))
    }

    /// The cursor holds, in its buffer, the line of the combination that
    /// its positions select.
    spec fn state_ok(&self, cur: &WordlistCursor) -> bool {
        &&& cur.word@.len() == MAX_WORD_SIZE
        &&& self.pos_ok(cur.positions@)
        &&& 1 <= cur.word_len <= MAX_WORD_SIZE
        &&& cur.word@.take(cur.word_len as int) == span(
            self.digits(),
            self.idx_of(cur.positions@),
            0,
            self.digits().len() as int,
        ).push(LINE_FEED)
    }

    /// The number of the combination at which `cur` stands.
    spec fn cur_rank(&self, cur: &WordlistCursor) -> int {
        rank(self.digits(), self.idx_of(cur.positions@))
    }

    /// A cursor that selects a value of position `i` selects it by a valid
    /// index; at a charset position the value is the current byte.
    proof fn lemma_item_idx(&self, i: int, p: usize)
        requires
            self.inner_wf(),
            0 <= i < self.items@.len(),
            Self::item_pos_ok(self.items@[i], self.lists(), p),
        ensures
            0 <= Self::item_idx(self.items@[i], p) < self.digits()[i].len(),
            match self.items@[i] {
                WordlistItem::Charset(cs) => self.digits()[i] == charset_values(cs@)
                    && self.digits()[i][Self::item_idx(self.items@[i], p)] == seq![p as u8],
                WordlistItem::Wordlist(k) => self.digits()[i] == self.wordlists@[k as int]@,
            },
    {
        match self.items@[i] {
            WordlistItem::Charset(cs) => {
                let b = p as u8;
                assert(cs@.contains(b));
                let k = cs@.index_of(b);
                assert(cs@[k] == b);
                assert(self.digits()[i][k] =~= seq![b]);
            },
            WordlistItem::Wordlist(k) => {},
        }
    }

    /// Cursors that select values select a combination.
    proof fn lemma_idx_valid(&self, positions: Seq<usize>)
        requires
            self.inner_wf(),
            self.pos_ok(positions),
        ensures
            valid_idx(self.digits(), self.idx_of(positions)),
            digits_ok(self.digits()),
            self.digits().len() == self.items@.len(),
    {
        let d = self.digits();
        let idx = self.idx_of(positions);
        assert forall|i: int| 0 <= i < d.len() implies 0 <= #[trigger] idx[i] < d[i].len() by {
            assert(Self::item_pos_ok(self.items@[i], self.lists(), positions[i]));
            self.lemma_item_idx(i, positions[i]);
        }
        assert forall|i: int| 0 <= i < d.len() implies (#[trigger] d[i]).len() > 0 by {
            assert(0 <= idx[i] < d[i].len());
        }
    }

    /// Moving one position's cursor changes that position's index alone.
    proof fn lemma_pos_update(&self, positions: Seq<usize>, j: int, p: usize)
        requires
            self.inner_wf(),
            self.pos_ok(positions),
            0 <= j < self.items@.len(),
            Self::item_pos_ok(self.items@[j], self.lists(), p),
        ensures
            self.pos_ok(positions.update(j, p)),
            self.idx_of(positions.update(j, p)) == self.idx_of(positions).update(
                j,
                Self::item_idx(self.items@[j], p),
            ),
    {
        let q = positions.update(j, p);
        assert forall|i: int| 0 <= i < self.items@.len() implies Self::item_pos_ok(
            self.items@[i],
            self.lists(),
            #[trigger] q[i],
        ) by {
            if i != j {
                assert(Self::item_pos_ok(self.items@[i], self.lists(), positions[i]));
            }
        }
        assert(self.idx_of(q) =~= self.idx_of(positions).update(
            j,
            Self::item_idx(self.items@[j], p),
        ));
    }

    /// What a step of one position leaves behind: a cursor that differs at
    /// position `j` alone, a buffer that holds its line, and the place
    /// `start` where the value of position `j` begins.
    spec fn stepped(
        &self,
        before: &WordlistCursor,
        after: &WordlistCursor,
        j: int,
        moved: bool,
        start: int,
    ) -> bool {
        let d = self.digits();
        let a = self.idx_of(before.positions@);
        let b = self.idx_of(after.positions@);
        &&& self.state_ok(after)
        &&& after.done == before.done
        &&& b.len() == a.len()
        &&& forall|t: int| 0 <= t < a.len() && t != j ==> #[trigger] b[t] == a[t]
        &&& start == span(d, a, 0, j).len()
        &&& start == span(d, b, 0, j).len()
        &&& moved ==> b[j] == a[j] + 1
        &&& !moved ==> a[j] == d[j].len() - 1 && b[j] == 0
    }

    /// Moves the charset position `j` on to its next member, in the buffer
    /// and in the cursor, wrapping to the smallest member after the largest.
    /// `end` is where the position's byte ends in the buffer.
    fn step_charset(&self, cur: &mut WordlistCursor, j: usize, end: usize, cs: &Charset) -> (res: (
        bool,
        usize,
    ))
        requires
            self.wf(),
            self.state_ok(old(cur)),
            j < self.digits().len(),
            self.items@[j as int] == WordlistItem::Charset(*cs),
            end == span(self.digits(), self.idx_of(old(cur).positions@), 0, j + 1).len(),
        ensures
            self.stepped(old(cur), final(cur), j as int, res.0, res.1 as int),
    {
        let ghost d = self.digits();
        let ghost c = self.idx_of(cur.positions@);
        let ghost old_buf = cur.word@;
        let ghost old_len = cur.word_len as int;
        let ghost old_pos = cur.positions@;
        proof {
            self.lemma_idx_valid(old_pos);
            assert(Self::item_pos_ok(self.items@[j as int], self.lists(), old_pos[j as int]));
            self.lemma_item_idx(j as int, old_pos[j as int]);
            lemma_span_slot(d, c, j as int);
            assert(old_buf.take(old_len).len() == old_len);
        }
        let chr = cur.positions[j] as u8;
        proof {
            lemma_next_wraps(*cs, chr);
        }
        let next = cs.next(chr);
        let start = end - 1;
        cur.word[start] = next;
        cur.positions[j] = next as usize;
        proof {
            let x = cs@.index_of(next);
            assert(cs@[x] == next);
            if chr < next {
                lemma_index_of_ascending(cs@, c[j as int] + 1);
            } else {
                lemma_index_of_ascending(cs@, 0);
            }
            assert(d[j as int][x] =~= seq![next]);
            assert(cur.word@.subrange(start as int, start + 1) =~= seq![next]);
            assert(cur.word@.subrange(start + 1, old_len) =~= old_buf.subrange(
                start + 1,
                old_len,
            ));
            lemma_replace_value(
                d,
                c,
                j as int,
                x,
                old_buf,
                cur.word@,
                old_len,
                old_len,
                start as int,
            );
            self.lemma_pos_update(old_pos, j as int, next as usize);
            assert(cur.positions@ == old_pos.update(j as int, next as usize));
        }
        (chr < next, start)
    }

    /// Moves the wordlist position `j` on to its next word, in the buffer
    /// and in the cursor, wrapping to the first word after the last. Where
    /// the new word has another length, the rest of the line is shifted
    /// first. `end` is where the position's word ends in the buffer.
    fn step_wordlist(&self, cur: &mut WordlistCursor, j: usize, end: usize, wl: &Wordlist) -> (res:
        (bool, usize))
        requires
            self.wf(),
            self.state_ok(old(cur)),
            j < self.digits().len(),
            self.items@[j as int] matches WordlistItem::Wordlist(k) && self.wordlists@[k as int]
                == *wl,
            end == span(self.digits(), self.idx_of(old(cur).positions@), 0, j + 1).len(),
        ensures
            self.stepped(old(cur), final(cur), j as int, res.0, res.1 as int),
    {
        let ghost d = self.digits();
        let ghost c = self.idx_of(cur.positions@);
        let ghost old_buf = cur.word@;
        let ghost old_len = cur.word_len as int;
        let ghost old_pos = cur.positions@;
        proof {
            self.lemma_idx_valid(old_pos);
            assert(Self::item_pos_ok(self.items@[j as int], self.lists(), old_pos[j as int]));
            self.lemma_item_idx(j as int, old_pos[j as int]);
            lemma_span_slot(d, c, j as int);
            assert(old_buf.take(old_len).len() == old_len);
        }
        let count = wl.len();
        let prev = cur.positions[j];
        let prev_len = wl.word(prev).len();
        let next = if prev + 1 == count {
            0
        } else {
            prev + 1
        };
        let w = wl.word(next);
        let wlen = w.len();
        let start = end - prev_len;
        let word_len = cur.word_len;
        proof {
            lemma_span_len_update(d, c, j as int, next as int);
        }
        let new_len = word_len - prev_len + wlen;
        if wlen != prev_len {
            shift_bytes(&mut cur.word, end, word_len, start + wlen);
        }
        let ghost mid_buf = cur.word@;
        put_bytes(&mut cur.word, start, w);
        cur.word_len = new_len;
        cur.positions[j] = next;
        proof {
            assert(mid_buf.subrange(start + wlen, new_len as int) =~= old_buf.subrange(
                end as int,
                old_len,
            ));
            assert(cur.word@.subrange(start + wlen, new_len as int) =~= mid_buf.subrange(
                start + wlen,
                new_len as int,
            ));
            lemma_replace_value(
                d,
                c,
                j as int,
                next as int,
                old_buf,
                cur.word@,
                old_len,
                new_len as int,
                start as int,
            );
            self.lemma_pos_update(old_pos, j as int, next);
            assert(cur.positions@ == old_pos.update(j as int, next));
        }
        (next > 0, start)
    }

    /// Moves `cur` on to the next combination: the odometer step, from the
    /// last position leftwards. From the last combination it returns to the
    /// first and reports `false`.
    fn advance(&self, cur: &mut WordlistCursor) -> (advanced: bool)
        requires
            self.wf(),
            self.state_ok(old(cur)),
        ensures
            self.state_ok(final(cur)),
            final(cur).done == old(cur).done,
            advanced ==> self.cur_rank(final(cur)) == self.cur_rank(old(cur)) + 1,
            !advanced ==> self.cur_rank(old(cur)) == combos(self.digits()) - 1 && self.cur_rank(
                final(cur),
            ) == 0,
    {
        let ghost d = self.digits();
        let ghost a = self.idx_of(cur.positions@);
        proof {
            self.lemma_idx_valid(cur.positions@);
            assert(cur.word@.take(cur.word_len as int).len() == cur.word_len);
        }
        let mut i: usize = self.items.len();
        let mut end: usize = cur.word_len - 1;
        while i > 0
            invariant
                self.wf(),
                d == self.digits(),
                a == self.idx_of(old(cur).positions@),
                valid_idx(d, a),
                digits_ok(d),
                self.state_ok(cur),
                cur.done == old(cur).done,
                0 <= i <= d.len(),
                d.len() == self.items@.len(),
                self.idx_of(cur.positions@).len() == d.len(),
                end == span(d, self.idx_of(cur.positions@), 0, i as int).len(),
                forall|t: int| 0 <= t < i ==> #[trigger] self.idx_of(cur.positions@)[t] == a[t],
                forall|t: int| i <= t < d.len() ==> #[trigger] a[t] == d[t].len() - 1,
                forall|t: int| i <= t < d.len() ==> #[trigger] self.idx_of(cur.positions@)[t] == 0,
            decreases i,
        {
            i -= 1;
            let ghost before = *cur;
            let (moved, start) = match &self.items[i] {
                WordlistItem::Charset(cs) => self.step_charset(cur, i, end, cs),
                WordlistItem::Wordlist(k) => self.step_wordlist(cur, i, end, &self.wordlists[*k]),
            };
            assert(self.stepped(&before, cur, i as int, moved, start as int));
            if moved {
                proof {
                    lemma_rank_step(d, a, self.idx_of(cur.positions@), i as int);
                }
                return true;
            }
            end = start;
        }
        proof {
            let c = self.idx_of(cur.positions@);
            lemma_rank_last(d, a);
            lemma_rank_first(d, c);
        }
        false
    }

    /// The buffer of a cursor holds the line of the combination at which
    /// the cursor stands.
    proof fn lemma_line_held(&self, cur: &WordlistCursor)
        requires
            self.wf(),
            self.state_ok(cur),
        ensures
            0 <= self.cur_rank(cur) < combos(self.digits()),
            cur.word@.take(cur.word_len as int) == word_at(self.digits(), self.cur_rank(cur)).push(
                LINE_FEED,
            ),
    {
        let d = self.digits();
        let idx = self.idx_of(cur.positions@);
        self.lemma_idx_valid(cur.positions@);
        lemma_rank_bounds(d, idx);
        lemma_digits_of_rank(d, idx);
        lemma_word_of_span(d, idx);
    }

    /// A cursor at the first combination: every charset at its smallest
    /// member, every wordlist at its first word.
    pub fn start(&self) -> (cur: WordlistCursor)
        requires
            self.wf(),
        ensures
            self.cursor_ok(&cur),
            !cur.finished(),
            self.emitted(&cur) == Seq::<u8>::empty(),
            self.words_before(&cur) == 0,
    {
        let ghost d = self.digits();
        let n = self.items.len();
        let ghost zeros = Seq::new(n as nat, |i: int| 0int);
        let mut word: Vec<u8> = vec![LINE_FEED; MAX_WORD_SIZE];
        let mut positions: Vec<usize> = Vec::new();
        let mut len: usize = 0;
        let mut i: usize = 0;
        proof {
            assert(word@.take(0) =~= span(d, zeros, 0, 0));
        }
        while i < n
            invariant
                self.wf(),
                d == self.digits(),
                n == self.items@.len(),
                n == d.len(),
                zeros == Seq::new(n as nat, |i: int| 0int),
                i <= n,
                word@.len() == MAX_WORD_SIZE,
                len == span(d, zeros, 0, i as int).len(),
                len < MAX_WORD_SIZE,
                word@.take(len as int) == span(d, zeros, 0, i as int),
                positions@.len() == i,
                forall|t: int|
                    0 <= t < i ==> Self::item_pos_ok(
                        self.items@[t],
                        self.lists(),
                        #[trigger] positions@[t],
                    ) && Self::item_idx(self.items@[t], positions@[t]) == 0,
            decreases n - i,
        {
            let ghost before = word@;
            proof {
                assert(valid_idx(d, zeros)) by {
                    assert forall|t: int| 0 <= t < d.len() implies 0 <= #[trigger] zeros[t]
                        < d[t].len() by {
                        self.lemma_first_value(t);
                    }
                }
                lemma_span_bound(d, zeros, i + 1);
                lemma_max_line_monotone(d, i + 1, n as int);
                lemma_span_split(d, zeros, 0, i as int, i + 1);
                lemma_span_one(d, zeros, i as int);
                self.lemma_first_value(i as int);
            }
            match &self.items[i] {
                WordlistItem::Charset(cs) => {
                    let first = cs.min_value();
                    word[len] = first;
                    positions.push(first as usize);
                    proof {
                        lemma_index_of_ascending(cs@, 0);
                        assert(d[i as int][0] =~= seq![first]);
                        assert(word@.take(len + 1) =~= before.take(len as int) + seq![first]);
                    }
                    len += 1;
                },
                WordlistItem::Wordlist(k) => {
                    let w = self.wordlists[*k].word(0);
                    put_bytes(&mut word, len, w);
                    positions.push(0);
                    proof {
                        assert(word@.take(len + w@.len()) =~= before.take(len as int) + w@);
                    }
                    len += w.len();
                },
            }
            i += 1;
        }
        let ghost before = word@;
        word[len] = LINE_FEED;
        let cur = WordlistCursor { word, word_len: len + 1, positions, done: false };
        proof {
            assert(self.idx_of(cur.positions@) =~= zeros);
            assert(cur.word@.take(len + 1) =~= before.take(len as int).push(LINE_FEED));
            lemma_rank_first(d, zeros);
            assert(lines(d, 0, 0) =~= Seq::<u8>::empty());
        }
        cur
    }

    /// Every position has a first value.
    proof fn lemma_first_value(&self, i: int)
        requires
            self.wf(),
            0 <= i < self.items@.len(),
        ensures
            self.digits()[i].len() > 0,
            match self.items@[i] {
                WordlistItem::Charset(cs) => self.digits()[i] == charset_values(cs@) && cs.wf(),
                WordlistItem::Wordlist(k) => self.digits()[i] == self.wordlists@[k as int]@ && k
                    < self.wordlists@.len(),
            },
    {
        match self.items@[i] {
            WordlistItem::Charset(cs) => {},
            WordlistItem::Wordlist(k) => {
                assert(self.wordlists@[k as int].wf());
            },
        }
    }

    /// Writes lines into `buf`, from the combination at which `cur` stands
    /// on, until the next line would not fit or the last combination has
    /// been written. Reports whether the combinations are exhausted; `cur`
    /// is left at the first combination not yet written.
    fn fill(&self, cur: &mut WordlistCursor, buf: &mut StackBuf) -> (exhausted: bool)
        requires
            self.wf(),
            self.state_ok(old(cur)),
            old(buf).wf(),
        ensures
            self.state_ok(final(cur)),
            final(cur).done == old(cur).done,
            final(buf).wf(),
            exhausted ==> final(buf)@ == old(buf)@ + lines(
                self.digits(),
                self.cur_rank(old(cur)),
                combos(self.digits()) as int,
            ) && self.cur_rank(final(cur)) == 0,
            !exhausted ==> final(buf)@ == old(buf)@ + lines(
                self.digits(),
                self.cur_rank(old(cur)),
                self.cur_rank(final(cur)),
            ) && self.cur_rank(old(cur)) <= self.cur_rank(final(cur)) && final(buf)@.len()
                + MAX_WORD_SIZE > BUFFER_SIZE,
            old(buf)@.len() + MAX_WORD_SIZE <= BUFFER_SIZE ==> final(buf)@.len() > old(buf)@.len(),
    {
        let ghost d = self.digits();
        let ghost first = self.cur_rank(cur);
        let ghost held = buf@;
        proof {
            self.lemma_line_held(cur);
            assert(held + lines(d, first, first) =~= held);
        }
        loop
            invariant
                self.wf(),
                d == self.digits(),
                self.state_ok(cur),
                cur.done == old(cur).done,
                buf.wf(),
                held == old(buf)@,
                first == self.cur_rank(old(cur)),
                first <= self.cur_rank(cur) < combos(d),
                buf@ == held + lines(d, first, self.cur_rank(cur)),
                held.len() + MAX_WORD_SIZE <= BUFFER_SIZE && self.cur_rank(cur) == first
                    ==> buf@.len() == held.len(),
                self.cur_rank(cur) > first ==> buf@.len() > held.len(),
            decreases combos(d) - self.cur_rank(cur),
        {
            if buf.is_full(cur.word_len) {
                return false;
            }
            let ghost k = self.cur_rank(cur);
            proof {
                self.lemma_line_held(cur);
                lemma_lines_split(d, first, k, k + 1);
                lemma_lines_one(d, k);
            }
            let line = slice_subrange(cur.word.as_slice(), 0, cur.word_len);
            assert(line@ =~= cur.word@.take(cur.word_len as int));
            buf.write(line);
            assert(buf@ =~= held + lines(d, first, k + 1));
            let advanced = self.advance(cur);
            if !advanced {
                return true;
            }
            proof {
                self.lemma_line_held(cur);
            }
        }
    }

    /// Appends to `out` every combination, each followed by a line feed,
    /// the last position changing fastest.
    pub fn gen_words(&self, out: &mut Vec<u8>)
        requires
            self.wf(),
        ensures
            final(out)@ == old(out)@ + block(self.digits()),
    {
        let ghost d = self.digits();
        let mut buf = StackBuf::new();
        let mut cur = self.start();
        proof {
            assert(old(out)@ + lines(d, 0, 0) =~= old(out)@);
            self.lemma_line_held(&cur);
        }
        loop
            invariant_except_break
                out@ == old(out)@ + lines(d, 0, self.cur_rank(&cur)),
            invariant
                self.wf(),
                d == self.digits(),
                self.state_ok(&cur),
                buf.wf(),
                buf@ == Seq::<u8>::empty(),
                0 <= self.cur_rank(&cur) < combos(d),
            ensures
                out@ == old(out)@ + block(d),
            decreases combos(d) - self.cur_rank(&cur),
        {
            let ghost k = self.cur_rank(&cur);
            let exhausted = self.fill(&mut cur, &mut buf);
            let ghost batch = buf@;
            buf.flush_to(out);
            proof {
                self.lemma_line_held(&cur);
                let k2 = if exhausted {
                    combos(d) as int
                } else {
                    self.cur_rank(&cur)
                };
                assert(batch =~= lines(d, k, k2));
                lemma_lines_split(d, 0, k, k2);
                assert(out@ =~= old(out)@ + lines(d, 0, k2));
                if k2 == k {
                    assert(lines(d, k, k).len() == 0);
                }
            }
            if exhausted {
                break ;
            }
        }
    }

    /// Every byte that `gen` emits: the lines of all combinations.
    pub open spec fn output(&self) -> Seq<u8> {
        block(self.digits())
    }

    /// The number of words that `gen` emits: the product of the sizes of
    /// the positions.
    pub open spec fn word_count(&self) -> nat {
        combos(self.digits())
    }

    /// The words that `gen` emits, as a list.
    pub open spec fn words(&self) -> Seq<Seq<u8>> {
        words(self.digits(), 0, combos(self.digits()) as int)
    }

    /// The output is the lines of the list of emitted words, and that list
    /// has as many words as the product of the sizes of the positions.
    pub proof fn lemma_count_is_lines(&self)
        requires
            self.wf(),
        ensures
            self.output() == join_lines(self.words()),
            self.words().len() == self.word_count(),
    {
        lemma_lines_join(self.digits(), 0, combos(self.digits()) as int);
    }

    /// Every combination of one value per position is emitted exactly
    /// once: for each choice `idx` of an index at every position there is
    /// one number below the number of words whose digits are `idx`, and the
    /// word emitted with that number is the chosen values joined in mask
    /// order. Positions that name the same wordlist are chosen
    /// independently, like any two positions.
    pub proof fn lemma_every_combination(&self, idx: Seq<int>)
        requires
            self.wf(),
            valid_idx(self.digits(), idx),
        ensures
            0 <= rank(self.digits(), idx) < self.word_count(),
            self.words()[rank(self.digits(), idx)] == word_of(self.digits(), idx),
            digits_of(self.digits(), rank(self.digits(), idx)) == idx,
            forall|k: int|
                0 <= k < self.word_count() && digits_of(self.digits(), k) == idx ==> k == rank(
                    self.digits(),
                    idx,
                ),
    {
        lemma_each_combination_once(self.digits(), idx);
        lemma_digits_of_rank(self.digits(), idx);
    }

    /// `cur` stands at a combination of this generator, or at the end.
    pub closed spec fn cursor_ok(&self, cur: &WordlistCursor) -> bool {
        cur.done || self.state_ok(cur)
    }

    /// The bytes of all the lines before `cur`.
    pub closed spec fn emitted(&self, cur: &WordlistCursor) -> Seq<u8> {
        if cur.done {
            self.output()
        } else {
            lines(self.digits(), 0, self.cur_rank(cur))
        }
    }

    /// The number of lines before `cur`.
    pub closed spec fn words_before(&self, cur: &WordlistCursor) -> int {
        if cur.done {
            self.word_count() as int
        } else {
            self.cur_rank(cur)
        }
    }

    /// Clears `buf` and fills it with the lines that follow `cur`, as many
    /// whole lines as fit, and moves `cur` past them: the batch ends with
    /// the last word, or where the buffer is within one line of full. At
    /// the end `buf` stays empty.
    pub fn next_batch(&self, cur: &mut WordlistCursor, buf: &mut StackBuf)
        requires
            self.wf(),
            self.cursor_ok(old(cur)),
            old(buf).wf(),
        ensures
            self.cursor_ok(final(cur)),
            final(buf).wf(),
            self.emitted(final(cur)) == self.emitted(old(cur)) + final(buf)@,
            old(cur).finished() ==> final(cur).finished() && final(buf)@.len() == 0,
            !old(cur).finished() ==> final(buf)@.len() > 0 && self.words_before(final(cur))
                > self.words_before(old(cur)),
            !old(cur).finished() ==> final(buf)@.len() + MAX_WORD_SIZE > BUFFER_SIZE
                || final(cur).finished(),
            self.words_before(final(cur)) <= self.word_count(),
    {
        buf.clear();
        if cur.done {
            assert(self.emitted(cur) + buf@ =~= self.emitted(cur));
            return ;
        }
        let ghost d = self.digits();
        let ghost k = self.cur_rank(cur);
        proof {
            self.lemma_line_held(cur);
        }
        let exhausted = self.fill(cur, buf);
        proof {
            self.lemma_line_held(cur);
            let k2 = if exhausted {
                combos(d) as int
            } else {
                self.cur_rank(cur)
            };
            assert(buf@ =~= lines(d, k, k2));
            lemma_lines_split(d, 0, k, k2);
            if k2 == k {
                assert(lines(d, k, k).len() == 0);
            }
        }
        if exhausted {
            cur.done = true;
        }
    }

    /// What has been emitted up to a cursor is the beginning of the whole
    /// output and ends where a line ends: it is the lines of the first
    /// `words_before` words. All has been emitted exactly when the cursor
    /// is finished.
    pub proof fn lemma_emitted_prefix(&self, cur: &WordlistCursor)
        requires
            self.wf(),
            self.cursor_ok(cur),
        ensures
            self.emitted(cur).is_prefix_of(self.output()),
            0 <= self.words_before(cur) <= self.word_count(),
            self.emitted(cur) == join_lines(self.words().take(self.words_before(cur))),
            cur.finished() <==> self.words_before(cur) == self.word_count(),
            cur.finished() <==> self.emitted(cur) == self.output(),
    {
        let d = self.digits();
        self.lemma_count_is_lines();
        if !cur.done {
            let k = self.cur_rank(cur);
            self.lemma_line_held(cur);
            lemma_lines_split(d, 0, k, combos(d) as int);
            let rest = lines(d, k, combos(d) as int);
            lemma_lines_split(d, k, k + 1, combos(d) as int);
            lemma_lines_one(d, k);
            assert(rest.len() > 0);
            assert(self.emitted(cur).len() < self.output().len());
            lemma_lines_join(d, 0, k);
            assert(self.words().take(k) =~= words(d, 0, k));
        } else {
            assert(self.words().take(self.words().len() as int) =~= self.words());
        }
    }

    /// Every word emitted is a combination: the word with number `k` is
    /// the values that the digits of `k` pick, one at each position.
    pub proof fn lemma_every_word(&self, k: int)
        requires
            self.wf(),
            0 <= k < self.word_count(),
        ensures
            valid_idx(self.digits(), digits_of(self.digits(), k)),
            self.words()[k] == word_of(self.digits(), digits_of(self.digits(), k)),
    {
        self.lemma_shape();
        lemma_digits_valid(self.digits(), k);
        lemma_rank_of_digits(self.digits(), k);
    }

    /// Every position has a value.
    pub proof fn lemma_shape(&self)
        requires
            self.wf(),
        ensures
            digits_ok(self.digits()),
    {
        let d = self.digits();
        assert forall|i: int| 0 <= i < d.len() implies (#[trigger] d[i]).len() > 0 by {
            self.lemma_first_value(i);
        }
    }

    /// The sum of the sizes of the positions, or `None` where it exceeds
    /// what the result type can hold.
    pub fn checked_combinations(&self) -> (res: Option<u64>)
        requires
            self.wf(),
        ensures
            match res {
                Some(n) => n == size_sum(self.digits()),
                None => size_sum(self.digits()) > u64::MAX,
            },
    {
        let ghost d = self.digits();
        let n = self.items.len();
        let mut total: u64 = 0;
        let mut i: usize = 0;
        proof {
            assert(d.take(0) =~= Seq::<Values>::empty());
            assert(d.take(n as int) =~= d);
        }
        while i < n
            invariant
                self.wf(),
                d == self.digits(),
                n == self.items@.len(),
                n == d.len(),
                i <= n,
                total == size_sum(d.take(i as int)),
            decreases n - i,
        {
            proof {
                self.lemma_first_value(i as int);
                lemma_size_sum_take(d, i as int);
                lemma_size_sum_monotone(d, i + 1, n as int);
                assert(d.take(n as int) =~= d);
            }
            let size = match &self.items[i] {
                WordlistItem::Charset(cs) => cs.size(),
                WordlistItem::Wordlist(k) => self.wordlists[*k].len(),
            };
            total = match total.checked_add(size as u64) {
                Some(t) => t,
                None => {
                    return None;
                },
            };
            i += 1;
        }
        Some(total)
    }
}

/// A place in the output of a `WordlistGenerator`: the next word to emit.
pub struct WordlistCursor {
    word: Vec<u8>,
    word_len: usize,
    positions: Vec<usize>,
    done: bool,
}

impl WordlistCursor {
    /// Whether every word has been emitted.
    pub closed spec fn finished(&self) -> bool {
        self.done
    }

    /// Whether every word has been emitted.
    pub fn is_finished(&self) -> (done: bool)
        ensures
            done == self.finished(),
    {
        self.done
    }
}

impl<'a> WordGenerator for WordlistGenerator<'a> {
    open spec fn valid(&self) -> bool {
        self.wf()
    }

    open spec fn spec_output(&self) -> Seq<u8> {
        self.output()
    }

    /// The sum of the sizes of the positions. This is the figure that
    /// `combinations` reports for a mixed mask; the number of words that
    /// `gen` emits is their product, `word_count`.
    open spec fn spec_combinations(&self) -> nat {
        size_sum(self.digits())
    }

    fn gen(&self, out: &mut Vec<u8>) {
        self.gen_words(out);
    }

    fn combinations(&self) -> (n: u64) {
        match self.checked_combinations() {
            Some(n) => n,
            None => 0,
        }
    }
}

} // verus!
