//! From the tokens of a mask to the digits of the enumeration.
//!
//! A token resolves against the custom charsets and wordlists that were
//! supplied with the mask. This module says which values each token ranges
//! over and which tokens cannot be resolved.
use vstd::prelude::*;
use vstd::string::StringSliceAdditionalSpecFns;
use crate::charsets::{alphabet_members, Charset, class_members, is_class};
use crate::errors::GenError;
use crate::mask::MaskOp;
use crate::odometer::{
    lemma_span_frame, lemma_span_one, lemma_span_split, span, valid_idx, Values, word_of,
};
use crate::wordlists::{lemma_longest_bounds, longest};

verus! {

/// The values of a charset position: each member as a word of one byte.
pub open spec fn charset_values(members: Seq<u8>) -> Values {
    Seq::new(members.len(), |i: int| seq![members[i]])
}

/// The alphabets of the custom charsets, as bytes.
pub open spec fn customs_of(custom_charsets: Seq<&str>) -> Seq<Seq<u8>> {
    Seq::new(custom_charsets.len(), |i: int| custom_charsets[i].spec_bytes())
}

/// An alphabet can serve as a charset where it is not empty and names no
/// byte twice.
pub open spec fn alphabet_ok(alphabet: Seq<u8>) -> bool {
    alphabet.len() > 0 && alphabet.no_duplicates()
}

/// Why `op` cannot be resolved, if it cannot. `wordlists` is `None` where
/// wordlist positions are not supported at all.
pub open spec fn token_error(
    op: MaskOp,
    customs: Seq<Seq<u8>>,
    wordlists: Option<Seq<Values>>,
) -> Option<GenError> {
    match op {
        MaskOp::Char(_) => None,
        MaskOp::BuiltinCharset(c) => if is_class(c) {
            None
        } else {
            Some(GenError::InvalidCharset)
        },
        MaskOp::CustomCharset(i) => if i < customs.len() && alphabet_ok(customs[i as int]) {
            None
        } else {
            Some(GenError::InvalidCharset)
        },
        MaskOp::Wordlist(i) => match wordlists {
            None => Some(GenError::UnsupportedToken),
            Some(lists) => if i < lists.len() {
                None
            } else {
                Some(GenError::InvalidCharset)
            },
        },
    }
}

/// The values that `op` ranges over, for a token that can be resolved.
pub open spec fn token_values(
    op: MaskOp,
    customs: Seq<Seq<u8>>,
    wordlists: Option<Seq<Values>>,
) -> Values {
    match op {
        MaskOp::Char(c) => seq![seq![c]],
        MaskOp::BuiltinCharset(c) => charset_values(class_members(c)),
        MaskOp::CustomCharset(i) => charset_values(alphabet_members(customs[i as int])),
        MaskOp::Wordlist(i) => match wordlists {
            None => Seq::empty(),
            Some(lists) => lists[i as int],
        },
    }
}

/// The error of the first among the first `upto` tokens that cannot be
/// resolved.
pub open spec fn first_error(
    ops: Seq<MaskOp>,
    customs: Seq<Seq<u8>>,
    wordlists: Option<Seq<Values>>,
    upto: int,
) -> Option<GenError>
    decreases upto,
{
    if upto <= 0 {
        None
    } else {
        match first_error(ops, customs, wordlists, upto - 1) {
            Some(e) => Some(e),
            None => token_error(ops[upto - 1], customs, wordlists),
        }
    }
}

/// Once a token has failed to resolve, the first error no longer changes.
pub proof fn lemma_first_error_stays(
    ops: Seq<MaskOp>,
    customs: Seq<Seq<u8>>,
    wordlists: Option<Seq<Values>>,
    upto: int,
    later: int,
)
    requires
        0 <= upto <= later,
        first_error(ops, customs, wordlists, upto) is Some,
    ensures
        first_error(ops, customs, wordlists, later) == first_error(ops, customs, wordlists, upto),
    decreases later - upto,
{
    if upto < later {
        lemma_first_error_stays(ops, customs, wordlists, upto, later - 1);
    }
}

/// The digits of a mask: the values of each token, in mask order.
pub open spec fn mask_digits(
    ops: Seq<MaskOp>,
    customs: Seq<Seq<u8>>,
    wordlists: Option<Seq<Values>>,
) -> Seq<Values> {
    Seq::new(ops.len(), |i: int| token_values(ops[i], customs, wordlists))
}

/// The length of the longest line: the longest value of every position,
/// and the line feed.
pub open spec fn max_line(d: Seq<Values>) -> nat {
    max_line_upto(d, d.len() as int)
}

/// The digits of a mask of charsets alone, given each position's members.
pub open spec fn charset_digits(members: Seq<Seq<u8>>) -> Seq<Values> {
    Seq::new(members.len(), |i: int| charset_values(members[i]))
}

/// Every byte of `word` is a member of the charset at its position.
pub open spec fn word_fits(members: Seq<Seq<u8>>, word: Seq<u8>) -> bool {
    &&& word.len() <= members.len()
    &&& forall|i: int| 0 <= i < word.len() ==> (#[trigger] members[i]).contains(word[i])
}

/// The index that each byte of `word` has in the charset at its position.
pub open spec fn byte_idx(members: Seq<Seq<u8>>, word: Seq<u8>) -> Seq<int> {
    Seq::new(word.len(), |i: int| members[i].index_of(word[i]))
}

/// A word of member bytes is the combination that its own bytes pick.
pub proof fn lemma_byte_word(members: Seq<Seq<u8>>, word: Seq<u8>)
    requires
        word_fits(members, word),
    ensures
        valid_idx(charset_digits(members).take(word.len() as int), byte_idx(members, word)),
        word_of(charset_digits(members).take(word.len() as int), byte_idx(members, word))
            == word,
    decreases word.len(),
{
    let n = word.len() as int;
    let d = charset_digits(members).take(n);
    let idx = byte_idx(members, word);
    assert forall|i: int| 0 <= i < d.len() implies 0 <= #[trigger] idx[i] < d[i].len() by {
        assert(members[i].contains(word[i]));
        let k = members[i].index_of(word[i]);
        assert(0 <= k < members[i].len());
    }
    if n > 0 {
        let shorter = word.drop_last();
        assert forall|i: int| 0 <= i < shorter.len() implies (#[trigger] members[i]).contains(
            shorter[i],
        ) by {
            assert(members[i].contains(word[i]));
        }
        lemma_byte_word(members, shorter);
        assert(d.drop_last() =~= charset_digits(members).take(n - 1));
        assert(idx.drop_last() =~= byte_idx(members, shorter));
        assert(members[n - 1].contains(word[n - 1]));
        let k = members[n - 1].index_of(word[n - 1]);
        assert(d.last()[k] =~= seq![word[n - 1]]);
        assert(shorter + seq![word[n - 1]] =~= word);
    } else {
        assert(word =~= Seq::<u8>::empty());
    }
}

/// The longest line through the first `upto` positions: the longest value
/// of each of them, and the line feed.
pub open spec fn max_line_upto(d: Seq<Values>, upto: int) -> nat
    decreases upto,
{
    if upto <= 0 {
        1
    } else {
        max_line_upto(d, upto - 1) + longest(d[upto - 1], d[upto - 1].len() as int)
    }
}

/// No stretch of leading positions is longer than the longest line through
/// them, line feed included.
pub proof fn lemma_span_bound(d: Seq<Values>, idx: Seq<int>, upto: int)
    requires
        valid_idx(d, idx),
        0 <= upto <= d.len(),
    ensures
        span(d, idx, 0, upto).len() + 1 <= max_line_upto(d, upto),
    decreases upto,
{
    if upto > 0 {
        lemma_span_bound(d, idx, upto - 1);
        let v = d[upto - 1];
        assert(0 <= idx[upto - 1] < v.len());
        lemma_longest_bounds(v, v.len() as int, idx[upto - 1]);
    }
}

/// The longest line grows with the number of positions.
pub proof fn lemma_max_line_monotone(d: Seq<Values>, i: int, j: int)
    requires
        0 <= i <= j,
    ensures
        max_line_upto(d, i) <= max_line_upto(d, j),
    decreases j - i,
{
    if i < j {
        lemma_max_line_monotone(d, i, j - 1);
    }
}

/// The longest value of a charset position has one byte.
pub proof fn lemma_charset_width(members: Seq<u8>, n: int)
    requires
        0 <= n <= members.len(),
    ensures
        longest(charset_values(members), n) == if n > 0 {
            1nat
        } else {
            0nat
        },
    decreases n,
{
    if n > 0 {
        lemma_charset_width(members, n - 1);
    }
}

/// Where the value of position `j` stands in a word: after the values of
/// the positions before it, and within the word.
pub proof fn lemma_span_slot(d: Seq<Values>, c: Seq<int>, j: int)
    requires
        valid_idx(d, c),
        0 <= j < d.len(),
    ensures
        span(d, c, 0, j + 1).len() == span(d, c, 0, j).len() + d[j][c[j]].len(),
        span(d, c, 0, j + 1).len() <= span(d, c, 0, d.len() as int).len(),
{
    lemma_span_split(d, c, 0, j, j + 1);
    lemma_span_one(d, c, j);
    lemma_span_split(d, c, 0, j + 1, d.len() as int);
}

/// Changing the value of one position changes the length of the word by
/// the difference of the two values' lengths, and the line still fits the
/// longest line.
pub proof fn lemma_span_len_update(d: Seq<Values>, c: Seq<int>, j: int, x: int)
    requires
        valid_idx(d, c),
        0 <= j < d.len(),
        0 <= x < d[j].len(),
    ensures
        valid_idx(d, c.update(j, x)),
        span(d, c.update(j, x), 0, d.len() as int).len() == span(d, c, 0, d.len() as int).len()
            - d[j][c[j]].len() + d[j][x].len(),
        span(d, c.update(j, x), 0, d.len() as int).len() + 1 <= max_line(d),
{
    let n = d.len() as int;
    let c2 = c.update(j, x);
    lemma_span_bound(d, c2, n);
    lemma_span_split(d, c2, 0, j, n);
    lemma_span_split(d, c2, j, j + 1, n);
    lemma_span_one(d, c2, j);
    lemma_span_split(d, c, 0, j, n);
    lemma_span_split(d, c, j, j + 1, n);
    lemma_span_one(d, c, j);
    lemma_span_frame(d, d, c, c2, 0, j);
    lemma_span_frame(d, d, c, c2, j + 1, n);
}

/// The charset that a token other than a wordlist reference stands for.
pub fn resolve_charset(op: MaskOp, custom_charsets: &[&str]) -> (res: Result<Charset, GenError>)
    ensures
        match token_error(op, customs_of(custom_charsets@), None) {
            Some(e) => res == Err::<Charset, GenError>(e),
            None => res matches Ok(cs) && cs.wf() && charset_values(cs@) == token_values(
                op,
                customs_of(custom_charsets@),
                None,
            ),
        },
{
    match op {
        MaskOp::Char(c) => {
            let cs = Charset::from_literal(c);
            assert(charset_values(cs@) =~= seq![seq![c]]);
            Ok(cs)
        },
        MaskOp::BuiltinCharset(c) => Charset::from_builtin(c),
        MaskOp::CustomCharset(i) => {
            if i < custom_charsets.len() {
                Charset::from_custom(custom_charsets[i].as_bytes())
            } else {
                Err(GenError::InvalidCharset)
            }
        },
        MaskOp::Wordlist(_) => Err(GenError::UnsupportedToken),
    }
}

} // verus!
