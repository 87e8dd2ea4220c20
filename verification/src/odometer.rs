//! The order of enumeration, as mathematics.
//!
//! Every position of a mask has a list of values, each a byte string. The
//! combinations are numbered like the readings of an odometer: the last
//! position is the least significant digit. This module defines word number
//! `k`, the byte stream of a run of lines, and the facts about counting in
//! mixed radix that the generators rest on.
use vstd::arithmetic::div_mod::{
    lemma_div_is_ordered, lemma_div_pos_is_pos, lemma_fundamental_div_mod,
    lemma_fundamental_div_mod_converse, lemma_mod_bound,
};
use vstd::prelude::*;

verus! {

/// The line feed that ends every emitted word.
pub const LINE_FEED: u8 = 0x0a;

/// The values of one position, in the order in which it cycles through them.
pub type Values = Seq<Seq<u8>>;

/// Every position has at least one value.
pub open spec fn digits_ok(d: Seq<Values>) -> bool {
    forall|i: int| 0 <= i < d.len() ==> (#[trigger] d[i]).len() > 0
}

/// `idx` picks one value at each position of `d`.
pub open spec fn valid_idx(d: Seq<Values>, idx: Seq<int>) -> bool {
    &&& idx.len() == d.len()
    &&& forall|i: int| 0 <= i < d.len() ==> 0 <= #[trigger] idx[i] < d[i].len()
}

/// The number of combinations: the product of the positions' sizes.
pub open spec fn combos(d: Seq<Values>) -> nat
    decreases d.len(),
{
    if d.len() == 0 {
        1
    } else {
        combos(d.drop_last()) * d.last().len()
    }
}

/// The sum of the positions' sizes.
pub open spec fn size_sum(d: Seq<Values>) -> nat
    decreases d.len(),
{
    if d.len() == 0 {
        0
    } else {
        size_sum(d.drop_last()) + d.last().len()
    }
}

/// The word with number `k`: the digits of `k` in mixed radix, the last
/// position least significant, each replaced by the value it selects.
pub open spec fn word_at(d: Seq<Values>, k: int) -> Seq<u8>
    decreases d.len(),
{
    if d.len() == 0 {
        Seq::empty()
    } else {
        let n = d.last().len() as int;
        word_at(d.drop_last(), k / n) + d.last()[k % n]
    }
}

/// The digits of `k` in mixed radix: the index chosen at each position.
pub open spec fn digits_of(d: Seq<Values>, k: int) -> Seq<int>
    decreases d.len(),
{
    if d.len() == 0 {
        Seq::empty()
    } else {
        let n = d.last().len() as int;
        digits_of(d.drop_last(), k / n).push(k % n)
    }
}

/// The number of the combination that `idx` picks.
pub open spec fn rank(d: Seq<Values>, idx: Seq<int>) -> int
    decreases d.len(),
{
    if d.len() == 0 {
        0
    } else {
        rank(d.drop_last(), idx.drop_last()) * d.last().len() + idx.last()
    }
}

/// The word that `idx` picks: the chosen values, joined in mask order.
pub open spec fn word_of(d: Seq<Values>, idx: Seq<int>) -> Seq<u8>
    decreases d.len(),
{
    if d.len() == 0 {
        Seq::empty()
    } else {
        word_of(d.drop_last(), idx.drop_last()) + d.last()[idx.last()]
    }
}

/// The lines with numbers `lo` up to, not including, `hi`: each word
/// followed by a line feed.
pub open spec fn lines(d: Seq<Values>, lo: int, hi: int) -> Seq<u8>
    decreases hi - lo,
{
    if hi <= lo {
        Seq::empty()
    } else {
        lines(d, lo, hi - 1) + word_at(d, hi - 1).push(LINE_FEED)
    }
}

/// All lines of `d`, from the first combination to the last.
pub open spec fn block(d: Seq<Values>) -> Seq<u8> {
    lines(d, 0, combos(d) as int)
}

/// The blocks of the prefixes of `d` with lengths `lo` up to, not
/// including, `hi`, shortest first.
pub open spec fn blocks(d: Seq<Values>, lo: int, hi: int) -> Seq<u8>
    decreases hi - lo,
{
    if hi <= lo {
        Seq::empty()
    } else {
        blocks(d, lo, hi - 1) + block(d.take(hi - 1))
    }
}

/// The number of words in the blocks of lengths `lo` up to, not including,
/// `hi`.
pub open spec fn blocks_count(d: Seq<Values>, lo: int, hi: int) -> nat
    decreases hi - lo,
{
    if hi <= lo {
        0
    } else {
        blocks_count(d, lo, hi - 1) + combos(d.take(hi - 1))
    }
}

/// There is at least one combination.
pub proof fn lemma_combos_positive(d: Seq<Values>)
    requires
        digits_ok(d),
    ensures
        combos(d) >= 1,
    decreases d.len(),
{
    if d.len() > 0 {
        lemma_combos_positive(d.drop_last());
        assert(d.last().len() >= 1);
        assert(combos(d.drop_last()) * d.last().len() >= 1) by (nonlinear_arith)
            requires
                combos(d.drop_last()) >= 1,
                d.last().len() >= 1,
        ;
    }
}

/// The number of a combination is below the number of combinations.
pub proof fn lemma_rank_bounds(d: Seq<Values>, idx: Seq<int>)
    requires
        valid_idx(d, idx),
    ensures
        0 <= rank(d, idx) < combos(d),
    decreases d.len(),
{
    if d.len() > 0 {
        lemma_rank_bounds(d.drop_last(), idx.drop_last());
        let r = rank(d.drop_last(), idx.drop_last());
        let c = combos(d.drop_last()) as int;
        let n = d.last().len() as int;
        let i = idx.last();
        assert(0 <= r * n + i < c * n) by (nonlinear_arith)
            requires
                0 <= r < c,
                0 <= i < n,
        ;
    }
}

/// The digits of a number below the number of combinations pick one value
/// at each position.
pub proof fn lemma_digits_valid(d: Seq<Values>, k: int)
    requires
        digits_ok(d),
        0 <= k < combos(d),
    ensures
        valid_idx(d, digits_of(d, k)),
    decreases d.len(),
{
    if d.len() > 0 {
        let n = d.last().len() as int;
        let c = combos(d.drop_last()) as int;
        lemma_fundamental_div_mod(k, n);
        lemma_mod_bound(k, n);
        lemma_div_pos_is_pos(k, n);
        assert(k / n < c) by (nonlinear_arith)
            requires
                k == n * (k / n) + k % n,
                0 <= k % n < n,
                k < c * n,
        ;
        lemma_digits_valid(d.drop_last(), k / n);
        let rest = digits_of(d.drop_last(), k / n);
        let all = digits_of(d, k);
        assert forall|i: int| 0 <= i < d.len() implies 0 <= #[trigger] all[i] < d[i].len() by {
            if i < d.len() - 1 {
                assert(all[i] == rest[i]);
                assert(d.drop_last()[i] == d[i]);
            }
        }
    }
}

/// Numbering the combination that the digits of `k` pick gives `k` back.
pub proof fn lemma_rank_of_digits(d: Seq<Values>, k: int)
    requires
        digits_ok(d),
        0 <= k < combos(d),
    ensures
        rank(d, digits_of(d, k)) == k,
        word_of(d, digits_of(d, k)) == word_at(d, k),
    decreases d.len(),
{
    if d.len() > 0 {
        let n = d.last().len() as int;
        let c = combos(d.drop_last()) as int;
        lemma_fundamental_div_mod(k, n);
        lemma_mod_bound(k, n);
        lemma_div_pos_is_pos(k, n);
        assert(k / n < c) by (nonlinear_arith)
            requires
                k == n * (k / n) + k % n,
                0 <= k % n < n,
                k < c * n,
        ;
        lemma_rank_of_digits(d.drop_last(), k / n);
        let rest = digits_of(d.drop_last(), k / n);
        assert(digits_of(d, k).drop_last() =~= rest);
        assert(rank(d, digits_of(d, k)) == (k / n) * n + k % n);
        assert((k / n) * n == n * (k / n)) by (nonlinear_arith);
    }
}

/// The digits of the number of a combination are the indices it picks, and
/// the word with that number is the word it picks.
pub proof fn lemma_digits_of_rank(d: Seq<Values>, idx: Seq<int>)
    requires
        valid_idx(d, idx),
    ensures
        digits_of(d, rank(d, idx)) == idx,
        word_at(d, rank(d, idx)) == word_of(d, idx),
    decreases d.len(),
{
    if d.len() > 0 {
        let n = d.last().len() as int;
        let r = rank(d.drop_last(), idx.drop_last());
        let i = idx.last();
        lemma_digits_of_rank(d.drop_last(), idx.drop_last());
        lemma_fundamental_div_mod_converse(r * n + i, n, r, i);
        assert(digits_of(d, rank(d, idx)) =~= idx);
    } else {
        assert(digits_of(d, rank(d, idx)) =~= idx);
    }
}

/// Each combination of one value per position is the word of exactly one
/// number below the number of combinations.
pub proof fn lemma_each_combination_once(d: Seq<Values>, idx: Seq<int>)
    requires
        valid_idx(d, idx),
    ensures
        0 <= rank(d, idx) < combos(d),
        digits_of(d, rank(d, idx)) == idx,
        forall|k: int| 0 <= k < combos(d) && digits_of(d, k) == idx ==> k == rank(d, idx),
{
    lemma_rank_bounds(d, idx);
    lemma_digits_of_rank(d, idx);
    assert(digits_ok(d)) by {
        assert forall|i: int| 0 <= i < d.len() implies (#[trigger] d[i]).len() > 0 by {
            assert(0 <= idx[i] < d[i].len());
        }
    }
    assert forall|k: int| 0 <= k < combos(d) && digits_of(d, k) == idx implies k == rank(
        d,
        idx,
    ) by {
        lemma_rank_of_digits(d, k);
    }
}

/// The combination of all first values has number zero.
pub proof fn lemma_rank_first(d: Seq<Values>, idx: Seq<int>)
    requires
        idx.len() == d.len(),
        forall|i: int| 0 <= i < d.len() ==> idx[i] == 0,
    ensures
        rank(d, idx) == 0,
    decreases d.len(),
{
    if d.len() > 0 {
        lemma_rank_first(d.drop_last(), idx.drop_last());
    }
}

/// The combination of all last values has the last number.
pub proof fn lemma_rank_last(d: Seq<Values>, idx: Seq<int>)
    requires
        digits_ok(d),
        idx.len() == d.len(),
        forall|i: int| 0 <= i < d.len() ==> idx[i] == d[i].len() - 1,
    ensures
        rank(d, idx) == combos(d) - 1,
    decreases d.len(),
{
    if d.len() > 0 {
        lemma_rank_last(d.drop_last(), idx.drop_last());
        let c = combos(d.drop_last()) as int;
        let n = d.last().len() as int;
        assert((c - 1) * n + (n - 1) == c * n - 1) by (nonlinear_arith);
    }
}

/// One step of the odometer: where every position right of `j` stands at
/// its last value and position `j` does not, moving `j` on by one and the
/// positions right of it back to their first value gives the next number.
pub proof fn lemma_rank_step(d: Seq<Values>, a: Seq<int>, b: Seq<int>, j: int)
    requires
        valid_idx(d, a),
        b.len() == d.len(),
        0 <= j < d.len(),
        forall|i: int| 0 <= i < j ==> b[i] == a[i],
        b[j] == a[j] + 1,
        forall|i: int| j < i < d.len() ==> a[i] == d[i].len() - 1 && b[i] == 0,
    ensures
        rank(d, b) == rank(d, a) + 1,
    decreases d.len(),
{
    let n = d.last().len() as int;
    if j == d.len() - 1 {
        assert(a.drop_last() =~= b.drop_last());
    } else {
        lemma_rank_step(d.drop_last(), a.drop_last(), b.drop_last(), j);
        let r = rank(d.drop_last(), a.drop_last());
        assert((r + 1) * n + 0 == r * n + (n - 1) + 1) by (nonlinear_arith);
    }
}

/// A run of lines is its first part followed by its second part.
pub proof fn lemma_lines_split(d: Seq<Values>, lo: int, mid: int, hi: int)
    requires
        lo <= mid <= hi,
    ensures
        lines(d, lo, hi) == lines(d, lo, mid) + lines(d, mid, hi),
    decreases hi - mid,
{
    if mid == hi {
        assert(lines(d, lo, mid) + Seq::<u8>::empty() =~= lines(d, lo, mid));
    } else {
        lemma_lines_split(d, lo, mid, hi - 1);
        let w = word_at(d, hi - 1).push(LINE_FEED);
        assert((lines(d, lo, mid) + lines(d, mid, hi - 1)) + w =~= lines(d, lo, mid) + (lines(
            d,
            mid,
            hi - 1,
        ) + w));
    }
}

/// A run of one line is that word and its line feed.
pub proof fn lemma_lines_one(d: Seq<Values>, k: int)
    ensures
        lines(d, k, k + 1) == word_at(d, k).push(LINE_FEED),
{
    assert(lines(d, k, k) =~= Seq::<u8>::empty());
    assert(Seq::<u8>::empty() + word_at(d, k).push(LINE_FEED) =~= word_at(d, k).push(LINE_FEED));
}

/// The blocks of a range of lengths are those of its first part followed by
/// those of its second part.
pub proof fn lemma_blocks_split(d: Seq<Values>, lo: int, mid: int, hi: int)
    requires
        lo <= mid <= hi,
    ensures
        blocks(d, lo, hi) == blocks(d, lo, mid) + blocks(d, mid, hi),
        blocks_count(d, lo, hi) == blocks_count(d, lo, mid) + blocks_count(d, mid, hi),
    decreases hi - mid,
{
    if mid == hi {
        assert(blocks(d, lo, mid) + Seq::<u8>::empty() =~= blocks(d, lo, mid));
    } else {
        lemma_blocks_split(d, lo, mid, hi - 1);
        let w = block(d.take(hi - 1));
        assert((blocks(d, lo, mid) + blocks(d, mid, hi - 1)) + w =~= blocks(d, lo, mid) + (blocks(
            d,
            mid,
            hi - 1,
        ) + w));
    }
}

/// A longer prefix of the mask has at least as many combinations.
pub proof fn lemma_combos_monotone(d: Seq<Values>, i: int, j: int)
    requires
        digits_ok(d),
        0 <= i <= j <= d.len(),
    ensures
        1 <= combos(d.take(i)) <= combos(d.take(j)),
    decreases j - i,
{
    assert(digits_ok(d.take(i))) by {
        assert forall|k: int| 0 <= k < d.take(i).len() implies (#[trigger] d.take(i)[k]).len()
            > 0 by {
            assert(d[k].len() > 0);
        }
    }
    lemma_combos_positive(d.take(i));
    if i < j {
        lemma_combos_monotone(d, i, j - 1);
        lemma_combos_take(d, j - 1);
        let c = combos(d.take(j - 1));
        let n = d[j - 1].len();
        assert(n >= 1);
        assert(c * n >= c) by (nonlinear_arith)
            requires
                n >= 1,
                c >= 0,
        ;
    }
}

/// Taking one more position multiplies the combinations by its size.
pub proof fn lemma_combos_take(d: Seq<Values>, i: int)
    requires
        0 <= i < d.len(),
    ensures
        combos(d.take(i + 1)) == combos(d.take(i)) * d[i].len(),
{
    assert(d.take(i + 1).drop_last() =~= d.take(i));
    assert(d.take(i + 1).last() == d[i]);
}

/// A wider range of lengths holds at least as many words.
pub proof fn lemma_blocks_count_monotone(d: Seq<Values>, lo: int, mid: int, hi: int)
    requires
        lo <= mid <= hi,
    ensures
        blocks_count(d, lo, mid) <= blocks_count(d, lo, hi),
    decreases hi - mid,
{
    if mid < hi {
        lemma_blocks_count_monotone(d, lo, mid, hi - 1);
    }
}

/// Taking one more position adds its size to the sum of sizes.
pub proof fn lemma_size_sum_take(d: Seq<Values>, i: int)
    requires
        0 <= i < d.len(),
    ensures
        size_sum(d.take(i + 1)) == size_sum(d.take(i)) + d[i].len(),
{
    assert(d.take(i + 1).drop_last() =~= d.take(i));
    assert(d.take(i + 1).last() == d[i]);
}

/// A longer prefix of the mask has at least as large a sum of sizes.
pub proof fn lemma_size_sum_monotone(d: Seq<Values>, i: int, j: int)
    requires
        0 <= i <= j <= d.len(),
    ensures
        size_sum(d.take(i)) <= size_sum(d.take(j)),
    decreases j - i,
{
    if i < j {
        lemma_size_sum_monotone(d, i, j - 1);
        lemma_size_sum_take(d, j - 1);
    }
}

/// The values that `idx` picks at the positions `lo` up to, not including,
/// `hi`, joined in mask order.
pub open spec fn span(d: Seq<Values>, idx: Seq<int>, lo: int, hi: int) -> Seq<u8>
    decreases hi - lo,
{
    if hi <= lo {
        Seq::empty()
    } else {
        span(d, idx, lo, hi - 1) + d[hi - 1][idx[hi - 1]]
    }
}

/// A stretch of positions is its first part followed by its second part.
pub proof fn lemma_span_split(d: Seq<Values>, idx: Seq<int>, lo: int, mid: int, hi: int)
    requires
        lo <= mid <= hi,
    ensures
        span(d, idx, lo, hi) == span(d, idx, lo, mid) + span(d, idx, mid, hi),
    decreases hi - mid,
{
    if mid == hi {
        assert(span(d, idx, lo, mid) + Seq::<u8>::empty() =~= span(d, idx, lo, mid));
    } else {
        lemma_span_split(d, idx, lo, mid, hi - 1);
        let v = d[hi - 1][idx[hi - 1]];
        assert((span(d, idx, lo, mid) + span(d, idx, mid, hi - 1)) + v =~= span(d, idx, lo, mid)
            + (span(d, idx, mid, hi - 1) + v));
    }
}

/// A stretch of positions depends on the digits and indices of those
/// positions alone.
pub proof fn lemma_span_frame(
    d: Seq<Values>,
    e: Seq<Values>,
    a: Seq<int>,
    b: Seq<int>,
    lo: int,
    hi: int,
)
    requires
        forall|i: int| lo <= i < hi ==> d[i] == e[i] && a[i] == b[i],
    ensures
        span(d, a, lo, hi) == span(e, b, lo, hi),
    decreases hi - lo,
{
    if lo < hi {
        lemma_span_frame(d, e, a, b, lo, hi - 1);
    }
}

/// A word is the stretch of all its positions.
pub proof fn lemma_word_of_span(d: Seq<Values>, idx: Seq<int>)
    requires
        idx.len() == d.len(),
    ensures
        word_of(d, idx) == span(d, idx, 0, d.len() as int),
    decreases d.len(),
{
    if d.len() > 0 {
        lemma_word_of_span(d.drop_last(), idx.drop_last());
        lemma_span_frame(d.drop_last(), d, idx.drop_last(), idx, 0, d.len() - 1);
    }
}

/// A stretch of one position is the value picked there.
pub proof fn lemma_span_one(d: Seq<Values>, idx: Seq<int>, i: int)
    ensures
        span(d, idx, i, i + 1) == d[i][idx[i]],
{
    assert(span(d, idx, i, i) =~= Seq::<u8>::empty());
    assert(Seq::<u8>::empty() + d[i][idx[i]] =~= d[i][idx[i]]);
}

/// The lines of a list of words: each word followed by a line feed.
pub open spec fn join_lines(ws: Seq<Seq<u8>>) -> Seq<u8>
    decreases ws.len(),
{
    if ws.len() == 0 {
        Seq::empty()
    } else {
        join_lines(ws.drop_last()) + ws.last().push(LINE_FEED)
    }
}

/// The words with numbers `lo` up to, not including, `hi`, as a list.
pub open spec fn words(d: Seq<Values>, lo: int, hi: int) -> Seq<Seq<u8>> {
    Seq::new((hi - lo) as nat, |i: int| word_at(d, lo + i))
}

/// The words of the blocks of lengths `lo` up to, not including, `hi`, as
/// a list, shortest length first.
pub open spec fn block_words(d: Seq<Values>, lo: int, hi: int) -> Seq<Seq<u8>>
    decreases hi - lo,
{
    if hi <= lo {
        Seq::empty()
    } else {
        block_words(d, lo, hi - 1) + words(d.take(hi - 1), 0, combos(d.take(hi - 1)) as int)
    }
}

/// The lines of two lists of words, one after the other, are the lines of
/// the joined list.
pub proof fn lemma_join_concat(a: Seq<Seq<u8>>, b: Seq<Seq<u8>>)
    ensures
        join_lines(a + b) == join_lines(a) + join_lines(b),
    decreases b.len(),
{
    if b.len() == 0 {
        assert(a + b =~= a);
        assert(join_lines(a) + join_lines(b) =~= join_lines(a));
    } else {
        lemma_join_concat(a, b.drop_last());
        assert((a + b).drop_last() =~= a + b.drop_last());
        assert((a + b).last() == b.last());
        assert((join_lines(a) + join_lines(b.drop_last())) + b.last().push(LINE_FEED)
            =~= join_lines(a) + (join_lines(b.drop_last()) + b.last().push(LINE_FEED)));
    }
}

/// A run of lines is the lines of the list of its words.
pub proof fn lemma_lines_join(d: Seq<Values>, lo: int, hi: int)
    requires
        lo <= hi,
    ensures
        lines(d, lo, hi) == join_lines(words(d, lo, hi)),
        words(d, lo, hi).len() == hi - lo,
    decreases hi - lo,
{
    if lo < hi {
        lemma_lines_join(d, lo, hi - 1);
        assert(words(d, lo, hi).drop_last() =~= words(d, lo, hi - 1));
        assert(words(d, lo, hi).last() == word_at(d, hi - 1));
    }
}

/// The blocks of a range of lengths are the lines of the list of their
/// words, and that list has as many words as the blocks are counted to
/// have.
pub proof fn lemma_blocks_join(d: Seq<Values>, lo: int, hi: int)
    ensures
        blocks(d, lo, hi) == join_lines(block_words(d, lo, hi)),
        block_words(d, lo, hi).len() == blocks_count(d, lo, hi),
    decreases hi - lo,
{
    if lo < hi {
        lemma_blocks_join(d, lo, hi - 1);
        let last = d.take(hi - 1);
        lemma_lines_join(last, 0, combos(last) as int);
        lemma_join_concat(block_words(d, lo, hi - 1), words(last, 0, combos(last) as int));
    }
}

/// The words of the blocks of a range of lengths are those of its first
/// part followed by those of its second part.
pub proof fn lemma_block_words_split(d: Seq<Values>, lo: int, mid: int, hi: int)
    requires
        lo <= mid <= hi,
    ensures
        block_words(d, lo, hi) == block_words(d, lo, mid) + block_words(d, mid, hi),
    decreases hi - mid,
{
    if mid == hi {
        assert(block_words(d, lo, mid) + Seq::<Seq<u8>>::empty() =~= block_words(d, lo, mid));
    } else {
        lemma_block_words_split(d, lo, mid, hi - 1);
        let w = words(d.take(hi - 1), 0, combos(d.take(hi - 1)) as int);
        assert((block_words(d, lo, mid) + block_words(d, mid, hi - 1)) + w =~= block_words(
            d,
            lo,
            mid,
        ) + (block_words(d, mid, hi - 1) + w));
    }
}

/// Every value of every position has `w` bytes.
pub open spec fn uniform_width(d: Seq<Values>, w: nat) -> bool {
    forall|i: int, x: int|
        0 <= i < d.len() && 0 <= x < d[i].len() ==> (#[trigger] d[i][x]).len() == w
}

/// Whether `a` comes before `b` in the order of a dictionary, bytes
/// compared by value.
pub open spec fn lex_less(a: Seq<u8>, b: Seq<u8>) -> bool {
    ||| exists|i: int| differ_at(a, b, i)
    ||| (a.len() < b.len() && a == b.take(a.len() as int))
}

/// `a` and `b` agree before index `i`, where `a` has the smaller byte.
pub open spec fn differ_at(a: Seq<u8>, b: Seq<u8>, i: int) -> bool {
    0 <= i < a.len() && i < b.len() && a.take(i) == b.take(i) && a[i] < b[i]
}

/// The values of every position stand in ascending order.
pub open spec fn values_ascending(d: Seq<Values>) -> bool {
    forall|i: int, x: int, y: int|
        0 <= i < d.len() && 0 <= x < y < d[i].len() ==> lex_less(
            #[trigger] d[i][x],
            #[trigger] d[i][y],
        )
}

/// Where every value has `w` bytes, every word has `w` bytes per position.
pub proof fn lemma_word_len(d: Seq<Values>, w: nat, k: int)
    requires
        digits_ok(d),
        uniform_width(d, w),
        0 <= k < combos(d),
    ensures
        word_at(d, k).len() == d.len() * w,
    decreases d.len(),
{
    if d.len() > 0 {
        let n = d.last().len() as int;
        let c = combos(d.drop_last()) as int;
        lemma_fundamental_div_mod(k, n);
        lemma_mod_bound(k, n);
        lemma_div_pos_is_pos(k, n);
        assert(k / n < c) by (nonlinear_arith)
            requires
                k == n * (k / n) + k % n,
                0 <= k % n < n,
                k < c * n,
        ;
        assert(uniform_width(d.drop_last(), w)) by {
            assert forall|i: int, x: int|
                0 <= i < d.drop_last().len() && 0 <= x < d.drop_last()[i].len() implies (
            #[trigger] d.drop_last()[i][x]).len() == w by {
                assert(d[i][x].len() == w);
            }
        }
        lemma_word_len(d.drop_last(), w, k / n);
        assert(d[d.len() - 1][k % n].len() == w);
        assert((d.len() - 1) * w + w == d.len() * w) by (nonlinear_arith);
    } else {
        assert(0 * w == 0) by (nonlinear_arith);
    }
}

/// Where every value has `w` bytes, a run of lines has the same number of
/// bytes for each line.
pub proof fn lemma_lines_len(d: Seq<Values>, w: nat, lo: int, hi: int)
    requires
        digits_ok(d),
        uniform_width(d, w),
        0 <= lo <= hi <= combos(d),
    ensures
        lines(d, lo, hi).len() == (hi - lo) * (d.len() * w + 1),
    decreases hi - lo,
{
    let width = d.len() * w + 1;
    if lo < hi {
        lemma_lines_len(d, w, lo, hi - 1);
        lemma_word_len(d, w, hi - 1);
        assert((hi - 1 - lo) * width + width == (hi - lo) * width) by (nonlinear_arith);
    } else {
        assert(0 * width == 0) by (nonlinear_arith);
    }
}

/// Where every value has `w` bytes, line `k` of a block stands at `k` times
/// the length of a line.
pub proof fn lemma_line_at(d: Seq<Values>, w: nat, k: int)
    requires
        digits_ok(d),
        uniform_width(d, w),
        0 <= k < combos(d),
    ensures
        0 <= k * (d.len() * w + 1),
        (k + 1) * (d.len() * w + 1) <= block(d).len(),
        block(d).subrange(k * (d.len() * w + 1), (k + 1) * (d.len() * w + 1)) == word_at(
            d,
            k,
        ).push(LINE_FEED),
{
    let width = (d.len() * w + 1) as int;
    let c = combos(d) as int;
    lemma_lines_split(d, 0, k, c);
    lemma_lines_split(d, k, k + 1, c);
    lemma_lines_one(d, k);
    lemma_lines_len(d, w, 0, k);
    lemma_lines_len(d, w, k, k + 1);
    lemma_lines_len(d, w, k + 1, c);
    lemma_lines_len(d, w, 0, c);
    assert((k + 1) * width == k * width + width) by (nonlinear_arith);
    assert(1 * width == width) by (nonlinear_arith);
    assert(0 <= k * width) by (nonlinear_arith)
        requires
            0 <= k,
            0 <= width,
    ;
    assert((k + 1) * width <= c * width) by (nonlinear_arith)
        requires
            k + 1 <= c,
            0 <= width,
    ;
    let line = word_at(d, k).push(LINE_FEED);
    assert(block(d) == lines(d, 0, k) + (line + lines(d, k + 1, c)));
    assert(block(d).subrange(k * width, (k + 1) * width) =~= line);
}

/// Where every value has the same number of bytes and every position's
/// values ascend, the words ascend with their numbers.
pub proof fn lemma_words_ascending(d: Seq<Values>, w: nat, k1: int, k2: int)
    requires
        digits_ok(d),
        uniform_width(d, w),
        values_ascending(d),
        0 <= k1 < k2 < combos(d),
    ensures
        exists|i: int| differ_at(word_at(d, k1), word_at(d, k2), i),
        lex_less(word_at(d, k1), word_at(d, k2)),
        word_at(d, k1) != word_at(d, k2),
    decreases d.len(),
{
    if d.len() == 0 {
        assert(combos(d) == 1);
    } else {
        let n = d.last().len() as int;
        let c = combos(d.drop_last()) as int;
        let rest = d.drop_last();
        lemma_fundamental_div_mod(k1, n);
        lemma_fundamental_div_mod(k2, n);
        lemma_mod_bound(k1, n);
        lemma_mod_bound(k2, n);
        lemma_div_pos_is_pos(k1, n);
        lemma_div_is_ordered(k1, k2, n);
        let q1 = k1 / n;
        let q2 = k2 / n;
        let v1 = d.last()[k1 % n];
        let v2 = d.last()[k2 % n];
        assert(q2 < c) by (nonlinear_arith)
            requires
                k2 == n * q2 + k2 % n,
                0 <= k2 % n < n,
                k2 < c * n,
        ;
        assert(uniform_width(rest, w)) by {
            assert forall|i: int, x: int|
                0 <= i < rest.len() && 0 <= x < rest[i].len() implies (#[trigger] rest[i][x]).len()
                == w by {
                assert(d[i][x].len() == w);
            }
        }
        assert(values_ascending(rest)) by {
            assert forall|i: int, x: int, y: int|
                0 <= i < rest.len() && 0 <= x < y < rest[i].len() implies lex_less(
                #[trigger] rest[i][x],
                #[trigger] rest[i][y],
            ) by {
                assert(lex_less(d[i][x], d[i][y]));
            }
        }
        lemma_word_len(rest, w, q1);
        lemma_word_len(rest, w, q2);
        let p1 = word_at(rest, q1);
        let p2 = word_at(rest, q2);
        let a = word_at(d, k1);
        let b = word_at(d, k2);
        assert(d[d.len() - 1][k1 % n].len() == w);
        assert(d[d.len() - 1][k2 % n].len() == w);
        if q1 < q2 {
            lemma_words_ascending(rest, w, q1, q2);
            let i = choose|i: int| differ_at(p1, p2, i);
            assert(a.take(i) =~= p1.take(i));
            assert(b.take(i) =~= p2.take(i));
            assert(differ_at(a, b, i));
        } else {
            assert(k1 % n < k2 % n) by (nonlinear_arith)
                requires
                    k1 == n * q1 + k1 % n,
                    k2 == n * q2 + k2 % n,
                    q1 == q2,
                    k1 < k2,
            ;
            assert(lex_less(v1, v2));
            let i = choose|i: int| differ_at(v1, v2, i);
            assert(differ_at(v1, v2, i));
            let at = p1.len() + i;
            assert(a.take(at) =~= p1 + v1.take(i));
            assert(b.take(at) =~= p2 + v2.take(i));
            assert(differ_at(a, b, at));
        }
        let i = choose|i: int| differ_at(a, b, i);
        assert(a[i] != b[i]);
    }
}

/// Replacing the value of one position in a line held in a buffer: where
/// the bytes before the position stay, the new value stands in its place,
/// and the rest of the line follows it unchanged, the buffer holds the line
/// of the changed combination. `start` is where the position's value
/// begins.
pub proof fn lemma_replace_value(
    d: Seq<Values>,
    c: Seq<int>,
    j: int,
    x: int,
    old_buf: Seq<u8>,
    new_buf: Seq<u8>,
    old_len: int,
    new_len: int,
    start: int,
)
    requires
        valid_idx(d, c),
        0 <= j < d.len(),
        0 <= x < d[j].len(),
        0 <= old_len <= old_buf.len(),
        0 <= new_len <= new_buf.len(),
        old_buf.take(old_len) == span(d, c, 0, d.len() as int).push(LINE_FEED),
        start == span(d, c, 0, j).len(),
        new_len == old_len - d[j][c[j]].len() + d[j][x].len(),
        forall|k: int| 0 <= k < start ==> new_buf[k] == old_buf[k],
        new_buf.subrange(start, start + d[j][x].len()) == d[j][x],
        new_buf.subrange(start + d[j][x].len(), new_len) == old_buf.subrange(
            start + d[j][c[j]].len(),
            old_len,
        ),
    ensures
        valid_idx(d, c.update(j, x)),
        span(d, c.update(j, x), 0, j) == span(d, c, 0, j),
        new_buf.take(new_len) == span(d, c.update(j, x), 0, d.len() as int).push(LINE_FEED),
{
    let n = d.len() as int;
    let c2 = c.update(j, x);
    let p = span(d, c, 0, j);
    let v = d[j][c[j]];
    let v2 = d[j][x];
    let t = span(d, c, j + 1, n);
    lemma_span_split(d, c, 0, j, n);
    lemma_span_split(d, c, j, j + 1, n);
    lemma_span_one(d, c, j);
    lemma_span_split(d, c2, 0, j, n);
    lemma_span_split(d, c2, j, j + 1, n);
    lemma_span_one(d, c2, j);
    lemma_span_frame(d, d, c, c2, 0, j);
    lemma_span_frame(d, d, c, c2, j + 1, n);
    let whole = span(d, c, 0, n);
    let whole2 = span(d, c2, 0, n);
    assert(whole == p + (v + t));
    assert(whole2 == p + (v2 + t));
    let line = old_buf.take(old_len);
    assert(line.len() == whole.len() + 1);
    assert(old_len == start + v.len() + t.len() + 1);
    let tail = old_buf.subrange(start + v.len(), old_len);
    assert(tail =~= t.push(LINE_FEED)) by {
        assert forall|k: int| 0 <= k < tail.len() implies tail[k] == t.push(LINE_FEED)[k] by {
            assert(tail[k] == line[start + v.len() + k]);
            if k < t.len() {
                assert(whole[start + v.len() + k] == t[k]);
            }
        }
    }
    let line2 = new_buf.take(new_len);
    let want = whole2.push(LINE_FEED);
    assert(line2.len() == want.len());
    assert forall|k: int| 0 <= k < line2.len() implies line2[k] == want[k] by {
        if k < start {
            assert(line2[k] == old_buf[k]);
            assert(line[k] == whole[k]);
        } else if k < start + v2.len() {
            assert(new_buf.subrange(start, start + v2.len())[k - start] == new_buf[k]);
        } else {
            let r = k - start - v2.len();
            assert(new_buf.subrange(start + v2.len(), new_len)[r] == new_buf[k]);
            assert(tail[r] == t.push(LINE_FEED)[r]);
        }
    }
    assert(line2 =~= want);
}

} // verus!
