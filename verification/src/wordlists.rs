//! Wordlists: the variable-width digits of a mask.
//!
//! A wordlist is the content of a file of words, one per line, in file
//! order. Reading the file is the caller's business; this module splits its
//! bytes.
use vstd::prelude::*;
use vstd::slice::{slice_subrange, slice_to_vec};
use crate::errors::GenError;
use crate::odometer::LINE_FEED;

verus! {

/// The number of bytes from `at` up to the next line feed or the end.
pub open spec fn line_len(s: Seq<u8>, at: int) -> nat
    decreases s.len() - at,
{
    if at < 0 || at >= s.len() || s[at] == LINE_FEED {
        0
    } else {
        1 + line_len(s, at + 1)
    }
}

/// The words of `s` from `at` on: the stretches between line feeds. A line
/// feed ends a word; bytes after the last line feed form a last word.
pub open spec fn split_from(s: Seq<u8>, at: int) -> Seq<Seq<u8>>
    decreases s.len() - at,
{
    if at < 0 || at >= s.len() {
        Seq::empty()
    } else {
        let end = at + line_len(s, at);
        if end >= s.len() {
            seq![s.subrange(at, s.len() as int)]
        } else {
            seq![s.subrange(at, end)] + split_from(s, end + 1)
        }
    }
}

/// The words of a whole file.
pub open spec fn split_lines(s: Seq<u8>) -> Seq<Seq<u8>> {
    split_from(s, 0)
}

/// The largest length among the first `n` words of `words`.
pub open spec fn longest(words: Seq<Seq<u8>>, n: int) -> nat
    decreases n,
{
    if n <= 0 {
        0
    } else {
        let rest = longest(words, n - 1);
        if words[n - 1].len() > rest {
            words[n - 1].len()
        } else {
            rest
        }
    }
}

/// No word is longer than the longest.
pub proof fn lemma_longest_bounds(words: Seq<Seq<u8>>, n: int, i: int)
    requires
        0 <= i < n <= words.len(),
    ensures
        words[i].len() <= longest(words, n),
    decreases n,
{
    if i < n - 1 {
        lemma_longest_bounds(words, n - 1, i);
    }
}

/// A line ends within the file, and no byte of it is a line feed.
pub proof fn lemma_line_len(s: Seq<u8>, at: int)
    requires
        0 <= at <= s.len(),
    ensures
        at + line_len(s, at) <= s.len(),
        forall|k: int| at <= k < at + line_len(s, at) ==> s[k] != LINE_FEED,
        at + line_len(s, at) < s.len() ==> s[at + line_len(s, at)] == LINE_FEED,
    decreases s.len() - at,
{
    if at < s.len() && s[at] != LINE_FEED {
        lemma_line_len(s, at + 1);
    }
}

/// An ordered list of words, never empty.
pub struct Wordlist {
    words: Vec<Vec<u8>>,
    longest: usize,
}

impl View for Wordlist {
    type V = Seq<Seq<u8>>;

    /// The words in file order.
    closed spec fn view(&self) -> Seq<Seq<u8>> {
        Seq::new(self.words@.len(), |i: int| self.words@[i]@)
    }
}

impl Wordlist {
    /// The cached maximum agrees with the words.
    pub closed spec fn cache_wf(&self) -> bool {
        self.longest == longest(self@, self@.len() as int)
    }

    /// At least one word.
    pub open spec fn wf(&self) -> bool {
        &&& self@.len() >= 1
        &&& self.cache_wf()
    }

    /// The words of a file's content. A file without any byte holds no
    /// word and is rejected.
    pub fn from_bytes(data: &[u8]) -> (res: Result<Wordlist, GenError>)
        ensures
            data@.len() > 0 ==> res is Ok,
            data@.len() == 0 ==> res == Err::<Wordlist, GenError>(GenError::InvalidCharset),
            res matches Ok(wl) ==> wl.wf() && wl@ == split_lines(data@),
    {
        let n = data.len();
        if n == 0 {
            return Err(GenError::InvalidCharset);
        }
        let mut words: Vec<Vec<u8>> = Vec::new();
        let mut most: usize = 0;
        let mut at: usize = 0;
        let ghost mut done: Seq<Seq<u8>> = Seq::empty();
        while at < n
            invariant
                at <= n,
                n == data@.len(),
                n > 0,
                at > 0 ==> done.len() > 0,
                done.len() == words@.len(),
                forall|i: int| 0 <= i < done.len() ==> done[i] == #[trigger] words@[i]@,
                split_lines(data@) == done + split_from(data@, at as int),
                most == longest(done, done.len() as int),
            decreases n - at,
        {
            let mut end: usize = at;
            while end < n && data[end] != LINE_FEED
                invariant
                    at <= end <= n,
                    n == data@.len(),
                    line_len(data@, at as int) == (end - at) + line_len(data@, end as int),
                decreases n - end,
            {
                end += 1;
            }
            let word = slice_to_vec(slice_subrange(data, at, end));
            proof {
                let rest = split_from(data@, end + 1);
                let w = data@.subrange(at as int, end as int);
                assert(word@ == w);
                assert(done.push(w) + rest =~= done + (seq![w] + rest));
                lemma_longest_prefix(done, done.push(w), done.len() as int);
                done = done.push(w);
            }
            if word.len() > most {
                most = word.len();
            }
            words.push(word);
            proof {
                lemma_line_len(data@, at as int);
            }
            at = if end < n {
                end + 1
            } else {
                n
            };
        }
        let wl = Wordlist { words, longest: most };
        proof {
            assert(split_from(data@, at as int) =~= Seq::<Seq<u8>>::empty());
            assert(done + Seq::<Seq<u8>>::empty() =~= done);
            assert(wl@ =~= done);
        }
        Ok(wl)
    }

    /// The number of words.
    pub fn len(&self) -> (n: usize)
        ensures
            n == self@.len(),
    {
        self.words.len()
    }

    /// The word at index `i`.
    pub fn word(&self, i: usize) -> (w: &[u8])
        requires
            i < self@.len(),
        ensures
            w@ == self@[i as int],
    {
        self.words[i].as_slice()
    }

    /// The length of the longest word.
    pub fn max_word_len(&self) -> (n: usize)
        requires
            self.wf(),
        ensures
            n == longest(self@, self@.len() as int),
    {
        self.longest
    }
}

/// The longest of the first `n` words depends on those words alone.
pub proof fn lemma_longest_prefix(a: Seq<Seq<u8>>, b: Seq<Seq<u8>>, n: int)
    requires
        0 <= n <= a.len(),
        n <= b.len(),
        forall|i: int| 0 <= i < n ==> a[i] == b[i],
    ensures
        longest(a, n) == longest(b, n),
    decreases n,
{
    if n > 0 {
        lemma_longest_prefix(a, b, n - 1);
    }
}

} // verus!
