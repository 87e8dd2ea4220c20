//! The two generators, the contract they share, and the choice between
//! them.
//!
//! A generator emits its words either into a vector in memory (`gen`) or
//! batch by batch (`step`), for a caller that owns the sink: the caller
//! writes each batch and reports how the write went.
use vstd::prelude::*;
use vstd::string::StringSliceAdditionalSpecFns;
use crate::errors::GenError;
use crate::items::customs_of;
use crate::odometer::join_lines;
use crate::stackbuf::StackBuf;
use crate::{BUFFER_SIZE, MAX_WORD_SIZE};
use crate::wordlists::Wordlist;

pub mod charset;
pub mod wordlist;

pub use self::charset::{charset_plan, CharsetCursor, CharsetGenerator};
pub use self::wordlist::{lists_of, wordlist_plan, WordlistCursor, WordlistGenerator};

verus! {

/// What every generator offers: all its words, and a count.
pub trait WordGenerator {
    /// The generator is fit for use.
    spec fn valid(&self) -> bool;

    /// Every byte that `gen` emits, in order.
    spec fn spec_output(&self) -> Seq<u8>;

    /// The number that `combinations` reports.
    spec fn spec_combinations(&self) -> nat;

    /// Appends every word, each followed by a line feed, to `out`.
    fn gen(&self, out: &mut Vec<u8>)
        requires
            self.valid(),
        ensures
            final(out)@ == old(out)@ + self.spec_output(),
    ;

    /// The count, where it fits the result type.
    fn combinations(&self) -> (n: u64)
        requires
            self.valid(),
            self.spec_combinations() <= u64::MAX,
        ensures
            n == self.spec_combinations(),
    ;
}

/// One of the two generators.
pub enum Generator<'a> {
    Charset(CharsetGenerator<'a>),
    Wordlist(WordlistGenerator<'a>),
}

/// A place in the output of a `Generator`.
pub enum Cursor {
    Charset(CharsetCursor),
    Wordlist(WordlistCursor),
}

/// What the sink reported of the last batch handed to it.
#[derive(Clone, Copy, Debug, PartialEq, Eq, Structural)]
pub enum SinkEvent {
    /// The batch was written, or none has been handed out yet.
    Ready,
    /// The reader has gone away: the sink takes no more bytes.
    Closed,
    /// The write failed for another reason.
    Failed,
}

/// What the caller is to do after a step.
#[derive(Clone, Copy, Debug, PartialEq, Eq, Structural)]
pub enum Action {
    /// Write the batch that the buffer holds, then report how it went.
    Write,
    /// Stop: the run has ended well.
    Finish,
    /// Stop: the run has failed.
    Abort,
}

/// Chooses the generator for a request: the charset generator where no
/// wordlist is supplied, the mixed generator otherwise. Length options
/// cannot go together with wordlists.
pub fn get_word_generator<'a>(
    mask: &'a str,
    minlen: Option<usize>,
    maxlen: Option<usize>,
    custom_charsets: &[&'a str],
    wordlists: Vec<Wordlist>,
) -> (res: Result<Generator<'a>, GenError>)
    requires
        forall|k: int| 0 <= k < wordlists@.len() ==> (#[trigger] wordlists@[k]).wf(),
    ensures
        wordlists@.len() == 0 ==> match charset_plan(
            mask.spec_bytes(),
            minlen,
            maxlen,
            customs_of(custom_charsets@),
        ) {
            Err(e) => res matches Err(x) && x == e,
            Ok((d, lo, hi)) => res matches Ok(Generator::Charset(g)) && g.wf() && g.digits() == d
                && g.lo() == lo && g.hi() == hi && g.mask_text() == mask,
        },
        wordlists@.len() > 0 && (minlen is Some || maxlen is Some) ==> (res matches Err(x) && x
            == GenError::Configuration),
        wordlists@.len() > 0 && minlen is None && maxlen is None ==> match wordlist_plan(
            mask.spec_bytes(),
            lists_of(wordlists@),
            customs_of(custom_charsets@),
        ) {
            Err(e) => res matches Err(x) && x == e,
            Ok(d) => res matches Ok(Generator::Wordlist(g)) && g.wf() && g.digits() == d
                && g.lists() == lists_of(wordlists@) && g.mask_text() == mask,
        },
        res matches Ok(g) ==> g.valid(),
{
    if wordlists.len() == 0 {
        match CharsetGenerator::new(mask, minlen, maxlen, custom_charsets) {
            Ok(g) => Ok(Generator::Charset(g)),
            Err(e) => Err(e),
        }
    } else if minlen.is_some() || maxlen.is_some() {
        Err(GenError::Configuration)
    } else {
        match WordlistGenerator::new(mask, wordlists, custom_charsets) {
            Ok(g) => Ok(Generator::Wordlist(g)),
            Err(e) => Err(e),
        }
    }
}

impl<'a> Generator<'a> {
    /// `cur` is a cursor of this generator's kind and stands at one of its
    /// words, or at the end.
    pub open spec fn cursor_ok(&self, cur: &Cursor) -> bool {
        match (self, cur) {
            (Generator::Charset(g), Cursor::Charset(c)) => g.cursor_ok(c),
            (Generator::Wordlist(g), Cursor::Wordlist(c)) => g.cursor_ok(c),
            _ => false,
        }
    }

    /// The bytes of all the lines before `cur`.
    pub open spec fn emitted(&self, cur: &Cursor) -> Seq<u8> {
        match (self, cur) {
            (Generator::Charset(g), Cursor::Charset(c)) => g.emitted(c),
            (Generator::Wordlist(g), Cursor::Wordlist(c)) => g.emitted(c),
            _ => Seq::empty(),
        }
    }

    /// Whether `cur` stands where the words of a length begin, or at the
    /// end. The mixed generator has one such stretch: all its words.
    pub open spec fn at_length_start(&self, cur: &Cursor) -> bool {
        match (self, cur) {
            (Generator::Charset(g), Cursor::Charset(c)) => g.at_length_start(c),
            (Generator::Wordlist(g), Cursor::Wordlist(c)) => c.finished(),
            _ => true,
        }
    }

    /// The number of lines before `cur`.
    pub open spec fn words_before(&self, cur: &Cursor) -> int {
        match (self, cur) {
            (Generator::Charset(g), Cursor::Charset(c)) => g.words_before(c),
            (Generator::Wordlist(g), Cursor::Wordlist(c)) => g.words_before(c),
            _ => 0,
        }
    }

    /// The words that `gen` emits, as a list.
    pub open spec fn words(&self) -> Seq<Seq<u8>> {
        match self {
            Generator::Charset(g) => g.words(),
            Generator::Wordlist(g) => g.words(),
        }
    }

    /// The number of words that `gen` emits.
    pub open spec fn word_count(&self) -> nat {
        match self {
            Generator::Charset(g) => g.word_count(),
            Generator::Wordlist(g) => g.word_count(),
        }
    }

    /// A cursor at the first word.
    pub fn start(&self) -> (cur: Cursor)
        requires
            self.valid(),
        ensures
            self.cursor_ok(&cur),
            !cur.finished(),
            self.emitted(&cur) == Seq::<u8>::empty(),
            self.words_before(&cur) == 0,
    {
        match self {
            Generator::Charset(g) => Cursor::Charset(g.start()),
            Generator::Wordlist(g) => Cursor::Wordlist(g.start()),
        }
    }

    /// Clears `buf` and fills it with the lines that follow `cur`, as many
    /// whole lines as fit, and moves `cur` past them. At the end `buf`
    /// stays empty.
    pub fn next_batch(&self, cur: &mut Cursor, buf: &mut StackBuf)
        requires
            self.valid(),
            self.cursor_ok(old(cur)),
            old(buf).wf(),
        ensures
            self.cursor_ok(final(cur)),
            final(buf).wf(),
            self.emitted(final(cur)) == self.emitted(old(cur)) + final(buf)@,
            old(cur).finished() ==> final(cur).finished() && final(buf)@.len() == 0,
            !old(cur).finished() ==> final(buf)@.len() > 0 && self.words_before(final(cur))
                > self.words_before(old(cur)),
            !old(cur).finished() ==> final(buf)@.len() + MAX_WORD_SIZE > BUFFER_SIZE
                || self.at_length_start(final(cur)),
            self.words_before(final(cur)) <= self.word_count(),
    {
        match self {
            Generator::Charset(g) => match cur {
                Cursor::Charset(c) => g.next_batch(c, buf),
                Cursor::Wordlist(_) => {},
            },
            Generator::Wordlist(g) => match cur {
                Cursor::Wordlist(c) => g.next_batch(c, buf),
                Cursor::Charset(_) => {},
            },
        }
    }

    /// One step of a run against a sink that the caller owns. `event` says
    /// how the last write went. While the sink is ready and words are left,
    /// the step puts the next batch of whole lines into `buf` and asks for
    /// it to be written. A closed sink ends the run well, with nothing more
    /// handed out; a failed write ends it badly.
    pub fn step(&self, cur: &mut Cursor, buf: &mut StackBuf, event: SinkEvent) -> (action: Action)
        requires
            self.valid(),
            self.cursor_ok(old(cur)),
            old(buf).wf(),
        ensures
            self.cursor_ok(final(cur)),
            final(buf).wf(),
            self.emitted(final(cur)) == self.emitted(old(cur)) + final(buf)@,
            self.words_before(final(cur)) <= self.word_count(),
            match event {
                SinkEvent::Closed => action == Action::Finish && final(buf)@.len() == 0,
                SinkEvent::Failed => action == Action::Abort && final(buf)@.len() == 0,
                SinkEvent::Ready => if old(cur).finished() {
                    action == Action::Finish && final(buf)@.len() == 0
                } else {
                    &&& action == Action::Write
                    &&& final(buf)@.len() > 0
                    &&& self.words_before(final(cur)) > self.words_before(old(cur))
                    &&& (final(buf)@.len() + MAX_WORD_SIZE > BUFFER_SIZE
                        || self.at_length_start(final(cur)))
                },
            },
    {
        match event {
            SinkEvent::Closed => {
                buf.clear();
                proof {
                    self.lemma_emitted_prefix(cur);
                    assert(self.emitted(cur) + buf@ =~= self.emitted(cur));
                }
                Action::Finish
            },
            SinkEvent::Failed => {
                buf.clear();
                proof {
                    self.lemma_emitted_prefix(cur);
                    assert(self.emitted(cur) + buf@ =~= self.emitted(cur));
                }
                Action::Abort
            },
            SinkEvent::Ready => {
                let was_finished = cur.is_finished();
                self.next_batch(cur, buf);
                if was_finished {
                    Action::Finish
                } else {
                    Action::Write
                }
            },
        }
    }

    /// What has been emitted up to a cursor is the beginning of the whole
    /// output and ends where a line ends: it is the lines of the first
    /// `words_before` words. All has been emitted exactly when the cursor
    /// is finished.
    pub proof fn lemma_emitted_prefix(&self, cur: &Cursor)
        requires
            self.valid(),
            self.cursor_ok(cur),
        ensures
            self.emitted(cur).is_prefix_of(self.spec_output()),
            0 <= self.words_before(cur) <= self.word_count(),
            self.emitted(cur) == join_lines(self.words().take(self.words_before(cur))),
            cur.finished() <==> self.words_before(cur) == self.word_count(),
            cur.finished() <==> self.emitted(cur) == self.spec_output(),
    {
        match (self, cur) {
            (Generator::Charset(g), Cursor::Charset(c)) => g.lemma_emitted_prefix(c),
            (Generator::Wordlist(g), Cursor::Wordlist(c)) => g.lemma_emitted_prefix(c),
            _ => {},
        }
    }

    /// The count that `combinations` reports, or `None` where it exceeds
    /// what the result type can hold.
    pub fn checked_combinations(&self) -> (res: Option<u64>)
        requires
            self.valid(),
        ensures
            match res {
                Some(n) => n == self.spec_combinations(),
                None => self.spec_combinations() > u64::MAX,
            },
    {
        match self {
            Generator::Charset(g) => g.checked_combinations(),
            Generator::Wordlist(g) => g.checked_combinations(),
        }
    }
}

impl Cursor {
    /// Whether every word has been emitted.
    pub open spec fn finished(&self) -> bool {
        match self {
            Cursor::Charset(c) => c.finished(),
            Cursor::Wordlist(c) => c.finished(),
        }
    }

    /// Whether every word has been emitted.
    pub fn is_finished(&self) -> (done: bool)
        ensures
            done == self.finished(),
    {
        match self {
            Cursor::Charset(c) => c.is_finished(),
            Cursor::Wordlist(c) => c.is_finished(),
        }
    }
}

impl<'a> WordGenerator for Generator<'a> {
    open spec fn valid(&self) -> bool {
        match self {
            Generator::Charset(g) => g.wf(),
            Generator::Wordlist(g) => g.wf(),
        }
    }

    open spec fn spec_output(&self) -> Seq<u8> {
        match self {
            Generator::Charset(g) => g.output(),
            Generator::Wordlist(g) => g.output(),
        }
    }

    open spec fn spec_combinations(&self) -> nat {
        match self {
            Generator::Charset(g) => g.spec_combinations(),
            Generator::Wordlist(g) => g.spec_combinations(),
        }
    }

    fn gen(&self, out: &mut Vec<u8>) {
        match self {
            Generator::Charset(g) => g.gen(out),
            Generator::Wordlist(g) => g.gen(out),
        }
    }

    fn combinations(&self) -> (n: u64) {
        match self {
            Generator::Charset(g) => g.combinations(),
            Generator::Wordlist(g) => g.combinations(),
        }
    }
}

} // verus!
