//! The mask grammar: from the text of a mask to its tokens.
//!
//! The escape byte `?` introduces a class letter, a digit `1` to `9` that
//! selects a custom charset, or `w` and a digit `1` to `9` that selects a
//! wordlist. Every other byte stands for itself.
use vstd::prelude::*;
use vstd::string::StringSliceAdditionalSpecFns;
use crate::charsets::{class_known, is_class};
use crate::errors::GenError;

verus! {

/// The escape byte, `?`.
pub const ESCAPE: u8 = 0x3f;

/// The byte `w`, which follows the escape byte in a wordlist reference.
pub const WORDLIST_MARK: u8 = 0x77;

/// One position of a mask.
#[derive(Clone, Copy, Debug, PartialEq, Eq, Structural)]
pub enum MaskOp {
    /// A byte that stands for itself.
    Char(u8),
    /// A built-in class, by its letter.
    BuiltinCharset(u8),
    /// A custom charset, by its index counted from zero.
    CustomCharset(usize),
    /// A wordlist, by its index counted from zero.
    Wordlist(usize),
}

/// Whether `b` is one of the digits `1` to `9`.
pub open spec fn is_index_digit(b: u8) -> bool {
    0x31 <= b <= 0x39
}

/// The token that starts at `at` and the number of bytes it takes, or
/// `None` where the escape byte is followed by nothing the grammar knows.
pub open spec fn token_at(s: Seq<u8>, at: int) -> Option<(MaskOp, int)>
    recommends
        0 <= at < s.len(),
{
    if s[at] != ESCAPE {
        Some((MaskOp::Char(s[at]), 1))
    } else if at + 1 >= s.len() {
        None
    } else if is_class(s[at + 1]) {
        Some((MaskOp::BuiltinCharset(s[at + 1]), 2))
    } else if is_index_digit(s[at + 1]) {
        Some((MaskOp::CustomCharset((s[at + 1] - 0x31) as usize), 2))
    } else if s[at + 1] == WORDLIST_MARK && at + 2 < s.len() && is_index_digit(s[at + 2]) {
        Some((MaskOp::Wordlist((s[at + 2] - 0x31) as usize), 3))
    } else {
        None
    }
}

/// The tokens of the bytes of `s` from `at` on, or `None` where some token
/// among them is malformed.
pub open spec fn parse_from(s: Seq<u8>, at: int) -> Option<Seq<MaskOp>>
    decreases s.len() - at,
{
    if at < 0 || at >= s.len() {
        Some(Seq::empty())
    } else {
        match token_at(s, at) {
            None => None,
            Some((op, width)) => match parse_from(s, at + width) {
                None => None,
                Some(rest) => Some(seq![op] + rest),
            },
        }
    }
}

/// The tokens of a whole mask.
pub open spec fn parse_spec(s: Seq<u8>) -> Option<Seq<MaskOp>> {
    parse_from(s, 0)
}

/// Reads the token that starts at `at`.
fn read_token(s: &[u8], at: usize) -> (res: Option<(MaskOp, usize)>)
    requires
        at < s@.len(),
    ensures
        match token_at(s@, at as int) {
            None => res is None,
            Some((op, width)) => res == Some((op, width as usize)) && 1 <= width <= 3 && at
                + width <= s@.len(),
        },
{
    let n = s.len();
    let c = s[at];
    if c != ESCAPE {
        return Some((MaskOp::Char(c), 1));
    }
    if at + 1 >= n {
        return None;
    }
    let d = s[at + 1];
    if class_known(d) {
        Some((MaskOp::BuiltinCharset(d), 2))
    } else if 0x31 <= d && d <= 0x39 {
        Some((MaskOp::CustomCharset((d - 0x31) as usize), 2))
    } else if d == WORDLIST_MARK && at + 2 < n {
        let e = s[at + 2];
        if 0x31 <= e && e <= 0x39 {
            Some((MaskOp::Wordlist((e - 0x31) as usize), 3))
        } else {
            None
        }
    } else {
        None
    }
}

/// Splits the bytes of a mask into tokens. The mask is rejected exactly
/// where `parse_spec` finds a malformed token.
pub fn parse_bytes(s: &[u8]) -> (res: Result<Vec<MaskOp>, GenError>)
    ensures
        match parse_spec(s@) {
            Some(ops) => res matches Ok(v) && v@ == ops,
            None => res == Err::<Vec<MaskOp>, GenError>(GenError::MaskSyntax),
        },
{
    let n = s.len();
    let mut ops: Vec<MaskOp> = Vec::new();
    let mut at: usize = 0;
    while at < n
        invariant
            at <= n,
            n == s@.len(),
            parse_spec(s@) == match parse_from(s@, at as int) {
                None => None::<Seq<MaskOp>>,
                Some(rest) => Some(ops@ + rest),
            },
        decreases n - at,
    {
        match read_token(s, at) {
            None => {
                return Err(GenError::MaskSyntax);
            },
            Some((op, width)) => {
                proof {
                    let rest = parse_from(s@, at + width);
                    if rest is Some {
                        assert(ops@.push(op) + rest->0 =~= ops@ + (seq![op] + rest->0));
                    }
                }
                ops.push(op);
                at = at + width;
            },
        }
    }
    assert(ops@ + Seq::<MaskOp>::empty() =~= ops@);
    Ok(ops)
}

/// Splits a mask into tokens; see `parse_bytes`.
pub fn parse_mask(mask: &str) -> (res: Result<Vec<MaskOp>, GenError>)
    ensures
        match parse_spec(mask.spec_bytes()) {
            Some(ops) => res matches Ok(v) && v@ == ops,
            None => res == Err::<Vec<MaskOp>, GenError>(GenError::MaskSyntax),
        },
{
    parse_bytes(mask.as_bytes())
}

} // verus!
