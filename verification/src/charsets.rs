//! Character classes: the one-byte digits of a mask.
//!
//! A `Charset` is a set of byte values kept in ascending order. Its view is
//! that ascending sequence; `next` steps through it and wraps at the end.
use vstd::prelude::*;
use crate::errors::GenError;

verus! {

/// Letter `d`: the ten decimal digits.
pub const CLASS_DIGITS: u8 = 0x64;

/// Letter `l`: the lowercase ASCII letters.
pub const CLASS_LOWER: u8 = 0x6c;

/// Letter `u`: the uppercase ASCII letters.
pub const CLASS_UPPER: u8 = 0x75;

/// Letter `s`: the space and the ASCII punctuation.
pub const CLASS_SYMBOLS: u8 = 0x73;

/// Letter `a`: digits, letters and symbols together.
pub const CLASS_ALL: u8 = 0x61;

/// Letter `b`: every byte value.
pub const CLASS_BYTES: u8 = 0x62;

/// Whether `s` lists its bytes in strictly ascending order.
pub open spec fn strictly_ascending(s: Seq<u8>) -> bool {
    forall|i: int, j: int| 0 <= i < j < s.len() ==> s[i] < s[j]
}

/// Whether `class` is the letter of a built-in class.
pub open spec fn is_class(class: u8) -> bool {
    class == CLASS_DIGITS || class == CLASS_LOWER || class == CLASS_UPPER || class == CLASS_SYMBOLS
        || class == CLASS_ALL || class == CLASS_BYTES
}

/// Whether byte `b` belongs to the built-in class with letter `class`:
/// `d` digits, `l` lowercase, `u` uppercase, `s` space and punctuation,
/// `a` all printable ASCII, `b` every byte.
pub open spec fn class_has(class: u8, b: u8) -> bool {
    if class == CLASS_DIGITS {
        0x30 <= b <= 0x39
    } else if class == CLASS_LOWER {
        0x61 <= b <= 0x7a
    } else if class == CLASS_UPPER {
        0x41 <= b <= 0x5a
    } else if class == CLASS_SYMBOLS {
        0x20 <= b <= 0x2f || 0x3a <= b <= 0x40 || 0x5b <= b <= 0x60 || 0x7b <= b <= 0x7e
    } else if class == CLASS_ALL {
        0x20 <= b <= 0x7e
    } else {
        class == CLASS_BYTES
    }
}

/// The bytes below `below` that `member` accepts, in ascending order.
pub open spec fn ascending_members(member: spec_fn(u8) -> bool, below: int) -> Seq<u8>
    decreases below,
{
    if below <= 0 {
        Seq::empty()
    } else {
        let rest = ascending_members(member, below - 1);
        if member((below - 1) as u8) {
            rest.push((below - 1) as u8)
        } else {
            rest
        }
    }
}

/// The members of the built-in class with letter `class`, ascending.
pub open spec fn class_members(class: u8) -> Seq<u8> {
    ascending_members(|v: u8| class_has(class, v), 256)
}

/// The distinct bytes of `alphabet`, ascending.
pub open spec fn alphabet_members(alphabet: Seq<u8>) -> Seq<u8> {
    ascending_members(|v: u8| alphabet.contains(v), 256)
}

/// Two tests that accept the same bytes have the same members.
pub proof fn lemma_members_congruent(
    p: spec_fn(u8) -> bool,
    q: spec_fn(u8) -> bool,
    below: int,
)
    requires
        below <= 256,
        forall|v: u8| #[trigger] p(v) == q(v),
    ensures
        ascending_members(p, below) == ascending_members(q, below),
    decreases below,
{
    if below > 0 {
        lemma_members_congruent(p, q, below - 1);
    }
}

/// The member after position `i` of `s`, or the first one after the last.
pub open spec fn succ_at(s: Seq<u8>, i: int) -> u8 {
    if i + 1 < s.len() {
        s[i + 1]
    } else {
        s[0]
    }
}

/// In a strictly ascending sequence a value stands at one index only.
pub proof fn lemma_index_of_ascending(s: Seq<u8>, i: int)
    requires
        strictly_ascending(s),
        0 <= i < s.len(),
    ensures
        s.index_of(s[i]) == i,
{
    let j = s.index_of(s[i]);
    assert(0 <= j < s.len() && s[j] == s[i]);
    if j < i {
        assert(s[j] < s[i]);
    } else if i < j {
        assert(s[i] < s[j]);
    }
}

/// An ordered set of distinct byte values, one digit of the enumeration.
pub struct Charset {
    chars: Vec<u8>,
    min_char: u8,
    jmp_table: Vec<u8>,
}

impl View for Charset {
    type V = Seq<u8>;

    /// The members in ascending order.
    closed spec fn view(&self) -> Seq<u8> {
        self.chars@
    }
}

impl Charset {
    /// The successor table agrees with the member sequence.
    pub closed spec fn table_wf(&self) -> bool {
        &&& self.chars.len() >= 1
        &&& self.min_char == self.chars@[0]
        &&& self.jmp_table.len() == 256
        &&& forall|i: int|
            0 <= i < self.chars.len() ==> self.jmp_table@[#[trigger] self.chars@[i] as int]
                == succ_at(self.chars@, i)
    }

    /// Between 1 and 256 members, strictly ascending.
    pub open spec fn wf(&self) -> bool {
        &&& 1 <= self@.len() <= 256
        &&& strictly_ascending(self@)
        &&& self.table_wf()
    }

    /// Whether `v` is a member.
    pub open spec fn has(&self, v: u8) -> bool {
        self@.contains(v)
    }

    /// The member that follows `v`, the smallest member after the largest.
    pub open spec fn spec_next(&self, v: u8) -> u8 {
        succ_at(self@, self@.index_of(v))
    }

    fn from_table(table: &Vec<bool>) -> (cs: Charset)
        requires
            table.len() == 256,
            exists|v: int| 0 <= v < 256 && table[v],
        ensures
            cs.wf(),
            cs@ == ascending_members(|v: u8| table@[v as int], 256),
            forall|v: u8| cs.has(v) <==> table[v as int],
    {
        let ghost member = |v: u8| table@[v as int];
        let mut chars: Vec<u8> = Vec::new();
        let mut b: usize = 0;
        while b < 256
            invariant
                b <= 256,
                table.len() == 256,
                chars.len() <= b,
                strictly_ascending(chars@),
                chars@ == ascending_members(member, b as int),
                member == (|v: u8| table@[v as int]),
                forall|k: int| 0 <= k < chars.len() ==> chars[k] < b && table[chars[k] as int],
                forall|v: int| 0 <= v < b && table[v] ==> chars@.contains(v as u8),
            decreases 256 - b,
        {
            if table[b] {
                let ghost before = chars@;
                chars.push(b as u8);
                assert(chars@[before.len() as int] == b as u8);
                assert forall|v: int| 0 <= v < b + 1 && table[v] implies chars@.contains(
                    v as u8,
                ) by {
                    if v < b {
                        let k = before.index_of(v as u8);
                        assert(chars@[k] == v as u8);
                    }
                }
            }
            b += 1;
        }
        proof {
            let v = choose|v: int| 0 <= v < 256 && table[v];
            assert(chars@.contains(v as u8));
        }
        let n = chars.len();
        let mut jmp_table: Vec<u8> = vec![0u8; 256];
        let mut i: usize = 0;
        while i < n
            invariant
                i <= n,
                n == chars.len(),
                1 <= n <= 256,
                strictly_ascending(chars@),
                jmp_table.len() == 256,
                forall|k: int|
                    0 <= k < i ==> jmp_table@[#[trigger] chars@[k] as int] == succ_at(chars@, k),
            decreases n - i,
        {
            let nxt = if i + 1 < n {
                chars[i + 1]
            } else {
                chars[0]
            };
            let at = chars[i] as usize;
            let ghost before = jmp_table@;
            jmp_table[at] = nxt;
            assert forall|k: int| 0 <= k < i + 1 implies jmp_table@[#[trigger] chars@[k] as int]
                == succ_at(chars@, k) by {
                if k < i {
                    assert(chars@[k] < chars@[i as int]);
                    assert(before[chars@[k] as int] == succ_at(chars@, k));
                }
            }
            i += 1;
        }
        let min_char = chars[0];
        let cs = Charset { chars, min_char, jmp_table };
        assert forall|v: u8| cs.has(v) <==> table[v as int] by {
            if cs.has(v) {
                let k = cs@.index_of(v);
                assert(cs@[k] == v);
            }
        }
        cs
    }

    /// The charset whose one member is `byte`.
    pub fn from_literal(byte: u8) -> (cs: Charset)
        ensures
            cs.wf(),
            cs@ == seq![byte],
            cs@ == alphabet_members(seq![byte]),
    {
        let mut table: Vec<bool> = vec![false; 256];
        table[byte as usize] = true;
        let cs = Charset::from_table(&table);
        proof {
            assert(cs.has(byte));
            assert forall|k: int| 0 <= k < cs@.len() implies cs@[k] == byte by {
                assert(cs.has(cs@[k]));
            }
            if cs@.len() > 1 {
                assert(cs@[0] < cs@[1]);
            }
            assert(cs@ =~= seq![byte]);
            assert forall|v: u8| table@[v as int] == seq![byte].contains(v) by {
                if v == byte {
                    assert(seq![byte][0] == v);
                }
            }
            lemma_members_congruent(
                |v: u8| table@[v as int],
                |v: u8| seq![byte].contains(v),
                256,
            );
        }
        cs
    }

    /// The built-in class with letter `class`; an unknown letter is
    /// rejected.
    pub fn from_builtin(class: u8) -> (res: Result<Charset, GenError>)
        ensures
            is_class(class) ==> res is Ok,
            !is_class(class) ==> res == Err::<Charset, GenError>(GenError::InvalidCharset),
            res matches Ok(cs) ==> cs.wf() && cs@ == class_members(class) && forall|v: u8|
                cs.has(v) <==> class_has(class, v),
    {
        if !class_known(class) {
            return Err(GenError::InvalidCharset);
        }
        let mut table: Vec<bool> = vec![false; 256];
        let mut b: usize = 0;
        while b < 256
            invariant
                b <= 256,
                table.len() == 256,
                forall|v: int| 0 <= v < b ==> table[v] == class_has(class, v as u8),
            decreases 256 - b,
        {
            table[b] = class_contains(class, b as u8);
            b += 1;
        }
        assert(table[0x30] || table[0x61] || table[0x41] || table[0x20]);
        proof {
            lemma_members_congruent(
                |v: u8| table@[v as int],
                |v: u8| class_has(class, v),
                256,
            );
        }
        Ok(Charset::from_table(&table))
    }

    /// The charset whose members are the bytes of `alphabet`, in ascending
    /// order whatever order they were given in. An empty alphabet and one
    /// that names a byte twice are rejected.
    pub fn from_custom(alphabet: &[u8]) -> (res: Result<Charset, GenError>)
        ensures
            alphabet@.len() > 0 && alphabet@.no_duplicates() ==> res is Ok,
            !(alphabet@.len() > 0 && alphabet@.no_duplicates()) ==> res == Err::<
                Charset,
                GenError,
            >(GenError::InvalidCharset),
            res matches Ok(cs) ==> cs.wf() && cs@ == alphabet_members(alphabet@) && cs@.len()
                == alphabet@.len() && forall|v: u8| cs.has(v) <==> alphabet@.contains(v),
    {
        let n = alphabet.len();
        if n == 0 {
            return Err(GenError::InvalidCharset);
        }
        let mut table: Vec<bool> = vec![false; 256];
        let mut i: usize = 0;
        while i < n
            invariant
                i <= n,
                n == alphabet@.len(),
                table.len() == 256,
                alphabet@.take(i as int).no_duplicates(),
                forall|v: int|
                    0 <= v < 256 ==> (table[v] <==> alphabet@.take(i as int).contains(v as u8)),
            decreases n - i,
        {
            let c = alphabet[i];
            let ghost seen = alphabet@.take(i as int);
            let ghost seen_next = alphabet@.take(i + 1);
            if table[c as usize] {
                proof {
                    let k = seen.index_of(c);
                    assert(alphabet@[k] == c && alphabet@[i as int] == c && k != i);
                }
                return Err(GenError::InvalidCharset);
            }
            table[c as usize] = true;
            proof {
                assert(seen_next =~= seen.push(c));
                assert forall|a: int, b: int|
                    0 <= a < seen_next.len() && 0 <= b < seen_next.len() && a
                        != b implies seen_next[a] != seen_next[b] by {
                    if a < i && b < i {
                        assert(seen[a] != seen[b]);
                    } else if a < i {
                        assert(seen.contains(seen[a]));
                    } else if b < i {
                        assert(seen.contains(seen[b]));
                    }
                }
                assert forall|v: int| 0 <= v < 256 implies (table[v] <==> seen_next.contains(
                    v as u8,
                )) by {
                    if v == c {
                        assert(seen_next[i as int] == c);
                    } else if seen.contains(v as u8) {
                        let k = seen.index_of(v as u8);
                        assert(seen_next[k] == v as u8);
                    } else if seen_next.contains(v as u8) {
                        let k = seen_next.index_of(v as u8);
                        assert(k < i);
                        assert(seen[k] == v as u8);
                    }
                }
            }
            i += 1;
        }
        assert(alphabet@.take(n as int) =~= alphabet@);
        assert(alphabet@.contains(alphabet@[0]));
        assert(table[alphabet@[0] as int]);
        let cs = Charset::from_table(&table);
        proof {
            assert forall|v: u8| cs@.contains(v) <==> alphabet@.contains(v) by {
                assert(cs.has(v) <==> table[v as int]);
            }
            lemma_same_members_same_len(cs@, alphabet@);
            lemma_members_congruent(
                |v: u8| table@[v as int],
                |v: u8| alphabet@.contains(v),
                256,
            );
        }
        Ok(cs)
    }

    /// The number of members.
    pub fn size(&self) -> (n: usize)
        ensures
            n == self@.len(),
    {
        self.chars.len()
    }

    /// The smallest member.
    pub fn min_value(&self) -> (v: u8)
        requires
            self.wf(),
        ensures
            v == self@[0],
            self.has(v),
    {
        self.min_char
    }

    /// The successor of member `v`: the next larger member, or the smallest
    /// one where `v` is the largest.
    pub fn next(&self, v: u8) -> (r: u8)
        requires
            self.wf(),
        ensures
            self.has(v) ==> r == self.spec_next(v) && self.has(r),
    {
        proof {
            if self.has(v) {
                let i = self@.index_of(v);
                assert(self@[i] == v);
                assert(self.jmp_table@[self.chars@[i] as int] == succ_at(self.chars@, i));
            }
        }
        self.jmp_table[v as usize]
    }

    /// The members in ascending order.
    pub fn members(&self) -> (s: &[u8])
        ensures
            s@ == self@,
    {
        self.chars.as_slice()
    }
}

/// Two duplicate-free sequences with the same members have the same length.
pub proof fn lemma_same_members_same_len(a: Seq<u8>, b: Seq<u8>)
    requires
        a.no_duplicates(),
        b.no_duplicates(),
        forall|v: u8| a.contains(v) <==> b.contains(v),
    ensures
        a.len() == b.len(),
{
    a.unique_seq_to_set();
    b.unique_seq_to_set();
    assert(a.to_set() =~= b.to_set());
}

/// Whether `class` is the letter of a built-in class.
pub fn class_known(class: u8) -> (r: bool)
    ensures
        r == is_class(class),
{
    class == CLASS_DIGITS || class == CLASS_LOWER || class == CLASS_UPPER || class == CLASS_SYMBOLS
        || class == CLASS_ALL || class == CLASS_BYTES
}

/// Whether byte `b` belongs to the built-in class with letter `class`.
pub fn class_contains(class: u8, b: u8) -> (r: bool)
    ensures
        r == class_has(class, b),
{
    if class == CLASS_DIGITS {
        0x30 <= b && b <= 0x39
    } else if class == CLASS_LOWER {
        0x61 <= b && b <= 0x7a
    } else if class == CLASS_UPPER {
        0x41 <= b && b <= 0x5a
    } else if class == CLASS_SYMBOLS {
        (0x20 <= b && b <= 0x2f) || (0x3a <= b && b <= 0x40) || (0x5b <= b && b <= 0x60) || (0x7b
            <= b && b <= 0x7e)
    } else if class == CLASS_ALL {
        0x20 <= b && b <= 0x7e
    } else {
        class == CLASS_BYTES
    }
}

/// Stepping from member `v` moves up exactly when `v` is not the largest
/// member; from the largest member it wraps to the smallest, which is no
/// greater than `v`.
pub proof fn lemma_next_wraps(cs: Charset, v: u8)
    requires
        cs.wf(),
        cs.has(v),
    ensures
        cs.has(cs.spec_next(v)),
        cs.spec_next(v) > v <==> cs@.index_of(v) + 1 < cs@.len(),
        cs.spec_next(v) > v ==> cs.spec_next(v) == cs@[cs@.index_of(v) + 1],
        cs.spec_next(v) <= v ==> cs.spec_next(v) == cs@[0],
{
    let i = cs@.index_of(v);
    assert(cs@[i] == v);
    if i + 1 < cs@.len() {
        assert(cs@[i] < cs@[i + 1]);
        assert(cs@.contains(cs@[i + 1]));
    } else {
        if i > 0 {
            assert(cs@[0] < cs@[i]);
        }
        assert(cs@.contains(cs@[0]));
    }
}

} // verus!
