//! In-place edits of a byte buffer.
use vstd::prelude::*;

verus! {

/// Moves the bytes at `from..until` so that they start at `to`. The two
/// ranges may overlap. Bytes before both ranges keep their value.
pub fn shift_bytes(buf: &mut Vec<u8>, from: usize, until: usize, to: usize)
    requires
        from <= until <= old(buf)@.len(),
        to + (until - from) <= old(buf)@.len(),
    ensures
        final(buf)@.len() == old(buf)@.len(),
        final(buf)@.subrange(to as int, to + (until - from)) == old(buf)@.subrange(
            from as int,
            until as int,
        ),
        forall|k: int| 0 <= k < from && k < to ==> final(buf)@[k] == old(buf)@[k],
{
    let n = until - from;
    let total = buf.len();
    let ghost start = buf@;
    if to < from {
        let mut k: usize = 0;
        while k < n
            invariant
                k <= n,
                n == until - from,
                to < from,
                until <= buf@.len(),
                buf@.len() == start.len(),
                total == start.len(),
                forall|t: int| to <= t < to + k ==> #[trigger] buf@[t] == start[t - to + from],
                forall|t: int| from + k <= t < buf@.len() ==> buf@[t] == start[t],
                forall|t: int| 0 <= t < to ==> buf@[t] == start[t],
            decreases n - k,
        {
            let b = buf[from + k];
            buf[to + k] = b;
            k += 1;
        }
    } else if to > from {
        let mut k: usize = n;
        while k > 0
            invariant
                k <= n,
                n == until - from,
                to > from,
                to + n <= buf@.len(),
                buf@.len() == start.len(),
                total == start.len(),
                forall|t: int| to + k <= t < to + n ==> #[trigger] buf@[t] == start[t - to + from],
                forall|t: int| 0 <= t < to + k ==> buf@[t] == start[t],
            decreases k,
        {
            k -= 1;
            let b = buf[from + k];
            let dst = to + k;
            buf[dst] = b;
        }
    }
    assert(buf@.subrange(to as int, to + n) =~= start.subrange(from as int, until as int));
}

/// Overwrites the bytes from `at` on with `src`. Every other byte keeps its
/// value.
pub fn put_bytes(buf: &mut Vec<u8>, at: usize, src: &[u8])
    requires
        at + src@.len() <= old(buf)@.len(),
    ensures
        final(buf)@.len() == old(buf)@.len(),
        final(buf)@.subrange(at as int, at + src@.len()) == src@,
        forall|k: int|
            0 <= k < old(buf)@.len() && !(at <= k < at + src@.len()) ==> final(buf)@[k] == old(
                buf,
            )@[k],
{
    let n = src.len();
    let total = buf.len();
    let ghost start = buf@;
    let mut k: usize = 0;
    while k < n
        invariant
            k <= n,
            n == src@.len(),
            at + n <= buf@.len(),
            buf@.len() == start.len(),
                total == start.len(),
            forall|t: int| at <= t < at + k ==> #[trigger] buf@[t] == src@[t - at],
            forall|t: int| 0 <= t < buf@.len() && !(at <= t < at + k) ==> buf@[t] == start[t],
        decreases n - k,
    {
        let dst = at + k;
        buf[dst] = src[k];
        k += 1;
    }
    assert(buf@.subrange(at as int, at + n) =~= src@);
}

} // verus!
