//! Separator handling and the relative key of a path under a scanned root.

use vstd::prelude::*;
use vstd::utf8::*;

verus! {

/// The path separator, `/`.
pub const SEP: u8 = 47;

/// Number of separators at the start of `s`.
pub open spec fn leading_seps(s: Seq<u8>) -> nat
    decreases s.len(),
{
    if s.len() > 0 && s[0] == SEP {
        1 + leading_seps(s.drop_first())
    } else {
        0
    }
}

/// Length of `s` once its trailing separators are removed.
pub open spec fn trimmed_len(s: Seq<u8>) -> nat
    decreases s.len(),
{
    if s.len() > 0 && s.last() == SEP {
        trimmed_len(s.drop_last())
    } else {
        s.len()
    }
}

/// `s` without its leading separators.
pub open spec fn drop_leading_seps(s: Seq<u8>) -> Seq<u8> {
    s.skip(leading_seps(s) as int)
}

/// `s` without its trailing separators.
pub open spec fn trim_trailing_seps(s: Seq<u8>) -> Seq<u8> {
    s.take(trimmed_len(s) as int)
}

/// The key under which `path` is recorded when `root` is scanned: what follows
/// the root (trailing separators of the root ignored) and the separators after
/// it. `None` when `path` does not lie strictly below `root`.
pub open spec fn key_of(root: Seq<u8>, path: Seq<u8>) -> Option<Seq<u8>> {
    let base = trim_trailing_seps(root);
    let n = base.len() as int;
    if path.len() > n && path.take(n) == base && path[n] == SEP {
        let key = drop_leading_seps(path.skip(n));
        if key.len() > 0 {
            Some(key)
        } else {
            None
        }
    } else {
        None
    }
}

/// A run of exactly `i` separators opens `s`.
pub proof fn lemma_leading_seps(s: Seq<u8>, i: int)
    requires
        0 <= i <= s.len(),
        forall|j: int| 0 <= j < i ==> s[j] == SEP,
        i == s.len() || s[i] != SEP,
    ensures
        leading_seps(s) == i,
        leading_seps(s) <= s.len(),
    decreases i,
{
    if i > 0 {
        lemma_leading_seps(s.drop_first(), i - 1);
    }
}

/// Only separators follow position `n`, and none ends `s[..n]`: `n` is the trimmed length.
pub proof fn lemma_trimmed_len(s: Seq<u8>, n: int)
    requires
        0 <= n <= s.len(),
        forall|j: int| n <= j < s.len() ==> s[j] == SEP,
        n == 0 || s[n - 1] != SEP,
    ensures
        trimmed_len(s) == n,
    decreases s.len(),
{
    if n < s.len() {
        lemma_trimmed_len(s.drop_last(), n);
    }
}

/// A byte below 0x80 is a whole character: the position after it is a boundary too.
proof fn lemma_boundary_after_ascii(b: Seq<u8>, i: int)
    requires
        valid_utf8(b),
        0 <= i < b.len(),
        is_char_boundary(b, i),
        b[i] <= 0x7f,
    ensures
        is_char_boundary(b, i + 1),
    decreases b.len(),
{
    let l = length_of_first_scalar(b);
    let p = pop_first_scalar(b);
    if i == 0 {
        assert(l == 1);
        assert(is_char_boundary(p, 0));
    } else {
        assert(p.len() == b.len() - l);
        assert(p[i - l] == b[i]);
        lemma_boundary_after_ascii(p, i - l);
    }
}

/// A run of bytes below 0x80 that starts on a boundary ends on one.
pub proof fn lemma_boundary_across_ascii(b: Seq<u8>, from: int, to: int)
    requires
        valid_utf8(b),
        0 <= from <= to <= b.len(),
        is_char_boundary(b, from),
        forall|j: int| from <= j < to ==> b[j] <= 0x7f,
    ensures
        is_char_boundary(b, to),
    decreases to - from,
{
    if from < to {
        lemma_boundary_after_ascii(b, from);
        lemma_boundary_across_ascii(b, from + 1, to);
    }
}

/// Number of separators in `s` from position `start` on.
pub fn seps_from(s: &[u8], start: usize) -> (r: usize)
    requires
        start <= s@.len(),
    ensures
        r == leading_seps(s@.skip(start as int)),
        start + r <= s@.len(),
        forall|j: int| start <= j < start + r ==> s@[j] == SEP,
{
    let mut i: usize = start;
    while i < s.len() && s[i] == SEP
        invariant
            start <= i <= s@.len(),
            forall|j: int| start <= j < i ==> s@[j] == SEP,
        decreases s@.len() - i,
    {
        i = i + 1;
    }
    proof {
        lemma_leading_seps(s@.skip(start as int), i - start);
    }
    i - start
}

/// Length of `s` once its trailing separators are removed.
pub fn trimmed_length(s: &[u8]) -> (r: usize)
    ensures
        r == trimmed_len(s@),
        r <= s@.len(),
{
    let mut n: usize = s.len();
    while n > 0 && s[n - 1] == SEP
        invariant
            n <= s@.len(),
            forall|j: int| n <= j < s@.len() ==> s@[j] == SEP,
        decreases n,
    {
        n = n - 1;
    }
    proof {
        lemma_trimmed_len(s@, n as int);
    }
    n
}

/// Whether `s` begins with the first `n` bytes of `p`.
fn starts_with_first(s: &[u8], p: &[u8], n: usize) -> (r: bool)
    requires
        n <= p@.len(),
        n <= s@.len(),
    ensures
        r == (s@.take(n as int) == p@.take(n as int)),
{
    let mut i: usize = 0;
    while i < n
        invariant
            i <= n <= p@.len(),
            n <= s@.len(),
            forall|j: int| 0 <= j < i ==> s@[j] == p@[j],
        decreases n - i,
    {
        if s[i] != p[i] {
            assert(s@.take(n as int)[i as int] != p@.take(n as int)[i as int]);
            return false;
        }
        i = i + 1;
    }
    assert(s@.take(n as int) =~= p@.take(n as int));
    true
}

/// The key of `path` under the scanned `root`: the rest of `path` after the
/// root and the separators that follow it. The root may be given with or
/// without trailing separators.
pub fn relative_key(root: &str, path: &str) -> (r: Option<String>)
    ensures
        match r {
            Some(k) => key_of(encode_utf8(root@), encode_utf8(path@)) == Some(encode_utf8(k@)),
            None => key_of(encode_utf8(root@), encode_utf8(path@)) is None,
        },
{
    let rb = root.as_bytes();
    let pb = path.as_bytes();
    let n = trimmed_length(rb);
    proof {
        assert(trim_trailing_seps(rb@) =~= rb@.take(n as int));
    }
    if pb.len() <= n {
        return None;
    }
    if !starts_with_first(pb, rb, n) || pb[n] != SEP {
        return None;
    }
    let k = n + seps_from(pb, n);
    proof {
        assert(drop_leading_seps(pb@.skip(n as int)) =~= pb@.skip(k as int));
    }
    if k == pb.len() {
        return None;
    }
    proof {
        encode_utf8_valid_utf8(path@);
        is_char_boundary_iff_not_is_continuation_byte(pb@, n as int);
        lemma_boundary_across_ascii(pb@, n as int, k as int);
    }
    let (_, tail) = path.split_at(k);
    let key = tail.to_owned();
    Some(key)
}

/// Prefix rule: a root written with a trailing separator gives the same keys as
/// the same root written without it.
pub proof fn lemma_trailing_separator_irrelevant(root: Seq<u8>, path: Seq<u8>)
    ensures
        key_of(root.push(SEP), path) == key_of(root, path),
{
    let r2 = root.push(SEP);
    assert(r2.drop_last() =~= root);
    assert(trimmed_len(r2) == trimmed_len(root));
    assert(trimmed_len(root) <= root.len()) by {
        lemma_trimmed_len_bound(root);
    }
    assert(trim_trailing_seps(r2) =~= trim_trailing_seps(root));
}

/// Trimming never lengthens.
pub proof fn lemma_trimmed_len_bound(s: Seq<u8>)
    ensures
        trimmed_len(s) <= s.len(),
    decreases s.len(),
{
    if s.len() > 0 && s.last() == SEP {
        lemma_trimmed_len_bound(s.drop_last());
    }
}

} // verus!
