//! The namespace: several roots mounted into one logical tree, looked up in
//! rank order with the first root that holds the path winning.

use crate::keys::{drop_leading_seps, lemma_boundary_across_ascii, lemma_leading_seps, lemma_trimmed_len, seps_from, trim_trailing_seps, trimmed_len, SEP};
use vstd::prelude::*;
use vstd::seq_lib::{to_multiset_build, to_multiset_insert};
use vstd::utf8::*;

verus! {

/// One directory mounted into the namespace.
pub struct RootEntry {
    /// The directory on disk.
    pub path: String,
    /// The logical prefix under which it is mounted; empty for the top of the
    /// namespace. Leading and trailing separators are ignored.
    pub prefix: String,
    /// Its precedence: a lower rank is tried first.
    pub rank: u32,
}

/// A root that may answer a lookup, and the path to try below it.
pub struct Candidate {
    /// The position of the root in the namespace, in rank order.
    pub root: usize,
    /// The path below that root.
    pub rel: String,
}

/// A candidate as positions and bytes.
pub open spec fn candidate_view(c: Candidate) -> (int, Seq<u8>) {
    (c.root as int, encode_utf8(c.rel@))
}

/// The prefix as it is matched: without leading or trailing separators.
pub open spec fn bare_prefix(prefix: Seq<u8>) -> Seq<u8> {
    trim_trailing_seps(drop_leading_seps(prefix))
}

/// What is left of the logical path `p` below a root mounted under `prefix`,
/// or `None` when the prefix does not match. Separators at the start of `p`
/// and after the prefix are ignored.
pub open spec fn mount_rest(prefix: Seq<u8>, p: Seq<u8>) -> Option<Seq<u8>> {
    let q = drop_leading_seps(p);
    let pre = bare_prefix(prefix);
    let n = pre.len() as int;
    if n == 0 {
        Some(q)
    } else if q.len() >= n && q.take(n) == pre && (q.len() == n || q[n] == SEP) {
        Some(drop_leading_seps(q.skip(n)))
    } else {
        None
    }
}

/// The candidates for the logical path `p`, in the order of the roots.
pub open spec fn candidates_of(roots: Seq<RootEntry>, p: Seq<u8>) -> Seq<(int, Seq<u8>)>
    decreases roots.len(),
{
    if roots.len() == 0 {
        Seq::empty()
    } else {
        let c = candidates_of(roots.drop_last(), p);
        match mount_rest(encode_utf8(roots.last().prefix@), p) {
            Some(r) => c.push((roots.len() - 1, r)),
            None => c,
        }
    }
}

/// The roots are in rank order.
pub open spec fn rank_ordered(roots: Seq<RootEntry>) -> bool {
    forall|i: int, j: int| 0 <= i < j < roots.len() ==> roots[i].rank <= roots[j].rank
}

/// Whether the file of candidate `i` is reported present; one past the end of
/// `present` is absent.
pub open spec fn present_at(present: Seq<bool>, i: int) -> bool {
    0 <= i < present.len() && present[i]
}

/// Of the first `n` candidates, `i` is the first whose file is present.
pub open spec fn is_winner(present: Seq<bool>, n: int, i: int) -> bool {
    &&& 0 <= i < n
    &&& present_at(present, i)
    &&& forall|j: int| 0 <= j < i ==> !present_at(present, j)
}

/// The roots of a namespace, kept in rank order; roots of equal rank keep the
/// order in which they were mounted.
pub struct Namespace {
    roots: Vec<RootEntry>,
}

impl View for Namespace {
    type V = Seq<RootEntry>;

    closed spec fn view(&self) -> Seq<RootEntry> {
        self.roots@
    }
}

impl Namespace {
    #[verifier::type_invariant]
    spec fn ordered(&self) -> bool {
        rank_ordered(self.roots@)
    }

    /// A namespace with no roots.
    pub fn new() -> (r: Self)
        ensures
            r@ == Seq::<RootEntry>::empty(),
    {
        Namespace { roots: Vec::new() }
    }

    /// The roots in rank order.
    pub fn roots(&self) -> (r: &Vec<RootEntry>)
        ensures
            r@ == self@,
            rank_ordered(self@),
    {
        proof {
            use_type_invariant(self);
        }
        &self.roots
    }

    /// This namespace with `root` mounted after every root of lower or equal
    /// rank and before every root of higher rank.
    pub fn mount(self, root: RootEntry) -> (r: Self)
        ensures
            rank_ordered(r@),
            exists|j: int|
                0 <= j <= self@.len() && r@ == self@.insert(j, root) && (forall|u: int|
                    0 <= u < j ==> self@[u].rank <= root.rank) && (forall|u: int|
                    j <= u < self@.len() ==> #[trigger] self@[u].rank > root.rank),
    {
        proof {
            use_type_invariant(&self);
        }
        let ghost before = self@;
        let mut roots = self.roots;
        let mut j: usize = 0;
        while j < roots.len() && roots[j].rank <= root.rank
            invariant
                roots@ == before,
                rank_ordered(before),
                j <= before.len(),
                forall|u: int| 0 <= u < j ==> before[u].rank <= root.rank,
            decreases before.len() - j,
        {
            j = j + 1;
        }
        let ghost rank = root.rank;
        roots.insert(j, root);
        proof {
            assert forall|u: int| j <= u < before.len() implies #[trigger] before[u].rank > rank by {
                assert(before[j as int].rank > rank);
            }
            assert forall|a: int, b: int| 0 <= a < b < roots@.len() implies roots@[a].rank
                <= roots@[b].rank by {
                if a < j && b > j {
                    assert(roots@[a] == before[a]);
                    assert(roots@[b] == before[b - 1]);
                } else if b < j {
                    assert(roots@[a] == before[a]);
                    assert(roots@[b] == before[b]);
                } else if a > j {
                    assert(roots@[a] == before[a - 1]);
                    assert(roots@[b] == before[b - 1]);
                }
            }
        }
        Namespace { roots }
    }

    /// A namespace holding the given roots, ordered by rank.
    pub fn from_roots(roots: Vec<RootEntry>) -> (r: Self)
        ensures
            rank_ordered(r@),
            r@.to_multiset() == roots@.to_multiset(),
    {
        let mut ns = Namespace::new();
        let mut rest = roots;
        let ghost all = rest@;
        let ghost mut taken: Seq<RootEntry> = Seq::empty();
        proof {
            assert(all =~= taken + rest@);
        }
        while rest.len() > 0
            invariant
                all == taken + rest@,
                ns@.to_multiset() == taken.to_multiset(),
                rank_ordered(ns@),
            decreases rest@.len(),
        {
            let ghost before = ns@;
            let ghost rest_before = rest@;
            let root = rest.remove(0);
            proof {
                to_multiset_build(taken, root);
                taken = taken.push(root);
                assert(all =~= taken + rest@) by {
                    assert(rest_before =~= seq![root] + rest@);
                }
            }
            let ghost moved = root;
            ns = ns.mount(root);
            proof {
                let j = choose|j: int|
                    0 <= j <= before.len() && ns@ == before.insert(j, moved) && (forall|u: int|
                        0 <= u < j ==> before[u].rank <= moved.rank) && (forall|u: int|
                        j <= u < before.len() ==> #[trigger] before[u].rank > moved.rank);
                to_multiset_insert(before, j, moved);
            }
        }
        proof {
            assert(all =~= taken);
        }
        ns
    }
}

/// The candidates `r` are, in order, the candidates `cs`.
pub open spec fn candidates_match(r: Seq<Candidate>, cs: Seq<(int, Seq<u8>)>) -> bool {
    &&& r.len() == cs.len()
    &&& forall|i: int| 0 <= i < r.len() ==> candidate_view(#[trigger] r[i]) == cs[i]
}

/// The text of `s` from byte `i` on.
fn tail_from(s: &str, i: usize) -> (r: String)
    requires
        i <= encode_utf8(s@).len(),
        is_char_boundary(encode_utf8(s@), i as int),
    ensures
        encode_utf8(r@) == encode_utf8(s@).skip(i as int),
{
    let (_, tail) = s.split_at(i);
    tail.to_owned()
}

/// Where the bare prefix lies in `xb`.
fn bare_prefix_bounds(xb: &[u8]) -> (r: (usize, usize))
    ensures
        r.0 <= r.1 <= xb@.len(),
        bare_prefix(xb@) == xb@.subrange(r.0 as int, r.1 as int),
{
    proof {
        assert(xb@.skip(0) =~= xb@);
    }
    let pa = seps_from(xb, 0);
    let mut pe: usize = xb.len();
    while pe > pa && xb[pe - 1] == SEP
        invariant
            pa <= pe <= xb@.len(),
            forall|j: int| pe <= j < xb@.len() ==> xb@[j] == SEP,
        decreases pe,
    {
        pe = pe - 1;
    }
    proof {
        let xs = xb@.skip(pa as int);
        lemma_trimmed_len(xs, pe - pa);
        assert(bare_prefix(xb@) =~= xb@.subrange(pa as int, pe as int));
    }
    (pa, pe)
}

/// Whether `pb` holds `xb[pa..pe]` from position `a` on.
fn holds_at(pb: &[u8], a: usize, xb: &[u8], pa: usize, pe: usize) -> (r: bool)
    requires
        a <= pb@.len(),
        pa <= pe <= xb@.len(),
    ensures
        r == (pb@.len() - a >= pe - pa && pb@.subrange(a as int, a + pe - pa) == xb@.subrange(
            pa as int,
            pe as int,
        )),
{
    let n = pe - pa;
    if pb.len() - a < n {
        return false;
    }
    let mut i: usize = 0;
    while i < n
        invariant
            i <= n,
            n == pe - pa,
            pa <= pe <= xb@.len(),
            a + n <= pb.len(),
            forall|j: int| 0 <= j < i ==> #[trigger] pb@[a + j] == xb@[pa + j],
        decreases n - i,
    {
        if pb[a + i] != xb[pa + i] {
            assert(pb@.subrange(a as int, a + n)[i as int] != xb@.subrange(pa as int, pe as int)[i as int]);
            return false;
        }
        i = i + 1;
    }
    assert forall|j: int| 0 <= j < n implies pb@.subrange(a as int, a + n)[j] == xb@.subrange(
        pa as int,
        pe as int,
    )[j] by {
        assert(pb@[a + j] == xb@[pa + j]);
    }
    assert(pb@.subrange(a as int, a + n) =~= xb@.subrange(pa as int, pe as int));
    true
}

/// What is left of the logical path `p` below a root mounted under `prefix`.
pub fn rest_below(prefix: &str, p: &str) -> (r: Option<String>)
    ensures
        match r {
            Some(rest) => mount_rest(encode_utf8(prefix@), encode_utf8(p@)) == Some(
                encode_utf8(rest@),
            ),
            None => mount_rest(encode_utf8(prefix@), encode_utf8(p@)) is None,
        },
{
    let pb = p.as_bytes();
    let xb = prefix.as_bytes();
    proof {
        assert(pb@.skip(0) =~= pb@);
        encode_utf8_valid_utf8(p@);
    }
    let plen = pb.len();
    let a = seps_from(pb, 0);
    let (pa, pe) = bare_prefix_bounds(xb);
    let n = pe - pa;
    let ghost q = drop_leading_seps(pb@);
    let ghost pre = bare_prefix(xb@);
    proof {
        assert(q =~= pb@.skip(a as int));
    }
    let o: usize;
    if n > 0 {
        if !holds_at(pb, a, xb, pa, pe) {
            proof {
                if q.len() >= n {
                    assert(q.take(n as int) =~= pb@.subrange(a as int, a + n));
                }
            }
            return None;
        }
        proof {
            assert(q.take(n as int) =~= pb@.subrange(a as int, a + n));
        }
        o = a + n;
        if o < pb.len() && pb[o] != SEP {
            assert(q[n as int] == pb@[o as int]);
            return None;
        }
        assert(q.len() == n || q[n as int] == SEP);
    } else {
        o = a;
    }
    let r: usize;
    if n == 0 {
        r = a;
    } else {
        let g = seps_from(pb, o);
        r = o + g;
        assert(q.skip(n as int) =~= pb@.skip(o as int));
        assert(drop_leading_seps(q.skip(n as int)) =~= pb@.skip(r as int));
    }
    proof {
        if r == pb@.len() {
            is_char_boundary_start_end_of_seq(pb@);
        } else if n == 0 {
            lemma_boundary_across_ascii(pb@, 0, r as int);
        } else {
            is_char_boundary_iff_not_is_continuation_byte(pb@, o as int);
            lemma_boundary_across_ascii(pb@, o as int, r as int);
        }
    }
    Some(tail_from(p, r))
}

/// Candidates keep the order of the roots, and each names a root whose prefix
/// matches; every root whose prefix matches is named.
pub proof fn lemma_candidates_of(roots: Seq<RootEntry>, p: Seq<u8>)
    ensures
        forall|a: int, b: int|
            0 <= a < b < candidates_of(roots, p).len() ==> candidates_of(roots, p)[a].0
                < candidates_of(roots, p)[b].0,
        forall|a: int|
            0 <= a < candidates_of(roots, p).len() ==> 0 <= #[trigger] candidates_of(roots, p)[a].0
                < roots.len() && mount_rest(
                encode_utf8(roots[candidates_of(roots, p)[a].0].prefix@),
                p,
            ) == Some(candidates_of(roots, p)[a].1),
        forall|i: int|
            0 <= i < roots.len() && #[trigger] mount_rest(encode_utf8(roots[i].prefix@), p) is Some
                ==> exists|a: int|
                0 <= a < candidates_of(roots, p).len() && #[trigger] candidates_of(roots, p)[a].0
                    == i,
    decreases roots.len(),
{
    if roots.len() > 0 {
        let t = roots.drop_last();
        lemma_candidates_of(t, p);
        let c = candidates_of(t, p);
        let cs = candidates_of(roots, p);
        assert forall|i: int| 0 <= i < t.len() implies #[trigger] t[i] == roots[i] by {}
        assert forall|i: int|
            0 <= i < roots.len() && #[trigger] mount_rest(encode_utf8(roots[i].prefix@), p) is Some
                implies exists|a: int| 0 <= a < cs.len() && #[trigger] cs[a].0 == i by {
            if i < t.len() {
                assert(mount_rest(encode_utf8(t[i].prefix@), p) is Some);
                let a = choose|a: int| 0 <= a < c.len() && #[trigger] c[a].0 == i;
                assert(cs[a] == c[a]);
            } else {
                assert(cs[c.len() as int].0 == i);
            }
        }
        assert forall|a: int| 0 <= a < cs.len() implies 0 <= #[trigger] cs[a].0 < roots.len()
            && mount_rest(encode_utf8(roots[cs[a].0].prefix@), p) == Some(cs[a].1) by {
            if a < c.len() {
                assert(cs[a] == c[a]);
            }
        }
    }
}

impl Namespace {
    /// The candidates for the logical path `p`: each root whose prefix matches,
    /// in rank order, with the path to try below it.
    pub fn candidates(&self, p: &str) -> (r: Vec<Candidate>)
        ensures
            candidates_match(r@, candidates_of(self@, encode_utf8(p@))),
    {
        let ghost pb = encode_utf8(p@);
        let mut out: Vec<Candidate> = Vec::new();
        let mut i: usize = 0;
        while i < self.roots.len()
            invariant
                pb == encode_utf8(p@),
                i <= self.roots@.len(),
                candidates_match(out@, candidates_of(self.roots@.take(i as int), pb)),
            decreases self.roots@.len() - i,
        {
            let ghost before = out@;
            let found = rest_below(self.roots[i].prefix.as_str(), p);
            match found {
                Some(rel) => {
                    out.push(Candidate { root: i, rel });
                    proof {
                        assert forall|j: int| 0 <= j < out@.len() - 1 implies out@[j] == before[j] by {}
                    }
                },
                None => {},
            }
            proof {
                assert(self.roots@.take(i + 1).drop_last() =~= self.roots@.take(i as int));
                assert(self.roots@.take(i + 1).last() == self.roots@[i as int]);
            }
            i = i + 1;
        }
        proof {
            assert(self.roots@.take(self.roots@.len() as int) =~= self.roots@);
        }
        out
    }
}

/// The candidate that answers a lookup: the first, in rank order, whose file
/// is reported present (`present[i]` for `candidates[i]`; a missing report
/// counts as absent). `None` is the not-found outcome.
pub fn select(candidates: Vec<Candidate>, present: &Vec<bool>) -> (r: Option<Candidate>)
    ensures
        match r {
            Some(c) => exists|i: int|
                is_winner(present@, candidates@.len() as int, i) && c == #[trigger] candidates@[i],
            None => forall|i: int| 0 <= i < candidates@.len() ==> !present_at(present@, i),
        },
{
    let mut cands = candidates;
    let mut i: usize = 0;
    while i < cands.len()
        invariant
            cands@ == candidates@,
            i <= cands@.len(),
            forall|j: int| 0 <= j < i ==> !present_at(present@, j),
        decreases cands@.len() - i,
    {
        if i < present.len() && present[i] {
            let c = cands.remove(i);
            assert(is_winner(present@, candidates@.len() as int, i as int));
            return Some(c);
        }
        i = i + 1;
    }
    None
}

/// When some candidate's file is present, a winner exists.
proof fn lemma_winner_exists(present: Seq<bool>, n: int, i: int)
    requires
        0 <= i < n,
        present_at(present, i),
    ensures
        exists|w: int| is_winner(present, n, w),
    decreases i,
{
    if exists|j: int| 0 <= j < i && present_at(present, j) {
        let j = choose|j: int| 0 <= j < i && present_at(present, j);
        lemma_winner_exists(present, n, j);
    } else {
        assert(is_winner(present, n, i));
    }
}

/// Precedence: when a root of lower rank holds the path, no root of higher
/// rank answers; the answer comes from a root of rank no higher than it.
pub proof fn lemma_lower_rank_shadows(
    roots: Seq<RootEntry>,
    p: Seq<u8>,
    present: Seq<bool>,
    i: int,
    j: int,
)
    requires
        rank_ordered(roots),
        0 <= i < candidates_of(roots, p).len(),
        0 <= j < candidates_of(roots, p).len(),
        roots[candidates_of(roots, p)[i].0].rank < roots[candidates_of(roots, p)[j].0].rank,
        present_at(present, i),
    ensures
        exists|w: int| is_winner(present, candidates_of(roots, p).len() as int, w),
        forall|w: int|
            is_winner(present, candidates_of(roots, p).len() as int, w) ==> w != j
                && roots[candidates_of(roots, p)[w].0].rank <= roots[candidates_of(
                roots,
                p,
            )[i].0].rank,
{
    let cs = candidates_of(roots, p);
    lemma_candidates_of(roots, p);
    lemma_winner_exists(present, cs.len() as int, i);
    assert forall|w: int| is_winner(present, cs.len() as int, w) implies w != j
        && roots[cs[w].0].rank <= roots[cs[i].0].rank by {
        assert(w <= i);
        if w < i {
            assert(cs[w].0 < cs[i].0);
        }
    }
}

/// `v` is the first candidate after `w` whose file is present.
pub open spec fn next_present_after(present: Seq<bool>, n: int, w: int, v: int) -> bool {
    &&& w < v < n
    &&& present_at(present, v)
    &&& forall|u: int| w < u < v ==> !present_at(present, u)
}

/// Fallback: once the winning file is gone, the next candidate in rank order
/// whose file is present answers, and none if there is none.
pub proof fn lemma_fallback_after_removal(present: Seq<bool>, n: int, w: int)
    requires
        is_winner(present, n, w),
    ensures
        forall|v: int|
            #[trigger] is_winner(present.update(w, false), n, v) <==> next_present_after(
                present,
                n,
                w,
                v,
            ),
{
    let after = present.update(w, false);
    assert forall|v: int| #[trigger] is_winner(after, n, v) <==> next_present_after(present, n, w, v) by {
        if is_winner(after, n, v) {
            assert(v != w);
            assert(after[v] == present[v]);
            if v < w {
                assert(!present_at(present, v));
            }
            assert forall|u: int| w < u < v implies !present_at(present, u) by {
                assert(!present_at(after, u));
                if 0 <= u < present.len() {
                    assert(after[u] == present[u]);
                }
            }
        }
        if next_present_after(present, n, w, v) {
            assert forall|u: int| 0 <= u < v implies !present_at(after, u) by {
                if u < w {
                    assert(!present_at(present, u));
                    assert(after[u] == present[u]);
                } else if u > w {
                    assert(!present_at(present, u));
                    if u < present.len() {
                        assert(after[u] == present[u]);
                    }
                }
            }
            assert(after[v] == present[v]);
        }
    }
}

} // verus!
