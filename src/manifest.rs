//! The manifest: a snapshot from relative path to modification time, built from
//! the entries that a walk of the scanned root reported.

use crate::exclude::{
    dot_prefixed, is_component, is_standard, name_excluded, path_excluded, ExclusionRule,
    ExclusionRules,
};
use crate::keys::{
    drop_leading_seps, key_of, leading_seps, relative_key, trim_trailing_seps, trimmed_len, SEP,
};
use vstd::prelude::*;
use vstd::utf8::*;

verus! {

/// One entry that the walk reached.
pub struct WalkEntry {
    /// The entry's full path, the scanned root followed by the path below it.
    pub path: String,
    /// Whether the entry is a regular file.
    pub is_file: bool,
    /// Its modification time in whole seconds since the Unix epoch, or `None`
    /// when its metadata could not be read.
    pub mtime: Option<u64>,
}

/// What the walk reported at one step.
pub enum WalkItem {
    /// An entry that was read.
    Found(WalkEntry),
    /// An entry at the given depth below the root that could not be read;
    /// depth 0 is the root itself.
    Failed { depth: usize, message: String },
}

/// The scanned root itself could not be read.
pub struct ScanError {
    /// The root as it was given.
    pub root: String,
    /// What the walk reported.
    pub message: String,
}

/// A snapshot from relative path to modification time. Each key is held once.
pub struct Manifest {
    entries: Vec<(String, u64)>,
}

/// The map that a list of pairs gives when the first pair of each key stands.
pub open spec fn pairs_map(s: Seq<(String, u64)>) -> Map<Seq<u8>, u64>
    decreases s.len(),
{
    if s.len() == 0 {
        Map::empty()
    } else {
        let m = pairs_map(s.drop_last());
        let k = encode_utf8(s.last().0@);
        if m.contains_key(k) {
            m
        } else {
            m.insert(k, s.last().1)
        }
    }
}

impl View for Manifest {
    type V = Map<Seq<u8>, u64>;

    closed spec fn view(&self) -> Map<Seq<u8>, u64> {
        pairs_map(self.entries@)
    }
}

/// What a walk item contributes to the manifest of `root`: the key and the
/// time of a readable regular file below the root outside every excluded
/// subtree, else nothing.
pub open spec fn item_record(root: Seq<u8>, rules: Seq<ExclusionRule>, item: WalkItem) -> Option<
    (Seq<u8>, u64),
> {
    match item {
        WalkItem::Found(e) => match (e.is_file, e.mtime, key_of(root, encode_utf8(e.path@))) {
            (true, Some(t), Some(k)) => if path_excluded(rules, k) {
                None
            } else {
                Some((k, t))
            },
            _ => None,
        },
        WalkItem::Failed { .. } => None,
    }
}

/// The manifest of `root` given the walk's items, in the order they came;
/// where two items give one key the first stands.
pub open spec fn manifest_of(root: Seq<u8>, rules: Seq<ExclusionRule>, items: Seq<WalkItem>) -> Map<
    Seq<u8>,
    u64,
>
    decreases items.len(),
{
    if items.len() == 0 {
        Map::empty()
    } else {
        let m = manifest_of(root, rules, items.drop_last());
        match item_record(root, rules, items.last()) {
            Some(r) => if m.contains_key(r.0) {
                m
            } else {
                m.insert(r.0, r.1)
            },
            None => m,
        }
    }
}

/// Whether the item reports that the root itself could not be read.
pub open spec fn is_root_failure(item: WalkItem) -> bool {
    item matches WalkItem::Failed { depth, .. } && depth == 0
}

/// Whether the first `n` pairs of `s` hold a pair with key `k`.
pub open spec fn has_key_before(s: Seq<(String, u64)>, n: int, k: Seq<u8>) -> bool {
    exists|i: int| 0 <= i < n && #[trigger] encode_utf8(s[i].0@) == k
}

proof fn lemma_pairs_map(s: Seq<(String, u64)>, k: Seq<u8>)
    ensures
        pairs_map(s).contains_key(k) == has_key_before(s, s.len() as int, k),
        forall|i: int|
            0 <= i < s.len() && encode_utf8(s[i].0@) == k && !has_key_before(s, i, k)
                ==> pairs_map(s)[k] == #[trigger] s[i].1,
    decreases s.len(),
{
    if s.len() > 0 {
        let t = s.drop_last();
        lemma_pairs_map(t, k);
        assert forall|i: int| 0 <= i < t.len() implies #[trigger] t[i] == s[i] by {}
        if has_key_before(t, t.len() as int, k) {
            let i = choose|i: int| 0 <= i < t.len() && #[trigger] encode_utf8(t[i].0@) == k;
            assert(encode_utf8(s[i].0@) == k);
        }
        if has_key_before(s, s.len() as int, k) {
            let i = choose|i: int| 0 <= i < s.len() && #[trigger] encode_utf8(s[i].0@) == k;
            if i < t.len() {
                assert(encode_utf8(t[i].0@) == k);
            }
        }
        assert forall|i: int|
            0 <= i < s.len() && encode_utf8(s[i].0@) == k && !has_key_before(s, i, k) implies pairs_map(
            s,
        )[k] == #[trigger] s[i].1 by {
            if i < t.len() {
                assert(encode_utf8(t[i].0@) == k);
                if has_key_before(t, i, k) {
                    let j = choose|j: int| 0 <= j < i && #[trigger] encode_utf8(t[j].0@) == k;
                    assert(encode_utf8(s[j].0@) == k);
                }
            } else {
                if has_key_before(t, t.len() as int, k) {
                    let j = choose|j: int| 0 <= j < t.len() && #[trigger] encode_utf8(t[j].0@) == k;
                    assert(encode_utf8(s[j].0@) == k);
                }
            }
        }
    }
}

impl Manifest {
    /// An empty manifest.
    pub fn new() -> (r: Self)
        ensures
            r@ == Map::<Seq<u8>, u64>::empty(),
    {
        Manifest { entries: Vec::new() }
    }

    /// The time recorded for `key`, if it is a key.
    pub fn get(&self, key: &str) -> (r: Option<u64>)
        ensures
            r == (if self@.contains_key(encode_utf8(key@)) {
                Some(self@[encode_utf8(key@)])
            } else {
                None
            }),
    {
        let kb = key.as_bytes();
        let ghost k = encode_utf8(key@);
        proof {
            lemma_pairs_map(self.entries@, k);
        }
        let mut i: usize = 0;
        while i < self.entries.len()
            invariant
                kb@ == k,
                k == encode_utf8(key@),
                i <= self.entries@.len(),
                !has_key_before(self.entries@, i as int, k),
                pairs_map(self.entries@).contains_key(k) == has_key_before(
                    self.entries@,
                    self.entries@.len() as int,
                    k,
                ),
                forall|j: int|
                    0 <= j < self.entries@.len() && encode_utf8(self.entries@[j].0@) == k
                        && !has_key_before(self.entries@, j, k) ==> pairs_map(self.entries@)[k]
                        == #[trigger] self.entries@[j].1,
            decreases self.entries@.len() - i,
        {
            let eb = self.entries[i].0.as_str().as_bytes();
            proof {
                assert(eb@.subrange(0, eb@.len() as int) =~= eb@);
            }
            if same_key(eb, kb) {
                return Some(self.entries[i].1);
            }
            proof {
                if has_key_before(self.entries@, i + 1, k) {
                    let j = choose|j: int|
                        0 <= j < i + 1 && #[trigger] encode_utf8(self.entries@[j].0@) == k;
                    assert(has_key_before(self.entries@, i as int, k));
                }
            }
            i = i + 1;
        }
        None
    }

    /// Records `time` for `key` unless `key` is already a key.
    pub fn insert_new(&mut self, key: String, time: u64)
        ensures
            final(self)@ == (if old(self)@.contains_key(encode_utf8(key@)) {
                old(self)@
            } else {
                old(self)@.insert(encode_utf8(key@), time)
            }),
    {
        if self.get(key.as_str()).is_none() {
            let ghost before = self.entries@;
            self.entries.push((key, time));
            proof {
                assert(self.entries@.drop_last() =~= before);
            }
        }
    }

    /// The pairs of the manifest, each key once.
    pub fn into_pairs(self) -> (r: Vec<(String, u64)>)
        ensures
            pairs_map(r@) == self@,
    {
        self.entries
    }
}

/// Whether two byte strings are equal.
fn same_key(a: &[u8], b: &[u8]) -> (r: bool)
    ensures
        r == (a@ == b@),
{
    if a.len() != b.len() {
        return false;
    }
    let mut i: usize = 0;
    while i < a.len()
        invariant
            a@.len() == b@.len(),
            i <= a@.len(),
            forall|j: int| 0 <= j < i ==> a@[j] == b@[j],
        decreases a@.len() - i,
    {
        if a[i] != b[i] {
            return false;
        }
        i = i + 1;
    }
    assert(a@ =~= b@);
    true
}

/// The key that a walk item contributes to the manifest of `root`, if any.
pub open spec fn item_key(root: Seq<u8>, rules: Seq<ExclusionRule>, item: WalkItem) -> Option<Seq<u8>> {
    match item_record(root, rules, item) {
        Some(r) => Some(r.0),
        None => None,
    }
}

/// `items[i]` is the first item that reports the root unreadable.
pub open spec fn first_root_failure(items: Seq<WalkItem>, i: int) -> bool {
    &&& 0 <= i < items.len()
    &&& is_root_failure(items[i])
    &&& forall|j: int| 0 <= j < i ==> !is_root_failure(#[trigger] items[j])
}

/// Builds the manifest of `root` from the items of a walk of it, in the order
/// the walk reported them. Fails only when the walk reports the root itself
/// unreadable; an entry that could not be read, a directory, a file without a
/// readable time and a file in an excluded subtree are left out.
pub fn scan(root: &str, items: &Vec<WalkItem>, rules: &ExclusionRules) -> (r: Result<
    Manifest,
    ScanError,
>)
    ensures
        r is Err <==> exists|i: int| 0 <= i < items@.len() && is_root_failure(#[trigger] items@[i]),
        match r {
            Ok(m) => m@ == manifest_of(encode_utf8(root@), rules@, items@),
            Err(e) => e.root@ == root@ && exists|i: int|
                first_root_failure(items@, i) && (#[trigger] items@[i] matches WalkItem::Failed {
                    message,
                    ..
                } && e.message == message),
        },
{
    let ghost rb = encode_utf8(root@);
    let mut m = Manifest::new();
    let mut i: usize = 0;
    while i < items.len()
        invariant
            rb == encode_utf8(root@),
            i <= items@.len(),
            m@ == manifest_of(rb, rules@, items@.take(i as int)),
            forall|j: int| 0 <= j < i ==> !is_root_failure(#[trigger] items@[j]),
        decreases items@.len() - i,
    {
        match &items[i] {
            WalkItem::Failed { depth, message } => {
                if *depth == 0 {
                    let e = ScanError { root: root.to_owned(), message: message.clone() };
                    assert(first_root_failure(items@, i as int));
                    return Err(e);
                }
            },
            WalkItem::Found(e) => {
                if e.is_file {
                    match e.mtime {
                        Some(t) => {
                            match relative_key(root, e.path.as_str()) {
                                Some(k) => {
                                    if !rules.excludes_path(k.as_str()) {
                                        m.insert_new(k, t);
                                    }
                                },
                                None => {},
                            }
                        },
                        None => {},
                    }
                }
            },
        }
        proof {
            assert(items@.take(i + 1).drop_last() =~= items@.take(i as int));
            assert(items@.take(i + 1).last() == items@[i as int]);
        }
        i = i + 1;
    }
    proof {
        assert(items@.take(items@.len() as int) =~= items@);
    }
    Ok(m)
}

/// What the manifest holds: exactly the keys that some item contributes, each
/// with the time that one of those items reported.
pub proof fn lemma_manifest_of(
    root: Seq<u8>,
    rules: Seq<ExclusionRule>,
    items: Seq<WalkItem>,
    k: Seq<u8>,
)
    ensures
        manifest_of(root, rules, items).contains_key(k) <==> exists|i: int|
            0 <= i < items.len() && #[trigger] item_key(root, rules, items[i]) == Some(k),
        manifest_of(root, rules, items).contains_key(k) ==> exists|i: int|
            0 <= i < items.len() && #[trigger] item_record(root, rules, items[i]) == Some(
                (k, manifest_of(root, rules, items)[k]),
            ),
    decreases items.len(),
{
    if items.len() > 0 {
        let t = items.drop_last();
        lemma_manifest_of(root, rules, t, k);
        assert forall|i: int| 0 <= i < t.len() implies #[trigger] t[i] == items[i] by {}
        let n = t.len() as int;
        if exists|i: int| 0 <= i < items.len() && #[trigger] item_key(root, rules, items[i]) == Some(k) {
            let i = choose|i: int| 0 <= i < items.len() && #[trigger] item_key(root, rules, items[i]) == Some(k);
            if i < n {
                assert(item_key(root, rules, t[i]) == Some(k));
            }
        }
        if manifest_of(root, rules, t).contains_key(k) {
            let i = choose|i: int| 0 <= i < t.len() && #[trigger] item_key(root, rules, t[i]) == Some(k);
            assert(item_key(root, rules, items[i]) == Some(k));
            let j = choose|j: int|
                0 <= j < t.len() && #[trigger] item_record(root, rules, t[j]) == Some(
                    (k, manifest_of(root, rules, t)[k]),
                );
            assert(item_record(root, rules, items[j]) == Some((k, manifest_of(root, rules, t)[k])));
        } else if manifest_of(root, rules, items).contains_key(k) {
            assert(item_record(root, rules, items[n]) == Some(
                (k, manifest_of(root, rules, items)[k]),
            ));
            assert(item_key(root, rules, items[n]) == Some(k));
        }
    }
}

/// Walk order does not matter: two walks that report the same items, in any
/// order, give the same manifest, as long as no file is reported twice with
/// two different times. In particular, scanning an unchanged tree twice gives
/// the same keys with the same times.
pub proof fn lemma_walk_order_irrelevant(
    root: Seq<u8>,
    rules: Seq<ExclusionRule>,
    a: Seq<WalkItem>,
    b: Seq<WalkItem>,
)
    requires
        forall|i: int|
            #![trigger a[i]]
            0 <= i < a.len() ==> exists|j: int| #![trigger b[j]] 0 <= j < b.len() && b[j] == a[i],
        forall|j: int|
            #![trigger b[j]]
            0 <= j < b.len() ==> exists|i: int| #![trigger a[i]] 0 <= i < a.len() && a[i] == b[j],
        forall|i: int, j: int|
            0 <= i < a.len() && 0 <= j < a.len() && item_key(root, rules, a[i]) is Some
                && item_key(root, rules, a[i]) == item_key(root, rules, a[j]) ==> item_record(
                root,
                rules,
                a[i],
            ) == item_record(root, rules, a[j]),
    ensures
        manifest_of(root, rules, a) == manifest_of(root, rules, b),
{
    let ma = manifest_of(root, rules, a);
    let mb = manifest_of(root, rules, b);
    assert forall|k: Seq<u8>| ma.contains_key(k) <==> mb.contains_key(k) by {
        lemma_manifest_of(root, rules, a, k);
        lemma_manifest_of(root, rules, b, k);
        if ma.contains_key(k) {
            let i = choose|i: int| 0 <= i < a.len() && #[trigger] item_key(root, rules, a[i]) == Some(k);
            let j = choose|j: int| #![trigger b[j]] 0 <= j < b.len() && b[j] == a[i];
            assert(item_key(root, rules, b[j]) == Some(k));
        }
        if mb.contains_key(k) {
            let j = choose|j: int| 0 <= j < b.len() && #[trigger] item_key(root, rules, b[j]) == Some(k);
            let i = choose|i: int| #![trigger a[i]] 0 <= i < a.len() && a[i] == b[j];
            assert(item_key(root, rules, a[i]) == Some(k));
        }
    }
    assert forall|k: Seq<u8>| ma.contains_key(k) implies ma[k] == mb[k] by {
        lemma_manifest_of(root, rules, a, k);
        lemma_manifest_of(root, rules, b, k);
        let i = choose|i: int| 0 <= i < a.len() && #[trigger] item_record(root, rules, a[i]) == Some((k, ma[k]));
        let j = choose|j: int| 0 <= j < b.len() && #[trigger] item_record(root, rules, b[j]) == Some((k, mb[k]));
        let i2 = choose|i2: int| #![trigger a[i2]] 0 <= i2 < a.len() && a[i2] == b[j];
        assert(item_key(root, rules, a[i]) == Some(k));
        assert(item_key(root, rules, a[i2]) == Some(k));
        assert(item_record(root, rules, a[i]) == item_record(root, rules, a[i2]));
    }
    assert(ma =~= mb);
}

/// No key of the manifest lies in an excluded subtree.
pub proof fn lemma_excluded_never_listed(
    root: Seq<u8>,
    rules: Seq<ExclusionRule>,
    items: Seq<WalkItem>,
    k: Seq<u8>,
)
    requires
        path_excluded(rules, k),
    ensures
        !manifest_of(root, rules, items).contains_key(k),
{
    lemma_manifest_of(root, rules, items, k);
}

/// Under the standard rules, no key has a component, at any depth, that starts
/// with `.` or is named `node_modules`: hidden entries, `node_modules` and
/// everything below them are left out.
pub proof fn lemma_hidden_and_node_modules_never_listed(
    root: Seq<u8>,
    rules: Seq<ExclusionRule>,
    items: Seq<WalkItem>,
    k: Seq<u8>,
    s: int,
    e: int,
)
    requires
        is_standard(rules),
        is_component(k, s, e),
        dot_prefixed(k.subrange(s, e)) || k.subrange(s, e) == encode_utf8("node_modules"@),
    ensures
        !manifest_of(root, rules, items).contains_key(k),
{
    let name = k.subrange(s, e);
    if dot_prefixed(name) {
        assert(crate::exclude::rule_excludes(rules[0], name));
    } else {
        assert(crate::exclude::rule_excludes(rules[1], name));
    }
    assert(name_excluded(rules, name));
    assert(path_excluded(rules, k));
    lemma_manifest_of(root, rules, items, k);
}

proof fn lemma_leading_seps_facts(s: Seq<u8>)
    ensures
        leading_seps(s) <= s.len(),
        forall|j: int| 0 <= j < leading_seps(s) ==> s[j] == SEP,
        leading_seps(s) < s.len() ==> s[leading_seps(s) as int] != SEP,
    decreases s.len(),
{
    if s.len() > 0 && s[0] == SEP {
        lemma_leading_seps_facts(s.drop_first());
        assert forall|j: int| 0 <= j < leading_seps(s) implies s[j] == SEP by {
            if j > 0 {
                assert(s[j] == s.drop_first()[j - 1]);
            }
        }
    }
}

/// A run of `g` separators.
pub open spec fn seps(g: nat) -> Seq<u8> {
    Seq::new(g, |_j: int| SEP)
}

/// Every readable regular file outside the excluded subtrees is listed, under
/// its path relative to the root: the path is the root (without trailing
/// separators), one or more separators, then the key, which is not empty and
/// does not start with a separator.
pub proof fn lemma_kept_file_listed(
    root: Seq<u8>,
    rules: Seq<ExclusionRule>,
    items: Seq<WalkItem>,
    i: int,
    k: Seq<u8>,
)
    requires
        0 <= i < items.len(),
        items[i] is Found,
        items[i]->Found_0.is_file,
        items[i]->Found_0.mtime is Some,
        key_of(root, encode_utf8(items[i]->Found_0.path@)) == Some(k),
        !path_excluded(rules, k),
    ensures
        manifest_of(root, rules, items).contains_key(k),
        k.len() > 0,
        k[0] != SEP,
        exists|g: nat|
            g > 0 && encode_utf8(items[i]->Found_0.path@) == trim_trailing_seps(root) + #[trigger] seps(
                g,
            ) + k,
{
    lemma_manifest_of(root, rules, items, k);
    assert(item_key(root, rules, items[i]) == Some(k));
    let p = encode_utf8(items[i]->Found_0.path@);
    crate::keys::lemma_trimmed_len_bound(root);
    let n = trimmed_len(root) as int;
    let rest = p.skip(n);
    lemma_leading_seps_facts(rest);
    let g = leading_seps(rest) as int;
    assert(k =~= rest.skip(g));
    assert(rest[0] == SEP);
    assert(g > 0);
    let base = trim_trailing_seps(root);
    assert(p.take(n) == base);
    assert(base.len() == n);
    let whole = base + seps(g as nat) + k;
    assert(whole.len() == p.len());
    assert forall|j: int| 0 <= j < p.len() implies whole[j] == p[j] by {
        if j < n {
            assert(p.take(n)[j] == p[j]);
        } else if j < n + g {
            assert(rest[j - n] == SEP);
        } else {
            assert(k[j - n - g] == rest[j - n]);
        }
    }
    assert(p =~= whole);
}

/// A path that no item of the walk reaches is never a key.
pub proof fn lemma_absent_never_listed(
    root: Seq<u8>,
    rules: Seq<ExclusionRule>,
    items: Seq<WalkItem>,
    k: Seq<u8>,
)
    requires
        forall|i: int|
            0 <= i < items.len() && #[trigger] items[i] is Found ==> key_of(
                root,
                encode_utf8(items[i]->Found_0.path@),
            ) != Some(k),
    ensures
        !manifest_of(root, rules, items).contains_key(k),
{
    lemma_manifest_of(root, rules, items, k);
    assert forall|i: int| 0 <= i < items.len() implies #[trigger] item_key(root, rules, items[i])
        != Some(k) by {
        if items[i] is Found {
        }
    }
}

/// A root written with a trailing separator gives the same manifest as the
/// same root written without it.
pub proof fn lemma_manifest_trailing_separator_irrelevant(
    root: Seq<u8>,
    rules: Seq<ExclusionRule>,
    items: Seq<WalkItem>,
)
    ensures
        manifest_of(root.push(SEP), rules, items) == manifest_of(root, rules, items),
    decreases items.len(),
{
    if items.len() > 0 {
        lemma_manifest_trailing_separator_irrelevant(root, rules, items.drop_last());
        match items.last() {
            WalkItem::Found(e) => {
                crate::keys::lemma_trailing_separator_irrelevant(root, encode_utf8(e.path@));
            },
            _ => {},
        }
        assert(item_record(root.push(SEP), rules, items.last()) == item_record(
            root,
            rules,
            items.last(),
        ));
    }
}

} // verus!
