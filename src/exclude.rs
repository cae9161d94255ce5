//! Exclusion rules: which names prune an entry, and its whole subtree, from a scan.

use crate::keys::SEP;
use vstd::prelude::*;
use vstd::utf8::*;

verus! {

/// The byte `.`, which starts the name of a hidden entry.
pub const DOT: u8 = 46;

/// One rule of the open list of exclusions.
pub enum ExclusionRule {
    /// Excludes every name that starts with `.`.
    DotPrefixed,
    /// Excludes exactly the given name.
    ExactName(String),
}

/// Whether a name starts with `.`.
pub open spec fn dot_prefixed(name: Seq<u8>) -> bool {
    name.len() > 0 && name[0] == DOT
}

/// Whether `rule` excludes an entry with the given name.
pub open spec fn rule_excludes(rule: ExclusionRule, name: Seq<u8>) -> bool {
    match rule {
        ExclusionRule::DotPrefixed => dot_prefixed(name),
        ExclusionRule::ExactName(n) => name == encode_utf8(n@),
    }
}

/// Whether some rule of the list excludes the name.
pub open spec fn name_excluded(rules: Seq<ExclusionRule>, name: Seq<u8>) -> bool {
    exists|i: int| 0 <= i < rules.len() && #[trigger] rule_excludes(rules[i], name)
}

/// `p[s..e]` is one component of the `/`-separated path `p`.
pub open spec fn is_component(p: Seq<u8>, s: int, e: int) -> bool {
    &&& 0 <= s <= e <= p.len()
    &&& (s == 0 || p[s - 1] == SEP)
    &&& (e == p.len() || p[e] == SEP)
    &&& forall|j: int| s <= j < e ==> p[j] != SEP
}

/// Whether some component of the relative path `p` is excluded: the entry
/// itself or one of the directories above it.
pub open spec fn path_excluded(rules: Seq<ExclusionRule>, p: Seq<u8>) -> bool {
    exists|s: int, e: int| #[trigger] is_component(p, s, e) && name_excluded(rules, p.subrange(s, e))
}

/// The list of exclusion rules applied by a scan, in order.
pub struct ExclusionRules {
    rules: Vec<ExclusionRule>,
}

impl View for ExclusionRules {
    type V = Seq<ExclusionRule>;

    closed spec fn view(&self) -> Seq<ExclusionRule> {
        self.rules@
    }
}

/// The rules of a standard scan: hidden names and `node_modules`.
pub open spec fn is_standard(rules: Seq<ExclusionRule>) -> bool {
    &&& rules.len() == 2
    &&& rules[0] == ExclusionRule::DotPrefixed
    &&& rules[1] matches ExclusionRule::ExactName(n) && n@ == "node_modules"@
}

/// Whether two byte ranges hold the same bytes.
fn same_bytes_at(a: &[u8], s: usize, e: usize, b: &[u8]) -> (r: bool)
    requires
        s <= e <= a@.len(),
    ensures
        r == (a@.subrange(s as int, e as int) == b@),
{
    if e - s != b.len() {
        return false;
    }
    let mut i: usize = 0;
    while i < b.len()
        invariant
            s <= e <= a@.len(),
            e - s == b@.len(),
            i <= b@.len(),
            forall|j: int| 0 <= j < i ==> a@[s + j] == b@[j],
        decreases b@.len() - i,
    {
        if a[s + i] != b[i] {
            assert(a@.subrange(s as int, e as int)[i as int] != b@[i as int]);
            return false;
        }
        i = i + 1;
    }
    assert(a@.subrange(s as int, e as int) =~= b@);
    true
}

impl ExclusionRule {
    /// Whether this rule excludes the name `p[s..e]`.
    pub fn excludes_at(&self, p: &[u8], s: usize, e: usize) -> (r: bool)
        requires
            s <= e <= p@.len(),
        ensures
            r == rule_excludes(*self, p@.subrange(s as int, e as int)),
    {
        match self {
            ExclusionRule::DotPrefixed => s < e && p[s] == DOT,
            ExclusionRule::ExactName(n) => same_bytes_at(p, s, e, n.as_str().as_bytes()),
        }
    }
}

/// Whether an entry name starts with `.`.
pub fn is_hidden(name: &str) -> (r: bool)
    ensures
        r == dot_prefixed(encode_utf8(name@)),
{
    let b = name.as_bytes();
    b.len() > 0 && b[0] == DOT
}

/// Whether an entry is named exactly `node_modules`.
pub fn is_node_modules(name: &str) -> (r: bool)
    ensures
        r == (name@ == "node_modules"@),
{
    let want = "node_modules";
    let b = name.as_bytes();
    let r = same_bytes_at(b, 0, b.len(), want.as_bytes());
    proof {
        assert(b@.subrange(0, b@.len() as int) =~= b@);
        encode_utf8_decode_utf8(name@);
        encode_utf8_decode_utf8(want@);
    }
    r
}

impl ExclusionRules {
    /// An empty list: nothing is excluded.
    pub fn none() -> (r: Self)
        ensures
            r@ == Seq::<ExclusionRule>::empty(),
    {
        ExclusionRules { rules: Vec::new() }
    }

    /// Hidden names, then `node_modules`.
    pub fn standard() -> (r: Self)
        ensures
            is_standard(r@),
    {
        let mut rules: Vec<ExclusionRule> = Vec::new();
        rules.push(ExclusionRule::DotPrefixed);
        rules.push(ExclusionRule::ExactName("node_modules".to_owned()));
        ExclusionRules { rules }
    }

    /// This list with one more rule at its end.
    pub fn with_rule(self, rule: ExclusionRule) -> (r: Self)
        ensures
            r@ == self@.push(rule),
    {
        let mut rules = self.rules;
        rules.push(rule);
        ExclusionRules { rules }
    }

    /// The rules, in order.
    pub fn rules(&self) -> (r: &Vec<ExclusionRule>)
        ensures
            r@ == self@,
    {
        &self.rules
    }

    /// Whether some rule excludes the name `p[s..e]`.
    pub fn excludes_at(&self, p: &[u8], s: usize, e: usize) -> (r: bool)
        requires
            s <= e <= p@.len(),
        ensures
            r == name_excluded(self@, p@.subrange(s as int, e as int)),
    {
        let mut i: usize = 0;
        while i < self.rules.len()
            invariant
                s <= e <= p@.len(),
                i <= self.rules@.len(),
                forall|j: int|
                    0 <= j < i ==> !#[trigger] rule_excludes(
                        self.rules@[j],
                        p@.subrange(s as int, e as int),
                    ),
            decreases self.rules@.len() - i,
        {
            if self.rules[i].excludes_at(p, s, e) {
                return true;
            }
            i = i + 1;
        }
        false
    }

    /// Whether some rule excludes an entry with this name.
    pub fn excludes_name(&self, name: &str) -> (r: bool)
        ensures
            r == name_excluded(self@, encode_utf8(name@)),
    {
        let b = name.as_bytes();
        proof {
            assert(b@.subrange(0, b@.len() as int) =~= b@);
        }
        self.excludes_at(b, 0, b.len())
    }

    /// Whether the relative path `path` lies in an excluded subtree: some
    /// component of it, the last one included, is excluded.
    pub fn excludes_path(&self, path: &str) -> (r: bool)
        ensures
            r == path_excluded(self@, encode_utf8(path@)),
    {
        let p = path.as_bytes();
        assert(p@ == encode_utf8(path@));
        let mut s: usize = 0;
        loop
            invariant
                p@ == encode_utf8(path@),
                s <= p@.len(),
                s == 0 || p@[s - 1] == SEP,
                forall|s2: int, e2: int|
                    #[trigger] is_component(p@, s2, e2) && s2 < s ==> !name_excluded(
                        self@,
                        p@.subrange(s2, e2),
                    ),
            decreases p@.len() - s,
        {
            let mut e: usize = s;
            while e < p.len() && p[e] != SEP
                invariant
                    s <= e <= p@.len(),
                    forall|j: int| s <= j < e ==> p@[j] != SEP,
                decreases p@.len() - e,
            {
                e = e + 1;
            }
            assert(is_component(p@, s as int, e as int));
            if self.excludes_at(p, s, e) {
                assert(path_excluded(self@, p@));
                return true;
            }
            assert forall|s2: int, e2: int|
                #[trigger] is_component(p@, s2, e2) && s2 < e + 1 implies !name_excluded(
                    self@,
                    p@.subrange(s2, e2),
                ) by {
                if s2 >= s {
                    if s2 > s {
                        assert(p@[s2 - 1] == SEP);
                    }
                    if e2 < e {
                        assert(p@[e2] == SEP);
                    }
                    if e2 > e {
                        assert(p@[e as int] == SEP);
                    }
                }
            }
            if e == p.len() {
                assert forall|s2: int, e2: int| #[trigger] is_component(p@, s2, e2) implies !name_excluded(
                    self@,
                    p@.subrange(s2, e2),
                ) by {
                    assert(s2 < e + 1);
                }
                assert(!path_excluded(self@, p@));
                return false;
            }
            s = e + 1;
        }
    }
}

/// The standard rules exclude exactly the names that `is_hidden` or
/// `is_node_modules` accepts.
pub proof fn lemma_standard_rules(rules: Seq<ExclusionRule>, name: Seq<char>)
    requires
        is_standard(rules),
    ensures
        name_excluded(rules, encode_utf8(name)) <==> (dot_prefixed(encode_utf8(name)) || name
            == "node_modules"@),
{
    let b = encode_utf8(name);
    encode_utf8_decode_utf8(name);
    encode_utf8_decode_utf8("node_modules"@);
    if name_excluded(rules, b) {
        let i = choose|i: int| 0 <= i < rules.len() && #[trigger] rule_excludes(rules[i], b);
        assert(i == 0 || i == 1);
    }
    if dot_prefixed(b) {
        assert(rule_excludes(rules[0], b));
    }
    if name == "node_modules"@ {
        assert(rule_excludes(rules[1], b));
    }
}

} // verus!
