use devserver::namespace::{rest_below, select, Candidate, Namespace, RootEntry};

fn root(path: &str, prefix: &str, rank: u32) -> RootEntry {
    RootEntry { path: path.to_string(), prefix: prefix.to_string(), rank }
}

fn standard() -> Namespace {
    Namespace::from_roots(vec![
        root("../deps/dist", "/deps", 3),
        root("app/dist", "", 1),
        root("../worker/dist", "", 2),
    ])
}

fn winner(ns: &Namespace, p: &str, present: Vec<bool>) -> Option<(String, String)> {
    let cands = ns.candidates(p);
    select(cands, &present).map(|c| (ns.roots()[c.root].path.clone(), c.rel))
}

#[test]
fn roots_are_kept_in_rank_order() {
    let ns = standard();
    let paths: Vec<&str> = ns.roots().iter().map(|r| r.path.as_str()).collect();
    assert_eq!(paths, vec!["app/dist", "../worker/dist", "../deps/dist"]);
}

#[test]
fn equal_ranks_keep_mount_order() {
    let ns = Namespace::new().mount(root("b", "", 5)).mount(root("a", "", 5)).mount(root("c", "", 1));
    let paths: Vec<&str> = ns.roots().iter().map(|r| r.path.as_str()).collect();
    assert_eq!(paths, vec!["c", "b", "a"]);
}

#[test]
fn candidates_follow_prefixes() {
    let ns = standard();
    let c: Vec<(usize, String)> = ns.candidates("/index.html").into_iter().map(|c| (c.root, c.rel)).collect();
    assert_eq!(c, vec![(0, "index.html".to_string()), (1, "index.html".to_string())]);
    let d: Vec<(usize, String)> = ns.candidates("/deps/lodash/index.js").into_iter().map(|c| (c.root, c.rel)).collect();
    assert_eq!(
        d,
        vec![
            (0, "deps/lodash/index.js".to_string()),
            (1, "deps/lodash/index.js".to_string()),
            (2, "lodash/index.js".to_string()),
        ]
    );
}

#[test]
fn lower_rank_wins_then_falls_back() {
    let ns = Namespace::from_roots(vec![root("B", "", 2), root("A", "", 1)]);
    assert_eq!(winner(&ns, "/x.js", vec![true, true]), Some(("A".to_string(), "x.js".to_string())));
    assert_eq!(winner(&ns, "/x.js", vec![false, true]), Some(("B".to_string(), "x.js".to_string())));
}

#[test]
fn missing_everywhere_is_not_found() {
    let ns = standard();
    assert_eq!(winner(&ns, "/nope.txt", vec![false, false]), None);
    assert_eq!(winner(&ns, "/nope.txt", vec![]), None);
}

#[test]
fn select_takes_first_present() {
    let cands = vec![
        Candidate { root: 0, rel: "a".to_string() },
        Candidate { root: 1, rel: "b".to_string() },
        Candidate { root: 2, rel: "c".to_string() },
    ];
    let c = select(cands, &vec![false, true, true]);
    match c {
        Some(c) => {
            assert_eq!(c.root, 1);
            assert_eq!(c.rel, "b");
        }
        None => panic!("expected a winner"),
    }
}

#[test]
fn prefix_matching() {
    assert_eq!(rest_below("/deps", "/deps/a.js"), Some("a.js".to_string()));
    assert_eq!(rest_below("deps/", "deps//a.js"), Some("a.js".to_string()));
    assert_eq!(rest_below("/deps", "/deps"), Some("".to_string()));
    assert_eq!(rest_below("/deps", "/depsx/a.js"), None);
    assert_eq!(rest_below("/deps", "/other/a.js"), None);
    assert_eq!(rest_below("", "/a/b"), Some("a/b".to_string()));
    assert_eq!(rest_below("/", "a"), Some("a".to_string()));
    assert_eq!(rest_below("/a/b", "/a/b/c"), Some("c".to_string()));
    assert_eq!(rest_below("/a/b", "/a/c"), None);
}

#[test]
fn dotfiles_are_servable() {
    let ns = standard();
    assert_eq!(winner(&ns, "/.well-known/x", vec![true]), Some(("app/dist".to_string(), ".well-known/x".to_string())));
}
