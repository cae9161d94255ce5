use devserver::exclude::{is_hidden, is_node_modules, ExclusionRule, ExclusionRules};
use devserver::keys::relative_key;
use devserver::manifest::{scan, Manifest, WalkEntry, WalkItem};
use std::collections::HashMap;

fn dir(path: &str) -> WalkItem {
    WalkItem::Found(WalkEntry { path: path.to_string(), is_file: false, mtime: None })
}

fn file(path: &str, mtime: u64) -> WalkItem {
    WalkItem::Found(WalkEntry { path: path.to_string(), is_file: true, mtime: Some(mtime) })
}

fn sample_walk(root: &str) -> Vec<WalkItem> {
    let r = root.trim_end_matches('/');
    vec![
        dir(root),
        file(&format!("{}/index.html", r), 1_600_000_001),
        dir(&format!("{}/.hidden", r)),
        file(&format!("{}/.hidden/secret.txt", r), 1_600_000_002),
        dir(&format!("{}/node_modules", r)),
        dir(&format!("{}/node_modules/pkg", r)),
        file(&format!("{}/node_modules/pkg/file.js", r), 1_600_000_003),
        dir(&format!("{}/src", r)),
        file(&format!("{}/src/app.js", r), 1_600_000_004),
    ]
}

fn as_map(m: Manifest) -> HashMap<String, u64> {
    m.into_pairs().into_iter().collect()
}

fn scan_map(root: &str, items: &Vec<WalkItem>) -> HashMap<String, u64> {
    match scan(root, items, &ExclusionRules::standard()) {
        Ok(m) => as_map(m),
        Err(_) => panic!("scan failed"),
    }
}

#[test]
fn scenario_excludes_hidden_and_node_modules() {
    let got = scan_map("/srv/dist", &sample_walk("/srv/dist"));
    let mut want = HashMap::new();
    want.insert("index.html".to_string(), 1_600_000_001u64);
    want.insert("src/app.js".to_string(), 1_600_000_004u64);
    assert_eq!(got, want);
    assert!(!got.contains_key(".hidden/secret.txt"));
    assert!(!got.contains_key("node_modules/pkg/file.js"));
}

#[test]
fn trailing_separator_gives_same_keys() {
    let without = scan_map("/srv/dist", &sample_walk("/srv/dist"));
    let with = scan_map("/srv/dist/", &sample_walk("/srv/dist/"));
    assert_eq!(without, with);
    assert!(with.contains_key("index.html"));
}

#[test]
fn scanning_twice_is_identical() {
    let items = sample_walk("/srv/dist");
    assert_eq!(scan_map("/srv/dist", &items), scan_map("/srv/dist", &items));
}

#[test]
fn walk_order_does_not_matter() {
    let items = sample_walk("/srv/dist");
    let mut reversed = sample_walk("/srv/dist");
    reversed.reverse();
    assert_eq!(scan_map("/srv/dist", &items), scan_map("/srv/dist", &reversed));
}

#[test]
fn unreadable_root_is_an_error() {
    let items = vec![WalkItem::Failed { depth: 0, message: "No such file or directory".to_string() }];
    match scan("/missing", &items, &ExclusionRules::standard()) {
        Ok(_) => panic!("expected an error"),
        Err(e) => {
            assert_eq!(e.root, "/missing");
            assert_eq!(e.message, "No such file or directory");
        }
    }
}

#[test]
fn first_root_failure_is_reported() {
    let items = vec![
        WalkItem::Failed { depth: 0, message: "first".to_string() },
        WalkItem::Failed { depth: 0, message: "second".to_string() },
    ];
    match scan("/r", &items, &ExclusionRules::standard()) {
        Ok(_) => panic!("expected an error"),
        Err(e) => assert_eq!(e.message, "first"),
    }
}

#[test]
fn entry_failures_are_skipped() {
    let items = vec![
        dir("/r"),
        file("/r/a.txt", 5),
        WalkItem::Failed { depth: 2, message: "permission denied".to_string() },
        WalkItem::Found(WalkEntry { path: "/r/gone.txt".to_string(), is_file: true, mtime: None }),
        file("/r/b/c.txt", 7),
    ];
    let got = scan_map("/r", &items);
    assert_eq!(got.len(), 2);
    assert_eq!(got.get("a.txt"), Some(&5));
    assert_eq!(got.get("b/c.txt"), Some(&7));
    assert!(!got.contains_key("gone.txt"));
}

#[test]
fn empty_walk_gives_empty_manifest() {
    let got = scan_map("/r", &vec![]);
    assert!(got.is_empty());
}

#[test]
fn directories_are_not_keys() {
    let got = scan_map("/r", &vec![dir("/r"), dir("/r/sub"), file("/r/sub/x", 1)]);
    assert_eq!(got.len(), 1);
    assert!(!got.contains_key("sub"));
}

#[test]
fn absent_path_is_never_a_key() {
    let got = scan_map("/srv/dist", &sample_walk("/srv/dist"));
    assert!(!got.contains_key("missing.js"));
}

#[test]
fn deep_hidden_directory_is_pruned() {
    let items = vec![dir("/r"), file("/r/a/b/.git/objects/x", 1), file("/r/a/b/keep.txt", 2), file("/r/a/.env", 3)];
    let got = scan_map("/r", &items);
    assert_eq!(got.len(), 1);
    assert_eq!(got.get("a/b/keep.txt"), Some(&2));
}

#[test]
fn name_containing_node_modules_is_kept() {
    let items = vec![file("/r/my_node_modules/x.js", 1), file("/r/node_modules2/y.js", 2)];
    let got = scan_map("/r", &items);
    assert_eq!(got.len(), 2);
}

#[test]
fn first_report_of_a_key_stands() {
    let items = vec![file("/r/a", 1), file("/r//a", 2)];
    let got = scan_map("/r", &items);
    assert_eq!(got.len(), 1);
    assert_eq!(got.get("a"), Some(&1));
}

#[test]
fn extra_rule_prunes_more() {
    let rules = ExclusionRules::standard().with_rule(ExclusionRule::ExactName("target".to_string()));
    let items = vec![file("/r/target/debug/app", 1), file("/r/src/main.rs", 2)];
    let got = match scan("/r", &items, &rules) {
        Ok(m) => as_map(m),
        Err(_) => panic!("scan failed"),
    };
    assert_eq!(got.len(), 1);
    assert!(got.contains_key("src/main.rs"));
}

#[test]
fn no_rules_keeps_everything() {
    let got = match scan("/r", &vec![file("/r/.a", 1), file("/r/node_modules/b", 2)], &ExclusionRules::none()) {
        Ok(m) => as_map(m),
        Err(_) => panic!("scan failed"),
    };
    assert_eq!(got.len(), 2);
}

#[test]
fn relative_key_strips_root() {
    assert_eq!(relative_key("/a/b", "/a/b/c/d.txt"), Some("c/d.txt".to_string()));
    assert_eq!(relative_key("/a/b/", "/a/b/c/d.txt"), Some("c/d.txt".to_string()));
    assert_eq!(relative_key("/a/b//", "/a/b//c"), Some("c".to_string()));
    assert_eq!(relative_key("dist", "dist/index.html"), Some("index.html".to_string()));
    assert_eq!(relative_key("/", "/etc/hosts"), Some("etc/hosts".to_string()));
    assert_eq!(relative_key("/a/b", "/a/bc/d"), None);
    assert_eq!(relative_key("/a/b", "/a/b"), None);
    assert_eq!(relative_key("/a/b", "/a/b/"), None);
    assert_eq!(relative_key("/a/b", "/x/b/c"), None);
    assert_eq!(relative_key("/dé", "/dé/ü.txt"), Some("ü.txt".to_string()));
}

#[test]
fn hidden_and_node_modules_predicates() {
    assert!(is_hidden(".git"));
    assert!(is_hidden(".env"));
    assert!(is_hidden("."));
    assert!(!is_hidden("index.html"));
    assert!(!is_hidden(""));
    assert!(is_node_modules("node_modules"));
    assert!(!is_node_modules("node_modules2"));
    assert!(!is_node_modules("Node_modules"));
    assert!(!is_node_modules(""));
}

#[test]
fn rule_list_checks() {
    let rules = ExclusionRules::standard();
    assert_eq!(rules.rules().len(), 2);
    assert!(rules.excludes_name(".cache"));
    assert!(rules.excludes_name("node_modules"));
    assert!(!rules.excludes_name("src"));
    assert!(rules.excludes_path("a/node_modules/b.js"));
    assert!(rules.excludes_path("a/.b/c"));
    assert!(!rules.excludes_path("a/b.c/d"));
    assert!(!ExclusionRules::none().excludes_name(".git"));
}

#[test]
fn manifest_get_and_insert() {
    let mut m = Manifest::new();
    assert_eq!(m.get("a"), None);
    m.insert_new("a".to_string(), 3);
    m.insert_new("b/c".to_string(), 4);
    m.insert_new("a".to_string(), 9);
    assert_eq!(m.get("a"), Some(3));
    assert_eq!(m.get("b/c"), Some(4));
    assert_eq!(m.get("b"), None);
    assert_eq!(m.into_pairs().len(), 2);
}
