use floppy_disk::path::{normalize, FloppyPath, Sort};

fn text(path: &str) -> String {
    normalize(path).render()
}

#[test]
fn normalize_keeps_plain_paths() {
    assert_eq!("/", text("/"));
    assert_eq!("/a/b", text("/a/b"));
    assert_eq!("a/b", text("a/b"));
    assert_eq!("", text(""));
}

#[test]
fn normalize_drops_empty_and_current_components() {
    assert_eq!("/a/b", text("//a///b/"));
    assert_eq!("/a/b", text("/a/./b/."));
    assert_eq!("a", text("a/."));
    assert_eq!("a", text("./a"));
    assert_eq!("/", text("/."));
}

#[test]
fn normalize_lets_parent_components_remove_names() {
    assert_eq!("/a", text("/a/b/.."));
    assert_eq!("/a", text("/a/../a"));
    assert_eq!("/b", text("/a/../b"));
    assert_eq!("b", text("a/../b"));
    assert_eq!("", text("a/.."));
}

#[test]
fn normalize_absorbs_parent_components_at_the_start() {
    assert_eq!("/", text("/.."));
    assert_eq!("/", text("/../.."));
    assert_eq!("/", text("/usr/bin/../../../../.."));
    assert_eq!("/etc", text("/../etc"));
    assert_eq!("a", text("../a"));
    assert_eq!("a", text("../../a"));
    assert_eq!("", text(".."));
}

#[test]
fn normalize_keeps_names_that_only_look_special() {
    assert_eq!("/...", text("/..."));
    assert_eq!("/.a", text("/.a"));
    assert_eq!("/a..", text("/a.."));
    assert_eq!("/é/ü", text("/é//ü"));
}

#[test]
fn normalize_is_idempotent_on_examples() {
    for p in ["/", "", "/a/../b/./c", "x/y/../../..", "//", "/é/../ü"] {
        let once = text(p);
        assert_eq!(once, text(&once));
    }
}

#[test]
fn depth_and_absolute() {
    let p = normalize("/a/b/c");
    assert!(p.is_absolute());
    assert_eq!(3, p.depth());
    let q = normalize("a/b");
    assert!(!q.is_absolute());
    assert_eq!(2, q.depth());
    assert_eq!(0, FloppyPath::root().depth());
    assert!(FloppyPath::root().is_absolute());
}

#[test]
fn prefix_takes_the_first_names() {
    let p = normalize("/a/b/c");
    assert_eq!("/", p.prefix(0).render());
    assert_eq!("/a", p.prefix(1).render());
    assert_eq!("/a/b", p.prefix(2).render());
    assert_eq!("/a/b/c", p.prefix(3).render());
    assert_eq!("/a/b/c", p.duplicate().render());
}

#[test]
fn file_name_is_the_last_name() {
    assert_eq!(Some("c".to_string()), normalize("/a/b/c").file_name());
    assert_eq!(Some("a".to_string()), normalize("a").file_name());
    assert_eq!(None, normalize("/").file_name());
    assert_eq!(None, normalize("").file_name());
}

#[test]
fn compare_orders_by_names() {
    let a = normalize("/a");
    let ab = normalize("/a/b");
    let a_dot = normalize("/a.b");
    let b = normalize("/b");
    assert_eq!(Sort::Before, a.compare(&ab));
    assert_eq!(Sort::After, ab.compare(&a));
    assert_eq!(Sort::Same, a.compare(&normalize("/x/../a")));
    assert_eq!(Sort::Before, ab.compare(&a_dot));
    assert_eq!(Sort::Before, a_dot.compare(&b));
    assert_eq!(Sort::Before, normalize("/test").compare(&normalize("/test.txt")));
    assert!(a.same(&normalize("/a/")));
    assert!(!a.same(&b));
}

#[test]
fn compare_puts_absolute_paths_first() {
    let abs = normalize("/z");
    let rel = normalize("a");
    assert_eq!(Sort::Before, abs.compare(&rel));
    assert_eq!(Sort::After, rel.compare(&abs));
    assert_eq!(Sort::Before, FloppyPath::root().compare(&abs));
}

#[test]
fn compare_goes_by_code_point() {
    assert_eq!(Sort::Before, normalize("/Z").compare(&normalize("/a")));
    assert_eq!(Sort::Before, normalize("/z").compare(&normalize("/é")));
    assert_eq!(Sort::After, normalize("/b").compare(&normalize("/a/z")));
}

#[test]
fn starts_with_counts_whole_names() {
    let p = normalize("/tmp/a");
    assert!(p.starts_with(&normalize("/tmp")));
    assert!(p.starts_with(&normalize("/")));
    assert!(p.starts_with(&p));
    assert!(!p.starts_with(&normalize("/tm")));
    assert!(!p.starts_with(&normalize("tmp")));
    assert!(!normalize("/tmp").starts_with(&p));
}

#[test]
fn is_child_of_means_one_more_name() {
    let dir = normalize("/a");
    assert!(normalize("/a/b").is_child_of(&dir));
    assert!(!normalize("/a/b/c").is_child_of(&dir));
    assert!(!normalize("/a").is_child_of(&dir));
    assert!(!normalize("/b/c").is_child_of(&dir));
    assert!(normalize("/a").is_child_of(&FloppyPath::root()));
    assert!(!FloppyPath::root().is_child_of(&FloppyPath::root()));
}
