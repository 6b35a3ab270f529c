use floppy_disk::tokio_fs::{pick_scoped, TokioFloppyDisk};

#[test]
fn test_scoping_works() {
    let fs = TokioFloppyDisk::new(Some("/tmp".to_string()));
    assert_eq!("/tmp/a", fs.scoped("/a"));
}

#[test]
fn a_path_inside_the_scope_stays() {
    let fs = TokioFloppyDisk::new(Some("/tmp".to_string()));
    assert_eq!("/tmp/a", fs.scoped("/tmp/a"));
    assert_eq!("/tmp", fs.scoped("/tmp"));
}

#[test]
fn a_path_that_only_shares_letters_with_the_scope_moves() {
    let fs = TokioFloppyDisk::new(Some("/tmp".to_string()));
    assert_eq!("/tmp/tmpx/a", fs.scoped("/tmpx/a"));
}

#[test]
fn a_relative_path_moves_below_the_scope() {
    let fs = TokioFloppyDisk::new(Some("/tmp".to_string()));
    assert_eq!("/tmp/a/b", fs.scoped("a/b"));
}

#[test]
fn without_a_scope_the_path_stays() {
    let fs = TokioFloppyDisk::new(None);
    assert_eq!("/a", fs.scoped("/a"));
    assert_eq!("/a", fs.scoped_open("/a"));
    let fs = TokioFloppyDisk::default();
    assert_eq!("a/b", fs.scoped("a/b"));
}

#[test]
fn opening_moves_every_path_below_the_scope() {
    let fs = TokioFloppyDisk::new(Some("/tmp".to_string()));
    assert_eq!("/tmp/a", fs.scoped_open("/a"));
    assert_eq!("/tmp/tmp/a", fs.scoped_open("/tmp/a"));
    assert_eq!("/tmp/a", fs.scoped_open("a"));
}

#[test]
fn pick_scoped_chooses_by_the_flag() {
    assert_eq!("/a", pick_scoped("/a", true, "/tmp/a".to_string()));
    assert_eq!("/tmp/a", pick_scoped("/a", false, "/tmp/a".to_string()));
}

#[test]
fn joining_adds_a_separator_only_where_one_is_needed() {
    let fs = TokioFloppyDisk::new(Some("/tmp/".to_string()));
    assert_eq!("/tmp/a", fs.scoped_open("/a"));
    assert_eq!("/tmp/a/b", fs.scoped("a/b"));
    let fs = TokioFloppyDisk::new(Some("".to_string()));
    assert_eq!("a", fs.scoped_open("/a"));
    let fs = TokioFloppyDisk::new(Some("/tmp".to_string()));
    assert_eq!("/tmp/", fs.scoped_open("/"));
    assert_eq!("/tmp/", fs.scoped_open(""));
}

#[test]
fn below_root_takes_the_root_off() {
    assert_eq!("a/b", floppy_disk::tokio_fs::below_root("/a/b"));
    assert_eq!("a/b", floppy_disk::tokio_fs::below_root("a/b"));
    assert_eq!("", floppy_disk::tokio_fs::below_root("/"));
    assert_eq!("a", floppy_disk::tokio_fs::below_root("//a"));
}
