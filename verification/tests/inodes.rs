use floppy_disk::mem::inode::{Inode, InodeType};
use floppy_disk::mem::MemPermissions;
use floppy_disk::{FloppyPermissions, FloppyUnixPermissions};

#[test]
fn new_dir_has_the_fields_of_a_directory() {
    let i = Inode::new_dir(7, "/d");
    assert_eq!(7, *i.serial());
    assert_eq!(InodeType::Dir, *i.kind());
    assert_eq!(0o755, i.mode().mode());
    assert_eq!("/d", i.path());
    assert_eq!(0, *i.uid());
    assert_eq!(0, *i.gid());
    assert_eq!(0, *i.size());
    assert!(i.buffer().is_empty());
    assert_eq!(None, *i.symlink_target());
    assert_eq!(0, i.len());
}

#[test]
fn new_file_holds_its_data() {
    let i = Inode::new_file(3, "/f", b"hello".to_vec());
    assert_eq!(3, *i.serial());
    assert_eq!(InodeType::File, *i.kind());
    assert_eq!(0o644, i.permissions().mode());
    assert_eq!(b"hello", i.buffer_view());
    assert_eq!(5, i.len());
    assert_eq!(0, *i.size());
    assert_eq!(None, *i.symlink_target());
}

#[test]
fn new_symlink_keeps_its_target_as_given() {
    let i = Inode::new_symlink(9, "/l", "../x/./y");
    assert_eq!(InodeType::Symlink, *i.kind());
    assert_eq!(0o777, i.mode().mode());
    assert_eq!(Some("../x/./y".to_string()), *i.symlink_target());
    assert!(i.buffer().is_empty());
}

#[test]
fn setters_change_one_field() {
    let mut i = Inode::new_file(1, "/f", b"abc".to_vec());
    let before = i.clone();
    i.set_serial(2);
    assert_eq!(2, *i.serial());
    i.set_len(10);
    assert_eq!(10, *i.size());
    assert_eq!(3, i.len());
    i.set_permissions(MemPermissions::from_mode(0o600));
    assert_eq!(0o600, i.permissions().mode());
    i.set_path("/g");
    assert_eq!("/g", i.path());
    i.set_ownership(5, 6);
    assert_eq!(5, *i.uid());
    assert_eq!(6, *i.gid());
    assert_eq!(b"abc", i.buffer_view());
    assert_eq!(before.atime(), i.atime());
    assert_eq!(before.mtime(), i.mtime());
    assert_eq!(before.ctime(), i.ctime());
    assert!(before != i);
}

#[test]
fn buffer_mut_reaches_the_contents() {
    let mut i = Inode::new_file(1, "/f", Vec::new());
    i.buffer_mut().extend_from_slice(b"xyz");
    assert_eq!(b"xyz", i.buffer_view());
    assert_eq!(3, i.len());
}

#[test]
fn readonly_means_no_write_bit() {
    assert!(MemPermissions::from_mode(0o444).readonly());
    assert!(MemPermissions::from_mode(0o555).readonly());
    assert!(!MemPermissions::from_mode(0o644).readonly());
    assert!(!MemPermissions::from_mode(0o020).readonly());
    assert!(MemPermissions::from_mode(0).readonly());
}

#[test]
fn set_readonly_clears_or_sets_all_write_bits() {
    let mut p = MemPermissions::from_mode(0o644);
    p.set_readonly(true);
    assert_eq!(0o444, p.mode());
    assert!(p.readonly());
    p.set_readonly(false);
    assert_eq!(0o666, p.mode());
    assert!(!p.readonly());
    let mut q = MemPermissions::from_mode(0o4755);
    q.set_readonly(true);
    assert_eq!(0o4555, q.mode());
    q.set_mode(0o700);
    assert_eq!(0o700, q.mode());
}
