use floppy_disk::error::FloppyError;
use floppy_disk::mem::MemFloppyDisk;
use floppy_disk::path::normalize;
use floppy_disk::{FloppyFileType, FloppyMetadata, FloppyUnixMetadata};

fn names(fs: &MemFloppyDisk, dir: &str) -> Vec<String> {
    let mut listing = fs.read_dir(dir).unwrap();
    let mut out = Vec::new();
    while let Some(entry) = listing.next_entry().unwrap() {
        out.push(entry.file_name());
    }
    out
}

#[test]
fn a_new_filesystem_holds_only_the_root() {
    let fs = MemFloppyDisk::new();
    assert!(fs.metadata("/").unwrap().is_dir());
    assert_eq!(Ok(true), fs.try_exists("/"));
    assert_eq!(Ok(false), fs.try_exists("/a"));
    assert!(names(&fs, "/").is_empty());
    assert_eq!(0o755, fs.metadata("/").unwrap().permissions.mode);
    assert_eq!(Ok(0), fs.metadata("/").unwrap().uid());
    assert_eq!(Ok(0), fs.metadata("/").unwrap().gid());
}

#[test]
fn write_then_read_returns_the_bytes_written() {
    let mut fs = MemFloppyDisk::new();
    let data: Vec<u8> = vec![0, 255, 128, 10, 13, 0, 7];
    fs.write("/bin", &data).unwrap();
    assert_eq!(data, fs.read("/bin").unwrap());
    fs.write("/empty", &[]).unwrap();
    assert_eq!(Vec::<u8>::new(), fs.read("/empty").unwrap());
}

#[test]
fn write_replaces_what_was_there() {
    let mut fs = MemFloppyDisk::new();
    fs.write("/f", b"first").unwrap();
    fs.write("/f", b"2").unwrap();
    assert_eq!(b"2", fs.read("/f").unwrap().as_slice());
    fs.symlink("/f", "/l").unwrap();
    fs.write("/l", b"now a file").unwrap();
    assert!(fs.symlink_metadata("/l").unwrap().is_file());
    assert_eq!(b"2", fs.read("/f").unwrap().as_slice());
}

#[test]
fn write_does_not_replace_a_directory() {
    let mut fs = MemFloppyDisk::new();
    fs.create_dir("/d").unwrap();
    fs.write("/d/f", b"x").unwrap();
    assert_eq!(Err(FloppyError::InvalidInput), fs.write("/d", b"now a file"));
    assert_eq!(Err(FloppyError::InvalidInput), fs.write("/", b"now a file"));
    assert!(fs.metadata("/d").unwrap().is_dir());
    assert!(fs.metadata("/").unwrap().is_dir());
    assert_eq!(b"x", fs.read("/d/f").unwrap().as_slice());
}

#[test]
fn nothing_is_created_below_a_file() {
    let mut fs = MemFloppyDisk::new();
    fs.write("/f", b"x").unwrap();
    fs.symlink("/f", "/l").unwrap();
    assert_eq!(Err(FloppyError::NotFound), fs.write("/f/g", b"y"));
    assert_eq!(Err(FloppyError::NotFound), fs.create_dir("/f/g"));
    assert_eq!(Err(FloppyError::NotFound), fs.symlink("/f", "/f/g"));
    assert_eq!(Err(FloppyError::NotFound), fs.copy("/f", "/l/g"));
    assert_eq!(Err(FloppyError::NotFound), fs.rename("/l", "/f/l"));
    assert_eq!(Err(FloppyError::AlreadyExists), fs.create_dir_all("/f/g/h"));
    assert_eq!(Ok(false), fs.try_exists("/f/g"));
    assert_eq!(b"x", fs.read("/f").unwrap().as_slice());
}

#[test]
fn the_empty_path_names_nothing() {
    let mut fs = MemFloppyDisk::new();
    assert_eq!(Err(FloppyError::NotFound), fs.write("", b"x"));
    assert_eq!(Err(FloppyError::NotFound), fs.create_dir(""));
    assert_eq!(Err(FloppyError::NotFound), fs.create_dir_all("a/.."));
    assert_eq!(Err(FloppyError::NotFound), fs.read(""));
    assert_eq!(Err(FloppyError::NotFound), fs.rename("/", ""));
    assert_eq!(Ok(false), fs.try_exists(""));
}

#[test]
fn rename_moves_a_directory_with_all_below_it() {
    let mut fs = MemFloppyDisk::new();
    fs.create_dir_all("/a/b/c").unwrap();
    fs.write("/a/f", b"one").unwrap();
    fs.write("/a/b/g", b"two").unwrap();
    fs.create_dir("/ab").unwrap();
    fs.write("/ab/h", b"three").unwrap();
    let serial_of_b = fs.metadata("/a/b").unwrap().serial;
    let serial_of_a = fs.metadata("/a").unwrap().serial;
    assert_eq!(Ok(()), fs.rename("/a", "/z"));
    for p in ["/a", "/a/b", "/a/b/c", "/a/f", "/a/b/g"] {
        assert_eq!(Ok(false), fs.try_exists(p));
        assert_eq!(Some(FloppyError::NotFound), fs.metadata(p).err());
    }
    assert!(fs.metadata("/z").unwrap().is_dir());
    assert!(fs.metadata("/z/b").unwrap().is_dir());
    assert!(fs.metadata("/z/b/c").unwrap().is_dir());
    assert_eq!(b"one", fs.read("/z/f").unwrap().as_slice());
    assert_eq!(b"two", fs.read("/z/b/g").unwrap().as_slice());
    assert_eq!(b"three", fs.read("/ab/h").unwrap().as_slice());
    assert_eq!(vec!["b", "f"], names(&fs, "/z"));
    assert_eq!(vec!["c", "g"], names(&fs, "/z/b"));
    assert_eq!(vec!["ab", "z"], names(&fs, "/"));
    assert_eq!(serial_of_b, fs.metadata("/z/b").unwrap().serial);
    assert!(serial_of_a < fs.metadata("/z").unwrap().serial);
    assert_eq!(Ok(()), fs.rename("/z/b", "/ab/b"));
    assert_eq!(b"two", fs.read("/ab/b/g").unwrap().as_slice());
    assert_eq!(vec!["f"], names(&fs, "/z"));
}

#[test]
fn rename_below_itself_is_refused() {
    let mut fs = MemFloppyDisk::new();
    fs.create_dir_all("/a/b").unwrap();
    assert_eq!(Err(FloppyError::InvalidInput), fs.rename("/a", "/a/c"));
    assert_eq!(Err(FloppyError::InvalidInput), fs.rename("/a", "/a/b/c"));
    assert_eq!(Err(FloppyError::InvalidInput), fs.rename("/", "/r"));
    assert!(fs.metadata("/a/b").unwrap().is_dir());
    assert_eq!(Ok(false), fs.try_exists("/a/c"));
}

#[test]
fn write_elsewhere_leaves_a_file_alone() {
    let mut fs = MemFloppyDisk::new();
    fs.write("/p", b"A").unwrap();
    fs.write("/q", b"B").unwrap();
    assert_eq!(b"A", fs.read("/p").unwrap().as_slice());
    assert_eq!(b"B", fs.read("/q").unwrap().as_slice());
}

#[test]
fn write_needs_the_directory_above() {
    let mut fs = MemFloppyDisk::new();
    assert_eq!(Err(FloppyError::NotFound), fs.write("/a/b", b"x"));
    assert_eq!(Ok(false), fs.try_exists("/a/b"));
    fs.create_dir("/a").unwrap();
    assert_eq!(Ok(()), fs.write("/a/b", b"x"));
}

#[test]
fn create_dir_errors() {
    let mut fs = MemFloppyDisk::new();
    assert_eq!(Err(FloppyError::NotFound), fs.create_dir("/a/b"));
    assert_eq!(Ok(()), fs.create_dir("/a"));
    assert_eq!(Err(FloppyError::AlreadyExists), fs.create_dir("/a"));
    assert_eq!(Err(FloppyError::AlreadyExists), fs.create_dir("/"));
    assert_eq!(Err(FloppyError::AlreadyExists), fs.create_dir("/a/../a/."));
}

#[test]
fn create_dir_all_makes_every_directory_on_the_way() {
    let mut fs = MemFloppyDisk::new();
    fs.create_dir_all("/a/b/c").unwrap();
    for p in ["/a", "/a/b", "/a/b/c"] {
        let m = fs.metadata(p).unwrap();
        assert!(m.is_dir());
        assert_eq!(0, m.len());
    }
    assert_eq!(vec!["b".to_string()], names(&fs, "/a"));
    assert_eq!(Err(FloppyError::AlreadyExists), fs.create_dir_all("/a/b/c"));
    assert_eq!(Ok(()), fs.create_dir_all("/a/b/d"));
    assert_eq!(vec!["c".to_string(), "d".to_string()], names(&fs, "/a/b"));
}

#[test]
fn create_dir_all_gives_outer_directories_the_lower_serials() {
    let mut fs = MemFloppyDisk::new();
    assert_eq!(0, fs.metadata("/").unwrap().serial);
    fs.create_dir_all("/a/b").unwrap();
    assert_eq!(1, fs.metadata("/a").unwrap().serial);
    assert_eq!(2, fs.metadata("/a/b").unwrap().serial);
    fs.create_dir_all("/a/b/c/d").unwrap();
    assert_eq!(3, fs.metadata("/a/b/c").unwrap().serial);
    assert_eq!(4, fs.metadata("/a/b/c/d").unwrap().serial);
}

#[test]
fn create_dir_all_uses_one_serial_for_each_directory_it_adds() {
    let mut fs = MemFloppyDisk::new();
    fs.create_dir("/a").unwrap();
    fs.create_dir_all("/a/b/c/d").unwrap();
    fs.write("/probe", b"").unwrap();
    assert_eq!(5, fs.metadata("/probe").unwrap().serial);
    assert_eq!(Err(FloppyError::AlreadyExists), fs.create_dir_all("/a/b"));
    fs.write("/probe", b"").unwrap();
    assert_eq!(6, fs.metadata("/probe").unwrap().serial);
}

#[test]
fn serial_numbers_are_handed_out_once() {
    let mut fs = MemFloppyDisk::new();
    fs.write("/f", b"1").unwrap();
    let first = fs.metadata("/f").unwrap().serial;
    fs.write("/f", b"2").unwrap();
    let second = fs.metadata("/f").unwrap().serial;
    assert!(first < second);
    fs.rename("/f", "/g").unwrap();
    let third = fs.metadata("/g").unwrap().serial;
    assert!(second < third);
    fs.copy("/g", "/h").unwrap();
    assert!(third < fs.metadata("/h").unwrap().serial);
    assert_eq!(third, fs.metadata("/g").unwrap().serial);
    fs.symlink("/g", "/l").unwrap();
    assert_eq!(third, fs.metadata("/l").unwrap().serial);
    assert!(third < fs.symlink_metadata("/l").unwrap().serial);
}

#[test]
fn remove_dir_all_takes_the_whole_tree() {
    let mut fs = MemFloppyDisk::new();
    fs.create_dir_all("/a/b/c").unwrap();
    fs.write("/a/b/f", b"x").unwrap();
    fs.create_dir("/ab").unwrap();
    fs.remove_dir_all("/a").unwrap();
    for p in ["/a", "/a/b", "/a/b/c", "/a/b/f"] {
        assert_eq!(Some(FloppyError::NotFound), fs.metadata(p).err());
    }
    assert!(fs.metadata("/ab").unwrap().is_dir());
    assert_eq!(Err(FloppyError::NotFound), fs.remove_dir_all("/a"));
}

#[test]
fn remove_dir_refuses_a_directory_with_children() {
    let mut fs = MemFloppyDisk::new();
    fs.create_dir_all("/a/b").unwrap();
    assert_eq!(Err(FloppyError::InvalidInput), fs.remove_dir("/a"));
    assert_eq!(Ok(()), fs.remove_dir("/a/b"));
    assert_eq!(Ok(()), fs.remove_dir("/a"));
    assert_eq!(Err(FloppyError::NotFound), fs.remove_dir("/a"));
}

#[test]
fn remove_file_refuses_a_directory() {
    let mut fs = MemFloppyDisk::new();
    fs.create_dir("/d").unwrap();
    assert_eq!(Err(FloppyError::InvalidInput), fs.remove_file("/d"));
    assert_eq!(Err(FloppyError::NotFound), fs.remove_file("/nothing"));
    fs.write("/f", b"x").unwrap();
    fs.symlink("/f", "/l").unwrap();
    assert_eq!(Ok(()), fs.remove_file("/l"));
    assert_eq!(Ok(()), fs.remove_file("/f"));
}

#[test]
fn read_errors() {
    let mut fs = MemFloppyDisk::new();
    fs.create_dir("/d").unwrap();
    assert_eq!(Err(FloppyError::InvalidInput), fs.read("/d"));
    assert_eq!(Err(FloppyError::NotFound), fs.read("/d/f"));
    assert_eq!(Err(FloppyError::NotFound), fs.read("/x/y/z"));
    fs.write("/bad", &[0xff, 0xfe]).unwrap();
    assert_eq!(Err(FloppyError::InvalidData), fs.read_to_string("/bad"));
    fs.write("/good", "grüß".as_bytes()).unwrap();
    assert_eq!(Ok("grüß".to_string()), fs.read_to_string("/good"));
}

#[test]
fn read_follows_symlinks() {
    let mut fs = MemFloppyDisk::new();
    fs.write("/f", b"data").unwrap();
    fs.symlink("/f", "/l1").unwrap();
    fs.symlink("/l1", "/l2").unwrap();
    assert_eq!(b"data", fs.read("/l2").unwrap().as_slice());
    assert!(fs.metadata("/l2").unwrap().is_file());
    assert!(fs.symlink_metadata("/l2").unwrap().is_symlink());
    assert_eq!(Ok("/f".to_string()), fs.canonicalize("/l2"));
}

#[test]
fn symlink_errors() {
    let mut fs = MemFloppyDisk::new();
    assert_eq!(Err(FloppyError::NotFound), fs.symlink("/x", "/y"));
    fs.write("/x", b"1").unwrap();
    assert_eq!(Ok(()), fs.symlink("/x", "/y"));
    assert_eq!(Err(FloppyError::AlreadyExists), fs.symlink("/x", "/y"));
    assert_eq!(Err(FloppyError::NotFound), fs.symlink("/x", "/no/y"));
    assert_eq!(Err(FloppyError::InvalidInput), fs.read_link("/x"));
    assert_eq!(Err(FloppyError::NotFound), fs.read_link("/z"));
}

#[test]
fn symlink_keeps_its_target_as_given() {
    let mut fs = MemFloppyDisk::new();
    fs.create_dir("/d").unwrap();
    fs.write("/d/x", b"1").unwrap();
    fs.symlink("/d/./../d/x", "/y").unwrap();
    assert_eq!(Ok("/d/./../d/x".to_string()), fs.read_link("/y"));
    assert_eq!(Ok("/d/x".to_string()), fs.canonicalize("/y"));
}

#[test]
fn a_dangling_symlink() {
    let mut fs = MemFloppyDisk::new();
    fs.write("/x", b"1").unwrap();
    fs.symlink("/x", "/y").unwrap();
    fs.rename("/x", "/z").unwrap();
    assert_eq!(Some(FloppyError::Other), fs.metadata("/y").err());
    assert!(fs.symlink_metadata("/y").unwrap().is_symlink());
    assert_eq!(Ok(false), fs.try_exists("/y"));
    assert_eq!(Err(FloppyError::NotFound), fs.canonicalize("/y"));
    assert_eq!(Err(FloppyError::NotFound), fs.read("/y"));
    assert_eq!(Ok("/x".to_string()), fs.read_link("/y"));
}

#[test]
fn a_symlink_cycle_is_too_many_links() {
    let mut fs = MemFloppyDisk::new();
    fs.write("/b", b"").unwrap();
    fs.symlink("/b", "/a").unwrap();
    fs.remove_file("/b").unwrap();
    fs.symlink("/a", "/b").unwrap();
    assert_eq!(Some(FloppyError::TooManyLinks), fs.metadata("/a").err());
    assert_eq!(Err(FloppyError::TooManyLinks), fs.try_exists("/a"));
    assert_eq!(Err(FloppyError::TooManyLinks), fs.canonicalize("/b"));
    assert_eq!(Err(FloppyError::TooManyLinks), fs.read("/a"));
}

#[test]
fn a_chain_of_forty_symlinks_is_followed() {
    let mut fs = MemFloppyDisk::new();
    fs.write("/l0", b"end").unwrap();
    for i in 0..40 {
        fs.symlink(&format!("/l{}", i), &format!("/l{}", i + 1)).unwrap();
    }
    assert_eq!(b"end", fs.read("/l40").unwrap().as_slice());
    fs.symlink("/l40", "/l41").unwrap();
    assert_eq!(Err(FloppyError::TooManyLinks), fs.read("/l41"));
}

#[test]
fn rename_moves_the_entry() {
    let mut fs = MemFloppyDisk::new();
    fs.write("/from", b"data").unwrap();
    assert_eq!(Err(FloppyError::NotFound), fs.rename("/nothing", "/to"));
    assert_eq!(Err(FloppyError::NotFound), fs.rename("/from", "/no/to"));
    fs.write("/taken", b"").unwrap();
    assert_eq!(Err(FloppyError::AlreadyExists), fs.rename("/from", "/taken"));
    assert_eq!(Err(FloppyError::AlreadyExists), fs.rename("/from", "/from"));
    assert_eq!(Ok(true), fs.try_exists("/from"));
    assert_eq!(Ok(()), fs.rename("/from", "/to"));
    assert_eq!(Ok(false), fs.try_exists("/from"));
    assert_eq!(Ok(true), fs.try_exists("/to"));
    assert_eq!(b"data", fs.read("/to").unwrap().as_slice());
}

#[test]
fn copy_duplicates_contents_and_mode() {
    let mut fs = MemFloppyDisk::new();
    fs.write("/a", b"12345").unwrap();
    fs.set_permissions("/a", floppy_disk::mem::MemPermissions { mode: 0o600 }).unwrap();
    assert_eq!(Ok(5), fs.copy("/a", "/b"));
    assert_eq!(b"12345", fs.read("/b").unwrap().as_slice());
    assert_eq!(0o600, fs.metadata("/b").unwrap().permissions.mode);
    fs.write("/b", b"changed").unwrap();
    assert_eq!(b"12345", fs.read("/a").unwrap().as_slice());
    assert_eq!(Err(FloppyError::NotFound), fs.copy("/nothing", "/c"));
    assert_eq!(Err(FloppyError::NotFound), fs.copy("/a", "/no/c"));
    fs.create_dir("/d").unwrap();
    assert_eq!(Err(FloppyError::InvalidInput), fs.copy("/d", "/e"));
    assert_eq!(Err(FloppyError::InvalidInput), fs.copy("/a", "/d"));
    assert!(fs.metadata("/d").unwrap().is_dir());
    assert_eq!(Ok(5), fs.copy("/a", "/a"));
    assert_eq!(b"12345", fs.read("/a").unwrap().as_slice());
}

#[test]
fn set_permissions_and_chown() {
    let mut fs = MemFloppyDisk::new();
    fs.write("/f", b"").unwrap();
    fs.symlink("/f", "/l").unwrap();
    fs.set_permissions("/l", floppy_disk::mem::MemPermissions { mode: 0o400 }).unwrap();
    assert_eq!(0o400, fs.metadata("/f").unwrap().permissions.mode);
    assert_eq!(0o777, fs.symlink_metadata("/l").unwrap().permissions.mode);
    fs.chown("/f", 1000, 100).unwrap();
    assert_eq!(Ok(1000), fs.metadata("/l").unwrap().uid());
    assert_eq!(Ok(100), fs.metadata("/l").unwrap().gid());
    assert_eq!(
        Err(FloppyError::NotFound),
        fs.set_permissions("/nothing", floppy_disk::mem::MemPermissions { mode: 0 })
    );
    assert_eq!(Err(FloppyError::NotFound), fs.chown("/nothing", 1, 1));
}

#[test]
fn hard_links_are_unsupported() {
    let mut fs = MemFloppyDisk::new();
    fs.write("/f", b"").unwrap();
    assert_eq!(Err(FloppyError::Unsupported), fs.hard_link("/f", "/g"));
    assert_eq!(Ok(false), fs.try_exists("/g"));
}

#[test]
fn test_canonicalize() {
    let fs = MemFloppyDisk::new();
    assert_eq!("/", fs.canonicalize("/").unwrap());
    assert_eq!("/", fs.canonicalize("/.").unwrap());
    assert_eq!("/", fs.canonicalize("/..").unwrap());
    assert_eq!("/", fs.canonicalize("/../..").unwrap());
    assert_eq!("a", fs.canonicalize("a").unwrap());
    assert_eq!("a", fs.canonicalize("a/.").unwrap());
    assert_eq!("/a", fs.canonicalize("/a/.").unwrap());
    assert_eq!("/a", fs.canonicalize("/a/../a").unwrap());
    assert_eq!("/", fs.canonicalize("/usr/bin/../../../../../../..").unwrap());
    assert_eq!("/", fs.canonicalize("/usr/bin/../../../../..").unwrap());
}

#[test]
fn read_dir_lists_children_in_order() {
    let mut fs = MemFloppyDisk::new();
    fs.create_dir("/d").unwrap();
    for n in ["zeta", "alpha", "mid", "Beta"] {
        fs.write(&format!("/d/{}", n), b"").unwrap();
    }
    fs.create_dir("/d/mid.d").unwrap();
    fs.write("/d/mid.d/deep", b"").unwrap();
    fs.write("/dx", b"").unwrap();
    assert_eq!(
        vec!["Beta", "alpha", "mid", "mid.d", "zeta"],
        names(&fs, "/d")
    );
    assert_eq!(vec!["d", "dx"], names(&fs, "/"));
    assert_eq!(Some(FloppyError::NotFound), fs.read_dir("/nothing").err());
    assert!(names(&fs, "/dx").is_empty());
}

#[test]
fn read_dir_entries_name_their_paths() {
    let mut fs = MemFloppyDisk::new();
    fs.create_dir_all("/a/b").unwrap();
    let mut listing = fs.read_dir("/a").unwrap();
    let entry = listing.next_entry().unwrap().unwrap();
    assert_eq!("/a/b", entry.path());
    assert_eq!("b", entry.file_name());
    assert!(entry.metadata(&fs).unwrap().is_dir());
    assert!(entry.file_type(&fs).unwrap().is_dir());
    assert_eq!("/a/b", normalize(&entry.path()).render());
    fs.remove_dir("/a/b").unwrap();
    assert_eq!(Some(FloppyError::NotFound), entry.metadata(&fs).err());
    assert!(listing.next_entry().unwrap().is_none());
    assert!(listing.next_entry().unwrap().is_none());
}

#[test]
fn guards_tell_what_is_missing() {
    let mut fs = MemFloppyDisk::new();
    fs.create_dir("/a").unwrap();
    let p = normalize("/a/b/c/d");
    assert_eq!("/a/b", fs.ancestor_missing(&p).unwrap().render());
    assert!(fs.ancestor_missing(&normalize("/a/b")).is_none());
    assert!(fs.ancestor_missing(&normalize("/")).is_none());
    assert_eq!(Ok(()), fs.require_present(&normalize("/a")));
    assert_eq!(Err(FloppyError::NotFound), fs.require_present(&normalize("/a/b")));
    assert_eq!(Err(FloppyError::NotFound), fs.require_present(&p));
    assert_eq!(Ok(()), fs.require_absent(&normalize("/a/b")));
    assert_eq!(Err(FloppyError::AlreadyExists), fs.require_absent(&normalize("/a")));
    assert_eq!(Err(FloppyError::NotFound), fs.require_absent(&p));
    assert_eq!(Ok(()), fs.require_parent(&normalize("/a")));
    assert_eq!(Err(FloppyError::NotFound), fs.require_parent(&p));
    assert_eq!("/a", fs.resolve_symlinks(normalize("/a")).unwrap().render());
    assert_eq!(Some(FloppyError::NotFound), fs.resolve_symlinks(p).err());
}

#[test]
fn relative_paths_live_beside_the_root() {
    let mut fs = MemFloppyDisk::new();
    assert_eq!(Ok(()), fs.create_dir("rel"));
    assert_eq!(Ok(()), fs.write("rel/f", b"r"));
    assert_eq!(b"r", fs.read("rel/f").unwrap().as_slice());
    assert_eq!(Err(FloppyError::NotFound), fs.read("/rel/f"));
    assert_eq!(vec!["f"], names(&fs, "rel"));
}

#[test]
fn metadata_times_are_those_of_creation() {
    let mut fs = MemFloppyDisk::new();
    let before = std::time::SystemTime::now();
    fs.write("/f", b"x").unwrap();
    let after = std::time::SystemTime::now();
    let m = fs.metadata("/f").unwrap();
    for t in [m.modified().unwrap(), m.accessed().unwrap(), m.created().unwrap()] {
        assert!(before <= t && t <= after);
    }
    fs.set_permissions("/f", floppy_disk::mem::MemPermissions { mode: 0o600 }).unwrap();
    let again = fs.metadata("/f").unwrap();
    assert_eq!(m.modified().unwrap(), again.modified().unwrap());
    assert!(again.file_type().is_file());
}
