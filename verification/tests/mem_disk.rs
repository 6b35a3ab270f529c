use floppy_disk::error::FloppyError;
use floppy_disk::mem::{MemFloppyDisk, MemOpenOptions, MemPermissions, SeekFrom};
use floppy_disk::{FloppyFileType, FloppyMetadata, FloppyPermissions, FloppyUnixPermissions};

#[test]
fn test_mem_floppy_disk() {
    let mut fs = MemFloppyDisk::new();
    fs.write("/test.txt", "asdf".as_bytes()).unwrap();
    assert_eq!("asdf", fs.read_to_string("/test.txt").unwrap());
}

#[test]
fn test_copy() {
    let mut fs = MemFloppyDisk::new();
    fs.write("/test.txt", "asdf".as_bytes()).unwrap();
    fs.copy("/test.txt", "/test2.txt").unwrap();
    assert_eq!("asdf", fs.read_to_string("/test2.txt").unwrap());
}

#[test]
fn test_create_dir() {
    let mut fs = MemFloppyDisk::new();
    fs.create_dir("/test").unwrap();
    let metadata = fs.metadata("/test").unwrap();
    assert!(metadata.is_dir());
}

#[test]
fn test_create_dir_all() {
    let mut fs = MemFloppyDisk::new();
    fs.create_dir_all("/test/a/b/c").unwrap();
    let metadata = fs.metadata("/test/a/b/c").unwrap();
    assert!(metadata.is_dir());
}

#[test]
fn test_metadata() {
    let mut fs = MemFloppyDisk::new();
    fs.write("/test.txt", "asdf".as_bytes()).unwrap();
    let metadata = fs.metadata("/test.txt").unwrap();
    assert!(metadata.is_file());
    assert_eq!(4, metadata.len());
}

#[test]
fn test_read() {
    let mut fs = MemFloppyDisk::new();
    fs.write("/test.txt", "asdf".as_bytes()).unwrap();
    let buf = fs.read("/test.txt").unwrap();
    assert_eq!(b"asdf", buf.as_slice());
}

#[test]
fn test_read_dir() {
    let mut fs = MemFloppyDisk::new();
    fs.write("/test.txt", "asdf".as_bytes()).unwrap();
    fs.create_dir("/test").unwrap();
    let mut entries = fs.read_dir("/").unwrap();
    let entry = entries.next_entry().unwrap();
    assert!(entry.is_some());
    let entry = entry.unwrap();
    assert_eq!("test", entry.file_name());
    assert!(entry.file_type(&fs).unwrap().is_dir());

    let entry = entries.next_entry().unwrap();
    assert!(entry.is_some());
    let entry = entry.unwrap();
    assert_eq!("test.txt", entry.file_name());
    assert!(entry.file_type(&fs).unwrap().is_file());

    assert!(entries.next_entry().unwrap().is_none());
}

#[test]
fn test_read_link() {
    let mut fs = MemFloppyDisk::new();
    fs.write("/test.txt", "asdf".as_bytes()).unwrap();
    fs.symlink("/test.txt", "/test2.txt").unwrap();
    let s = fs.read_link("/test2.txt").unwrap();
    assert_eq!("/test.txt", s);
}

#[test]
fn test_read_to_string() {
    let mut fs = MemFloppyDisk::new();
    fs.write("/test.txt", "asdf".as_bytes()).unwrap();
    let s = fs.read_to_string("/test.txt").unwrap();
    assert_eq!("asdf", s);
}

#[test]
fn test_remove_dir() {
    let mut fs = MemFloppyDisk::new();
    fs.create_dir("/test").unwrap();
    fs.remove_dir("/test").unwrap();
    assert!(fs.metadata("/test").is_err());
}

#[test]
fn test_remove_dir_all() {
    let mut fs = MemFloppyDisk::new();
    fs.create_dir_all("/test/a/b/c").unwrap();
    fs.remove_dir_all("/test").unwrap();
    assert!(fs.metadata("/test").is_err());
    assert!(fs.metadata("/test/a").is_err());
    assert!(fs.metadata("/test/a/b").is_err());
    assert!(fs.metadata("/test/a/b/c").is_err());
}

#[test]
fn test_remove_file() {
    let mut fs = MemFloppyDisk::new();
    fs.write("/test.txt", "asdf".as_bytes()).unwrap();
    fs.remove_file("/test.txt").unwrap();
    assert!(fs.metadata("/test.txt").is_err());
}

#[test]
fn test_rename() {
    let mut fs = MemFloppyDisk::new();
    fs.write("/test.txt", "asdf".as_bytes()).unwrap();
    fs.rename("/test.txt", "/test2.txt").unwrap();
    assert!(fs.metadata("/test.txt").is_err());
    assert_eq!("asdf", fs.read_to_string("/test2.txt").unwrap());
}

#[test]
fn test_set_permissions() {
    let mut fs = MemFloppyDisk::new();
    fs.write("/test.txt", "asdf".as_bytes()).unwrap();
    fs.set_permissions("/test.txt", MemPermissions::from_mode(0o777))
        .unwrap();
    let metadata = fs.metadata("/test.txt").unwrap();
    assert_eq!(0o777, metadata.permissions().mode());
}

#[test]
fn test_symlink_metadata() {
    let mut fs = MemFloppyDisk::new();
    fs.write("/test.txt", "asdf".as_bytes()).unwrap();
    fs.symlink("/test.txt", "/test2.txt").unwrap();
    let metadata = fs.symlink_metadata("/test2.txt").unwrap();
    assert!(metadata.is_symlink());
}

#[test]
fn test_symlink() {
    let mut fs = MemFloppyDisk::new();
    fs.write("/test.txt", "asdf".as_bytes()).unwrap();
    fs.symlink("/test.txt", "/test2.txt").unwrap();
    let s = fs.read_link("/test2.txt").unwrap();
    assert_eq!("/test.txt", s);
}

#[test]
fn test_write() {
    let mut fs = MemFloppyDisk::new();
    fs.write("/test.txt", "asdf".as_bytes()).unwrap();
    assert_eq!("asdf", fs.read_to_string("/test.txt").unwrap());
}

#[test]
fn test_dir_builder() {
    let mut fs = MemFloppyDisk::new();
    {
        let mut builder = fs.new_dir_builder();
        builder.recursive(true);
        builder.create(&mut fs, "/test/a/b/c").unwrap();

        assert!(fs.metadata("/test").unwrap().is_dir());
        assert!(fs.metadata("/test/a").unwrap().is_dir());
        assert!(fs.metadata("/test/a/b").unwrap().is_dir());
        assert!(fs.metadata("/test/a/b/c").unwrap().is_dir());
    }

    {
        let mut builder = fs.new_dir_builder();
        builder.recursive(false);
        let res = builder.create(&mut fs, "/test2/a/b/c");
        assert!(res.is_err());
    }
}

#[test]
fn read_of_a_path_never_written_is_not_found() {
    let fs = MemFloppyDisk::new();
    assert_eq!(Err(FloppyError::NotFound), fs.read("/nothing"));
    assert_eq!(Err(FloppyError::NotFound), fs.read("/a/b/c"));
    assert_eq!(Err(FloppyError::InvalidInput), fs.read("/"));
}

#[test]
fn open_write_seek_read() {
    let mut fs = MemFloppyDisk::new();
    let opts = MemOpenOptions::new().read(true).write(true).create(true);
    let mut f = opts.open(&mut fs, "/f").unwrap();
    assert_eq!(Ok(3), f.write(&mut fs, b"abc"));
    assert_eq!(Ok(0), f.seek(&fs, SeekFrom::Start(0)));
    let mut buf = [0u8; 8];
    assert_eq!(Ok(3), f.read(&fs, &mut buf));
    assert_eq!(b"abc", &buf[..3]);
    assert_eq!(Ok(0), f.read(&fs, &mut buf));
    f.close(&mut fs);
    assert_eq!(b"abc", fs.read("/f").unwrap().as_slice());
    let mut p = MemPermissions::from_mode(0o644);
    p.set_readonly(true);
    assert!(p.readonly());
}
