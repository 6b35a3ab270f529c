use floppy_disk::error::FloppyError;
use floppy_disk::mem::file::MemOpenOptions;
use floppy_disk::mem::model::SeekFrom;
use floppy_disk::mem::{write_at, MemFloppyDisk, MemPermissions};
use floppy_disk::FloppyMetadata;

fn rw() -> MemOpenOptions {
    MemOpenOptions::new().read(true).write(true)
}

#[test]
fn open_needs_an_existing_file_unless_it_creates() {
    let mut fs = MemFloppyDisk::new();
    assert_eq!(Some(FloppyError::NotFound), rw().open(&mut fs, "/f").err());
    assert_eq!(Some(FloppyError::NotFound), rw().create(true).open(&mut fs, "/no/f").err());
    let f = rw().create(true).open(&mut fs, "/f").unwrap();
    assert_eq!(0, f.position());
    assert!(fs.metadata("/f").unwrap().is_file());
    assert_eq!(0, fs.metadata("/f").unwrap().len());
    f.close(&mut fs);
    let g = rw().open(&mut fs, "/f").unwrap();
    g.close(&mut fs);
}

#[test]
fn open_checks_its_options() {
    let mut fs = MemFloppyDisk::new();
    fs.write("/f", b"abc").unwrap();
    let read_only = MemOpenOptions::new().read(true);
    assert_eq!(Some(FloppyError::InvalidInput), read_only.create(true).open(&mut fs, "/f").err());
    assert_eq!(Some(FloppyError::InvalidInput), read_only.truncate(true).open(&mut fs, "/f").err());
    assert_eq!(Some(FloppyError::InvalidInput), read_only.create_new(true).open(&mut fs, "/g").err());
    assert_eq!(
        Some(FloppyError::InvalidInput),
        MemOpenOptions::new().append(true).truncate(true).open(&mut fs, "/f").err()
    );
    assert_eq!(Some(FloppyError::AlreadyExists), rw().create_new(true).open(&mut fs, "/f").err());
    fs.create_dir("/d").unwrap();
    assert_eq!(Some(FloppyError::InvalidInput), read_only.open(&mut fs, "/d").err());
    assert_eq!(b"abc", fs.read("/f").unwrap().as_slice());
}

#[test]
fn open_with_truncate_empties_the_file() {
    let mut fs = MemFloppyDisk::new();
    fs.write("/f", b"abc").unwrap();
    let f = rw().truncate(true).open(&mut fs, "/f").unwrap();
    assert_eq!(0, fs.metadata("/f").unwrap().len());
    f.close(&mut fs);
}

#[test]
fn open_follows_symlinks() {
    let mut fs = MemFloppyDisk::new();
    fs.write("/f", b"abc").unwrap();
    fs.symlink("/f", "/l").unwrap();
    let mut f = rw().open(&mut fs, "/l").unwrap();
    f.write(&mut fs, b"X").unwrap();
    f.close(&mut fs);
    assert_eq!(b"Xbc", fs.read("/f").unwrap().as_slice());
}

#[test]
fn read_hands_out_what_is_left_and_fits() {
    let mut fs = MemFloppyDisk::new();
    fs.write("/f", b"0123456789").unwrap();
    let mut f = rw().open(&mut fs, "/f").unwrap();
    let mut buf = [b'.'; 4];
    assert_eq!(Ok(4), f.read(&fs, &mut buf));
    assert_eq!(b"0123", &buf);
    assert_eq!(4, f.position());
    assert_eq!(Ok(4), f.read(&fs, &mut buf));
    assert_eq!(b"4567", &buf);
    assert_eq!(Ok(2), f.read(&fs, &mut buf));
    assert_eq!(b"8967", &buf);
    assert_eq!(10, f.position());
    assert_eq!(Ok(0), f.read(&fs, &mut buf));
    assert_eq!(b"8967", &buf);
    let mut none: [u8; 0] = [];
    assert_eq!(Ok(0), f.read(&fs, &mut none));
    f.close(&mut fs);
}

#[test]
fn read_past_the_end_is_no_error() {
    let mut fs = MemFloppyDisk::new();
    fs.write("/f", b"abc").unwrap();
    let mut f = rw().open(&mut fs, "/f").unwrap();
    assert_eq!(Ok(100), f.seek(&fs, SeekFrom::Start(100)));
    let mut buf = [0u8; 4];
    assert_eq!(Ok(0), f.read(&fs, &mut buf));
    assert_eq!(100, f.position());
    f.close(&mut fs);
}

#[test]
fn write_overwrites_and_extends() {
    let mut fs = MemFloppyDisk::new();
    fs.write("/f", b"0123456789").unwrap();
    let mut f = rw().open(&mut fs, "/f").unwrap();
    assert_eq!(Ok(2), f.seek(&fs, SeekFrom::Start(2)));
    assert_eq!(Ok(3), f.write(&mut fs, b"abc"));
    assert_eq!(5, f.position());
    assert_eq!(b"01abc56789", fs.read("/f").unwrap().as_slice());
    assert_eq!(Ok(8), f.seek(&fs, SeekFrom::Start(8)));
    assert_eq!(Ok(4), f.write(&mut fs, b"wxyz"));
    assert_eq!(b"01abc567wxyz", fs.read("/f").unwrap().as_slice());
    assert_eq!(12, f.position());
    f.close(&mut fs);
}

#[test]
fn write_past_the_end_fills_the_gap_with_zeros() {
    let mut fs = MemFloppyDisk::new();
    fs.write("/f", b"ab").unwrap();
    let mut f = rw().open(&mut fs, "/f").unwrap();
    f.seek(&fs, SeekFrom::Start(5)).unwrap();
    assert_eq!(Ok(2), f.write(&mut fs, b"xy"));
    assert_eq!(b"ab\0\0\0xy", fs.read("/f").unwrap().as_slice());
    f.seek(&fs, SeekFrom::Start(9)).unwrap();
    assert_eq!(Ok(0), f.write(&mut fs, b""));
    assert_eq!(b"ab\0\0\0xy\0\0", fs.read("/f").unwrap().as_slice());
    f.close(&mut fs);
}

#[test]
fn write_at_on_a_plain_buffer() {
    let mut v = b"abcdef".to_vec();
    write_at(&mut v, 1, b"XY");
    assert_eq!(b"aXYdef", v.as_slice());
    write_at(&mut v, 8, b"Z");
    assert_eq!(b"aXYdef\0\0Z", v.as_slice());
    write_at(&mut v, 9, b"!");
    assert_eq!(b"aXYdef\0\0Z!", v.as_slice());
}

#[test]
fn append_writes_at_the_end() {
    let mut fs = MemFloppyDisk::new();
    fs.write("/f", b"abc").unwrap();
    let mut f = MemOpenOptions::new().append(true).open(&mut fs, "/f").unwrap();
    assert_eq!(0, f.position());
    assert_eq!(Ok(2), f.write(&mut fs, b"de"));
    assert_eq!(5, f.position());
    f.seek(&fs, SeekFrom::Start(0)).unwrap();
    assert_eq!(Ok(1), f.write(&mut fs, b"f"));
    assert_eq!(b"abcdef", fs.read("/f").unwrap().as_slice());
    f.close(&mut fs);
}

#[test]
fn read_needs_read_access() {
    let mut fs = MemFloppyDisk::new();
    fs.write("/f", b"abc").unwrap();
    let mut f = MemOpenOptions::new().write(true).open(&mut fs, "/f").unwrap();
    let mut buf = [b'.'; 3];
    assert_eq!(Err(FloppyError::InvalidInput), f.read(&fs, &mut buf));
    assert_eq!(b"...", &buf);
    assert_eq!(0, f.position());
    assert_eq!(Ok(1), f.write(&mut fs, b"X"));
    f.close(&mut fs);
    let mut g = MemOpenOptions::new().open(&mut fs, "/f").unwrap();
    assert_eq!(Err(FloppyError::InvalidInput), g.read(&fs, &mut buf));
    g.close(&mut fs);
    assert_eq!(b"Xbc", fs.read("/f").unwrap().as_slice());
}

#[test]
fn write_needs_write_access() {
    let mut fs = MemFloppyDisk::new();
    fs.write("/f", b"abc").unwrap();
    let mut f = MemOpenOptions::new().read(true).open(&mut fs, "/f").unwrap();
    assert_eq!(Err(FloppyError::InvalidInput), f.write(&mut fs, b"x"));
    assert_eq!(0, f.position());
    assert_eq!(b"abc", fs.read("/f").unwrap().as_slice());
    f.close(&mut fs);
}

#[test]
fn seek_from_start_current_and_end() {
    let mut fs = MemFloppyDisk::new();
    fs.write("/f", b"0123456789").unwrap();
    let mut f = rw().open(&mut fs, "/f").unwrap();
    assert_eq!(Ok(7), f.seek(&fs, SeekFrom::Start(7)));
    assert_eq!(Ok(4), f.seek(&fs, SeekFrom::Current(-3)));
    assert_eq!(Ok(14), f.seek(&fs, SeekFrom::Current(10)));
    assert_eq!(Ok(10), f.seek(&fs, SeekFrom::End(0)));
    assert_eq!(Ok(8), f.seek(&fs, SeekFrom::End(-2)));
    assert_eq!(Ok(10), f.seek(&fs, SeekFrom::End(5)));
    assert_eq!(Ok(0), f.seek(&fs, SeekFrom::End(-10)));
    assert_eq!(0, f.position());
    f.close(&mut fs);
}

#[test]
fn seek_before_the_start_is_refused() {
    let mut fs = MemFloppyDisk::new();
    fs.write("/f", b"0123").unwrap();
    let mut f = rw().open(&mut fs, "/f").unwrap();
    f.seek(&fs, SeekFrom::Start(2)).unwrap();
    assert_eq!(Err(FloppyError::InvalidInput), f.seek(&fs, SeekFrom::Current(-3)));
    assert_eq!(Err(FloppyError::InvalidInput), f.seek(&fs, SeekFrom::End(-5)));
    assert_eq!(2, f.position());
    assert_eq!(Ok(u64::MAX), f.seek(&fs, SeekFrom::Start(u64::MAX)));
    assert_eq!(Err(FloppyError::InvalidInput), f.seek(&fs, SeekFrom::Current(1)));
    assert_eq!(Err(FloppyError::InvalidInput), f.write(&mut fs, b"x"));
    f.close(&mut fs);
}

#[test]
fn set_len_is_advisory() {
    let mut fs = MemFloppyDisk::new();
    fs.write("/f", b"abc").unwrap();
    let mut f = rw().open(&mut fs, "/f").unwrap();
    assert_eq!(0, f.metadata(&fs).unwrap().size);
    assert_eq!(Ok(()), f.set_len(&mut fs, 100));
    assert_eq!(3, f.metadata(&fs).unwrap().len());
    assert_eq!(100, f.metadata(&fs).unwrap().size);
    assert_eq!(100, fs.metadata("/f").unwrap().size);
    assert_eq!(b"abc", fs.read("/f").unwrap().as_slice());
    assert_eq!(Ok(()), f.sync_all());
    assert_eq!(Ok(()), f.sync_data());
    f.close(&mut fs);
}

#[test]
fn try_clone_shares_the_file_but_not_the_position() {
    let mut fs = MemFloppyDisk::new();
    fs.write("/f", b"0123456789").unwrap();
    let mut f = rw().open(&mut fs, "/f").unwrap();
    f.seek(&fs, SeekFrom::Start(3)).unwrap();
    let mut g = f.try_clone(&mut fs).unwrap();
    assert_eq!(3, g.position());
    g.write(&mut fs, b"xy").unwrap();
    assert_eq!(5, g.position());
    assert_eq!(3, f.position());
    let mut buf = [0u8; 2];
    assert_eq!(Ok(2), f.read(&fs, &mut buf));
    assert_eq!(b"xy", &buf);
    f.close(&mut fs);
    assert_eq!(Ok(1), g.write(&mut fs, b"z"));
    g.close(&mut fs);
    assert_eq!(b"012xyz6789", fs.read("/f").unwrap().as_slice());
}

#[test]
fn a_rename_keeps_open_files_on_their_entry() {
    let mut fs = MemFloppyDisk::new();
    fs.write("/f", b"abc").unwrap();
    let mut f = rw().open(&mut fs, "/f").unwrap();
    fs.rename("/f", "/g").unwrap();
    assert_eq!(Ok(3), f.write(&mut fs, b"xyz"));
    assert_eq!(b"xyz", fs.read("/g").unwrap().as_slice());
    f.close(&mut fs);
}

#[test]
fn a_removed_file_lives_while_it_is_open() {
    let mut fs = MemFloppyDisk::new();
    fs.write("/f", b"abc").unwrap();
    let mut f = rw().open(&mut fs, "/f").unwrap();
    let mut g = f.try_clone(&mut fs).unwrap();
    fs.remove_file("/f").unwrap();
    assert_eq!(Ok(false), fs.try_exists("/f"));
    fs.write("/f", b"other").unwrap();
    let mut buf = [0u8; 3];
    assert_eq!(Ok(3), f.read(&fs, &mut buf));
    assert_eq!(b"abc", &buf);
    f.close(&mut fs);
    assert_eq!(Ok(3), g.read(&fs, &mut buf));
    assert_eq!(3, g.metadata(&fs).unwrap().len());
    let stale = g.try_clone(&mut fs).unwrap();
    g.close(&mut fs);
    stale.close(&mut fs);
    assert_eq!(b"other", fs.read("/f").unwrap().as_slice());
}

#[test]
fn a_closed_file_of_a_removed_entry_is_refused() {
    let mut fs = MemFloppyDisk::new();
    fs.write("/f", b"abc").unwrap();
    let f = rw().open(&mut fs, "/f").unwrap();
    let mut g = f.try_clone(&mut fs).unwrap();
    fs.remove_file("/f").unwrap();
    f.close(&mut fs);
    let h = g.try_clone(&mut fs).unwrap();
    g.seek(&fs, SeekFrom::Start(1)).unwrap();
    h.close(&mut fs);
    let mut buf = [0u8; 3];
    assert_eq!(Ok(2), g.read(&fs, &mut buf));
    let last = MemOpenOptions::new();
    assert_eq!(Some(FloppyError::NotFound), last.open(&mut fs, "/f").err());
    g.close(&mut fs);
}

#[test]
fn permissions_through_an_open_file() {
    let mut fs = MemFloppyDisk::new();
    fs.write("/f", b"").unwrap();
    let f = rw().open(&mut fs, "/f").unwrap();
    assert_eq!(0o644, f.permissions(&fs).unwrap().mode);
    f.set_permissions(&mut fs, MemPermissions { mode: 0o400 }).unwrap();
    assert_eq!(0o400, f.permissions(&fs).unwrap().mode);
    assert_eq!(0o400, fs.metadata("/f").unwrap().permissions.mode);
    f.close(&mut fs);
}
