use floppy_disk::mem::MemFloppyDisk;
use floppy_disk::FloppyMetadata;
use rsfs_tokio::mem::unix::FS;
use rsfs_tokio::unix_ext::GenFSExt;
use rsfs_tokio::{GenFS, Metadata};
use tokio::io::{AsyncReadExt, AsyncWriteExt};

fn block<F: std::future::Future>(future: F) -> F::Output {
    tokio::runtime::Builder::new_current_thread()
        .build()
        .unwrap()
        .block_on(future)
}

async fn put(other: &FS, path: &str, data: &[u8]) -> bool {
    match other.create_file(path).await {
        Ok(mut file) => file.write_all(data).await.is_ok(),
        Err(_) => false,
    }
}

async fn get(other: &FS, path: &str) -> Option<Vec<u8>> {
    let mut file = other.open_file(path).await.ok()?;
    let mut data = Vec::new();
    file.read_to_end(&mut data).await.ok()?;
    Some(data)
}

async fn kind(other: &FS, path: &str) -> Option<(bool, bool, u64)> {
    let m = other.metadata(path).await.ok()?;
    Some((m.is_dir(), m.is_file(), if m.is_file() { m.len() } else { 0 }))
}

fn kind_here(fs: &MemFloppyDisk, path: &str) -> Option<(bool, bool, u64)> {
    let m = fs.metadata(path).ok()?;
    Some((m.is_dir(), m.is_file(), if m.is_file() { m.len() } else { 0 }))
}

const PATHS: [&str; 10] = [
    "/", "/a", "/a/b", "/a/b/c", "/a/f", "/a/g", "/x", "/y", "/z", "/nothing",
];

fn same_state(other: &FS, fs: &MemFloppyDisk) {
    for p in PATHS {
        assert_eq!(block(kind(other, p)), kind_here(fs, p), "metadata of {}", p);
        assert_eq!(block(get(other, p)), fs.read(p).ok(), "contents of {}", p);
    }
}

#[test]
fn files_and_directories_agree_with_rsfs() {
    let other = FS::new();
    let mut fs = MemFloppyDisk::new();
    same_state(&other, &fs);

    assert_eq!(block(other.create_dir("/a/b")).is_ok(), fs.create_dir("/a/b").is_ok());
    assert_eq!(block(other.create_dir("/a")).is_ok(), fs.create_dir("/a").is_ok());
    assert_eq!(block(other.create_dir("/a")).is_ok(), fs.create_dir("/a").is_ok());
    assert_eq!(
        block(other.create_dir_all("/a/b/c")).is_ok(),
        fs.create_dir_all("/a/b/c").is_ok()
    );
    same_state(&other, &fs);

    assert_eq!(block(put(&other, "/a/f", b"hello")), fs.write("/a/f", b"hello").is_ok());
    assert_eq!(block(put(&other, "/q/f", b"hello")), fs.write("/q/f", b"hello").is_ok());
    assert_eq!(block(put(&other, "/x", b"")), fs.write("/x", b"").is_ok());
    assert_eq!(block(put(&other, "/a/f", b"hi")), fs.write("/a/f", b"hi").is_ok());
    same_state(&other, &fs);

    assert_eq!(block(other.copy("/a/f", "/a/g")).ok(), fs.copy("/a/f", "/a/g").ok());
    assert_eq!(block(other.copy("/nothing", "/y")).ok(), fs.copy("/nothing", "/y").ok());
    assert_eq!(block(other.rename("/x", "/y")).is_ok(), fs.rename("/x", "/y").is_ok());
    assert_eq!(
        block(other.rename("/nothing", "/z")).is_ok(),
        fs.rename("/nothing", "/z").is_ok()
    );
    same_state(&other, &fs);

    assert_eq!(block(other.remove_dir("/a")).is_ok(), fs.remove_dir("/a").is_ok());
    assert_eq!(block(other.remove_file("/a")).is_ok(), fs.remove_file("/a").is_ok());
    assert_eq!(block(other.remove_file("/a/g")).is_ok(), fs.remove_file("/a/g").is_ok());
    assert_eq!(block(other.remove_dir("/a/b/c")).is_ok(), fs.remove_dir("/a/b/c").is_ok());
    assert_eq!(
        block(other.remove_file("/nothing")).is_ok(),
        fs.remove_file("/nothing").is_ok()
    );
    same_state(&other, &fs);

    assert_eq!(block(other.remove_dir_all("/a")).is_ok(), fs.remove_dir_all("/a").is_ok());
    same_state(&other, &fs);
}

#[test]
fn renaming_a_directory_agrees_with_rsfs() {
    let other = FS::new();
    let mut fs = MemFloppyDisk::new();
    assert_eq!(block(other.create_dir_all("/a/b/c")).is_ok(), fs.create_dir_all("/a/b/c").is_ok());
    assert_eq!(block(put(&other, "/a/f", b"one")), fs.write("/a/f", b"one").is_ok());
    assert_eq!(block(put(&other, "/a/g", b"two")), fs.write("/a/g", b"two").is_ok());
    same_state(&other, &fs);
    assert_eq!(block(other.rename("/a/b", "/x")).is_ok(), fs.rename("/a/b", "/x").is_ok());
    same_state(&other, &fs);
    for p in ["/x/c", "/a/b/c"] {
        assert_eq!(block(kind(&other, p)), kind_here(&fs, p), "metadata of {}", p);
    }
    assert_eq!(block(other.rename("/a", "/z")).is_ok(), fs.rename("/a", "/z").is_ok());
    same_state(&other, &fs);
    for p in ["/z/f", "/z/g", "/a/f"] {
        assert_eq!(block(kind(&other, p)), kind_here(&fs, p), "metadata of {}", p);
        assert_eq!(block(get(&other, p)), fs.read(p).ok(), "contents of {}", p);
    }
    assert_eq!(block(put(&other, "/z/f/g", b"x")), fs.write("/z/f/g", b"x").is_ok());
    assert_eq!(block(put(&other, "/z", b"x")), fs.write("/z", b"x").is_ok());
    same_state(&other, &fs);
}

#[test]
fn symlinks_agree_with_rsfs() {
    let other = FS::new();
    let mut fs = MemFloppyDisk::new();
    assert_eq!(block(put(&other, "/x", b"target")), fs.write("/x", b"target").is_ok());
    assert_eq!(block(other.symlink("/x", "/y")).is_ok(), fs.symlink("/x", "/y").is_ok());
    assert_eq!(block(other.symlink("/x", "/y")).is_ok(), fs.symlink("/x", "/y").is_ok());
    assert_eq!(
        block(other.read_link("/y")).ok().map(|p| p.to_string_lossy().into_owned()),
        fs.read_link("/y").ok()
    );
    assert_eq!(block(other.read_link("/x")).is_ok(), fs.read_link("/x").is_ok());
    assert_eq!(
        block(other.symlink_metadata("/y")).ok().map(|m| m.is_file()),
        fs.symlink_metadata("/y").ok().map(|m| m.is_file())
    );
    same_state(&other, &fs);
}
