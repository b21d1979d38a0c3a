use chuangshi::fuse::FuseFileSystem;

#[test]
fn create_then_lookup() {
    let mut fs = FuseFileSystem::new();
    assert_eq!(fs.lookup(1, "a.txt"), None);
    assert_eq!(fs.create(1, "a.txt"), 1);
    assert_eq!(fs.lookup(1, "a.txt"), Some((2, 0)));
    fs.unlink(1, "a.txt");
    assert_eq!(fs.lookup(1, "a.txt"), None);
}

#[test]
fn write_and_read_by_inode() {
    let mut fs = FuseFileSystem::new();
    assert_eq!(fs.read(7, 0, 10), None);
    assert_eq!(fs.write(7, 2, b"abc"), 3);
    assert_eq!(fs.getattr(7), 5);
    assert_eq!(fs.read(7, 0, 10), Some(vec![0, 0, b'a', b'b', b'c']));
    assert_eq!(fs.write(7, 3, b"XYZ"), 3);
    assert_eq!(fs.read(7, 1, 3), Some(vec![0, b'a', b'X']));
    assert_eq!(fs.read(7, 9, 3), Some(vec![]));
    assert_eq!(fs.getattr(8), 0);
}

#[test]
fn inodes_count_up() {
    let mut fs = FuseFileSystem::new();
    assert_eq!(fs.next_inode(), 1);
    assert_eq!(fs.next_inode(), 2);
}
