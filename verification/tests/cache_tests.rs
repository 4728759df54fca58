use std::io::Write;

use archive_cache::cache::{virtual_root_path, ArchiveCache, NodeContents};
use archive_cache::errors::CacheError;

fn make_zip(entries: &[(&str, &[u8])]) -> Vec<u8> {
    let mut writer = zip::ZipWriter::new(std::io::Cursor::new(Vec::new()));
    for (name, data) in entries {
        writer
            .start_file(name.to_string(), zip::write::SimpleFileOptions::default())
            .unwrap();
        writer.write_all(data).unwrap();
    }
    writer.finish().unwrap().into_inner()
}

fn test_zip() -> Vec<u8> {
    make_zip(&[
        ("under_root", b"hello under root"),
        ("dir/under_dir", b"under dir content"),
    ])
}

fn nested_zip() -> Vec<u8> {
    let inner = test_zip();
    make_zip(&[("test.zip", &inner)])
}

fn dir_names(contents: NodeContents) -> Vec<Vec<u8>> {
    match contents {
        NodeContents::Dir(ns) => ns,
        NodeContents::File(_) => panic!("expected a directory listing"),
    }
}

#[test]
fn test_only_archive_under_root() {
    let d = nested_zip();

    let mut ac = ArchiveCache::new(1000, 10);

    assert!(ac.quick_try(&virtual_root_path()).is_some());

    let virtual_path = b"test/test.zip".to_vec();

    assert!(ac.set_archive(&virtual_path, &d).is_ok());

    let children = dir_names(ac.quick_try(&virtual_root_path()).unwrap());

    assert_eq!(children.len(), 1);
    assert_eq!(children[0], virtual_path);
}

#[test]
fn test_nested() {
    let d = nested_zip();

    let mut ac = ArchiveCache::new(1000, 10);

    assert!(ac.quick_try(&virtual_root_path()).is_some());

    let virtual_path = b"tek".to_vec();

    match ac.set_archive(&virtual_path, &d).unwrap() {
        NodeContents::File(_) => {
            assert!(false);
        },
        NodeContents::Dir(dir) => {
            assert!(dir.contains(&b"test.zip".to_vec()));
        },
    }

    ac.recursive_try(&virtual_path, &b"test.zip".to_vec()).unwrap();

    ac.recursive_try(&b"tek/test.zip".to_vec(), &b"under_root".to_vec())
        .unwrap();

    assert!(ac.quick_try(&b"tek/test.zip".to_vec()).is_some());
    assert!(ac.quick_try(&b"tek/test.zip/under_root".to_vec()).is_some());
}

#[test]
fn test_read() {
    let d = test_zip();

    let paths: Vec<&str> = vec!["ak", "test/test-6.6.1-0.1.31.zip", ""];

    for p in paths {
        let mut tree = ArchiveCache::new(0, 10);

        assert!(tree.quick_try(&virtual_root_path()).is_some());

        let vp = p.as_bytes().to_vec();

        match tree.set_archive(&vp, &d).unwrap() {
            NodeContents::File(_) => {
                assert!(false);
            },
            NodeContents::Dir(dir) => {
                assert!(dir.contains(&b"dir".to_vec()));
                assert!(dir.contains(&b"under_root".to_vec()));
            },
        }

        match tree.quick_try(&vp).unwrap() {
            NodeContents::File(_) => {
                assert!(false);
            },
            NodeContents::Dir(dir) => {
                assert!(dir.contains(&b"dir".to_vec()));
                assert!(dir.contains(&b"under_root".to_vec()));
            },
        }

        tree.recursive_try(&vp, &b"under_root".to_vec()).unwrap();

        tree.recursive_try(&vp, &b"dir/under_dir".to_vec()).unwrap();

        assert!(tree.recursive_try(&vp, &b"not_exists".to_vec()).is_err());
        assert!(tree.recursive_try(&vp, &b"dir/not_exists".to_vec()).is_err());
        assert!(tree
            .recursive_try(&vp, &b"no_exists_dir/not_exists".to_vec())
            .is_err());
    }
}

#[test]
fn set_archive_is_idempotent() {
    let d = test_zip();
    let mut ac = ArchiveCache::new(1000, 10);
    let vp = b"tests/test.zip".to_vec();

    let mut first = dir_names(ac.set_archive(&vp, &d).unwrap());

    // the second call returns the existing listing without opening the
    // source again: even unreadable bytes do
    let garbage = b"this is not an archive at all".to_vec();
    let mut second = dir_names(ac.set_archive(&vp, &garbage).unwrap());

    first.sort();
    second.sort();
    assert_eq!(first, second);
}

#[test]
fn set_archive_rejects_garbage() {
    let mut ac = ArchiveCache::new(1000, 10);
    let garbage = b"this is not an archive at all".to_vec();
    let r = ac.set_archive(&b"bad.zip".to_vec(), &garbage);
    assert_eq!(r.unwrap_err(), CacheError::DecodeError);
}

#[test]
fn listing_names_are_exactly_the_discovered_names() {
    let d = test_zip();
    let mut ac = ArchiveCache::new(1000, 10);
    let names = dir_names(ac.set_archive(&b"mnt".to_vec(), &d).unwrap());
    assert_eq!(names.len(), 2);
    assert!(names.contains(&b"under_root".to_vec()));
    assert!(names.contains(&b"dir".to_vec()));
}

#[test]
fn archive_member_bytes_come_back() {
    let d = test_zip();
    let mut ac = ArchiveCache::new(1000, 10);
    let vp = b"tests/test.zip".to_vec();
    ac.set_archive(&vp, &d).unwrap();

    match ac.slow_try(&b"tests/test.zip/under_root".to_vec()).unwrap() {
        NodeContents::File(b) => {
            assert_eq!(b, b"hello under root".to_vec());
        },
        NodeContents::Dir(_) => {
            assert!(false);
        },
    }
}

#[test]
fn nested_archive_member_bytes_come_back() {
    let d = nested_zip();
    let mut ac = ArchiveCache::new(100000, 10);
    let vp = b"tests/nested.zip".to_vec();
    ac.set_archive(&vp, &d).unwrap();

    match ac
        .slow_try(&b"tests/nested.zip/test.zip/dir/under_dir".to_vec())
        .unwrap()
    {
        NodeContents::File(b) => {
            assert_eq!(b, b"under dir content".to_vec());
        },
        NodeContents::Dir(_) => {
            assert!(false);
        },
    }
}

#[test]
fn missing_member_is_not_found() {
    let d = test_zip();
    let mut ac = ArchiveCache::new(1000, 10);
    let vp = b"tests/test.zip".to_vec();
    ac.set_archive(&vp, &d).unwrap();

    let r = ac.slow_try(&b"tests/test.zip/not_exists".to_vec());
    assert_eq!(r.unwrap_err(), CacheError::NotFound);
}

#[test]
fn leaf_with_descendants_is_not_an_archive() {
    let d = test_zip();
    let mut ac = ArchiveCache::new(1000, 10);
    let vp = b"m".to_vec();
    ac.set_archive(&vp, &d).unwrap();

    let r = ac.recursive_try(&vp, &b"under_root/deeper".to_vec());
    assert_eq!(r.unwrap_err(), CacheError::NotAnArchive);
}

#[test]
fn directory_node_conflicts_with_nested_descent() {
    let d = test_zip();
    let mut ac = ArchiveCache::new(1000, 10);
    let vp = b"m".to_vec();
    ac.set_archive(&vp, &d).unwrap();

    let r = ac.recursive_try(&vp, &b"dir/not_exists".to_vec());
    assert_eq!(r.unwrap_err(), CacheError::NestedArchiveConflict);
}

#[test]
fn no_matching_mount_is_not_found() {
    let d = test_zip();
    let mut ac = ArchiveCache::new(1000, 10);
    ac.set_archive(&b"somewhere/else.zip".to_vec(), &d).unwrap();

    let r = ac.slow_try(&b"unrelated/path".to_vec());
    assert_eq!(r.unwrap_err(), CacheError::NotFound);
}

#[test]
fn invalidate_removes_everything_under_the_prefix() {
    let d = test_zip();
    let mut ac = ArchiveCache::new(1000, 10);
    let vp = b"tests/test.zip".to_vec();
    ac.set_archive(&vp, &d).unwrap();
    ac.slow_try(&b"tests/test.zip/under_root".to_vec()).unwrap();

    assert!(ac.quick_try(&vp).is_some());
    assert!(ac.quick_try(&b"tests/test.zip/under_root".to_vec()).is_some());

    ac.invalid_path(&b"tests".to_vec());

    assert!(ac.quick_try(&vp).is_none());
    assert!(ac.quick_try(&b"tests/test.zip/under_root".to_vec()).is_none());
    assert!(ac.quick_try(&b"tests/test.zip/dir".to_vec()).is_none());

    let mounts = dir_names(ac.quick_try(&virtual_root_path()).unwrap());
    assert_eq!(mounts.len(), 0);

    // a fresh mount works again after invalidation
    assert!(ac.set_archive(&vp, &d).is_ok());
    assert!(ac.slow_try(&b"tests/test.zip/under_root".to_vec()).is_ok());
}

#[test]
fn evicted_reader_reports_io_error() {
    let d = test_zip();
    let mut ac = ArchiveCache::new(100000, 1);
    ac.set_archive(&b"a.zip".to_vec(), &d).unwrap();
    // the handle budget is one: mounting a second archive drops the first reader
    ac.set_archive(&b"b.zip".to_vec(), &d).unwrap();

    // the listing is still served from the directory index
    assert!(ac.quick_try(&b"a.zip".to_vec()).is_some());

    // but a descent that needs the evicted reader fails
    let r = ac.slow_try(&b"a.zip/under_root".to_vec());
    assert_eq!(r.unwrap_err(), CacheError::IoError);
}

#[test]
fn quick_try_is_stable_across_repeated_reads() {
    let d = test_zip();
    let mut ac = ArchiveCache::new(1000, 10);
    let vp = b"x.zip".to_vec();
    ac.set_archive(&vp, &d).unwrap();
    ac.slow_try(&b"x.zip/under_root".to_vec()).unwrap();

    let first = ac.quick_try(&b"x.zip/under_root".to_vec()).unwrap();
    let second = ac.quick_try(&b"x.zip/under_root".to_vec()).unwrap();
    match (first, second) {
        (NodeContents::File(a), NodeContents::File(b)) => assert_eq!(a, b),
        _ => assert!(false),
    }
}

#[test]
fn recursive_walk_renders_the_tree() {
    let d = test_zip();
    let mut ac = ArchiveCache::new(1000, 10);
    ac.set_archive(&b"m.zip".to_vec(), &d).unwrap();
    let sketch = ac.recursive_walk();
    let text = String::from_utf8(sketch).unwrap();
    assert!(text.contains("m.zip"));
    assert!(text.contains("under_root"));
}

#[test]
fn invalidate_with_empty_prefix_clears_all_mounts() {
    let d = test_zip();
    let mut ac = ArchiveCache::new(1000, 10);
    ac.set_archive(&b"one.zip".to_vec(), &d).unwrap();
    ac.set_archive(&b"two.zip".to_vec(), &d).unwrap();

    ac.invalid_path(&b"".to_vec());

    assert!(ac.quick_try(&b"one.zip".to_vec()).is_none());
    assert!(ac.quick_try(&b"two.zip".to_vec()).is_none());
    // the virtual root itself survives every invalidation
    let mounts = dir_names(ac.quick_try(&virtual_root_path()).unwrap());
    assert_eq!(mounts.len(), 0);
}
