use std::io::Write;

use archive_cache::cache::{ArchiveCache, NodeContents};
use archive_cache::errors::CacheError;
use archive_cache::fsres::{respond, should_convert, watch_rel, Fs, ReadOutcome, StatResult,
    StepAction, Walk};

fn make_zip(entries: &[(&str, &[u8])]) -> Vec<u8> {
    let mut writer = zip::ZipWriter::new(std::io::Cursor::new(Vec::new()));
    for (name, data) in entries {
        writer
            .start_file(name.to_string(), zip::write::SimpleFileOptions::default())
            .unwrap();
        writer.write_all(data).unwrap();
    }
    writer.finish().unwrap().into_inner()
}

#[test]
fn test_server() {}

#[test]
fn plain_file_is_served_directly() {
    let fs = Fs::new(&b"/srv/root".to_vec());
    let mut cache = ArchiveCache::new(1000, 10);

    let outcome = fs
        .read_start(&mut cache, &b"tests/data.txt".to_vec())
        .unwrap();
    let walk = match outcome {
        ReadOutcome::Walk(w) => w,
        ReadOutcome::Hit(_) => panic!("an empty cache cannot hit"),
    };

    assert_eq!(fs.fs_path(&walk), b"/srv/root/tests/data.txt".to_vec());

    let walk = match fs.on_stat(walk, StatResult::IsFile) {
        StepAction::ReadFileBytes(w) => w,
        _ => panic!("a file prefix asks for its bytes"),
    };

    let body = b"plain text contents".to_vec();
    match fs.on_file_bytes(&mut cache, &walk, body.clone()).unwrap() {
        NodeContents::File(b) => assert_eq!(b, body),
        NodeContents::Dir(_) => panic!("a non-archive file is served as bytes"),
    }
}

#[test]
fn archive_file_is_mounted_and_listed() {
    let fs = Fs::new(&b"/srv/root".to_vec());
    let mut cache = ArchiveCache::new(1000, 10);

    let outcome = fs
        .read_start(&mut cache, &b"tests/test.zip".to_vec())
        .unwrap();
    let walk = match outcome {
        ReadOutcome::Walk(w) => w,
        ReadOutcome::Hit(_) => panic!("an empty cache cannot hit"),
    };
    let walk = match fs.on_stat(walk, StatResult::IsFile) {
        StepAction::ReadFileBytes(w) => w,
        _ => panic!("a file prefix asks for its bytes"),
    };

    let zip_bytes = make_zip(&[
        ("under_root", b"hello under root"),
        ("dir/under_dir", b"under dir content"),
    ]);
    match fs.on_file_bytes(&mut cache, &walk, zip_bytes).unwrap() {
        NodeContents::Dir(names) => {
            assert!(names.contains(&b"under_root".to_vec()));
            assert!(names.contains(&b"dir".to_vec()));
        },
        NodeContents::File(_) => panic!("an archive mounts as a directory"),
    }

    // a second read of the same path now hits the cache
    match fs
        .read_start(&mut cache, &b"tests/test.zip".to_vec())
        .unwrap()
    {
        ReadOutcome::Hit(NodeContents::Dir(names)) => {
            assert!(names.contains(&b"under_root".to_vec()));
        },
        _ => panic!("the mounted listing is a cache hit"),
    }
}

#[test]
fn archive_member_resolves_through_the_walk() {
    let fs = Fs::new(&b"/srv/root".to_vec());
    let mut cache = ArchiveCache::new(1000, 10);

    let outcome = fs
        .read_start(&mut cache, &b"tests/test.zip/dir/under_dir".to_vec())
        .unwrap();
    let walk = match outcome {
        ReadOutcome::Walk(w) => w,
        ReadOutcome::Hit(_) => panic!("an empty cache cannot hit"),
    };

    // the full path does not exist on disk; two components pop
    let walk = match fs.on_stat(walk, StatResult::Missing) {
        StepAction::NextStat(w) => w,
        _ => panic!("a missing prefix pops a component"),
    };
    assert_eq!(fs.fs_path(&walk), b"/srv/root/tests/test.zip/dir".to_vec());
    let walk = match fs.on_stat(walk, StatResult::Missing) {
        StepAction::NextStat(w) => w,
        _ => panic!("a missing prefix pops a component"),
    };
    assert_eq!(fs.fs_path(&walk), b"/srv/root/tests/test.zip".to_vec());

    let walk = match fs.on_stat(walk, StatResult::IsFile) {
        StepAction::ReadFileBytes(w) => w,
        _ => panic!("a file prefix asks for its bytes"),
    };

    let zip_bytes = make_zip(&[
        ("under_root", b"hello under root"),
        ("dir/under_dir", b"under dir content"),
    ]);
    match fs.on_file_bytes(&mut cache, &walk, zip_bytes).unwrap() {
        NodeContents::File(b) => assert_eq!(b, b"under dir content".to_vec()),
        NodeContents::Dir(_) => panic!("a member read yields bytes"),
    }
}

#[test]
fn resolver_decision_table() {
    let fs = Fs::new(&b"/r".to_vec());
    let comps = vec![b"a".to_vec(), b"b".to_vec()];

    // a directory is only served when nothing was popped
    assert!(matches!(
        fs.on_stat(Walk { comps: comps.clone(), popped: 0 }, StatResult::IsDir),
        StepAction::ServeDir
    ));
    assert!(matches!(
        fs.on_stat(Walk { comps: comps.clone(), popped: 1 }, StatResult::IsDir),
        StepAction::Fail(CacheError::NotFound)
    ));

    // a missing prefix pops until the root itself was tried
    assert!(matches!(
        fs.on_stat(Walk { comps: comps.clone(), popped: 1 }, StatResult::Missing),
        StepAction::NextStat(_)
    ));
    assert!(matches!(
        fs.on_stat(Walk { comps: comps.clone(), popped: 2 }, StatResult::Missing),
        StepAction::Fail(CacheError::NotFound)
    ));
}

#[test]
fn suffix_under_plain_file_is_rejected() {
    let fs = Fs::new(&b"/r".to_vec());
    let mut cache = ArchiveCache::new(1000, 10);
    let walk = Walk { comps: vec![b"notes.txt".to_vec(), b"inner".to_vec()], popped: 1 };
    let r = fs.on_file_bytes(&mut cache, &walk, b"just text".to_vec());
    assert_eq!(r.unwrap_err(), CacheError::NotAnArchive);
}

#[test]
fn listings_render_one_name_per_line() {
    let contents = NodeContents::Dir(vec![b"alpha".to_vec(), b"beta".to_vec()]);
    let (body, mime) = respond(contents);
    assert_eq!(body, b"alpha\nbeta\n".to_vec());
    assert_eq!(mime, b"text/plain; charset=utf-8".to_vec());
}

#[test]
fn file_bodies_pass_through_respond() {
    let contents = NodeContents::File(b"raw bytes".to_vec());
    let (body, _mime) = respond(contents);
    assert_eq!(body, b"raw bytes".to_vec());
}

#[test]
fn image_conversion_thresholds() {
    assert_eq!(should_convert(&b"image/jpeg".to_vec(), 307200), Some(60));
    assert_eq!(should_convert(&b"image/png".to_vec(), 400000), Some(80));
    assert_eq!(should_convert(&b"image/jpeg".to_vec(), 1000), None);
    assert_eq!(should_convert(&b"image/gif".to_vec(), 400000), None);
    assert_eq!(should_convert(&b"text/plain".to_vec(), 400000), None);
}

#[test]
fn watcher_paths_strip_the_root() {
    assert_eq!(
        watch_rel(&b"/a/b".to_vec(), &b"/a/b/c/d".to_vec()),
        Some(b"c/d".to_vec())
    );
    assert_eq!(watch_rel(&b"/a/b".to_vec(), &b"/a/b".to_vec()), Some(Vec::new()));
    assert_eq!(watch_rel(&b"/a/b".to_vec(), &b"/a/bc".to_vec()), None);
    assert_eq!(watch_rel(&b"/a/b".to_vec(), &b"/x".to_vec()), None);
}
