use archive_cache::errors::CacheError;
use archive_cache::fsres::{check_request, percent_decode};
use archive_cache::paths::{join_may_empty, path_to_id, to_display_name};
use archive_cache::sniff::{extension_of, is_archive, FileOrMem};

#[test]
fn percent_decoding_unescapes_hex_pairs() {
    assert_eq!(
        percent_decode(&b"/..%2Fetc%2Fpasswd".to_vec()),
        b"/../etc/passwd".to_vec()
    );
    assert_eq!(percent_decode(&b"plain".to_vec()), b"plain".to_vec());
    assert_eq!(percent_decode(&b"a%20b".to_vec()), b"a b".to_vec());
    assert_eq!(percent_decode(&b"a%2fb".to_vec()), b"a/b".to_vec());
    // a stray or incomplete escape passes through unchanged
    assert_eq!(percent_decode(&b"100%".to_vec()), b"100%".to_vec());
    assert_eq!(percent_decode(&b"%zz".to_vec()), b"%zz".to_vec());
}

#[test]
fn escape_attempt_is_denied() {
    // `GET /..%2Fetc%2Fpasswd`: the adapter decodes and strips the leading
    // slash, and the check denies the climb past the root
    let decoded = percent_decode(&b"/..%2Fetc%2Fpasswd".to_vec());
    assert_eq!(decoded, b"/../etc/passwd".to_vec());
    let request = decoded[1..].to_vec();
    let r = check_request(&request);
    assert_eq!(r.unwrap_err(), CacheError::PermissionDenied);
}

#[test]
fn check_request_normalizes_and_rejects() {
    assert_eq!(
        check_request(&b"a/../../b".to_vec()).unwrap_err(),
        CacheError::PermissionDenied
    );
    assert_eq!(
        check_request(&b"/absolute".to_vec()).unwrap_err(),
        CacheError::NotFound
    );
    let ok = check_request(&b"a/./b//c/../d".to_vec()).unwrap();
    assert_eq!(ok, vec![b"a".to_vec(), b"b".to_vec(), b"d".to_vec()]);
    let empty = check_request(&b"".to_vec()).unwrap();
    assert_eq!(empty.len(), 0);
}

#[test]
fn node_identity_is_the_canonical_form() {
    assert_eq!(path_to_id(&b"a//b/./c".to_vec()), b"a/b/c".to_vec());
    assert_eq!(path_to_id(&b"a/b/c/".to_vec()), b"a/b/c".to_vec());
    assert_eq!(path_to_id(&b"".to_vec()), b"".to_vec());
    assert_eq!(
        path_to_id(&b"x/y".to_vec()),
        path_to_id(&b"./x//y/".to_vec())
    );
}

#[test]
fn join_may_empty_handles_empty_sides() {
    assert_eq!(
        join_may_empty(&b"".to_vec(), &b"x".to_vec()),
        b"x".to_vec()
    );
    assert_eq!(
        join_may_empty(&b"x".to_vec(), &b"".to_vec()),
        b"x".to_vec()
    );
    assert_eq!(
        join_may_empty(&b"a".to_vec(), &b"b/c".to_vec()),
        b"a/b/c".to_vec()
    );
}

#[test]
fn display_name_of_empty_is_marked() {
    assert_eq!(to_display_name(&b"".to_vec()), b"*EMPTY*".to_vec());
    assert_eq!(to_display_name(&b"name".to_vec()), b"name".to_vec());
}

#[test]
fn extensions_decide_archives() {
    assert_eq!(
        extension_of(&b"a/b/file.zip".to_vec()),
        Some(b"zip".to_vec())
    );
    assert_eq!(extension_of(&b"noext".to_vec()), None);
    assert_eq!(extension_of(&b".hidden".to_vec()), None);
    assert_eq!(extension_of(&b"a.tar.cbz".to_vec()), Some(b"cbz".to_vec()));

    let unused = FileOrMem::Path(b"whatever".to_vec());
    assert!(is_archive(&b"x.zip".to_vec(), &unused));
    assert!(is_archive(&b"x.cbz".to_vec(), &unused));
    assert!(is_archive(&b"x.rar".to_vec(), &unused));
    assert!(is_archive(&b"x.cbr".to_vec(), &unused));
    assert!(is_archive(&b"x.tar".to_vec(), &unused));
    assert!(is_archive(&b"x.7z".to_vec(), &unused));
    assert!(!is_archive(&b"x.txt".to_vec(), &unused));
    assert!(!is_archive(&b"x.zipp".to_vec(), &unused));
}

#[test]
fn test_can() {
    let canonicalized = check_request(&b"../../".to_vec());
    println!("{:?}", canonicalized);
}

#[test]
fn archive_bytes_without_extension_are_sniffed() {
    let mut writer = zip::ZipWriter::new(std::io::Cursor::new(Vec::new()));
    writer
        .start_file("entry", zip::write::SimpleFileOptions::default())
        .unwrap();
    std::io::Write::write_all(&mut writer, b"payload").unwrap();
    let bytes = writer.finish().unwrap().into_inner();

    assert!(is_archive(&b"noext".to_vec(), &FileOrMem::Mem(bytes.clone())));
    assert!(!is_archive(
        &b"noext".to_vec(),
        &FileOrMem::Mem(b"just some plain text".to_vec())
    ));
}
