//! End-to-end tests of the object engine against a real database file and
//! blob directory.

use yeetbox::engine as eng;
use yeetbox::engine::FsError;
use yeetbox::records::ObjectType;
use yeetbox::time64::Time64;

fn fresh(name: &str) -> eng::Engine {
    let db = format!("/tmp/yeetbox_test_{}.db", name);
    let blobs = format!("/tmp/yeetbox_test_{}_blobs", name);
    eng::Engine::create_fresh(&db, &blobs).expect("fresh engine")
}

fn path(parts: &[&str]) -> Vec<String> {
    parts.iter().map(|s| s.to_string()).collect()
}

fn now() -> Time64 {
    Time64::now()
}

fn upload_simple(
    e: &mut eng::Engine,
    p: &Vec<String>,
    data: &str,
    next: bool,
) -> Result<Option<Vec<u8>>, FsError> {
    e.upload(
        p,
        &data.as_bytes().to_vec(),
        100,
        100,
        None,
        false,
        next,
        &Vec::new(),
        now(),
    )
}

#[test]
fn make_directory_and_upload_then_download() {
    let mut e = fresh("scenario_a");
    e.make_directory(&path(&["foo"]), now()).expect("mkdir foo");
    upload_simple(&mut e, &path(&["foo", "bar.txt"]), "Hello, world!", false).expect("upload");
    let out = e.download(&path(&["foo", "bar.txt"]), None, 3, 5).expect("download");
    assert_eq!(out.data, b"lo, w".to_vec());
    assert!(!out.more);
}

#[test]
fn append_extends_and_keeps_history() {
    let mut e = fresh("scenario_b");
    e.make_directory(&path(&["foo"]), now()).expect("mkdir foo");
    upload_simple(&mut e, &path(&["foo", "bar.txt"]), "Hello, world!", false).expect("upload");
    e.append(
        &path(&["foo", "bar.txt"]),
        None,
        &b" I am going to bed.".to_vec(),
        now(),
    ).expect("append");
    let out = e.download(&path(&["foo", "bar.txt"]), None, 0, 64).expect("download all");
    assert_eq!(out.data, b"Hello, world! I am going to bed.".to_vec());
    assert!(!out.more);
    let v1 = e.download(&path(&["foo", "bar.txt"]), Some(1), 0, 64).expect("download v1");
    assert_eq!(v1.data, b"Hello, world!".to_vec());
}

#[test]
fn chunked_upload_with_continuation() {
    let mut e = fresh("scenario_c");
    e.make_directory(&path(&["a"]), now()).expect("mkdir a");
    let tok = e.upload(
        &path(&["a", "b"]),
        &b"Hello, ".to_vec(),
        0,
        0,
        None,
        true,
        false,
        &Vec::new(),
        now(),
    ).expect("stage chunk").expect("continuation expected");
    assert_eq!(tok.len(), 16);
    let done = e.upload(
        &path(&["a", "b"]),
        &b"world!".to_vec(),
        0,
        0,
        None,
        false,
        false,
        &tok,
        now(),
    ).expect("finalize");
    assert!(done.is_none());
    let out = e.download(&path(&["a", "b"]), None, 0, 64).expect("download");
    assert_eq!(out.data, b"Hello, world!".to_vec());
}

#[test]
fn overwrite_creates_version_two() {
    let mut e = fresh("scenario_d");
    e.make_directory(&path(&["foo"]), now()).expect("mkdir foo");
    upload_simple(&mut e, &path(&["foo", "bar.txt"]), "Hello, world!", false).expect("upload");
    let collide = upload_simple(&mut e, &path(&["foo", "bar.txt"]), "x", false);
    assert_eq!(collide, Err(FsError::AlreadyExists));
    upload_simple(&mut e, &path(&["foo", "bar.txt"]), "x", true).expect("overwrite");
    let latest = e.download(&path(&["foo", "bar.txt"]), None, 0, 64).expect("latest");
    assert_eq!(latest.data, b"x".to_vec());
    let v1 = e.download(&path(&["foo", "bar.txt"]), Some(1), 0, 64).expect("v1");
    assert_eq!(v1.data, b"Hello, world!".to_vec());
}

#[test]
fn list_shows_one_file_entry() {
    let mut e = fresh("scenario_e");
    e.make_directory(&path(&["foo"]), now()).expect("mkdir foo");
    upload_simple(&mut e, &path(&["foo", "bar.txt"]), "Hello, world!", false).expect("upload");
    let entries = e.list(&path(&["foo"]), true).expect("list");
    assert_eq!(entries.len(), 1);
    assert_eq!(entries[0].relative_name, b"bar.txt".to_vec());
    let attrs = entries[0].attrs.clone().expect("attrs asked for");
    assert_eq!(attrs.otype, Some(ObjectType::File));
    assert!(attrs.create_time.is_some());
}

#[test]
fn delete_removes_file_and_versions() {
    let mut e = fresh("scenario_f");
    e.make_directory(&path(&["foo"]), now()).expect("mkdir foo");
    upload_simple(&mut e, &path(&["foo", "bar.txt"]), "Hello, world!", false).expect("upload");
    e.append(&path(&["foo", "bar.txt"]), None, &b"!!".to_vec(), now()).expect("append");
    let shredded = e.delete(&path(&["foo", "bar.txt"]), None).expect("delete");
    assert!(!shredded);
    let gone = e.download(&path(&["foo", "bar.txt"]), None, 0, 8);
    assert_eq!(gone, Err(FsError::NoSuchFile));
    let entries = e.list(&path(&["foo"]), false).expect("list after delete");
    assert_eq!(entries.len(), 0);
}

#[test]
fn version_numbers_grow_by_one() {
    let mut e = fresh("versions_grow");
    e.make_directory(&path(&["d"]), now()).expect("mkdir");
    upload_simple(&mut e, &path(&["d", "f"]), "one", false).expect("v1");
    upload_simple(&mut e, &path(&["d", "f"]), "two", true).expect("v2");
    e.append(&path(&["d", "f"]), None, &b"+three".to_vec(), now()).expect("v3");
    assert_eq!(e.download(&path(&["d", "f"]), Some(1), 0, 64).expect("v1").data, b"one".to_vec());
    assert_eq!(e.download(&path(&["d", "f"]), Some(2), 0, 64).expect("v2").data, b"two".to_vec());
    assert_eq!(
        e.download(&path(&["d", "f"]), Some(3), 0, 64).expect("v3").data,
        b"two+three".to_vec()
    );
}

#[test]
fn names_are_normalized_and_display_form_kept() {
    let mut e = fresh("normalize");
    // the composed and decomposed spellings name the same folder
    let composed = "\u{00c5}";
    let decomposed = "A\u{030a}";
    e.make_directory(&path(&[composed]), now()).expect("mkdir composed");
    e.make_directory(&path(&[decomposed, "inner"]), now()).expect("mkdir via decomposed");
    let entries = e.list(&path(&[]), false).expect("list root");
    assert_eq!(entries.len(), 1);
    assert_eq!(entries[0].relative_name, composed.as_bytes().to_vec());
    let inner = e.list(&path(&[composed]), false).expect("list inner");
    assert_eq!(inner.len(), 1);
    assert_eq!(inner[0].relative_name, b"inner".to_vec());
}

#[test]
fn leaf_names_are_trimmed_on_create() {
    let mut e = fresh("trimming");
    e.make_directory(&path(&["  padded  "]), now()).expect("mkdir");
    let entries = e.list(&path(&[]), false).expect("list root");
    assert_eq!(entries.len(), 1);
    assert_eq!(entries[0].relative_name, b"padded".to_vec());
    // only creation trims, so the stored name is the trimmed one and a
    // lookup by that name succeeds
    let inner = e.list(&path(&["padded"]), false).expect("list trimmed name");
    assert_eq!(inner.len(), 0);
}

#[test]
fn listing_is_sorted_by_normalized_name() {
    let mut e = fresh("list_sorted");
    e.make_directory(&path(&["dir"]), now()).expect("mkdir");
    upload_simple(&mut e, &path(&["dir", "b"]), "2", false).expect("b");
    upload_simple(&mut e, &path(&["dir", "a"]), "1", false).expect("a");
    upload_simple(&mut e, &path(&["dir", "c"]), "3", false).expect("c");
    let entries = e.list(&path(&["dir"]), false).expect("list");
    let names: Vec<Vec<u8>> = entries.iter().map(|x| x.relative_name.clone()).collect();
    assert_eq!(names, vec![b"a".to_vec(), b"b".to_vec(), b"c".to_vec()]);
}

#[test]
fn retired_continuation_is_rejected() {
    let mut e = fresh("continuation_binding");
    e.make_directory(&path(&["a"]), now()).expect("mkdir");
    let tok = e.upload(
        &path(&["a", "one"]),
        &b"first".to_vec(),
        0,
        0,
        None,
        true,
        false,
        &Vec::new(),
        now(),
    ).expect("stage").expect("token");
    e.upload(&path(&["a", "one"]), &b"!".to_vec(), 0, 0, None, false, false, &tok, now()).expect(
        "finalize",
    );
    // the finalize renamed the staging blob away, so the token is
    // consumed: any further use of it is refused, and nothing is created
    let reuse = e.upload(
        &path(&["a", "two"]),
        &b"second".to_vec(),
        0,
        0,
        None,
        false,
        false,
        &tok,
        now(),
    );
    assert_eq!(reuse, Err(FsError::InvalidContinuation));
    assert_eq!(e.download(&path(&["a", "two"]), None, 0, 64), Err(FsError::NoSuchFile));
    let one = e.download(&path(&["a", "one"]), None, 0, 64).expect("download one");
    assert_eq!(one.data, b"first!".to_vec());
}

#[test]
fn never_issued_continuation_is_rejected() {
    let mut e = fresh("continuation_unknown");
    e.make_directory(&path(&["a"]), now()).expect("mkdir");
    // well-shaped, but no staging blob was ever created under it
    let tok = vec![9u8; 16];
    let r = e.upload(&path(&["a", "f"]), &b"x".to_vec(), 0, 0, None, false, false, &tok, now());
    assert_eq!(r, Err(FsError::InvalidContinuation));
    // an incomplete chunk is refused the same way
    let r2 = e.upload(&path(&["a", "f"]), &b"x".to_vec(), 0, 0, None, true, false, &tok, now());
    assert_eq!(r2, Err(FsError::InvalidContinuation));
}

#[test]
fn upload_over_folder_is_rejected() {
    let mut e = fresh("upload_over_folder");
    e.make_directory(&path(&["d"]), now()).expect("mkdir");
    e.make_directory(&path(&["d", "sub"]), now()).expect("mkdir sub");
    e.make_directory(&path(&["d", "sub", "inner"]), now()).expect("mkdir inner");
    // even with overwrite asked for, a folder's name stays taken: turning
    // it into a file would orphan its children
    let r = upload_simple(&mut e, &path(&["d", "sub"]), "bytes", true);
    assert_eq!(r, Err(FsError::AlreadyExists));
    let inner = e.list(&path(&["d", "sub"]), false).expect("children kept");
    assert_eq!(inner.len(), 1);
    assert_eq!(inner[0].relative_name, b"inner".to_vec());
}

#[test]
fn reopen_preserves_contents() {
    let db = "/tmp/yeetbox_test_reopen.db";
    let blobs = "/tmp/yeetbox_test_reopen_blobs";
    {
        let mut e = eng::Engine::create_fresh(db, blobs).expect("fresh engine");
        e.make_directory(&path(&["d"]), now()).expect("mkdir");
        upload_simple(&mut e, &path(&["d", "f"]), "persisted", false).expect("upload");
        e.append(&path(&["d", "f"]), None, &b" again".to_vec(), now()).expect("append");
    }
    let mut e2 = eng::Engine::open_existing(db, blobs).expect("reopen");
    let out = e2.download(&path(&["d", "f"]), None, 0, 64).expect("download after reopen");
    assert_eq!(out.data, b"persisted again".to_vec());
    let v1 = e2.download(&path(&["d", "f"]), Some(1), 0, 64).expect("v1 after reopen");
    assert_eq!(v1.data, b"persisted".to_vec());
    // new writes continue from the preserved state
    upload_simple(&mut e2, &path(&["d", "g"]), "more", false).expect("upload after reopen");
    let entries = e2.list(&path(&["d"]), false).expect("list");
    assert_eq!(entries.len(), 2);
}

#[test]
fn open_existing_accepts_an_empty_store() {
    let db = "/tmp/yeetbox_test_reopen_empty.db";
    let blobs = "/tmp/yeetbox_test_reopen_empty_blobs";
    {
        let _e = eng::Engine::create_fresh(db, blobs).expect("fresh engine");
    }
    let e = eng::Engine::open_existing(db, blobs).expect("reopen empty");
    let root = e.list(&path(&[]), false).expect("list root");
    assert_eq!(root.len(), 0);
}

#[test]
fn error_empty_path() {
    let mut e = fresh("err_empty_path");
    assert_eq!(e.make_directory(&path(&[]), now()), Err(FsError::EmptyPath));
    assert_eq!(e.download(&path(&[]), None, 0, 1), Err(FsError::EmptyPath));
    assert_eq!(e.delete(&path(&[]), None), Err(FsError::EmptyPath));
    assert_eq!(
        e.append(&path(&[]), None, &b"x".to_vec(), now()),
        Err(FsError::EmptyPath)
    );
}

#[test]
fn error_empty_name_after_trim() {
    let mut e = fresh("err_empty_name");
    assert_eq!(e.make_directory(&path(&["   "]), now()), Err(FsError::EmptyName));
}

#[test]
fn error_no_such_parent() {
    let mut e = fresh("err_no_parent");
    assert_eq!(
        e.make_directory(&path(&["missing", "x"]), now()),
        Err(FsError::NoSuchParentPath)
    );
}

#[test]
fn error_non_folder_in_path() {
    let mut e = fresh("err_non_folder");
    e.make_directory(&path(&["d"]), now()).expect("mkdir");
    upload_simple(&mut e, &path(&["d", "f"]), "data", false).expect("upload");
    assert_eq!(
        e.make_directory(&path(&["d", "f", "under"]), now()),
        Err(FsError::NonFolderInPath)
    );
    assert_eq!(e.list(&path(&["d", "f"]), false), Err(FsError::NonFolderInPath));
}

#[test]
fn error_no_such_file() {
    let mut e = fresh("err_no_file");
    e.make_directory(&path(&["d"]), now()).expect("mkdir");
    assert_eq!(e.download(&path(&["d", "nope"]), None, 0, 1), Err(FsError::NoSuchFile));
    assert_eq!(e.delete(&path(&["d", "nope"]), None), Err(FsError::NoSuchFile));
    assert_eq!(
        e.append(&path(&["d", "nope"]), None, &b"x".to_vec(), now()),
        Err(FsError::NoSuchFile)
    );
}

#[test]
fn error_not_readable() {
    let mut e = fresh("err_not_readable");
    e.make_directory(&path(&["d"]), now()).expect("mkdir");
    assert_eq!(e.download(&path(&["d"]), None, 0, 1), Err(FsError::NotReadable));
    assert_eq!(
        e.append(&path(&["d"]), None, &b"x".to_vec(), now()),
        Err(FsError::NotReadable)
    );
}

#[test]
fn error_not_latest_version() {
    let mut e = fresh("err_not_latest");
    e.make_directory(&path(&["d"]), now()).expect("mkdir");
    upload_simple(&mut e, &path(&["d", "f"]), "data", false).expect("upload");
    assert_eq!(
        e.append(&path(&["d", "f"]), Some(7), &b"x".to_vec(), now()),
        Err(FsError::NotLatestVersion)
    );
    assert_eq!(e.delete(&path(&["d", "f"]), Some(7)), Err(FsError::NotLatestVersion));
    e.delete(&path(&["d", "f"]), Some(1)).expect("delete with matching version");
}

#[test]
fn error_offset_beyond_eof() {
    let mut e = fresh("err_offset");
    e.make_directory(&path(&["d"]), now()).expect("mkdir");
    upload_simple(&mut e, &path(&["d", "f"]), "abc", false).expect("upload");
    assert_eq!(e.download(&path(&["d", "f"]), None, 4, 1), Err(FsError::OffsetBeyondEof));
    // an offset exactly at the end is fine and reads nothing
    let empty = e.download(&path(&["d", "f"]), None, 3, 1).expect("read at end");
    assert_eq!(empty.data.len(), 0);
}

#[test]
fn error_invalid_continuation() {
    let mut e = fresh("err_continuation");
    e.make_directory(&path(&["d"]), now()).expect("mkdir");
    let bad = vec![1u8, 2, 3];
    let r = e.upload(&path(&["d", "f"]), &b"x".to_vec(), 0, 0, None, false, false, &bad, now());
    assert_eq!(r, Err(FsError::InvalidContinuation));
}

#[test]
fn error_folder_not_empty() {
    let mut e = fresh("err_folder_not_empty");
    e.make_directory(&path(&["d"]), now()).expect("mkdir");
    upload_simple(&mut e, &path(&["d", "f"]), "x", false).expect("upload");
    assert_eq!(e.delete(&path(&["d"]), None), Err(FsError::FolderNotEmpty));
    e.delete(&path(&["d", "f"]), None).expect("delete child");
    e.delete(&path(&["d"]), None).expect("delete now-empty folder");
}

#[test]
fn error_already_exists_for_folders() {
    let mut e = fresh("err_exists");
    e.make_directory(&path(&["d"]), now()).expect("mkdir");
    assert_eq!(e.make_directory(&path(&["d"]), now()), Err(FsError::AlreadyExists));
}

#[test]
fn partial_download_windows() {
    let mut e = fresh("windows");
    e.make_directory(&path(&["d"]), now()).expect("mkdir");
    upload_simple(&mut e, &path(&["d", "f"]), "0123456789", false).expect("upload");
    let w = e.download(&path(&["d", "f"]), None, 2, 3).expect("window");
    assert_eq!(w.data, b"234".to_vec());
    let tail = e.download(&path(&["d", "f"]), None, 8, 100).expect("tail");
    assert_eq!(tail.data, b"89".to_vec());
    assert!(!tail.more);
}

#[test]
fn download_clipped_at_reply_cap() {
    let mut e = fresh("reply_cap");
    e.make_directory(&path(&["d"]), now()).expect("mkdir");
    let cap: usize = 8 * 1024 * 1024;
    let big = vec![7u8; cap + 5];
    e.upload(&path(&["d", "big"]), &big, 0, 0, None, false, false, &Vec::new(), now())
        .expect("upload big");
    let first = e.download(&path(&["d", "big"]), None, 0, (cap + 5) as u64).expect("window one");
    assert_eq!(first.data.len(), cap);
    assert!(first.more);
    let second = e.download(&path(&["d", "big"]), None, cap as u64, (cap + 5) as u64)
        .expect("window two");
    assert_eq!(second.data.len(), 5);
    assert!(!second.more);
}

#[test]
fn failed_finalize_commits_no_metadata() {
    let mut e = fresh("atomicity");
    // the staging write happens, but the walk to the parent fails, so the
    // tables must look untouched
    let r = e.upload(
        &path(&["nowhere", "f"]),
        &b"bytes".to_vec(),
        0,
        0,
        None,
        false,
        false,
        &Vec::new(),
        now(),
    );
    assert_eq!(r, Err(FsError::NoSuchParentPath));
    let root = e.list(&path(&[]), false).expect("list root");
    assert_eq!(root.len(), 0);
}

#[test]
fn append_after_chunked_upload() {
    let mut e = fresh("append_unknown_len");
    e.make_directory(&path(&["a"]), now()).expect("mkdir");
    let tok = e.upload(&path(&["a", "f"]), &b"AB".to_vec(), 0, 0, None, true, false, &Vec::new(), now())
        .expect("stage")
        .expect("token");
    e.upload(&path(&["a", "f"]), &b"CD".to_vec(), 0, 0, None, false, false, &tok, now())
        .expect("finalize");
    // the finalized version's length is the unknown sentinel, so the append
    // measures the blob file to record the new length
    e.append(&path(&["a", "f"]), None, &b"EF".to_vec(), now()).expect("append");
    let out = e.download(&path(&["a", "f"]), None, 0, 64).expect("download");
    assert_eq!(out.data, b"ABCDEF".to_vec());
}
