use bklog::error::InitError;
use bklog::glob::find_files;
use bklog::glob::find_name_start;
use bklog::glob::is_chunk_name;

fn paths(names: &[&str]) -> Vec<Vec<u8>> {
    names.iter().map(|name| name.as_bytes().to_vec()).collect()
}

#[test]
fn test_backlog_file_globbing() {
    let entries = paths(&[
        "/var/spool/queue.bkl.2",
        "/var/spool/other.bkl",
        "/var/spool/queue.bkl",
        "/var/spool/queue.bkl.10",
        "/var/spool/queue.bkl.x",
        "/var/spool/queue.bkl.",
        "/var/spool/queue.bklx",
        "/var/spool/queue.bk",
        "/var/spool/queue",
        "/var/spool/myqueue.bkl",
        "/var/spool/queue.bkl.1",
        "/var/spool/queue.bkl.1.2",
    ]);
    assert_eq!(
        find_files(b"/var/spool/queue.bkl", &entries),
        Ok(paths(&[
            "/var/spool/queue.bkl.2",
            "/var/spool/queue.bkl",
            "/var/spool/queue.bkl.10",
            "/var/spool/queue.bkl.1",
        ]))
    );
}

#[test]
fn no_chunk_in_the_directory() {
    let entries = paths(&["dir/a.bkl", "dir/b.txt"]);
    assert_eq!(find_files(b"dir/queue.bkl", &entries), Ok(vec![]));
    assert_eq!(find_files(b"dir/queue.bkl", &vec![]), Ok(vec![]));
}

#[test]
fn stem_is_taken_from_the_file_name_alone() {
    let entries = paths(&["queue.bkl", "elsewhere/queue.bkl.3", "queue.d/queue.bkl.3x"]);
    assert_eq!(
        find_files(b"some.dir/queue.dat", &entries),
        Ok(paths(&["queue.bkl", "elsewhere/queue.bkl.3"]))
    );
    let hidden = paths(&[".queue.bkl", "queue.bkl"]);
    assert_eq!(find_files(b".queue", &hidden), Ok(paths(&[".queue.bkl"])));
    let dotted = paths(&["a.b.bkl", "a.bkl"]);
    assert_eq!(find_files(b"a.b.c", &dotted), Ok(paths(&["a.b.bkl"])));
}

#[test]
fn path_without_a_file_name_has_no_stem() {
    for path in [&b""[..], b"dir/", b"/", b"..", b"dir/.."] {
        assert_eq!(
            find_files(path, &paths(&["queue.bkl"])),
            Err(InitError::NoStem { path: path.to_vec() })
        );
    }
}

#[test]
fn file_name_starts_behind_the_last_slash() {
    assert_eq!(find_name_start(b"a/b/c.bkl"), 4);
    assert_eq!(find_name_start(b"c.bkl"), 0);
    assert_eq!(find_name_start(b"a/"), 2);
    assert_eq!(find_name_start(b""), 0);
}

#[test]
fn chunk_names_carry_digits_only() {
    assert!(is_chunk_name(b"q.bkl", b"q.bkl"));
    assert!(is_chunk_name(b"q.bkl", b"q.bkl.0"));
    assert!(is_chunk_name(b"q.bkl", b"q.bkl.123"));
    assert!(!is_chunk_name(b"q.bkl", b"q.bkl."));
    assert!(!is_chunk_name(b"q.bkl", b"q.bkl.1a"));
    assert!(!is_chunk_name(b"q.bkl", b"q.bkl1"));
    assert!(!is_chunk_name(b"q.bkl", b"q.bk"));
    assert!(!is_chunk_name(b"q.bkl", b"r.bkl.1"));
}
