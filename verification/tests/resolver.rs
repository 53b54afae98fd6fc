use file_serve::error::FileError;
use file_serve::resolver::{path_below, relative_segments, resolve};

fn ok(path: &str) -> Result<String, FileError> {
    Ok(path.to_string())
}

fn segments(names: &[&str]) -> Vec<Vec<char>> {
    names.iter().map(|name| name.chars().collect()).collect()
}

#[test]
fn resolves_a_plain_path_below_the_identity() {
    assert_eq!(resolve("root", "alice", "docs/report.pdf"), ok("root/alice/docs/report.pdf"));
}

#[test]
fn resolves_a_single_file_name() {
    assert_eq!(resolve("/srv/files", "alice", "f.txt"), ok("/srv/files/alice/f.txt"));
}

#[test]
fn rejects_a_path_that_climbs_out() {
    assert_eq!(resolve("root", "alice", "../../etc/passwd"), Err(FileError::InvalidPath));
}

#[test]
fn rejects_a_single_parent_segment() {
    assert_eq!(resolve("root", "alice", ".."), Err(FileError::InvalidPath));
    assert_eq!(resolve("root", "alice", "../alice/f.txt"), Err(FileError::InvalidPath));
}

#[test]
fn rejects_a_climb_after_going_down() {
    assert_eq!(resolve("root", "alice", "a/../../b"), Err(FileError::InvalidPath));
    assert_eq!(resolve("root", "alice", "a/b/../../.."), Err(FileError::InvalidPath));
}

#[test]
fn rejects_a_climb_even_if_it_would_come_back() {
    assert_eq!(resolve("root", "alice", "../alice/notes.txt"), Err(FileError::InvalidPath));
    assert_eq!(resolve("root", "alice", "a/../../alice/a"), Err(FileError::InvalidPath));
}

#[test]
fn rejects_a_climb_into_another_subtree() {
    assert_eq!(resolve("root", "alice", "../bob/secret.txt"), Err(FileError::InvalidPath));
}

#[test]
fn rejects_a_climb_at_the_very_end() {
    assert_eq!(resolve("root", "alice", "a/../.."), Err(FileError::InvalidPath));
}

#[test]
fn normalizes_redundant_segments_before_the_check() {
    assert_eq!(resolve("root", "identity", "a/./b/../c"), ok("root/identity/a/c"));
}

#[test]
fn drops_empty_segments() {
    assert_eq!(resolve("root", "alice", "a//b"), ok("root/alice/a/b"));
    assert_eq!(resolve("root", "alice", "a/b/"), ok("root/alice/a/b"));
    assert_eq!(resolve("root", "alice", "a///b//"), ok("root/alice/a/b"));
}

#[test]
fn drops_current_directory_segments() {
    assert_eq!(resolve("root", "alice", "./a"), ok("root/alice/a"));
    assert_eq!(resolve("root", "alice", "a/."), ok("root/alice/a"));
    assert_eq!(resolve("root", "alice", "././a/./."), ok("root/alice/a"));
}

#[test]
fn parent_segment_takes_back_the_segment_before_it() {
    assert_eq!(resolve("root", "alice", "a/b/../c/../d"), ok("root/alice/a/d"));
    assert_eq!(resolve("root", "alice", "a/b/c/../../d"), ok("root/alice/a/d"));
}

#[test]
fn a_path_that_comes_back_to_the_start_is_the_subtree_itself() {
    assert_eq!(resolve("root", "alice", "a/.."), ok("root/alice"));
    assert_eq!(resolve("root", "alice", "."), ok("root/alice"));
    assert_eq!(resolve("root", "alice", "a/b/../.."), ok("root/alice"));
}

#[test]
fn rejects_an_empty_path() {
    assert_eq!(resolve("root", "alice", ""), Err(FileError::InvalidPath));
}

#[test]
fn rejects_a_path_of_separators_only() {
    assert_eq!(resolve("root", "alice", "/"), Err(FileError::InvalidPath));
    assert_eq!(resolve("root", "alice", "//"), Err(FileError::InvalidPath));
    assert_eq!(resolve("root", "alice", "/////"), Err(FileError::InvalidPath));
}

#[test]
fn rejects_an_absolute_path() {
    assert_eq!(resolve("root", "alice", "/etc/passwd"), Err(FileError::InvalidPath));
    assert_eq!(resolve("root", "alice", "/f.txt"), Err(FileError::InvalidPath));
    assert_eq!(resolve("root", "alice", "//f.txt"), Err(FileError::InvalidPath));
}

#[test]
fn different_identities_resolve_to_different_paths() {
    let alice = resolve("root", "alice", "f.txt");
    let bob = resolve("root", "bob", "f.txt");
    assert_eq!(alice, ok("root/alice/f.txt"));
    assert_eq!(bob, ok("root/bob/f.txt"));
    assert_ne!(alice, bob);
}

#[test]
fn identities_that_share_a_prefix_stay_apart() {
    assert_ne!(resolve("root", "al", "ice/f.txt"), resolve("root", "alice", "ice/f.txt"));
    assert_eq!(resolve("root", "al", "ice/f.txt"), ok("root/al/ice/f.txt"));
    assert_eq!(resolve("root", "alice", "f.txt"), ok("root/alice/f.txt"));
}

#[test]
fn acceptance_does_not_depend_on_the_identity() {
    for requested in ["", "/", "..", "a/../..", "a", "a/..", "x/./y"] {
        assert_eq!(
            resolve("root", "alice", requested).is_ok(),
            resolve("other", "bob", requested).is_ok()
        );
    }
}

#[test]
fn root_with_a_trailing_separator_gets_no_second_one() {
    assert_eq!(resolve("/srv/", "alice", "f.txt"), ok("/srv/alice/f.txt"));
    assert_eq!(resolve("/", "alice", "f.txt"), ok("/alice/f.txt"));
}

#[test]
fn empty_root_gives_a_relative_path() {
    assert_eq!(resolve("", "alice", "f.txt"), ok("alice/f.txt"));
}

#[test]
fn names_that_only_look_like_dots_are_kept() {
    assert_eq!(resolve("root", "alice", "..."), ok("root/alice/..."));
    assert_eq!(resolve("root", "alice", "..a/b.."), ok("root/alice/..a/b.."));
    assert_eq!(resolve("root", "alice", ".hidden"), ok("root/alice/.hidden"));
    assert_eq!(resolve("root", "alice", ". /.. "), ok("root/alice/. /.. "));
}

#[test]
fn encoded_separators_are_ordinary_characters() {
    assert_eq!(resolve("root", "alice", "%2e%2e%2fetc"), ok("root/alice/%2e%2e%2fetc"));
    assert_eq!(resolve("root", "alice", "a%2f..%2f..%2fb"), ok("root/alice/a%2f..%2f..%2fb"));
}

#[test]
fn backslash_is_no_separator() {
    assert_eq!(resolve("root", "alice", "..\\..\\etc"), ok("root/alice/..\\..\\etc"));
}

#[test]
fn characters_outside_ascii_pass_through() {
    assert_eq!(resolve("root", "zoë", "été/日本語.txt"), ok("root/zoë/été/日本語.txt"));
    assert_eq!(resolve("röot", "alice", "a/../ü"), ok("röot/alice/ü"));
}

#[test]
fn resolved_path_starts_with_the_subtree() {
    for requested in ["a", "a/b/c", "x/../y", "./z", "deep/er/../../and/back"] {
        let path = resolve("/data", "carol", requested).unwrap();
        assert!(path.starts_with("/data/carol/"), "{}", path);
        assert!(!path.split('/').any(|segment| segment == ".." || segment == "."));
    }
}

#[test]
fn relative_segments_keeps_only_normal_segments() {
    assert_eq!(relative_segments("a/./b/../c"), Some(segments(&["a", "c"])));
    assert_eq!(relative_segments("docs/report.pdf"), Some(segments(&["docs", "report.pdf"])));
    assert_eq!(relative_segments("a/.."), Some(segments(&[])));
    assert_eq!(relative_segments("a//b/"), Some(segments(&["a", "b"])));
}

#[test]
fn relative_segments_rejects_what_resolve_rejects() {
    assert_eq!(relative_segments(""), None);
    assert_eq!(relative_segments("/"), None);
    assert_eq!(relative_segments("/a"), None);
    assert_eq!(relative_segments(".."), None);
    assert_eq!(relative_segments("a/../.."), None);
    assert_eq!(relative_segments("a/../../b/c"), None);
}

#[test]
fn path_below_joins_with_single_separators() {
    assert_eq!(path_below("root", "alice", &segments(&["a", "b"])), "root/alice/a/b");
    assert_eq!(path_below("root", "alice", &segments(&[])), "root/alice");
    assert_eq!(path_below("root/", "alice", &segments(&["x"])), "root/alice/x");
    assert_eq!(path_below("", "alice", &segments(&["x"])), "alice/x");
}

#[test]
fn redundant_segments_change_nothing() {
    let plain = resolve("root", "alice", "a/b");
    assert_eq!(plain, ok("root/alice/a/b"));
    for requested in ["a/./b", "a//b", "./a/b", "a/b/.", "a/b/", "a/.//./b//"] {
        assert_eq!(resolve("root", "alice", requested), plain);
    }
}

#[test]
fn a_parent_segment_and_the_segment_before_it_change_nothing() {
    let plain = resolve("root", "alice", "a/b");
    for requested in ["x/../a/b", "a/x/../b", "a/b/x/..", "a/x/y/../../b", "a/../a/b"] {
        assert_eq!(resolve("root", "alice", requested), plain);
    }
}

#[test]
fn the_normal_form_of_a_request_resolves_alike() {
    assert_eq!(resolve("root", "alice", "a/c"), resolve("root", "alice", "a/./b/../c"));
    assert_eq!(relative_segments("a/c"), relative_segments("a/./b/../c"));
    assert_eq!(relative_segments("a/c"), Some(segments(&["a", "c"])));
}

#[test]
fn an_absolute_root_gives_an_absolute_path() {
    for requested in ["a", "a/..", "x/y/z", "./q"] {
        assert!(resolve("/var/files", "alice", requested).unwrap().starts_with('/'));
    }
}

#[test]
fn subtrees_of_different_identities_share_no_path() {
    let requests = ["f.txt", "a/b", "bob/f.txt", "alice/f.txt", "a/..", "x/../bob"];
    for first in requests {
        for second in requests {
            let alice = resolve("root", "alice", first).unwrap();
            let bob = resolve("root", "bob", second).unwrap();
            assert_ne!(alice, bob);
            assert!(alice == "root/alice" || alice.starts_with("root/alice/"));
            assert!(bob == "root/bob" || bob.starts_with("root/bob/"));
        }
    }
}

#[test]
fn rejection_is_exactly_malformed_or_climbing() {
    let rejected = ["", "/", "//", "/a", "..", "../a", "a/../..", "./..", "a/b/../../../c"];
    let accepted = ["a", ".", "a/..", "a/b/../..", "..a", "a/..b/c", "a/b/../../c"];
    for requested in rejected {
        assert_eq!(resolve("root", "alice", requested), Err(FileError::InvalidPath));
    }
    for requested in accepted {
        assert!(resolve("root", "alice", requested).is_ok(), "{}", requested);
    }
}
