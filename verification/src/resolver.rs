//! The path resolver: from a storage root, an authenticated identity and an
//! untrusted relative path to one path inside the identity's subtree.
//!
//! Resolution is lexical. It reads the three strings and nothing else: no
//! file is looked up and no link is followed, so what it accepts and what it
//! rejects can be read off the text of the request alone. By the same token
//! it does not see a link that lies inside the subtree and points out of
//! it; a caller who has to rule that out checks the opened file on top of
//! this, not instead of it.
use vstd::prelude::*;
use vstd::string::*;
use crate::error::FileError;
use crate::guarantees::{lemma_rejected_iff, lemma_staying_inside_is_resolved};
use crate::segments::{
    climbs_out, join, lemma_normalize_fails_for_good, lemma_split_extends, lemma_split_nonempty,
    normalize, split, step, SEPARATOR,
};
use crate::text::{push_char, push_chars};

verus! {

/// `root` with a separator at its end, unless it is empty or has one.
pub open spec fn as_directory(root: Seq<char>) -> Seq<char> {
    if root.len() == 0 || root.last() == SEPARATOR {
        root
    } else {
        root.push(SEPARATOR)
    }
}

/// The directory that holds everything `identity` owns: `root/identity`.
pub open spec fn subtree(root: Seq<char>, identity: Seq<char>) -> Seq<char> {
    as_directory(root) + identity
}

/// The path that `segments` lead to from the directory `base`:
/// `base/s1/../sn`, and `base` itself for no segments.
pub open spec fn below(base: Seq<char>, segments: Seq<Seq<char>>) -> Seq<char> {
    join(seq![base] + segments)
}

/// Whether `requested` is rejected before it is even walked: it is empty, or
/// it starts with a separator, which would make it an absolute path. A path
/// made of separators only is both.
pub open spec fn is_malformed(requested: Seq<char>) -> bool {
    requested.len() == 0 || requested[0] == SEPARATOR
}

/// The normal segments that `requested` comes down to, or `None` where it is
/// malformed or climbs above the directory it starts in.
pub open spec fn relative(requested: Seq<char>) -> Option<Seq<Seq<char>>> {
    if is_malformed(requested) {
        None
    } else {
        normalize(split(requested))
    }
}

/// What resolution yields: `root/identity/` followed by the normalized
/// request, or `None` where the request is rejected.
pub open spec fn resolution(root: Seq<char>, identity: Seq<char>, requested: Seq<char>) -> Option<
    Seq<char>,
> {
    match relative(requested) {
        None => None,
        Some(segments) => Some(below(subtree(root, identity), segments)),
    }
}

/// The contents of each vector, as sequences.
pub open spec fn views(segments: Seq<Vec<char>>) -> Seq<Seq<char>> {
    Seq::new(segments.len(), |i: int| segments[i]@)
}

/// Walks one segment: `kept` becomes what `step` makes of it. Returns
/// `false`, and leaves `kept` as it was, where the segment is `..` and
/// nothing is left to drop.
fn walk(kept: &mut Vec<Vec<char>>, segment: Vec<char>) -> (inside: bool)
    ensures
        inside ==> step(Some(views(old(kept)@)), segment@) == Some(views(final(kept)@)),
        !inside ==> step(Some(views(old(kept)@)), segment@) is None && *final(kept) == *old(kept),
{
    let n = segment.len();
    if n == 0 || (n == 1 && segment[0] == '.') {
        true
    } else if n == 2 && segment[0] == '.' && segment[1] == '.' {
        if kept.len() == 0 {
            false
        } else {
            kept.pop();
            assert(views(kept@) == views(old(kept)@).drop_last());
            true
        }
    } else {
        kept.push(segment);
        assert(views(kept@) == views(old(kept)@).push(segment@));
        true
    }
}

/// The normal segments of `requested`, in one pass over its characters.
/// Stops at the first segment that climbs out.
pub fn relative_segments(requested: &str) -> (r: Option<Vec<Vec<char>>>)
    ensures
        match r {
            Some(segments) => relative(requested@) == Some(views(segments@)),
            None => relative(requested@) is None,
        },
{
    let mut kept: Vec<Vec<char>> = Vec::new();
    let mut current: Vec<char> = Vec::new();
    let mut at_start = true;
    assert(views(kept@) == Seq::<Seq<char>>::empty());
    assert(requested@.take(0) == Seq::<char>::empty());
    for c in it: requested.chars()
        invariant
            it.seq() == requested@,
            at_start <==> it.index() == 0,
            !at_start ==> !is_malformed(requested@),
            normalize(split(requested@.take(it.index() as int)).drop_last()) == Some(views(kept@)),
            current@ == split(requested@.take(it.index() as int)).last(),
    {
        let ghost read = requested@.take(it.index() as int);
        let ghost more = requested@.take(it.index() + 1);
        proof {
            lemma_split_nonempty(read);
            assert(more.drop_last() == read);
            assert(more.last() == c);
        }
        if c == SEPARATOR {
            if at_start {
                return None;
            }
            let inside = walk(&mut kept, current);
            proof {
                assert(split(more).drop_last() == split(read));
                assert(normalize(split(read)) == step(
                    normalize(split(read).drop_last()),
                    split(read).last(),
                ));
            }
            if !inside {
                proof {
                    let rest = requested@.skip(it.index() + 1);
                    assert(more + rest == requested@);
                    lemma_split_extends(more, rest);
                    lemma_normalize_fails_for_good(split(requested@), split(more).len() - 1);
                }
                return None;
            }
            current = Vec::new();
        } else {
            current.push(c);
            proof {
                assert(split(more).drop_last() == split(read).drop_last());
            }
        }
        at_start = false;
    }
    assert(requested@.take(requested@.len() as int) == requested@);
    if at_start {
        return None;
    }
    proof {
        lemma_split_nonempty(requested@);
    }
    let inside = walk(&mut kept, current);
    if inside {
        Some(kept)
    } else {
        None
    }
}

/// Resolves `requested` for `identity` under `root`.
///
/// On success the path is `root/identity` followed by the segments that the
/// request comes down to once empty segments and `.` are dropped and each
/// `..` has taken back the segment before it. The request is rejected with
/// `InvalidPath`, and never clamped to something acceptable, where it is
/// empty, starts with a separator, or climbs above the identity's directory
/// at any point. No other error is possible.
pub fn resolve(root: &str, identity: &str, requested: &str) -> (r: Result<String, FileError>)
    ensures
        match r {
            Ok(path) => resolution(root@, identity@, requested@) == Some(path@),
            Err(error) => error == FileError::InvalidPath && resolution(
                root@,
                identity@,
                requested@,
            ) is None,
        },
        r is Err <==> is_malformed(requested@) || climbs_out(split(requested@)),
        r matches Ok(path) ==> subtree(root@, identity@).is_prefix_of(path@),
{
    proof {
        lemma_rejected_iff(root@, identity@, requested@);
        if !is_malformed(requested@) && !climbs_out(split(requested@)) {
            lemma_staying_inside_is_resolved(root@, identity@, requested@);
        }
    }
    match relative_segments(requested) {
        None => Err(FileError::InvalidPath),
        Some(segments) => Ok(path_below(root, identity, &segments)),
    }
}

/// Writes out the path that `segments` lead to from `identity`'s directory
/// under `root`.
pub fn path_below(root: &str, identity: &str, segments: &Vec<Vec<char>>) -> (path: String)
    ensures
        path@ == below(subtree(root@, identity@), views(segments@)),
{
    let mut path = String::new();
    let mut open_ended = false;
    assert(root@.take(0) == Seq::<char>::empty());
    for c in it: root.chars()
        invariant
            it.seq() == root@,
            path@ == root@.take(it.index() as int),
            open_ended <==> (it.index() > 0 && root@[it.index() - 1] != SEPARATOR),
    {
        push_char(&mut path, c);
        open_ended = c != SEPARATOR;
        assert(root@.take(it.index() + 1) == root@.take(it.index() as int).push(c));
    }
    assert(root@.take(root@.len() as int) == root@);
    if open_ended {
        push_char(&mut path, SEPARATOR);
    }
    assert(path@ == as_directory(root@));
    path.append(identity);
    let ghost base = subtree(root@, identity@);
    let mut i: usize = 0;
    assert(seq![base] + views(segments@).take(0) == seq![base]);
    while i < segments.len()
        invariant
            i <= segments.len(),
            base == subtree(root@, identity@),
            path@ == below(base, views(segments@).take(i as int)),
        decreases segments.len() - i,
    {
        let ghost done = seq![base] + views(segments@).take(i as int);
        let ghost next = seq![base] + views(segments@).take(i + 1);
        push_char(&mut path, SEPARATOR);
        push_chars(&mut path, &segments[i]);
        proof {
            assert(next.drop_last() == done);
            assert(next.last() == segments[i as int]@);
        }
        i = i + 1;
    }
    assert(views(segments@).take(i as int) == views(segments@));
    path
}

} // verus!
