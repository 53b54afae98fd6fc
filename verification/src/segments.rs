//! Paths as sequences of segments: splitting at separators, joining, and
//! lexical normalization.
//!
//! Everything here is mathematics on `Seq<char>`; the executable code that
//! computes these functions is in the resolver.
use vstd::prelude::*;

verus! {

/// The character that separates the segments of a path.
pub const SEPARATOR: char = '/';

/// The segments of `s`: the stretches between its separators, empty ones
/// included. A string without separators is one segment, so the result is
/// never empty, and `n` separators give `n + 1` segments.
pub open spec fn split(s: Seq<char>) -> Seq<Seq<char>>
    decreases s.len(),
{
    if s.len() == 0 {
        seq![Seq::<char>::empty()]
    } else {
        let before = split(s.drop_last());
        if s.last() == SEPARATOR {
            before.push(Seq::<char>::empty())
        } else {
            before.drop_last().push(before.last().push(s.last()))
        }
    }
}

/// The segments written out with one separator between neighbours.
pub open spec fn join(segments: Seq<Seq<char>>) -> Seq<char>
    decreases segments.len(),
{
    if segments.len() == 0 {
        Seq::<char>::empty()
    } else if segments.len() == 1 {
        segments[0]
    } else {
        join(segments.drop_last()).push(SEPARATOR) + segments.last()
    }
}

/// Whether `segment` holds no separator.
pub open spec fn is_plain(segment: Seq<char>) -> bool {
    forall|i: int| 0 <= i < segment.len() ==> segment[i] != SEPARATOR
}

/// Whether every one of `segments` holds no separator.
pub open spec fn all_plain(segments: Seq<Seq<char>>) -> bool {
    forall|i: int| 0 <= i < segments.len() ==> is_plain(#[trigger] segments[i])
}

/// The segment `.`, which names the directory it stands in.
pub open spec fn is_current(segment: Seq<char>) -> bool {
    segment.len() == 1 && segment[0] == '.'
}

/// The segment `..`, which names the directory above.
pub open spec fn is_parent(segment: Seq<char>) -> bool {
    segment.len() == 2 && segment[0] == '.' && segment[1] == '.'
}

/// A segment that names nothing new: the empty one, left by a doubled or a
/// trailing separator, and `.`.
pub open spec fn is_redundant(segment: Seq<char>) -> bool {
    segment.len() == 0 || is_current(segment)
}

/// A segment that names an entry of a directory: not empty, not `.`, not `..`.
pub open spec fn is_normal(segment: Seq<char>) -> bool {
    !is_redundant(segment) && !is_parent(segment)
}

/// Whether every one of `segments` is normal.
pub open spec fn all_normal(segments: Seq<Seq<char>>) -> bool {
    forall|i: int| 0 <= i < segments.len() ==> is_normal(#[trigger] segments[i])
}

/// One step of normalization. `kept` holds the normal segments that lead
/// from the starting directory to where the walk stands, or `None` once the
/// walk has left the starting directory. A redundant segment changes
/// nothing, `..` drops the last kept segment and fails if there is none,
/// any other segment is kept.
pub open spec fn step(kept: Option<Seq<Seq<char>>>, segment: Seq<char>) -> Option<Seq<Seq<char>>> {
    match kept {
        None => None,
        Some(kept) => {
            if is_redundant(segment) {
                Some(kept)
            } else if is_parent(segment) {
                if kept.len() == 0 {
                    None
                } else {
                    Some(kept.drop_last())
                }
            } else {
                Some(kept.push(segment))
            }
        },
    }
}

/// The walk carried on from `kept` along `segments`, from left to right.
pub open spec fn walk_from(kept: Option<Seq<Seq<char>>>, segments: Seq<Seq<char>>) -> Option<
    Seq<Seq<char>>,
>
    decreases segments.len(),
{
    if segments.len() == 0 {
        kept
    } else {
        step(walk_from(kept, segments.drop_last()), segments.last())
    }
}

/// The normal segments that `segments` comes down to when walked from left
/// to right, or `None` if the walk climbs above its starting directory at
/// any point (even if it would come back down afterwards).
pub open spec fn normalize(segments: Seq<Seq<char>>) -> Option<Seq<Seq<char>>> {
    walk_from(Some(Seq::<Seq<char>>::empty()), segments)
}

/// How far one segment moves the walk down (1), up (-1) or not at all (0).
pub open spec fn weight(segment: Seq<char>) -> int {
    if is_redundant(segment) {
        0
    } else if is_parent(segment) {
        -1
    } else {
        1
    }
}

/// How many levels below its starting directory a walk along `segments`
/// ends; negative if it ends above.
pub open spec fn depth(segments: Seq<Seq<char>>) -> int
    decreases segments.len(),
{
    if segments.len() == 0 {
        0
    } else {
        depth(segments.drop_last()) + weight(segments.last())
    }
}

/// Whether a walk along `segments` stands above its starting directory
/// after some number of steps.
pub open spec fn climbs_out(segments: Seq<Seq<char>>) -> bool {
    exists|k: int| 0 <= k <= segments.len() && depth(#[trigger] segments.take(k)) < 0
}

/// A path has at least one segment.
pub proof fn lemma_split_nonempty(s: Seq<char>)
    ensures
        split(s).len() >= 1,
    decreases s.len(),
{
    if s.len() > 0 {
        lemma_split_nonempty(s.drop_last());
    }
}

/// No segment of a path holds a separator.
pub proof fn lemma_split_plain(s: Seq<char>)
    ensures
        all_plain(split(s)),
    decreases s.len(),
{
    if s.len() > 0 {
        lemma_split_nonempty(s.drop_last());
        lemma_split_plain(s.drop_last());
        let before = split(s.drop_last());
        if s.last() != SEPARATOR {
            assert(is_plain(before[before.len() - 1]));
        }
    }
}

/// Joining the segments of a path gives the path back: splitting loses
/// nothing.
pub proof fn lemma_join_split(s: Seq<char>)
    ensures
        join(split(s)) == s,
    decreases s.len(),
{
    if s.len() > 0 {
        let init = s.drop_last();
        let before = split(init);
        lemma_split_nonempty(init);
        lemma_join_split(init);
        if s.last() == SEPARATOR {
            assert(split(s).drop_last() == before);
            assert(join(split(s)) == init.push(SEPARATOR) + Seq::<char>::empty());
        } else {
            let grown = before.last().push(s.last());
            assert(split(s).drop_last() == before.drop_last());
            assert(split(s).last() == grown);
            if before.len() == 1 {
                assert(join(split(s)) == init.push(s.last()));
            } else {
                assert(join(split(s)) == join(before.drop_last()).push(SEPARATOR) + grown);
                assert(join(before) == join(before.drop_last()).push(SEPARATOR) + before.last());
                assert(join(split(s)) == init.push(s.last()));
            }
        }
        assert(init.push(s.last()) == s);
    }
}

/// Appending one more segment to a path appends it to the path's segments.
pub proof fn lemma_split_push_segment(s: Seq<char>, segment: Seq<char>)
    requires
        is_plain(segment),
    ensures
        split(s.push(SEPARATOR) + segment) == split(s).push(segment),
    decreases segment.len(),
{
    let whole = s.push(SEPARATOR) + segment;
    if segment.len() == 0 {
        assert(whole.drop_last() == s);
        assert(segment == Seq::<char>::empty());
    } else {
        let shorter = segment.drop_last();
        assert(is_plain(shorter)) by {
            assert forall|i: int| 0 <= i < shorter.len() implies shorter[i] != SEPARATOR by {
                assert(shorter[i] == segment[i]);
            }
        }
        lemma_split_push_segment(s, shorter);
        assert(whole.drop_last() == s.push(SEPARATOR) + shorter);
        assert(whole.last() == segment.last());
        assert(segment.last() != SEPARATOR);
        assert(shorter.push(segment.last()) == segment);
        assert(split(s).push(shorter).drop_last() == split(s));
    }
}

/// Splitting what was joined gives the segments back, provided that there is
/// at least one and none holds a separator. With `lemma_join_split` this
/// makes `split` and `join` inverses of each other.
pub proof fn lemma_split_join(segments: Seq<Seq<char>>)
    requires
        segments.len() >= 1,
        all_plain(segments),
    ensures
        split(join(segments)) == segments,
    decreases segments.len(),
{
    if segments.len() == 1 {
        lemma_split_single(segments[0]);
        assert(segments == seq![segments[0]]);
    } else {
        let init = segments.drop_last();
        assert(all_plain(init)) by {
            assert forall|i: int| 0 <= i < init.len() implies is_plain(#[trigger] init[i]) by {
                assert(init[i] == segments[i]);
            }
        }
        lemma_split_join(init);
        assert(is_plain(segments[segments.len() - 1]));
        lemma_split_push_segment(join(init), segments.last());
        assert(init.push(segments.last()) == segments);
    }
}

/// What is joined starts with its first segment.
pub proof fn lemma_join_starts_with_first(segments: Seq<Seq<char>>)
    requires
        segments.len() >= 1,
    ensures
        segments[0].is_prefix_of(join(segments)),
    decreases segments.len(),
{
    if segments.len() > 1 {
        let init = segments.drop_last();
        lemma_join_starts_with_first(init);
        assert(init[0] == segments[0]);
    }
}

/// A string without separators is its own single segment.
pub proof fn lemma_split_single(segment: Seq<char>)
    requires
        is_plain(segment),
    ensures
        split(segment) == seq![segment],
    decreases segment.len(),
{
    if segment.len() == 0 {
        assert(segment == Seq::<char>::empty());
    } else {
        let shorter = segment.drop_last();
        assert(is_plain(shorter)) by {
            assert forall|i: int| 0 <= i < shorter.len() implies shorter[i] != SEPARATOR by {
                assert(shorter[i] == segment[i]);
            }
        }
        lemma_split_single(shorter);
        assert(segment.last() != SEPARATOR);
        assert(seq![shorter].drop_last().push(shorter.push(segment.last())) == seq![segment]) by {
            assert(shorter.push(segment.last()) == segment);
        }
    }
}

/// The segments that a prefix of a path has completed are segments of the
/// whole path, in the same places: reading on never changes a segment that
/// a separator has closed.
pub proof fn lemma_split_extends(head: Seq<char>, tail: Seq<char>)
    ensures
        split(head).len() <= split(head + tail).len(),
        split(head + tail).take(split(head).len() - 1) == split(head).drop_last(),
    decreases tail.len(),
{
    lemma_split_nonempty(head);
    if tail.len() == 0 {
        assert(head + tail == head);
    } else {
        let whole = head + tail;
        let shorter = head + tail.drop_last();
        lemma_split_extends(head, tail.drop_last());
        lemma_split_nonempty(shorter);
        assert(whole.drop_last() == shorter);
        let n = split(head).len() - 1;
        assert(split(whole).take(n) == split(shorter).take(n));
    }
}

/// Once a walk has left its starting directory, no further segment brings
/// it back: if a prefix of `segments` fails to normalize, so does the whole.
pub proof fn lemma_normalize_fails_for_good(segments: Seq<Seq<char>>, k: int)
    requires
        0 <= k <= segments.len(),
        normalize(segments.take(k)) is None,
    ensures
        normalize(segments) is None,
    decreases segments.len() - k,
{
    if k == segments.len() {
        assert(segments.take(k) == segments);
    } else {
        assert(segments.take(k + 1).drop_last() == segments.take(k));
        lemma_normalize_fails_for_good(segments, k + 1);
    }
}

/// Normalization and the depth counter agree. A walk fails to normalize
/// exactly when its depth goes negative at some point; and when it
/// normalizes, the number of segments kept is the depth it ends at.
pub proof fn lemma_normalize_counts_depth(segments: Seq<Seq<char>>)
    ensures
        normalize(segments) is None <==> climbs_out(segments),
        normalize(segments) matches Some(kept) ==> kept.len() == depth(segments),
    decreases segments.len(),
{
    if segments.len() == 0 {
        assert forall|k: int| 0 <= k <= segments.len() implies depth(
            #[trigger] segments.take(k),
        ) >= 0 by {
            assert(segments.take(k) == segments);
        }
    } else {
        let init = segments.drop_last();
        lemma_normalize_counts_depth(init);
        assert forall|k: int| 0 <= k <= init.len() implies #[trigger] segments.take(k)
            == init.take(k) by {}
        assert(segments.take(segments.len() as int) == segments);
        match normalize(init) {
            None => {
                let k = choose|k: int| 0 <= k <= init.len() && depth(#[trigger] init.take(k)) < 0;
                assert(depth(segments.take(k)) < 0);
            },
            Some(kept) => {
                assert forall|k: int| 0 <= k <= init.len() implies depth(
                    #[trigger] segments.take(k),
                ) >= 0 by {
                    assert(depth(init.take(k)) >= 0);
                }
                if normalize(segments) is None {
                    assert(depth(segments.take(segments.len() as int)) < 0);
                } else {
                    assert forall|k: int| 0 <= k <= segments.len() implies depth(
                        #[trigger] segments.take(k),
                    ) >= 0 by {
                        if k <= init.len() {
                        } else {
                            assert(segments.take(k) == segments);
                        }
                    }
                }
            },
        }
    }
}

/// What normalization keeps is in normal form: no empty segment, no `.`,
/// no `..`.
pub proof fn lemma_normalize_keeps_normal(segments: Seq<Seq<char>>)
    ensures
        normalize(segments) matches Some(kept) ==> all_normal(kept),
    decreases segments.len(),
{
    if segments.len() > 0 {
        lemma_normalize_keeps_normal(segments.drop_last());
    }
}

/// What normalization keeps are segments of the input: it only ever drops.
pub proof fn lemma_normalize_keeps_given(segments: Seq<Seq<char>>)
    ensures
        normalize(segments) matches Some(kept) ==> forall|i: int|
            0 <= i < kept.len() ==> segments.contains(#[trigger] kept[i]),
    decreases segments.len(),
{
    if segments.len() > 0 {
        let init = segments.drop_last();
        lemma_normalize_keeps_given(init);
        if let Some(kept) = normalize(segments) {
            let before = normalize(init)->0;
            assert forall|i: int| 0 <= i < kept.len() implies segments.contains(
                #[trigger] kept[i],
            ) by {
                if i < before.len() && kept[i] == before[i] {
                    let j = choose|j: int| 0 <= j < init.len() && init[j] == before[i];
                    assert(segments[j] == kept[i]);
                } else {
                    assert(kept[i] == segments[segments.len() - 1]);
                }
            }
        }
    }
}

/// Normal form is a fixed point: segments that are all normal normalize to
/// themselves, so normalizing twice is the same as normalizing once.
pub proof fn lemma_normalize_fixes_normal(segments: Seq<Seq<char>>)
    requires
        all_normal(segments),
    ensures
        normalize(segments) == Some(segments),
    decreases segments.len(),
{
    if segments.len() > 0 {
        let init = segments.drop_last();
        assert(all_normal(init)) by {
            assert forall|i: int| 0 <= i < init.len() implies is_normal(#[trigger] init[i]) by {
                assert(init[i] == segments[i]);
            }
        }
        lemma_normalize_fixes_normal(init);
        assert(is_normal(segments[segments.len() - 1]));
        assert(init.push(segments.last()) == segments);
    } else {
        assert(segments == Seq::<Seq<char>>::empty());
    }
}

/// Walking along two stretches in a row is walking along the first and
/// carrying on along the second: where a walk goes depends on where it
/// stands, not on how it got there.
pub proof fn lemma_walk_from_concat(
    kept: Option<Seq<Seq<char>>>,
    first: Seq<Seq<char>>,
    second: Seq<Seq<char>>,
)
    ensures
        walk_from(kept, first + second) == walk_from(walk_from(kept, first), second),
    decreases second.len(),
{
    if second.len() == 0 {
        assert(first + second == first);
    } else {
        lemma_walk_from_concat(kept, first, second.drop_last());
        assert((first + second).drop_last() == first + second.drop_last());
    }
}

/// Redundant segments do not matter: an empty segment or a `.` can be put
/// anywhere into a path, or taken out of it, without changing what the path
/// normalizes to.
pub proof fn lemma_redundant_is_ignored(
    before: Seq<Seq<char>>,
    segment: Seq<char>,
    after: Seq<Seq<char>>,
)
    requires
        is_redundant(segment),
    ensures
        normalize(before.push(segment) + after) == normalize(before + after),
{
    let start = Some(Seq::<Seq<char>>::empty());
    lemma_walk_from_concat(start, before.push(segment), after);
    lemma_walk_from_concat(start, before, after);
    assert(before.push(segment).drop_last() == before);
}

/// A `..` takes back the normal segment before it: the two can be put
/// anywhere into a path, or taken out of it together, without changing what
/// the path normalizes to.
pub proof fn lemma_parent_takes_back(
    before: Seq<Seq<char>>,
    segment: Seq<char>,
    after: Seq<Seq<char>>,
)
    requires
        is_normal(segment),
    ensures
        normalize(before.push(segment).push(seq!['.', '.']) + after) == normalize(before + after),
{
    let start = Some(Seq::<Seq<char>>::empty());
    let parent = seq!['.', '.'];
    let there = before.push(segment);
    let back = there.push(parent);
    lemma_walk_from_concat(start, back, after);
    lemma_walk_from_concat(start, before, after);
    assert(back.drop_last() == there);
    assert(there.drop_last() == before);
    assert(is_parent(parent));
    assert(walk_from(start, there) == step(walk_from(start, before), segment));
    assert(walk_from(start, back) == step(walk_from(start, there), parent));
    if let Some(kept) = walk_from(start, before) {
        assert(kept.push(segment).drop_last() == kept);
    }
    assert(walk_from(start, back) == walk_from(start, before));
}

} // verus!
