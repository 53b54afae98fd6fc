//! What resolution guarantees, proved for every root, identity and request.
use vstd::prelude::*;
use crate::resolver::{as_directory, below, is_malformed, relative, resolution, subtree};
use crate::segments::{
    all_normal, all_plain, climbs_out, depth, is_normal, is_plain, join,
    lemma_join_starts_with_first, lemma_normalize_counts_depth, lemma_normalize_fixes_normal,
    lemma_normalize_keeps_given, lemma_normalize_keeps_normal, lemma_split_join,
    lemma_split_nonempty, lemma_split_plain, lemma_split_push_segment, lemma_split_single,
    normalize, split, SEPARATOR,
};

verus! {

/// A path below `base` is `base` followed by a tail that depends on the
/// segments alone.
pub proof fn lemma_below_is_base_and_tail(base: Seq<char>, segments: Seq<Seq<char>>)
    ensures
        below(base, segments) == base + below(Seq::empty(), segments),
        segments.len() == 0 ==> below(base, segments) == base,
        segments.len() > 0 ==> base.push(SEPARATOR).is_prefix_of(below(base, segments)),
    decreases segments.len(),
{
    let empty = Seq::<char>::empty();
    if segments.len() == 0 {
        assert(seq![base] + segments == seq![base]);
        assert(seq![empty] + segments == seq![empty]);
    } else {
        let init = segments.drop_last();
        lemma_below_is_base_and_tail(base, init);
        assert((seq![base] + segments).drop_last() == seq![base] + init);
        assert((seq![empty] + segments).drop_last() == seq![empty] + init);
        assert((seq![base] + segments).last() == segments.last());
        assert((seq![empty] + segments).last() == segments.last());
        assert(below(base, segments) == below(base, init).push(SEPARATOR) + segments.last());
        assert(below(empty, segments) == below(empty, init).push(SEPARATOR) + segments.last());
        assert(below(base, segments) == base + below(empty, segments));
        if init.len() == 0 {
            assert(below(base, init) == base);
        }
    }
}

/// A request is rejected if it climbs above the identity's directory at any
/// point, however many `..` it takes and whatever follows them.
pub proof fn lemma_climbing_out_is_rejected(
    root: Seq<char>,
    identity: Seq<char>,
    requested: Seq<char>,
)
    requires
        climbs_out(split(requested)),
    ensures
        resolution(root, identity, requested) is None,
{
    lemma_normalize_counts_depth(split(requested));
}

/// A request that is empty or made of separators only is rejected.
pub proof fn lemma_blank_is_rejected(root: Seq<char>, identity: Seq<char>, requested: Seq<char>)
    requires
        forall|i: int| 0 <= i < requested.len() ==> requested[i] == SEPARATOR,
    ensures
        resolution(root, identity, requested) is None,
{
}

/// A request that starts with a separator is rejected: it is never read as
/// an absolute path.
pub proof fn lemma_absolute_is_rejected(root: Seq<char>, identity: Seq<char>, requested: Seq<char>)
    requires
        requested.len() > 0,
        requested[0] == SEPARATOR,
    ensures
        resolution(root, identity, requested) is None,
{
}

/// Every request that is well-formed and never climbs above the identity's
/// directory is resolved, and to a path that starts with `root/identity`:
/// with `root/identity/` where the request names something inside, and to
/// `root/identity` itself where it comes back to where it started.
pub proof fn lemma_staying_inside_is_resolved(
    root: Seq<char>,
    identity: Seq<char>,
    requested: Seq<char>,
)
    requires
        !is_malformed(requested),
        !climbs_out(split(requested)),
    ensures
        resolution(root, identity, requested) matches Some(path) && {
            &&& subtree(root, identity).is_prefix_of(path)
            &&& depth(split(requested)) == 0 ==> path == subtree(root, identity)
            &&& depth(split(requested)) > 0 ==> subtree(root, identity).push(
                SEPARATOR,
            ).is_prefix_of(path)
        },
        depth(split(requested)) >= 0,
{
    lemma_normalize_counts_depth(split(requested));
    let segments = normalize(split(requested))->0;
    lemma_below_is_base_and_tail(subtree(root, identity), segments);
}

/// Under an absolute root every resolved path is absolute.
pub proof fn lemma_absolute_root_gives_absolute_path(
    root: Seq<char>,
    identity: Seq<char>,
    requested: Seq<char>,
)
    requires
        root.len() > 0,
        root[0] == SEPARATOR,
    ensures
        resolution(root, identity, requested) matches Some(path) ==> path.len() > 0 && path[0]
            == SEPARATOR,
{
    if let Some(segments) = relative(requested) {
        lemma_below_is_base_and_tail(subtree(root, identity), segments);
        assert(subtree(root, identity)[0] == root[0]);
    }
}

/// Resolution rejects exactly the requests that are malformed or climb out.
pub proof fn lemma_rejected_iff(root: Seq<char>, identity: Seq<char>, requested: Seq<char>)
    ensures
        resolution(root, identity, requested) is None <==> (is_malformed(requested) || climbs_out(
            split(requested),
        )),
{
    lemma_normalize_counts_depth(split(requested));
}

/// What a request comes down to is itself a request, and resolves to the
/// same path: written out with single separators, the normalized segments
/// are accepted as they stand, with nothing left to drop or to take back.
pub proof fn lemma_normal_form_resolves_alike(
    root: Seq<char>,
    identity: Seq<char>,
    requested: Seq<char>,
)
    ensures
        relative(requested) matches Some(segments) ==> segments.len() > 0 ==> {
            &&& relative(join(segments)) == Some(segments)
            &&& resolution(root, identity, join(segments)) == resolution(
                root,
                identity,
                requested,
            )
        },
{
    if let Some(segments) = relative(requested) {
        if segments.len() > 0 {
            lemma_relative_is_normal(requested);
            lemma_split_join(segments);
            lemma_normalize_fixes_normal(segments);
            lemma_join_starts_with_first(segments);
            assert(is_normal(segments[0]));
            assert(is_plain(segments[0]));
            assert(join(segments)[0] == segments[0][0]);
        }
    }
}

/// Whether a request is accepted does not depend on who asks, nor on the
/// root.
pub proof fn lemma_acceptance_ignores_identity(
    root: Seq<char>,
    one: Seq<char>,
    other_root: Seq<char>,
    other: Seq<char>,
    requested: Seq<char>,
)
    ensures
        resolution(root, one, requested) is Some <==> resolution(other_root, other, requested)
            is Some,
{
}

/// Two different identities that request the same path never get the same
/// file: where the request is resolved at all, it resolves to two different
/// paths.
pub proof fn lemma_identities_are_isolated(
    root: Seq<char>,
    one: Seq<char>,
    other: Seq<char>,
    requested: Seq<char>,
)
    requires
        one != other,
    ensures
        resolution(root, one, requested) is Some ==> resolution(root, one, requested)
            != resolution(root, other, requested),
{
    if let Some(segments) = relative(requested) {
        let tail = below(Seq::empty(), segments);
        let front = as_directory(root);
        let p = below(subtree(root, one), segments);
        let q = below(subtree(root, other), segments);
        lemma_below_is_base_and_tail(subtree(root, one), segments);
        lemma_below_is_base_and_tail(subtree(root, other), segments);
        if p == q {
            assert(one.len() == other.len()) by {
                assert(p.len() == front.len() + one.len() + tail.len());
                assert(q.len() == front.len() + other.len() + tail.len());
            }
            assert forall|i: int| 0 <= i < one.len() implies one[i] == other[i] by {
                assert(p[front.len() + i] == one[i]);
                assert(q[front.len() + i] == other[i]);
            }
            assert(one =~= other);
        }
    }
}

/// The segments of a path below `base` are those of `base`, followed by the
/// segments that were added.
pub proof fn lemma_split_below(base: Seq<char>, segments: Seq<Seq<char>>)
    requires
        all_plain(segments),
    ensures
        split(below(base, segments)) == split(base) + segments,
    decreases segments.len(),
{
    if segments.len() == 0 {
        assert(seq![base] + segments == seq![base]);
        assert(split(base) + segments == split(base));
    } else {
        let init = segments.drop_last();
        assert(all_plain(init)) by {
            assert forall|i: int| 0 <= i < init.len() implies is_plain(#[trigger] init[i]) by {
                assert(init[i] == segments[i]);
            }
        }
        lemma_split_below(base, init);
        assert((seq![base] + segments).drop_last() == seq![base] + init);
        assert((seq![base] + segments).last() == segments.last());
        assert(is_plain(segments[segments.len() - 1]));
        lemma_split_push_segment(below(base, init), segments.last());
        assert((split(base) + init).push(segments.last()) == split(base) + segments);
    }
}

/// The segments of `root/identity`: those of the root, without the empty
/// one that its trailing separator leaves, followed by the identity.
pub proof fn lemma_split_subtree(root: Seq<char>, identity: Seq<char>)
    requires
        is_plain(identity),
    ensures
        split(subtree(root, identity)) == split(as_directory(root)).drop_last().push(identity),
{
    let front = as_directory(root);
    if front.len() == 0 {
        assert(front + identity == identity);
        lemma_split_single(identity);
        assert(split(front).drop_last().push(identity) == seq![identity]);
    } else {
        let stem = front.drop_last();
        assert(front == stem.push(SEPARATOR));
        lemma_split_push_segment(stem, identity);
        lemma_split_nonempty(stem);
        assert(split(front).drop_last() == split(stem));
    }
}

/// What a request comes down to is in normal form, and no segment of it
/// holds a separator.
pub proof fn lemma_relative_is_normal(requested: Seq<char>)
    ensures
        relative(requested) matches Some(segments) ==> all_normal(segments) && all_plain(segments),
{
    if let Some(segments) = relative(requested) {
        let given = split(requested);
        lemma_normalize_keeps_normal(given);
        lemma_normalize_keeps_given(given);
        lemma_split_plain(requested);
        assert forall|i: int| 0 <= i < segments.len() implies is_plain(#[trigger] segments[i]) by {
            let j = choose|j: int| 0 <= j < given.len() && given[j] == segments[i];
            assert(is_plain(given[j]));
        }
    }
}

/// Read segment by segment, a resolved path is the root, then the identity,
/// then normal segments only: nothing after the identity is empty, `.` or
/// `..`, so whoever walks the path lexically, as resolution did, goes down
/// from `root/identity` and never up. The segments after the identity are
/// the normalized request.
pub proof fn lemma_resolved_stays_below(
    root: Seq<char>,
    identity: Seq<char>,
    requested: Seq<char>,
)
    requires
        is_plain(identity),
    ensures
        resolution(root, identity, requested) matches Some(path) ==> {
            &&& relative(requested) matches Some(segments)
            &&& all_normal(segments)
            &&& split(path) == split(as_directory(root)).drop_last().push(identity) + segments
        },
{
    if let Some(segments) = relative(requested) {
        lemma_relative_is_normal(requested);
        lemma_split_below(subtree(root, identity), segments);
        lemma_split_subtree(root, identity);
    }
}

/// The subtrees of two different identities share no path: whatever the two
/// request, they never resolve to the same path.
pub proof fn lemma_subtrees_are_disjoint(
    root: Seq<char>,
    one: Seq<char>,
    other: Seq<char>,
    first: Seq<char>,
    second: Seq<char>,
)
    requires
        is_plain(one),
        is_plain(other),
        one != other,
    ensures
        resolution(root, one, first) is Some ==> resolution(root, one, first) != resolution(
            root,
            other,
            second,
        ),
{
    if resolution(root, one, first) is Some && resolution(root, other, second) is Some {
        let p = resolution(root, one, first)->0;
        let q = resolution(root, other, second)->0;
        lemma_resolved_stays_below(root, one, first);
        lemma_resolved_stays_below(root, other, second);
        let stem = split(as_directory(root)).drop_last();
        lemma_split_nonempty(as_directory(root));
        if p == q {
            assert(split(p)[stem.len() as int] == one);
            assert(split(q)[stem.len() as int] == other);
        }
    }
}

} // verus!
