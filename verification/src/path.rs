//! Path normalization and the matching of a path against a pattern.
//!
//! A path is a sequence of characters in which `/` separates segments.
//! Normalization collapses every run of separators into one and then drops
//! one trailing separator, unless the whole path is the bare root `/`.
//! A pattern matches a path when both have the same number of segments and
//! each pattern segment is either `*` or equal to the path's segment at the
//! same position.

use vstd::prelude::*;
use crate::text::chars_of;

verus! {

/// The character that separates the segments of a path.
pub const SEPARATOR: char = '/';

/// The character that, alone in a pattern segment, matches any segment.
pub const WILDCARD: char = '*';

/// `path` without each separator that directly follows another separator.
pub open spec fn collapse(path: Seq<char>) -> Seq<char>
    decreases path.len(),
{
    if path.len() == 0 {
        path
    } else {
        let front = collapse(path.drop_last());
        if path.last() == SEPARATOR && path.len() >= 2 && path[path.len() - 2] == SEPARATOR {
            front
        } else {
            front.push(path.last())
        }
    }
}

/// Whether no two separators stand next to each other in `path`.
pub open spec fn no_repeated_separator(path: Seq<char>) -> bool {
    forall|i: int|
        0 <= i && i + 1 < path.len() ==> !(#[trigger] path[i] == SEPARATOR && path[i + 1]
            == SEPARATOR)
}

/// Whether `path` is more than the bare root and ends with a separator.
pub open spec fn has_trailing_separator(path: Seq<char>) -> bool {
    path.len() > 1 && path.last() == SEPARATOR
}

/// The canonical form of `path`: runs of separators collapsed, then one
/// trailing separator removed unless the collapsed path is the bare root.
pub open spec fn normalize_path(path: Seq<char>) -> Seq<char> {
    let collapsed = collapse(path);
    if has_trailing_separator(collapsed) {
        collapsed.drop_last()
    } else {
        collapsed
    }
}

/// Whether `path` is in canonical form.
pub open spec fn is_normalized(path: Seq<char>) -> bool {
    no_repeated_separator(path) && !has_trailing_separator(path)
}

/// The segments of `path`: the pieces between its separators, in order.
/// A path with `n` separators has `n + 1` segments, some possibly empty.
pub open spec fn segments(path: Seq<char>) -> Seq<Seq<char>>
    decreases path.len(),
{
    if path.len() == 0 {
        seq![Seq::<char>::empty()]
    } else {
        let front = segments(path.drop_last());
        if path.last() == SEPARATOR {
            front.push(Seq::<char>::empty())
        } else {
            front.drop_last().push(front.last().push(path.last()))
        }
    }
}

/// Whether `segment` consists of the wildcard marker alone.
pub open spec fn is_wildcard(segment: Seq<char>) -> bool {
    segment.len() == 1 && segment[0] == WILDCARD
}

/// Whether one pattern segment accepts one path segment.
pub open spec fn segment_matches(pattern: Seq<char>, segment: Seq<char>) -> bool {
    is_wildcard(pattern) || pattern == segment
}

/// Whether the segment sequence `pattern` accepts the segment sequence
/// `path`: equal counts, and a match at every position.
pub open spec fn segments_match(pattern: Seq<Seq<char>>, path: Seq<Seq<char>>) -> bool {
    &&& pattern.len() == path.len()
    &&& forall|i: int| 0 <= i < pattern.len() ==> segment_matches(#[trigger] pattern[i], path[i])
}

/// Whether `pattern` accepts `path`, segment by segment.
pub open spec fn pattern_matches(pattern: Seq<char>, path: Seq<char>) -> bool {
    segments_match(segments(pattern), segments(path))
}

/// The character sequences that `parts` hold.
pub open spec fn segment_views(parts: Seq<Vec<char>>) -> Seq<Seq<char>> {
    Seq::new(parts.len(), |i: int| parts[i]@)
}

/// Every path has at least one segment.
pub proof fn lemma_segments_nonempty(path: Seq<char>)
    ensures
        segments(path).len() >= 1,
    decreases path.len(),
{
    if path.len() > 0 {
        lemma_segments_nonempty(path.drop_last());
    }
}

/// Collapsing never lengthens a path, and keeps the last character of a
/// path that has one.
pub proof fn lemma_collapse_keeps_end(path: Seq<char>)
    ensures
        collapse(path).len() <= path.len(),
        path.len() > 0 ==> collapse(path).len() > 0 && collapse(path).last() == path.last(),
    decreases path.len(),
{
    if path.len() > 0 {
        lemma_collapse_keeps_end(path.drop_last());
    }
}

/// A collapsed path holds no two separators next to each other.
pub proof fn lemma_collapse_has_no_repeats(path: Seq<char>)
    ensures
        no_repeated_separator(collapse(path)),
    decreases path.len(),
{
    if path.len() > 0 {
        let front = path.drop_last();
        lemma_collapse_has_no_repeats(front);
        lemma_collapse_keeps_end(front);
    }
}

/// Collapsing changes nothing in a path without repeated separators.
pub proof fn lemma_collapse_fixes_clean_paths(path: Seq<char>)
    requires
        no_repeated_separator(path),
    ensures
        collapse(path) == path,
    decreases path.len(),
{
    if path.len() > 0 {
        let front = path.drop_last();
        assert forall|i: int| 0 <= i && i + 1 < front.len() implies !(#[trigger] front[i]
            == SEPARATOR && front[i + 1] == SEPARATOR) by {
            assert(front[i] == path[i] && front[i + 1] == path[i + 1]);
        }
        lemma_collapse_fixes_clean_paths(front);
        if path.len() >= 2 {
            assert(!(path[path.len() - 2] == SEPARATOR && path[path.len() - 2 + 1] == SEPARATOR));
        }
        assert(front.push(path.last()) == path);
    }
}

/// Normalization yields a path in canonical form.
pub proof fn lemma_normalize_gives_normal_form(path: Seq<char>)
    ensures
        is_normalized(normalize_path(path)),
{
    let collapsed = collapse(path);
    lemma_collapse_has_no_repeats(path);
    if has_trailing_separator(collapsed) {
        let kept = collapsed.drop_last();
        assert forall|i: int| 0 <= i && i + 1 < kept.len() implies !(#[trigger] kept[i]
            == SEPARATOR && kept[i + 1] == SEPARATOR) by {
            assert(kept[i] == collapsed[i] && kept[i + 1] == collapsed[i + 1]);
        }
        let before_last = collapsed.len() - 2;
        assert(!(collapsed[before_last] == SEPARATOR && collapsed[before_last + 1] == SEPARATOR));
        assert(kept.last() == collapsed[before_last]);
    }
}

/// Normalization returns a path in canonical form unchanged.
pub proof fn lemma_normalize_fixes_normal_forms(path: Seq<char>)
    requires
        is_normalized(path),
    ensures
        normalize_path(path) == path,
{
    lemma_collapse_fixes_clean_paths(path);
}

/// Normalizing twice gives what normalizing once gives.
pub proof fn lemma_normalize_is_idempotent(path: Seq<char>)
    ensures
        normalize_path(normalize_path(path)) == normalize_path(path),
{
    lemma_normalize_gives_normal_form(path);
    lemma_normalize_fixes_normal_forms(normalize_path(path));
}

/// A run of `count` separators.
pub open spec fn separators(count: nat) -> Seq<char> {
    Seq::new(count, |i: int| SEPARATOR)
}

/// Behind any prefix, a run of one or more separators collapses to what a
/// single separator collapses to.
pub proof fn lemma_collapse_of_run(prefix: Seq<char>, count: nat)
    requires
        count >= 1,
    ensures
        collapse(prefix + separators(count)) == collapse(prefix + separators(1)),
    decreases count,
{
    if count > 1 {
        let longer = prefix + separators(count);
        let shorter = prefix + separators((count - 1) as nat);
        assert(longer.drop_last() == shorter);
        assert(longer.last() == SEPARATOR);
        assert(longer[longer.len() - 2] == SEPARATOR);
        lemma_collapse_of_run(prefix, (count - 1) as nat);
    }
}

/// Two non-empty paths that collapse to the same path and end with the
/// same character still collapse to the same path once the same suffix is
/// appended to both.
pub proof fn lemma_collapse_of_suffix(first: Seq<char>, second: Seq<char>, suffix: Seq<char>)
    requires
        first.len() > 0,
        second.len() > 0,
        first.last() == second.last(),
        collapse(first) == collapse(second),
    ensures
        collapse(first + suffix) == collapse(second + suffix),
    decreases suffix.len(),
{
    if suffix.len() == 0 {
        assert(first + suffix == first);
        assert(second + suffix == second);
    } else {
        let shorter = suffix.drop_last();
        lemma_collapse_of_suffix(first, second, shorter);
        let a = first + suffix;
        let b = second + suffix;
        assert(a.drop_last() == first + shorter);
        assert(b.drop_last() == second + shorter);
        assert(a.last() == b.last());
        assert(a[a.len() - 2] == b[b.len() - 2]);
    }
}

/// Putting any run of one or more separators at some place in a path
/// normalizes to the same path as putting a single separator there.
pub proof fn lemma_separator_count_is_irrelevant(before: Seq<char>, count: nat, after: Seq<char>)
    requires
        count >= 1,
    ensures
        normalize_path(before + separators(count) + after) == normalize_path(
            before + separators(1) + after,
        ),
{
    lemma_collapse_of_run(before, count);
    let many = before + separators(count);
    let one = before + separators(1);
    assert(many.last() == SEPARATOR);
    assert(one.last() == SEPARATOR);
    lemma_collapse_of_suffix(many, one, after);
}

/// One or two separators appended to a non-empty path do not change what
/// it normalizes to.
pub proof fn lemma_trailing_separators_are_ignored(path: Seq<char>)
    requires
        path.len() > 0,
    ensures
        normalize_path(path.push(SEPARATOR)) == normalize_path(path),
        normalize_path(path.push(SEPARATOR).push(SEPARATOR)) == normalize_path(path),
{
    let one = path.push(SEPARATOR);
    let two = one.push(SEPARATOR);
    lemma_collapse_keeps_end(path);
    assert(one.drop_last() == path);
    assert(two.drop_last() == one);
    assert(collapse(two) == collapse(one));
    if path.last() != SEPARATOR {
        assert(collapse(one) == collapse(path).push(SEPARATOR));
        assert(collapse(one).drop_last() == collapse(path));
    }
}

/// The number of separators in `path`.
pub open spec fn separator_count(path: Seq<char>) -> nat
    decreases path.len(),
{
    if path.len() == 0 {
        0
    } else if path.last() == SEPARATOR {
        separator_count(path.drop_last()) + 1
    } else {
        separator_count(path.drop_last())
    }
}

/// `parts` put together again, with one separator between neighbours.
pub open spec fn join(parts: Seq<Seq<char>>) -> Seq<char>
    decreases parts.len(),
{
    if parts.len() == 0 {
        Seq::<char>::empty()
    } else if parts.len() == 1 {
        parts[0]
    } else {
        join(parts.drop_last()).push(SEPARATOR) + parts.last()
    }
}

/// A path has one segment more than it has separators.
pub proof fn lemma_segment_count(path: Seq<char>)
    ensures
        segments(path).len() == separator_count(path) + 1,
    decreases path.len(),
{
    if path.len() > 0 {
        lemma_segment_count(path.drop_last());
    }
}

/// No segment of a path holds a separator, and the segments joined by
/// separators are the path again: splitting loses nothing.
pub proof fn lemma_segments_split_at_separators(path: Seq<char>)
    ensures
        forall|i: int, j: int|
            0 <= i < segments(path).len() && 0 <= j < segments(path)[i].len() ==> segments(
                path,
            )[i][j] != SEPARATOR,
        join(segments(path)) == path,
    decreases path.len(),
{
    if path.len() == 0 {
        assert(join(segments(path)) =~= path);
    } else {
        let rest = path.drop_last();
        let front = segments(rest);
        lemma_segments_split_at_separators(rest);
        lemma_segments_nonempty(rest);
        let parts = segments(path);
        if path.last() == SEPARATOR {
            assert(parts.drop_last() == front);
            assert(join(parts) =~= rest.push(SEPARATOR));
        } else {
            let grown = front.last().push(path.last());
            if front.len() == 1 {
                assert(parts =~= seq![grown]);
                assert(join(parts) =~= join(front).push(path.last()));
            } else {
                assert(parts.drop_last() == front.drop_last());
                assert(join(parts) =~= join(front).push(path.last()));
            }
        }
        assert(rest.push(path.last()) == path);
    }
}

/// A pattern accepts only paths with as many separators, and so as many
/// segments, as it has itself: one segment more or one less never matches.
pub proof fn lemma_match_needs_equal_counts(pattern: Seq<char>, path: Seq<char>)
    requires
        separator_count(pattern) != separator_count(path),
    ensures
        !pattern_matches(pattern, path),
{
    lemma_segment_count(pattern);
    lemma_segment_count(path);
}

/// Puts `path` into canonical form.
pub fn normalize(path: &str) -> (normal: String)
    ensures
        normal@ == normalize_path(path@),
        is_normalized(normal@),
{
    proof {
        lemma_normalize_gives_normal_form(path@);
    }
    let mut out = String::new();
    // A separator has been read that `out` does not hold yet.
    let mut pending = false;
    for c in it: path.chars()
        invariant
            it.seq() == path@,
            collapse(path@.take(it.index())) == (if pending {
                out@.push(SEPARATOR)
            } else {
                out@
            }),
            pending <==> (it.index() > 0 && path@[it.index() - 1] == SEPARATOR),
            out@.len() > 0 ==> out@.last() != SEPARATOR,
    {
        proof {
            let seen = path@.take(it.index() + 1);
            assert(seen.drop_last() == path@.take(it.index()));
            assert(seen.last() == c);
        }
        if c == SEPARATOR {
            pending = true;
        } else {
            if pending {
                out.push(SEPARATOR);
                pending = false;
            }
            out.push(c);
        }
    }
    proof {
        assert(path@.take(path@.len() as int) == path@);
    }
    if pending && out.as_str().is_empty() {
        out.push(SEPARATOR);
    }
    out
}

/// Splits `path` at its separators.
fn split(path: &Vec<char>) -> (parts: Vec<Vec<char>>)
    ensures
        segment_views(parts@) == segments(path@),
{
    let mut parts: Vec<Vec<char>> = Vec::new();
    let mut current: Vec<char> = Vec::new();
    let mut i: usize = 0;
    while i < path.len()
        invariant
            i <= path.len(),
            segments(path@.take(i as int)) == segment_views(parts@).push(current@),
        decreases path.len() - i,
    {
        proof {
            let seen = path@.take(i + 1);
            assert(seen.drop_last() == path@.take(i as int));
            assert(seen.last() == path@[i as int]);
        }
        let ghost before = segment_views(parts@);
        let ghost open_segment = current@;
        if path[i] == SEPARATOR {
            parts.push(current);
            current = Vec::new();
            assert(segment_views(parts@) == before.push(open_segment));
        } else {
            current.push(path[i]);
            assert(before.push(open_segment).drop_last() == before);
        }
        i += 1;
    }
    proof {
        assert(path@.take(path@.len() as int) == path@);
    }
    let ghost before = segment_views(parts@);
    let ghost open_segment = current@;
    parts.push(current);
    assert(segment_views(parts@) == before.push(open_segment));
    parts
}

/// Decides whether one pattern segment accepts one path segment.
fn segment_accepts(pattern: &Vec<char>, segment: &Vec<char>) -> (accepted: bool)
    ensures
        accepted == segment_matches(pattern@, segment@),
{
    if pattern.len() == 1 && pattern[0] == WILDCARD {
        return true;
    }
    if pattern.len() != segment.len() {
        return false;
    }
    let mut i: usize = 0;
    while i < pattern.len()
        invariant
            !is_wildcard(pattern@),
            pattern.len() == segment.len(),
            i <= pattern.len(),
            pattern@.take(i as int) == segment@.take(i as int),
        decreases pattern.len() - i,
    {
        if pattern[i] != segment[i] {
            return false;
        }
        proof {
            assert(pattern@.take(i + 1) == pattern@.take(i as int).push(pattern@[i as int]));
            assert(segment@.take(i + 1) == segment@.take(i as int).push(segment@[i as int]));
        }
        i += 1;
    }
    proof {
        assert(pattern@.take(pattern@.len() as int) == pattern@);
        assert(segment@.take(segment@.len() as int) == segment@);
    }
    true
}

/// Decides whether the split pattern `pattern` accepts the split path
/// `path`.
pub(crate) fn parts_accept(pattern: &Vec<Vec<char>>, path: &Vec<Vec<char>>) -> (accepted: bool)
    ensures
        accepted == segments_match(segment_views(pattern@), segment_views(path@)),
{
    if pattern.len() != path.len() {
        return false;
    }
    let mut i: usize = 0;
    while i < pattern.len()
        invariant
            pattern.len() == path.len(),
            i <= pattern.len(),
            forall|j: int|
                0 <= j < i ==> segment_matches(
                    #[trigger] segment_views(pattern@)[j],
                    segment_views(path@)[j],
                ),
        decreases pattern.len() - i,
    {
        if !segment_accepts(&pattern[i], &path[i]) {
            assert(!segment_matches(
                segment_views(pattern@)[i as int],
                segment_views(path@)[i as int],
            ));
            return false;
        }
        i += 1;
    }
    true
}

/// The segments of `path`, each as a vector of its characters.
pub(crate) fn split_path(path: &str) -> (parts: Vec<Vec<char>>)
    ensures
        segment_views(parts@) == segments(path@),
{
    let chars = chars_of(path);
    split(&chars)
}

/// Decides whether `pattern` accepts `path`, segment by segment. Neither is
/// normalized first.
pub fn accepts(pattern: &str, path: &str) -> (accepted: bool)
    ensures
        accepted == pattern_matches(pattern@, path@),
{
    let pattern_parts = split_path(pattern);
    let path_parts = split_path(path);
    parts_accept(&pattern_parts, &path_parts)
}

} // verus!
