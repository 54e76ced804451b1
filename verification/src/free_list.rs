//! Mathematical model of a free list: a sequence of non-empty, sorted,
//! pairwise-disjoint, non-adjacent half-open ranges, together with the
//! spec-level notions the allocator's contracts are stated over (the set of
//! covered points, the total free length, and the best-fit selection rule).

use vstd::prelude::*;

use core::ops::Range;

verus! {

/// Length of a half-open range `[start, end)`.
pub open spec fn span_len(r: Range<usize>) -> int {
    r.end - r.start
}

/// Whether the point `p` lies inside the half-open range `r`.
pub open spec fn in_span(r: Range<usize>, p: int) -> bool {
    r.start <= p < r.end
}

/// Whether two half-open ranges share at least one point.
pub open spec fn overlaps(a: Range<usize>, b: Range<usize>) -> bool {
    a.start < b.end && b.start < a.end
}

/// Every entry of the list is a non-empty range.
pub open spec fn entries_nonempty(fr: Seq<Range<usize>>) -> bool {
    forall|i: int| 0 <= i < fr.len() ==> fr[i].start < fr[i].end
}

/// Consecutive entries are in ascending order with a gap between them:
/// this captures sortedness, disjointness and the absence of adjacent
/// entries in a single condition on neighbours.
pub open spec fn entries_separated(fr: Seq<Range<usize>>) -> bool {
    forall|i: int| 0 <= i < fr.len() - 1 ==> fr[i].end < fr[i + 1].start
}

/// A well-formed free list: non-empty entries, sorted, disjoint,
/// never adjacent.
pub open spec fn list_wf(fr: Seq<Range<usize>>) -> bool {
    entries_nonempty(fr) && entries_separated(fr)
}

/// Every entry lies within the outer range.
pub open spec fn entries_within(fr: Seq<Range<usize>>, outer: Range<usize>) -> bool {
    forall|i: int| 0 <= i < fr.len()
        ==> outer.start <= #[trigger] fr[i].start && fr[i].end <= outer.end
}

/// Whether the point `p` is free, i.e. covered by some entry of the list.
pub open spec fn covers(fr: Seq<Range<usize>>, p: int) -> bool {
    exists|i: int| 0 <= i < fr.len() && in_span(#[trigger] fr[i], p)
}

/// Sum of the lengths of all entries.
pub open spec fn free_total(fr: Seq<Range<usize>>) -> int
    decreases fr.len(),
{
    if fr.len() == 0 {
        0
    } else {
        span_len(fr[0]) + free_total(fr.drop_first())
    }
}

/// Whether some entry is large enough to satisfy a request of `len` units.
pub open spec fn fits(fr: Seq<Range<usize>>, len: int) -> bool {
    exists|i: int| 0 <= i < fr.len() && span_len(#[trigger] fr[i]) >= len
}

/// Index `i` is the best-fit choice for a request of `len` units: its entry
/// is large enough, no entry that is large enough is smaller, and among the
/// smallest large-enough entries it is the first one.
pub open spec fn is_best_fit(fr: Seq<Range<usize>>, len: int, i: int) -> bool {
    &&& 0 <= i < fr.len()
    &&& span_len(fr[i]) >= len
    &&& forall|j: int| 0 <= j < fr.len() && span_len(#[trigger] fr[j]) >= len
        ==> span_len(fr[i]) <= span_len(fr[j])
    &&& forall|j: int| 0 <= j < i && span_len(#[trigger] fr[j]) >= len
        ==> span_len(fr[i]) < span_len(fr[j])
}

/// The (unique) best-fit index for a request of `len` units.
pub open spec fn best_fit_index(fr: Seq<Range<usize>>, len: int) -> int {
    choose|i: int| is_best_fit(fr, len, i)
}

/// The best-fit index is unique: the smallest large-enough entry size is
/// one number, and "first among the entries of that size" picks one index.
pub proof fn lemma_best_fit_unique(fr: Seq<Range<usize>>, len: int, i1: int, i2: int)
    requires
        is_best_fit(fr, len, i1),
        is_best_fit(fr, len, i2),
    ensures
        i1 == i2,
{
    if i1 < i2 {
        assert(span_len(fr[i2]) < span_len(fr[i1]));
        assert(span_len(fr[i1]) <= span_len(fr[i2]));
    }
    if i2 < i1 {
        assert(span_len(fr[i1]) < span_len(fr[i2]));
        assert(span_len(fr[i2]) <= span_len(fr[i1]));
    }
}

/// In a well-formed list, entries at any two positions `i < j` are ordered
/// with a gap, not just consecutive ones.
pub proof fn lemma_separated_pairwise(fr: Seq<Range<usize>>, i: int, j: int)
    requires
        entries_nonempty(fr),
        entries_separated(fr),
        0 <= i < j < fr.len(),
    ensures
        fr[i].end < fr[j].start,
    decreases j - i,
{
    if j == i + 1 {
    } else {
        lemma_separated_pairwise(fr, i, j - 1);
    }
}

/// Any two distinct entries of a well-formed list are disjoint.
pub proof fn lemma_entries_disjoint(fr: Seq<Range<usize>>)
    requires
        list_wf(fr),
    ensures
        forall|i: int, j: int| 0 <= i < j < fr.len()
            ==> !overlaps(#[trigger] fr[i], #[trigger] fr[j]),
{
    assert forall|i: int, j: int| 0 <= i < j < fr.len()
        implies !overlaps(#[trigger] fr[i], #[trigger] fr[j]) by {
        lemma_separated_pairwise(fr, i, j);
    }
}

/// Two non-empty ranges overlap exactly when they share a point.
pub proof fn lemma_overlap_is_shared_point(a: Range<usize>, b: Range<usize>)
    requires
        a.start < a.end,
        b.start < b.end,
    ensures
        overlaps(a, b) <==> exists|p: int| in_span(a, p) && in_span(b, p),
{
    if overlaps(a, b) {
        let p: int = if a.start >= b.start { a.start as int } else { b.start as int };
        assert(in_span(a, p) && in_span(b, p));
    }
}

/// A well-formed free list is the canonical representation of its covered
/// point set: two well-formed lists that cover exactly the same points are
/// equal entry for entry.
pub proof fn lemma_covers_determines_list(fr1: Seq<Range<usize>>, fr2: Seq<Range<usize>>)
    requires
        list_wf(fr1),
        list_wf(fr2),
        forall|p: int| covers(fr1, p) <==> covers(fr2, p),
    ensures
        fr1 =~= fr2,
    decreases fr1.len(),
{
    if fr1.len() == 0 {
        if fr2.len() > 0 {
            assert(in_span(fr2[0], fr2[0].start as int));
            assert(covers(fr2, fr2[0].start as int));
            assert(false);
        }
    } else if fr2.len() == 0 {
        assert(in_span(fr1[0], fr1[0].start as int));
        assert(covers(fr1, fr1[0].start as int));
        assert(false);
    } else {
        lemma_heads_equal(fr1, fr2);
        lemma_heads_equal(fr2, fr1);
        assert(fr1[0].start == fr2[0].start);
        assert(fr1[0].end == fr2[0].end);
        let t1 = fr1.drop_first();
        let t2 = fr2.drop_first();
        assert forall|p: int| covers(t1, p) <==> covers(t2, p) by {
            lemma_covers_drop_first(fr1, p);
            lemma_covers_drop_first(fr2, p);
        }
        lemma_covers_determines_list(t1, t2);
        assert forall|i: int| 0 <= i < fr1.len() implies fr1[i] == fr2[i] by {
            if i > 0 {
                assert(fr1[i] == t1[i - 1]);
                assert(fr2[i] == t2[i - 1]);
            }
        }
    }
}

/// In a non-empty well-formed list, a point is covered by the tail exactly
/// when it is covered by the whole list and lies at or beyond the first
/// entry's end.
proof fn lemma_covers_drop_first(fr: Seq<Range<usize>>, p: int)
    requires
        list_wf(fr),
        fr.len() > 0,
    ensures
        covers(fr.drop_first(), p) <==> (covers(fr, p) && p >= fr[0].end),
{
    let t = fr.drop_first();
    if covers(t, p) {
        let i = choose|i: int| 0 <= i < t.len() && in_span(t[i], p);
        assert(t[i] == fr[i + 1]);
        lemma_separated_pairwise(fr, 0, i + 1);
        assert(in_span(fr[i + 1], p));
        assert(covers(fr, p));
    }
    if covers(fr, p) && p >= fr[0].end {
        let j = choose|j: int| 0 <= j < fr.len() && in_span(fr[j], p);
        assert(j > 0);
        assert(in_span(t[j - 1], p));
        assert(covers(t, p));
    }
}

/// The first entries of two non-empty well-formed lists with the same
/// covered points agree on their start and do not end before one another.
proof fn lemma_heads_equal(fr1: Seq<Range<usize>>, fr2: Seq<Range<usize>>)
    requires
        list_wf(fr1),
        list_wf(fr2),
        forall|p: int| covers(fr1, p) <==> covers(fr2, p),
        fr1.len() > 0,
        fr2.len() > 0,
    ensures
        fr2[0].start <= fr1[0].start,
        fr1[0].start == fr2[0].start ==> fr1[0].end <= fr2[0].end,
{
    let s: int = fr1[0].start as int;
    assert(in_span(fr1[0], s));
    assert(covers(fr1, s));
    let j = choose|j: int| 0 <= j < fr2.len() && in_span(fr2[j], s);
    if j > 0 {
        lemma_separated_pairwise(fr2, 0, j);
    }
    assert(fr2[0].start <= fr1[0].start);
    if fr1[0].start == fr2[0].start && fr1[0].end > fr2[0].end {
        let e: int = fr2[0].end as int;
        assert(in_span(fr1[0], e));
        assert(covers(fr1, e));
        let k = choose|k: int| 0 <= k < fr2.len() && in_span(fr2[k], e);
        if k > 0 {
            lemma_separated_pairwise(fr2, 0, k);
        }
        assert(false);
    }
}

/// Removing the entry at `i` lowers the total free length by that
/// entry's length.
pub proof fn lemma_free_total_remove(fr: Seq<Range<usize>>, i: int)
    requires
        0 <= i < fr.len(),
    ensures
        free_total(fr.remove(i)) == free_total(fr) - span_len(fr[i]),
    decreases fr.len(),
{
    if i == 0 {
        assert(fr.remove(0) =~= fr.drop_first());
    } else {
        lemma_free_total_remove(fr.drop_first(), i - 1);
        assert(fr.remove(i).drop_first() =~= fr.drop_first().remove(i - 1));
    }
}

/// Replacing the entry at `i` changes the total free length by the
/// difference of the two entries' lengths.
pub proof fn lemma_free_total_update(fr: Seq<Range<usize>>, i: int, r: Range<usize>)
    requires
        0 <= i < fr.len(),
    ensures
        free_total(fr.update(i, r)) == free_total(fr) - span_len(fr[i]) + span_len(r),
    decreases fr.len(),
{
    if i == 0 {
        assert(fr.update(0, r).drop_first() =~= fr.drop_first());
    } else {
        lemma_free_total_update(fr.drop_first(), i - 1, r);
        assert(fr.update(i, r).drop_first() =~= fr.drop_first().update(i - 1, r));
    }
}

/// Inserting an entry at `i` raises the total free length by that
/// entry's length.
pub proof fn lemma_free_total_insert(fr: Seq<Range<usize>>, i: int, r: Range<usize>)
    requires
        0 <= i <= fr.len(),
    ensures
        free_total(fr.insert(i, r)) == free_total(fr) + span_len(r),
    decreases fr.len(),
{
    if i == 0 {
        assert(fr.insert(0, r).drop_first() =~= fr);
    } else {
        lemma_free_total_insert(fr.drop_first(), i - 1, r);
        assert(fr.insert(i, r).drop_first() =~= fr.drop_first().insert(i - 1, r));
    }
}

} // verus!
