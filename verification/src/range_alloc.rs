//! A best-fit allocator over a fixed half-open `usize` interval. It keeps a
//! free list that is sorted by ascending start, pairwise disjoint, free of
//! adjacent entries and free of empty entries; every operation's contract
//! states exactly how the set of free points and the total free length
//! change.

use vstd::prelude::*;

use core::ops::Range;

use crate::free_list::{
    best_fit_index, covers, entries_within, fits, free_total, in_span, is_best_fit,
    lemma_best_fit_unique, lemma_covers_determines_list, lemma_entries_disjoint,
    lemma_free_total_insert, lemma_free_total_remove, lemma_free_total_update,
    lemma_overlap_is_shared_point, lemma_separated_pairwise, list_wf, overlaps, span_len,
};

verus! {

/// Removing one entry keeps the free list well-formed, and the removed
/// entry's points are exactly the points that stop being covered.
proof fn lemma_covers_remove_entry(fr: Seq<Range<usize>>, init: Range<usize>, i: int)
    requires
        list_wf(fr),
        entries_within(fr, init),
        0 <= i < fr.len(),
    ensures
        list_wf(fr.remove(i)),
        entries_within(fr.remove(i), init),
        forall|p: int| covers(fr.remove(i), p) <==> (covers(fr, p) && !in_span(fr[i], p)),
{
    let nf = fr.remove(i);
    assert forall|j: int| 0 <= j < nf.len()
        implies #[trigger] nf[j] == (if j < i { fr[j] } else { fr[j + 1] }) by {}
    assert forall|j: int| 0 <= j < nf.len() - 1 implies nf[j].end < nf[j + 1].start by {
        if j == i - 1 {
            lemma_separated_pairwise(fr, i - 1, i + 1);
        }
    }
    assert forall|p: int| covers(nf, p) <==> (covers(fr, p) && !in_span(fr[i], p)) by {
        if covers(nf, p) {
            let j = choose|j: int| 0 <= j < nf.len() && in_span(nf[j], p);
            let j2: int = if j < i { j } else { j + 1 };
            assert(in_span(fr[j2], p));
            assert(covers(fr, p));
            if in_span(fr[i], p) {
                if j2 < i {
                    lemma_separated_pairwise(fr, j2, i);
                } else {
                    lemma_separated_pairwise(fr, i, j2);
                }
                assert(false);
            }
        }
        if covers(fr, p) && !in_span(fr[i], p) {
            let j = choose|j: int| 0 <= j < fr.len() && in_span(fr[j], p);
            let j2: int = if j < i { j } else { j - 1 };
            assert(in_span(nf[j2], p));
            assert(covers(nf, p));
        }
    }
}

/// Carving `len` units from the low end of the entry at `i` (without
/// consuming it) keeps the free list well-formed, and exactly the carved
/// points stop being covered.
proof fn lemma_covers_shrink_entry(fr: Seq<Range<usize>>, init: Range<usize>, i: int, len: int)
    requires
        list_wf(fr),
        entries_within(fr, init),
        0 <= i < fr.len(),
        0 <= len < span_len(fr[i]),
    ensures
        ({
            let nf = fr.update(i, (Range { start: (fr[i].start + len) as usize, end: fr[i].end }));
            &&& list_wf(nf)
            &&& entries_within(nf, init)
            &&& forall|p: int| covers(nf, p)
                <==> (covers(fr, p) && !(fr[i].start <= p < fr[i].start + len))
        }),
{
    let nf = fr.update(i, (Range { start: (fr[i].start + len) as usize, end: fr[i].end }));
    assert forall|p: int| covers(nf, p)
        <==> (covers(fr, p) && !(fr[i].start <= p < fr[i].start + len)) by {
        if covers(nf, p) {
            let j = choose|j: int| 0 <= j < nf.len() && in_span(nf[j], p);
            if j == i {
                assert(in_span(fr[i], p));
            } else {
                assert(in_span(fr[j], p));
                if fr[i].start <= p < fr[i].start + len {
                    if j < i {
                        lemma_separated_pairwise(fr, j, i);
                    } else {
                        lemma_separated_pairwise(fr, i, j);
                    }
                    assert(false);
                }
            }
            assert(covers(fr, p));
        }
        if covers(fr, p) && !(fr[i].start <= p < fr[i].start + len) {
            let j = choose|j: int| 0 <= j < fr.len() && in_span(fr[j], p);
            if j == i {
                assert(in_span(nf[i], p));
            } else {
                assert(in_span(nf[j], p));
            }
            assert(covers(nf, p));
        }
    }
}

/// Inserting a range that neither overlaps nor touches any entry, at its
/// sorted position `i`, keeps the free list well-formed and adds exactly the
/// range's points to the covered set.
proof fn lemma_free_insert(
    fr: Seq<Range<usize>>,
    nf: Seq<Range<usize>>,
    init: Range<usize>,
    r: Range<usize>,
    i: int,
)
    requires
        nf == fr.insert(i, r),
        list_wf(fr),
        entries_within(fr, init),
        init.start <= r.start,
        r.end <= init.end,
        r.start < r.end,
        0 <= i <= fr.len(),
        i > 0 ==> fr[i - 1].end < r.start,
        i < fr.len() ==> fr[i].start > r.end,
    ensures
        list_wf(nf),
        entries_within(nf, init),
        forall|p: int| covers(nf, p) <==> (covers(fr, p) || in_span(r, p)),
        free_total(nf) == free_total(fr) + span_len(r),
{
    assert forall|j: int| 0 <= j < nf.len()
        implies #[trigger] nf[j] == (if j < i { fr[j] } else if j == i { r } else { fr[j - 1] }) by {}
    assert forall|p: int| covers(nf, p) <==> (covers(fr, p) || in_span(r, p)) by {
        if covers(nf, p) {
            let j = choose|j: int| 0 <= j < nf.len() && in_span(nf[j], p);
            if j < i {
                assert(in_span(fr[j], p));
            } else if j > i {
                assert(in_span(fr[j - 1], p));
            }
        }
        if covers(fr, p) {
            let j = choose|j: int| 0 <= j < fr.len() && in_span(fr[j], p);
            if j < i {
                assert(in_span(nf[j], p));
            } else {
                assert(in_span(nf[j + 1], p));
            }
        }
        if in_span(r, p) {
            assert(in_span(nf[i], p));
        }
    }
    lemma_free_total_insert(fr, i, r);
}

/// Extending the entry just left of the freed range (whose end touches the
/// range's start) up to the range's end keeps the free list well-formed and
/// adds exactly the range's points to the covered set.
proof fn lemma_free_extend_left(
    fr: Seq<Range<usize>>,
    nf: Seq<Range<usize>>,
    init: Range<usize>,
    r: Range<usize>,
    i: int,
)
    requires
        nf == fr.update(i - 1, (Range { start: fr[i - 1].start, end: r.end })),
        list_wf(fr),
        entries_within(fr, init),
        r.end <= init.end,
        r.start < r.end,
        0 < i <= fr.len(),
        fr[i - 1].end == r.start,
        i < fr.len() ==> fr[i].start > r.end,
    ensures
        list_wf(nf),
        entries_within(nf, init),
        forall|p: int| covers(nf, p) <==> (covers(fr, p) || in_span(r, p)),
        free_total(nf) == free_total(fr) + span_len(r),
{
    let ext = Range { start: fr[i - 1].start, end: r.end };
    assert forall|p: int| covers(nf, p) <==> (covers(fr, p) || in_span(r, p)) by {
        if covers(nf, p) {
            let j = choose|j: int| 0 <= j < nf.len() && in_span(nf[j], p);
            if j == i - 1 {
                assert(in_span(fr[i - 1], p) || in_span(r, p));
            } else {
                assert(in_span(fr[j], p));
            }
        }
        if covers(fr, p) {
            let j = choose|j: int| 0 <= j < fr.len() && in_span(fr[j], p);
            if j == i - 1 {
                assert(in_span(nf[i - 1], p));
            } else {
                assert(in_span(nf[j], p));
            }
        }
        if in_span(r, p) {
            assert(in_span(nf[i - 1], p));
        }
    }
    lemma_free_total_update(fr, i - 1, ext);
}

/// Extending the entry just right of the freed range (whose start touches
/// the range's end) down to the range's start keeps the free list
/// well-formed and adds exactly the range's points to the covered set.
proof fn lemma_free_extend_right(
    fr: Seq<Range<usize>>,
    nf: Seq<Range<usize>>,
    init: Range<usize>,
    r: Range<usize>,
    i: int,
)
    requires
        nf == fr.update(i, (Range { start: r.start, end: fr[i].end })),
        list_wf(fr),
        entries_within(fr, init),
        init.start <= r.start,
        r.start < r.end,
        0 <= i < fr.len(),
        fr[i].start == r.end,
        i > 0 ==> fr[i - 1].end < r.start,
    ensures
        list_wf(nf),
        entries_within(nf, init),
        forall|p: int| covers(nf, p) <==> (covers(fr, p) || in_span(r, p)),
        free_total(nf) == free_total(fr) + span_len(r),
{
    let ext = Range { start: r.start, end: fr[i].end };
    assert forall|p: int| covers(nf, p) <==> (covers(fr, p) || in_span(r, p)) by {
        if covers(nf, p) {
            let j = choose|j: int| 0 <= j < nf.len() && in_span(nf[j], p);
            if j == i {
                assert(in_span(fr[i], p) || in_span(r, p));
            } else {
                assert(in_span(fr[j], p));
            }
        }
        if covers(fr, p) {
            let j = choose|j: int| 0 <= j < fr.len() && in_span(fr[j], p);
            if j == i {
                assert(in_span(nf[i], p));
            } else {
                assert(in_span(nf[j], p));
            }
        }
        if in_span(r, p) {
            assert(in_span(nf[i], p));
        }
    }
    lemma_free_total_update(fr, i, ext);
}

/// When the freed range exactly bridges the gap between the entries at
/// `i - 1` and `i`, replacing the two by their union keeps the free list
/// well-formed and adds exactly the range's points to the covered set.
proof fn lemma_free_merge_both(
    fr: Seq<Range<usize>>,
    nf: Seq<Range<usize>>,
    init: Range<usize>,
    r: Range<usize>,
    i: int,
)
    requires
        nf == fr.update(i - 1, (Range { start: fr[i - 1].start, end: fr[i].end })).remove(i),
        list_wf(fr),
        entries_within(fr, init),
        r.start < r.end,
        0 < i < fr.len(),
        fr[i - 1].end == r.start,
        fr[i].start == r.end,
    ensures
        list_wf(nf),
        entries_within(nf, init),
        forall|p: int| covers(nf, p) <==> (covers(fr, p) || in_span(r, p)),
        free_total(nf) == free_total(fr) + span_len(r),
{
    let merged = Range { start: fr[i - 1].start, end: fr[i].end };
    let upd = fr.update(i - 1, merged);
    assert forall|j: int| 0 <= j < nf.len()
        implies #[trigger] nf[j]
            == (if j < i - 1 { fr[j] } else if j == i - 1 { merged } else { fr[j + 1] }) by {}
    assert forall|j: int| 0 <= j < nf.len() - 1 implies nf[j].end < nf[j + 1].start by {}
    assert forall|p: int| covers(nf, p) <==> (covers(fr, p) || in_span(r, p)) by {
        if covers(nf, p) {
            let j = choose|j: int| 0 <= j < nf.len() && in_span(nf[j], p);
            if j == i - 1 {
                assert(in_span(fr[i - 1], p) || in_span(r, p) || in_span(fr[i], p));
            } else if j < i - 1 {
                assert(in_span(fr[j], p));
            } else {
                assert(in_span(fr[j + 1], p));
            }
        }
        if covers(fr, p) {
            let j = choose|j: int| 0 <= j < fr.len() && in_span(fr[j], p);
            if j == i - 1 || j == i {
                assert(in_span(nf[i - 1], p));
            } else if j < i - 1 {
                assert(in_span(nf[j], p));
            } else {
                assert(in_span(nf[j - 1], p));
            }
        }
        if in_span(r, p) {
            assert(in_span(nf[i - 1], p));
        }
    }
    lemma_free_total_update(fr, i - 1, merged);
    assert(upd[i] == fr[i]);
    lemma_free_total_remove(upd, i);
    assert(span_len(merged) == span_len(fr[i - 1]) + span_len(r) + span_len(fr[i]));
}

/// A best-fit free-range allocator over a fixed half-open interval.
pub struct RangeAllocator {
    /// The range this allocator covers, fixed at construction.
    pub initial_range: Range<usize>,
    /// The ranges that are currently unused, sorted by ascending start,
    /// pairwise disjoint, never adjacent and never empty.
    pub free_ranges: Vec<Range<usize>>,
}

impl RangeAllocator {
    /// The allocator's invariant: the managed interval is a proper half-open
    /// range, and the free list is well-formed and lies within it.
    pub open spec fn wf(&self) -> bool {
        &&& self.initial_range.start <= self.initial_range.end
        &&& list_wf(self.free_ranges@)
        &&& entries_within(self.free_ranges@, self.initial_range)
    }

    /// The free list as a mathematical sequence.
    pub open spec fn free_list(&self) -> Seq<Range<usize>> {
        self.free_ranges@
    }

    /// The full span under management.
    pub open spec fn spec_initial_range(&self) -> Range<usize> {
        self.initial_range
    }

    /// Creates an allocator over `range`; initially the whole span is free.
    /// A degenerate empty `range` yields an allocator whose free list is
    /// empty, so it can never satisfy an allocation.
    pub fn new(range: Range<usize>) -> (result: Self)
        requires
            range.start <= range.end,
        ensures
            result.wf(),
            result.spec_initial_range() == range,
            forall|p: int| covers(result.free_list(), p) <==> in_span(range, p),
            free_total(result.free_list()) == span_len(range),
            range.start < range.end ==> result.free_list() =~= seq![range],
            range.start == range.end ==> result.free_list() =~= Seq::<Range<usize>>::empty(),
    {
        let ghost grange = range;
        let mut free: Vec<Range<usize>> = Vec::new();
        if range.start < range.end {
            free.push(Range { start: range.start, end: range.end });
        }
        let result = RangeAllocator { initial_range: range, free_ranges: free };
        proof {
            let range = grange;
            if range.start < range.end {
                assert(result.free_list() =~= seq![range]);
                assert(result.free_list().drop_first() =~= Seq::<Range<usize>>::empty());
                assert(free_total(result.free_list().drop_first()) == 0);
                assert forall|p: int| covers(result.free_list(), p) <==> in_span(range, p) by {
                    if in_span(range, p) {
                        assert(in_span(result.free_list()[0], p));
                    }
                }
            } else {
                assert(result.free_list() =~= Seq::<Range<usize>>::empty());
                assert(free_total(result.free_list()) == 0);
            }
        }
        result
    }

    /// Returns the fixed original span.
    #[verifier::when_used_as_spec(spec_initial_range)]
    pub fn initial_range(&self) -> (result: Range<usize>)
        ensures
            result == self.spec_initial_range(),
    {
        Range { start: self.initial_range.start, end: self.initial_range.end }
    }

    /// Returns a copy of the current free list.
    pub fn free_ranges(&self) -> (result: Vec<Range<usize>>)
        ensures
            result@ == self.free_list(),
    {
        let mut copy: Vec<Range<usize>> = Vec::new();
        let n = self.free_ranges.len();
        let mut i: usize = 0;
        while i < n
            invariant
                n == self.free_ranges@.len(),
                i <= n,
                copy@ =~= self.free_ranges@.take(i as int),
            decreases n - i,
        {
            copy.push(Range { start: self.free_ranges[i].start, end: self.free_ranges[i].end });
            proof {
                assert(self.free_ranges@[i as int]
                    == (Range { start: self.free_ranges@[i as int].start, end: self.free_ranges@[i as int].end }));
                assert(self.free_ranges@.take(i + 1) =~= self.free_ranges@.take(i as int).push(self.free_ranges@[i as int]));
            }
            i = i + 1;
        }
        proof {
            assert(self.free_ranges@.take(n as int) =~= self.free_ranges@);
        }
        copy
    }

    /// Allocates `length` units by a best-fit scan of the free list: the
    /// smallest free range that is large enough wins, ties go to the entry
    /// with the lowest start, and an exact fit ends the scan at once. On
    /// success the result is carved from the low end of the chosen entry,
    /// which is shrunk in place, or removed when consumed entirely. `None`
    /// means no single free range is large enough. A request for zero units
    /// follows the same rule: it returns a zero-length range at the start of
    /// the smallest free entry, leaving the free list as it was, and `None`
    /// only when the free list is empty.
    #[verifier::rlimit(50)]
    pub fn allocate_range(&mut self, length: usize) -> (result: Option<Range<usize>>)
        requires
            old(self).wf(),
        ensures
            final(self).wf(),
            final(self).spec_initial_range() == old(self).spec_initial_range(),
            (result is Some) <==> fits(old(self).free_list(), length as int),
            result is None ==> *final(self) == *old(self),
            result matches Some(out) ==> ({
                let fr = old(self).free_list();
                let len = length as int;
                let i = best_fit_index(fr, len);
                &&& is_best_fit(fr, len, i)
                &&& out.start == fr[i].start
                &&& out.end == fr[i].start + len
                &&& (span_len(fr[i]) == len ==> final(self).free_list() == fr.remove(i))
                &&& (span_len(fr[i]) > len ==> final(self).free_list() == fr.update(
                    i,
                    (Range { start: (fr[i].start + len) as usize, end: fr[i].end }),
                ))
            }),
            result matches Some(out) ==> old(self).spec_initial_range().start <= out.start
                && out.end <= old(self).spec_initial_range().end,
            result matches Some(out) ==> forall|p: int| in_span(out, p)
                ==> covers(old(self).free_list(), p),
            result matches Some(out) ==> forall|p: int| covers(final(self).free_list(), p)
                <==> (covers(old(self).free_list(), p) && !in_span(out, p)),
            result is Some ==> free_total(final(self).free_list())
                == free_total(old(self).free_list()) - length,
    {
        let ghost fr = self.free_ranges@;
        let ghost len = length as int;
        match self.best_fit(length) {
            None => None,
            Some(bi) => {
                proof {
                    assert(is_best_fit(fr, len, bi as int));
                    lemma_best_fit_unique(fr, len, best_fit_index(fr, len), bi as int);
                    assert(best_fit_index(fr, len) == bi as int);
                }
                let rs = self.free_ranges[bi].start;
                let re = self.free_ranges[bi].end;
                let ghost out = Range { start: rs, end: (rs + len) as usize };
                proof {
                    assert forall|p: int| in_span(out, p) implies covers(fr, p) by {
                        assert(in_span(fr[bi as int], p));
                    }
                }
                if re - rs == length {
                    self.free_ranges.remove(bi);
                    proof {
                        lemma_covers_remove_entry(fr, self.initial_range, bi as int);
                        lemma_free_total_remove(fr, bi as int);
                        assert(out == fr[bi as int]);
                        assert(self.free_ranges@ == fr.remove(bi as int));
                    }
                } else {
                    self.free_ranges.set(bi, Range { start: rs + length, end: re });
                    proof {
                        let nr = Range { start: (rs + len) as usize, end: re };
                        lemma_covers_shrink_entry(fr, self.initial_range, bi as int, len);
                        lemma_free_total_update(fr, bi as int, nr);
                        assert(span_len(nr) == span_len(fr[bi as int]) - len);
                        assert(self.free_ranges@ == fr.update(bi as int, nr));
                        assert forall|p: int| covers(self.free_ranges@, p)
                            <==> (covers(fr, p) && !in_span(out, p)) by {
                            assert(in_span(out, p)
                                <==> fr[bi as int].start <= p < fr[bi as int].start + len);
                        }
                    }
                }
                Some(Range { start: rs, end: rs + length })
            },
        }
    }

    /// Scans the free list for the best-fit entry for a request of `length`
    /// units: the smallest entry that is large enough, ties broken by the
    /// scan order (ascending start), stopping early at a perfect fit.
    fn best_fit(&self, length: usize) -> (result: Option<usize>)
        requires
            self.wf(),
        ensures
            match result {
                Some(bi) => is_best_fit(self.free_list(), length as int, bi as int),
                None => !fits(self.free_list(), length as int),
            },
    {
        let ghost fr = self.free_ranges@;
        let ghost len = length as int;
        let n = self.free_ranges.len();
        let mut best: Option<usize> = None;
        let mut k: usize = 0;
        while k < n
            invariant_except_break
                k <= n,
                forall|j: int| 0 <= j < k ==> span_len(#[trigger] fr[j]) != len,
                match best {
                    Some(bi) => {
                        &&& (bi as int) < k
                        &&& span_len(fr[bi as int]) >= len
                        &&& (forall|j: int| 0 <= j < k && span_len(#[trigger] fr[j]) >= len
                            ==> span_len(fr[bi as int]) <= span_len(fr[j]))
                        &&& (forall|j: int| 0 <= j < bi && span_len(#[trigger] fr[j]) >= len
                            ==> span_len(fr[bi as int]) < span_len(fr[j]))
                    },
                    None => forall|j: int| 0 <= j < k ==> span_len(#[trigger] fr[j]) < len,
                },
            invariant
                fr == self.free_ranges@,
                n == fr.len(),
                len == length as int,
                list_wf(fr),
            ensures
                match best {
                    Some(bi) => is_best_fit(fr, len, bi as int),
                    None => !fits(fr, len),
                },
            decreases n - k,
        {
            let rs = self.free_ranges[k].start;
            let re = self.free_ranges[k].end;
            let range_length = re - rs;
            if range_length < length {
                // This entry is too small; keep scanning.
            } else if range_length == length {
                // A perfect fit cannot be improved upon.
                best = Some(k);
                break;
            } else {
                best = match best {
                    Some(bi) => {
                        let bs = self.free_ranges[bi].start;
                        let be = self.free_ranges[bi].end;
                        if range_length < be - bs {
                            Some(k)
                        } else {
                            Some(bi)
                        }
                    },
                    None => Some(k),
                };
            }
            k = k + 1;
        }
        best
    }

    /// Returns `range` to the free list at its sorted position, eagerly
    /// coalescing with an adjacent free range on either side. Fails, leaving
    /// the allocator unchanged, exactly when `range` overlaps some free
    /// entry — the signature of a double free or of freeing a range the
    /// allocator never handed out.
    pub fn free_range(&mut self, range: Range<usize>) -> (result: Result<(), ()>)
        requires
            old(self).wf(),
            old(self).spec_initial_range().start <= range.start,
            range.end <= old(self).spec_initial_range().end,
            range.start < range.end,
        ensures
            final(self).wf(),
            final(self).spec_initial_range() == old(self).spec_initial_range(),
            (result is Ok) <==> (forall|j: int| 0 <= j < old(self).free_list().len()
                ==> !overlaps(#[trigger] old(self).free_list()[j], range)),
            result is Err ==> *final(self) == *old(self),
            result is Ok ==> forall|p: int| covers(final(self).free_list(), p)
                <==> (covers(old(self).free_list(), p) || in_span(range, p)),
            result is Ok ==> free_total(final(self).free_list())
                == free_total(old(self).free_list()) + span_len(range),
    {
        let ghost fr = self.free_ranges@;
        let n = self.free_ranges.len();
        // Find the sorted position: the first entry starting at or after
        // the freed range.
        let mut i: usize = 0;
        while i < n && self.free_ranges[i].start < range.start
            invariant
                i <= n,
                n == fr.len(),
                fr == self.free_ranges@,
                forall|j: int| 0 <= j < i ==> #[trigger] fr[j].start < range.start,
            decreases n - i,
        {
            i = i + 1;
        }
        // The freed range may only overlap its immediate neighbours; by
        // sortedness every other entry lies strictly to one side of them.
        if i > 0 && self.free_ranges[i - 1].end > range.start {
            proof {
                assert(overlaps(old(self).free_list()[i - 1], range));
            }
            return Err(());
        }
        if i < n && self.free_ranges[i].start < range.end {
            proof {
                assert(overlaps(old(self).free_list()[i as int], range));
            }
            return Err(());
        }
        proof {
            assert forall|j: int| 0 <= j < old(self).free_list().len()
                implies !overlaps(#[trigger] old(self).free_list()[j], range) by {
                if j < i - 1 {
                    lemma_separated_pairwise(fr, j, i - 1);
                }
                if j > i {
                    lemma_separated_pairwise(fr, i as int, j);
                }
            }
        }
        let left_adjacent = i > 0 && self.free_ranges[i - 1].end == range.start;
        let right_adjacent = i < n && self.free_ranges[i].start == range.end;
        if left_adjacent && right_adjacent {
            // The freed range bridges its two neighbours: merge all three.
            let left_start = self.free_ranges[i - 1].start;
            let right_end = self.free_ranges[i].end;
            self.free_ranges.set(i - 1, Range { start: left_start, end: right_end });
            self.free_ranges.remove(i);
            proof {
                lemma_free_merge_both(fr, self.free_ranges@, self.initial_range, range, i as int);
            }
        } else if left_adjacent {
            // Extend the left neighbour up to the freed range's end.
            let left_start = self.free_ranges[i - 1].start;
            self.free_ranges.set(i - 1, Range { start: left_start, end: range.end });
            proof {
                lemma_free_extend_left(fr, self.free_ranges@, self.initial_range, range, i as int);
            }
        } else if right_adjacent {
            // Extend the right neighbour down to the freed range's start.
            let right_end = self.free_ranges[i].end;
            self.free_ranges.set(i, Range { start: range.start, end: right_end });
            proof {
                lemma_free_extend_right(fr, self.free_ranges@, self.initial_range, range, i as int);
            }
        } else {
            // No neighbour touches the freed range: a new entry of its own.
            self.free_ranges.insert(i, Range { start: range.start, end: range.end });
            proof {
                lemma_free_insert(fr, self.free_ranges@, self.initial_range, range, i as int);
            }
        }
        Ok(())
    }

    /// Discards the whole free list and makes the entire initial span free
    /// again, reclaiming every outstanding allocation at once.
    pub fn reset(&mut self)
        requires
            old(self).wf(),
        ensures
            final(self).wf(),
            final(self).spec_initial_range() == old(self).spec_initial_range(),
            forall|p: int| covers(final(self).free_list(), p)
                <==> in_span(final(self).spec_initial_range(), p),
            free_total(final(self).free_list()) == span_len(final(self).spec_initial_range()),
            old(self).spec_initial_range().start < old(self).spec_initial_range().end
                ==> final(self).free_list() =~= seq![old(self).spec_initial_range()],
            old(self).spec_initial_range().start == old(self).spec_initial_range().end
                ==> final(self).free_list() =~= Seq::<Range<usize>>::empty(),
    {
        self.free_ranges.clear();
        if self.initial_range.start < self.initial_range.end {
            let whole = Range { start: self.initial_range.start, end: self.initial_range.end };
            self.free_ranges.push(whole);
        }
        proof {
            let fr = self.free_ranges@;
            let init = self.initial_range;
            if init.start < init.end {
                assert(fr =~= seq![init]);
                assert(fr.drop_first() =~= Seq::<Range<usize>>::empty());
                assert(free_total(fr.drop_first()) == 0);
                assert forall|p: int| covers(fr, p) <==> in_span(init, p) by {
                    if in_span(init, p) {
                        assert(in_span(fr[0], p));
                    }
                }
            } else {
                assert(fr =~= Seq::<Range<usize>>::empty());
                assert(free_total(fr) == 0);
            }
        }
    }
}

/// Disjointness: in a well-formed allocator no two free entries overlap, and
/// a non-empty range none of whose points is free — such as any outstanding
/// allocation, by the contract of `allocate_range` — overlaps no free entry.
pub proof fn lemma_disjointness(a: RangeAllocator, r: Range<usize>)
    requires
        a.wf(),
        r.start < r.end,
        forall|p: int| in_span(r, p) ==> !covers(a.free_list(), p),
    ensures
        forall|i: int, j: int| 0 <= i < j < a.free_list().len()
            ==> !overlaps(#[trigger] a.free_list()[i], #[trigger] a.free_list()[j]),
        forall|j: int| 0 <= j < a.free_list().len()
            ==> !overlaps(#[trigger] a.free_list()[j], r),
{
    lemma_entries_disjoint(a.free_list());
    assert forall|j: int| 0 <= j < a.free_list().len()
        implies !overlaps(#[trigger] a.free_list()[j], r) by {
        lemma_overlap_is_shared_point(a.free_list()[j], r);
        if overlaps(a.free_list()[j], r) {
            let p = choose|p: int| in_span(a.free_list()[j], p) && in_span(r, p);
            assert(covers(a.free_list(), p));
        }
    }
}

/// Sortedness and no adjacency: the free list of a well-formed allocator is
/// ordered by strictly ascending start, and no two consecutive entries touch.
pub proof fn lemma_sorted_non_adjacent(a: RangeAllocator)
    requires
        a.wf(),
    ensures
        forall|i: int, j: int| 0 <= i < j < a.free_list().len()
            ==> #[trigger] a.free_list()[i].start < #[trigger] a.free_list()[j].start,
        forall|i: int| 0 <= i < a.free_list().len() - 1
            ==> #[trigger] a.free_list()[i].end != a.free_list()[i + 1].start,
{
    assert forall|i: int, j: int| 0 <= i < j < a.free_list().len()
        implies #[trigger] a.free_list()[i].start < #[trigger] a.free_list()[j].start by {
        lemma_separated_pairwise(a.free_list(), i, j);
    }
}

/// Round trip: allocating a range and then freeing exactly that range
/// restores the free list to its pre-allocation state. The hypotheses are
/// the success-case contracts of `allocate_range` (for `mid` and `out`) and
/// of `free_range` (for `post`), stated over the covered point sets; the
/// canonicity of well-formed free lists does the rest. The first conclusion
/// also shows that freeing `out` on `mid` cannot fail: `out` overlaps no
/// free entry of `mid`.
pub proof fn lemma_allocate_free_round_trip(
    pre: RangeAllocator,
    mid: RangeAllocator,
    post: RangeAllocator,
    out: Range<usize>,
)
    requires
        pre.wf(),
        mid.wf(),
        post.wf(),
        out.start < out.end,
        forall|p: int| in_span(out, p) ==> covers(pre.free_list(), p),
        forall|p: int| covers(mid.free_list(), p)
            <==> (covers(pre.free_list(), p) && !in_span(out, p)),
        forall|p: int| covers(post.free_list(), p)
            <==> (covers(mid.free_list(), p) || in_span(out, p)),
    ensures
        forall|j: int| 0 <= j < mid.free_list().len()
            ==> !overlaps(#[trigger] mid.free_list()[j], out),
        post.free_list() == pre.free_list(),
{
    lemma_disjointness(mid, out);
    assert forall|p: int| covers(post.free_list(), p) <==> covers(pre.free_list(), p) by {
        assert(in_span(out, p) ==> covers(pre.free_list(), p));
        assert(covers(mid.free_list(), p) <==> (covers(pre.free_list(), p) && !in_span(out, p)));
    }
    lemma_covers_determines_list(post.free_list(), pre.free_list());
}

/// Exhaustion: on a fresh allocator whose free list is exactly its non-empty
/// initial span, requesting the whole span is a perfect fit at the sole
/// entry, so by the contract of `allocate_range` the allocation succeeds and
/// removes that entry; the free list is then empty, and no request of any
/// length can be satisfied again.
pub proof fn lemma_exhaustion(a: RangeAllocator, length: usize)
    requires
        a.wf(),
        a.free_list() =~= seq![a.spec_initial_range()],
    ensures
        fits(a.free_list(), span_len(a.spec_initial_range())),
        is_best_fit(a.free_list(), span_len(a.spec_initial_range()), 0),
        a.free_list().remove(0).len() == 0,
        !fits(a.free_list().remove(0), length as int),
{
    assert(span_len(a.free_list()[0]) >= span_len(a.spec_initial_range()));
}

} // verus!
