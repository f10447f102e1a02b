//! Merging a collection of possibly-wrapping key ranges into a minimal,
//! sorted, deoverlapped sequence.

use vstd::prelude::*;

use crate::range::KeyRange;

verus! {

/// One merge step at a time, starting from an accumulator `last` and the
/// ranges still to consume (which must be sorted ascending by `start`):
///
/// - a wrapping accumulator absorbs every later range, extending its end
///   past wrapping ranges;
/// - a non-wrapping accumulator absorbs any range its end reaches
///   (`last.end >= next.start`), becoming wrapping if that range wraps;
/// - a range out of the accumulator's reach ends it: the accumulator is
///   emitted and the range starts the next one.
pub open spec fn spec_merge(last: Option<KeyRange>, rest: Seq<KeyRange>) -> Seq<KeyRange>
    decreases rest.len(),
{
    match last {
        None => Seq::empty(),
        Some(acc) => {
            if rest.len() == 0 {
                seq![acc]
            } else {
                let next = rest[0];
                if acc.spec_is_wrapping() {
                    if next.spec_is_wrapping() {
                        spec_merge(Some(acc.spec_extend_end(next)), rest.drop_first())
                    } else {
                        spec_merge(Some(acc), rest.drop_first())
                    }
                } else {
                    if acc.end >= next.start {
                        if next.spec_is_wrapping() {
                            spec_merge(Some(next.spec_extend_start(acc)), rest.drop_first())
                        } else {
                            spec_merge(Some(acc.spec_extend_end(next)), rest.drop_first())
                        }
                    } else {
                        seq![acc] + spec_merge(Some(next), rest.drop_first())
                    }
                }
            }
        },
    }
}

/// The merged (deoverlapped) form of ranges sorted ascending by `start`.
pub open spec fn spec_merged(ranges: Seq<KeyRange>) -> Seq<KeyRange> {
    if ranges.len() == 0 {
        Seq::empty()
    } else {
        spec_merge(Some(ranges[0]), ranges.drop_first())
    }
}

/// The ranges are ordered ascending by `start`.
pub open spec fn sorted_by_start(s: Seq<KeyRange>) -> bool {
    forall|i: int, j: int| 0 <= i < j < s.len() ==> s[i].start <= s[j].start
}

/// A canonical sequence of regular ranges: each non-wrapping, and each
/// ending strictly before the next begins — deoverlapped, and minimal in
/// that no two of its ranges could merge any further.
pub open spec fn spec_canonical(s: Seq<KeyRange>) -> bool {
    &&& forall|i: int| 0 <= i < s.len() ==> !s[i].spec_is_wrapping()
    &&& forall|i: int| 0 <= i < s.len() - 1 ==> s[i].end < s[i + 1].start
}

/// Merging regular (non-wrapping) ranges sorted by `start` yields a
/// canonical sequence that starts where the accumulator starts.
pub proof fn lemma_merge_regular_canonical(acc: KeyRange, rest: Seq<KeyRange>)
    requires
        !acc.spec_is_wrapping(),
        forall|i: int| 0 <= i < rest.len() ==> !rest[i].spec_is_wrapping(),
        forall|i: int| 0 <= i < rest.len() ==> acc.start <= rest[i].start,
        sorted_by_start(rest),
    ensures
        ({
            let out = spec_merge(Some(acc), rest);
            &&& out.len() >= 1
            &&& out[0].start == acc.start
            &&& spec_canonical(out)
        }),
    decreases rest.len(),
{
    if rest.len() == 0 {
    } else {
        let next = rest[0];
        assert(forall|i: int| 0 <= i < rest.drop_first().len() ==> rest.drop_first()[i] == rest[i
            + 1]);
        if acc.end >= next.start {
            let acc2 = acc.spec_extend_end(next);
            lemma_merge_regular_canonical(acc2, rest.drop_first());
        } else {
            lemma_merge_regular_canonical(next, rest.drop_first());
            let out2 = spec_merge(Some(next), rest.drop_first());
            let out = seq![acc] + out2;
            assert(out[0] == acc);
            assert(forall|i: int| 1 <= i < out.len() ==> out[i] == out2[i - 1]);
            assert(spec_canonical(out));
        }
    }
}

/// A canonical sequence passes through the merge unchanged.
proof fn lemma_merge_canonical_fixed(acc: KeyRange, rest: Seq<KeyRange>)
    requires
        spec_canonical(seq![acc] + rest),
    ensures
        spec_merge(Some(acc), rest) == seq![acc] + rest,
    decreases rest.len(),
{
    let whole = seq![acc] + rest;
    assert(whole[0] == acc);
    assert(!acc.spec_is_wrapping());
    if rest.len() == 0 {
        assert(spec_merge(Some(acc), rest) =~= whole);
    } else {
        let next = rest[0];
        assert(whole[1] == next);
        assert(whole[0].end < whole[1].start);
        assert(acc.end < next.start);
        assert(seq![next] + rest.drop_first() =~= rest);
        assert(spec_canonical(seq![next] + rest.drop_first())) by {
            assert(forall|i: int| 0 <= i < rest.len() ==> rest[i] == whole[i + 1]);
        }
        lemma_merge_canonical_fixed(next, rest.drop_first());
        assert(spec_merge(Some(acc), rest) =~= whole);
    }
}

/// Merge idempotence for regular ranges: the merged form of non-wrapping
/// ranges sorted by `start`, fed through the merge again, comes out
/// unchanged.
pub proof fn lemma_merge_idempotent(ranges: Seq<KeyRange>)
    requires
        forall|i: int| 0 <= i < ranges.len() ==> !ranges[i].spec_is_wrapping(),
        sorted_by_start(ranges),
    ensures
        spec_merged(spec_merged(ranges)) == spec_merged(ranges),
{
    if ranges.len() == 0 {
    } else {
        assert(forall|i: int|
            0 <= i < ranges.drop_first().len() ==> ranges.drop_first()[i] == ranges[i + 1]);
        lemma_merge_regular_canonical(ranges[0], ranges.drop_first());
        let out = spec_merged(ranges);
        assert(seq![out[0]] + out.drop_first() =~= out);
        lemma_merge_canonical_fixed(out[0], out.drop_first());
    }
}

/// A wrapping accumulator absorbs every remaining range: once the merge
/// carries a wrapping range, exactly one range comes out, and it wraps.
pub proof fn lemma_wrapping_absorbs(acc: KeyRange, rest: Seq<KeyRange>)
    requires
        acc.spec_is_wrapping(),
    ensures
        spec_merge(Some(acc), rest).len() == 1,
        spec_merge(Some(acc), rest)[0].spec_is_wrapping(),
    decreases rest.len(),
{
    if rest.len() == 0 {
    } else {
        let next = rest[0];
        if next.spec_is_wrapping() {
            lemma_wrapping_absorbs(acc.spec_extend_end(next), rest.drop_first());
        } else {
            lemma_wrapping_absorbs(acc, rest.drop_first());
        }
    }
}

/// At most one wrapping range appears in a merged sequence, and only as its
/// last element.
pub proof fn lemma_merge_one_wrapping(acc: KeyRange, rest: Seq<KeyRange>)
    ensures
        forall|i: int|
            0 <= i < spec_merge(Some(acc), rest).len() - 1 ==> !spec_merge(
                Some(acc),
                rest,
            )[i].spec_is_wrapping(),
    decreases rest.len(),
{
    let out = spec_merge(Some(acc), rest);
    if acc.spec_is_wrapping() {
        lemma_wrapping_absorbs(acc, rest);
    } else if rest.len() == 0 {
    } else {
        let next = rest[0];
        if acc.end >= next.start {
            if next.spec_is_wrapping() {
                let acc2 = next.spec_extend_start(acc);
                lemma_merge_one_wrapping(acc2, rest.drop_first());
                assert(out == spec_merge(Some(acc2), rest.drop_first()));
                assert(forall|i: int|
                    0 <= i < out.len() - 1 ==> !spec_merge(
                        Some(acc2),
                        rest.drop_first(),
                    )[i].spec_is_wrapping());
            } else {
                let acc2 = acc.spec_extend_end(next);
                lemma_merge_one_wrapping(acc2, rest.drop_first());
                assert(out == spec_merge(Some(acc2), rest.drop_first()));
                assert(forall|i: int|
                    0 <= i < out.len() - 1 ==> !spec_merge(
                        Some(acc2),
                        rest.drop_first(),
                    )[i].spec_is_wrapping());
            }
        } else {
            lemma_merge_one_wrapping(next, rest.drop_first());
            let out2 = spec_merge(Some(next), rest.drop_first());
            assert(out == seq![acc] + out2);
            assert(out[0] == acc);
            assert forall|i: int| 0 <= i < out.len() - 1 implies !out[i].spec_is_wrapping() by {
                if i >= 1 {
                    assert(out[i] == out2[i - 1]);
                }
            }
        }
    }
}

/// Where a range lands when inserted in order of `start`: after every range
/// whose `start` is at or below its own.
pub open spec fn spec_insert_by_start(s: Seq<KeyRange>, x: KeyRange) -> Seq<KeyRange>
    decreases s.len(),
{
    if s.len() == 0 {
        seq![x]
    } else if s.last().start <= x.start {
        s.push(x)
    } else {
        spec_insert_by_start(s.drop_last(), x).push(s.last())
    }
}

/// The ranges rearranged ascending by `start` (a stable insertion sort).
pub open spec fn spec_sort_by_start(s: Seq<KeyRange>) -> Seq<KeyRange>
    decreases s.len(),
{
    if s.len() == 0 {
        Seq::empty()
    } else {
        spec_insert_by_start(spec_sort_by_start(s.drop_last()), s.last())
    }
}

proof fn lemma_insert_by_start_at(s: Seq<KeyRange>, x: KeyRange, idx: int)
    requires
        0 <= idx <= s.len(),
        idx > 0 ==> s[idx - 1].start <= x.start,
        forall|j: int| idx <= j < s.len() ==> s[j].start > x.start,
    ensures
        spec_insert_by_start(s, x) == s.insert(idx, x),
    decreases s.len(),
{
    if idx == s.len() {
        if s.len() == 0 {
            assert(s.insert(0, x) =~= seq![x]);
        } else {
            assert(s.insert(idx, x) =~= s.push(x));
        }
    } else {
        lemma_insert_by_start_at(s.drop_last(), x, idx);
        assert(s.insert(idx, x) =~= s.drop_last().insert(idx, x).push(s.last()));
    }
}

/// Inserts `x` into a vector kept ascending by `start`, after every range
/// whose `start` is at or below its own.
fn insert_range_sorted(out: &mut Vec<KeyRange>, x: KeyRange)
    ensures
        final(out)@ == spec_insert_by_start(old(out)@, x),
{
    let mut j: usize = out.len();
    while j > 0 && out[j - 1].start > x.start
        invariant
            j <= out@.len(),
            out@ == old(out)@,
            forall|t: int| j <= t < out@.len() ==> out@[t].start > x.start,
        decreases j,
    {
        j -= 1;
    }
    out.insert(j, x);
    proof {
        lemma_insert_by_start_at(old(out)@, x, j as int);
    }
}

/// A lazy, single-pass sequence of merged ranges; each call of `next` yields
/// the next maximal range.
pub struct MergedRanges {
    values: Vec<KeyRange>,
    pos: usize,
    last: Option<KeyRange>,
}

impl MergedRanges {
    /// The cursor stands inside (or just past) the backing ranges.
    pub closed spec fn wf(self) -> bool {
        self.pos <= self.values@.len()
    }

    /// The merged ranges this sequence has yet to yield, in order.
    pub closed spec fn remaining(self) -> Seq<KeyRange> {
        spec_merge(self.last, self.values@.skip(self.pos as int))
    }

    /// Yields the next merged range, or `None` once the input is exhausted.
    #[verifier::loop_isolation(false)]
    pub fn next(&mut self) -> (r: Option<KeyRange>)
        requires
            old(self).wf(),
        ensures
            final(self).wf(),
            match r {
                Some(kr) => old(self).remaining().len() > 0 && kr == old(self).remaining()[0]
                    && final(self).remaining() == old(self).remaining().drop_first(),
                None => old(self).remaining().len() == 0 && final(self).remaining().len() == 0,
            },
    {
        match self.last {
            None => None,
            Some(last0) => {
                let ghost orig_rem = old(self).remaining();
                let ghost vals = self.values@;
                let mut last = last0;

                while self.pos < self.values.len()
                    invariant
                        self.pos <= self.values@.len(),
                        self.values@ == vals,
                        self.last == Some(last0),
                        spec_merge(Some(last), self.values@.skip(self.pos as int)) == orig_rem,
                    decreases self.values@.len() - self.pos,
                {
                    let ghost rest = self.values@.skip(self.pos as int);
                    proof {
                        assert(rest[0] == self.values@[self.pos as int]);
                        assert(rest.drop_first() =~= self.values@.skip(self.pos as int + 1));
                    }
                    let next = self.values[self.pos];

                    if last.is_wrapping() {
                        if next.is_wrapping() {
                            last.extend_end(&next);
                        }
                        self.pos = self.pos + 1;
                    } else {
                        if last.end >= next.start {
                            if next.is_wrapping() {
                                let mut swapped = next;
                                swapped.extend_start(&last);
                                last = swapped;
                            } else {
                                last.extend_end(&next);
                            }
                            self.pos = self.pos + 1;
                        } else {
                            self.last = Some(next);
                            self.pos = self.pos + 1;
                            proof {
                                assert(orig_rem == seq![last] + spec_merge(
                                    Some(next),
                                    rest.drop_first(),
                                ));
                                assert(orig_rem[0] == last);
                                assert(orig_rem.drop_first() =~= spec_merge(
                                    Some(next),
                                    rest.drop_first(),
                                ));
                            }
                            return Some(last);
                        }
                    }
                }

                proof {
                    assert(self.values@.skip(self.pos as int) =~= Seq::<KeyRange>::empty());
                    assert(orig_rem == seq![last]);
                    assert(orig_rem[0] == last);
                    assert(orig_rem.drop_first() =~= Seq::<KeyRange>::empty());
                }
                self.last = None;
                Some(last)
            },
        }
    }
}

/// Sorts the provided ranges by `start` and returns a lazy sequence that
/// yields the merged (deoverlapped) ranges.
pub fn merge_ranges(ranges: Vec<KeyRange>) -> (r: MergedRanges)
    ensures
        r.wf(),
        r.remaining() == spec_merged(spec_sort_by_start(ranges@)),
{
    let ghost orig = ranges@;
    let mut sorted: Vec<KeyRange> = Vec::new();
    let mut i: usize = 0;
    proof {
        assert(orig.take(0) =~= Seq::<KeyRange>::empty());
    }
    while i < ranges.len()
        invariant
            i <= ranges@.len(),
            ranges@ == orig,
            sorted@ == spec_sort_by_start(orig.take(i as int)),
        decreases ranges@.len() - i,
    {
        let x = ranges[i];
        insert_range_sorted(&mut sorted, x);
        proof {
            assert(orig.take(i + 1).drop_last() =~= orig.take(i as int));
            assert(orig.take(i + 1).last() == orig[i as int]);
        }
        i = i + 1;
    }
    proof {
        assert(orig.take(orig.len() as int) =~= orig);
    }
    merge_ranges_sorted(sorted)
}

/// Returns a lazy sequence that yields merged (deoverlapped) ranges from the
/// input, which must be sorted ascending by `start`.
pub fn merge_ranges_sorted(ranges: Vec<KeyRange>) -> (r: MergedRanges)
    ensures
        r.wf(),
        r.remaining() == spec_merged(ranges@),
{
    if ranges.is_empty() {
        MergedRanges { values: ranges, pos: 0, last: None }
    } else {
        let first = ranges[0];
        proof {
            assert(ranges@.skip(1) =~= ranges@.drop_first());
        }
        MergedRanges { values: ranges, pos: 1, last: Some(first) }
    }
}

} // verus!
