//! A gap-tolerant value store. Values are appended one per logical tick, but
//! a tick may also be skipped; present values are kept as contiguous runs
//! ("chunks") so that gaps occupy no storage. The store supports appending,
//! bulk pruning of the oldest logical positions, and double-ended iteration
//! over the present values.

use vstd::prelude::*;

use crate::present::{
    lemma_present_pairs_all_none, lemma_present_pairs_all_some, lemma_present_pairs_characterize,
    lemma_present_pairs_concat, lemma_present_values_all_none, lemma_present_values_all_some,
    lemma_present_values_concat, present_pairs, present_values,
};

verus! {

/// A contiguous run of present values, starting at logical index
/// `start_offset`.
#[derive(Clone, Debug)]
struct DataChunk<D> {
    start_offset: usize,
    data: Vec<D>,
}

impl<D> DataChunk<D> {
    /// One past the last logical index this chunk covers.
    spec fn end(self) -> int {
        self.start_offset + self.data@.len()
    }
}

/// Whether chunk `c` holds the value at logical index `i`.
spec fn chunk_covers<D>(c: DataChunk<D>, i: int) -> bool {
    c.start_offset <= i < c.end()
}

/// The chunks hold values with length at least one each, at strictly
/// ascending, non-overlapping logical positions.
spec fn chunks_sorted<D>(chunks: Seq<DataChunk<D>>) -> bool {
    &&& forall|k: int| 0 <= k < chunks.len() ==> (#[trigger] chunks[k]).data@.len() >= 1
    &&& forall|j: int, k: int|
        0 <= j < k < chunks.len() ==> (#[trigger] chunks[j]).end() <= (#[trigger] chunks[k]).start_offset
}

/// The value stored at logical index `i`, reading the chunks front to back.
spec fn chunks_value_at<D>(chunks: Seq<DataChunk<D>>, i: int) -> Option<D>
    decreases chunks.len(),
{
    if chunks.len() == 0 {
        None
    } else if chunk_covers(chunks[0], i) {
        Some(chunks[0].data@[i - chunks[0].start_offset])
    } else {
        chunks_value_at(chunks.drop_first(), i)
    }
}

/// If chunk `k` covers `i`, the stored value at `i` is chunk `k`'s entry.
proof fn lemma_value_at_covered<D>(chunks: Seq<DataChunk<D>>, k: int, i: int)
    requires
        chunks_sorted(chunks),
        0 <= k < chunks.len(),
        chunk_covers(chunks[k], i),
    ensures
        chunks_value_at(chunks, i) == Some(chunks[k].data@[i - chunks[k].start_offset]),
    decreases k,
{
    if k > 0 {
        assert(chunks[0].end() <= chunks[k].start_offset);
        assert(!chunk_covers(chunks[0], i));
        assert(chunks_sorted(chunks.drop_first()));
        lemma_value_at_covered(chunks.drop_first(), k - 1, i);
    }
}

/// If no chunk covers `i`, nothing is stored at `i`.
proof fn lemma_value_at_uncovered<D>(chunks: Seq<DataChunk<D>>, i: int)
    requires
        forall|k: int| 0 <= k < chunks.len() ==> !chunk_covers(#[trigger] chunks[k], i),
    ensures
        chunks_value_at(chunks, i) is None,
    decreases chunks.len(),
{
    if chunks.len() > 0 {
        lemma_value_at_uncovered(chunks.drop_first(), i);
    }
}

/// A store of values that may have breaks: present values are kept in
/// chunks, skipped ticks only advance the logical length.
///
/// Its abstract state (the view) is a `Seq<Option<D>>` with one entry per
/// logical index: `Some(v)` where a value was pushed, `None` at a gap.
#[derive(Clone, Debug)]
pub struct ChunkedData<D> {
    next_index: usize,
    is_active: bool,
    chunks: Vec<DataChunk<D>>,
}

impl<D> View for ChunkedData<D> {
    type V = Seq<Option<D>>;

    closed spec fn view(&self) -> Seq<Option<D>> {
        Seq::new(self.next_index as nat, |i: int| chunks_value_at(self.chunks@, i))
    }
}

impl<D> Default for ChunkedData<D> {
    /// An empty, inactive store.
    fn default() -> (r: Self)
        ensures
            r.wf(),
            r@ == Seq::<Option<D>>::empty(),
            !r.spec_is_active(),
    {
        let r = ChunkedData { next_index: 0, is_active: false, chunks: Vec::new() };
        proof {
            assert(r@ =~= Seq::<Option<D>>::empty());
        }
        r
    }
}

impl<D> ChunkedData<D> {
    /// The store's internal invariant: chunks are sorted and non-overlapping,
    /// they all lie below the logical length, and an active store's last
    /// chunk ends exactly at the logical length.
    pub closed spec fn wf(self) -> bool {
        &&& chunks_sorted(self.chunks@)
        &&& self.chunks@.len() > 0 ==> self.chunks@.last().end() <= self.next_index
        &&& self.is_active ==> self.chunks@.len() > 0 && self.chunks@.last().end()
            == self.next_index
    }

    /// Whether the most recent push was a present value, so that the last
    /// chunk is still extensible.
    pub closed spec fn spec_is_active(self) -> bool {
        self.is_active
    }

    /// The start offsets of the chunks, in order.
    pub closed spec fn chunk_starts(self) -> Seq<usize> {
        self.chunks@.map_values(|c: DataChunk<D>| c.start_offset)
    }

    /// The runs of values held by the chunks, in order.
    pub closed spec fn chunk_datas(self) -> Seq<Seq<D>> {
        self.chunks@.map_values(|c: DataChunk<D>| c.data@)
    }

    proof fn lemma_last_end_bounds(self)
        requires
            self.wf(),
        ensures
            forall|k: int|
                0 <= k < self.chunks@.len() ==> (#[trigger] self.chunks@[k]).end()
                    <= self.next_index,
    {
        assert forall|k: int| 0 <= k < self.chunks@.len() implies (#[trigger] self.chunks@[k]).end()
            <= self.next_index by {
            if k < self.chunks@.len() - 1 {
                assert(self.chunks@[k].end() <= self.chunks@[self.chunks@.len() - 1].start_offset);
            }
        }
    }

    /// One past the last logical index settled before chunk `k`: the end of
    /// chunk `k - 1`, or the origin for the first chunk. For `k` equal to the
    /// chunk count this is the end of the last chunk.
    spec fn chunk_base(self, k: int) -> int {
        if k == 0 {
            0
        } else {
            self.chunks@[k - 1].end()
        }
    }

    /// The view up to the end of chunk `k` presents the view up to the
    /// chunk's base followed by exactly the chunk's values, paired with their
    /// logical indices.
    proof fn lemma_segment_step(self, k: int)
        requires
            self.wf(),
            0 <= k < self.chunks@.len(),
        ensures
            0 <= self.chunk_base(k) <= self.chunks@[k].start_offset,
            self.chunks@[k].end() <= self.next_index,
            present_values(self@.take(self.chunks@[k].end())) == present_values(
                self@.take(self.chunk_base(k)),
            ) + self.chunks@[k].data@,
            present_pairs(self@.take(self.chunks@[k].end())) == present_pairs(
                self@.take(self.chunk_base(k)),
            ) + Seq::new(
                self.chunks@[k].data@.len(),
                |t: int| (((self.chunks@[k].start_offset + t) as usize), self.chunks@[k].data@[t]),
            ),
    {
        let ck = self.chunks@[k];
        let b = self.chunk_base(k);
        let st = ck.start_offset as int;
        let en = ck.end();
        self.lemma_last_end_bounds();
        let v = self@;
        let a = v.take(b);
        let g = v.subrange(b, st);
        let m = v.subrange(st, en);
        assert(v.take(en) =~= (a + g) + m);
        assert forall|t: int| 0 <= t < g.len() implies g[t] is None by {
            let i = b + t;
            assert forall|j: int| 0 <= j < self.chunks@.len() implies !chunk_covers(
                #[trigger] self.chunks@[j],
                i,
            ) by {
                if j < k - 1 {
                    assert(self.chunks@[j].end() <= self.chunks@[k - 1].start_offset);
                } else if j > k {
                    assert(self.chunks@[k].end() <= self.chunks@[j].start_offset);
                }
            }
            lemma_value_at_uncovered(self.chunks@, i);
        }
        assert forall|t: int| 0 <= t < m.len() implies m[t] == Some(ck.data@[t]) by {
            lemma_value_at_covered(self.chunks@, k, st + t);
        }
        lemma_present_values_all_none(g);
        lemma_present_pairs_all_none(g);
        lemma_present_values_all_some(m, ck.data@);
        lemma_present_pairs_all_some(m, ck.data@);
        lemma_present_values_concat(a, g);
        lemma_present_values_concat(a + g, m);
        lemma_present_pairs_concat(a, g);
        lemma_present_pairs_concat(a + g, m);
        assert(present_values(v.take(en)) =~= present_values(a) + ck.data@);
        let pairs = Seq::new(
            ck.data@.len(),
            |t: int| (((ck.start_offset + t) as usize), ck.data@[t]),
        );
        assert(present_pairs(a) + Seq::new(
            m.len(),
            |t: int| ((t as usize), ck.data@[t]),
        ).map_values(|p: (usize, D)| (((p.0 + (a + g).len()) as usize), p.1)) =~= present_pairs(a)
            + pairs);
        assert(present_pairs(v.take(en)) =~= present_pairs(a) + pairs);
    }

    /// Beyond the last chunk the view holds only gaps, so the present values
    /// of the whole view are those up to the last chunk's end.
    proof fn lemma_tail(self)
        requires
            self.wf(),
        ensures
            present_values(self@) == present_values(
                self@.take(self.chunk_base(self.chunks@.len() as int)),
            ),
            present_pairs(self@) == present_pairs(
                self@.take(self.chunk_base(self.chunks@.len() as int)),
            ),
            0 <= self.chunk_base(self.chunks@.len() as int) <= self.next_index,
    {
        let b = self.chunk_base(self.chunks@.len() as int);
        self.lemma_last_end_bounds();
        let v = self@;
        let a = v.take(b);
        let g = v.subrange(b, v.len() as int);
        assert(v =~= a + g);
        assert forall|t: int| 0 <= t < g.len() implies g[t] is None by {
            let i = b + t;
            assert forall|j: int| 0 <= j < self.chunks@.len() implies !chunk_covers(
                #[trigger] self.chunks@[j],
                i,
            ) by {
                if j < self.chunks@.len() - 1 {
                    assert(self.chunks@[j].end() <= self.chunks@[self.chunks@.len()
                        - 1].start_offset);
                }
            }
            lemma_value_at_uncovered(self.chunks@, i);
        }
        lemma_present_values_concat(a, g);
        lemma_present_pairs_concat(a, g);
        lemma_present_values_all_none(g);
        lemma_present_pairs_all_none(g);
        assert(present_values(v) =~= present_values(a));
        assert(present_pairs(v) =~= present_pairs(a));
    }

    /// Return the "length" of the store: the count of logical positions
    /// produced so far, skipped positions included.
    pub fn length(&self) -> (r: usize)
        ensures
            r == self@.len(),
    {
        self.next_index
    }

    /// Return how many values are actually stored: the count of present
    /// entries, gaps excluded.
    pub fn num_elements(&self) -> (r: usize)
        requires
            self.wf(),
        ensures
            r == present_values(self@).len(),
    {
        let mut total: usize = 0;
        let mut k: usize = 0;
        proof {
            assert(self@.take(0) =~= Seq::<Option<D>>::empty());
        }
        while k < self.chunks.len()
            invariant
                self.wf(),
                k <= self.chunks@.len(),
                total == present_values(self@.take(self.chunk_base(k as int))).len(),
                total <= self.chunk_base(k as int) <= self.next_index,
            decreases self.chunks@.len() - k,
        {
            proof {
                self.lemma_segment_step(k as int);
            }
            total = total + self.chunks[k].data.len();
            k = k + 1;
        }
        proof {
            self.lemma_tail();
        }
        total
    }

    /// Return whether no value is stored at all (the store may still have a
    /// positive logical length made of gaps).
    pub fn no_elements(&self) -> (r: bool)
        requires
            self.wf(),
        ensures
            r <==> present_values(self@).len() == 0,
    {
        self.num_elements() == 0
    }

    /// Try and return the first present value.
    pub fn first(&self) -> (r: Option<&D>)
        requires
            self.wf(),
        ensures
            match r {
                Some(v) => present_values(self@).len() > 0 && *v == present_values(self@)[0],
                None => present_values(self@).len() == 0,
            },
    {
        if self.chunks.len() == 0 {
            proof {
                assert forall|i: int| 0 <= i < self@.len() implies self@[i] is None by {
                    lemma_value_at_uncovered(self.chunks@, i);
                }
                lemma_present_values_all_none(self@);
            }
            None
        } else {
            proof {
                self.lemma_segment_step(0);
                let en = self.chunks@[0].end();
                let v = self@;
                assert(v =~= v.take(en) + v.subrange(en, v.len() as int));
                lemma_present_values_concat(v.take(en), v.subrange(en, v.len() as int));
                assert(v.take(0) =~= Seq::<Option<D>>::empty());
                assert(present_values(v)[0] == self.chunks@[0].data@[0]);
            }
            Some(&self.chunks[0].data[0])
        }
    }

    /// Try and return the last present value.
    pub fn last(&self) -> (r: Option<&D>)
        requires
            self.wf(),
        ensures
            match r {
                Some(v) => present_values(self@).len() > 0 && *v == present_values(self@).last(),
                None => present_values(self@).len() == 0,
            },
    {
        if self.chunks.len() == 0 {
            proof {
                assert forall|i: int| 0 <= i < self@.len() implies self@[i] is None by {
                    lemma_value_at_uncovered(self.chunks@, i);
                }
                lemma_present_values_all_none(self@);
            }
            None
        } else {
            let last = self.chunks.len() - 1;
            proof {
                self.lemma_segment_step(last as int);
                self.lemma_tail();
                assert(present_values(self@).last() == self.chunks@[last as int].data@.last());
            }
            let n = self.chunks[last].data.len();
            Some(&self.chunks[last].data[n - 1])
        }
    }

    /// Push a present value. It occupies the next logical index: if the store
    /// is active the last chunk is extended, otherwise a new chunk starts.
    pub fn push(&mut self, item: D)
        requires
            old(self).wf(),
            old(self)@.len() < usize::MAX,
        ensures
            final(self).wf(),
            final(self)@ == old(self)@.push(Some(item)),
            final(self).spec_is_active(),
    {
        proof {
            self.lemma_last_end_bounds();
        }
        let ghost prev = *self;
        if self.is_active {
            let last = self.chunks.len() - 1;
            self.chunks[last].data.push(item);
        } else {
            let mut data = Vec::new();
            data.push(item);
            self.chunks.push(DataChunk { start_offset: self.next_index, data });
            self.is_active = true;
        }
        self.next_index = self.next_index + 1;
        proof {
            let n = prev.next_index as int;
            assert(chunks_sorted(self.chunks@));
            assert forall|i: int| 0 <= i < self.next_index implies chunks_value_at(self.chunks@, i)
                == old(self)@.push(Some(item))[i] by {
                let m = self.chunks@.len() as int;
                if i < n {
                    if exists|k: int| 0 <= k < prev.chunks@.len() && chunk_covers(#[trigger] prev.chunks@[k], i) {
                        let k = choose|k: int|
                            0 <= k < prev.chunks@.len() && chunk_covers(
                                #[trigger] prev.chunks@[k],
                                i,
                            );
                        lemma_value_at_covered(prev.chunks@, k, i);
                        assert(chunk_covers(self.chunks@[k], i));
                        lemma_value_at_covered(self.chunks@, k, i);
                    } else {
                        lemma_value_at_uncovered(prev.chunks@, i);
                        assert forall|k: int| 0 <= k < m implies !chunk_covers(
                            #[trigger] self.chunks@[k],
                            i,
                        ) by {
                            if k < m - 1 || prev.is_active {
                                assert(!chunk_covers(prev.chunks@[k], i));
                            } else {
                                assert(self.chunks@[k].start_offset == n);
                            }
                        }
                        lemma_value_at_uncovered(self.chunks@, i);
                    }
                } else {
                    assert(chunk_covers(self.chunks@[m - 1], i));
                    lemma_value_at_covered(self.chunks@, m - 1, i);
                }
            }
            assert(self@ =~= old(self)@.push(Some(item)));
        }
    }

    /// After a prune whose cut fell strictly before the first chunk, shifting
    /// every start offset down re-addresses the view to the suffix.
    proof fn lemma_prune_shift_only(self, prev: Self, index: usize)
        requires
            prev.wf(),
            prev.chunks@.len() > 0,
            index < prev.next_index,
            self.next_index == prev.next_index - index - 1,
            self.is_active == prev.is_active,
            self.chunks@.len() == prev.chunks@.len(),
            forall|j: int|
                0 <= j < prev.chunks@.len() ==> (#[trigger] prev.chunks@[j]).start_offset > index,
            forall|j: int|
                0 <= j < self.chunks@.len() ==> (#[trigger] self.chunks@[j]).start_offset
                    == prev.chunks@[j].start_offset - index - 1 && self.chunks@[j].data
                    == prev.chunks@[j].data,
        ensures
            self.wf(),
            self@ == prev@.subrange(index + 1, prev.next_index as int),
    {
        let d = index + 1;
        let m = self.chunks@.len() as int;
        assert forall|j: int, k: int| 0 <= j < k < m implies (#[trigger] self.chunks@[j]).end()
            <= (#[trigger] self.chunks@[k]).start_offset by {
            assert(prev.chunks@[j].end() <= prev.chunks@[k].start_offset);
        }
        assert(chunks_sorted(self.chunks@));
        prev.lemma_last_end_bounds();
        assert(self.chunks@.last().end() == prev.chunks@.last().end() - d);
        assert(self.wf());
        assert forall|i: int| 0 <= i < self.next_index implies chunks_value_at(self.chunks@, i)
            == chunks_value_at(prev.chunks@, i + d) by {
            if exists|k: int| 0 <= k < m && chunk_covers(#[trigger] prev.chunks@[k], i + d) {
                let k = choose|k: int|
                    0 <= k < m && chunk_covers(#[trigger] prev.chunks@[k], i + d);
                lemma_value_at_covered(prev.chunks@, k, i + d);
                assert(chunk_covers(self.chunks@[k], i));
                lemma_value_at_covered(self.chunks@, k, i);
            } else {
                lemma_value_at_uncovered(prev.chunks@, i + d);
                assert forall|k: int| 0 <= k < m implies !chunk_covers(
                    #[trigger] self.chunks@[k],
                    i,
                ) by {
                    assert(!chunk_covers(prev.chunks@[k], i + d));
                }
                lemma_value_at_uncovered(self.chunks@, i);
            }
        }
        assert(self@ =~= prev@.subrange(d, prev.next_index as int));
    }

    /// After a prune whose cut fell strictly inside chunk `dc`, the store
    /// made of the trimmed chunk followed by the re-based later chunks views
    /// as the suffix.
    proof fn lemma_prune_trim(self, prev: Self, index: usize, dc: int)
        requires
            prev.wf(),
            index < prev.next_index,
            0 <= dc < prev.chunks@.len(),
            prev.chunks@[dc].start_offset <= index,
            forall|j: int|
                dc < j < prev.chunks@.len() ==> (#[trigger] prev.chunks@[j]).start_offset > index,
            index - prev.chunks@[dc].start_offset + 1 < prev.chunks@[dc].data@.len(),
            self.next_index == prev.next_index - index - 1,
            self.is_active == prev.is_active,
            self.chunks@.len() == prev.chunks@.len() - dc,
            self.chunks@[0].start_offset == 0,
            self.chunks@[0].data@ == prev.chunks@[dc].data@.subrange(
                index - prev.chunks@[dc].start_offset + 1,
                prev.chunks@[dc].data@.len() as int,
            ),
            forall|j: int|
                1 <= j < self.chunks@.len() ==> (#[trigger] self.chunks@[j]).start_offset
                    == prev.chunks@[dc + j].start_offset - index - 1 && self.chunks@[j].data
                    == prev.chunks@[dc + j].data,
        ensures
            self.wf(),
            self@ == prev@.subrange(index + 1, prev.next_index as int),
    {
        let d = index + 1;
        let m = self.chunks@.len() as int;
        let pst = prev.chunks@[dc].start_offset as int;
        let pdata = prev.chunks@[dc].data@;
        let tr = index - pst + 1;
        prev.lemma_last_end_bounds();
        assert forall|j: int, k: int| 0 <= j < k < m implies (#[trigger] self.chunks@[j]).end()
            <= (#[trigger] self.chunks@[k]).start_offset by {
            if j == 0 {
                assert(prev.chunks@[dc].end() <= prev.chunks@[dc + k].start_offset);
            } else {
                assert(prev.chunks@[dc + j].end() <= prev.chunks@[dc + k].start_offset);
            }
        }
        assert(chunks_sorted(self.chunks@));
        if m == 1 {
            assert(self.chunks@.last().end() == pdata.len() - tr);
            assert(prev.chunks@[dc].end() <= prev.next_index);
        } else {
            assert(self.chunks@.last().end() == prev.chunks@.last().end() - d);
        }
        assert(self.wf());
        assert forall|i: int| 0 <= i < self.next_index implies chunks_value_at(self.chunks@, i)
            == chunks_value_at(prev.chunks@, i + d) by {
            if i < pdata.len() - tr {
                assert(chunk_covers(self.chunks@[0], i));
                lemma_value_at_covered(self.chunks@, 0, i);
                assert(chunk_covers(prev.chunks@[dc], i + d));
                lemma_value_at_covered(prev.chunks@, dc, i + d);
                assert(self.chunks@[0].data@[i] == pdata[tr + i]);
            } else {
                if exists|k: int| 1 <= k < m && chunk_covers(#[trigger] self.chunks@[k], i) {
                    let k = choose|k: int|
                        1 <= k < m && chunk_covers(#[trigger] self.chunks@[k], i);
                    lemma_value_at_covered(self.chunks@, k, i);
                    assert(chunk_covers(prev.chunks@[dc + k], i + d));
                    lemma_value_at_covered(prev.chunks@, dc + k, i + d);
                } else {
                    assert forall|k: int| 0 <= k < m implies !chunk_covers(
                        #[trigger] self.chunks@[k],
                        i,
                    ) by {}
                    lemma_value_at_uncovered(self.chunks@, i);
                    assert forall|k: int| 0 <= k < prev.chunks@.len() implies !chunk_covers(
                        #[trigger] prev.chunks@[k],
                        i + d,
                    ) by {
                        if k < dc {
                            assert(prev.chunks@[k].end() <= prev.chunks@[dc].start_offset);
                        } else if k > dc {
                            assert(!chunk_covers(self.chunks@[k - dc], i));
                        }
                    }
                    lemma_value_at_uncovered(prev.chunks@, i + d);
                }
            }
        }
        assert(self@ =~= prev@.subrange(d, prev.next_index as int));
    }

    /// After a prune whose cut reached past chunk `dc`, the store made of the
    /// re-based later chunks views as the suffix.
    proof fn lemma_prune_drop(self, prev: Self, index: usize, dc: int)
        requires
            prev.wf(),
            index < prev.next_index,
            0 <= dc < prev.chunks@.len(),
            prev.chunks@[dc].start_offset <= index,
            index - prev.chunks@[dc].start_offset + 1 >= prev.chunks@[dc].data@.len(),
            forall|j: int|
                dc < j < prev.chunks@.len() ==> (#[trigger] prev.chunks@[j]).start_offset > index,
            self.next_index == prev.next_index - index - 1,
            self.is_active == (if self.chunks@.len() > 0 {
                prev.is_active
            } else {
                false
            }),
            self.chunks@.len() == prev.chunks@.len() - dc - 1,
            forall|j: int|
                0 <= j < self.chunks@.len() ==> (#[trigger] self.chunks@[j]).start_offset
                    == prev.chunks@[dc + 1 + j].start_offset - index - 1 && self.chunks@[j].data
                    == prev.chunks@[dc + 1 + j].data,
        ensures
            self.wf(),
            self@ == prev@.subrange(index + 1, prev.next_index as int),
    {
        let d = index + 1;
        let m = self.chunks@.len() as int;
        prev.lemma_last_end_bounds();
        assert forall|j: int, k: int| 0 <= j < k < m implies (#[trigger] self.chunks@[j]).end()
            <= (#[trigger] self.chunks@[k]).start_offset by {
            assert(prev.chunks@[dc + 1 + j].end() <= prev.chunks@[dc + 1 + k].start_offset);
        }
        assert(chunks_sorted(self.chunks@));
        if m > 0 {
            assert(self.chunks@.last().end() == prev.chunks@.last().end() - d);
            if prev.is_active {
                assert(prev.chunks@.last().end() == prev.next_index);
            }
        }
        assert(self.wf());
        assert forall|i: int| 0 <= i < self.next_index implies chunks_value_at(self.chunks@, i)
            == chunks_value_at(prev.chunks@, i + d) by {
            if exists|k: int| 0 <= k < m && chunk_covers(#[trigger] self.chunks@[k], i) {
                let k = choose|k: int| 0 <= k < m && chunk_covers(#[trigger] self.chunks@[k], i);
                lemma_value_at_covered(self.chunks@, k, i);
                assert(chunk_covers(prev.chunks@[dc + 1 + k], i + d));
                lemma_value_at_covered(prev.chunks@, dc + 1 + k, i + d);
            } else {
                lemma_value_at_uncovered(self.chunks@, i);
                assert forall|k: int| 0 <= k < prev.chunks@.len() implies !chunk_covers(
                    #[trigger] prev.chunks@[k],
                    i + d,
                ) by {
                    if k < dc {
                        assert(prev.chunks@[k].end() <= prev.chunks@[dc].start_offset);
                    } else if k > dc {
                        assert(!chunk_covers(self.chunks@[k - dc - 1], i));
                    }
                }
                lemma_value_at_uncovered(prev.chunks@, i + d);
            }
        }
        assert(self@ =~= prev@.subrange(d, prev.next_index as int));
    }

    /// Find the last chunk whose `start_offset` is at or before `index`, by
    /// binary search over the (strictly ascending) start offsets. `None`
    /// means every chunk starts after `index`.
    fn locate(&self, index: usize) -> (r: Option<usize>)
        requires
            self.wf(),
        ensures
            match r {
                None => forall|k: int|
                    0 <= k < self.chunks@.len() ==> (#[trigger] self.chunks@[k]).start_offset
                        > index,
                Some(dc) => dc < self.chunks@.len() && self.chunks@[dc as int].start_offset
                    <= index && forall|k: int|
                    dc < k < self.chunks@.len() ==> (#[trigger] self.chunks@[k]).start_offset
                        > index,
            },
    {
        let mut lo: usize = 0;
        let mut hi: usize = self.chunks.len();
        while lo < hi
            invariant
                self.wf(),
                lo <= hi <= self.chunks@.len(),
                forall|k: int|
                    0 <= k < lo ==> (#[trigger] self.chunks@[k]).start_offset <= index,
                forall|k: int|
                    hi <= k < self.chunks@.len() ==> (#[trigger] self.chunks@[k]).start_offset
                        > index,
            decreases hi - lo,
        {
            let mid = lo + (hi - lo) / 2;
            if self.chunks[mid].start_offset <= index {
                proof {
                    assert forall|k: int| 0 <= k < mid + 1 implies (#[trigger] self.chunks@[k]).start_offset
                        <= index by {
                        if k < mid {
                            assert(self.chunks@[k].end() <= self.chunks@[mid as int].start_offset);
                        }
                    }
                }
                lo = mid + 1;
            } else {
                proof {
                    assert forall|k: int| mid <= k < self.chunks@.len() implies (
                    #[trigger] self.chunks@[k]).start_offset > index by {
                        if k > mid {
                            assert(self.chunks@[mid as int].end() <= self.chunks@[k].start_offset);
                            assert(self.chunks@[mid as int].data@.len() >= 1);
                        }
                    }
                }
                hi = mid;
            }
        }
        if lo == 0 {
            None
        } else {
            Some(lo - 1)
        }
    }

    /// Remove all logical positions `0..=index`, skipped positions included,
    /// shifting everything that remains down by `index + 1`.
    ///
    /// Fails, reporting the current logical length, if the store holds no
    /// values or `index` is not an existing logical position; the store is
    /// then unchanged. On success the view becomes exactly the old view from
    /// position `index + 1` onward.
    #[verifier::loop_isolation(false)]
    pub fn prune(&mut self, index: usize) -> (r: Result<(), usize>)
        requires
            old(self).wf(),
        ensures
            final(self).wf(),
            present_values(old(self)@).len() == 0 || index >= old(self)@.len() ==> r == Err::<
                (),
                usize,
            >((old(self)@.len() as usize)) && final(self)@ == old(self)@,
            present_values(old(self)@).len() > 0 && index < old(self)@.len() ==> r == Ok::<
                (),
                usize,
            >(()) && final(self)@ == old(self)@.subrange(index + 1, old(self)@.len() as int),
    {
        if self.chunks.len() == 0 || index >= self.next_index {
            proof {
                if self.chunks@.len() == 0 {
                    assert forall|i: int| 0 <= i < self@.len() implies self@[i] is None by {
                        lemma_value_at_uncovered(self.chunks@, i);
                    }
                    lemma_present_values_all_none(self@);
                } else {
                    let st0 = self.chunks@[0].start_offset as int;
                    self.lemma_last_end_bounds();
                    lemma_value_at_covered(self.chunks@, 0, st0);
                    crate::present::lemma_present_values_some_nonempty(self@, st0);
                }
            }
            return Err(self.next_index);
        }
        proof {
            let st0 = self.chunks@[0].start_offset as int;
            self.lemma_last_end_bounds();
            lemma_value_at_covered(self.chunks@, 0, st0);
            crate::present::lemma_present_values_some_nonempty(self@, st0);
        }
        let ghost prev = *self;
        let removed = index + 1;
        let located = self.locate(index);
        self.next_index = self.next_index - removed;
        match located {
            None => {
                // The cut falls strictly before the first chunk: only offsets
                // shift, no data is removed.
                let mut k: usize = 0;
                while k < self.chunks.len()
                    invariant
                        prev.wf(),
                        self.chunks@.len() == prev.chunks@.len(),
                        k <= self.chunks@.len(),
                        removed == index + 1,
                        self.next_index == prev.next_index - removed,
                        self.is_active == prev.is_active,
                        forall|j: int|
                            0 <= j < prev.chunks@.len() ==> (#[trigger] prev.chunks@[j]).start_offset
                                > index,
                        forall|j: int|
                            0 <= j < k ==> (#[trigger] self.chunks@[j]).start_offset
                                == prev.chunks@[j].start_offset - removed
                                && self.chunks@[j].data == prev.chunks@[j].data,
                        forall|j: int|
                            k <= j < self.chunks@.len() ==> #[trigger] self.chunks@[j]
                                == prev.chunks@[j],
                    decreases self.chunks@.len() - k,
                {
                    let s = self.chunks[k].start_offset;
                    self.chunks[k].start_offset = s - removed;
                    k = k + 1;
                }
                proof {
                    self.lemma_prune_shift_only(prev, index);
                }
                Ok(())
            },
            Some(dc) => {
                let start = self.chunks[dc].start_offset;
                let to_remove = index - start + 1;
                if to_remove < self.chunks[dc].data.len() {
                    // The cut falls strictly inside the located chunk: drop
                    // its first `to_remove` values and every earlier chunk,
                    // and re-base everything that remains.
                    let kept = self.chunks.split_off(dc);
                    self.chunks = kept;
                    let mut c = self.chunks.remove(0);
                    let tail = c.data.split_off(to_remove);
                    c.data = tail;
                    c.start_offset = 0;
                    self.chunks.insert(0, c);
                    let mut k: usize = 1;
                    while k < self.chunks.len()
                        invariant
                            prev.wf(),
                            1 <= k <= self.chunks@.len(),
                            removed == index + 1,
                            self.next_index == prev.next_index - removed,
                            self.is_active == prev.is_active,
                            0 <= dc < prev.chunks@.len(),
                            prev.chunks@[dc as int].start_offset <= index,
                            forall|j: int|
                                dc < j < prev.chunks@.len() ==> (#[trigger] prev.chunks@[j]).start_offset
                                    > index,
                            self.chunks@.len() == prev.chunks@.len() - dc,
                            self.chunks@[0].start_offset == 0,
                            self.chunks@[0].data@ == prev.chunks@[dc as int].data@.subrange(
                                index - prev.chunks@[dc as int].start_offset + 1,
                                prev.chunks@[dc as int].data@.len() as int,
                            ),
                            forall|j: int|
                                1 <= j < k ==> (#[trigger] self.chunks@[j]).start_offset
                                    == prev.chunks@[dc + j].start_offset - removed
                                    && self.chunks@[j].data == prev.chunks@[dc + j].data,
                            forall|j: int|
                                k <= j < self.chunks@.len() ==> #[trigger] self.chunks@[j]
                                    == prev.chunks@[dc + j],
                        decreases self.chunks@.len() - k,
                    {
                        proof {
                            assert(prev.chunks@[dc + k].start_offset > index);
                        }
                        let s = self.chunks[k].start_offset;
                        self.chunks[k].start_offset = s - removed;
                        k = k + 1;
                    }
                    proof {
                        self.lemma_prune_trim(prev, index, dc as int);
                    }
                    Ok(())
                } else {
                    // The cut reaches or passes the located chunk's end: drop
                    // it and every earlier chunk, and re-base the rest.
                    let kept = self.chunks.split_off(dc + 1);
                    self.chunks = kept;
                    let mut k: usize = 0;
                    while k < self.chunks.len()
                        invariant
                            prev.wf(),
                            k <= self.chunks@.len(),
                            removed == index + 1,
                            self.next_index == prev.next_index - removed,
                            self.is_active == prev.is_active,
                            0 <= dc < prev.chunks@.len(),
                            forall|j: int|
                                dc < j < prev.chunks@.len() ==> (#[trigger] prev.chunks@[j]).start_offset
                                    > index,
                            self.chunks@.len() == prev.chunks@.len() - dc - 1,
                            forall|j: int|
                                0 <= j < k ==> (#[trigger] self.chunks@[j]).start_offset
                                    == prev.chunks@[dc + 1 + j].start_offset - removed
                                    && self.chunks@[j].data == prev.chunks@[dc + 1 + j].data,
                            forall|j: int|
                                k <= j < self.chunks@.len() ==> #[trigger] self.chunks@[j]
                                    == prev.chunks@[dc + 1 + j],
                        decreases self.chunks@.len() - k,
                    {
                        proof {
                            assert(prev.chunks@[dc + 1 + k].start_offset > index);
                        }
                        let s = self.chunks[k].start_offset;
                        self.chunks[k].start_offset = s - removed;
                        k = k + 1;
                    }
                    if self.chunks.len() == 0 {
                        self.is_active = false;
                    }
                    proof {
                        self.lemma_prune_drop(prev, index, dc as int);
                    }
                    Ok(())
                }
            },
        }
    }

    /// Seal the active chunk, so the next present push starts a new chunk.
    /// The logical length does not change; a break consumes index space only
    /// through `try_push` with an absent value.
    pub fn insert_break(&mut self)
        requires
            old(self).wf(),
        ensures
            final(self).wf(),
            final(self)@ == old(self)@,
            !final(self).spec_is_active(),
    {
        self.is_active = false;
    }

    /// Push a present value, or record a skipped tick: an absent value seals
    /// the active chunk (if any) and advances the logical length by one
    /// without storing anything.
    pub fn try_push(&mut self, item: Option<D>)
        requires
            old(self).wf(),
            old(self)@.len() < usize::MAX,
        ensures
            final(self).wf(),
            final(self)@ == old(self)@.push(item),
    {
        match item {
            Some(item) => {
                self.push(item);
            },
            None => {
                proof {
                    self.lemma_last_end_bounds();
                }
                let ghost prev = *self;
                self.insert_break();
                self.next_index = self.next_index + 1;
                proof {
                    let n = prev.next_index as int;
                    assert forall|i: int| 0 <= i < self.next_index implies chunks_value_at(
                        self.chunks@,
                        i,
                    ) == old(self)@.push(None)[i] by {
                        if i == n {
                            assert forall|k: int| 0 <= k < self.chunks@.len() implies !chunk_covers(
                                #[trigger] self.chunks@[k],
                                i,
                            ) by {}
                            lemma_value_at_uncovered(self.chunks@, i);
                        }
                    }
                    assert(self@ =~= old(self)@.push(None));
                }
            },
        }
    }

    /// Release excess allocated capacity after mutation; the stored values
    /// and the logical structure are unchanged.
    #[verifier::loop_isolation(false)]
    pub fn shrink_to_fit(&mut self)
        requires
            old(self).wf(),
        ensures
            final(self).wf(),
            final(self)@ == old(self)@,
            final(self).spec_is_active() == old(self).spec_is_active(),
    {
        let ghost prev = *self;
        let mut k: usize = 0;
        while k < self.chunks.len()
            invariant
                k <= self.chunks@.len(),
                self.chunks@.len() == prev.chunks@.len(),
                self.next_index == prev.next_index,
                self.is_active == prev.is_active,
                forall|j: int|
                    0 <= j < self.chunks@.len() ==> (#[trigger] self.chunks@[j]).start_offset
                        == prev.chunks@[j].start_offset && self.chunks@[j].data@
                        == prev.chunks@[j].data@,
            decreases self.chunks@.len() - k,
        {
            shrink_vec(&mut self.chunks[k].data);
            k = k + 1;
        }
        shrink_vec(&mut self.chunks);
        proof {
            assert forall|j: int, l: int| 0 <= j < l < self.chunks@.len() implies (
            #[trigger] self.chunks@[j]).end() <= (#[trigger] self.chunks@[l]).start_offset by {
                assert(prev.chunks@[j].end() <= prev.chunks@[l].start_offset);
            }
            assert(chunks_sorted(self.chunks@));
            if self.chunks@.len() > 0 {
                assert(self.chunks@.last().end() == prev.chunks@.last().end());
            }
            assert(self.wf());
            assert forall|i: int| 0 <= i < self.next_index implies chunks_value_at(
                self.chunks@,
                i,
            ) == chunks_value_at(prev.chunks@, i) by {
                lemma_value_at_congruent(self.chunks@, prev.chunks@, i);
            }
            assert(self@ =~= prev@);
        }
    }

    /// Convenience function to prune and then shrink the store.
    pub fn prune_and_shrink_to_fit(&mut self, index: usize) -> (r: Result<(), usize>)
        requires
            old(self).wf(),
        ensures
            final(self).wf(),
            present_values(old(self)@).len() == 0 || index >= old(self)@.len() ==> r == Err::<
                (),
                usize,
            >((old(self)@.len() as usize)) && final(self)@ == old(self)@,
            present_values(old(self)@).len() > 0 && index < old(self)@.len() ==> r == Ok::<
                (),
                usize,
            >(()) && final(self)@ == old(self)@.subrange(index + 1, old(self)@.len() as int),
    {
        match self.prune(index) {
            Ok(()) => {
                self.shrink_to_fit();
                Ok(())
            },
            Err(n) => Err(n),
        }
    }

    /// Return whether the most recent push was a present value, so that the
    /// last chunk is still extensible.
    pub fn is_active(&self) -> (r: bool)
        ensures
            r == self.spec_is_active(),
    {
        self.is_active
    }

    /// Return how many chunks (contiguous runs of present values) are held.
    pub fn num_chunks(&self) -> (r: usize)
        ensures
            r == self.chunk_starts().len(),
            r == self.chunk_datas().len(),
    {
        self.chunks.len()
    }

    /// Return the logical start offset of chunk `k`.
    pub fn chunk_start(&self, k: usize) -> (r: usize)
        requires
            k < self.chunk_starts().len(),
        ensures
            r == self.chunk_starts()[k as int],
    {
        self.chunks[k].start_offset
    }
}

/// Congruent chunk sequences (same start offsets, same value runs) store the
/// same value at every logical index.
proof fn lemma_value_at_congruent<D>(c1: Seq<DataChunk<D>>, c2: Seq<DataChunk<D>>, i: int)
    requires
        c1.len() == c2.len(),
        forall|k: int|
            0 <= k < c1.len() ==> (#[trigger] c1[k]).start_offset == c2[k].start_offset
                && c1[k].data@ == c2[k].data@,
    ensures
        chunks_value_at(c1, i) == chunks_value_at(c2, i),
    decreases c1.len(),
{
    if c1.len() > 0 && !chunk_covers(c1[0], i) {
        lemma_value_at_congruent(c1.drop_first(), c2.drop_first(), i);
    }
}

/// Relies on `Vec::shrink_to_fit`: it may drop excess capacity but leaves
/// the vector's contents unchanged.
#[verifier::external_body]
fn shrink_vec<T>(v: &mut Vec<T>)
    ensures
        final(v)@ == old(v)@,
{
    v.shrink_to_fit();
}

/// An iterator over values collected from a [`ChunkedData`]. It yields from
/// either end: `next` consumes the remaining values from the front,
/// `next_back` from the back, so reverse iteration yields exactly the
/// reverse of forward iteration over the same remaining sequence.
pub struct ChunkedDataIter<T> {
    items: Vec<T>,
    front: usize,
    back: usize,
}

impl<T> ChunkedDataIter<T> {
    /// The iterator's internal invariant.
    pub closed spec fn inv(self) -> bool {
        self.front <= self.back <= self.items@.len()
    }

    /// The values not yet yielded, front to back.
    pub closed spec fn remaining(self) -> Seq<T> {
        self.items@.subrange(self.front as int, self.back as int)
    }

    fn from_vec(items: Vec<T>) -> (r: Self)
        ensures
            r.inv(),
            r.remaining() == items@,
    {
        let back = items.len();
        let r = ChunkedDataIter { items, front: 0, back };
        proof {
            assert(r.remaining() =~= r.items@);
        }
        r
    }

    /// How many values remain to be yielded.
    pub fn len(&self) -> (r: usize)
        requires
            self.inv(),
        ensures
            r == self.remaining().len(),
    {
        self.back - self.front
    }
}

impl<T: Copy> ChunkedDataIter<T> {
    /// Yield the first remaining value, or `None` when none remain.
    pub fn next(&mut self) -> (r: Option<T>)
        requires
            old(self).inv(),
        ensures
            final(self).inv(),
            old(self).remaining().len() == 0 ==> r is None
                && final(self).remaining() == old(self).remaining(),
            old(self).remaining().len() > 0 ==> r == Some(old(self).remaining()[0])
                && final(self).remaining() == old(self).remaining().drop_first(),
    {
        if self.front < self.back {
            let v = self.items[self.front];
            self.front = self.front + 1;
            proof {
                assert(self.remaining() =~= old(self).remaining().drop_first());
            }
            Some(v)
        } else {
            None
        }
    }

    /// Yield the last remaining value, or `None` when none remain.
    pub fn next_back(&mut self) -> (r: Option<T>)
        requires
            old(self).inv(),
        ensures
            final(self).inv(),
            old(self).remaining().len() == 0 ==> r is None
                && final(self).remaining() == old(self).remaining(),
            old(self).remaining().len() > 0 ==> r == Some(old(self).remaining().last())
                && final(self).remaining() == old(self).remaining().drop_last(),
    {
        if self.front < self.back {
            let v = self.items[self.back - 1];
            self.back = self.back - 1;
            proof {
                assert(self.remaining() =~= old(self).remaining().drop_last());
            }
            Some(v)
        } else {
            None
        }
    }
}

impl<D: Copy> ChunkedData<D> {
    /// Collect the present values together with their logical indices, in
    /// logical order.
    #[verifier::loop_isolation(false)]
    fn collect_pairs(&self) -> (r: Vec<(usize, D)>)
        requires
            self.wf(),
        ensures
            r@ == present_pairs(self@),
    {
        let mut items: Vec<(usize, D)> = Vec::new();
        proof {
            assert(self@.take(0) =~= Seq::<Option<D>>::empty());
        }
        let mut k: usize = 0;
        while k < self.chunks.len()
            invariant
                k <= self.chunks@.len(),
                items@ == present_pairs(self@.take(self.chunk_base(k as int))),
            decreases self.chunks@.len() - k,
        {
            let start = self.chunks[k].start_offset;
            let len = self.chunks[k].data.len();
            let mut t: usize = 0;
            while t < len
                invariant
                    k < self.chunks@.len(),
                    t <= len,
                    len == self.chunks@[k as int].data@.len(),
                    start == self.chunks@[k as int].start_offset,
                    items@ == present_pairs(self@.take(self.chunk_base(k as int))) + Seq::new(
                        t as nat,
                        |j: int| (((start + j) as usize), self.chunks@[k as int].data@[j]),
                    ),
                decreases len - t,
            {
                proof {
                    self.lemma_segment_step(k as int);
                }
                items.push((start + t, self.chunks[k].data[t]));
                t = t + 1;
                proof {
                    assert(items@ =~= present_pairs(self@.take(self.chunk_base(k as int)))
                        + Seq::new(
                        t as nat,
                        |j: int| (((start + j) as usize), self.chunks@[k as int].data@[j]),
                    ));
                }
            }
            k = k + 1;
            proof {
                self.lemma_segment_step(k as int - 1);
                assert(items@ =~= present_pairs(self@.take(self.chunk_base(k as int))));
            }
        }
        proof {
            self.lemma_tail();
            assert(items@ =~= present_pairs(self@));
        }
        items
    }

    /// Returns an iterator of the present values alongside their logical
    /// indices.
    pub fn iter_with_index(&self) -> (r: ChunkedDataIter<(usize, D)>)
        requires
            self.wf(),
        ensures
            r.inv(),
            r.remaining() == present_pairs(self@),
    {
        ChunkedDataIter::from_vec(self.collect_pairs())
    }

    /// Returns an iterator of the present values, in logical order.
    #[verifier::loop_isolation(false)]
    pub fn iter(&self) -> (r: ChunkedDataIter<D>)
        requires
            self.wf(),
        ensures
            r.inv(),
            r.remaining() == present_values(self@),
    {
        let pairs = self.collect_pairs();
        proof {
            lemma_present_pairs_characterize(self@);
        }
        let mut items: Vec<D> = Vec::new();
        let mut k: usize = 0;
        while k < pairs.len()
            invariant
                k <= pairs@.len(),
                items@.len() == k as int,
                forall|j: int| 0 <= j < k ==> items@[j] == present_values(self@)[j],
            decreases pairs@.len() - k,
        {
            items.push(pairs[k].1);
            k = k + 1;
        }
        proof {
            assert(items@ =~= present_values(self@));
        }
        ChunkedDataIter::from_vec(items)
    }

    /// Returns an iterator of owned present values. This consumes the store.
    pub fn to_owned_iter(self) -> (r: ChunkedDataIter<D>)
        requires
            self.wf(),
        ensures
            r.inv(),
            r.remaining() == present_values(self@),
    {
        self.iter()
    }

    /// Given a base slice of at least the store's logical length, return an
    /// iterator pairing each present value with the base element at its
    /// logical index, in logical order. Returns `None` (never indexing out of
    /// bounds) if the base slice is too short.
    #[verifier::loop_isolation(false)]
    pub fn iter_along_base<T: Copy>(&self, base_slice: &[T]) -> (r: Option<ChunkedDataIter<(T, D)>>)
        requires
            self.wf(),
        ensures
            base_slice@.len() < self@.len() ==> r is None,
            base_slice@.len() >= self@.len() ==> (r matches Some(it) && it.inv() && it.remaining()
                == present_pairs(self@).map_values(
                |p: (usize, D)| (base_slice@[p.0 as int], p.1),
            )),
    {
        if base_slice.len() < self.length() {
            return None;
        }
        let pairs = self.collect_pairs();
        proof {
            lemma_present_pairs_characterize(self@);
        }
        let mut items: Vec<(T, D)> = Vec::new();
        let mut k: usize = 0;
        while k < pairs.len()
            invariant
                k <= pairs@.len(),
                items@.len() == k as int,
                forall|j: int|
                    0 <= j < k ==> items@[j] == (
                        base_slice@[present_pairs(self@)[j].0 as int],
                        present_pairs(self@)[j].1,
                    ),
            decreases pairs@.len() - k,
        {
            let p = pairs[k];
            items.push((base_slice[p.0], p.1));
            k = k + 1;
        }
        proof {
            assert(items@ =~= present_pairs(self@).map_values(
                |p: (usize, D)| (base_slice@[p.0 as int], p.1),
            ));
        }
        Some(ChunkedDataIter::from_vec(items))
    }

    /// Return a copy of the values in chunk `k`.
    pub fn chunk_values(&self, k: usize) -> (r: Vec<D>)
        requires
            k < self.chunk_datas().len(),
        ensures
            r@ == self.chunk_datas()[k as int],
    {
        let mut r: Vec<D> = Vec::new();
        let len = self.chunks[k].data.len();
        let mut t: usize = 0;
        while t < len
            invariant
                t <= len,
                k < self.chunks@.len(),
                len == self.chunks@[k as int].data@.len(),
                r@ == self.chunks@[k as int].data@.take(t as int),
            decreases len - t,
        {
            r.push(self.chunks[k].data[t]);
            t = t + 1;
            proof {
                assert(r@ =~= self.chunks@[k as int].data@.take(t as int));
            }
        }
        proof {
            assert(r@ =~= self.chunk_datas()[k as int]);
        }
        r
    }
}

} // verus!
