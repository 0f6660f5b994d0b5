//! Specification vocabulary for gapped logical sequences.
//!
//! A store's abstract state is a `Seq<Option<T>>`: one entry per logical
//! index, `Some` where a value is present and `None` at a gap. The functions
//! here say what iteration over such a sequence yields, and the lemmas give
//! the algebra the store's proofs are built on.

use vstd::prelude::*;

verus! {

/// The values present in a gapped logical sequence, in logical order:
/// gaps contribute nothing.
pub open spec fn present_values<T>(s: Seq<Option<T>>) -> Seq<T>
    decreases s.len(),
{
    if s.len() == 0 {
        Seq::empty()
    } else {
        match s.last() {
            Some(v) => present_values(s.drop_last()).push(v),
            None => present_values(s.drop_last()),
        }
    }
}

/// The values present in a gapped logical sequence, each paired with its
/// logical index, in logical order. This is exactly the enumeration of the
/// sequence filtered to present entries.
pub open spec fn present_pairs<T>(s: Seq<Option<T>>) -> Seq<(usize, T)>
    decreases s.len(),
{
    if s.len() == 0 {
        Seq::empty()
    } else {
        match s.last() {
            Some(v) => present_pairs(s.drop_last()).push((((s.len() - 1) as usize), v)),
            None => present_pairs(s.drop_last()),
        }
    }
}

/// Appending a present value appends it to the present values.
pub proof fn lemma_present_values_push_some<T>(s: Seq<Option<T>>, v: T)
    ensures
        present_values(s.push(Some(v))) == present_values(s).push(v),
{
    assert(s.push(Some(v)).drop_last() =~= s);
}

/// Appending a gap leaves the present values unchanged.
pub proof fn lemma_present_values_push_none<T>(s: Seq<Option<T>>)
    ensures
        present_values(s.push(None)) == present_values(s),
{
    assert(s.push(None).drop_last() =~= s);
}

/// The present values of a concatenation are the concatenated present values.
pub proof fn lemma_present_values_concat<T>(a: Seq<Option<T>>, b: Seq<Option<T>>)
    ensures
        present_values(a + b) == present_values(a) + present_values(b),
    decreases b.len(),
{
    if b.len() == 0 {
        assert(a + b =~= a);
        assert(present_values(a) + present_values(b) =~= present_values(a));
    } else {
        lemma_present_values_concat(a, b.drop_last());
        assert((a + b).drop_last() =~= a + b.drop_last());
        assert((a + b).last() == b.last());
        match b.last() {
            Some(v) => {
                assert(present_values(a + b) == (present_values(a) + present_values(
                    b.drop_last(),
                )).push(v));
                assert((present_values(a) + present_values(b.drop_last())).push(v) =~= present_values(
                    a,
                ) + present_values(b.drop_last()).push(v));
            },
            None => {},
        }
    }
}

/// A sequence of gaps alone has no present values.
pub proof fn lemma_present_values_all_none<T>(s: Seq<Option<T>>)
    requires
        forall|i: int| 0 <= i < s.len() ==> s[i] is None,
    ensures
        present_values(s) == Seq::<T>::empty(),
    decreases s.len(),
{
    if s.len() > 0 {
        lemma_present_values_all_none(s.drop_last());
    }
}

/// A sequence without gaps presents exactly its values.
pub proof fn lemma_present_values_all_some<T>(s: Seq<Option<T>>, vals: Seq<T>)
    requires
        s.len() == vals.len(),
        forall|i: int| 0 <= i < s.len() ==> s[i] == Some(vals[i]),
    ensures
        present_values(s) == vals,
    decreases s.len(),
{
    if s.len() == 0 {
        assert(present_values(s) =~= vals);
    } else {
        lemma_present_values_all_some(s.drop_last(), vals.drop_last());
        assert(present_values(s) =~= vals);
    }
}

/// There are never more present values than logical positions: a store's
/// element count is bounded by its logical length.
pub proof fn lemma_present_values_len_bound<T>(s: Seq<Option<T>>)
    ensures
        present_values(s).len() <= s.len(),
    decreases s.len(),
{
    if s.len() > 0 {
        lemma_present_values_len_bound(s.drop_last());
    }
}

/// A present entry makes the present values non-empty.
pub proof fn lemma_present_values_some_nonempty<T>(s: Seq<Option<T>>, i: int)
    requires
        0 <= i < s.len(),
        s[i] is Some,
    ensures
        present_values(s).len() > 0,
    decreases s.len(),
{
    if i == s.len() - 1 {
    } else {
        lemma_present_values_some_nonempty(s.drop_last(), i);
    }
}

/// The indexed present values of a concatenation are those of the first part
/// followed by those of the second part with their indices shifted up by the
/// first part's length.
pub proof fn lemma_present_pairs_concat<T>(a: Seq<Option<T>>, b: Seq<Option<T>>)
    requires
        a.len() + b.len() <= usize::MAX,
    ensures
        present_pairs(a + b) == present_pairs(a) + present_pairs(b).map_values(
            |p: (usize, T)| (((p.0 + a.len()) as usize), p.1),
        ),
    decreases b.len(),
{
    let f = |p: (usize, T)| (((p.0 + a.len()) as usize), p.1);
    if b.len() == 0 {
        assert(a + b =~= a);
        assert(present_pairs(a) + present_pairs(b).map_values(f) =~= present_pairs(a));
    } else {
        lemma_present_pairs_concat(a, b.drop_last());
        assert((a + b).drop_last() =~= a + b.drop_last());
        assert((a + b).last() == b.last());
        match b.last() {
            Some(v) => {
                let pa = present_pairs(a);
                let pc = present_pairs(b.drop_last());
                let q = (((b.len() - 1) as usize), v);
                assert(present_pairs(b) == pc.push(q));
                assert(present_pairs(a + b) == (pa + pc.map_values(f)).push(f(q)));
                assert(pc.push(q).map_values(f) =~= pc.map_values(f).push(f(q)));
                assert((pa + pc.map_values(f)).push(f(q)) =~= pa + pc.map_values(f).push(f(q)));
            },
            None => {},
        }
    }
}

/// A sequence of gaps alone has no indexed present values.
pub proof fn lemma_present_pairs_all_none<T>(s: Seq<Option<T>>)
    requires
        forall|i: int| 0 <= i < s.len() ==> s[i] is None,
    ensures
        present_pairs(s) == Seq::<(usize, T)>::empty(),
    decreases s.len(),
{
    if s.len() > 0 {
        lemma_present_pairs_all_none(s.drop_last());
    }
}

/// A sequence without gaps pairs each value with its own position.
pub proof fn lemma_present_pairs_all_some<T>(s: Seq<Option<T>>, vals: Seq<T>)
    requires
        s.len() == vals.len(),
        s.len() <= usize::MAX,
        forall|i: int| 0 <= i < s.len() ==> s[i] == Some(vals[i]),
    ensures
        present_pairs(s) == Seq::new(s.len(), |i: int| ((i as usize), vals[i])),
    decreases s.len(),
{
    if s.len() == 0 {
        assert(present_pairs(s) =~= Seq::new(s.len(), |i: int| ((i as usize), vals[i])));
    } else {
        lemma_present_pairs_all_some(s.drop_last(), vals.drop_last());
        assert(present_pairs(s) =~= Seq::new(s.len(), |i: int| ((i as usize), vals[i])));
    }
}

/// Pruning re-addresses iteration: the indexed present values of a sequence
/// split at `d` into those of the prefix followed by those of the suffix
/// with every index shifted up by `d` — equivalently, iterating the pruned
/// suffix with indices reproduces iterating the original from position `d`
/// onward with indices shifted down by `d`.
pub proof fn lemma_present_pairs_after_prune<T>(s: Seq<Option<T>>, d: int)
    requires
        0 <= d <= s.len() <= usize::MAX,
    ensures
        present_pairs(s) == present_pairs(s.take(d)) + present_pairs(
            s.subrange(d, s.len() as int),
        ).map_values(|p: (usize, T)| (((p.0 + d) as usize), p.1)),
{
    let a = s.take(d);
    let b = s.subrange(d, s.len() as int);
    assert(s =~= a + b);
    lemma_present_pairs_concat(a, b);
    assert(present_pairs(b).map_values(|p: (usize, T)| (((p.0 + a.len()) as usize), p.1))
        =~= present_pairs(b).map_values(|p: (usize, T)| (((p.0 + d) as usize), p.1)));
}

/// The indexed present values enumerate the sequence filtered to its present
/// entries: each pair points at a present entry and carries its value, the
/// indices are strictly increasing, the values agree position-for-position
/// with the plain present values, and every present entry appears.
pub proof fn lemma_present_pairs_characterize<T>(s: Seq<Option<T>>)
    requires
        s.len() <= usize::MAX,
    ensures
        present_pairs(s).len() == present_values(s).len(),
        forall|k: int|
            0 <= k < present_pairs(s).len() ==> (#[trigger] present_pairs(s)[k]).0 < s.len()
                && s[present_pairs(s)[k].0 as int] == Some(present_pairs(s)[k].1) && present_pairs(
                s,
            )[k].1 == present_values(s)[k],
        forall|k1: int, k2: int|
            0 <= k1 < k2 < present_pairs(s).len() ==> (#[trigger] present_pairs(s)[k1]).0
                < (#[trigger] present_pairs(s)[k2]).0,
        forall|i: int|
            0 <= i < s.len() && s[i] is Some ==> exists|k: int|
                0 <= k < present_pairs(s).len() && (#[trigger] present_pairs(s)[k]).0 == i && Some(
                    present_pairs(s)[k].1,
                ) == s[i],
    decreases s.len(),
{
    if s.len() > 0 {
        let t = s.drop_last();
        lemma_present_pairs_characterize(t);
        assert forall|k: int| 0 <= k < present_pairs(t).len() implies present_pairs(t)[k]
            == present_pairs(s)[k] by {}
        assert forall|i: int| 0 <= i < s.len() && s[i] is Some implies exists|k: int|
            0 <= k < present_pairs(s).len() && (#[trigger] present_pairs(s)[k]).0 == i && Some(
                present_pairs(s)[k].1,
            ) == s[i] by {
            if i == s.len() - 1 {
                let k = present_pairs(s).len() - 1;
                assert(present_pairs(s)[k].0 == i && Some(present_pairs(s)[k].1) == s[i]);
            } else {
                assert(t[i] == s[i]);
                let k = choose|k: int|
                    0 <= k < present_pairs(t).len() && (#[trigger] present_pairs(t)[k]).0 == i
                        && Some(present_pairs(t)[k].1) == t[i];
                assert(present_pairs(s)[k].0 == i && Some(present_pairs(s)[k].1) == s[i]);
            }
        }
    }
}

} // verus!
