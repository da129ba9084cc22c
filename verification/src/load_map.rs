//! A map from loads to values, kept in ascending order of load. Values under
//! the same load are kept apart by their tags.
use vstd::prelude::*;
use crate::double::Double;

verus! {

/// A value with a tag, by which values under the same load are told apart.
pub trait Tagged: Sized {
    /// The tag.
    spec fn tag(&self) -> int;

    /// The tag.
    fn id(&self) -> (res: i64)
        ensures
            res == self.tag(),
    ;
}

impl Tagged for u32 {
    open spec fn tag(&self) -> int {
        *self as int
    }

    fn id(&self) -> (res: i64) {
        *self as i64
    }
}

/// `a` comes before `b`: it has a lower load, or the same and a lower tag.
pub open spec fn precedes<V: Tagged>(a: (Double, V), b: (Double, V)) -> bool {
    a.0.rank() < b.0.rank() || (a.0.rank() == b.0.rank() && a.1.tag() < b.1.tag())
}

/// The two entries have the same load and the same tag.
pub open spec fn same_key<V: Tagged>(a: (Double, V), b: (Double, V)) -> bool {
    a.0.rank() == b.0.rank() && a.1.tag() == b.1.tag()
}

/// Every entry comes before those behind it, so that no two have the same key.
pub open spec fn ascending<V: Tagged>(s: Seq<(Double, V)>) -> bool {
    forall|i: int, j: int| 0 <= i < j < s.len() ==> precedes(#[trigger] s[i], #[trigger] s[j])
}

/// The entries after an insertion: an entry with the same key keeps its load
/// and gets the new value, otherwise a new entry stands at its place.
pub open spec fn inserted<V: Tagged>(s: Seq<(Double, V)>, load: Double, value: V) -> Seq<
    (Double, V),
>
    decreases s.len(),
{
    if s.len() == 0 {
        seq![(load, value)]
    } else if precedes(s.last(), (load, value)) {
        s.push((load, value))
    } else if same_key(s.last(), (load, value)) {
        s.drop_last().push((s.last().0, value))
    } else {
        inserted(s.drop_last(), load, value).push(s.last())
    }
}

/// There is an entry with this key.
pub open spec fn has_key<V: Tagged>(s: Seq<(Double, V)>, rank: int, tag: int) -> bool {
    exists|i: int| 0 <= i < s.len() && (#[trigger] s[i]).0.rank() == rank && s[i].1.tag() == tag
}

/// A map from loads to values. Loads are ordered by `Double::rank`.
#[derive(Debug)]
pub struct LoadMap<V> {
    entries: Vec<(Double, V)>,
}

impl<V: Tagged> LoadMap<V> {
    /// The entries in ascending order.
    pub closed spec fn view(&self) -> Seq<(Double, V)> {
        self.entries@
    }

    /// The entries are in order.
    pub open spec fn wf(&self) -> bool {
        ascending(self@)
    }

    /// The empty map.
    pub fn new() -> (res: LoadMap<V>)
        ensures
            res.wf(),
            res@ == Seq::<(Double, V)>::empty(),
    {
        LoadMap { entries: Vec::new() }
    }

    /// The number of entries.
    pub fn len(&self) -> (res: usize)
        ensures
            res == self@.len(),
    {
        self.entries.len()
    }

    /// The `i`-th entry.
    pub fn entry(&self, i: usize) -> (res: &(Double, V))
        requires
            i < self@.len(),
        ensures
            *res == self@[i as int],
    {
        &self.entries[i]
    }

    /// Replaces the value of the `i`-th entry by one with the same tag.
    pub fn set_value(&mut self, i: usize, value: V)
        requires
            old(self).wf(),
            i < old(self)@.len(),
            value.tag() == old(self)@[i as int].1.tag(),
        ensures
            final(self).wf(),
            final(self)@ == old(self)@.update(i as int, (old(self)@[i as int].0, value)),
    {
        let load: Double = self.entries[i].0;
        self.entries[i] = (load, value);
        proof {
            let s = old(self)@;
            let t = self.entries@;
            assert forall|a: int, b: int| 0 <= a < b < t.len() implies precedes(
                #[trigger] t[a],
                #[trigger] t[b],
            ) by {
                assert(precedes(s[a], s[b]));
            }
        }
    }

    /// Takes out the `i`-th entry.
    pub fn remove(&mut self, i: usize) -> (res: (Double, V))
        requires
            old(self).wf(),
            i < old(self)@.len(),
        ensures
            final(self).wf(),
            final(self)@ == old(self)@.remove(i as int),
            res == old(self)@[i as int],
    {
        self.entries.remove(i)
    }

    /// Inserts a value. An entry with the same key keeps its load and gets the
    /// new value.
    pub fn insert(&mut self, load: Double, value: V)
        requires
            old(self).wf(),
        ensures
            final(self).wf(),
            final(self)@ == inserted(old(self)@, load, value),
    {
        let id: i64 = value.id();
        let mut i: usize = self.entries.len();
        let ghost s = self.entries@;
        proof {
            law_insert(s, load, value);
            assert(s.take(s.len() as int) =~= s);
            assert(inserted(s, load, value) + s.skip(s.len() as int) =~= inserted(s, load, value));
        }
        while i > 0 && key_below(load, id, self.entries[i - 1].0, self.entries[i - 1].1.id())
            invariant
                i <= self.entries@.len(),
                self.entries@ == s,
                ascending(s),
                id == value.tag(),
                inserted(s, load, value) == inserted(s.take(i as int), load, value) + s.skip(i as int),
            decreases i,
        {
            proof {
                let t = s.take(i as int);
                assert(t.drop_last() =~= s.take(i - 1));
                assert(inserted(t, load, value) == inserted(t.drop_last(), load, value).push(t.last()));
                assert(inserted(t.drop_last(), load, value).push(t.last()) + s.skip(i as int)
                    =~= inserted(t.drop_last(), load, value) + s.skip(i - 1));
            }
            i = i - 1;
        }
        let ghost t = s.take(i as int);
        if i > 0 && !key_below(self.entries[i - 1].0, self.entries[i - 1].1.id(), load, id) {
            let kept: Double = self.entries[i - 1].0;
            self.entries[i - 1] = (kept, value);
            assert(self.entries@ =~= t.drop_last().push((kept, value)) + s.skip(i as int));
        } else {
            self.entries.insert(i, (load, value));
            assert(self.entries@ =~= t.push((load, value)) + s.skip(i as int));
            if i == 0 {
                assert(t.push((load, value)) =~= seq![(load, value)]);
            }
        }
    }

    /// Takes out the last entry.
    pub fn pop_last(&mut self) -> (res: Option<(Double, V)>)
        requires
            old(self).wf(),
        ensures
            final(self).wf(),
            res is None <==> old(self)@.len() == 0,
            res is None ==> final(self)@ == old(self)@,
            res matches Some(e) ==> e == old(self)@.last() && final(self)@ == old(self)@.drop_last(),
    {
        self.entries.pop()
    }
}

/// Whether the key of `load` and `id` comes before that of `other` and
/// `other_id`.
fn key_below(load: Double, id: i64, other: Double, other_id: i64) -> (res: bool)
    ensures
        res == (load.rank() < other.rank() || (load.rank() == other.rank() && id < other_id)),
{
    load.ranks_below(other) || (!other.ranks_below(load) && id < other_id)
}

/// An insertion puts in the new value and no other.
pub proof fn lemma_inserted_from<V: Tagged>(s: Seq<(Double, V)>, load: Double, value: V, i: int)
    requires
        0 <= i < inserted(s, load, value).len(),
    ensures
        ({
            let e = inserted(s, load, value)[i];
            (e.0.rank() == load.rank() && e.1 == value) || s.contains(e)
        }),
    decreases s.len(),
{
    let r = inserted(s, load, value);
    if s.len() > 0 {
        let d = s.drop_last();
        if precedes(s.last(), (load, value)) {
            if i < s.len() {
                assert(s[i] == r[i]);
            }
        } else if same_key(s.last(), (load, value)) {
            if i < s.len() - 1 {
                assert(s[i] == r[i]);
            }
        } else if i == r.len() - 1 {
            assert(s[s.len() - 1] == r[i]);
        } else {
            lemma_inserted_from(d, load, value, i);
            if d.contains(r[i]) {
                let k = choose|k: int| 0 <= k < d.len() && d[k] == r[i];
                assert(s[k] == r[i]);
            }
        }
    }
}

/// After an insertion the map has the new key and those that it had before.
pub proof fn law_insert_keeps_keys<V: Tagged>(
    s: Seq<(Double, V)>,
    load: Double,
    value: V,
    rank: int,
    tag: int,
)
    ensures
        has_key(inserted(s, load, value), rank, tag) <==> has_key(s, rank, tag) || (rank
            == load.rank() && tag == value.tag()),
    decreases s.len(),
{
    let r = inserted(s, load, value);
    if has_key(r, rank, tag) {
        let i = choose|i: int|
            0 <= i < r.len() && (#[trigger] r[i]).0.rank() == rank && r[i].1.tag() == tag;
        lemma_inserted_from(s, load, value, i);
        if s.contains(r[i]) {
            let k = choose|k: int| 0 <= k < s.len() && s[k] == r[i];
            assert(s[k].0.rank() == rank);
        }
    }
    if s.len() == 0 {
        assert(r[0] == (load, value));
    } else {
        let d = s.drop_last();
        let n = s.len() - 1;
        if precedes(s.last(), (load, value)) {
            assert(r[s.len() as int] == (load, value));
        } else if same_key(s.last(), (load, value)) {
            assert(r[n] == (s.last().0, value));
        } else {
            let q = inserted(d, load, value);
            law_insert_keeps_keys(d, load, value, rank, tag);
            assert(r[q.len() as int] == s.last());
            if has_key(q, rank, tag) {
                let i = choose|i: int|
                    0 <= i < q.len() && (#[trigger] q[i]).0.rank() == rank && q[i].1.tag() == tag;
                assert(r[i] == q[i]);
            }
        }
        if has_key(s, rank, tag) {
            let i = choose|i: int|
                0 <= i < s.len() && (#[trigger] s[i]).0.rank() == rank && s[i].1.tag() == tag;
            if i < n {
                assert(d[i] == s[i]);
                assert(has_key(d, rank, tag));
                if precedes(s.last(), (load, value)) || same_key(s.last(), (load, value)) {
                    assert(r[i] == s[i]);
                }
            } else if precedes(s.last(), (load, value)) {
                assert(r[n] == s[n]);
            }
        }
    }
}

/// An insertion leaves the entries with other keys as they are.
pub proof fn law_insert_keeps_others<V: Tagged>(
    s: Seq<(Double, V)>,
    load: Double,
    value: V,
    e: (Double, V),
)
    requires
        s.contains(e),
        !same_key(e, (load, value)),
    ensures
        inserted(s, load, value).contains(e),
    decreases s.len(),
{
    let r = inserted(s, load, value);
    let d = s.drop_last();
    let i = choose|i: int| 0 <= i < s.len() && s[i] == e;
    if precedes(s.last(), (load, value)) || same_key(s.last(), (load, value)) {
        assert(r[i] == e);
    } else if i == s.len() - 1 {
        assert(r[r.len() - 1] == e);
    } else {
        let q = inserted(d, load, value);
        assert(d[i] == e);
        law_insert_keeps_others(d, load, value, e);
        let k = choose|k: int| 0 <= k < q.len() && q[k] == e;
        assert(r[k] == e);
    }
}

/// After an insertion the map holds the value under its key.
pub proof fn law_insert_sets<V: Tagged>(s: Seq<(Double, V)>, load: Double, value: V) -> (at: int)
    ensures
        0 <= at < inserted(s, load, value).len(),
        inserted(s, load, value)[at].0.rank() == load.rank(),
        inserted(s, load, value)[at].1 == value,
    decreases s.len(),
{
    if s.len() == 0 {
        0
    } else if precedes(s.last(), (load, value)) {
        s.len() as int
    } else if same_key(s.last(), (load, value)) {
        s.len() - 1
    } else {
        law_insert_sets(s.drop_last(), load, value)
    }
}

/// An insertion of a new key puts in the entry as it is, beside those that are
/// there.
pub proof fn law_insert_adds<V: Tagged>(s: Seq<(Double, V)>, load: Double, value: V)
    requires
        forall|i: int| 0 <= i < s.len() ==> !same_key(#[trigger] s[i], (load, value)),
    ensures
        inserted(s, load, value).contains((load, value)),
        inserted(s, load, value).len() == s.len() + 1,
    decreases s.len(),
{
    let r = inserted(s, load, value);
    if s.len() == 0 {
        assert(r[0] == (load, value));
    } else if precedes(s.last(), (load, value)) {
        assert(r[s.len() as int] == (load, value));
    } else {
        let d = s.drop_last();
        let q = inserted(d, load, value);
        assert(!same_key(s[s.len() - 1], (load, value)));
        assert forall|i: int| 0 <= i < d.len() implies !same_key(#[trigger] d[i], (load, value)) by {
            assert(d[i] == s[i]);
        }
        law_insert_adds(d, load, value);
        let k = choose|k: int| 0 <= k < q.len() && q[k] == (load, value);
        assert(r[k] == (load, value));
    }
}

/// An insertion keeps the entries in order.
pub proof fn law_insert<V: Tagged>(s: Seq<(Double, V)>, load: Double, value: V)
    requires
        ascending(s),
    ensures
        ascending(inserted(s, load, value)),
    decreases s.len(),
{
    if s.len() > 0 && !precedes(s.last(), (load, value)) {
        let d = s.drop_last();
        let r = inserted(s, load, value);
        if same_key(s.last(), (load, value)) {
            assert forall|i: int, j: int| 0 <= i < j < r.len() implies precedes(
                #[trigger] r[i],
                #[trigger] r[j],
            ) by {
                assert(precedes(s[i], s[j]));
            }
        } else {
            let q = inserted(d, load, value);
            law_insert(d, load, value);
            assert forall|i: int, j: int| 0 <= i < j < r.len() implies precedes(
                #[trigger] r[i],
                #[trigger] r[j],
            ) by {
                if j == r.len() - 1 {
                    law_insert_keeps_keys(d, load, value, q[i].0.rank(), q[i].1.tag());
                    assert(has_key(q, q[i].0.rank(), q[i].1.tag()));
                    if has_key(d, q[i].0.rank(), q[i].1.tag()) {
                        let k = choose|k: int|
                            0 <= k < d.len() && (#[trigger] d[k]).0.rank() == q[i].0.rank()
                                && d[k].1.tag() == q[i].1.tag();
                        assert(precedes(s[k], s[s.len() - 1]));
                    }
                } else {
                    assert(precedes(q[i], q[j]));
                }
            }
        }
    }
}

} // verus!
