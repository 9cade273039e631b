//! The client registry: the authoritative record of currently connected
//! clients, a single mapping from client id to that client's write sink.
//!
//! Keeping one mapping (rather than parallel id-keyed tables for the two
//! halves of a connection) makes it structurally impossible for the
//! outbound and inbound records of a client to diverge. The registry is
//! generic in the sink type, so the surrounding event loop can store its
//! buffered socket writers here while every operation on the mapping is
//! verified.

use vstd::prelude::*;
use vstd::pervasive::VecAdditionalExecFns;

verus! {

/// The mapping denoted by an association list; a later entry for the
/// same id wins.
pub open spec fn map_of<W>(s: Seq<(u16, W)>) -> Map<u16, W>
    decreases s.len(),
{
    if s.len() == 0 {
        Map::empty()
    } else {
        map_of(s.drop_last()).insert(s.last().0, s.last().1)
    }
}

/// No id occurs twice in the list.
pub open spec fn unique_ids<W>(s: Seq<(u16, W)>) -> bool {
    forall|i: int, j: int|
        0 <= i < j < s.len() ==> (#[trigger] s[i]).0 != (#[trigger] s[j]).0
}

/// An id is in the mapping exactly when some entry carries it.
proof fn lemma_map_of_dom<W>(s: Seq<(u16, W)>)
    ensures
        forall|k: u16|
            #[trigger] map_of(s).dom().contains(k) <==> (exists|i: int|
                0 <= i < s.len() && (#[trigger] s[i]).0 == k),
    decreases s.len(),
{
    if s.len() > 0 {
        lemma_map_of_dom(s.drop_last());
        assert forall|k: u16| #[trigger] map_of(s).dom().contains(k) implies (exists|i: int|
            0 <= i < s.len() && (#[trigger] s[i]).0 == k) by {
            if k == s.last().0 {
                assert((s[s.len() - 1]).0 == k);
            } else {
                assert(map_of(s.drop_last()).dom().contains(k));
                let i = choose|i: int|
                    0 <= i < s.drop_last().len() && (#[trigger] s.drop_last()[i]).0 == k;
                assert((s[i]).0 == k);
            }
        };
        assert forall|k: u16|
            (exists|i: int| 0 <= i < s.len() && (#[trigger] s[i]).0 == k) implies #[trigger] map_of(
            s,
        ).dom().contains(k) by {
            let i = choose|i: int| 0 <= i < s.len() && (#[trigger] s[i]).0 == k;
            if i < s.len() - 1 {
                assert((s.drop_last()[i]).0 == k);
                assert(map_of(s.drop_last()).dom().contains(k));
            }
        };
    }
}

/// No entry carries `k`, so `k` is not in the mapping.
proof fn lemma_map_of_absent<W>(s: Seq<(u16, W)>, k: u16)
    requires
        forall|i: int| 0 <= i < s.len() ==> (#[trigger] s[i]).0 != k,
    ensures
        !map_of(s).dom().contains(k),
    decreases s.len(),
{
    if s.len() > 0 {
        assert(forall|i: int|
            0 <= i < s.drop_last().len() ==> (#[trigger] s.drop_last()[i]).0 != k);
        lemma_map_of_absent(s.drop_last(), k);
    }
}

/// With unique ids, entry `i` gives the value the mapping holds for its
/// id.
proof fn lemma_map_of_index<W>(s: Seq<(u16, W)>, i: int)
    requires
        unique_ids(s),
        0 <= i < s.len(),
    ensures
        map_of(s).dom().contains((s[i]).0),
        map_of(s)[(s[i]).0] == (s[i]).1,
    decreases s.len(),
{
    if i < s.len() - 1 {
        assert(unique_ids(s.drop_last()));
        assert((s.drop_last()[i]) == s[i]);
        lemma_map_of_index(s.drop_last(), i);
        assert((s[i]).0 != s.last().0);
    }
}

/// Replacing the value of entry `i` updates the mapping at that entry's
/// id.
proof fn lemma_map_of_update<W>(s: Seq<(u16, W)>, i: int, w: W)
    requires
        unique_ids(s),
        0 <= i < s.len(),
    ensures
        map_of(s.update(i, ((s[i]).0, w))) == map_of(s).insert((s[i]).0, w),
    decreases s.len(),
{
    let k = (s[i]).0;
    let t = s.update(i, (k, w));
    if i == s.len() - 1 {
        assert(t.drop_last() =~= s.drop_last());
        assert(t.last() == (k, w));
        assert(map_of(s.drop_last()).insert(k, w) =~= map_of(s).insert(k, w));
    } else {
        assert(unique_ids(s.drop_last()));
        assert((s.drop_last()[i]) == s[i]);
        lemma_map_of_update(s.drop_last(), i, w);
        assert(t.drop_last() =~= s.drop_last().update(i, (k, w)));
        assert(t.last() == s.last());
        assert(k != s.last().0);
        assert(map_of(s.drop_last()).insert(k, w).insert(s.last().0, s.last().1) =~= map_of(
            s.drop_last(),
        ).insert(s.last().0, s.last().1).insert(k, w));
    }
}

/// Deleting entry `i` removes that entry's id from the mapping.
proof fn lemma_map_of_delete<W>(s: Seq<(u16, W)>, i: int)
    requires
        unique_ids(s),
        0 <= i < s.len(),
    ensures
        map_of(s.remove(i)) == map_of(s).remove((s[i]).0),
    decreases s.len(),
{
    let k = (s[i]).0;
    let t = s.remove(i);
    if i == s.len() - 1 {
        assert(t =~= s.drop_last());
        assert(forall|j: int|
            0 <= j < s.drop_last().len() ==> (#[trigger] s.drop_last()[j]).0 != k);
        lemma_map_of_absent(s.drop_last(), k);
        assert(map_of(s).remove(k) =~= map_of(s.drop_last()));
    } else {
        assert(unique_ids(s.drop_last()));
        assert((s.drop_last()[i]) == s[i]);
        lemma_map_of_delete(s.drop_last(), i);
        assert(t.drop_last() =~= s.drop_last().remove(i));
        assert(t.last() == s.last());
        assert(k != s.last().0);
        assert(map_of(s.drop_last()).remove(k).insert(s.last().0, s.last().1) =~= map_of(
            s.drop_last(),
        ).insert(s.last().0, s.last().1).remove(k));
    }
}

/// The registry itself: an association list with unique ids, viewed as a
/// `Map<u16, W>`.
pub struct Registry<W> {
    entries: Vec<(u16, W)>,
}

impl<W> View for Registry<W> {
    type V = Map<u16, W>;

    closed spec fn view(&self) -> Map<u16, W> {
        map_of(self.entries@)
    }
}

impl<W> Registry<W> {
    /// Well-formedness: every id has at most one entry.
    pub closed spec fn wf(&self) -> bool {
        unique_ids(self.entries@)
    }

    /// An empty registry.
    pub fn new() -> (r: Self)
        ensures
            r.wf(),
            r@ == Map::<u16, W>::empty(),
    {
        Registry { entries: Vec::new() }
    }

    /// The position of the entry for `id`, if one exists.
    fn index_of(&self, id: u16) -> (r: Option<usize>)
        ensures
            match r {
                Some(i) => i < self.entries@.len() && (self.entries@[i as int]).0 == id,
                None => forall|j: int|
                    0 <= j < self.entries@.len() ==> (#[trigger] self.entries@[j]).0 != id,
            },
    {
        let mut i: usize = 0;
        while i < self.entries.len()
            invariant
                i <= self.entries@.len(),
                forall|j: int| 0 <= j < i ==> (#[trigger] self.entries@[j]).0 != id,
            decreases self.entries@.len() - i,
        {
            if self.entries[i].0 == id {
                return Some(i);
            }
            i = i + 1;
        }
        None
    }

    /// Whether `id` is currently registered.
    pub fn contains(&self, id: u16) -> (r: bool)
        requires
            self.wf(),
        ensures
            r == self@.dom().contains(id),
    {
        match self.index_of(id) {
            Some(i) => {
                proof {
                    lemma_map_of_index(self.entries@, i as int);
                }
                true
            },
            None => {
                proof {
                    lemma_map_of_absent(self.entries@, id);
                }
                false
            },
        }
    }

    /// Registers `id` with its write sink. A second registration of the
    /// same id silently replaces the first: the earlier sink becomes
    /// unreachable for every later lookup.
    pub fn register(&mut self, id: u16, sink: W)
        requires
            old(self).wf(),
        ensures
            final(self).wf(),
            final(self)@ == old(self)@.insert(id, sink),
    {
        let ghost s0 = self.entries@;
        match self.index_of(id) {
            Some(i) => {
                self.entries.set(i, (id, sink));
                proof {
                    lemma_map_of_update(s0, i as int, sink);
                    assert(self.entries@ == s0.update(i as int, (id, sink)));
                    assert(unique_ids(self.entries@));
                }
            },
            None => {
                self.entries.push((id, sink));
                proof {
                    assert(self.entries@.drop_last() =~= s0);
                    assert(self.entries@.last() == (id, sink));
                    assert forall|i: int, j: int|
                        0 <= i < j < self.entries@.len() implies (#[trigger] self.entries@[i]).0
                        != (#[trigger] self.entries@[j]).0 by {
                        if j < self.entries@.len() - 1 {
                            assert((s0[i]).0 != (s0[j]).0);
                        } else {
                            assert((s0[i]).0 != id);
                        }
                    };
                }
            },
        }
    }

    /// Removes `id` and hands back its write sink, if it was registered;
    /// the rest of the registry is untouched.
    pub fn take(&mut self, id: u16) -> (r: Option<W>)
        requires
            old(self).wf(),
        ensures
            final(self).wf(),
            match r {
                Some(w) => old(self)@.dom().contains(id) && w == old(self)@[id] && final(self)@
                    == old(self)@.remove(id),
                None => !old(self)@.dom().contains(id) && final(self)@ == old(self)@,
            },
    {
        let ghost s0 = self.entries@;
        match self.index_of(id) {
            Some(i) => {
                proof {
                    lemma_map_of_index(s0, i as int);
                    lemma_map_of_delete(s0, i as int);
                }
                let entry = self.entries.remove(i);
                proof {
                    assert forall|a: int, b: int|
                        0 <= a < b < self.entries@.len() implies (#[trigger] self.entries@[a]).0
                        != (#[trigger] self.entries@[b]).0 by {
                        let a0: int = if a < i { a } else { a + 1 };
                        let b0: int = if b < i { b } else { b + 1 };
                        assert((s0[a0]).0 != (s0[b0]).0);
                    };
                }
                Some(entry.1)
            },
            None => {
                proof {
                    lemma_map_of_absent(s0, id);
                }
                None
            },
        }
    }

    /// Removes `id` if present. Removing an absent id is a no-op, never
    /// an error, and never affects other ids.
    pub fn remove(&mut self, id: u16)
        requires
            old(self).wf(),
        ensures
            final(self).wf(),
            final(self)@ == old(self)@.remove(id),
    {
        let dropped = self.take(id);
        proof {
            if dropped is None {
                assert(old(self)@.remove(id) =~= old(self)@);
            }
        }
    }

    /// The ids of every registered client other than `sender`, each
    /// exactly once.
    pub fn other_ids(&self, sender: u16) -> (r: Vec<u16>)
        requires
            self.wf(),
        ensures
            r@.no_duplicates(),
            !r@.contains(sender),
            forall|k: u16| #[trigger]
                r@.contains(k) <==> (self@.dom().contains(k) && k != sender),
    {
        let mut out: Vec<u16> = Vec::new();
        let n = self.entries.len();
        let mut i: usize = 0;
        while i < n
            invariant
                self.wf(),
                n == self.entries@.len(),
                i <= n,
                out@.no_duplicates(),
                !out@.contains(sender),
                forall|k: u16| #[trigger]
                    out@.contains(k) <==> (exists|j: int|
                        0 <= j < i && (#[trigger] self.entries@[j]).0 == k && k != sender),
            decreases n - i,
        {
            let id = self.entries[i].0;
            if id != sender {
                proof {
                    if out@.contains(id) {
                        let j = choose|j: int|
                            0 <= j < i && (#[trigger] self.entries@[j]).0 == id && id != sender;
                        assert((self.entries@[j]).0 == (self.entries@[i as int]).0);
                        assert(false);
                    }
                }
                let ghost out0 = out@;
                out.push(id);
                proof {
                    assert forall|k: u16| #[trigger]
                        out@.contains(k) implies (exists|j: int|
                        0 <= j < i + 1 && (#[trigger] self.entries@[j]).0 == k && k != sender) by {
                        if out0.contains(k) {
                            let j = choose|j: int|
                                0 <= j < i && (#[trigger] self.entries@[j]).0 == k && k != sender;
                            assert(0 <= j < i + 1 && (self.entries@[j]).0 == k);
                        } else {
                            assert(k == id);
                            assert((self.entries@[i as int]).0 == k);
                        }
                    };
                    assert forall|k: u16|
                        (exists|j: int|
                            0 <= j < i + 1 && (#[trigger] self.entries@[j]).0 == k && k
                                != sender) implies #[trigger] out@.contains(k) by {
                        let j = choose|j: int|
                            0 <= j < i + 1 && (#[trigger] self.entries@[j]).0 == k && k != sender;
                        if j < i {
                            assert(out0.contains(k));
                            let m = choose|m: int| 0 <= m < out0.len() && out0[m] == k;
                            assert(out@[m] == k);
                        } else {
                            assert(out@.last() == k);
                        }
                    };
                }
            }
            i = i + 1;
        }
        proof {
            lemma_map_of_dom(self.entries@);
        }
        out
    }
}

/// Removing an id is idempotent: a second removal of the same id changes
/// nothing, removing an absent id is a no-op, and a removal never
/// affects any other id.
pub proof fn lemma_remove_idempotent<W>(m: Map<u16, W>, id: u16)
    ensures
        m.remove(id).remove(id) == m.remove(id),
        !m.dom().contains(id) ==> m.remove(id) == m,
        forall|k: u16|
            k != id ==> (#[trigger] m.remove(id).dom().contains(k) <==> m.dom().contains(k)),
        forall|k: u16|
            k != id && m.dom().contains(k) ==> #[trigger] m.remove(id)[k] == m[k],
{
    assert(m.remove(id).remove(id) =~= m.remove(id));
    if !m.dom().contains(id) {
        assert(m.remove(id) =~= m);
    }
}

/// A second registration of an id supersedes the first: the registry
/// then holds the second sink under that id, and no other id is
/// affected.
pub proof fn lemma_register_supersedes<W>(m: Map<u16, W>, id: u16, first: W, second: W)
    ensures
        m.insert(id, first).insert(id, second) == m.insert(id, second),
        m.insert(id, first).insert(id, second)[id] == second,
        forall|k: u16|
            k != id ==> (#[trigger] m.insert(id, first).insert(id, second).dom().contains(k)
                <==> m.dom().contains(k)),
{
    assert(m.insert(id, first).insert(id, second) =~= m.insert(id, second));
}

} // verus!
