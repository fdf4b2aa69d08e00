//! The share merge engine: named share maps, one per contributor, are
//! combined into one map by a union of disjoint key sets.  A key claimed
//! by two contributors is an error, never an overwrite: no two
//! contributors may hold authority over the same secret slot.

use vstd::prelude::*;
use vstd::map::*;
use crate::error::PipelineError;
use crate::share::Share;

verus! {

/// A mapping from witness or input names to single shares, as persisted
/// in a contributor's share file.
pub struct NamedShareMap {
    pub entries: Vec<(String, Share)>,
}

/// The map denoted by an entry list; a later entry for the same key
/// would win, but well-formed maps have no such entries.
pub open spec fn entries_map(entries: Seq<(String, Share)>) -> Map<Seq<char>, Share>
    decreases entries.len(),
{
    if entries.len() == 0 {
        Map::empty()
    } else {
        entries_map(entries.drop_last()).insert(entries.last().0@, entries.last().1)
    }
}

impl View for NamedShareMap {
    type V = Map<Seq<char>, Share>;

    open spec fn view(&self) -> Map<Seq<char>, Share> {
        entries_map(self.entries@)
    }
}

/// A key's first occurrence determines it: keys are pairwise distinct.
pub open spec fn entries_wf(entries: Seq<(String, Share)>) -> bool {
    forall|i: int, j: int|
        0 <= i < entries.len() && 0 <= j < entries.len() && i != j
            ==> (#[trigger] entries[i]).0@ != (#[trigger] entries[j]).0@
}

/// A name occurs in the entry list exactly when the map contains it.
pub proof fn lemma_entries_map_dom(entries: Seq<(String, Share)>, k: Seq<char>)
    ensures
        entries_map(entries).dom().contains(k) <==> exists|i: int|
            0 <= i < entries.len() && (#[trigger] entries[i]).0@ == k,
    decreases entries.len(),
{
    if entries.len() > 0 {
        lemma_entries_map_dom(entries.drop_last(), k);
        if entries.last().0@ == k {
            assert(entries[entries.len() - 1].0@ == k);
        } else if entries_map(entries.drop_last()).dom().contains(k) {
            let i = choose|i: int|
                0 <= i < entries.drop_last().len() && (#[trigger] entries.drop_last()[i]).0@ == k;
            assert(entries[i].0@ == k);
        } else {
            assert forall|i: int| 0 <= i < entries.len() && (#[trigger] entries[i]).0@ == k
                implies false by {
                if i < entries.len() - 1 {
                    assert(entries.drop_last()[i].0@ == k);
                }
            }
        }
    }
}

/// In a well-formed entry list every entry's key maps to its share.
pub proof fn lemma_entries_map_at(entries: Seq<(String, Share)>, i: int)
    requires
        entries_wf(entries),
        0 <= i < entries.len(),
    ensures
        entries_map(entries).dom().contains(entries[i].0@),
        entries_map(entries)[entries[i].0@] == entries[i].1,
    decreases entries.len(),
{
    lemma_entries_map_dom(entries, entries[i].0@);
    if i < entries.len() - 1 {
        assert(entries_wf(entries.drop_last())) by {
            assert forall|a: int, b: int|
                0 <= a < entries.drop_last().len() && 0 <= b < entries.drop_last().len() && a != b
                    implies (#[trigger] entries.drop_last()[a]).0@
                        != (#[trigger] entries.drop_last()[b]).0@ by {
                assert(entries[a].0@ != entries[b].0@);
            }
        }
        assert(entries.drop_last()[i] == entries[i]);
        lemma_entries_map_at(entries.drop_last(), i);
        assert(entries[entries.len() - 1].0@ != entries[i].0@);
    }
}

impl NamedShareMap {
    /// Keys are pairwise distinct.
    pub open spec fn wf(&self) -> bool {
        entries_wf(self.entries@)
    }

    pub fn new() -> (r: NamedShareMap)
        ensures
            r.wf(),
            r@ == Map::<Seq<char>, Share>::empty(),
            r.entries@.len() == 0,
    {
        NamedShareMap { entries: Vec::new() }
    }

    pub fn len(&self) -> (r: usize)
        ensures
            r == self.entries@.len(),
    {
        self.entries.len()
    }

    /// Whether the map holds a share under the given name.
    pub fn contains_key(&self, key: &String) -> (r: bool)
        ensures
            r == self@.dom().contains(key@),
    {
        let n = self.entries.len();
        let mut i: usize = 0;
        while i < n
            invariant
                n == self.entries@.len(),
                0 <= i <= n,
                forall|j: int| 0 <= j < i ==> (#[trigger] self.entries@[j]).0@ != key@,
            decreases n - i,
        {
            if self.entries[i].0.eq(key) {
                proof {
                    lemma_entries_map_dom(self.entries@, key@);
                }
                return true;
            }
            i += 1;
        }
        proof {
            lemma_entries_map_dom(self.entries@, key@);
        }
        false
    }

    /// The share stored under the given name.
    pub fn get(&self, key: &String) -> (r: Option<Share>)
        requires
            self.wf(),
        ensures
            r matches Some(sh) ==> self@.dom().contains(key@) && sh == self@[key@],
            r is None ==> !self@.dom().contains(key@),
    {
        let n = self.entries.len();
        let mut i: usize = 0;
        while i < n
            invariant
                n == self.entries@.len(),
                self.wf(),
                0 <= i <= n,
                forall|j: int| 0 <= j < i ==> (#[trigger] self.entries@[j]).0@ != key@,
            decreases n - i,
        {
            if self.entries[i].0.eq(key) {
                proof {
                    lemma_entries_map_at(self.entries@, i as int);
                }
                return Some(self.entries[i].1);
            }
            i += 1;
        }
        proof {
            lemma_entries_map_dom(self.entries@, key@);
        }
        None
    }

    /// Adds a share under a fresh name.
    pub fn insert(&mut self, key: String, sh: Share)
        requires
            old(self).wf(),
            !old(self)@.dom().contains(key@),
        ensures
            final(self).wf(),
            final(self)@ == old(self)@.insert(key@, sh),
            final(self).entries@ == old(self).entries@.push((key, sh)),
    {
        proof {
            lemma_entries_map_dom(self.entries@, key@);
            let pushed = self.entries@.push((key, sh));
            assert(pushed.drop_last() =~= self.entries@);
            assert forall|i: int, j: int|
                0 <= i < pushed.len() && 0 <= j < pushed.len() && i != j
                    implies (#[trigger] pushed[i]).0@ != (#[trigger] pushed[j]).0@ by {
                if i < pushed.len() - 1 && j < pushed.len() - 1 {
                    assert(self.entries@[i].0@ != self.entries@[j].0@);
                }
            }
        }
        self.entries.push((key, sh));
    }
}

/// The views of a sequence of maps.
pub open spec fn maps_views(maps: Seq<NamedShareMap>) -> Seq<Map<Seq<char>, Share>> {
    maps.map_values(|m: NamedShareMap| m@)
}

/// The union of a sequence of maps, later maps preferred — though merge
/// only ever builds it from maps with pairwise disjoint key sets.
pub open spec fn union_of(views: Seq<Map<Seq<char>, Share>>) -> Map<Seq<char>, Share>
    decreases views.len(),
{
    if views.len() == 0 {
        Map::empty()
    } else {
        union_of(views.drop_last()).union_prefer_right(views.last())
    }
}

/// All key sets are pairwise disjoint.
pub open spec fn all_disjoint(views: Seq<Map<Seq<char>, Share>>) -> bool {
    forall|i: int, j: int|
        0 <= i < views.len() && 0 <= j < views.len() && i != j
            ==> (#[trigger] views[i]).dom().disjoint((#[trigger] views[j]).dom())
}

/// A key of the union comes from one of the maps.
pub proof fn lemma_union_of_dom(views: Seq<Map<Seq<char>, Share>>, k: Seq<char>)
    ensures
        union_of(views).dom().contains(k) <==> exists|i: int|
            0 <= i < views.len() && (#[trigger] views[i]).dom().contains(k),
    decreases views.len(),
{
    if views.len() > 0 {
        lemma_union_of_dom(views.drop_last(), k);
        if views.last().dom().contains(k) {
            assert(views[views.len() - 1].dom().contains(k));
        } else if union_of(views.drop_last()).dom().contains(k) {
            let i = choose|i: int|
                0 <= i < views.drop_last().len()
                    && (#[trigger] views.drop_last()[i]).dom().contains(k);
            assert(views[i].dom().contains(k));
        } else {
            assert forall|i: int|
                0 <= i < views.len() && (#[trigger] views[i]).dom().contains(k)
                    implies false by {
                if i < views.len() - 1 {
                    assert(views.drop_last()[i].dom().contains(k));
                }
            }
        }
    }
}

/// Combines independently produced share maps into one.  At least two
/// contributors are required, and their key sets must be pairwise
/// disjoint: a key defined twice is an error, regardless of the order in
/// which the contributors are given.
pub fn merge(maps: &Vec<NamedShareMap>) -> (r: Result<NamedShareMap, PipelineError>)
    requires
        forall|i: int| 0 <= i < maps@.len() ==> (#[trigger] maps@[i]).wf(),
    ensures
        r matches Err(PipelineError::TooFewContributors) <==> maps@.len() < 2,
        r is Ok <==> maps@.len() >= 2 && all_disjoint(maps_views(maps@)),
        r matches Ok(m) ==> m.wf() && m@ == union_of(maps_views(maps@)),
        r matches Err(PipelineError::DuplicateShareKey(k)) ==> exists|i1: int, i2: int|
            0 <= i1 < i2 < maps@.len() && (#[trigger] maps_views(maps@)[i1]).dom().contains(k@)
                && (#[trigger] maps_views(maps@)[i2]).dom().contains(k@),
        r is Err ==> (r matches Err(PipelineError::TooFewContributors) || r matches Err(
            PipelineError::DuplicateShareKey(_),
        )),
{
    if maps.len() < 2 {
        return Err(PipelineError::TooFewContributors);
    }
    let ghost views = maps_views(maps@);
    let mut acc = NamedShareMap::new();
    let n = maps.len();
    let mut i: usize = 0;
    proof {
        assert(views.subrange(0, 0) =~= Seq::<Map<Seq<char>, Share>>::empty());
    }
    while i < n
        invariant
            n == maps@.len(),
            n >= 2,
            0 <= i <= n,
            views == maps_views(maps@),
            forall|k: int| 0 <= k < n ==> (#[trigger] maps@[k]).wf(),
            acc.wf(),
            acc@ == union_of(views.subrange(0, i as int)),
            forall|a: int, b: int|
                0 <= a < b < i ==> (#[trigger] views[a]).dom().disjoint(
                    (#[trigger] views[b]).dom(),
                ),
        decreases n - i,
    {
        let entry_count = maps[i].entries.len();
        let mut j: usize = 0;
        proof {
            assert(maps@[i as int].entries@.subrange(0, 0)
                =~= Seq::<(String, Share)>::empty());
        }
        while j < entry_count
            invariant
                n == maps@.len(),
                n >= 2,
                0 <= i < n,
                0 <= j <= entry_count,
                views == maps_views(maps@),
                entry_count == maps@[i as int].entries@.len(),
                forall|k: int| 0 <= k < n ==> (#[trigger] maps@[k]).wf(),
                acc.wf(),
                acc@ == union_of(views.subrange(0, i as int)).union_prefer_right(
                    entries_map(maps@[i as int].entries@.subrange(0, j as int)),
                ),
                forall|l: int|
                    0 <= l < j ==> !union_of(views.subrange(0, i as int)).dom().contains(
                        (#[trigger] maps@[i as int].entries@[l]).0@,
                    ),
                forall|a: int, b: int|
                    0 <= a < b < i ==> (#[trigger] views[a]).dom().disjoint(
                        (#[trigger] views[b]).dom(),
                    ),
            decreases entry_count - j,
        {
            let key_ref = &maps[i].entries[j].0;
            let sh = maps[i].entries[j].1;
            let ghost cur_entries = maps@[i as int].entries@;
            let ghost prefix_union = union_of(views.subrange(0, i as int));
            let ghost cur_prefix = entries_map(cur_entries.subrange(0, j as int));
            if acc.contains_key(key_ref) {
                proof {
                    let k = key_ref@;
                    lemma_entries_map_dom(cur_entries.subrange(0, j as int), k);
                    if cur_prefix.dom().contains(k) {
                        // a second entry of the same contributor: impossible,
                        // the contributor's map is well formed
                        let l = choose|l: int|
                            0 <= l < j && (#[trigger] cur_entries.subrange(0, j as int)[l]).0@
                                == k;
                        assert(cur_entries[l].0@ == cur_entries[j as int].0@);
                        assert(false);
                    }
                    assert(prefix_union.dom().contains(k));
                    lemma_union_of_dom(views.subrange(0, i as int), k);
                    let i1 = choose|i1: int|
                        0 <= i1 < i && (#[trigger] views.subrange(0, i as int)[i1]).dom()
                            .contains(k);
                    lemma_entries_map_dom(cur_entries, k);
                    assert(views[i as int].dom().contains(k));
                    assert(views[i1].dom().contains(k));
                    if all_disjoint(views) {
                        assert(views[i1].dom().disjoint(views[i as int].dom()));
                        assert(false);
                    }
                }
                return Err(PipelineError::DuplicateShareKey(key_ref.clone()));
            }
            let key = key_ref.clone();
            proof {
                let k = key_ref@;
                lemma_union_of_dom(views.subrange(0, i as int), k);
                vstd::map_lib::lemma_union_insert_right(
                    prefix_union,
                    cur_prefix,
                    k,
                    sh,
                );
                assert(cur_entries.subrange(0, j as int + 1).drop_last()
                    =~= cur_entries.subrange(0, j as int));
                assert(entries_map(cur_entries.subrange(0, j as int + 1))
                    == cur_prefix.insert(cur_entries[j as int].0@, cur_entries[j as int].1));
            }
            acc.insert(key, sh);
            j += 1;
        }
        proof {
            let cur_entries = maps@[i as int].entries@;
            assert(cur_entries.subrange(0, entry_count as int) =~= cur_entries);
            assert(views.subrange(0, i as int + 1).drop_last() =~= views.subrange(0, i as int));
            assert(views.subrange(0, i as int + 1).last() == views[i as int]);
            // every key of this contributor is new, so the prefix stays
            // pairwise disjoint
            assert forall|a: int, b: int| 0 <= a < b < i + 1 implies (#[trigger] views[a])
                .dom().disjoint((#[trigger] views[b]).dom()) by {
                if b == i as int {
                    let doma = views[a].dom();
                    let domb = views[b].dom();
                    assert forall|k: Seq<char>| doma.contains(k) implies !domb.contains(k) by {
                        if domb.contains(k) {
                            lemma_entries_map_dom(cur_entries, k);
                            let l = choose|l: int|
                                0 <= l < cur_entries.len() && (#[trigger] cur_entries[l]).0@
                                    == k;
                            assert(!union_of(views.subrange(0, i as int)).dom().contains(k));
                            lemma_union_of_dom(views.subrange(0, i as int), k);
                            assert(views.subrange(0, i as int)[a] == views[a]);
                            assert(false);
                        }
                    }
                }
            }
        }
        i += 1;
    }
    proof {
        assert(views.subrange(0, n as int) =~= views);
        assert(all_disjoint(views)) by {
            assert forall|a: int, b: int|
                0 <= a < views.len() && 0 <= b < views.len() && a != b
                    implies (#[trigger] views[a]).dom().disjoint((#[trigger] views[b]).dom()) by {
                if a < b {
                } else {
                    assert(views[b].dom().disjoint(views[a].dom()));
                    assert forall|k: Seq<char>| views[a].dom().contains(k)
                        implies !views[b].dom().contains(k) by {
                        if views[b].dom().contains(k) {
                            assert(!views[a].dom().contains(k));
                        }
                    }
                }
            }
        }
    }
    Ok(acc)
}

/// Merging two contributors with disjoint key sets is commutative: the
/// merged map does not depend on the order of the contributors.
pub proof fn lemma_merge_commutes(a: Map<Seq<char>, Share>, b: Map<Seq<char>, Share>)
    requires
        a.dom().disjoint(b.dom()),
    ensures
        a.union_prefer_right(b) == b.union_prefer_right(a),
{
    let l = a.union_prefer_right(b);
    let r = b.union_prefer_right(a);
    assert(l.dom() =~= r.dom());
    assert forall|k: Seq<char>| l.dom().contains(k) implies l[k] == r[k] by {
        if a.dom().contains(k) {
            assert(!b.dom().contains(k));
        }
    }
    assert(l =~= r);
}

/// Merging is associative: grouping contributors does not change the
/// merged map.
pub proof fn lemma_merge_associates(
    a: Map<Seq<char>, Share>,
    b: Map<Seq<char>, Share>,
    c: Map<Seq<char>, Share>,
)
    ensures
        a.union_prefer_right(b).union_prefer_right(c) == a.union_prefer_right(
            b.union_prefer_right(c),
        ),
{
    assert(a.union_prefer_right(b).union_prefer_right(c) =~= a.union_prefer_right(
        b.union_prefer_right(c),
    ));
}

/// The union of exactly two maps, as `merge` computes it.
pub proof fn lemma_union_of_pair(a: Map<Seq<char>, Share>, b: Map<Seq<char>, Share>)
    ensures
        union_of(seq![a, b]) == a.union_prefer_right(b),
{
    let s = seq![a, b];
    assert(s.drop_last() =~= seq![a]);
    assert(s.last() == b);
    assert(union_of(s) == union_of(seq![a]).union_prefer_right(b));
    let sa = seq![a];
    assert(sa.drop_last() =~= Seq::<Map<Seq<char>, Share>>::empty());
    assert(sa.last() == a);
    assert(union_of(Seq::<Map<Seq<char>, Share>>::empty()) == Map::<Seq<char>, Share>::empty());
    assert(union_of(sa) == Map::<Seq<char>, Share>::empty().union_prefer_right(a));
    assert(Map::<Seq<char>, Share>::empty().union_prefer_right(a) =~= a);
}

} // verus!
