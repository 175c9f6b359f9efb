use vstd::prelude::*;

verus! {

/// One waiting node: its number in the arena and the cost by which the
/// frontier orders it.
#[derive(Clone, Copy)]
pub struct Entry {
    pub key: u128,
    pub id: usize,
}

/// The nodes that wait to be expanded, kept as a binary heap in a vector
/// so that the one with the lowest cost is found first. No node waits
/// twice.
pub struct Frontier {
    heap: Vec<Entry>,
}

/// The entry `e` stands somewhere in `s`.
pub open spec fn holds(s: Seq<Entry>, e: Entry) -> bool {
    exists|k: int| 0 <= k < s.len() && #[trigger] s[k] == e
}

/// The node `id` stands somewhere in `s`.
pub open spec fn has_id(s: Seq<Entry>, id: usize) -> bool {
    exists|k: int| 0 <= k < s.len() && (#[trigger] s[k]).id == id
}

/// Where the node `id` stands in `s`.
pub open spec fn place_of(s: Seq<Entry>, id: usize) -> int {
    choose|k: int| 0 <= k < s.len() && (#[trigger] s[k]).id == id
}

/// No two entries of `s` are for the same node.
pub open spec fn distinct_ids(s: Seq<Entry>) -> bool {
    forall|i: int, j: int| 0 <= i < j < s.len() ==> (#[trigger] s[i]).id != (#[trigger] s[j]).id
}

/// The two sequences hold the same entries, in whatever order.
pub open spec fn same_entries(a: Seq<Entry>, b: Seq<Entry>) -> bool {
    forall|e: Entry| #[trigger] holds(a, e) <==> #[trigger] holds(b, e)
}

/// The place above place `k` in the heap.
pub open spec fn above(k: int) -> int {
    (k - 1) / 2
}

/// The entry at place `k` costs no less than the one above it.
pub open spec fn above_ok(s: Seq<Entry>, k: int) -> bool {
    s[above(k)].key <= s[k].key
}

/// Every entry costs no less than the one above it.
pub open spec fn ordered(s: Seq<Entry>) -> bool {
    forall|k: int| 0 < k < s.len() ==> #[trigger] above_ok(s, k)
}

/// The heap is in order but perhaps between place `i` and the place above
/// it; what stands below `i` costs no less than what stands above `i`.
pub open spec fn ordered_but_above(s: Seq<Entry>, i: int) -> bool {
    &&& forall|k: int| 0 < k < s.len() && k != i ==> #[trigger] above_ok(s, k)
    &&& forall|k: int|
        0 < k < s.len() && above(k) == i && i > 0 ==> s[above(i)].key <= (#[trigger] s[k]).key
}

/// The heap is in order but perhaps between place `i` and the places
/// below it; what stands below `i` costs no less than what stands above
/// `i`.
pub open spec fn ordered_but_below(s: Seq<Entry>, i: int) -> bool {
    &&& forall|k: int| 0 < k < s.len() && above(k) != i ==> #[trigger] above_ok(s, k)
    &&& forall|k: int|
        0 < k < s.len() && above(k) == i && i > 0 ==> s[above(i)].key <= (#[trigger] s[k]).key
}

/// The waiting nodes with their costs.
pub open spec fn entries_map(s: Seq<Entry>) -> Map<usize, u128> {
    Map::new(|id: usize| has_id(s, id), |id: usize| s[place_of(s, id)].key)
}

/// What stands at place `k` is in the map, with its cost.
pub proof fn lemma_map_entry(s: Seq<Entry>, k: int)
    requires
        distinct_ids(s),
        0 <= k < s.len(),
    ensures
        entries_map(s).contains_key(s[k].id),
        entries_map(s)[s[k].id] == s[k].key,
{
    let id = s[k].id;
    assert(has_id(s, id));
    let p = place_of(s, id);
    assert(0 <= p < s.len() && s[p].id == id);
    if p < k {
        assert(s[p].id != s[k].id);
    } else if k < p {
        assert(s[k].id != s[p].id);
    }
}

/// The first entry of an ordered heap costs least.
pub proof fn lemma_first_is_least(s: Seq<Entry>, k: int)
    requires
        ordered(s),
        0 <= k < s.len(),
    ensures
        s[0].key <= s[k].key,
    decreases k,
{
    if k > 0 {
        assert(above_ok(s, k));
        lemma_first_is_least(s, above(k));
    }
}

/// Two sequences without repeated nodes that hold the same entries stand
/// for the same map.
pub proof fn lemma_same_map(a: Seq<Entry>, b: Seq<Entry>)
    requires
        distinct_ids(a),
        distinct_ids(b),
        same_entries(a, b),
    ensures
        entries_map(a) == entries_map(b),
{
    assert forall|id: usize| has_id(a, id) implies has_id(b, id) && entries_map(b)[id]
        == entries_map(a)[id] by {
        let k = place_of(a, id);
        assert(holds(a, a[k]));
        assert(holds(b, a[k]));
        let j = choose|j: int| 0 <= j < b.len() && #[trigger] b[j] == a[k];
        lemma_map_entry(a, k);
        lemma_map_entry(b, j);
    }
    assert forall|id: usize| has_id(b, id) implies has_id(a, id) by {
        let k = place_of(b, id);
        assert(holds(b, b[k]));
        assert(holds(a, b[k]));
        let j = choose|j: int| 0 <= j < a.len() && #[trigger] a[j] == b[k];
        assert(a[j].id == id);
    }
    assert(entries_map(a) =~= entries_map(b));
}

/// Exchanging two places changes neither which entries are held nor that
/// no node is held twice.
pub proof fn lemma_exchange(s: Seq<Entry>, i: int, j: int)
    requires
        0 <= i < s.len(),
        0 <= j < s.len(),
    ensures
        same_entries(s, s.update(i, s[j]).update(j, s[i])),
        distinct_ids(s) ==> distinct_ids(s.update(i, s[j]).update(j, s[i])),
{
    let t = s.update(i, s[j]).update(j, s[i]);
    assert forall|e: Entry| #[trigger] holds(s, e) <==> #[trigger] holds(t, e) by {
        if holds(s, e) {
            let k = choose|k: int| 0 <= k < s.len() && #[trigger] s[k] == e;
            let m = if k == i { j } else if k == j { i } else { k };
            assert(t[m] == e);
        }
        if holds(t, e) {
            let k = choose|k: int| 0 <= k < t.len() && #[trigger] t[k] == e;
            let m = if k == i { j } else if k == j { i } else { k };
            assert(s[m] == e);
        }
    }
    if distinct_ids(s) {
        assert forall|a: int, b: int| 0 <= a < b < t.len() implies (#[trigger] t[a]).id != (
        #[trigger] t[b]).id by {
            let ma = if a == i { j } else if a == j { i } else { a };
            let mb = if b == i { j } else if b == j { i } else { b };
            assert(t[a] == s[ma] && t[b] == s[mb]);
            if ma < mb {
                assert(s[ma].id != s[mb].id);
            } else {
                assert(s[mb].id != s[ma].id);
            }
        }
    }
}

/// Holding the same entries carries over from one sequence to the next.
pub proof fn lemma_same_entries_chain(a: Seq<Entry>, b: Seq<Entry>, c: Seq<Entry>)
    requires
        same_entries(a, b),
        same_entries(b, c),
    ensures
        same_entries(a, c),
{
    assert forall|e: Entry| #[trigger] holds(a, e) <==> #[trigger] holds(c, e) by {
        assert(holds(a, e) <==> holds(b, e));
        assert(holds(b, e) <==> holds(c, e));
    }
}

/// Adding an entry for a node that does not wait yet adds it to the map.
pub proof fn lemma_map_push(s: Seq<Entry>, e: Entry)
    requires
        distinct_ids(s),
        !has_id(s, e.id),
    ensures
        distinct_ids(s.push(e)),
        entries_map(s.push(e)) == entries_map(s).insert(e.id, e.key),
{
    let t = s.push(e);
    assert forall|a: int, b: int| 0 <= a < b < t.len() implies (#[trigger] t[a]).id != (
    #[trigger] t[b]).id by {
        if b == s.len() {
            assert(s[a].id != e.id);
        } else {
            assert(s[a].id != s[b].id);
        }
    }
    assert forall|id: usize| has_id(t, id) <==> (id == e.id || has_id(s, id)) by {
        if has_id(t, id) {
            let k = place_of(t, id);
            if k < s.len() {
                assert(s[k].id == id);
            }
        }
        if has_id(s, id) {
            let k = place_of(s, id);
            assert(t[k].id == id);
        }
        assert(t[s.len() as int].id == e.id);
    }
    assert forall|id: usize| has_id(t, id) implies entries_map(t)[id] == entries_map(s).insert(
        e.id,
        e.key,
    )[id] by {
        if id == e.id {
            lemma_map_entry(t, s.len() as int);
        } else {
            let k = place_of(s, id);
            lemma_map_entry(s, k);
            assert(t[k] == s[k]);
            lemma_map_entry(t, k);
        }
    }
    assert(entries_map(t) =~= entries_map(s).insert(e.id, e.key));
}

/// If `rest` holds what `s` holds but for the first entry of `s`, its map
/// is that of `s` without the node of that entry.
pub proof fn lemma_map_without_first(s: Seq<Entry>, rest: Seq<Entry>)
    requires
        distinct_ids(s),
        distinct_ids(rest),
        s.len() > 0,
        forall|e: Entry| #[trigger] holds(rest, e) <==> (holds(s, e) && e != s[0]),
    ensures
        entries_map(rest) == entries_map(s).remove(s[0].id),
{
    let top = s[0];
    assert forall|id: usize| has_id(rest, id) implies has_id(s, id) && id != top.id
        && entries_map(rest)[id] == entries_map(s)[id] by {
        let k = place_of(rest, id);
        assert(holds(rest, rest[k]));
        assert(holds(s, rest[k]));
        let j = choose|j: int| 0 <= j < s.len() && #[trigger] s[j] == rest[k];
        lemma_map_entry(s, j);
        lemma_map_entry(rest, k);
        if id == top.id {
            if j > 0 {
                assert(s[0].id != s[j].id);
            }
        }
    }
    assert forall|id: usize| has_id(s, id) && id != top.id implies has_id(rest, id) by {
        let k = place_of(s, id);
        assert(holds(s, s[k]));
        assert(holds(rest, s[k]));
        let j = choose|j: int| 0 <= j < rest.len() && #[trigger] rest[j] == s[k];
        assert(rest[j].id == id);
    }
    assert(entries_map(rest) =~= entries_map(s).remove(top.id));
}

impl View for Frontier {
    type V = Map<usize, u128>;

    /// The waiting nodes with their costs.
    closed spec fn view(&self) -> Map<usize, u128> {
        entries_map(self.heap@)
    }
}

impl Frontier {
    /// No node waits twice, and the heap is in order.
    pub closed spec fn wf(&self) -> bool {
        distinct_ids(self.heap@) && ordered(self.heap@)
    }

    /// How many nodes wait.
    pub closed spec fn count(&self) -> nat {
        self.heap@.len()
    }

    /// A frontier where nothing waits.
    pub fn new() -> (r: Frontier)
        ensures
            r.wf(),
            r@ == Map::<usize, u128>::empty(),
            r.count() == 0,
    {
        let r = Frontier { heap: Vec::new() };
        assert(r@ =~= Map::<usize, u128>::empty());
        r
    }

    /// Nothing waits exactly if the map is empty.
    pub proof fn lemma_count(&self)
        requires
            self.wf(),
        ensures
            self.count() == 0 <==> self@ == Map::<usize, u128>::empty(),
    {
        if self.count() == 0 {
            assert(self@ =~= Map::<usize, u128>::empty());
        } else {
            lemma_map_entry(self.heap@, 0);
        }
    }

    /// Lets node `id` wait with cost `key`.
    pub fn push(&mut self, key: u128, id: usize)
        requires
            old(self).wf(),
            !old(self)@.contains_key(id),
        ensures
            final(self).wf(),
            final(self)@ == old(self)@.insert(id, key),
            final(self).count() == old(self).count() + 1,
    {
        let entry = Entry { key, id };
        let ghost pushed = self.heap@.push(entry);
        proof {
            lemma_map_push(self.heap@, entry);
            assert(ordered_but_above(pushed, pushed.len() - 1)) by {
                assert forall|k: int| 0 < k < pushed.len() && k != pushed.len() - 1 implies #[trigger] above_ok(pushed, k) by {
                    assert(above_ok(self.heap@, k));
                }
            }
        }
        self.heap.push(entry);
        let mut i: usize = self.heap.len() - 1;
        while i > 0
            invariant
                0 <= i < self.heap@.len(),
                self.heap@.len() == pushed.len(),
                distinct_ids(self.heap@),
                distinct_ids(pushed),
                same_entries(pushed, self.heap@),
                ordered_but_above(self.heap@, i as int),
            ensures
                self.heap@.len() == pushed.len(),
                distinct_ids(self.heap@),
                same_entries(pushed, self.heap@),
                ordered(self.heap@),
            decreases i,
        {
            let p: usize = (i - 1) / 2;
            let child = self.heap[i];
            let parent = self.heap[p];
            if parent.key <= child.key {
                proof {
                    assert(above_ok(self.heap@, i as int));
                }
                break ;
            }
            let ghost before = self.heap@;
            self.heap.set(p, child);
            self.heap.set(i, parent);
            proof {
                let after = self.heap@;
                assert(after =~= before.update(p as int, before[i as int]).update(
                    i as int,
                    before[p as int],
                ));
                lemma_exchange(before, p as int, i as int);
                lemma_same_entries_chain(pushed, before, after);
                assert forall|k: int| 0 < k < after.len() && k != p implies #[trigger] above_ok(
                    after,
                    k,
                ) by {
                    if k == i {
                    } else if above(k) == p {
                        assert(above_ok(before, k));
                    } else if above(k) == i {
                        assert(before[above(i as int)].key <= before[k].key);
                    } else {
                        assert(above_ok(before, k));
                    }
                }
                assert forall|k: int| 0 < k < after.len() && above(k) == p && p > 0 implies after[above(
                    p as int,
                )].key <= (#[trigger] after[k]).key by {
                    assert(above_ok(before, p as int));
                    if k != i {
                        assert(above_ok(before, k));
                    }
                }
            }
            i = p;
        }
        proof {
            lemma_same_map(pushed, self.heap@);
        }
    }

    /// Takes out a node that waits with the lowest cost, if any waits, and
    /// gives its cost and its number.
    pub fn pop(&mut self) -> (r: Option<(u128, usize)>)
        requires
            old(self).wf(),
        ensures
            final(self).wf(),
            r is None <==> old(self).count() == 0,
            r is None ==> final(self)@ == old(self)@,
            r matches Some((key, id)) ==> {
                &&& old(self)@.contains_key(id)
                &&& old(self)@[id] == key
                &&& forall|other: usize| #[trigger]
                    old(self)@.contains_key(other) ==> key <= old(self)@[other]
                &&& final(self)@ == old(self)@.remove(id)
                &&& final(self).count() == old(self).count() - 1
            },
    {
        let n: usize = self.heap.len();
        if n == 0 {
            return None;
        }
        let ghost start = self.heap@;
        let top = self.heap[0];
        proof {
            lemma_map_entry(start, 0);
            assert forall|other: usize| #[trigger]
                entries_map(start).contains_key(other) implies top.key <= entries_map(
                start,
            )[other] by {
                let k = place_of(start, other);
                lemma_map_entry(start, k);
                lemma_first_is_least(start, k);
            }
        }
        let last = self.heap.pop().unwrap();
        let n: usize = self.heap.len();
        if n == 0 {
            proof {
                assert(self.heap@ =~= Seq::<Entry>::empty());
                assert forall|e: Entry| #[trigger]
                    holds(self.heap@, e) <==> (holds(start, e) && e != start[0]) by {
                    if holds(start, e) {
                        let k = choose|k: int| 0 <= k < start.len() && #[trigger] start[k] == e;
                        assert(k == 0);
                    }
                }
                lemma_map_without_first(start, self.heap@);
            }
            return Some((top.key, top.id));
        }
        self.heap.set(0, last);
        let ghost target = self.heap@;
        proof {
            assert(target =~= start.drop_last().update(0, start[start.len() - 1]));
            assert forall|a: int, b: int| 0 <= a < b < target.len() implies (
            #[trigger] target[a]).id != (#[trigger] target[b]).id by {
                if a == 0 {
                    assert(start[b].id != start[start.len() - 1].id);
                } else {
                    assert(start[a].id != start[b].id);
                }
            }
            assert forall|e: Entry| #[trigger]
                holds(target, e) <==> (holds(start, e) && e != start[0]) by {
                if holds(target, e) {
                    let k = choose|k: int| 0 <= k < target.len() && #[trigger] target[k] == e;
                    if k == 0 {
                        assert(start[start.len() - 1] == e);
                        assert(start[0].id != start[start.len() - 1].id);
                    } else {
                        assert(start[k] == e);
                        assert(start[0].id != start[k].id);
                    }
                }
                if holds(start, e) && e != start[0] {
                    let k = choose|k: int| 0 <= k < start.len() && #[trigger] start[k] == e;
                    if k == start.len() - 1 {
                        assert(target[0] == e);
                    } else {
                        assert(target[k] == e);
                    }
                }
            }
            lemma_map_without_first(start, target);
            assert forall|k: int| 0 < k < target.len() && above(k) != 0 implies #[trigger] above_ok(
                target,
                k,
            ) by {
                assert(above_ok(start, k));
            }
        }
        let mut i: usize = 0;
        loop
            invariant
                0 <= i < n,
                n == self.heap@.len(),
                n == target.len(),
                distinct_ids(self.heap@),
                distinct_ids(target),
                same_entries(target, self.heap@),
                ordered_but_below(self.heap@, i as int),
            ensures
                distinct_ids(self.heap@),
                same_entries(target, self.heap@),
                self.heap@.len() == target.len(),
                ordered(self.heap@),
            decreases n - i,
        {
            if i >= n / 2 {
                proof {
                    assert forall|k: int| 0 < k < n implies #[trigger] above_ok(self.heap@, k) by {
                        assert(above(k) != i);
                    }
                }
                break ;
            }
            let left: usize = 2 * i + 1;
            let right: usize = left + 1;
            let mut least: usize = left;
            if right < n && self.heap[right].key < self.heap[left].key {
                least = right;
            }
            let here = self.heap[i];
            let below = self.heap[least];
            if here.key <= below.key {
                proof {
                    assert forall|k: int| 0 < k < n implies #[trigger] above_ok(self.heap@, k) by {
                        if above(k) == i {
                            assert(k == left || k == right);
                        }
                    }
                }
                break ;
            }
            let ghost before = self.heap@;
            self.heap.set(i, below);
            self.heap.set(least, here);
            proof {
                let after = self.heap@;
                assert(after =~= before.update(i as int, before[least as int]).update(
                    least as int,
                    before[i as int],
                ));
                lemma_exchange(before, i as int, least as int);
                lemma_same_entries_chain(target, before, after);
                assert(above(least as int) == i);
                assert forall|k: int| 0 < k < n && above(k) != least implies #[trigger] above_ok(
                    after,
                    k,
                ) by {
                    if k == least {
                    } else if above(k) == i {
                        assert(k == left || k == right);
                    } else if k == i {
                        assert(before[above(i as int)].key <= before[least as int].key);
                    } else {
                        assert(above_ok(before, k));
                    }
                }
                assert forall|k: int| 0 < k < n && above(k) == least && least > 0 implies after[above(
                    least as int,
                )].key <= (#[trigger] after[k]).key by {
                    assert(above_ok(before, k));
                }
            }
            i = least;
        }
        proof {
            lemma_same_map(target, self.heap@);
        }
        Some((top.key, top.id))
    }
}

} // verus!
