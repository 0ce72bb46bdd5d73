//! The BK-tree: an index of strings and their records, searched by edit
//! distance with subtrees pruned by the triangle inequality.
use crate::fuzzy_matching::{
    lemma_levenshtein_obeys_triangle_inequality, obeys_triangle_inequality, EditDistance,
    EditDistanceCalculator, LevenshteinEditDistanceCalculator,
};
use std::collections::HashSet;
use std::hash::Hash;
use vstd::prelude::*;
use vstd::std_specs::hash::obeys_key_model;

verus! {

/// One stored value, the records seen with it, and the subtrees below it,
/// each under its distance from this value.
pub struct BKTreeNode<R> {
    value: String,
    records_found_in: HashSet<R>,
    children: Vec<(EditDistance, BKTreeNode<R>)>,
}

impl<R> BKTreeNode<R> {
    /// Whether `v` is the value of this node or of a node below it.
    pub closed spec fn stores(self, v: Seq<char>) -> bool
        decreases self,
    {
        self.value@ == v || exists|i: int|
            0 <= i < self.children@.len() && (#[trigger] self.children@[i]).1.stores(v)
    }

    /// Whether record `r` was inserted with value `v` in this subtree.
    pub closed spec fn has(self, v: Seq<char>, r: R) -> bool
        decreases self,
    {
        (self.value@ == v && self.records_found_in@.contains(r)) || exists|i: int|
            0 <= i < self.children@.len() && (#[trigger] self.children@[i]).1.has(v, r)
    }

    /// The characters of this node's value.
    pub closed spec fn value(self) -> Seq<char> {
        self.value@
    }

    /// Whether `v` is stored below one of the first `n` children.
    closed spec fn stored_below_first(self, n: int, v: Seq<char>) -> bool {
        exists|c: int| 0 <= c < n && #[trigger] self.children@[c].1.stores(v)
    }

    /// Whether this node has no children.
    pub closed spec fn is_leaf(self) -> bool {
        self.children@.len() == 0
    }

    /// The records inserted with value `v` in this subtree.
    pub closed spec fn records_of(self, v: Seq<char>) -> Set<R> {
        Set::new(|r: R| self.has(v, r))
    }

    /// The BK-tree invariant under metric `C`: every value below the child
    /// kept under key `k` is at distance `k` from this node's value and differs
    /// from it, and no two children share a key.
    pub closed spec fn wf<C: EditDistanceCalculator>(self) -> bool
        decreases self,
    {
        &&& forall|i: int|
            0 <= i < self.children@.len() ==> (#[trigger] self.children@[i]).1.wf::<C>()
        &&& forall|i: int, v: Seq<char>|
            0 <= i < self.children@.len() && #[trigger] self.children@[i].1.stores(v) ==> {
                &&& C::distance(self.value@, v) == self.children@[i].0
                &&& v != self.value@
            }
        &&& forall|i: int, j: int|
            0 <= i < j < self.children@.len() ==> (#[trigger] self.children@[i]).0
                != (#[trigger] self.children@[j]).0
    }

    /// Whether a search for `q` within `t` under metric `C` reports value `v`
    /// of this subtree: `v` is within `t` of `q` and every key on the way
    /// down lies within `t` of the distance from that node's value to `q`.
    pub closed spec fn reaches<C: EditDistanceCalculator>(self, q: Seq<char>, t: nat, v: Seq<char>) -> bool
        decreases self,
    {
        let d = C::distance(self.value@, q);
        (self.value@ == v && d <= t) || exists|i: int|
            0 <= i < self.children@.len() && in_window(self.children@[i].0 as int, d as int, t as int)
                && (#[trigger] self.children@[i]).1.reaches::<C>(q, t, v)
    }

    proof fn lemma_has_stores(self, v: Seq<char>, r: R)
        requires
            self.has(v, r),
        ensures
            self.stores(v),
        decreases self,
    {
        if !(self.value@ == v && self.records_found_in@.contains(r)) {
            let i = choose|i: int| 0 <= i < self.children@.len() && (#[trigger] self.children@[i]).1.has(v, r);
            self.children@[i].1.lemma_has_stores(v, r);
        }
    }

    proof fn lemma_reaches_sound<C: EditDistanceCalculator>(self, q: Seq<char>, t: nat, v: Seq<char>)
        requires
            self.reaches::<C>(q, t, v),
        ensures
            self.stores(v),
            C::distance(v, q) <= t,
        decreases self,
    {
        let d = C::distance(self.value@, q);
        if !(self.value@ == v && d <= t) {
            let i = choose|i: int|
                0 <= i < self.children@.len() && in_window(self.children@[i].0 as int, d as int, t as int)
                    && (#[trigger] self.children@[i]).1.reaches::<C>(q, t, v);
            self.children@[i].1.lemma_reaches_sound::<C>(q, t, v);
        }
    }

    proof fn lemma_own_records<C: EditDistanceCalculator>(self)
        requires
            self.wf::<C>(),
        ensures
            self.records_found_in@ == self.records_of(self.value@),
    {
        assert forall|r: R| #[trigger] self.has(self.value@, r) implies self.records_found_in@.contains(r) by {
            if !self.records_found_in@.contains(r) {
                let i = choose|i: int| 0 <= i < self.children@.len() && (#[trigger] self.children@[i]).1.has(self.value@, r);
                self.children@[i].1.lemma_has_stores(self.value@, r);
            }
        }
        assert(self.records_found_in@ =~= self.records_of(self.value@));
    }

    proof fn lemma_child_records<C: EditDistanceCalculator>(self, i: int, v: Seq<char>)
        requires
            self.wf::<C>(),
            0 <= i < self.children@.len(),
            self.children@[i].1.stores(v),
        ensures
            self.records_of(v) == self.children@[i].1.records_of(v),
    {
        let c = self.children@[i].1;
        assert forall|r: R| #[trigger] self.has(v, r) implies c.has(v, r) by {
            if !(self.value@ == v && self.records_found_in@.contains(r)) {
                let j = choose|j: int| 0 <= j < self.children@.len() && (#[trigger] self.children@[j]).1.has(v, r);
                self.children@[j].1.lemma_has_stores(v, r);
                assert(self.children@[j].0 == self.children@[i].0);
            }
        }
        assert forall|r: R| c.has(v, r) implies #[trigger] self.has(v, r) by {
            assert(self.children@[i].1.has(v, r));
        }
        assert(self.records_of(v) =~= c.records_of(v));
    }

    /// A stored value is reported by a search for itself, whatever the
    /// threshold: on its path every key equals the distance to the query.
    proof fn lemma_reaches_itself<C: EditDistanceCalculator>(self, v: Seq<char>, t: nat)
        requires
            self.wf::<C>(),
            self.stores(v),
        ensures
            self.reaches::<C>(v, t, v),
        decreases self,
    {
        if self.value@ == v {
            C::lemma_distance_self(v);
        } else {
            let i = choose|i: int| 0 <= i < self.children@.len() && (#[trigger] self.children@[i]).1.stores(v);
            self.children@[i].1.lemma_reaches_itself::<C>(v, t);
        }
    }

    /// Under a metric that obeys the triangle inequality, every stored value
    /// within `t` of `q` is reported: pruning loses nothing.
    proof fn lemma_reaches_complete<C: EditDistanceCalculator>(self, q: Seq<char>, t: nat, v: Seq<char>)
        requires
            self.wf::<C>(),
            obeys_triangle_inequality::<C>(),
            self.stores(v),
            C::distance(v, q) <= t,
        ensures
            self.reaches::<C>(q, t, v),
        decreases self,
    {
        if self.value@ != v {
            let i = choose|i: int| 0 <= i < self.children@.len() && (#[trigger] self.children@[i]).1.stores(v);
            let (p, k) = (self.value@, self.children@[i].0 as int);
            let d = C::distance(p, q) as int;
            assert(C::distance(p, q) <= C::distance(p, v) + C::distance(v, q));
            assert(C::distance(p, v) <= C::distance(p, q) + C::distance(q, v));
            C::lemma_distance_symmetric(q, v);
            assert(in_window(k, d, t as int));
            self.children@[i].1.lemma_reaches_complete::<C>(q, t, v);
        }
    }
}

impl<R: Eq + Hash> BKTreeNode<R> {
    /// A node without children holding `value` and one record.
    pub fn new(value: String, first_record_found_in: R) -> (node: Self)
        requires
            obeys_key_model::<R>(),
        ensures
            node.is_leaf(),
            node.value() == value@,
            forall|v: Seq<char>| #[trigger] node.stores(v) == (v == value@),
            forall|v: Seq<char>, r: R| #[trigger] node.has(v, r) == (v == value@ && r == first_record_found_in),
    {
        let mut records_found_in = HashSet::<R>::new();
        records_found_in.insert(first_record_found_in);
        let children = Vec::new();
        BKTreeNode { value, records_found_in, children }
    }

    /// The position of the child kept under `key`, if there is one.
    fn child_index(&self, key: EditDistance) -> (r: Option<usize>)
        ensures
            match r {
                Some(i) => i < self.children@.len() && self.children@[i as int].0 == key,
                None => forall|i: int|
                    0 <= i < self.children@.len() ==> (#[trigger] self.children@[i]).0 != key,
            },
    {
        let mut i: usize = 0;
        while i < self.children.len()
            invariant
                i <= self.children@.len(),
                forall|j: int| 0 <= j < i ==> (#[trigger] self.children@[j]).0 != key,
            decreases self.children@.len() - i,
        {
            if self.children[i].0 == key {
                return Some(i);
            }
            i += 1;
        }
        None
    }

    /// Inserts below this node: a value at distance 0 is this node's own; any
    /// other goes to the child kept under its distance, or becomes that child.
    fn recursive_insert<C: EditDistanceCalculator>(&mut self, value: String, record_found_in: R, calc: &C) -> (added: bool)
        requires
            old(self).wf::<C>(),
            obeys_key_model::<R>(),
        ensures
            final(self).wf::<C>(),
            final(self).value() == old(self).value(),
            forall|v: Seq<char>| #[trigger] final(self).stores(v) == (old(self).stores(v) || v == value@),
            forall|v: Seq<char>, r: R|
                #[trigger] final(self).has(v, r) == (old(self).has(v, r) || (v == value@ && r == record_found_in)),
            added == !old(self).has(value@, record_found_in),
        decreases *old(self),
    {
        let ghost v0 = value@;
        let ghost rec = record_found_in;
        let ghost pre = *self;
        let dist = calc.get_edit_distance(&self.value, &value);
        if dist == 0 {
            let added = self.records_found_in.insert(record_found_in);
            proof {
                if pre.has(v0, rec) && !pre.records_found_in@.contains(rec) {
                    let i = choose|i: int| 0 <= i < pre.children@.len() && (#[trigger] pre.children@[i]).1.has(v0, rec);
                    pre.children@[i].1.lemma_has_stores(v0, rec);
                }
                assert forall|v: Seq<char>, r: R| #[trigger] self.has(v, r) == (pre.has(v, r) || (v == v0 && r == rec)) by {
                    if self.has(v, r) && !(self.value@ == v && self.records_found_in@.contains(r)) {
                        let i = choose|i: int| 0 <= i < self.children@.len() && (#[trigger] self.children@[i]).1.has(v, r);
                        assert(pre.children@[i].1.has(v, r));
                    }
                    if pre.has(v, r) && !(pre.value@ == v && pre.records_found_in@.contains(r)) {
                        let i = choose|i: int| 0 <= i < pre.children@.len() && (#[trigger] pre.children@[i]).1.has(v, r);
                        assert(self.children@[i].1.has(v, r));
                    }
                }
                assert forall|v: Seq<char>| #[trigger] self.stores(v) == (pre.stores(v) || v == v0) by {
                    if self.stores(v) && self.value@ != v {
                        let i = choose|i: int| 0 <= i < self.children@.len() && (#[trigger] self.children@[i]).1.stores(v);
                        assert(pre.children@[i].1.stores(v));
                    }
                    if pre.stores(v) && pre.value@ != v {
                        let i = choose|i: int| 0 <= i < pre.children@.len() && (#[trigger] pre.children@[i]).1.stores(v);
                        assert(self.children@[i].1.stores(v));
                    }
                }
            }
            added
        } else {
            proof {
                C::lemma_distance_self(pre.value@);
                assert(v0 != pre.value@);
            }
            match self.child_index(dist) {
                Some(i) => {
                    let (key, mut child) = self.children.remove(i);
                    let added = child.recursive_insert(value, record_found_in, calc);
                    let ghost grown = child;
                    self.children.insert(i, (key, child));
                    proof {
                        lemma_insert_into_child::<R, C>(pre, *self, i as int, grown, v0, rec);
                    }
                    added
                },
                None => {
                    let leaf = BKTreeNode::new(value, record_found_in);
                    let ghost leaf_view = leaf;
                    self.children.push((dist, leaf));
                    proof {
                        lemma_add_leaf::<R, C>(pre, *self, leaf_view, v0, rec);
                    }
                    true
                },
            }
        }
    }
}

impl<R> BKTreeNode<R> {
    /// Appends to `rtn` the values of this subtree that the search reaches,
    /// visiting only the children whose key lies in the window around the
    /// distance from this node's value to the query.
    fn recursive_search<'a, C: EditDistanceCalculator>(
        &'a self,
        query: &String,
        threshold: EditDistance,
        calc: &C,
        rtn: &mut Vec<(&'a String, &'a HashSet<R>)>,
    )
        requires
            self.wf::<C>(),
        ensures
            final(rtn)@.len() >= old(rtn)@.len(),
            final(rtn)@.subrange(0, old(rtn)@.len() as int) == old(rtn)@,
            forall|j: int|
                old(rtn)@.len() <= j < final(rtn)@.len() ==> {
                    &&& self.reaches::<C>(query@, threshold as nat, (#[trigger] final(rtn)@[j]).0@)
                    &&& final(rtn)@[j].1@ == self.records_of(final(rtn)@[j].0@)
                    &&& (threshold == 0 ==> final(rtn)@[j].0@ == query@)
                },
            forall|v: Seq<char>|
                #[trigger] self.reaches::<C>(query@, threshold as nat, v) ==> exists|j: int|
                    old(rtn)@.len() <= j < final(rtn)@.len() && (#[trigger] final(rtn)@[j]).0@ == v,
            forall|j: int, k: int|
                old(rtn)@.len() <= j < k < final(rtn)@.len() ==> (#[trigger] final(rtn)@[j]).0@
                    != (#[trigger] final(rtn)@[k]).0@,
        decreases self,
    {
        let ghost start = rtn@;
        let ghost t = threshold as nat;
        let d = calc.get_edit_distance(&self.value, query);
        if d <= threshold {
            rtn.push((&self.value, &self.records_found_in));
            proof {
                self.lemma_own_records::<C>();
            }
        }
        let mut i: usize = 0;
        while i < self.children.len()
            invariant
                self.wf::<C>(),
                d == C::distance(self.value@, query@),
                t == threshold as nat,
                i <= self.children@.len(),
                rtn@.len() >= start.len(),
                rtn@.subrange(0, start.len() as int) == start,
                forall|j: int|
                    start.len() <= j < rtn@.len() ==> {
                        &&& self.reaches::<C>(query@, t, (#[trigger] rtn@[j]).0@)
                        &&& rtn@[j].1@ == self.records_of(rtn@[j].0@)
                        &&& (threshold == 0 ==> rtn@[j].0@ == query@)
                    },
                d <= threshold ==> rtn@.len() > start.len() && rtn@[start.len() as int].0@ == self.value@,
                forall|j: int|
                    start.len() <= j < rtn@.len() ==> (j == start.len() && d <= threshold)
                        || self.stored_below_first(i as int, (#[trigger] rtn@[j]).0@),
                forall|j: int, k: int|
                    start.len() <= j < k < rtn@.len() ==> (#[trigger] rtn@[j]).0@ != (#[trigger] rtn@[k]).0@,
                forall|v: Seq<char>, c: int|
                    0 <= c < i && in_window(self.children@[c].0 as int, d as int, t as int)
                        && #[trigger] self.children@[c].1.reaches::<C>(query@, t, v) ==> exists|j: int|
                        start.len() <= j < rtn@.len() && (#[trigger] rtn@[j]).0@ == v,
            decreases self.children@.len() - i,
        {
            let key = self.children[i].0;
            // `key` in [d - threshold, d + threshold], the lower end clamped at 0,
            // written so that nothing wraps.
            let within = (d <= threshold || key >= d - threshold) && (key <= d || key - d <= threshold);
            if within {
                let ghost before = rtn@;
                let child = &self.children[i].1;
                child.recursive_search(query, threshold, calc, rtn);
                proof {
                    assert forall|j: int| start.len() <= j < rtn@.len() implies {
                        &&& self.reaches::<C>(query@, t, (#[trigger] rtn@[j]).0@)
                        &&& rtn@[j].1@ == self.records_of(rtn@[j].0@)
                        &&& (threshold == 0 ==> rtn@[j].0@ == query@)
                    } by {
                        if j < before.len() {
                            assert(rtn@[j] == rtn@.subrange(0, before.len() as int)[j]);
                        } else {
                            let v = rtn@[j].0@;
                            child.lemma_reaches_sound::<C>(query@, t, v);
                            self.lemma_child_records::<C>(i as int, v);
                        }
                    }
                    assert(rtn@.subrange(0, start.len() as int) =~= start) by {
                        assert forall|j: int| 0 <= j < start.len() implies rtn@[j] == start[j] by {
                            assert(rtn@[j] == rtn@.subrange(0, before.len() as int)[j]);
                            assert(before[j] == before.subrange(0, start.len() as int)[j]);
                        }
                    }
                    if d <= threshold {
                        assert(rtn@[start.len() as int] == rtn@.subrange(0, before.len() as int)[start.len() as int]);
                    }
                    assert forall|j: int| start.len() <= j < rtn@.len() implies (j == start.len() && d <= threshold)
                        || self.stored_below_first(i + 1, (#[trigger] rtn@[j]).0@) by {
                        if j < before.len() {
                            assert(rtn@[j] == rtn@.subrange(0, before.len() as int)[j]);
                            assert(rtn@[j] == before[j]);
                            if !(j == start.len() && d <= threshold) {
                                let c = choose|c: int| 0 <= c < i && #[trigger] self.children@[c].1.stores(before[j].0@);
                                assert(0 <= c < i + 1 && self.children@[c].1.stores(rtn@[j].0@));
                            }
                        } else {
                            child.lemma_reaches_sound::<C>(query@, t, rtn@[j].0@);
                            assert(self.children@[i as int].1.stores(rtn@[j].0@));
                        }
                    }
                    assert forall|j: int, k: int| start.len() <= j < k < rtn@.len() implies (#[trigger] rtn@[j]).0@
                        != (#[trigger] rtn@[k]).0@ by {
                        if k >= before.len() {
                            let v = rtn@[k].0@;
                            child.lemma_reaches_sound::<C>(query@, t, v);
                            if j < before.len() {
                                assert(rtn@[j] == rtn@.subrange(0, before.len() as int)[j]);
                                assert(rtn@[j] == before[j]);
                                if rtn@[j].0@ == v {
                                    if !(j == start.len() && d <= threshold) {
                                        let c = choose|c: int| 0 <= c < i && #[trigger] self.children@[c].1.stores(before[j].0@);
                                        assert(self.children@[c].0 == self.children@[i as int].0);
                                    }
                                }
                            }
                        } else {
                            assert(rtn@[j] == rtn@.subrange(0, before.len() as int)[j]);
                            assert(rtn@[k] == rtn@.subrange(0, before.len() as int)[k]);
                        }
                    }
                    assert forall|v: Seq<char>, c: int|
                        0 <= c < i + 1 && in_window(self.children@[c].0 as int, d as int, t as int)
                            && #[trigger] self.children@[c].1.reaches::<C>(query@, t, v) implies exists|j: int|
                            start.len() <= j < rtn@.len() && (#[trigger] rtn@[j]).0@ == v by {
                        if c < i {
                            let j = choose|j: int| start.len() <= j < before.len() && (#[trigger] before[j]).0@ == v;
                            assert(rtn@[j] == rtn@.subrange(0, before.len() as int)[j]);
                        }
                    }
                }
            } else {
                proof {
                    assert(!in_window(key as int, d as int, t as int));
                    assert forall|j: int| start.len() <= j < rtn@.len() implies (j == start.len() && d <= threshold)
                        || self.stored_below_first(i + 1, (#[trigger] rtn@[j]).0@) by {
                        if !(j == start.len() && d <= threshold) {
                            let c = choose|c: int| 0 <= c < i && #[trigger] self.children@[c].1.stores(rtn@[j].0@);
                            assert(0 <= c < i + 1 && self.children@[c].1.stores(rtn@[j].0@));
                        }
                    }
                }
            }
            i += 1;
        }
        proof {
            assert forall|v: Seq<char>| #[trigger] self.reaches::<C>(query@, t, v) implies exists|j: int|
                start.len() <= j < rtn@.len() && (#[trigger] rtn@[j]).0@ == v by {
                if !(self.value@ == v && d <= t) {
                    let c = choose|c: int|
                        0 <= c < self.children@.len() && in_window(self.children@[c].0 as int, d as int, t as int)
                            && (#[trigger] self.children@[c]).1.reaches::<C>(query@, t, v);
                    assert(self.children@[c].1.reaches::<C>(query@, t, v));
                } else {
                    assert(rtn@[start.len() as int].0@ == v);
                }
            }
        }
    }
}

impl<R> View for BKTreeNode<R> {
    type V = Map<Seq<char>, Set<R>>;

    /// Each value stored in this subtree, mapped to the records inserted with it.
    closed spec fn view(&self) -> Map<Seq<char>, Set<R>> {
        Map::new(|v: Seq<char>| self.stores(v), |v: Seq<char>| self.records_of(v))
    }
}

/// The records that `m` holds for `v`; none when `v` is not a key.
pub open spec fn records_in<R>(m: Map<Seq<char>, Set<R>>, v: Seq<char>) -> Set<R> {
    if m.contains_key(v) {
        m[v]
    } else {
        Set::empty()
    }
}

/// `m` with record `r` added to the records of `v`.
pub open spec fn with_record<R>(m: Map<Seq<char>, Set<R>>, v: Seq<char>, r: R) -> Map<Seq<char>, Set<R>> {
    m.insert(v, records_in(m, v).insert(r))
}

/// An index of strings, each with the set of records it was inserted with,
/// searched by edit distance under the metric `C`.
pub struct BKTree<R, C: EditDistanceCalculator> {
    root_node: BKTreeNode<R>,
    edit_distance_calculator: C,
    max_distance_to_consider: EditDistance,
}

impl<R, C: EditDistanceCalculator> View for BKTree<R, C> {
    type V = Map<Seq<char>, Set<R>>;

    /// Each stored value, mapped to the records inserted with it.
    closed spec fn view(&self) -> Map<Seq<char>, Set<R>> {
        self.root_node@
    }
}

impl<R, C: EditDistanceCalculator> BKTree<R, C> {
    /// The BK-tree invariant holds throughout the tree.
    pub closed spec fn wf(&self) -> bool {
        self.root_node.wf::<C>()
    }

    /// The threshold the tree was configured with.
    pub closed spec fn default_threshold(&self) -> nat {
        self.max_distance_to_consider as nat
    }

    /// Whether a search for `q` within `t` reports the stored value `v`: `v`
    /// is within `t` of `q`, and at each node on the path to it the key taken
    /// lies within `t` of that node's distance to `q`.
    pub closed spec fn reports(&self, q: Seq<char>, t: nat, v: Seq<char>) -> bool {
        self.root_node.reaches::<C>(q, t, v)
    }

    proof fn lemma_view_facts(&self)
        ensures
            forall|v: Seq<char>| #[trigger] self@.contains_key(v) == self.root_node.stores(v),
            forall|v: Seq<char>, r: R| #[trigger] records_in(self@, v).contains(r) == self.root_node.has(v, r),
    {
        assert forall|v: Seq<char>, r: R| #[trigger] records_in(self@, v).contains(r) == self.root_node.has(v, r) by {
            if self.root_node.has(v, r) {
                self.root_node.lemma_has_stores(v, r);
            }
        }
    }

    /// The configured default threshold.
    pub fn max_distance_to_consider(&self) -> (r: EditDistance)
        ensures
            r == self.default_threshold(),
    {
        self.max_distance_to_consider
    }
}

impl<R: Eq + Hash, C: EditDistanceCalculator> BKTree<R, C> {
    /// A tree holding `first_value` with `first_record`, searched under
    /// `edit_distance_calculator`, with a default threshold of
    /// `max_distance_to_consider`.
    pub fn new(first_value: String, first_record: R, edit_distance_calculator: C, max_distance_to_consider: EditDistance) -> (tree: Self)
        requires
            obeys_key_model::<R>(),
        ensures
            tree.wf(),
            tree@ == Map::<Seq<char>, Set<R>>::empty().insert(first_value@, Set::<R>::empty().insert(first_record)),
            tree.default_threshold() == max_distance_to_consider,
    {
        let ghost v0 = first_value@;
        let ghost r0 = first_record;
        let root_node = BKTreeNode::new(first_value, first_record);
        let tree = BKTree { root_node, edit_distance_calculator, max_distance_to_consider };
        proof {
            assert(tree.root_node.wf::<C>());
            assert forall|v: Seq<char>| #[trigger] tree.root_node.records_of(v) == (if v == v0 {
                Set::<R>::empty().insert(r0)
            } else {
                Set::<R>::empty()
            }) by {
                assert(tree.root_node.records_of(v) =~= (if v == v0 {
                    Set::<R>::empty().insert(r0)
                } else {
                    Set::<R>::empty()
                }));
            }
            assert(tree@ =~= Map::<Seq<char>, Set<R>>::empty().insert(v0, Set::<R>::empty().insert(r0)));
        }
        tree
    }

    /// Adds `record_found_in` to the records of `value`, storing `value` if it
    /// is new. Returns whether the pair was not stored before.
    pub fn insert(&mut self, value: String, record_found_in: R) -> (added: bool)
        requires
            old(self).wf(),
            obeys_key_model::<R>(),
        ensures
            final(self).wf(),
            final(self)@ == with_record(old(self)@, value@, record_found_in),
            added == !records_in(old(self)@, value@).contains(record_found_in),
            final(self).default_threshold() == old(self).default_threshold(),
    {
        let ghost pre = *self;
        let ghost v0 = value@;
        let ghost r0 = record_found_in;
        let added = self.root_node.recursive_insert(value, record_found_in, &self.edit_distance_calculator);
        proof {
            pre.lemma_view_facts();
            self.lemma_view_facts();
            assert forall|v: Seq<char>| #[trigger] self.root_node.records_of(v) == records_in(with_record(pre@, v0, r0), v) by {
                assert forall|r: R| #[trigger] records_in(with_record(pre@, v0, r0), v).contains(r) == self.root_node.has(v, r) by {
                    assert(records_in(pre@, v).contains(r) == pre.root_node.has(v, r));
                    if v == v0 {
                        assert(records_in(with_record(pre@, v0, r0), v) == records_in(pre@, v).insert(r0));
                    } else {
                        assert(records_in(with_record(pre@, v0, r0), v) == records_in(pre@, v));
                    }
                }
                assert(self.root_node.records_of(v) =~= records_in(with_record(pre@, v0, r0), v));
            }
            assert(self@ =~= with_record(pre@, v0, r0));
        }
        added
    }

    /// The stored values within `threshold` of `value`, each with its records.
    pub fn search(&self, value: &String, threshold: EditDistance) -> (found: Vec<(&String, &HashSet<R>)>)
        requires
            self.wf(),
        ensures
            forall|j: int|
                0 <= j < found@.len() ==> {
                    &&& self@.contains_key((#[trigger] found@[j]).0@)
                    &&& found@[j].1@ == self@[found@[j].0@]
                    &&& C::distance(found@[j].0@, value@) <= threshold
                },
            forall|v: Seq<char>|
                #[trigger] self.reports(value@, threshold as nat, v) == exists|j: int|
                    0 <= j < found@.len() && (#[trigger] found@[j]).0@ == v,
            self@.contains_key(value@) ==> exists|j: int| 0 <= j < found@.len() && (#[trigger] found@[j]).0@ == value@,
            forall|j: int, k: int| 0 <= j < k < found@.len() ==> (#[trigger] found@[j]).0@ != (#[trigger] found@[k]).0@,
            threshold == 0 ==> forall|j: int| 0 <= j < found@.len() ==> (#[trigger] found@[j]).0@ == value@,
            obeys_triangle_inequality::<C>() ==> forall|v: Seq<char>|
                (self@.contains_key(v) && C::distance(v, value@) <= threshold) == exists|j: int|
                    0 <= j < found@.len() && (#[trigger] found@[j]).0@ == v,
    {
        let mut found: Vec<(&String, &HashSet<R>)> = Vec::new();
        self.root_node.recursive_search(value, threshold, &self.edit_distance_calculator, &mut found);
        proof {
            let t = threshold as nat;
            self.lemma_view_facts();
            assert(found@.subrange(0, 0) =~= Seq::<(&String, &HashSet<R>)>::empty());
            assert forall|j: int| 0 <= j < found@.len() implies {
                &&& self@.contains_key((#[trigger] found@[j]).0@)
                &&& found@[j].1@ == self@[found@[j].0@]
                &&& C::distance(found@[j].0@, value@) <= threshold
            } by {
                self.root_node.lemma_reaches_sound::<C>(value@, t, found@[j].0@);
            }
            assert forall|v: Seq<char>| #[trigger] self.reports(value@, t, v) == exists|j: int|
                0 <= j < found@.len() && (#[trigger] found@[j]).0@ == v by {
                if exists|j: int| 0 <= j < found@.len() && (#[trigger] found@[j]).0@ == v {
                    let j = choose|j: int| 0 <= j < found@.len() && (#[trigger] found@[j]).0@ == v;
                    assert(self.reports(value@, t, found@[j].0@));
                }
            }
            if self@.contains_key(value@) {
                self.root_node.lemma_reaches_itself::<C>(value@, t);
                assert(self.reports(value@, t, value@));
            }
            if obeys_triangle_inequality::<C>() {
                assert forall|v: Seq<char>| (self@.contains_key(v) && C::distance(v, value@) <= threshold) == exists|j: int|
                    0 <= j < found@.len() && (#[trigger] found@[j]).0@ == v by {
                    if self@.contains_key(v) && C::distance(v, value@) <= threshold {
                        self.root_node.lemma_reaches_complete::<C>(value@, t, v);
                        assert(self.reports(value@, t, v));
                    }
                }
            }
        }
        found
    }
}

/// After a value is inserted with a record, a search for that value at
/// threshold 0 reports it, and its records include the record.
pub proof fn lemma_insert_then_search<R, C: EditDistanceCalculator>(
    before: BKTree<R, C>,
    after: BKTree<R, C>,
    v: Seq<char>,
    r: R,
)
    requires
        before.wf(),
        after.wf(),
        after@ == with_record(before@, v, r),
    ensures
        after.reports(v, 0, v),
        after@[v].contains(r),
{
    after.lemma_view_facts();
    assert(after@.contains_key(v));
    after.root_node.lemma_reaches_itself::<C>(v, 0);
}

/// Inserting the same value and record a second time changes nothing, and
/// the second insertion finds the pair already present.
pub proof fn lemma_insert_twice<R>(m: Map<Seq<char>, Set<R>>, v: Seq<char>, r: R)
    ensures
        with_record(with_record(m, v, r), v, r) == with_record(m, v, r),
        records_in(with_record(m, v, r), v).contains(r),
{
    let once = with_record(m, v, r);
    assert(records_in(once, v) == records_in(m, v).insert(r));
    assert(records_in(once, v).insert(r) =~= records_in(once, v));
    assert(with_record(once, v, r) =~= once);
}

/// Under a metric that obeys the triangle inequality, a search reports
/// exactly the stored values within the threshold of the query: the same
/// values as a scan of every stored value.
pub proof fn lemma_search_complete<R, C: EditDistanceCalculator>(tree: BKTree<R, C>, q: Seq<char>, t: nat)
    requires
        tree.wf(),
        obeys_triangle_inequality::<C>(),
    ensures
        forall|v: Seq<char>| #[trigger] tree.reports(q, t, v) == (tree@.contains_key(v) && C::distance(v, q) <= t),
{
    tree.lemma_view_facts();
    assert forall|v: Seq<char>| #[trigger] tree.reports(q, t, v) == (tree@.contains_key(v) && C::distance(v, q) <= t) by {
        if tree.reports(q, t, v) {
            tree.root_node.lemma_reaches_sound::<C>(q, t, v);
        }
        if tree@.contains_key(v) && C::distance(v, q) <= t {
            tree.root_node.lemma_reaches_complete::<C>(q, t, v);
        }
    }
}

/// A search of a tree under Levenshtein distance reports exactly the stored
/// values within the threshold of the query.
pub proof fn lemma_levenshtein_search_complete<R>(tree: BKTree<R, LevenshteinEditDistanceCalculator>, q: Seq<char>, t: nat)
    requires
        tree.wf(),
    ensures
        forall|v: Seq<char>|
            #[trigger] tree.reports(q, t, v) == (tree@.contains_key(v) && LevenshteinEditDistanceCalculator::distance(v, q) <= t),
{
    lemma_levenshtein_obeys_triangle_inequality();
    lemma_search_complete(tree, q, t);
}

/// Replacing the child at `i` by one that also holds `v0` with `rec`.
proof fn lemma_insert_into_child<R, C: EditDistanceCalculator>(
    pre: BKTreeNode<R>,
    post: BKTreeNode<R>,
    i: int,
    grown: BKTreeNode<R>,
    v0: Seq<char>,
    rec: R,
)
    requires
        pre.wf::<C>(),
        0 <= i < pre.children@.len(),
        pre.children@[i].0 == C::distance(pre.value@, v0),
        v0 != pre.value@,
        post.value == pre.value,
        post.records_found_in == pre.records_found_in,
        post.children@ == pre.children@.remove(i).insert(i, (pre.children@[i].0, grown)),
        grown.wf::<C>(),
        forall|v: Seq<char>| #[trigger] grown.stores(v) == (pre.children@[i].1.stores(v) || v == v0),
        forall|v: Seq<char>, r: R|
            #[trigger] grown.has(v, r) == (pre.children@[i].1.has(v, r) || (v == v0 && r == rec)),
    ensures
        post.wf::<C>(),
        forall|v: Seq<char>| #[trigger] post.stores(v) == (pre.stores(v) || v == v0),
        forall|v: Seq<char>, r: R| #[trigger] post.has(v, r) == (pre.has(v, r) || (v == v0 && r == rec)),
        pre.has(v0, rec) == pre.children@[i].1.has(v0, rec),
{
    let old_child = pre.children@[i].1;
    assert(post.children@ =~= pre.children@.update(i, (pre.children@[i].0, grown)));
    assert forall|j: int, v: Seq<char>|
        0 <= j < post.children@.len() && #[trigger] post.children@[j].1.stores(v) implies {
            &&& C::distance(post.value@, v) == post.children@[j].0
            &&& v != post.value@
        } by {
        if j != i {
            assert(pre.children@[j].1.stores(v));
        } else if v != v0 {
            assert(old_child.stores(v));
        }
    }
    assert(post.wf::<C>());
    assert forall|v: Seq<char>| #[trigger] post.stores(v) == (pre.stores(v) || v == v0) by {
        if post.stores(v) && post.value@ != v {
            let j = choose|j: int| 0 <= j < post.children@.len() && (#[trigger] post.children@[j]).1.stores(v);
            if j != i {
                assert(pre.children@[j].1.stores(v));
            } else if v != v0 {
                assert(old_child.stores(v));
            }
        }
        if pre.stores(v) && pre.value@ != v {
            let j = choose|j: int| 0 <= j < pre.children@.len() && (#[trigger] pre.children@[j]).1.stores(v);
            assert(post.children@[j].1.stores(v));
        }
        if v == v0 {
            assert(post.children@[i].1.stores(v));
        }
    }
    assert forall|v: Seq<char>, r: R| #[trigger] post.has(v, r) == (pre.has(v, r) || (v == v0 && r == rec)) by {
        if post.has(v, r) && !(post.value@ == v && post.records_found_in@.contains(r)) {
            let j = choose|j: int| 0 <= j < post.children@.len() && (#[trigger] post.children@[j]).1.has(v, r);
            if j != i {
                assert(pre.children@[j].1.has(v, r));
            } else if !(v == v0 && r == rec) {
                assert(old_child.has(v, r));
            }
        }
        if pre.has(v, r) && !(pre.value@ == v && pre.records_found_in@.contains(r)) {
            let j = choose|j: int| 0 <= j < pre.children@.len() && (#[trigger] pre.children@[j]).1.has(v, r);
            assert(post.children@[j].1.has(v, r));
        }
        if v == v0 && r == rec {
            assert(post.children@[i].1.has(v, r));
        }
    }
    if pre.has(v0, rec) && !old_child.has(v0, rec) {
        let j = choose|j: int| 0 <= j < pre.children@.len() && (#[trigger] pre.children@[j]).1.has(v0, rec);
        pre.children@[j].1.lemma_has_stores(v0, rec);
        assert(pre.children@[j].0 == pre.children@[i].0);
    }
}

/// Adding a leaf for `v0` under a key that no child uses yet.
proof fn lemma_add_leaf<R, C: EditDistanceCalculator>(
    pre: BKTreeNode<R>,
    post: BKTreeNode<R>,
    leaf: BKTreeNode<R>,
    v0: Seq<char>,
    rec: R,
)
    requires
        pre.wf::<C>(),
        v0 != pre.value@,
        forall|j: int| 0 <= j < pre.children@.len() ==> (#[trigger] pre.children@[j]).0 != C::distance(pre.value@, v0),
        leaf.is_leaf(),
        forall|v: Seq<char>| #[trigger] leaf.stores(v) == (v == v0),
        forall|v: Seq<char>, r: R| #[trigger] leaf.has(v, r) == (v == v0 && r == rec),
        post.value == pre.value,
        post.records_found_in == pre.records_found_in,
        post.children@ == pre.children@.push((C::distance(pre.value@, v0) as usize, leaf)),
        C::distance(pre.value@, v0) <= usize::MAX,
    ensures
        post.wf::<C>(),
        forall|v: Seq<char>| #[trigger] post.stores(v) == (pre.stores(v) || v == v0),
        forall|v: Seq<char>, r: R| #[trigger] post.has(v, r) == (pre.has(v, r) || (v == v0 && r == rec)),
        !pre.has(v0, rec),
{
    let n = pre.children@.len() as int;
    assert(leaf.wf::<C>());
    assert forall|j: int, v: Seq<char>|
        0 <= j < post.children@.len() && #[trigger] post.children@[j].1.stores(v) implies {
            &&& C::distance(post.value@, v) == post.children@[j].0
            &&& v != post.value@
        } by {
        if j < n {
            assert(pre.children@[j].1.stores(v));
        }
    }
    assert forall|j: int, k: int| 0 <= j < k < post.children@.len() implies
        (#[trigger] post.children@[j]).0 != (#[trigger] post.children@[k]).0 by {
        if k < n {
            assert(pre.children@[j] == post.children@[j]);
            assert(pre.children@[k] == post.children@[k]);
        }
    }
    assert(post.wf::<C>());
    assert forall|v: Seq<char>| #[trigger] post.stores(v) == (pre.stores(v) || v == v0) by {
        if post.stores(v) && post.value@ != v {
            let j = choose|j: int| 0 <= j < post.children@.len() && (#[trigger] post.children@[j]).1.stores(v);
            if j < n {
                assert(pre.children@[j].1.stores(v));
            }
        }
        if pre.stores(v) && pre.value@ != v {
            let j = choose|j: int| 0 <= j < pre.children@.len() && (#[trigger] pre.children@[j]).1.stores(v);
            assert(post.children@[j].1.stores(v));
        }
        if v == v0 {
            assert(post.children@[n].1.stores(v));
        }
    }
    assert forall|v: Seq<char>, r: R| #[trigger] post.has(v, r) == (pre.has(v, r) || (v == v0 && r == rec)) by {
        if post.has(v, r) && !(post.value@ == v && post.records_found_in@.contains(r)) {
            let j = choose|j: int| 0 <= j < post.children@.len() && (#[trigger] post.children@[j]).1.has(v, r);
            if j < n {
                assert(pre.children@[j].1.has(v, r));
            }
        }
        if pre.has(v, r) && !(pre.value@ == v && pre.records_found_in@.contains(r)) {
            let j = choose|j: int| 0 <= j < pre.children@.len() && (#[trigger] pre.children@[j]).1.has(v, r);
            assert(post.children@[j].1.has(v, r));
        }
        if v == v0 && r == rec {
            assert(post.children@[n].1.has(v, r));
        }
    }
    if pre.has(v0, rec) {
        let j = choose|j: int| 0 <= j < pre.children@.len() && (#[trigger] pre.children@[j]).1.has(v0, rec);
        pre.children@[j].1.lemma_has_stores(v0, rec);
    }
}

/// Whether key `k` lies within `t` of distance `d`.
pub open spec fn in_window(k: int, d: int, t: int) -> bool {
    d - t <= k <= d + t
}

} // verus!
