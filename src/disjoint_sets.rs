use crate::node::Node;
use crate::union_find::{Error, UnionFind};
use std::collections::HashMap;
use vstd::prelude::*;
use vstd::relations::injective_on;
use vstd::set_lib::{
    lemma_int_range,
    lemma_len_subset,
    lemma_map_size,
    lemma_set_disjoint_lens,
    set_int_range,
};

verus! {

broadcast use vstd::std_specs::hash::group_hash_axioms;

/// Disjoint sets of `u64` items, with path compression and a union that
/// links the root of the smaller set under the root of the larger one.
///
/// Items are given consecutive ids as they are registered; `nodes[id]` holds
/// the parent and rank of the item with that id.
#[derive(Clone)]
pub struct DisjointSets {
    nodes: Vec<Node>,
    item_to_id: HashMap<u64, usize>,
    items: Vec<u64>,
    /// For each id, the id of the root that its parent links lead to.
    root_of: Ghost<Seq<int>>,
    /// A measure that strictly grows along every parent link.
    height: Ghost<Seq<nat>>,
}

impl DisjointSets {
    /// The registered items, in the order they were registered.
    pub closed spec fn items(&self) -> Seq<u64> {
        self.items@
    }

    /// The representative of the set that holds `x`.
    pub closed spec fn repr_of(&self, x: u64) -> u64 {
        self.items@[self.root_of@[self.id_of(x)]]
    }

    /// The item that the parent link of `x` names.
    pub closed spec fn parent_item(&self, x: u64) -> u64 {
        self.items@[self.parent_of(self.id_of(x))]
    }

    /// `a` is reached from `x` by following parent links.
    pub closed spec fn on_find_path(&self, x: u64, a: u64) -> bool {
        self.on_path(self.id_of(x), self.id_of(a))
    }

    /// The rank stored in the node of `a`.
    pub closed spec fn rank_item(&self, a: u64) -> int {
        self.rank_of(self.id_of(a))
    }

    /// `x` has been registered.
    pub open spec fn contains_spec(&self, x: u64) -> bool {
        self.items().contains(x)
    }

    /// `a` and `b` are both registered and lie in one set.
    pub open spec fn same(&self, a: u64, b: u64) -> bool {
        self.contains_spec(a) && self.contains_spec(b) && self.repr_of(a) == self.repr_of(b)
    }

    /// The set that holds `x`.
    pub open spec fn class(&self, x: u64) -> Set<u64> {
        Set::new(|a: u64| self.same(a, x))
    }

    /// The items that represent their own set.
    pub open spec fn representatives(&self) -> Set<u64> {
        Set::new(|a: u64| self.contains_spec(a) && self.repr_of(a) == a)
    }

    /// Both states hold the same items, registered in the same order, and
    /// give every item the same representative.
    pub open spec fn same_model(&self, other: &Self) -> bool {
        &&& self.items() == other.items()
        &&& forall|a: u64| self.contains_spec(a) ==> #[trigger] self.repr_of(a) == other.repr_of(a)
    }

    spec fn id_of(&self, x: u64) -> int {
        self.item_to_id@[x] as int
    }

    spec fn parent_of(&self, k: int) -> int {
        self.nodes@[k].parent_spec() as int
    }

    spec fn rank_of(&self, k: int) -> int {
        self.nodes@[k].rank_spec() as int
    }

    spec fn members(&self, r: int) -> Set<int> {
        Set::new(|k: int| 0 <= k < self.nodes@.len() && self.root_of@[k] == r)
    }

    spec fn roots(&self) -> Set<int> {
        Set::new(|k: int| 0 <= k < self.nodes@.len() && self.parent_of(k) == k)
    }

    /// Internal consistency: ids and items correspond one to one, every
    /// parent link stays in range and climbs in `height` towards the root
    /// that `root_of` names, and each root's rank counts its tree.
    pub closed spec fn wf(&self) -> bool {
        let n = self.nodes@.len();
        &&& self.items@.len() == n
        &&& self.root_of@.len() == n
        &&& self.height@.len() == n
        &&& forall|k: int| 0 <= k < n ==> (#[trigger] self.nodes@[k]).item_spec() == k
        &&& forall|k: int| 0 <= k < n ==> 0 <= #[trigger] self.parent_of(k) < n
        &&& forall|k: int|
            0 <= k < n ==> self.item_to_id@.contains_key(#[trigger] self.items@[k])
                && self.item_to_id@[self.items@[k]] == k
        &&& forall|a: u64| #[trigger]
            self.item_to_id@.contains_key(a) ==> self.item_to_id@[a] < n
                && self.items@[self.item_to_id@[a] as int] == a
        &&& forall|k: int| 0 <= k < n ==> 0 <= #[trigger] self.root_of@[k] < n
        &&& forall|k: int|
            0 <= k < n ==> self.parent_of(#[trigger] self.root_of@[k]) == self.root_of@[k]
        &&& forall|k: int|
            0 <= k < n ==> #[trigger] self.root_of@[self.parent_of(k)] == self.root_of@[k]
        &&& forall|k: int| 0 <= k < n && #[trigger] self.parent_of(k) == k ==> self.root_of@[k] == k
        &&& forall|k: int|
            0 <= k < n && #[trigger] self.parent_of(k) != k ==> self.height@[k]
                < self.height@[self.parent_of(k)] && self.height@[k]
                < self.height@[self.root_of@[k]]
        &&& forall|r: int|
            0 <= r < n && #[trigger] self.parent_of(r) == r ==> self.rank_of(r) == self.members(
                r,
            ).len()
    }

    /// An empty structure.
    pub fn new() -> (s: Self)
        ensures
            s.wf(),
            s.items() == Seq::<u64>::empty(),
    {
        let s = DisjointSets {
            nodes: Vec::new(),
            item_to_id: HashMap::new(),
            items: Vec::new(),
            root_of: Ghost(Seq::empty()),
            height: Ghost(Seq::empty()),
        };
        proof {
            assert forall|r: int| 0 <= r < 0 implies s.members(r).len() == 0 by {}
        }
        s
    }

    /// Whether `item` has been registered.
    pub fn contains(&self, item: &u64) -> (r: bool)
        requires
            self.wf(),
        ensures
            r == self.contains_spec(*item),
    {
        proof {
            self.lemma_contains();
        }
        self.item_to_id.contains_key(item)
    }

    /// The number of registered items.
    pub fn num_items(&self) -> (r: usize)
        requires
            self.wf(),
        ensures
            r == self.items().len(),
    {
        self.nodes.len()
    }

    /// The id of `item`, if it is registered.
    fn lookup(&self, item: &u64) -> (r: Option<usize>)
        requires
            self.wf(),
        ensures
            r.is_none() <==> !self.contains_spec(*item),
            r matches Some(k) ==> k == self.id_of(*item) && k < self.nodes@.len(),
    {
        proof {
            self.lemma_contains();
        }
        match self.item_to_id.get(item) {
            Some(k) => Some(*k),
            None => None,
        }
    }

    /// The root that the parent links from `id` lead to.
    fn find_repr_inner(&self, id: usize) -> (r: usize)
        requires
            self.wf(),
            id < self.nodes@.len(),
        ensures
            r == self.root_of@[id as int],
    {
        let ghost root = self.root_of@[id as int];
        let mut cur = id;
        proof {
            if self.parent_of(id as int) == id as int {
                assert(self.root_of@[id as int] == id as int);
            }
        }
        while !self.nodes[cur].is_representative()
            invariant
                self.wf(),
                0 <= cur < self.nodes@.len(),
                self.root_of@[cur as int] == root,
                self.height@[cur as int] <= self.height@[root],
            decreases self.height@[root] - self.height@[cur as int],
        {
            let ghost prev = cur as int;
            proof {
                assert(self.nodes@[prev].item_spec() == prev);
                assert(self.parent_of(prev) != prev);
                assert(0 <= self.parent_of(prev) < self.nodes@.len());
            }
            cur = self.nodes[cur].parent();
            proof {
                let c = cur as int;
                assert(c == self.parent_of(prev));
                assert(self.root_of@[self.parent_of(prev)] == self.root_of@[prev]);
                if self.parent_of(c) != c {
                    assert(self.height@[c] < self.height@[self.root_of@[c]]);
                } else {
                    assert(self.root_of@[c] == c);
                }
            }
        }
        proof {
            assert(self.nodes@[cur as int].item_spec() == cur as int);
            assert(self.parent_of(cur as int) == cur as int);
        }
        cur
    }

    /// The root of `id`'s tree; every node on the way from `id` is then
    /// linked straight to that root, and every other node keeps its parent.
    fn find_repr_id(&mut self, id: usize) -> (r: usize)
        requires
            old(self).wf(),
            id < old(self).nodes@.len(),
        ensures
            final(self).wf(),
            r == old(self).root_of@[id as int],
            final(self).parent_of(id as int) == r,
            forall|k: int|
                0 <= k < old(self).nodes@.len() ==> #[trigger] final(self).parent_of(k) == if old(
                    self,
                ).on_path(id as int, k) {
                    r as int
                } else {
                    old(self).parent_of(k)
                },
            final(self).nodes@.len() == old(self).nodes@.len(),
            final(self).items@ == old(self).items@,
            final(self).item_to_id@ == old(self).item_to_id@,
            final(self).root_of@ == old(self).root_of@,
            final(self).height@ == old(self).height@,
            forall|k: int|
                0 <= k < old(self).nodes@.len() ==> #[trigger] final(self).rank_of(k) == old(
                    self,
                ).rank_of(k),
            final(self).roots() == old(self).roots(),
    {
        let ghost pre = *self;
        let root = self.find_repr_inner(id);
        let ghost n = self.nodes@.len();
        let ghost ranks = Seq::new(n, |k: int| self.rank_of(k));
        let ghost roots0 = self.roots();
        let ghost mut visited: Seq<int> = Seq::empty();
        let mut cur = id;
        proof {
            assert(pre.hop(id as int, 0) == id);
        }
        while cur != root
            invariant
                self.wf(),
                pre.wf(),
                pre.nodes@.len() == n,
                self.nodes@.len() == n,
                id < n,
                0 <= cur < n,
                self.root_of@[cur as int] == root,
                self.root_of@ == pre.root_of@,
                self.height@ == pre.height@,
                self.items@ == pre.items@,
                self.item_to_id@ == pre.item_to_id@,
                root == pre.root_of@[id as int],
                cur as int == pre.hop(id as int, visited.len()),
                forall|s: int| 0 <= s < visited.len() ==> visited[s] == pre.hop(id as int, s as nat),
                forall|s: int|
                    0 <= s < visited.len() ==> pre.height@[#[trigger] visited[s]]
                        < pre.height@[cur as int],
                forall|k: int|
                    0 <= k < n ==> #[trigger] self.parent_of(k) == if visited.contains(k) {
                        root as int
                    } else {
                        pre.parent_of(k)
                    },
                forall|k: int| 0 <= k < n ==> #[trigger] self.rank_of(k) == ranks[k],
                self.roots() == roots0,
            decreases self.height@[root as int] - self.height@[cur as int],
        {
            let next = self.nodes[cur].parent();
            let mut nd = self.nodes[cur];
            nd.set_parent(root);
            let ghost before = *self;
            self.nodes.set(cur, nd);
            proof {
                let c = cur as int;
                let r = root as int;
                assert(!visited.contains(c)) by {
                    if visited.contains(c) {
                        let s = choose|s: int| 0 <= s < visited.len() && visited[s] == c;
                        assert(pre.height@[visited[s]] < pre.height@[c]);
                    }
                }
                assert(before.parent_of(c) == pre.parent_of(c));
                assert(before.parent_of(c) != c);
                assert(before.parent_of(r) == r);
                assert forall|k: int| 0 <= k < n && k != c implies self.nodes@[k]
                    == before.nodes@[k] by {}
                assert forall|k: int| 0 <= k < n implies #[trigger] self.parent_of(k)
                    == (if k == c { r } else { before.parent_of(k) }) by {}
                assert forall|q: int| 0 <= q < n implies #[trigger] self.members(q)
                    == before.members(q) by {
                    assert(self.members(q) =~= before.members(q));
                }
                assert(self.roots() =~= before.roots());
                assert forall|k: int| 0 <= k < n implies #[trigger] self.rank_of(k) == ranks[k] by {
                    assert(before.rank_of(k) == ranks[k]);
                }
                let p = before.parent_of(c);
                assert(0 <= p < n);
                assert(before.root_of@[before.parent_of(c)] == before.root_of@[c]);
                assert(before.height@[c] < before.height@[p]);
                if before.parent_of(p) != p {
                    assert(before.height@[p] < before.height@[before.root_of@[p]]);
                }
                let old_visited = visited;
                visited = visited.push(c);
                assert(pre.hop(id as int, visited.len()) == pre.parent_of(
                    pre.hop(id as int, old_visited.len()),
                ));
                assert forall|k: int| 0 <= k < n implies #[trigger] self.parent_of(k) == if visited.contains(k) {
                    r
                } else {
                    pre.parent_of(k)
                } by {
                    if k == c {
                        assert(visited[old_visited.len() as int] == c);
                    } else {
                        assert(visited.contains(k) == old_visited.contains(k)) by {
                            if visited.contains(k) {
                                let s = choose|s: int| 0 <= s < visited.len() && visited[s] == k;
                                assert(old_visited[s] == k);
                            }
                            if old_visited.contains(k) {
                                let s = choose|s: int| 0 <= s < old_visited.len() && old_visited[s] == k;
                                assert(visited[s] == k);
                            }
                        }
                    }
                }
                assert forall|s: int| 0 <= s < visited.len() implies pre.height@[#[trigger] visited[s]]
                    < pre.height@[p] by {
                    if s < old_visited.len() {
                        assert(old_visited[s] == visited[s]);
                    }
                }
                assert forall|s: int| 0 <= s < visited.len() implies visited[s] == pre.hop(
                    id as int,
                    s as nat,
                ) by {
                    if s < old_visited.len() {
                        assert(old_visited[s] == visited[s]);
                    }
                }
            }
            cur = next;
        }
        proof {
            let r = root as int;
            assert(pre.parent_of(r) == r);
            assert forall|k: int| 0 <= k < n implies #[trigger] self.parent_of(k) == if pre.on_path(
                id as int,
                k,
            ) {
                r
            } else {
                pre.parent_of(k)
            } by {
                if pre.on_path(id as int, k) {
                    let s = choose|s: nat| #[trigger] pre.hop(id as int, s) == k;
                    if s < visited.len() {
                        assert(visited[s as int] == k);
                    } else {
                        pre.lemma_hop_past_root(id as int, visited.len(), s);
                    }
                } else if visited.contains(k) {
                    let s = choose|s: int| 0 <= s < visited.len() && visited[s] == k;
                    assert(pre.hop(id as int, s as nat) == k);
                }
            }
            assert(pre.hop(id as int, 0) == id);
            assert(pre.on_path(id as int, id as int));
        }
        root
    }

    /// The node reached from `i` after `s` parent links.
    spec fn hop(&self, i: int, s: nat) -> int
        decreases s,
    {
        if s == 0 {
            i
        } else {
            self.parent_of(self.hop(i, (s - 1) as nat))
        }
    }

    /// `k` is reached from `i` by following parent links.
    spec fn on_path(&self, i: int, k: int) -> bool {
        exists|s: nat| #[trigger] self.hop(i, s) == k
    }

    /// Once the links from `i` reach a root, they stay there.
    proof fn lemma_hop_past_root(&self, i: int, j: nat, s: nat)
        requires
            self.wf(),
            0 <= i < self.nodes@.len(),
            j <= s,
            self.hop(i, j) == self.root_of@[i],
        ensures
            self.hop(i, s) == self.root_of@[i],
        decreases s - j,
    {
        if s > j {
            self.lemma_hop_past_root(i, j, (s - 1) as nat);
            let r = self.root_of@[i];
            assert(self.parent_of(self.root_of@[i]) == self.root_of@[i]);
        }
    }

    /// The number of disjoint sets.
    pub fn num_sets(&self) -> (r: usize)
        requires
            self.wf(),
        ensures
            r == self.representatives().len(),
    {
        let n = self.nodes.len();
        let mut count: usize = 0;
        let mut i: usize = 0;
        proof {
            assert(Set::new(|k: int| 0 <= k < 0 && self.parent_of(k) == k) =~= Set::empty());
        }
        while i < n
            invariant
                self.wf(),
                n == self.nodes@.len(),
                i <= n,
                count <= i,
                count == Set::new(|k: int| 0 <= k < i && self.parent_of(k) == k).len(),
            decreases n - i,
        {
            let ghost before = Set::new(|k: int| 0 <= k < i && self.parent_of(k) == k);
            let ghost after = Set::new(|k: int| 0 <= k < i + 1 && self.parent_of(k) == k);
            proof {
                lemma_int_range(0, i as int);
                lemma_len_subset(before, set_int_range(0, i as int));
            }
            if self.nodes[i].is_representative() {
                proof {
                    assert(self.nodes@[i as int].item_spec() == i);
                    assert(after =~= before.insert(i as int));
                }
                count = count + 1;
            } else {
                proof {
                    assert(self.nodes@[i as int].item_spec() == i);
                    assert(after =~= before);
                }
            }
            i = i + 1;
        }
        proof {
            self.lemma_representatives();
            assert(self.roots() =~= Set::new(|k: int| 0 <= k < n && self.parent_of(k) == k));
        }
        count
    }

    /// Registers `item` as a new singleton set.
    pub fn make_set(&mut self, item: u64) -> (r: Result<(), Error>)
        requires
            old(self).wf(),
        ensures
            final(self).wf(),
            old(self).contains_spec(item) ==> r == Err::<(), Error>(Error::ItemExists)
                && *final(self) == *old(self),
            !old(self).contains_spec(item) ==> {
                &&& r == Ok::<(), Error>(())
                &&& final(self).items() == old(self).items().push(item)
                &&& final(self).repr_of(item) == item
                &&& final(self).class(item) == set![item]
                &&& final(self).representatives().len() == old(self).representatives().len() + 1
                &&& forall|a: u64|
                    old(self).contains_spec(a) ==> #[trigger] final(self).repr_of(a)
                        == old(self).repr_of(a)
            },
    {
        if self.contains(&item) {
            return Err(Error::ItemExists);
        }
        let ghost pre = *self;
        let id = self.nodes.len();
        self.item_to_id.insert(item, id);
        self.items.push(item);
        self.nodes.push(Node::new(id));
        self.root_of = Ghost(self.root_of@.push(id as int));
        self.height = Ghost(self.height@.push(0nat));
        proof {
            let n = id as int;
            pre.lemma_contains();
            assert forall|k: int| 0 <= k < n implies #[trigger] self.nodes@[k] == pre.nodes@[k]
                && self.items@[k] == pre.items@[k] && self.root_of@[k] == pre.root_of@[k]
                && self.parent_of(k) == pre.parent_of(k) && self.items@[k] != item by {
                assert(pre.items@.contains(pre.items@[k]));
            }
            assert(self.parent_of(n) == n);
            assert forall|q: int| 0 <= q < n implies #[trigger] self.members(q) == pre.members(q)
                by {
                assert(self.members(q) =~= pre.members(q));
            }
            assert(self.members(n) =~= set![n]);
            assert(self.wf());
            assert forall|a: u64| pre.contains_spec(a) implies #[trigger] self.repr_of(a)
                == pre.repr_of(a) by {
                assert(self.item_to_id@[a] == pre.item_to_id@[a]);
            }
            self.lemma_contains();
            assert forall|a: u64| #[trigger] self.class(item).contains(a) implies a == item by {
                if a != item {
                    assert(pre.contains_spec(a));
                    assert(self.items@[self.id_of(a)] == a);
                    assert(self.id_of(a) < n);
                    assert(self.root_of@[self.id_of(a)] < n);
                    assert(self.item_to_id@[self.items@[self.root_of@[self.id_of(a)]]]
                        == self.root_of@[self.id_of(a)]);
                }
            }
            assert(self.class(item) =~= set![item]);
            pre.lemma_representatives();
            self.lemma_representatives();
            assert(self.roots() =~= pre.roots().insert(n));
        }
        Ok(())
    }

    /// The representative that survives a union of the sets of `x` and `y`:
    /// that of the larger set, or that of `x` where the sizes are equal.
    pub open spec fn union_winner(&self, x: u64, y: u64) -> u64 {
        if self.class(x).len() < self.class(y).len() {
            self.repr_of(y)
        } else {
            self.repr_of(x)
        }
    }

    /// The representative that a union of the sets of `x` and `y` links
    /// under the other one.
    pub open spec fn union_loser(&self, x: u64, y: u64) -> u64 {
        if self.class(x).len() < self.class(y).len() {
            self.repr_of(x)
        } else {
            self.repr_of(y)
        }
    }

    /// What a union of the sets of `x` and `y` leaves as `a`'s representative.
    pub open spec fn repr_after_union(&self, x: u64, y: u64, a: u64) -> u64 {
        if self.same(a, x) || self.same(a, y) {
            self.union_winner(x, y)
        } else {
            self.repr_of(a)
        }
    }

    /// Merges the sets that hold `x` and `y`.
    pub fn union(&mut self, x: &u64, y: &u64) -> (r: Result<(), Error>)
        requires
            old(self).wf(),
        ensures
            final(self).wf(),
            !(old(self).contains_spec(*x) && old(self).contains_spec(*y)) ==> r == Err::<
                (),
                Error,
            >(Error::ItemNotFound) && *final(self) == *old(self),
            old(self).contains_spec(*x) && old(self).contains_spec(*y) ==> {
                &&& r == Ok::<(), Error>(())
                &&& final(self).items() == old(self).items()
                &&& forall|a: u64|
                    old(self).contains_spec(a) ==> #[trigger] final(self).repr_of(a) == old(
                        self,
                    ).repr_after_union(*x, *y, a)
                &&& old(self).same(*x, *y) ==> final(self).representatives().len() == old(
                    self,
                ).representatives().len()
                &&& !old(self).same(*x, *y) ==> final(self).representatives().len() + 1 == old(
                    self,
                ).representatives().len()
                &&& !old(self).same(*x, *y) ==> final(self).parent_item(
                    old(self).union_loser(*x, *y),
                ) == old(self).union_winner(*x, *y)
                &&& forall|a: u64|
                    old(self).contains_spec(a) ==> #[trigger] final(self).rank_item(a) >= old(
                        self,
                    ).rank_item(a)
            },
    {
        let x_id = match self.lookup(x) {
            Some(k) => k,
            None => return Err(Error::ItemNotFound),
        };
        let y_id = match self.lookup(y) {
            Some(k) => k,
            None => return Err(Error::ItemNotFound),
        };
        let ghost pre = *self;
        let x_repr = self.find_repr_id(x_id);
        let y_repr = self.find_repr_id(y_id);
        let ghost mid = *self;
        proof {
            pre.lemma_contains();
            pre.lemma_root_eq(x_id as int, y_id as int);
            pre.lemma_representatives();
            mid.lemma_representatives();
            assert(mid.representatives() =~= pre.representatives());
            assert forall|a: u64| pre.contains_spec(a) implies pre.same(a, *x) == (
            pre.root_of@[pre.id_of(a)] == x_repr) && pre.same(a, *y) == (pre.root_of@[pre.id_of(a)]
                == y_repr) by {
                pre.lemma_root_eq(pre.id_of(a), x_id as int);
                pre.lemma_root_eq(pre.id_of(a), y_id as int);
            }
        }
        if x_repr == y_repr {
            return Ok(());
        }
        let x_rank = self.nodes[x_repr].rank();
        let y_rank = self.nodes[y_repr].rank();
        let len = self.nodes.len();
        proof {
            let n = len as int;
            let xr = x_repr as int;
            let yr = y_repr as int;
            assert(self.parent_of(xr) == xr);
            assert(self.parent_of(yr) == yr);
            pre.lemma_class_size(*x);
            pre.lemma_class_size(*y);
            lemma_int_range(0, n);
            assert((self.members(xr) + self.members(yr)).subset_of(set_int_range(0, n)));
            lemma_len_subset(self.members(xr) + self.members(yr), set_int_range(0, n));
            assert(self.members(xr).disjoint(self.members(yr)));
            lemma_len_subset(self.members(xr), set_int_range(0, n));
            lemma_len_subset(self.members(yr), set_int_range(0, n));
            lemma_set_disjoint_lens(self.members(xr), self.members(yr));
            assert(x_rank == self.members(xr).len());
            assert(y_rank == self.members(yr).len());
            assert(x_rank + y_rank <= n);
        }
        let rank_sum = x_rank + y_rank;
        if x_rank < y_rank {
            self.link(x_repr, y_repr, rank_sum);
        } else {
            self.link(y_repr, x_repr, rank_sum);
        }
        proof {
            self.lemma_representatives();
            assert forall|a: u64| pre.contains_spec(a) implies #[trigger] self.repr_of(a)
                == pre.repr_after_union(*x, *y, a) by {
                assert(self.item_to_id@[a] == pre.item_to_id@[a]);
            }
            assert forall|a: u64| pre.contains_spec(a) implies #[trigger] self.rank_item(a)
                >= pre.rank_item(a) by {
                assert(mid.rank_of(pre.id_of(a)) == pre.rank_of(pre.id_of(a)));
            }
            assert(pre.item_to_id@[pre.items@[x_repr as int]] == x_repr);
            assert(pre.item_to_id@[pre.items@[y_repr as int]] == y_repr);
        }
        Ok(())
    }

    /// Links the root `child` under the root `root`, which then counts the
    /// members of both trees.
    fn link(&mut self, child: usize, root: usize, rank_sum: usize)
        requires
            old(self).wf(),
            child < old(self).nodes@.len(),
            root < old(self).nodes@.len(),
            child != root,
            old(self).parent_of(child as int) == child,
            old(self).parent_of(root as int) == root,
            rank_sum == old(self).members(child as int).len() + old(self).members(
                root as int,
            ).len(),
        ensures
            final(self).wf(),
            final(self).nodes@.len() == old(self).nodes@.len(),
            final(self).items@ == old(self).items@,
            final(self).item_to_id@ == old(self).item_to_id@,
            forall|k: int|
                0 <= k < old(self).nodes@.len() ==> #[trigger] final(self).root_of@[k] == if old(
                    self,
                ).root_of@[k] == child {
                    root as int
                } else {
                    old(self).root_of@[k]
                },
            final(self).roots() == old(self).roots().remove(child as int),
            final(self).parent_of(child as int) == root,
            forall|k: int|
                0 <= k < old(self).nodes@.len() ==> #[trigger] final(self).rank_of(k) >= old(
                    self,
                ).rank_of(k),
    {
        let ghost pre = *self;
        let mut c = self.nodes[child];
        c.set_parent(root);
        self.nodes.set(child, c);
        let mut r = self.nodes[root];
        r.set_rank(rank_sum);
        self.nodes.set(root, r);
        let ghost n = pre.nodes@.len() as int;
        let ghost ci = child as int;
        let ghost ri = root as int;
        self.root_of = Ghost(
            Seq::new(
                n as nat,
                |k: int|
                    if pre.root_of@[k] == ci {
                        ri
                    } else {
                        pre.root_of@[k]
                    },
            ),
        );
        let ghost hr = if pre.height@[ri] > pre.height@[ci] {
            pre.height@[ri]
        } else {
            pre.height@[ci] + 1
        };
        self.height = Ghost(pre.height@.update(ri, hr));
        proof {
            assert(pre.root_of@[ci] == ci);
            assert(pre.root_of@[ri] == ri);
            assert forall|k: int| 0 <= k < n implies #[trigger] self.parent_of(k) == if k == ci {
                ri
            } else {
                pre.parent_of(k)
            } by {}
            assert forall|k: int| 0 <= k < n implies #[trigger] self.rank_of(k) == if k == ri {
                rank_sum as int
            } else {
                pre.rank_of(k)
            } by {}
            assert forall|k: int| 0 <= k < n implies (#[trigger] self.nodes@[k]).item_spec() == k
                by {
                assert(pre.nodes@[k].item_spec() == k);
            }
            assert forall|k: int| 0 <= k < n && #[trigger] self.parent_of(k) != k implies self.height@[k]
                < self.height@[self.parent_of(k)] && self.height@[k]
                < self.height@[self.root_of@[k]] by {
                if k != ci {
                    assert(pre.parent_of(k) != k);
                    assert(pre.height@[k] < pre.height@[pre.parent_of(k)]);
                    assert(pre.height@[k] < pre.height@[pre.root_of@[k]]);
                    if pre.root_of@[k] == ci {
                        assert(pre.height@[ci] < hr);
                    }
                }
            }
            assert forall|k: int| 0 <= k < n implies #[trigger] self.root_of@[self.parent_of(k)]
                == self.root_of@[k] by {
                assert(pre.root_of@[pre.parent_of(k)] == pre.root_of@[k]);
            }
            assert forall|k: int| 0 <= k < n implies self.parent_of(#[trigger] self.root_of@[k])
                == self.root_of@[k] by {
                assert(pre.parent_of(pre.root_of@[k]) == pre.root_of@[k]);
            }
            lemma_int_range(0, n);
            lemma_len_subset(pre.members(ci), set_int_range(0, n));
            lemma_len_subset(pre.members(ri), set_int_range(0, n));
            assert(self.members(ri) =~= pre.members(ri) + pre.members(ci));
            assert(pre.members(ri).disjoint(pre.members(ci)));
            lemma_set_disjoint_lens(pre.members(ri), pre.members(ci));
            assert forall|q: int| 0 <= q < n && q != ri && q != ci implies #[trigger] self.members(
                q,
            ) == pre.members(q) by {
                assert(self.members(q) =~= pre.members(q));
            }
            assert forall|q: int| 0 <= q < n && #[trigger] self.parent_of(q) == q implies self.rank_of(q)
                == self.members(q).len() by {
                if q != ri {
                    assert(pre.parent_of(q) == q);
                }
            }
            assert(self.roots() =~= pre.roots().remove(ci));
            assert(self.parent_of(ci) == ri);
            assert forall|k: int| 0 <= k < n implies #[trigger] self.rank_of(k) >= pre.rank_of(k) by {
                if k == ri {
                    assert(pre.rank_of(ri) == pre.members(ri).len());
                }
            }
        }
    }

    /// The representative of the set that holds `item`. Every node on the
    /// way from `item` to the representative is linked straight to it.
    pub fn find_set(&mut self, item: &u64) -> (r: Result<u64, Error>)
        requires
            old(self).wf(),
        ensures
            final(self).wf(),
            final(self).same_model(&*old(self)),
            !old(self).contains_spec(*item) ==> r == Err::<u64, Error>(Error::ItemNotFound)
                && *final(self) == *old(self),
            old(self).contains_spec(*item) ==> r == Ok::<u64, Error>(old(self).repr_of(*item))
                && final(self).parent_item(*item) == old(self).repr_of(*item),
            old(self).contains_spec(*item) ==> forall|a: u64|
                old(self).contains_spec(a) ==> #[trigger] final(self).parent_item(a) == if old(
                    self,
                ).on_find_path(*item, a) {
                    old(self).repr_of(*item)
                } else {
                    old(self).parent_item(a)
                },
            forall|a: u64|
                old(self).contains_spec(a) ==> #[trigger] final(self).rank_item(a) == old(
                    self,
                ).rank_item(a),
    {
        let ghost pre = *self;
        proof {
            pre.lemma_contains();
        }
        let id = match self.lookup(item) {
            Some(k) => k,
            None => return Err(Error::ItemNotFound),
        };
        let repr = self.find_repr_id(id);
        proof {
            assert forall|a: u64| pre.contains_spec(a) implies #[trigger] self.rank_item(a)
                == pre.rank_item(a) && self.parent_item(a) == if pre.on_find_path(*item, a) {
                pre.repr_of(*item)
            } else {
                pre.parent_item(a)
            } by {
                assert(self.parent_of(pre.id_of(a)) == if pre.on_path(id as int, pre.id_of(a)) {
                    repr as int
                } else {
                    pre.parent_of(pre.id_of(a))
                });
            }
        }
        Ok(self.items[repr])
    }

    /// The number of items in the set that holds `item`.
    pub fn set_size(&mut self, item: &u64) -> (r: Result<usize, Error>)
        requires
            old(self).wf(),
        ensures
            final(self).wf(),
            final(self).same_model(&*old(self)),
            !old(self).contains_spec(*item) ==> r == Err::<usize, Error>(Error::ItemNotFound)
                && *final(self) == *old(self),
            old(self).contains_spec(*item) ==> r == Ok::<usize, Error>(
                old(self).class(*item).len() as usize,
            ),
    {
        let id = match self.lookup(item) {
            Some(k) => k,
            None => return Err(Error::ItemNotFound),
        };
        proof {
            old(self).lemma_class_size(*item);
        }
        let repr = self.find_repr_id(id);
        Ok(self.nodes[repr].rank())
    }

    /// Whether `x` and `y` lie in one set.
    pub fn same_set(&mut self, x: &u64, y: &u64) -> (r: Result<bool, Error>)
        requires
            old(self).wf(),
        ensures
            final(self).wf(),
            final(self).same_model(&*old(self)),
            !(old(self).contains_spec(*x) && old(self).contains_spec(*y)) ==> r == Err::<
                bool,
                Error,
            >(Error::ItemNotFound) && *final(self) == *old(self),
            old(self).contains_spec(*x) && old(self).contains_spec(*y) ==> r == Ok::<bool, Error>(
                old(self).same(*x, *y),
            ),
    {
        let x_id = match self.lookup(x) {
            Some(k) => k,
            None => return Err(Error::ItemNotFound),
        };
        let y_id = match self.lookup(y) {
            Some(k) => k,
            None => return Err(Error::ItemNotFound),
        };
        let x_repr = self.find_repr_id(x_id);
        let y_repr = self.find_repr_id(y_id);
        proof {
            old(self).lemma_root_eq(x_id as int, y_id as int);
        }
        Ok(x_repr == y_repr)
    }

    /// The representatives are the items whose nodes are roots.
    proof fn lemma_representatives(&self)
        requires
            self.wf(),
        ensures
            self.representatives().finite(),
            self.roots().finite(),
            self.representatives().len() == self.roots().len(),
            forall|a: u64| #[trigger]
                self.representatives().contains(a) <==> self.contains_spec(a)
                    && self.parent_of(self.id_of(a)) == self.id_of(a),
    {
        let p = |k: int| self.parent_of(k) == k;
        self.lemma_contains();
        self.lemma_ids_to_items(p);
        assert forall|a: u64| #[trigger]
            self.representatives().contains(a) <==> self.contains_spec(a) && p(self.id_of(a)) by {
            if self.contains_spec(a) {
                let k = self.id_of(a);
                self.lemma_root_eq(k, self.root_of@[k]);
                assert(self.root_of@[self.root_of@[k]] == self.root_of@[k]) by {
                    assert(self.parent_of(self.root_of@[k]) == self.root_of@[k]);
                }
                if p(k) {
                    assert(self.root_of@[k] == k);
                }
                if self.root_of@[k] == k {
                    assert(self.parent_of(self.root_of@[k]) == self.root_of@[k]);
                }
            }
        }
        assert(self.representatives() =~= Set::new(
            |a: u64| self.contains_spec(a) && p(self.id_of(a)),
        ));
        assert(self.roots() =~= Set::new(|k: int| 0 <= k < self.nodes@.len() && p(k)));
    }

    /// Every representative is itself a registered item, and it represents
    /// its own set.
    pub proof fn lemma_repr_registered(&self, a: u64)
        requires
            self.wf(),
            self.contains_spec(a),
        ensures
            self.contains_spec(self.repr_of(a)),
            self.repr_of(self.repr_of(a)) == self.repr_of(a),
            self.representatives().contains(self.repr_of(a)),
    {
        self.lemma_contains();
        let r = self.root_of@[self.id_of(a)];
        assert(self.item_to_id@[self.items@[r]] == r);
        assert(self.parent_of(self.root_of@[self.id_of(a)]) == r);
        assert(self.root_of@[r] == r);
    }

    /// The sum, over the first `i` registered items that represent their
    /// set, of the size of that set.
    pub open spec fn size_sum(&self, i: int) -> int
        decreases i,
    {
        if i <= 0 {
            0
        } else {
            let a = self.items()[i - 1];
            self.size_sum(i - 1) + if self.representatives().contains(a) {
                self.class(a).len() as int
            } else {
                0
            }
        }
    }

    /// In every state there are no more sets than items, and the sizes of
    /// the sets, one for each representative, add up to the number of items.
    pub proof fn lemma_set_counts(&self)
        requires
            self.wf(),
        ensures
            self.representatives().len() <= self.items().len(),
            self.size_sum(self.items().len() as int) == self.items().len(),
    {
        let n = self.nodes@.len() as int;
        self.lemma_representatives();
        lemma_int_range(0, n);
        lemma_len_subset(self.roots(), set_int_range(0, n));
        self.lemma_size_sum(n);
        assert(Set::new(|j: int| 0 <= j < n && self.root_of@[j] < n) =~= set_int_range(0, n));
    }

    /// The sets of the roots among the first `i` ids hold exactly the ids
    /// whose root is below `i`.
    proof fn lemma_size_sum(&self, i: int)
        requires
            self.wf(),
            0 <= i <= self.nodes@.len(),
        ensures
            self.size_sum(i) == Set::new(
                |j: int| 0 <= j < self.nodes@.len() && self.root_of@[j] < i,
            ).len(),
        decreases i,
    {
        let n = self.nodes@.len() as int;
        let cur = Set::new(|j: int| 0 <= j < n && self.root_of@[j] < i);
        if i == 0 {
            assert(cur =~= Set::empty());
        } else {
            let k = i - 1;
            let prev = Set::new(|j: int| 0 <= j < n && self.root_of@[j] < k);
            self.lemma_size_sum(k);
            let a = self.items@[k];
            self.lemma_contains();
            self.lemma_representatives();
            assert(self.item_to_id@[a] == k);
            assert(self.items@.contains(a));
            lemma_int_range(0, n);
            lemma_len_subset(prev, set_int_range(0, n));
            lemma_len_subset(self.members(k), set_int_range(0, n));
            if self.parent_of(k) == k {
                assert(self.root_of@[k] == k);
                self.lemma_class_size(a);
                assert(cur =~= prev + self.members(k));
                assert(prev.disjoint(self.members(k)));
                lemma_set_disjoint_lens(prev, self.members(k));
            } else {
                assert forall|j: int| 0 <= j < n implies self.root_of@[j] != k by {
                    assert(self.parent_of(self.root_of@[j]) == self.root_of@[j]);
                }
                assert(cur =~= prev);
            }
        }
    }

    /// Two ids share a root exactly when their representatives are one item.
    proof fn lemma_root_eq(&self, i: int, j: int)
        requires
            self.wf(),
            0 <= i < self.nodes@.len(),
            0 <= j < self.nodes@.len(),
        ensures
            (self.root_of@[i] == self.root_of@[j]) <==> (self.items@[self.root_of@[i]]
                == self.items@[self.root_of@[j]]),
    {
        let a = self.root_of@[i];
        let b = self.root_of@[j];
        assert(self.item_to_id@[self.items@[a]] == a);
        assert(self.item_to_id@[self.items@[b]] == b);
    }

    /// The set that holds `x` has as many items as the tree of its root.
    proof fn lemma_class_size(&self, x: u64)
        requires
            self.wf(),
            self.contains_spec(x),
        ensures
            self.class(x).finite(),
            self.class(x).len() == self.members(self.root_of@[self.id_of(x)]).len(),
            self.members(self.root_of@[self.id_of(x)]).finite(),
    {
        let r = self.root_of@[self.id_of(x)];
        let p = |k: int| self.root_of@[k] == r;
        self.lemma_contains();
        self.lemma_ids_to_items(p);
        assert(self.class(x) =~= Set::new(|a: u64| self.contains_spec(a) && p(self.id_of(a))))
            by {
            assert forall|a: u64| self.contains_spec(a) implies self.same(a, x) == p(
                self.id_of(a),
            ) by {
                self.lemma_root_eq(self.id_of(a), self.id_of(x));
            }
        }
        assert(self.members(r) =~= Set::new(|k: int| 0 <= k < self.nodes@.len() && p(k)));
    }

    /// The items listed in registration order are the keys of the id map.
    proof fn lemma_contains(&self)
        requires
            self.wf(),
        ensures
            forall|a: u64| #[trigger]
                self.contains_spec(a) <==> self.item_to_id@.contains_key(a),
            forall|a: u64|
                #[trigger] self.contains_spec(a) ==> 0 <= self.id_of(a) < self.nodes@.len()
                    && self.items@[self.id_of(a)] == a,
    {
        assert forall|a: u64| #[trigger] self.contains_spec(a) <==> self.item_to_id@.contains_key(
            a,
        ) by {
            if self.item_to_id@.contains_key(a) {
                assert(self.items@[self.item_to_id@[a] as int] == a);
            }
            if self.contains_spec(a) {
                let k = choose|k: int| 0 <= k < self.items@.len() && self.items@[k] == a;
                assert(self.item_to_id@.contains_key(self.items@[k]));
            }
        }
    }

    /// A set of ids and the set of the items with those ids have one size.
    proof fn lemma_ids_to_items(&self, p: spec_fn(int) -> bool)
        requires
            self.wf(),
        ensures
            Set::new(|k: int| 0 <= k < self.nodes@.len() && p(k)).finite(),
            Set::new(|a: u64| self.contains_spec(a) && p(self.id_of(a))).finite(),
            Set::new(|a: u64| self.contains_spec(a) && p(self.id_of(a))).len() == Set::new(
                |k: int| 0 <= k < self.nodes@.len() && p(k),
            ).len(),
    {
        let n = self.nodes@.len() as int;
        let x = Set::new(|k: int| 0 <= k < n && p(k));
        let y = Set::new(|a: u64| self.contains_spec(a) && p(self.id_of(a)));
        let f = |k: int| self.items@[k];
        self.lemma_contains();
        lemma_int_range(0, n);
        lemma_len_subset(x, set_int_range(0, n));
        assert(injective_on(f, x)) by {
            assert forall|i: int, j: int|
                x.contains(i) && x.contains(j) && #[trigger] f(i) == #[trigger] f(j) implies i
                == j by {
                assert(self.item_to_id@[self.items@[i]] == i);
                assert(self.item_to_id@[self.items@[j]] == j);
            }
        }
        assert(x.map(f) =~= y) by {
            assert forall|a: u64| y.contains(a) implies x.map(f).contains(a) by {
                let k = self.id_of(a);
                assert(x.contains(k) && f(k) == a);
            }
            assert forall|a: u64| x.map(f).contains(a) implies y.contains(a) by {
                let k = choose|k: int| x.contains(k) && f(k) == a;
                assert(self.item_to_id@[self.items@[k]] == k);
                assert(self.items@[k] == a);
            }
        }
        lemma_map_size(x, y, f);
    }
}

impl Default for DisjointSets {
    fn default() -> (s: Self)
        ensures
            s.wf(),
            s.items() == Seq::<u64>::empty(),
    {
        DisjointSets::new()
    }
}

impl UnionFind<u64> for DisjointSets {
    open spec fn well_formed(&self) -> bool {
        self.wf()
    }

    open spec fn has(&self, x: u64) -> bool {
        self.contains_spec(x)
    }

    open spec fn joined(&self, a: u64, b: u64) -> bool {
        self.same(a, b)
    }

    fn same_set(&mut self, x: &u64, y: &u64) -> (r: Result<bool, Error>) {
        let r = DisjointSets::same_set(self, x, y);
        proof {
            crate::laws::lemma_model_keeps_joined(*old(self), *self);
        }
        r
    }

    fn make_set(&mut self, item: u64) -> (r: Result<(), Error>) {
        let ghost pre = *self;
        let r = DisjointSets::make_set(self, item);
        proof {
            if !pre.contains_spec(item) {
                assert(self.items()[pre.items().len() as int] == item);
                assert forall|a: u64, b: u64| pre.same(a, b) implies #[trigger] self.same(a, b) by {
                    assert(self.repr_of(a) == pre.repr_of(a));
                    assert(self.repr_of(b) == pre.repr_of(b));
                    let i = choose|i: int| 0 <= i < pre.items().len() && pre.items()[i] == a;
                    let j = choose|j: int| 0 <= j < pre.items().len() && pre.items()[j] == b;
                    assert(self.items()[i] == a);
                    assert(self.items()[j] == b);
                }
            }
        }
        r
    }

    fn union(&mut self, x: &u64, y: &u64) -> (r: Result<(), Error>) {
        let ghost pre = *self;
        let r = DisjointSets::union(self, x, y);
        proof {
            if pre.contains_spec(*x) && pre.contains_spec(*y) {
                assert(self.repr_of(*x) == pre.repr_after_union(*x, *y, *x));
                assert(self.repr_of(*y) == pre.repr_after_union(*x, *y, *y));
                assert forall|a: u64, b: u64| pre.same(a, b) implies #[trigger] self.same(a, b) by {
                    crate::laws::lemma_union_keeps_joined(pre, *self, *x, *y, a, b);
                }
            }
        }
        r
    }
}

} // verus!
