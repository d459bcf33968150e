//! The SOP search tree: partial tours, their feasible extensions (all at once
//! or one at a time in increasing arc cost), bounds and dominance keys.
use vstd::prelude::*;

use crate::bitset::{
    bitset_contains, bitset_contents, bitset_eq, bitset_insert, bitset_new, CitySet,
};
use crate::sop::{lists_by_sign, CityId, Cost, Instance};

verus! {

/// Last city of a non-empty prefix.
pub open spec fn last_of(p: Seq<CityId>) -> CityId {
    p[p.len() - 1]
}

/// The cities of a prefix, as a set of indices.
pub open spec fn prefix_set(p: Seq<CityId>) -> Set<usize> {
    Set::new(|x: usize| exists|k: int| 0 <= k < p.len() && #[trigger] p[k] as usize == x)
}

/// Sum of the arc costs between consecutive cities of `p`.
pub open spec fn path_cost(inst: Instance, p: Seq<CityId>) -> int
    decreases p.len(),
{
    if p.len() < 2 {
        0
    } else {
        path_cost(inst, p.drop_last()) + inst.cost_spec(
            p[p.len() - 2] as int,
            p[p.len() - 1] as int,
        )
    }
}

/// City `c` may be visited right after `last` when `added` is the visited set:
/// the arc to another city is allowed, `c` is not visited yet, and every
/// other city that must precede `c` is visited.
pub open spec fn feasible(inst: Instance, last: CityId, added: Set<usize>, c: CityId) -> bool {
    &&& (c as int) < inst.n_spec()
    &&& c != last
    &&& inst.cost_spec(last as int, c as int) >= 0
    &&& !added.contains(c as usize)
    &&& forall|j: int|
        0 <= j < inst.n_spec() && j != c && #[trigger] inst.cost_spec(c as int, j) < 0
            ==> added.contains(j as usize)
}

/// The cities of `l` that are feasible after `last` with visited set `added`,
/// in the order of `l`.
pub open spec fn feasible_among(
    inst: Instance,
    last: CityId,
    added: Set<usize>,
    l: Seq<CityId>,
) -> Seq<CityId> {
    l.filter(|c: CityId| feasible(inst, last, added, c))
}

/// A prefix that starts at city 0 and whose every later city was feasible
/// when it was appended.
pub open spec fn valid_prefix(inst: Instance, p: Seq<CityId>) -> bool {
    &&& p.len() >= 1
    &&& p[0] == 0
    &&& p.len() <= inst.n_spec()
    &&& forall|k: int| 0 <= k < p.len() ==> (#[trigger] p[k] as int) < inst.n_spec()
    &&& p.no_duplicates()
    &&& forall|k: int|
        1 <= k < p.len() ==> feasible(inst, p[k - 1], prefix_set(p.take(k)), #[trigger] p[k])
}

/// Index of the first city of `s`, from position `from` on, that is feasible;
/// `s.len()` when there is none.
pub open spec fn next_feasible(
    inst: Instance,
    last: CityId,
    added: Set<usize>,
    s: Seq<CityId>,
    from: int,
) -> int
    decreases s.len() - from,
{
    if from >= s.len() {
        s.len() as int
    } else if feasible(inst, last, added, s[from]) {
        from
    } else {
        next_feasible(inst, last, added, s, from + 1)
    }
}

/// The cities of `s`, from position `from` on, that are feasible, in order.
pub open spec fn feasible_from(
    inst: Instance,
    last: CityId,
    added: Set<usize>,
    s: Seq<CityId>,
    from: int,
) -> Seq<CityId>
    decreases s.len() - from,
{
    if from < 0 || from >= s.len() {
        Seq::empty()
    } else if feasible(inst, last, added, s[from]) {
        seq![s[from]] + feasible_from(inst, last, added, s, from + 1)
    } else {
        feasible_from(inst, last, added, s, from + 1)
    }
}

/// Arc cost order from city `i`, ties broken by city index.
pub open spec fn cost_before(inst: Instance, i: int, a: CityId, b: CityId) -> bool {
    inst.cost_spec(i, a as int) < inst.cost_spec(i, b as int) || (inst.cost_spec(i, a as int)
        == inst.cost_spec(i, b as int) && a < b)
}

/// `s` holds the successors of `i` sorted by increasing arc cost from `i`,
/// equal costs in increasing city order.
pub open spec fn sorted_successors_of(inst: Instance, i: int, s: Seq<CityId>) -> bool {
    &&& forall|a: int, b: int| 0 <= a < b < s.len() ==> cost_before(inst, i, s[a], s[b])
    &&& forall|c: CityId| s.contains(c) <==> inst.succ_spec(i).contains(c)
}

/// A partial tour.
#[derive(Clone, Debug)]
pub struct ForwardNode {
    prefix: Vec<CityId>,
    added: CitySet,
    cost: u64,
    /// position reached in the sorted successor list by `get_next_child`
    pce_pointer: usize,
}

impl ForwardNode {
    /// The visited cities, in visiting order.
    pub closed spec fn prefix_spec(&self) -> Seq<CityId> {
        self.prefix@
    }

    /// The visited set.
    pub closed spec fn added_spec(&self) -> Set<usize> {
        bitset_contents(self.added)
    }

    /// The accumulated cost.
    pub closed spec fn cost_spec(&self) -> nat {
        self.cost as nat
    }

    /// Position reached in the sorted successors of the last city.
    pub closed spec fn cursor_spec(&self) -> nat {
        self.pce_pointer as nat
    }

    /// The cities visited so far, in visiting order.
    pub fn prefix(&self) -> (r: &Vec<CityId>)
        ensures
            r@ == self.prefix_spec(),
    {
        &self.prefix
    }

    /// The node is a partial tour of `inst`: a valid prefix, the visited set
    /// mirroring it, and the cost equal to the prefix's path cost.
    pub open spec fn valid(&self, inst: Instance) -> bool {
        &&& valid_prefix(inst, self.prefix_spec())
        &&& self.added_spec() == prefix_set(self.prefix_spec())
        &&& self.cost_spec() == path_cost(inst, self.prefix_spec())
    }

    /// `self` is `parent` extended by city `c`, with a fresh cursor.
    pub open spec fn extends(&self, inst: Instance, parent: ForwardNode, c: CityId) -> bool {
        &&& self.prefix_spec() == parent.prefix_spec().push(c)
        &&& self.added_spec() == parent.added_spec().insert(c as usize)
        &&& self.cost_spec() == parent.cost_spec() + inst.cost_spec(
            last_of(parent.prefix_spec()) as int,
            c as int,
        )
        &&& self.cursor_spec() == 0
        &&& self.valid(inst)
    }

    /// The dominance key: last city and visited set.
    pub open spec fn pe_key(&self) -> (CityId, Set<usize>) {
        (last_of(self.prefix_spec()), self.added_spec())
    }
}

/// Dominance key of a node: its last city and its visited set.
#[derive(Eq, Hash)]
pub struct ForwardNodePE {
    last: CityId,
    set: CitySet,
}

impl ForwardNodePE {
    /// The last city and the visited set the key was taken from.
    pub closed spec fn key(&self) -> (CityId, Set<usize>) {
        (self.last, bitset_contents(self.set))
    }
}

impl PartialEq for ForwardNodePE {
    fn eq(&self, other: &Self) -> (r: bool)
        ensures
            r == (self.key() == other.key()),
    {
        self.last == other.last && bitset_eq(&self.set, &other.set)
    }
}

impl vstd::std_specs::cmp::PartialEqSpecImpl for ForwardNodePE {
    open spec fn obeys_eq_spec() -> bool {
        true
    }

    open spec fn eq_spec(&self, other: &ForwardNodePE) -> bool {
        self.key() == other.key()
    }
}

/// The search space of an instance.
#[derive(Debug)]
pub struct ForwardSearch {
    inst: Instance,
    sorted_possible_successors: Vec<Vec<CityId>>,
}

impl ForwardSearch {
    /// The instance searched.
    pub closed spec fn inst_spec(&self) -> Instance {
        self.inst
    }

    /// The successors of city `i`, by increasing arc cost.
    pub closed spec fn sorted_spec(&self, i: int) -> Seq<CityId> {
        self.sorted_possible_successors@[i]@
    }

    /// Number of sorted successor lists.
    pub closed spec fn sorted_len(&self) -> nat {
        self.sorted_possible_successors@.len()
    }

    /// A well-formed instance with at least one city, and one sorted
    /// successor list per city.
    pub open spec fn wf(&self) -> bool {
        &&& self.inst_spec().wf()
        &&& self.inst_spec().n_spec() >= 1
        &&& self.sorted_len() == self.inst_spec().n_spec()
        &&& forall|i: int|
            0 <= i < self.inst_spec().n_spec() ==> sorted_successors_of(
                self.inst_spec(),
                i,
                #[trigger] self.sorted_spec(i),
            )
    }

    /// Cities that `children` extends `node` with, in order.
    pub open spec fn children_cities(&self, node: ForwardNode) -> Seq<CityId> {
        let last = last_of(node.prefix_spec());
        feasible_among(
            self.inst_spec(),
            last,
            node.added_spec(),
            self.inst_spec().succ_spec(last as int),
        )
    }

    /// Cities that repeated `get_next_child` calls from a fresh cursor extend
    /// `node` with, in order.
    pub open spec fn partial_children_cities(&self, node: ForwardNode) -> Seq<CityId> {
        let last = last_of(node.prefix_spec());
        feasible_among(self.inst_spec(), last, node.added_spec(), self.sorted_spec(last as int))
    }

    /// Builds the search space of an instance, sorting the successors of
    /// every city by increasing arc cost.
    pub fn new(inst: Instance) -> (r: ForwardSearch)
        requires
            inst.wf(),
            inst.n_spec() >= 1,
        ensures
            r.wf(),
            r.inst_spec() == inst,
    {
        let n = inst.nb_cities();
        let mut possible_successors: Vec<Vec<CityId>> = Vec::new();
        let mut i: CityId = 0;
        while i < n
            invariant
                inst.wf(),
                n == inst.n_spec(),
                i <= n,
                possible_successors@.len() == i,
                forall|k: int|
                    0 <= k < i ==> sorted_successors_of(inst, k, #[trigger] possible_successors@[k]@),
            decreases n - i,
        {
            let tmp = sort_successors(&inst, i);
            possible_successors.push(tmp);
            proof {
                assert(possible_successors@[i as int]@ == tmp@);
            }
            i += 1;
        }
        ForwardSearch { inst, sorted_possible_successors: possible_successors }
    }

    /// The starting node: city 0 alone, at no cost.
    pub fn root(&self) -> (r: ForwardNode)
        requires
            self.wf(),
        ensures
            r.prefix_spec() == seq![0 as CityId],
            r.added_spec() == set![0usize],
            r.cost_spec() == 0,
            r.cursor_spec() == 0,
            r.valid(self.inst_spec()),
    {
        let mut res = ForwardNode { prefix: Vec::new(), added: bitset_new(), cost: 0, pce_pointer: 0 };
        res.prefix.push(0);
        bitset_insert(&mut res.added, 0);
        proof {
            let p = res.prefix@;
            assert(p.no_duplicates());
            assert(res.added_spec() =~= prefix_set(p)) by {
                assert(p[0] as usize == 0usize);
            }
        }
        res
    }

    /// Lower bound on any completion of `node`: its cost so far.
    pub fn bound(&self, node: &ForwardNode) -> (r: u64)
        ensures
            r == node.cost_spec(),
    {
        node.cost
    }

    /// Guidance value of `node`: its cost so far (lower is preferred).
    pub fn guide(&self, node: &ForwardNode) -> (r: u64)
        ensures
            r == node.cost_spec(),
    {
        node.cost
    }

    /// `node` is a complete tour.
    pub fn goal(&self, node: &ForwardNode) -> (r: bool)
        requires
            self.wf(),
            node.valid(self.inst_spec()),
        ensures
            r == (node.prefix_spec().len() == self.inst_spec().n_spec()),
    {
        node.prefix.len() as CityId == self.inst.nb_cities()
    }

    /// The tour of a goal node.
    pub fn solution(&self, node: &ForwardNode) -> (r: Vec<CityId>)
        requires
            self.wf(),
            node.valid(self.inst_spec()),
            node.prefix_spec().len() == self.inst_spec().n_spec(),
        ensures
            r@ == node.prefix_spec(),
    {
        node.prefix.clone()
    }

    /// Value compared among nodes with the same dominance key.
    pub fn prefix_bound(&self, node: &ForwardNode) -> (r: u64)
        ensures
            r == node.cost_spec(),
    {
        node.cost
    }

    /// Dominance key of `node`.
    pub fn get_pe(&self, node: &ForwardNode) -> (r: ForwardNodePE)
        requires
            node.prefix_spec().len() >= 1,
        ensures
            r.key() == node.pe_key(),
    {
        ForwardNodePE { last: ForwardSearch::get_last_city(node), set: node.added.clone() }
    }

    /// Index in the sorted successor list of the last city of `node` of the
    /// next child that `get_next_child` produces from `node`'s cursor.
    pub open spec fn next_index(&self, node: ForwardNode) -> int {
        let last = last_of(node.prefix_spec());
        next_feasible(
            self.inst_spec(),
            last,
            node.added_spec(),
            self.sorted_spec(last as int),
            node.cursor_spec() as int,
        )
    }

    /// All feasible extensions of `node`, in the instance's successor order.
    pub fn children(&self, node: &ForwardNode) -> (r: Vec<ForwardNode>)
        requires
            self.wf(),
            node.valid(self.inst_spec()),
        ensures
            r@.len() == self.children_cities(*node).len(),
            forall|k: int|
                0 <= k < r@.len() ==> (#[trigger] r@[k]).extends(
                    self.inst_spec(),
                    *node,
                    self.children_cities(*node)[k],
                ),
            forall|k: int|
                0 <= k < r@.len() ==> (#[trigger] r@[k]).cost_spec() == path_cost(
                    self.inst_spec(),
                    r@[k].prefix_spec(),
                ) && r@[k].cost_spec() >= node.cost_spec(),
    {
        let ghost inst = self.inst_spec();
        let last = ForwardSearch::get_last_city(node);
        let ghost added = node.added_spec();
        let succ = self.inst.possible_successors(&last);
        let ghost row = inst.matrix_spec()[last as int];
        let mut res: Vec<ForwardNode> = Vec::new();
        let mut idx: usize = 0;
        while idx < succ.len()
            invariant
                self.wf(),
                inst == self.inst_spec(),
                node.valid(inst),
                last == last_of(node.prefix_spec()),
                added == node.added_spec(),
                row == inst.matrix_spec()[last as int],
                succ@ == inst.succ_spec(last as int),
                lists_by_sign(succ@, row, last as int, false),
                idx <= succ@.len(),
                res@.len() == feasible_among(inst, last, added, succ@.take(idx as int)).len(),
                forall|k: int|
                    0 <= k < res@.len() ==> (#[trigger] res@[k]).extends(
                        inst,
                        *node,
                        feasible_among(inst, last, added, succ@.take(idx as int))[k],
                    ),
            decreases succ@.len() - idx,
        {
            let c = succ[idx];
            proof {
                assert(row[c as int] >= 0);
            }
            let ghost before = feasible_among(inst, last, added, succ@.take(idx as int));
            let ghost res_before = res@;
            let ok = self.can_visit(node, c);
            proof {
                reveal(Seq::filter);
                assert(succ@.take(idx as int + 1).drop_last() =~= succ@.take(idx as int));
                assert(succ@.take(idx as int + 1).last() == c);
                assert(ok == feasible(inst, last, added, c));
            }
            if ok {
                let child = self.add_city(node, c);
                res.push(child);
                proof {
                    let after = feasible_among(inst, last, added, succ@.take(idx as int + 1));
                    assert(after == before.push(c));
                    assert forall|k: int| 0 <= k < res@.len() implies (#[trigger] res@[k]).extends(
                        inst,
                        *node,
                        after[k],
                    ) by {
                        if k < res_before.len() {
                            assert(res@[k] == res_before[k]);
                        }
                    }
                }
            }
            idx += 1;
        }
        proof {
            assert(succ@.take(succ@.len() as int) =~= succ@);
            assert forall|k: int| 0 <= k < res@.len() implies (#[trigger] res@[k]).cost_spec()
                >= node.cost_spec() by {
                lemma_cost_nondecreasing(*self, *node, res@[k], self.children_cities(*node)[k]);
            }
        }
        res
    }

    /// The next feasible extension of `node` in increasing arc cost, starting
    /// from `node`'s cursor; the cursor moves past the city returned, or to
    /// the end of the list when there is none.
    pub fn get_next_child(&self, n: &mut ForwardNode) -> (r: Option<ForwardNode>)
        requires
            self.wf(),
            old(n).valid(self.inst_spec()),
        ensures
            final(n).prefix_spec() == old(n).prefix_spec(),
            final(n).added_spec() == old(n).added_spec(),
            final(n).cost_spec() == old(n).cost_spec(),
            final(n).valid(self.inst_spec()),
            ({
                let s = self.sorted_spec(last_of(old(n).prefix_spec()) as int);
                let k = self.next_index(*old(n));
                &&& k < s.len() ==> (r matches Some(c) && c.extends(self.inst_spec(), *old(n), s[k]))
                &&& k < s.len() ==> final(n).cursor_spec() == k + 1
                &&& k >= s.len() ==> r is None && final(n).cursor_spec() == if old(
                    n,
                ).cursor_spec() >= s.len() {
                    old(n).cursor_spec()
                } else {
                    s.len()
                }
            }),
    {
        let ghost inst = self.inst_spec();
        let last: CityId = ForwardSearch::get_last_city(n);
        let ghost added = n.added_spec();
        let ghost start = n.cursor_spec() as int;
        let possible_successors: &Vec<CityId> = &self.sorted_possible_successors[last as usize];
        let ghost s = possible_successors@;
        let ghost row = inst.matrix_spec()[last as int];
        proof {
            assert(s == self.sorted_spec(last as int));
            assert(sorted_successors_of(inst, last as int, s));
        }
        while n.pce_pointer < possible_successors.len()
            invariant
                self.wf(),
                inst == self.inst_spec(),
                s == possible_successors@,
                s == self.sorted_spec(last as int),
                sorted_successors_of(inst, last as int, s),
                row == inst.matrix_spec()[last as int],
                lists_by_sign(inst.succ_spec(last as int), row, last as int, false),
                n.prefix_spec() == old(n).prefix_spec(),
                n.added_spec() == old(n).added_spec(),
                n.cost_spec() == old(n).cost_spec(),
                n.valid(inst),
                last == last_of(n.prefix_spec()),
                added == n.added_spec(),
                start == old(n).cursor_spec(),
                start <= n.cursor_spec(),
                start < n.cursor_spec() ==> n.cursor_spec() <= s.len(),
                next_feasible(inst, last, added, s, start) == next_feasible(
                    inst,
                    last,
                    added,
                    s,
                    n.cursor_spec() as int,
                ),
            decreases s.len() - n.cursor_spec(),
        {
            let successor = possible_successors[n.pce_pointer];
            let ghost at = n.cursor_spec() as int;
            n.pce_pointer += 1;
            proof {
                assert(s.contains(s[at]));
                assert(inst.succ_spec(last as int).contains(successor));
                let m = choose|m: int|
                    0 <= m < inst.succ_spec(last as int).len() && inst.succ_spec(last as int)[m]
                        == successor;
                assert(row[inst.succ_spec(last as int)[m] as int] >= 0);
            }
            let ok = self.can_visit(n, successor);
            if !ok {
                continue;
            }
            let c = self.add_city(n, successor);
            return Some(c);
        }
        None
    }

    /// `c` is neither visited in `node` nor has a predecessor left unvisited.
    fn can_visit(&self, node: &ForwardNode, c: CityId) -> (r: bool)
        requires
            self.wf(),
            node.valid(self.inst_spec()),
            c < self.inst_spec().n_spec(),
        ensures
            r == (!node.added_spec().contains(c as usize) && forall|j: int|
                0 <= j < self.inst_spec().n_spec() && j != c && #[trigger] self.inst_spec().cost_spec(
                    c as int,
                    j,
                ) < 0 ==> node.added_spec().contains(j as usize)),
    {
        let ghost inst = self.inst_spec();
        if bitset_contains(&node.added, c as usize) {
            return false;
        }
        let preds = self.inst.predecessors(&c);
        let ghost row = inst.matrix_spec()[c as int];
        proof {
            assert(lists_by_sign(preds@, row, c as int, true));
        }
        let mut k: usize = 0;
        while k < preds.len()
            invariant
                inst == self.inst_spec(),
                inst.wf(),
                c < inst.n_spec(),
                row == inst.matrix_spec()[c as int],
                row.len() == inst.n_spec(),
                preds@ == inst.pred_spec(c as int),
                lists_by_sign(preds@, row, c as int, true),
                k <= preds@.len(),
                forall|q: int| 0 <= q < k ==> node.added_spec().contains(#[trigger] preds@[q] as usize),
            decreases preds@.len() - k,
        {
            let e = preds[k];
            if !bitset_contains(&node.added, e as usize) {
                proof {
                    assert(row[preds@[k as int] as int] < 0);
                    assert(inst.cost_spec(c as int, e as int) < 0);
                }
                return false;
            }
            k += 1;
        }
        proof {
            assert forall|j: int|
                0 <= j < inst.n_spec() && j != c && #[trigger] inst.cost_spec(c as int, j) < 0 implies node.added_spec().contains(
                j as usize,
            ) by {
                assert(row[j] < 0);
                assert(preds@.contains(j as CityId));
                let q = choose|q: int| 0 <= q < preds@.len() && preds@[q] == j as CityId;
                assert(node.added_spec().contains(preds@[q] as usize));
            }
        }
        true
    }

    /// `node` extended by the feasible city `i`.
    fn add_city(&self, node: &ForwardNode, i: CityId) -> (r: ForwardNode)
        requires
            self.wf(),
            node.valid(self.inst_spec()),
            feasible(self.inst_spec(), last_of(node.prefix_spec()), node.added_spec(), i),
        ensures
            r.extends(self.inst_spec(), *node, i),
    {
        let ghost inst = self.inst_spec();
        let ghost p = node.prefix_spec();
        let last = ForwardSearch::get_last_city(node);
        let arc = self.inst.cost_arc(last, i);
        proof {
            lemma_extend_prefix(inst, p, i);
        }
        let mut prefix = node.prefix.clone();
        prefix.push(i);
        let mut added = node.added.clone();
        bitset_insert(&mut added, i as usize);
        ForwardNode { prefix, added, cost: node.cost + arc as u64, pce_pointer: 0 }
    }

    /// The city a node's tour currently stands at.
    pub fn get_last_city(node: &ForwardNode) -> (r: CityId)
        requires
            node.prefix_spec().len() >= 1,
        ensures
            r == last_of(node.prefix_spec()),
    {
        node.prefix[node.prefix.len() - 1]
    }
}

/// Both expansion strategies extend a node with the same cities, and each of
/// them is feasible: `children` and repeated `get_next_child` from a fresh
/// cursor differ only in the order of the children.
pub proof fn lemma_expansions_agree(space: ForwardSearch, node: ForwardNode, c: CityId)
    requires
        space.wf(),
        node.valid(space.inst_spec()),
    ensures
        space.children_cities(node).contains(c) <==> space.partial_children_cities(
            node,
        ).contains(c),
        space.children_cities(node).contains(c) ==> feasible(
            space.inst_spec(),
            last_of(node.prefix_spec()),
            node.added_spec(),
            c,
        ),
{
    let inst = space.inst_spec();
    let last = last_of(node.prefix_spec());
    let added = node.added_spec();
    let f = |x: CityId| feasible(inst, last, added, x);
    let a = inst.succ_spec(last as int);
    let b = space.sorted_spec(last as int);
    assert(sorted_successors_of(inst, last as int, b));
    if a.filter(f).contains(c) {
        a.lemma_filter_contains_rev(f, c);
        let k = choose|k: int| 0 <= k < a.filter(f).len() && a.filter(f)[k] == c;
        a.lemma_filter_pred(f, k);
        assert(b.contains(c));
        let m = choose|m: int| 0 <= m < b.len() && b[m] == c;
        b.lemma_filter_contains(f, m);
    }
    if b.filter(f).contains(c) {
        b.lemma_filter_contains_rev(f, c);
        let k = choose|k: int| 0 <= k < b.filter(f).len() && b.filter(f)[k] == c;
        b.lemma_filter_pred(f, k);
        assert(a.contains(c));
        let m = choose|m: int| 0 <= m < a.len() && a[m] == c;
        a.lemma_filter_contains(f, m);
    }
}

/// `get_next_child` returns the first feasible city at or after the cursor:
/// every city it skips is infeasible, and the one it returns is feasible.
pub proof fn lemma_next_feasible(
    inst: Instance,
    last: CityId,
    added: Set<usize>,
    s: Seq<CityId>,
    from: int,
)
    requires
        0 <= from,
    ensures
        from <= next_feasible(inst, last, added, s, from) || from > s.len(),
        next_feasible(inst, last, added, s, from) <= s.len() || from > s.len(),
        next_feasible(inst, last, added, s, from) < s.len() ==> feasible(
            inst,
            last,
            added,
            s[next_feasible(inst, last, added, s, from)],
        ),
        forall|m: int|
            from <= m < next_feasible(inst, last, added, s, from) && m < s.len() ==> !feasible(
                inst,
                last,
                added,
                #[trigger] s[m],
            ),
    decreases s.len() - from,
{
    if from < s.len() && !feasible(inst, last, added, s[from]) {
        lemma_next_feasible(inst, last, added, s, from + 1);
    }
}

/// Successive `get_next_child` calls on a node produce exactly its feasible
/// children in sorted order: from any cursor, the call returns the first city
/// of what is left and the rest follows from the new cursor; from a fresh
/// cursor, what is left is the whole of `partial_children_cities`.
pub proof fn lemma_repeated_next_child(space: ForwardSearch, node: ForwardNode, from: int)
    requires
        space.wf(),
        node.valid(space.inst_spec()),
        0 <= from,
    ensures
        ({
            let inst = space.inst_spec();
            let last = last_of(node.prefix_spec());
            let added = node.added_spec();
            let s = space.sorted_spec(last as int);
            let k = next_feasible(inst, last, added, s, from);
            &&& k < s.len() ==> feasible_from(inst, last, added, s, from) == seq![s[k]]
                + feasible_from(inst, last, added, s, k + 1)
            &&& k >= s.len() ==> feasible_from(inst, last, added, s, from) == Seq::<CityId>::empty()
            &&& feasible_from(inst, last, added, s, 0) == space.partial_children_cities(node)
        }),
{
    let inst = space.inst_spec();
    let last = last_of(node.prefix_spec());
    let added = node.added_spec();
    let s = space.sorted_spec(last as int);
    lemma_feasible_from_step(inst, last, added, s, from);
    lemma_feasible_from_filter(inst, last, added, s, 0);
    assert(s.skip(0) =~= s);
}

proof fn lemma_feasible_from_step(
    inst: Instance,
    last: CityId,
    added: Set<usize>,
    s: Seq<CityId>,
    from: int,
)
    requires
        0 <= from,
    ensures
        ({
            let k = next_feasible(inst, last, added, s, from);
            &&& k < s.len() ==> feasible_from(inst, last, added, s, from) == seq![s[k]]
                + feasible_from(inst, last, added, s, k + 1)
            &&& k >= s.len() ==> feasible_from(inst, last, added, s, from) == Seq::<CityId>::empty()
        }),
    decreases s.len() - from,
{
    if from < s.len() && !feasible(inst, last, added, s[from]) {
        lemma_feasible_from_step(inst, last, added, s, from + 1);
    }
}

proof fn lemma_feasible_from_filter(
    inst: Instance,
    last: CityId,
    added: Set<usize>,
    s: Seq<CityId>,
    from: int,
)
    requires
        0 <= from <= s.len(),
    ensures
        feasible_from(inst, last, added, s, from) == feasible_among(
            inst,
            last,
            added,
            s.skip(from),
        ),
    decreases s.len() - from,
{
    let f = |c: CityId| feasible(inst, last, added, c);
    reveal(Seq::filter);
    if from == s.len() {
        assert(s.skip(from) =~= Seq::<CityId>::empty());
    } else {
        lemma_feasible_from_filter(inst, last, added, s, from + 1);
        let head = seq![s[from]];
        assert(s.skip(from) =~= head + s.skip(from + 1));
        Seq::filter_distributes_over_add(head, s.skip(from + 1), f);
        assert(head.drop_last() =~= Seq::<CityId>::empty());
        assert(Seq::<CityId>::empty().filter(f) =~= Seq::<CityId>::empty());
        if f(s[from]) {
            assert(head.filter(f) =~= head);
        } else {
            assert(head.filter(f) =~= Seq::<CityId>::empty());
        }
        assert(feasible_from(inst, last, added, s, from) =~= head.filter(f) + s.skip(
            from + 1,
        ).filter(f));
    }
}

/// Extending a node never lowers its cost.
pub proof fn lemma_cost_nondecreasing(
    space: ForwardSearch,
    parent: ForwardNode,
    child: ForwardNode,
    c: CityId,
)
    requires
        space.wf(),
        parent.valid(space.inst_spec()),
        child.extends(space.inst_spec(), parent, c),
    ensures
        child.cost_spec() >= parent.cost_spec(),
        child.cost_spec() == path_cost(space.inst_spec(), child.prefix_spec()),
{
    let p = child.prefix_spec();
    let k = p.len() - 1;
    assert(feasible(space.inst_spec(), p[k - 1], prefix_set(p.take(k)), p[k]));
}

/// Nodes with the same dominance key have the same feasible children under
/// both expansion strategies, however their prefixes were built: the same
/// cities, in the same order, and from equal cursors successive
/// `get_next_child` calls pick the same positions.
pub proof fn lemma_equal_keys_same_children(space: ForwardSearch, a: ForwardNode, b: ForwardNode)
    requires
        space.wf(),
        a.valid(space.inst_spec()),
        b.valid(space.inst_spec()),
        a.pe_key() == b.pe_key(),
    ensures
        space.children_cities(a) == space.children_cities(b),
        space.partial_children_cities(a) == space.partial_children_cities(b),
        a.cursor_spec() == b.cursor_spec() ==> space.next_index(a) == space.next_index(b),
        forall|from: int|
            feasible_from(
                space.inst_spec(),
                last_of(a.prefix_spec()),
                a.added_spec(),
                space.sorted_spec(last_of(a.prefix_spec()) as int),
                from,
            ) == #[trigger] feasible_from(
                space.inst_spec(),
                last_of(b.prefix_spec()),
                b.added_spec(),
                space.sorted_spec(last_of(b.prefix_spec()) as int),
                from,
            ),
{
}

/// Every arc of a valid prefix has a non-negative cost no larger than
/// `i32::MAX`, so its path cost lies between 0 and `(len - 1) * i32::MAX`.
proof fn lemma_path_cost_range(inst: Instance, p: Seq<CityId>)
    requires
        forall|k: int|
            1 <= k < p.len() ==> inst.cost_spec(p[k - 1] as int, #[trigger] p[k] as int) >= 0,
    ensures
        0 <= path_cost(inst, p),
        p.len() >= 1 ==> path_cost(inst, p) <= (p.len() - 1) * 2147483647,
    decreases p.len(),
{
    if p.len() >= 2 {
        let d = p.drop_last();
        assert forall|k: int| 1 <= k < d.len() implies inst.cost_spec(
            d[k - 1] as int,
            #[trigger] d[k] as int,
        ) >= 0 by {
            assert(d[k] == p[k] && d[k - 1] == p[k - 1]);
        }
        lemma_path_cost_range(inst, d);
        assert(inst.cost_spec(p[p.len() - 2] as int, p[p.len() - 1] as int) >= 0);
    }
}

/// Appending a feasible city to a valid prefix gives a valid prefix, adds
/// the city to its set, and adds the arc cost to its path cost, which stays
/// small enough for a `u64`.
proof fn lemma_extend_prefix(inst: Instance, p: Seq<CityId>, i: CityId)
    requires
        inst.wf(),
        valid_prefix(inst, p),
        feasible(inst, last_of(p), prefix_set(p), i),
    ensures
        valid_prefix(inst, p.push(i)),
        prefix_set(p.push(i)) == prefix_set(p).insert(i as usize),
        path_cost(inst, p.push(i)) == path_cost(inst, p) + inst.cost_spec(
            last_of(p) as int,
            i as int,
        ),
        path_cost(inst, p.push(i)) <= u64::MAX,
{
    let q = p.push(i);
    assert(q.no_duplicates()) by {
        assert forall|a: int, b: int| 0 <= a < b < q.len() implies q[a] != q[b] by {
            if b == p.len() {
                if q[a] == i {
                    assert(p[a] as usize == i as usize);
                    assert(prefix_set(p).contains(i as usize));
                }
            }
        }
    }
    lemma_distinct_bounded(q, inst.n_spec());
    assert(q.drop_last() =~= p);
    assert forall|k: int| 1 <= k < q.len() implies feasible(
        inst,
        q[k - 1],
        prefix_set(q.take(k)),
        #[trigger] q[k],
    ) by {
        if k < p.len() {
            assert(q.take(k) =~= p.take(k));
            assert(p[k] == q[k]);
        } else {
            assert(q.take(k) =~= p);
        }
    }
    assert(prefix_set(q) =~= prefix_set(p).insert(i as usize)) by {
        assert forall|x: usize| prefix_set(q).contains(x) implies prefix_set(p).insert(
            i as usize,
        ).contains(x) by {
            let k = choose|k: int| 0 <= k < q.len() && #[trigger] q[k] as usize == x;
            if k < p.len() {
                assert(p[k] as usize == x);
            }
        }
        assert forall|x: usize| prefix_set(p).insert(i as usize).contains(x) implies prefix_set(
            q,
        ).contains(x) by {
            if x == i as usize {
                assert(q[p.len() as int] as usize == x);
            } else {
                let k = choose|k: int| 0 <= k < p.len() && #[trigger] p[k] as usize == x;
                assert(q[k] as usize == x);
            }
        }
    }
    assert forall|k: int| 1 <= k < q.len() implies inst.cost_spec(
        q[k - 1] as int,
        #[trigger] q[k] as int,
    ) >= 0 by {
        assert(feasible(inst, q[k - 1], prefix_set(q.take(k)), q[k]));
    }
    lemma_path_cost_range(inst, q);
    let len = p.len();
    assert(len * 2147483647 <= 4294967295 * 2147483647) by (nonlinear_arith)
        requires
            len <= 4294967295,
    ;
}

/// A sequence of distinct cities below `n` has at most `n` elements.
proof fn lemma_distinct_bounded(p: Seq<CityId>, n: nat)
    requires
        p.no_duplicates(),
        forall|k: int| 0 <= k < p.len() ==> (#[trigger] p[k] as int) < n,
    ensures
        p.len() <= n,
{
    let q = p.map_values(|c: CityId| c as int);
    assert(q.no_duplicates()) by {
        assert forall|a: int, b: int| 0 <= a < b < q.len() implies q[a] != q[b] by {
            assert(p[a] != p[b]);
        }
    }
    q.unique_seq_to_set();
    vstd::set_lib::lemma_int_range(0, n as int);
    assert(q.to_set().subset_of(vstd::set_lib::set_int_range(0, n as int))) by {
        assert forall|x: int| q.to_set().contains(x) implies vstd::set_lib::set_int_range(
            0,
            n as int,
        ).contains(x) by {
            assert(q.contains(x));
            let k = choose|k: int| 0 <= k < q.len() && q[k] == x;
            assert(p[k] as int == x);
        }
    }
    vstd::set_lib::lemma_len_subset(q.to_set(), vstd::set_lib::set_int_range(0, n as int));
}

/// The successors of city `i`, sorted by increasing arc cost from `i`, equal
/// costs in increasing city order (the order of a stable sort of the
/// successor list).
fn sort_successors(inst: &Instance, i: CityId) -> (r: Vec<CityId>)
    requires
        inst.wf(),
        i < inst.n_spec(),
    ensures
        sorted_successors_of(*inst, i as int, r@),
{
    let succ = inst.possible_successors(&i);
    let ghost row = inst.matrix_spec()[i as int];
    let mut res: Vec<CityId> = Vec::new();
    let mut idx: usize = 0;
    while idx < succ.len()
        invariant
            inst.wf(),
            i < inst.n_spec(),
            row == inst.matrix_spec()[i as int],
            succ@ == inst.succ_spec(i as int),
            lists_by_sign(succ@, row, i as int, false),
            idx <= succ@.len(),
            forall|a: int, b: int| 0 <= a < b < res@.len() ==> cost_before(*inst, i as int, res@[a], res@[b]),
            forall|c: CityId| res@.contains(c) <==> succ@.take(idx as int).contains(c),
        decreases succ@.len() - idx,
    {
        let c = succ[idx];
        let cc = inst.cost_arc(i, c);
        proof {
            assert forall|q: int| 0 <= q < res@.len() implies (#[trigger] res@[q] as int)
                < inst.n_spec() && res@[q] < c by {
                assert(res@.contains(res@[q]));
                let k = choose|k: int|
                    0 <= k < idx && succ@.take(idx as int)[k] == res@[q];
                assert(succ@[k] == res@[q]);
            }
        }
        let mut p: usize = 0;
        while p < res.len() && inst.cost_arc(i, res[p]) <= cc
            invariant
                inst.wf(),
                i < inst.n_spec(),
                p <= res@.len(),
                forall|q: int| 0 <= q < res@.len() ==> (#[trigger] res@[q] as int) < inst.n_spec(),
                forall|q: int|
                    0 <= q < p ==> inst.cost_spec(i as int, #[trigger] res@[q] as int) <= cc,
            decreases res@.len() - p,
        {
            p += 1;
        }
        let ghost old_res = res@;
        res.insert(p, c);
        proof {
            let ii = i as int;
            let pp = p as int;
            assert(res@ == old_res.insert(pp, c));
            assert forall|q: int| pp <= q < old_res.len() implies inst.cost_spec(
                ii,
                #[trigger] old_res[q] as int,
            ) > cc by {
                if q > pp {
                    assert(cost_before(*inst, ii, old_res[pp], old_res[q]));
                }
            }
            assert forall|a: int, b: int| 0 <= a < b < res@.len() implies cost_before(
                *inst,
                ii,
                res@[a],
                res@[b],
            ) by {
                if b < pp {
                    assert(cost_before(*inst, ii, old_res[a], old_res[b]));
                } else if b == pp {
                    assert(old_res[a] < c);
                } else if a < pp {
                    assert(cost_before(*inst, ii, old_res[a], old_res[b - 1]));
                } else if a == pp {
                    assert(inst.cost_spec(ii, old_res[b - 1] as int) > cc);
                } else {
                    assert(cost_before(*inst, ii, old_res[a - 1], old_res[b - 1]));
                }
            }
            let s2 = succ@.take(idx as int + 1);
            assert(s2 =~= succ@.take(idx as int).push(c));
            assert forall|x: CityId| res@.contains(x) <==> s2.contains(x) by {
                if res@.contains(x) {
                    let k = choose|k: int| 0 <= k < res@.len() && res@[k] == x;
                    if k < pp {
                        assert(old_res.contains(x) && old_res[k] == x);
                        assert(succ@.take(idx as int).contains(x));
                        let m = choose|m: int| 0 <= m < idx && succ@.take(idx as int)[m] == x;
                        assert(s2[m] == x);
                    } else if k == pp {
                        assert(s2[idx as int] == x);
                    } else {
                        assert(old_res[k - 1] == x);
                        assert(old_res.contains(x));
                        let m = choose|m: int| 0 <= m < idx && succ@.take(idx as int)[m] == x;
                        assert(s2[m] == x);
                    }
                }
                if s2.contains(x) {
                    let m = choose|m: int| 0 <= m < s2.len() && s2[m] == x;
                    if m == idx {
                        assert(res@[pp] == x);
                    } else {
                        assert(succ@.take(idx as int)[m] == x);
                        assert(old_res.contains(x));
                        let k = choose|k: int| 0 <= k < old_res.len() && old_res[k] == x;
                        if k < pp {
                            assert(res@[k] == x);
                        } else {
                            assert(res@[k + 1] == x);
                        }
                    }
                }
            }
        }
        idx += 1;
    }
    proof {
        assert(succ@.take(succ@.len() as int) =~= succ@);
    }
    res
}

} // verus!
