//! Topology of the bounding volume hierarchy: which primitives each node
//! holds and how the nodes link. The boxes themselves live beside it, one per
//! node, with whoever holds the geometry.
use vstd::prelude::*;
use vstd::set_lib::{lemma_int_range, lemma_len_subset, set_int_range};

verus! {

/// A node of the hierarchy. A node with `count > 0` is a leaf over the
/// positions `left_first .. left_first + count` of the index list; a node
/// with `count == 0` (in a non-empty hierarchy) is inner, with children
/// `left_first` and `left_first + 1`.
#[derive(Clone, Copy, Debug, PartialEq, Eq, Structural)]
pub struct Node {
    pub left_first: usize,
    pub count: usize,
}

/// `s` lists each of `0 .. n` exactly once.
pub open spec fn is_permutation(s: Seq<usize>, n: nat) -> bool {
    &&& s.len() == n
    &&& forall|i: int| 0 <= i < s.len() ==> s[i] < n
    &&& forall|i: int, j: int| 0 <= i < s.len() && 0 <= j < s.len() && i != j ==> s[i] != s[j]
}

/// A list of `n` distinct values below `n` holds each of them.
proof fn lemma_permutation_onto(s: Seq<usize>, n: nat, p: usize)
    requires
        is_permutation(s, n),
        p < n,
    ensures
        s.contains(p),
    decreases n,
{
    if !s.contains(p) {
        // The values of `s` lie below `n` and miss `p`: squeeze them below `n - 1`.
        let t = s.map_values(|x: usize| if x > p { (x - 1) as usize } else { x });
        assert(no_duplicates(t)) by {
            assert forall|i: int, j: int| 0 <= i < t.len() && 0 <= j < t.len() && i != j implies t[i]
                != t[j] by {
                assert(s[i] != s[j]);
                assert(s[i] != p && s[j] != p);
            }
        }
        assert forall|i: int| 0 <= i < t.len() implies t[i] < n - 1 by {
            assert(s[i] != p);
        }
        lemma_pigeonhole(t, n);
    }
}

/// No two entries of `t` are equal.
spec fn no_duplicates(t: Seq<usize>) -> bool {
    forall|i: int, j: int| 0 <= i < t.len() && 0 <= j < t.len() && i != j ==> t[i] != t[j]
}

/// A list of `n` values below `n - 1` repeats one.
proof fn lemma_pigeonhole(t: Seq<usize>, n: nat)
    requires
        n > 0,
        t.len() == n,
        forall|i: int| 0 <= i < t.len() ==> t[i] < n - 1,
    ensures
        !no_duplicates(t),
    decreases n,
{
    if n == 1 {
        assert(t[0] < 0);
    } else if no_duplicates(t) {
        let top = (n - 2) as usize;
        // Drop the entry equal to `n - 2`, if any, and the last one otherwise.
        let idx: int = if exists|i: int| 0 <= i < t.len() && t[i] == top {
            choose|i: int| 0 <= i < t.len() && t[i] == top
        } else {
            t.len() - 1
        };
        let u = t.remove(idx);
        assert forall|i: int| 0 <= i < u.len() implies u[i] < n - 2 by {
            let o = if i < idx { i } else { i + 1 };
            assert(u[i] == t[o]);
            assert(o != idx);
            if t[o] == top {
                assert(exists|i: int| 0 <= i < t.len() && t[i] == top);
                assert(t[idx] == top);
            }
        }
        assert forall|i: int, j: int| 0 <= i < u.len() && 0 <= j < u.len() && i != j implies u[i]
            != u[j] by {
            let oi = if i < idx { i } else { i + 1 };
            let oj = if j < idx { j } else { j + 1 };
            assert(u[i] == t[oi] && u[j] == t[oj]);
        }
        lemma_pigeonhole(u, (n - 1) as nat);
    }
}

/// `p` maps `0 .. n` one to one onto itself.
pub open spec fn is_bijection(p: Seq<int>, n: int) -> bool {
    &&& p.len() == n
    &&& forall|i: int| 0 <= i < n ==> 0 <= #[trigger] p[i] < n
    &&& forall|i: int, j: int| 0 <= i < n && 0 <= j < n && i != j ==> p[i] != p[j]
}

/// The primitives marked as lights, in increasing order.
pub open spec fn lights_of(is_light: Seq<bool>, n: nat) -> Seq<usize>
    decreases n,
{
    if n == 0 {
        Seq::empty()
    } else if is_light[n - 1] {
        lights_of(is_light, (n - 1) as nat).push((n - 1) as usize)
    } else {
        lights_of(is_light, (n - 1) as nat)
    }
}

/// What it costs, in the measure that proves subdivision finishes, to keep
/// node `i` pending: `2 c - 1` for a node over `c > 0` primitives, 1 for an
/// empty one.
pub open spec fn pending_weight(b: BVH, i: usize) -> nat {
    let s = b.span(i as int);
    if s.1 - s.0 <= 0 {
        1
    } else {
        (2 * (s.1 - s.0) - 1) as nat
    }
}

/// The weight of a stack of pending nodes.
pub open spec fn stack_weight(b: BVH, st: Seq<usize>) -> nat
    decreases st.len(),
{
    if st.len() == 0 {
        0
    } else {
        stack_weight(b, st.drop_last()) + pending_weight(b, st.last())
    }
}

proof fn lemma_stack_weight_same(b1: BVH, b2: BVH, st: Seq<usize>)
    requires
        forall|k: int| 0 <= k < st.len() ==> b1.span(st[k] as int) == b2.span(st[k] as int),
    ensures
        stack_weight(b1, st) == stack_weight(b2, st),
    decreases st.len(),
{
    if st.len() > 0 {
        lemma_stack_weight_same(b1, b2, st.drop_last());
    }
}

/// The largest stack that a depth-first walk from node `i` needs when it
/// pops a node and pushes both children of each inner node it meets, either
/// child on top.
pub open spec fn stack_need(b: BVH, i: int) -> nat
    decreases b.nodes_view().len() - i,
{
    if !(0 <= i < b.nodes_view().len()) || b.is_leaf(i) {
        1
    } else {
        let l = b.nodes_view()[i].left_first as int;
        if i < l && l + 1 < b.nodes_view().len() {
            let a = stack_need(b, l);
            let c = stack_need(b, l + 1);
            1 + if a >= c {
                a
            } else {
                c
            }
        } else {
            1
        }
    }
}

/// Relies on `rand::random::<usize>`, which draws a number from the
/// thread's generator; nothing is promised of the number.
#[verifier::external_body]
fn random_number() -> (r: usize) {
    rand::random::<usize>()
}

/// Which children of an inner node a traversal is to visit, and in which
/// order.
#[derive(Clone, Copy, Debug, PartialEq, Eq, Structural)]
pub enum Visit {
    Neither,
    Left,
    Right,
    LeftThenRight,
    RightThenLeft,
}

/// `enter` accepts every node.
pub open spec fn enters_all<S, B: Fn(&S, usize) -> bool>(enter: B) -> bool {
    forall|s: &S, i: usize, a: bool| #[trigger] call_ensures(enter, (s, i), a) ==> a
}

/// `order` always visits both children.
pub open spec fn visits_both<S, C: Fn(&S, usize) -> Visit>(order: C) -> bool {
    forall|s: &S, i: usize, v: Visit| #[trigger] call_ensures(order, (s, i), v) ==> v
        == Visit::LeftThenRight || v == Visit::RightThenLeft
}

/// A miss hands the state back unchanged.
pub open spec fn keeps_on_miss<S, H, L: Fn(S, usize) -> (S, Option<H>)>(hit: L) -> bool {
    forall|s: S, p: usize, s2: S| #[trigger] call_ensures(hit, (s, p), (s2, None::<H>)) ==> s2 == s
}

/// `hit` gives one answer for each state and primitive.
pub open spec fn deterministic<S, H, L: Fn(S, usize) -> (S, Option<H>)>(hit: L) -> bool {
    forall|a: (S, usize), x: (S, Option<H>), y: (S, Option<H>)|
        #[trigger] call_ensures(hit, a, x) && #[trigger] call_ensures(hit, a, y) ==> x == y
}

/// Primitive `p` was tested.
pub open spec fn offered<S, H, L: Fn(S, usize) -> (S, Option<H>)>(hit: L, p: usize) -> bool {
    exists|s: S, s2: S, h: Option<H>| #[trigger] call_ensures(hit, (s, p), (s2, h))
}

/// Primitive `p` was tested and missed; from `state`, when a miss keeps the
/// state.
pub open spec fn missed<S, H, L: Fn(S, usize) -> (S, Option<H>)>(
    hit: L,
    p: usize,
    state: S,
) -> bool {
    exists|s: S, s2: S|
        #[trigger] call_ensures(hit, (s, p), (s2, None::<H>)) && (keeps_on_miss(hit) ==> s == state)
}

/// Some primitive of `ids` is hit from `state`.
pub open spec fn hit_from<S, H, L: Fn(S, usize) -> (S, Option<H>)>(
    hit: L,
    ids: Seq<usize>,
    state: S,
) -> bool {
    exists|p: usize, s2: S, h: Option<H>|
        ids.contains(p) && h is Some && #[trigger] call_ensures(hit, (state, p), (s2, h))
}

proof fn lemma_hit_contradicts_miss<S, H, L: Fn(S, usize) -> (S, Option<H>)>(
    hit: L,
    ids: Seq<usize>,
    state: S,
)
    requires
        hit_from(hit, ids, state),
        keeps_on_miss(hit),
        deterministic(hit),
    ensures
        !(forall|p: usize| ids.contains(p) ==> missed(hit, p, state)),
{
    let (p, s2, h) = choose|p: usize, s2: S, h: Option<H>|
        ids.contains(p) && h is Some && #[trigger] call_ensures(hit, (state, p), (s2, h));
    if forall|p: usize| ids.contains(p) ==> missed(hit, p, state) {
        assert(missed(hit, p, state));
        let (s, s3) = choose|s: S, s3: S|
            #[trigger] call_ensures(hit, (s, p), (s3, None::<H>)) && (keeps_on_miss(hit) ==> s == state);
        assert(call_ensures(hit, (state, p), (s3, None::<H>)));
        assert((s2, h) == (s3, None::<H>));
    }
}

/// A split rule's answer declines to split `count` primitives: no answer,
/// a flag list of another length, or flags all alike.
pub open spec fn declines(o: Option<Vec<bool>>, count: nat) -> bool {
    match o {
        Option::None => true,
        Option::Some(f) => f@.len() != count || (forall|k: int| 0 <= k < count ==> f@[k]) || (
        forall|k: int| 0 <= k < count ==> !f@[k]),
    }
}

/// Some call of `choose_split` on the primitives `held` declined them.
pub open spec fn refused<F: Fn(&Vec<usize>) -> Option<Vec<bool>>>(
    choose_split: F,
    held: Seq<usize>,
) -> bool {
    exists|v: &Vec<usize>, o: Option<Vec<bool>>|
        v@ == held && #[trigger] call_ensures(choose_split, (v,), o) && declines(o, held.len())
}

/// The rule declined the primitives of node `i`.
pub open spec fn leaf_declined<F: Fn(&Vec<usize>) -> Option<Vec<bool>>>(
    b: BVH,
    choose_split: F,
    i: int,
) -> bool {
    refused(choose_split, b.indices_view().subrange(b.span(i).0, b.span(i).1))
}

/// Every leaf over more than two primitives that is not pending on `st`
/// was declined by the rule.
pub open spec fn settled<F: Fn(&Vec<usize>) -> Option<Vec<bool>>>(
    b: BVH,
    choose_split: F,
    st: Seq<usize>,
) -> bool {
    forall|i: int|
        0 <= i < b.nodes_view().len() && b.is_leaf(i) && b.nodes_view()[i].count > 2
            && !st.contains(i as usize) ==> #[trigger] leaf_declined(b, choose_split, i)
}

/// The hierarchy's topology: a permutation of the primitives, the lights,
/// and the nodes, the root first.
pub struct BVH {
    indices: Vec<usize>,
    lights: Vec<usize>,
    nodes: Vec<Node>,
    /// The positions of the index list that each node covers.
    spans: Ghost<Seq<(int, int)>>,
    /// The first positions of the leaves' ranges.
    starts: Ghost<Set<int>>,
}

impl BVH {
    pub closed spec fn indices_view(&self) -> Seq<usize> {
        self.indices@
    }

    pub closed spec fn lights_view(&self) -> Seq<usize> {
        self.lights@
    }

    pub closed spec fn nodes_view(&self) -> Seq<Node> {
        self.nodes@
    }

    /// The positions `[start, end)` of the index list that node `i` covers.
    pub closed spec fn span(&self, i: int) -> (int, int) {
        self.spans@[i]
    }

    /// Node `i` is a leaf.
    pub open spec fn is_leaf(&self, i: int) -> bool {
        self.nodes_view()[i].count > 0 || self.indices_view().len() == 0
    }

    spec fn node_wf(&self, i: int) -> bool {
        let n = self.indices@.len() as int;
        let s = self.spans@[i];
        let nd = self.nodes@[i];
        &&& 0 <= s.0 <= s.1 <= n
        &&& (nd.count > 0 || n == 0) ==> nd.left_first == s.0 && nd.count == s.1 - s.0
        &&& (nd.count == 0 && n > 0) ==> {
            let l = nd.left_first as int;
            &&& i < l && l + 1 < self.nodes@.len()
            &&& self.spans@[l].0 == s.0
            &&& self.spans@[l].1 == self.spans@[l + 1].0
            &&& self.spans@[l + 1].1 == s.1
            &&& self.spans@[l].0 < self.spans@[l].1
            &&& self.spans@[l + 1].0 < self.spans@[l + 1].1
        }
    }

    /// The hierarchy is well formed: the index list is a permutation, the
    /// root covers all of it, each inner node's children split its range in
    /// two non-empty halves and lie after it, each leaf's range is its own.
    /// Some leaf's range starts at position `x`.
    pub open spec fn is_leaf_start(&self, x: int) -> bool {
        exists|i: int| 0 <= i < self.nodes_view().len() && self.is_leaf(i) && #[trigger] self.span(i).0 == x
    }

    /// Distinct leaves cover disjoint ranges.
    pub open spec fn leaves_disjoint(&self) -> bool {
        forall|i: int, j: int|
            0 <= i < self.nodes_view().len() && 0 <= j < self.nodes_view().len() && i != j
                && self.is_leaf(i) && self.is_leaf(j) ==> #[trigger] self.span(i).1 <= #[trigger] self.span(j).0
                || self.span(j).1 <= self.span(i).0
    }

    pub closed spec fn wf(&self) -> bool {
        &&& self.leaves_disjoint()
        &&& self.indices@.len() == 0 ==> self.nodes@.len() == 1
        &&& self.indices@.len() > 0 ==> {
            &&& self.starts@.finite()
            &&& self.nodes@.len() == 2 * self.starts@.len() - 1
            &&& forall|x: int| self.starts@.contains(x) <==> self.is_leaf_start(x)
        }
        &&& is_permutation(self.indices@, self.indices@.len())
        &&& self.nodes@.len() >= 1
        &&& self.spans@.len() == self.nodes@.len()
        &&& self.spans@[0] == (0int, self.indices@.len() as int)
        &&& forall|i: int| 0 <= i < self.nodes@.len() ==> #[trigger] self.node_wf(i)
        &&& forall|k: int| 0 <= k < self.lights@.len() ==> self.lights@[k] < self.indices@.len()
    }

    /// What well-formedness says of node `i`: the index list is a
    /// permutation, the root covers all of it, a leaf covers its own range,
    /// and an inner node's two children follow it and split its range in
    /// two non-empty halves.
    pub proof fn lemma_wf_facts(&self, i: int)
        requires
            self.wf(),
            0 <= i < self.nodes_view().len(),
        ensures
            is_permutation(self.indices_view(), self.indices_view().len()),
            self.span(0) == (0int, self.indices_view().len() as int),
            0 <= self.span(i).0 <= self.span(i).1 <= self.indices_view().len(),
            self.is_leaf(i) ==> self.nodes_view()[i].left_first == self.span(i).0
                && self.nodes_view()[i].count == self.span(i).1 - self.span(i).0,
            !self.is_leaf(i) ==> {
                let l = self.nodes_view()[i].left_first as int;
                &&& i < l && l + 1 < self.nodes_view().len()
                &&& self.span(l).0 == self.span(i).0
                &&& self.span(l).1 == self.span(l + 1).0
                &&& self.span(l + 1).1 == self.span(i).1
                &&& self.span(l).0 < self.span(l).1
                &&& self.span(l + 1).0 < self.span(l + 1).1
            },
    {
        assert(self.node_wf(i));
    }

    /// A well-formed hierarchy has at most `2 n - 1` nodes over `n > 0`
    /// primitives (one over none), and its leaves cover disjoint ranges.
    pub proof fn lemma_node_count(&self)
        requires
            self.wf(),
        ensures
            self.nodes_view().len() <= if self.indices_view().len() == 0 {
                1
            } else {
                2 * self.indices_view().len() - 1
            },
            self.leaves_disjoint(),
    {
        let n = self.indices@.len() as int;
        if n > 0 {
            assert forall|x: int| self.starts@.contains(x) implies set_int_range(0, n).contains(x) by {
                assert(self.is_leaf_start(x));
                let i = choose|i: int| 0 <= i < self.nodes_view().len() && self.is_leaf(i) && #[trigger] self.span(i).0 == x;
                self.lemma_wf_facts(i);
            }
            lemma_int_range(0, n);
            lemma_len_subset(self.starts@, set_int_range(0, n));
        }
    }

    /// A well-formed hierarchy, as `new` builds and `split` keeps it, lists
    /// each primitive exactly once in its index list.
    pub proof fn lemma_indices_permutation(&self)
        requires
            self.wf(),
        ensures
            is_permutation(self.indices_view(), self.indices_view().len()),
            forall|p: usize| p < self.indices_view().len() ==> self.indices_view().contains(p),
    {
        let n = self.indices@.len();
        assert forall|p: usize| p < n implies self.indices@.contains(p) by {
            lemma_permutation_onto(self.indices@, n, p);
        }
    }

    /// Every position that node `i` covers lies in a leaf at or below it; in
    /// particular, from the root, every primitive lies in some leaf.
    pub proof fn lemma_position_in_leaf(&self, i: int, q: int)
        requires
            self.wf(),
            0 <= i < self.nodes_view().len(),
            self.span(i).0 <= q < self.span(i).1,
        ensures
            exists|j: int|
                i <= j < self.nodes_view().len() && self.is_leaf(j) && self.nodes_view()[j].left_first
                    <= q < self.nodes_view()[j].left_first + self.nodes_view()[j].count,
        decreases self.nodes_view().len() - i,
    {
        self.lemma_wf_facts(i);
        if !self.is_leaf(i) {
            let l = self.nodes_view()[i].left_first as int;
            if q < self.span(l).1 {
                self.lemma_position_in_leaf(l, q);
            } else {
                self.lemma_position_in_leaf(l + 1, q);
            }
        }
    }

    proof fn lemma_settled_unchanged<F: Fn(&Vec<usize>) -> Option<Vec<bool>>>(
        &self,
        after: BVH,
        choose_split: F,
        st: Seq<usize>,
        node: int,
    )
        requires
            st.len() > 0,
            st.last() == node,
            self.nodes_view().len() <= usize::MAX,
            after.indices_view() == self.indices_view(),
            after.nodes_view() == self.nodes_view(),
            forall|i: int| 0 <= i < self.nodes_view().len() ==> after.span(i) == self.span(i),
            settled(*self, choose_split, st),
            self.is_leaf(node) && self.nodes_view()[node].count > 2 ==> leaf_declined(
                after,
                choose_split,
                node,
            ),
        ensures
            settled(after, choose_split, st.drop_last()),
    {
        assert forall|i: int|
            0 <= i < after.nodes_view().len() && after.is_leaf(i) && after.nodes_view()[i].count > 2
                && !st.drop_last().contains(i as usize) implies #[trigger] leaf_declined(
            after,
            choose_split,
            i,
        ) by {
            if i != node {
                if st.contains(i as usize) {
                    let k = choose|k: int| 0 <= k < st.len() && st[k] == i as usize;
                    assert(st[st.len() - 1] as int == node);
                    assert((i as usize) as int == i);
                    assert(k != st.len() - 1);
                    assert(st.drop_last()[k] == i as usize);
                    assert(st.drop_last().contains(i as usize));
                }
                assert(self.is_leaf(i));
                assert(self.nodes_view()[i].count > 2);
                assert(!st.contains(i as usize));
                assert(leaf_declined(*self, choose_split, i));
                assert(after.indices_view().subrange(after.span(i).0, after.span(i).1)
                    == self.indices_view().subrange(self.span(i).0, self.span(i).1));
            }
        }
    }

    proof fn lemma_settled_after_split<F: Fn(&Vec<usize>) -> Option<Vec<bool>>>(
        &self,
        after: BVH,
        choose_split: F,
        st: Seq<usize>,
        node: int,
    )
        requires
            self.wf(),
            st.len() > 0,
            st.last() == node,
            0 <= node < self.nodes_view().len(),
            self.is_leaf(node),
            settled(*self, choose_split, st),
            after.indices_view().len() == self.indices_view().len(),
            after.nodes_view().len() == self.nodes_view().len() + 2,
            forall|i: int|
                0 <= i < self.nodes_view().len() && i != node ==> after.nodes_view()[i]
                    == self.nodes_view()[i],
            forall|i: int| 0 <= i < self.nodes_view().len() ==> after.span(i) == self.span(i),
            forall|q: int|
                0 <= q < self.indices_view().len() && !(self.span(node).0 <= q < self.span(node).1)
                    ==> after.indices_view()[q] == self.indices_view()[q],
        ensures
            forall|i: int|
                0 <= i < self.nodes_view().len() && i != node && after.is_leaf(i)
                    && after.nodes_view()[i].count > 2 && !st.contains(i as usize)
                    ==> #[trigger] leaf_declined(after, choose_split, i),
    {
        assert forall|i: int|
            0 <= i < self.nodes_view().len() && i != node && after.is_leaf(i)
                && after.nodes_view()[i].count > 2 && !st.contains(i as usize) implies #[trigger] leaf_declined(
            after,
            choose_split,
            i,
        ) by {
            self.lemma_node_count();
            self.lemma_wf_facts(i);
            assert(self.is_leaf(i));
            assert(self.span(node).1 <= #[trigger] self.span(i).0 || self.span(i).1 <= self.span(node).0);
            assert(leaf_declined(*self, choose_split, i));
            assert(after.indices_view().subrange(after.span(i).0, after.span(i).1)
                =~= self.indices_view().subrange(self.span(i).0, self.span(i).1));
        }
    }

    /// Builds the hierarchy over `is_light.len()` primitives, `is_light[p]`
    /// telling whether primitive `p` emits light. Starting from the root,
    /// which holds every primitive, each node over more than two primitives
    /// is offered to `choose_split`, with the primitives it holds; where that
    /// returns one flag per primitive (true: to the left child), the node is
    /// split accordingly, and its children are offered in turn, the left
    /// first. A refusal (`None`, a flag list of another length, or one side
    /// empty) keeps the node a leaf.
    pub fn new<F>(is_light: &Vec<bool>, choose_split: F) -> (r: BVH) where
        F: Fn(&Vec<usize>) -> Option<Vec<bool>>,

        requires
            is_light@.len() <= usize::MAX / 2,
            forall|v: &Vec<usize>| call_requires(choose_split, (v,)),
        ensures
            r.wf(),
            r.indices_view().len() == is_light@.len(),
            is_permutation(r.indices_view(), is_light@.len() as nat),
            r.lights_view() == lights_of(is_light@, is_light@.len()),
            r.leaves_disjoint(),
            r.nodes_view().len() <= if is_light@.len() == 0 {
                1
            } else {
                2 * is_light@.len() - 1
            },
            forall|i: int|
                0 <= i < r.nodes_view().len() && r.is_leaf(i) && r.nodes_view()[i].count > 2
                    ==> refused(
                    choose_split,
                    r.indices_view().subrange(
                        r.nodes_view()[i].left_first as int,
                        r.nodes_view()[i].left_first + r.nodes_view()[i].count,
                    ),
                ),
    {
        let n = is_light.len();
        let mut indices: Vec<usize> = Vec::new();
        let mut lights: Vec<usize> = Vec::new();
        let mut i: usize = 0;
        while i < n
            invariant
                n == is_light@.len(),
                i <= n,
                indices@ == Seq::new(i as nat, |k: int| k as usize),
                lights@ == lights_of(is_light@, i as nat),
                forall|k: int| 0 <= k < lights@.len() ==> lights@[k] < i,
            decreases n - i,
        {
            indices.push(i);
            if is_light[i] {
                lights.push(i);
            }
            i = i + 1;
        }
        let mut nodes: Vec<Node> = Vec::new();
        nodes.push(Node { left_first: 0, count: n });
        let ghost root_span = seq![(0int, n as int)];
        let ghost root_start = set![0int];
        let mut bvh = BVH { indices, lights, nodes, spans: Ghost(root_span), starts: Ghost(root_start) };
        proof {
            if n > 0 {
                assert forall|x: int| bvh.starts@.contains(x) <==> bvh.is_leaf_start(x) by {
                    if x == 0 {
                        assert(bvh.span(0).0 == 0);
                    }
                }
            }
        }
        proof {
            assert(bvh.node_wf(0));
        }
        let mut stack: Vec<usize> = Vec::new();
        stack.push(0);
        let total = bvh.indices.len();
        proof {
            assert(stack@[0] == 0);
            assert(stack@.contains(0));
        }
        while stack.len() > 0
            invariant
                bvh.wf(),
                total == n,
                n <= usize::MAX / 2,
                bvh.indices@.len() == n,
                bvh.lights@ == lights_of(is_light@, n as nat),
                forall|v: &Vec<usize>| call_requires(choose_split, (v,)),
                forall|k: int|
                    0 <= k < stack@.len() ==> stack@[k] < bvh.nodes@.len() && bvh.is_leaf(
                        stack@[k] as int,
                    ),
                forall|a: int, b: int|
                    0 <= a < stack@.len() && 0 <= b < stack@.len() && a != b ==> stack@[a]
                        != stack@[b],
                settled(bvh, choose_split, stack@),
            decreases stack_weight(bvh, stack@),
        {
            let ghost before = bvh;
            let ghost st = stack@;
            let node = stack.pop().unwrap();
            proof {
                assert(stack@ == st.drop_last());
                bvh.lemma_wf_facts(node as int);
                bvh.lemma_node_count();
                assert(st[st.len() - 1] == node);
                assert forall|k: int| 0 <= k < stack@.len() implies stack@[k] != node by {
                    assert(st[k] != st[st.len() - 1]);
                }
            }
            let first = bvh.nodes[node].left_first;
            let count = bvh.nodes[node].count;
            let ghost mut did = false;
            if count > 2 {
                let mut held: Vec<usize> = Vec::new();
                let mut k: usize = 0;
                while k < count
                    invariant
                        bvh == before,
                        bvh.wf(),
                        total == bvh.indices@.len(),
                        first as int + count as int <= bvh.indices@.len(),
                        k <= count,
                        held@ == bvh.indices@.subrange(first as int, first + k),
                    decreases count - k,
                {
                    held.push(bvh.indices[first + k]);
                    k = k + 1;
                    assert(held@ =~= bvh.indices@.subrange(first as int, first + k));
                }
                let answer = choose_split(&held);
                let ghost seen = answer;
                match answer {
                    Some(flags) => {
                        if flags.len() == count {
                            let m = bvh.nodes.len();
                            if bvh.split(node, &flags) {
                                proof {
                                    lemma_stack_weight_same(before, bvh, stack@);
                                    assert forall|k: int| 0 <= k < stack@.len() implies bvh.is_leaf(
                                        stack@[k] as int,
                                    ) by {
                                        assert(st[k] != st[st.len() - 1]);
                                    }
                                    before.lemma_settled_after_split(
                                        bvh,
                                        choose_split,
                                        st,
                                        node as int,
                                    );
                                }
                                let ghost rest = stack@;
                                stack.push(m + 1);
                                stack.push(m);
                                proof {
                                    bvh.lemma_wf_facts(node as int);
                                    assert(stack@.drop_last() =~= rest.push((m + 1) as usize));
                                    assert(rest.push((m + 1) as usize).drop_last() =~= rest);
                                    assert(bvh.span(m as int).1 - bvh.span(m as int).0 > 0);
                                    assert(bvh.span(m + 1).1 - bvh.span(m + 1).0 > 0);
                                    assert(stack_weight(bvh, stack@) == stack_weight(
                                        bvh,
                                        rest.push((m + 1) as usize),
                                    ) + pending_weight(bvh, m));
                                    assert(stack_weight(bvh, rest.push((m + 1) as usize))
                                        == stack_weight(bvh, rest) + pending_weight(
                                        bvh,
                                        (m + 1) as usize,
                                    ));
                                    assert(stack_weight(bvh, stack@) == stack_weight(bvh, rest)
                                        + pending_weight(bvh, (m + 1) as usize) + pending_weight(
                                        bvh,
                                        m,
                                    ));
                                    assert(settled(bvh, choose_split, stack@)) by {
                                        assert forall|i: int|
                                            0 <= i < bvh.nodes_view().len() && bvh.is_leaf(i)
                                                && bvh.nodes_view()[i].count > 2
                                                && !stack@.contains(i as usize) implies #[trigger] leaf_declined(
                                            bvh,
                                            choose_split,
                                            i,
                                        ) by {
                                            assert(stack@[stack@.len() - 1] == m);
                                            assert(stack@[stack@.len() - 2] == m + 1);
                                            assert(stack@.contains(m as usize));
                                            assert(stack@.contains((m + 1) as usize));
                                            assert(!bvh.is_leaf(node as int));
                                            assert(i < m && i != node);
                                            if st.contains(i as usize) {
                                                let k = choose|k: int| 0 <= k < st.len() && st[k] == i as usize;
                                                assert(k != st.len() - 1);
                                                assert(rest[k] == i as usize);
                                                assert(stack@[k] == i as usize);
                                                assert(stack@.contains(i as usize));
                                            }
                                        }
                                    }
                                    did = true;
                                }
                            } else {
                                proof {
                                    assert(declines(seen, count as nat));
                                }
                            }
                        }
                    },
                    None => {},
                }
                proof {
                    if !did {
                        assert(declines(seen, count as nat));
                        assert(bvh.indices@.subrange(bvh.span(node as int).0, bvh.span(node as int).1)
                            == held@);
                        assert(refused(choose_split, held@));
                    }
                }
            }
            proof {
                assert(stack_weight(before, st) == stack_weight(before, st.drop_last())
                    + pending_weight(before, node));
                if !did {
                    lemma_stack_weight_same(before, bvh, stack@);
                    before.lemma_settled_unchanged(bvh, choose_split, st, node as int);
                }
            }
        }
        proof {
            bvh.lemma_wf_facts(0);
            bvh.lemma_node_count();
            assert forall|i: int|
                0 <= i < bvh.nodes_view().len() && bvh.is_leaf(i) && bvh.nodes_view()[i].count > 2
                    implies refused(
                    choose_split,
                    bvh.indices_view().subrange(
                        bvh.nodes_view()[i].left_first as int,
                        bvh.nodes_view()[i].left_first + bvh.nodes_view()[i].count,
                    ),
                ) by {
                bvh.lemma_wf_facts(i);
                assert(leaf_declined(bvh, choose_split, i));
            }
        }
        bvh
    }

    /// The number of primitives.
    pub fn primitive_count(&self) -> (r: usize)
        ensures
            r == self.indices_view().len(),
    {
        self.indices.len()
    }

    /// The number of nodes.
    pub fn node_count(&self) -> (r: usize)
        ensures
            r == self.nodes_view().len(),
    {
        self.nodes.len()
    }

    /// Node `i`.
    pub fn node(&self, i: usize) -> (r: Node)
        requires
            i < self.nodes_view().len(),
        ensures
            r == self.nodes_view()[i as int],
    {
        self.nodes[i]
    }

    /// Whether node `i` is a leaf.
    pub fn node_is_leaf(&self, i: usize) -> (r: bool)
        requires
            i < self.nodes_view().len(),
        ensures
            r == self.is_leaf(i as int),
    {
        self.nodes[i].count > 0 || self.indices.len() == 0
    }

    /// The permutation of the primitives that the leaves' ranges index.
    pub fn indices(&self) -> (r: &Vec<usize>)
        ensures
            r@ == self.indices_view(),
    {
        &self.indices
    }

    /// The primitives that emit light, in increasing order.
    pub fn lights(&self) -> (r: &Vec<usize>)
        ensures
            r@ == self.lights_view(),
    {
        &self.lights
    }

    /// The light that the number `r` selects: `None` when there is none,
    /// else the number of lights and light `r mod count`.
    pub fn pick_light(&self, r: usize) -> (res: Option<(usize, usize)>)
        ensures
            self.lights_view().len() == 0 <==> res is None,
            res matches Some((k, p)) ==> k == self.lights_view().len() && p
                == self.lights_view()[(r % k) as int],
    {
        let k = self.lights.len();
        if k == 0 {
            None
        } else {
            Some((k, self.lights[r % k]))
        }
    }

    /// A light drawn at random: `None` when there is none, else the number
    /// of lights and one of them.
    pub fn random_light(&self) -> (res: Option<(usize, usize)>)
        ensures
            self.lights_view().len() == 0 <==> res is None,
            res matches Some((k, p)) ==> k == self.lights_view().len()
                && self.lights_view().contains(p),
    {
        let r: usize = random_number();
        let res = self.pick_light(r);
        proof {
            if let Some((k, p)) = res {
                assert(self.lights_view()[(r % k) as int] == p);
            }
        }
        res
    }

    /// The capacity that a traversal stack needs: the largest stack that a
    /// depth-first walk from the root uses when it pushes both children of
    /// every inner node.
    pub fn max_stack_depth(&self) -> (r: usize)
        requires
            self.wf(),
        ensures
            r == stack_need(*self, 0),
    {
        let len = self.nodes.len();
        let mut need: Vec<usize> = Vec::new();
        let mut k: usize = 0;
        while k < len
            invariant
                k <= len,
                need@.len() == k,
            decreases len - k,
        {
            need.push(1);
            k = k + 1;
        }
        let mut i: usize = len;
        while i > 0
            invariant
                self.wf(),
                len == self.nodes_view().len(),
                need@.len() == len,
                i <= len,
                forall|j: int|
                    i <= j < len ==> #[trigger] need@[j] == stack_need(*self, j) && need@[j] <= len
                        - j,
            decreases i,
        {
            i = i - 1;
            proof {
                self.lemma_wf_facts(i as int);
            }
            if !self.node_is_leaf(i) {
                let l = self.nodes[i].left_first;
                assert(i < l && l + 1 < len);
                assert(need@[l as int] == stack_need(*self, l as int) && need@[l as int] <= len - l);
                assert(need@[l + 1] == stack_need(*self, l + 1) && need@[l + 1] <= len - (l + 1));
                let a = need[l];
                let c = need[l + 1];
                need[i] = 1 + if a >= c {
                    a
                } else {
                    c
                };
                assert(need@[i as int] == stack_need(*self, i as int));
            } else {
                need[i] = 1;
            }
        }
        need[0]
    }

    /// Position `q` of the index list lies in the range of a node on `st`.
    pub open spec fn on_stack(&self, st: Seq<usize>, q: int) -> bool {
        exists|k: int| 0 <= k < st.len() && #[trigger] self.span(st[k] as int).0 <= q < self.span(st[k] as int).1
    }

    proof fn lemma_pop_cover(&self, st: Seq<usize>, q: int)
        requires
            st.len() > 0,
            self.on_stack(st, q),
        ensures
            self.on_stack(st.drop_last(), q) || self.span(st.last() as int).0 <= q < self.span(
                st.last() as int,
            ).1,
    {
        let k = choose|k: int| 0 <= k < st.len() && #[trigger] self.span(st[k] as int).0 <= q < self.span(st[k] as int).1;
        if k < st.len() - 1 {
            assert(st.drop_last()[k] == st[k]);
        }
    }

    proof fn lemma_push_cover(&self, rest: Seq<usize>, st: Seq<usize>, q: int)
        requires
            rest.len() <= st.len(),
            forall|k: int| 0 <= k < rest.len() ==> st[k] == rest[k],
            self.on_stack(rest, q) || exists|k: int| rest.len() <= k < st.len() && #[trigger] self.span(st[k] as int).0 <= q < self.span(st[k] as int).1,
        ensures
            self.on_stack(st, q),
    {
        if self.on_stack(rest, q) {
            let k = choose|k: int| 0 <= k < rest.len() && #[trigger] self.span(rest[k] as int).0 <= q < self.span(rest[k] as int).1;
            assert(st[k] == rest[k]);
        }
    }

    /// What a walk from the root returns, `first_only` telling whether it
    /// stops at the first hit:
    /// - with no primitives, the state as given and no hit;
    /// - a hit is one that `hit` reported for a listed primitive, and when
    ///   the walk stops at it, or a miss keeps the state, the state returned
    ///   is the one that call returned;
    /// - when a miss keeps the state: no hit leaves the state as given, and a
    ///   hit means some primitive is hit from the state as given;
    /// - when `enter` accepts every node and `order` visits both children:
    ///   no hit means every primitive was tested and missed (from the state
    ///   as given, when a miss keeps it), and a walk that does not stop early
    ///   tests every primitive.
    pub open spec fn walk_outcome<S, H, B, C, L>(
        &self,
        state: S,
        enter: B,
        order: C,
        hit: L,
        first_only: bool,
        r: (S, Option<H>),
    ) -> bool where
        B: Fn(&S, usize) -> bool,
        C: Fn(&S, usize) -> Visit,
        L: Fn(S, usize) -> (S, Option<H>),
     {
        let ids = self.indices_view();
        &&& ids.len() == 0 ==> r.0 == state && r.1 is None
        &&& r.1 is Some ==> exists|s: S, p: usize, s2: S|
            ids.contains(p) && #[trigger] call_ensures(hit, (s, p), (s2, r.1))
        &&& r.1 is Some && (first_only || keeps_on_miss(hit)) ==> exists|s: S, p: usize|
            ids.contains(p) && #[trigger] call_ensures(hit, (s, p), (r.0, r.1))
        &&& keeps_on_miss(hit) && r.1 is None ==> r.0 == state
        &&& keeps_on_miss(hit) && r.1 is Some ==> hit_from(hit, ids, state)
        &&& enters_all(enter) && visits_both(order) && r.1 is None ==> forall|p: usize|
            ids.contains(p) ==> missed(hit, p, state)
        &&& !first_only && enters_all(enter) && visits_both(order) ==> forall|p: usize|
            ids.contains(p) ==> offered(hit, p)
    }

    /// Walks the hierarchy depth first from the root, threading `state` (the
    /// ray) through the tests. A popped node is skipped unless `enter`
    /// accepts it; at a leaf each primitive is offered to `hit`, in the order
    /// of the index list; at an inner node `order` picks the children to
    /// visit and which comes first. With `first_only` the walk stops at the
    /// first hit; else it returns the last one. `stack` is the walk's own.
    fn walk<S, H, B, C, L>(
        &self,
        stack: &mut Vec<usize>,
        state: S,
        enter: &B,
        order: &C,
        hit: &L,
        first_only: bool,
    ) -> (r: (S, Option<H>)) where
        B: Fn(&S, usize) -> bool,
        C: Fn(&S, usize) -> Visit,
        L: Fn(S, usize) -> (S, Option<H>),

        requires
            self.wf(),
            forall|s: &S, i: usize| call_requires(*enter, (s, i)),
            forall|s: &S, i: usize| call_requires(*order, (s, i)),
            forall|s: S, p: usize| call_requires(*hit, (s, p)),
        ensures
            self.walk_outcome(state, *enter, *order, *hit, first_only, r),
    {
        stack.clear();
        if self.indices.len() == 0 {
            return (state, None);
        }
        stack.push(0);
        let total = self.indices.len();
        let node_total = self.nodes.len();
        let ghost mut hs = state;
        let ghost ids = self.indices_view();
        let ghost full = enters_all(*enter) && visits_both(*order);
        let ghost keeps = keeps_on_miss(*hit);
        let mut cur = state;
        let mut found: Option<H> = None;
        proof {
            assert forall|q: int| 0 <= q < total implies self.on_stack(stack@, q) by {
                assert(self.span(stack@[0] as int).0 <= q < self.span(stack@[0] as int).1);
            }
        }
        while stack.len() > 0
            invariant
                self.wf(),
                ids == self.indices_view(),
                ids.len() > 0,
                total == ids.len(),
                node_total == self.nodes_view().len(),
                full == (enters_all(*enter) && visits_both(*order)),
                keeps == keeps_on_miss(*hit),
                forall|s: &S, i: usize| call_requires(*enter, (s, i)),
                forall|s: &S, i: usize| call_requires(*order, (s, i)),
                forall|s: S, p: usize| call_requires(*hit, (s, p)),
                forall|k: int| 0 <= k < stack@.len() ==> stack@[k] < self.nodes_view().len(),
                found is Some ==> exists|s: S, p: usize|
                    ids.contains(p) && #[trigger] call_ensures(*hit, (s, p), (hs, found)),
                keeps && found is Some ==> cur == hs,
                keeps && found is None ==> cur == state,
                first_only ==> found is None,
                keeps && found is Some ==> hit_from(*hit, ids, state),
                full && found is None ==> forall|q: int|
                    0 <= q < total ==> self.on_stack(stack@, q) || missed(*hit, ids[q], state),
                full && !first_only ==> forall|q: int|
                    0 <= q < total ==> self.on_stack(stack@, q) || offered(*hit, ids[q]),
            decreases stack_weight(*self, stack@),
        {
            let ghost st = stack@;
            let node = stack.pop().unwrap();
            proof {
                assert(stack@ == st.drop_last());
                assert(stack_weight(*self, st) == stack_weight(*self, stack@) + pending_weight(
                    *self,
                    node,
                ));
                self.lemma_wf_facts(node as int);
                assert forall|q: int| self.on_stack(st, q) implies self.on_stack(stack@, q) || self.span(node as int).0 <= q < self.span(node as int).1 by {
                    self.lemma_pop_cover(st, q);
                }
                if full && found is None {
                    assert forall|q: int| 0 <= q < total implies self.on_stack(stack@, q) || (self.span(
                        node as int,
                    ).0 <= q < self.span(node as int).1) || missed(*hit, ids[q], state) by {
                        if !missed(*hit, ids[q], state) {
                            self.lemma_pop_cover(st, q);
                        }
                    }
                }
                if full && !first_only {
                    assert forall|q: int| 0 <= q < total implies self.on_stack(stack@, q) || (self.span(
                        node as int,
                    ).0 <= q < self.span(node as int).1) || offered(*hit, ids[q]) by {
                        if !offered(*hit, ids[q]) {
                            self.lemma_pop_cover(st, q);
                        }
                    }
                }
            }
            let e = enter(&cur, node);
            if e {
                let nd = self.nodes[node];
                if self.node_is_leaf(node) {
                    let end = nd.left_first + nd.count;
                    let mut k = nd.left_first;
                    while k < end
                        invariant
                            self.wf(),
                            ids == self.indices_view(),
                            total == ids.len(),
                            end <= ids.len(),
                            nd.left_first <= k,
                            full == (enters_all(*enter) && visits_both(*order)),
                            keeps == keeps_on_miss(*hit),
                            forall|s: S, p: usize| call_requires(*hit, (s, p)),
                            found is Some ==> exists|s: S, p: usize|
                                ids.contains(p) && #[trigger] call_ensures(*hit, (s, p), (hs, found)),
                            keeps && found is Some ==> cur == hs,
                            keeps && found is None ==> cur == state,
                            first_only ==> found is None,
                            keeps && found is Some ==> hit_from(*hit, ids, state),
                            full && found is None ==> forall|q: int|
                                0 <= q < total ==> self.on_stack(stack@, q) || (k <= q < end)
                                    || missed(*hit, ids[q], state),
                            full && !first_only ==> forall|q: int|
                                0 <= q < total ==> self.on_stack(stack@, q) || (k <= q < end)
                                    || offered(*hit, ids[q]),
                        decreases end - k,
                    {
                        let p = self.indices[k];
                        let ghost before = cur;
                        let ghost was_none = found is None;
                        let (next, h) = hit(cur, p);
                        cur = next;
                        proof {
                            assert(ids[k as int] == p);
                            assert(ids.contains(p));
                            assert(offered(*hit, p)) by {
                                assert(call_ensures(*hit, (before, p), (cur, h)));
                            }
                            if h is None && was_none {
                                if keeps {
                                    assert(cur == before);
                                }
                                assert(missed(*hit, p, state)) by {
                                    assert(call_ensures(*hit, (before, p), (cur, None::<H>)));
                                }
                            }
                            if h is Some && was_none && keeps {
                                assert(call_ensures(*hit, (state, p), (cur, h)));
                                assert(hit_from(*hit, ids, state));
                            }
                        }
                        if h.is_some() {
                            found = h;
                            proof {
                                hs = cur;
                                assert(call_ensures(*hit, (before, p), (hs, found)));
                            }
                            if first_only {
                                proof {
                                    assert(self.walk_outcome(state, *enter, *order, *hit, first_only, (cur, found)));
                                }
                                return (cur, found);
                            }
                        }
                        k = k + 1;
                    }
                    proof {
                        if full && found is None {
                            assert forall|q: int| 0 <= q < total implies self.on_stack(stack@, q)
                                || missed(*hit, ids[q], state) by {}
                        }
                        if full && !first_only {
                            assert forall|q: int| 0 <= q < total implies self.on_stack(stack@, q)
                                || offered(*hit, ids[q]) by {}
                        }
                    }
                } else {
                    let l = nd.left_first;
                    let ghost rest = stack@;
                    let v = order(&cur, node);
                    match v {
                        Visit::Neither => {},
                        Visit::Left => {
                            stack.push(l);
                        },
                        Visit::Right => {
                            stack.push(l + 1);
                        },
                        Visit::LeftThenRight => {
                            stack.push(l + 1);
                            stack.push(l);
                        },
                        Visit::RightThenLeft => {
                            stack.push(l);
                            stack.push(l + 1);
                        },
                    }
                    proof {
                        if stack@.len() == rest.len() + 1 {
                            assert(stack@.drop_last() =~= rest);
                        } else if stack@.len() == rest.len() + 2 {
                            assert(stack@.drop_last() =~= rest.push(stack@[rest.len() as int]));
                            assert(rest.push(stack@[rest.len() as int]).drop_last() =~= rest);
                            assert(stack_weight(*self, stack@) == stack_weight(
                                *self,
                                rest.push(stack@[rest.len() as int]),
                            ) + pending_weight(*self, stack@.last()));
                        }
                        if full {
                            assert(v == Visit::LeftThenRight || v == Visit::RightThenLeft);
                            assert forall|q: int|
                                self.on_stack(rest, q) || self.span(node as int).0 <= q < self.span(
                                    node as int,
                                ).1 implies self.on_stack(stack@, q) by {
                                if !self.on_stack(rest, q) {
                                    if q < self.span(l as int).1 {
                                        if v == Visit::LeftThenRight {
                                            assert(stack@[rest.len() as int + 1] == l);
                                        } else {
                                            assert(stack@[rest.len() as int] == l);
                                        }
                                    } else {
                                        if v == Visit::LeftThenRight {
                                            assert(stack@[rest.len() as int] == l + 1);
                                        } else {
                                            assert(stack@[rest.len() as int + 1] == l + 1);
                                        }
                                    }
                                }
                                self.lemma_push_cover(rest, stack@, q);
                            }
                            if found is None {
                                assert forall|q: int| 0 <= q < total implies self.on_stack(stack@, q)
                                    || missed(*hit, ids[q], state) by {
                                    if !missed(*hit, ids[q], state) {
                                        assert(self.on_stack(rest, q) || (self.span(node as int).0 <= q
                                            < self.span(node as int).1));
                                    }
                                }
                            }
                            if !first_only {
                                assert forall|q: int| 0 <= q < total implies self.on_stack(stack@, q)
                                    || offered(*hit, ids[q]) by {
                                    if !offered(*hit, ids[q]) {
                                        assert(self.on_stack(rest, q) || (self.span(node as int).0 <= q
                                            < self.span(node as int).1));
                                    }
                                }
                            }
                        }
                    }
                }
            } else {
                proof {
                    if full {
                        assert(call_ensures(*enter, (&cur, node), e));
                        assert(e);
                    }
                }
            }
        }
        proof {
            if found is Some && keeps {
                let (s0, p0) = choose|s0: S, p0: usize|
                    ids.contains(p0) && #[trigger] call_ensures(*hit, (s0, p0), (hs, found));
                assert(call_ensures(*hit, (s0, p0), (cur, found)));
            }
            if full && found is None {
                assert forall|p: usize| ids.contains(p) implies missed(*hit, p, state) by {
                    let q = choose|q: int| 0 <= q < ids.len() && ids[q] == p;
                    assert(!self.on_stack(stack@, q));
                }
            }
            if full && !first_only {
                assert forall|p: usize| ids.contains(p) implies offered(*hit, p) by {
                    let q = choose|q: int| 0 <= q < ids.len() && ids[q] == p;
                    assert(!self.on_stack(stack@, q));
                }
            }
        }
        (cur, found)
    }

    /// The nearest hit: walks the whole hierarchy and returns the state after
    /// the walk and the last hit that `hit` reported (each hit shortens the
    /// ray, so the last one is the nearest).
    pub fn intersect_closest<S, H, B, C, L>(
        &self,
        stack: &mut Vec<usize>,
        state: S,
        enter: &B,
        order: &C,
        hit: &L,
    ) -> (r: (S, Option<H>)) where
        B: Fn(&S, usize) -> bool,
        C: Fn(&S, usize) -> Visit,
        L: Fn(S, usize) -> (S, Option<H>),

        requires
            self.wf(),
            forall|s: &S, i: usize| call_requires(*enter, (s, i)),
            forall|s: &S, i: usize| call_requires(*order, (s, i)),
            forall|s: S, p: usize| call_requires(*hit, (s, p)),
        ensures
            self.walk_outcome(state, *enter, *order, *hit, false, r),
    {
        self.walk(stack, state, enter, order, hit, false)
    }

    /// Any hit: walks the hierarchy as `intersect_closest` does but stops at
    /// the first hit that `hit` reports, returning the state that call
    /// returned.
    pub fn intersect_any<S, H, B, C, L>(
        &self,
        stack: &mut Vec<usize>,
        state: S,
        enter: &B,
        order: &C,
        hit: &L,
    ) -> (r: (S, Option<H>)) where
        B: Fn(&S, usize) -> bool,
        C: Fn(&S, usize) -> Visit,
        L: Fn(S, usize) -> (S, Option<H>),

        requires
            self.wf(),
            forall|s: &S, i: usize| call_requires(*enter, (s, i)),
            forall|s: &S, i: usize| call_requires(*order, (s, i)),
            forall|s: S, p: usize| call_requires(*hit, (s, p)),
        ensures
            self.walk_outcome(state, *enter, *order, *hit, true, r),
    {
        self.walk(stack, state, enter, order, hit, true)
    }

    /// With an `enter` that accepts every node, an `order` that visits both
    /// children, and a `hit` that is a function of its arguments and keeps
    /// the state on a miss, `intersect_any` finds a hit exactly when
    /// `intersect_closest` does.
    pub proof fn lemma_any_agrees_with_closest<S, H, B, C, L>(
        &self,
        state: S,
        enter: B,
        order: C,
        hit: L,
        any: (S, Option<H>),
        closest: (S, Option<H>),
    ) where
        B: Fn(&S, usize) -> bool,
        C: Fn(&S, usize) -> Visit,
        L: Fn(S, usize) -> (S, Option<H>),

        requires
            self.walk_outcome(state, enter, order, hit, true, any),
            self.walk_outcome(state, enter, order, hit, false, closest),
            enters_all(enter),
            visits_both(order),
            keeps_on_miss(hit),
            deterministic(hit),
        ensures
            any.1 is Some <==> closest.1 is Some,
    {
        let ids = self.indices_view();
        if any.1 is Some && closest.1 is None {
            lemma_hit_contradicts_miss(hit, ids, state);
        }
        if closest.1 is Some && any.1 is None {
            lemma_hit_contradicts_miss(hit, ids, state);
        }
    }

    /// Partitions the primitives of leaf `node` by `goes_left`, one flag for
    /// each position of its range, and makes it an inner node whose two new
    /// children hold the flagged primitives (left) and the others (right).
    /// Refuses, changing nothing, when either side would be empty.
    pub fn split(&mut self, node: usize, goes_left: &Vec<bool>) -> (done: bool)
        requires
            old(self).wf(),
            node < old(self).nodes_view().len(),
            old(self).nodes_view()[node as int].count > 0,
            goes_left@.len() == old(self).nodes_view()[node as int].count,
            old(self).nodes_view().len() + 2 <= usize::MAX,
        ensures
            final(self).wf(),
            done <==> (exists|k: int| 0 <= k < goes_left@.len() && goes_left@[k]) && (exists|k: int|
                0 <= k < goes_left@.len() && !goes_left@[k]),
            !done ==> final(self).indices_view() == old(self).indices_view()
                && final(self).nodes_view() == old(self).nodes_view() && forall|i: int|
                0 <= i < old(self).nodes_view().len() ==> final(self).span(i) == old(self).span(
                i),
            final(self).lights_view() == old(self).lights_view(),
            done ==> {
                let first = old(self).nodes_view()[node as int].left_first as int;
                let count = old(self).nodes_view()[node as int].count as int;
                let m = old(self).nodes_view().len() as int;
                let lc = final(self).nodes_view()[m].count as int;
                &&& final(self).nodes_view() == old(self).nodes_view().update(
                    node as int,
                    Node { left_first: m as usize, count: 0 },
                ).push(Node { left_first: first as usize, count: lc as usize }).push(
                    Node { left_first: (first + lc) as usize, count: (count - lc) as usize },
                )
                &&& forall|i: int| 0 <= i < m ==> final(self).span(i) == old(self).span(i)
                &&& final(self).span(m) == (first, first + lc)
                &&& final(self).span(m + 1) == (first + lc, first + count)
                &&& forall|q: int|
                    0 <= q < old(self).indices_view().len() && !(first <= q < first + count)
                        ==> final(self).indices_view()[q] == old(self).indices_view()[q]
                &&& exists|perm: Seq<int>|
                    is_bijection(perm, count) && forall|q: int|
                        0 <= q < count ==> final(self).indices_view()[first + q]
                            == old(self).indices_view()[first + perm[q]] && (q < lc
                            <==> goes_left@[perm[q]])
            },
    {
        let ghost old_self = *self;
        let ghost n = self.indices@.len();
        let total = self.indices.len();
        proof {
            self.lemma_wf_facts(node as int);
        }
        let first = self.nodes[node].left_first;
        let count = self.nodes[node].count;
        let mut f: Vec<bool> = goes_left.clone();
        let ghost mut perm: Seq<int> = Seq::new(count as nat, |q: int| q);
        let mut p: usize = 0;
        let mut j: usize = 0;
        while j < count
            invariant
                old_self.wf(),
                old_self.indices@.len() == n,
                n == total,
                first as int + count as int <= n,
                goes_left@.len() == count,
                f@.len() == count,
                0 <= p <= j <= count,
                self.indices@.len() == n,
                is_permutation(self.indices@, n),
                self.nodes == old_self.nodes,
                self.lights == old_self.lights,
                self.spans == old_self.spans,
                self.starts == old_self.starts,
                forall|q: int|
                    0 <= q < n && !(first <= q < first + count) ==> self.indices@[q]
                        == old_self.indices@[q],
                is_bijection(perm, count as int),
                forall|q: int|
                    0 <= q < count ==> self.indices@[first + q] == old_self.indices@[first
                        + #[trigger] perm[q]] && f@[q] == goes_left@[perm[q]],
                forall|q: int| 0 <= q < p ==> f@[q],
                forall|q: int| p <= q < j ==> !f@[q],
                (p == j || p == 0) ==> self.indices@ == old_self.indices@ && f@ == goes_left@
                    && forall|q: int| 0 <= q < count ==> perm[q] == q,
            decreases count - j,
        {
            if f[j] {
                let a = self.indices[first + p];
                let b = self.indices[first + j];
                self.indices[first + p] = b;
                self.indices[first + j] = a;
                let fa = f[p];
                let fb = f[j];
                f[p] = fb;
                f[j] = fa;
                proof {
                    let pp = perm[p as int];
                    let pj = perm[j as int];
                    perm = perm.update(p as int, pj).update(j as int, pp);
                    if p == j {
                        assert(self.indices@ =~= old_self.indices@);
                        assert(f@ =~= goes_left@);
                    }
                }
                p = p + 1;
            }
            j = j + 1;
        }
        proof {
            if p == 0 || p == count {
                assert(self.indices@ =~= old_self.indices@);
            }
        }
        if p == 0 || p == count {
            proof {
                if p == 0 {
                    assert(forall|k: int| 0 <= k < goes_left@.len() ==> !goes_left@[k]);
                } else {
                    assert(forall|k: int| 0 <= k < goes_left@.len() ==> goes_left@[k]);
                }
                assert forall|i: int| 0 <= i < self.nodes@.len() implies #[trigger] self.node_wf(
                    i,
                ) by {
                    assert(old_self.node_wf(i));
                }
                assert(self.leaves_disjoint()) by {
                    assert forall|i: int, j: int|
                        0 <= i < self.nodes_view().len() && 0 <= j < self.nodes_view().len() && i != j
                            && self.is_leaf(i) && self.is_leaf(j) implies #[trigger] self.span(i).1
                            <= #[trigger] self.span(j).0 || self.span(j).1 <= self.span(i).0 by {
                        assert(old_self.is_leaf(i) && old_self.is_leaf(j));
                        assert(old_self.span(i).1 <= old_self.span(j).0 || old_self.span(j).1 <= old_self.span(i).0);
                    }
                }
                if n > 0 {
                    assert forall|x: int| self.starts@.contains(x) <==> self.is_leaf_start(x) by {
                        if self.starts@.contains(x) {
                            assert(old_self.is_leaf_start(x));
                            let j = choose|j: int| 0 <= j < old_self.nodes_view().len() && old_self.is_leaf(j) && #[trigger] old_self.span(j).0 == x;
                            assert(self.span(j).0 == x && self.is_leaf(j));
                        }
                        if self.is_leaf_start(x) {
                            let j = choose|j: int| 0 <= j < self.nodes_view().len() && self.is_leaf(j) && #[trigger] self.span(j).0 == x;
                            assert(old_self.span(j).0 == x && old_self.is_leaf(j));
                            assert(old_self.is_leaf_start(x));
                            assert(old_self.starts@.contains(x));
                        }
                    }
                }
            }
            return false;
        }
        proof {
            assert(goes_left@[perm[0]]);
            assert(!goes_left@[perm[p as int]]);
        }
        let m = self.nodes.len();
        self.nodes[node] = Node { left_first: m, count: 0 };
        self.nodes.push(Node { left_first: first, count: p });
        self.nodes.push(Node { left_first: first + p, count: count - p });
        proof {
            self.spans = Ghost(
                self.spans@.push((first as int, first + p)).push(
                    (first + p, first + count),
                ),
            );
            assert(!old_self.starts@.contains(first + p)) by {
                if old_self.is_leaf_start(first + p) {
                    let j = choose|j: int| 0 <= j < old_self.nodes_view().len() && old_self.is_leaf(j) && #[trigger] old_self.span(j).0 == first + p;
                    old_self.lemma_wf_facts(j);
                }
            }
            self.starts = Ghost(old_self.starts@.insert(first + p));
            assert(self.starts@.finite());
            assert(self.starts@.len() == old_self.starts@.len() + 1);
            assert(self.nodes@.len() == 2 * self.starts@.len() - 1);
            assert forall|i: int| 0 <= i < self.nodes@.len() implies #[trigger] self.node_wf(i) by {
                if i < m {
                    assert(old_self.node_wf(i));
                }
            }
            let mid = first + p;
            // Leaves other than the split one keep their ranges, which miss its range.
            assert forall|j: int| 0 <= j < m && j != node && old_self.is_leaf(j) implies
                self.is_leaf(j) && self.span(j) == old_self.span(j) && (old_self.span(j).1 <= first
                || first + count <= old_self.span(j).0) by {
                assert(old_self.span(node as int).1 <= #[trigger] old_self.span(j).0 || old_self.span(j).1
                    <= old_self.span(node as int).0);
                old_self.lemma_wf_facts(j);
            }
            assert forall|j: int| 0 <= j < m && j != node && self.is_leaf(j) implies old_self.is_leaf(j) by {}
            assert(!self.is_leaf(node as int));
            assert(self.leaves_disjoint()) by {
                assert forall|i: int, j: int|
                    0 <= i < self.nodes_view().len() && 0 <= j < self.nodes_view().len() && i != j
                        && self.is_leaf(i) && self.is_leaf(j) implies #[trigger] self.span(i).1
                        <= #[trigger] self.span(j).0 || self.span(j).1 <= self.span(i).0 by {
                    if i < m && j < m {
                        assert(old_self.span(i).1 <= old_self.span(j).0 || old_self.span(j).1 <= old_self.span(i).0);
                    }
                }
            }
            assert forall|x: int| self.starts@.contains(x) <==> self.is_leaf_start(x) by {
                if self.starts@.contains(x) {
                    if x == mid {
                        assert(self.span(m + 1).0 == x);
                    } else {
                        assert(old_self.starts@.contains(x));
                        assert(old_self.is_leaf_start(x));
                        let j = choose|j: int| 0 <= j < old_self.nodes_view().len() && old_self.is_leaf(j) && #[trigger] old_self.span(j).0 == x;
                        if j == node as int {
                            assert(self.span(m as int).0 == x);
                            assert(self.is_leaf(m as int));
                        } else {
                            assert(self.span(j).0 == x);
                            assert(self.is_leaf(j));
                        }
                    }
                }
                if self.is_leaf_start(x) {
                    let j = choose|j: int| 0 <= j < self.nodes_view().len() && self.is_leaf(j) && #[trigger] self.span(j).0 == x;
                    if j == m {
                        assert(old_self.span(node as int).0 == x);
                        assert(old_self.is_leaf(node as int));
                        assert(old_self.is_leaf_start(x));
                        assert(old_self.starts@.contains(x));
                    } else if j < m {
                        assert(j != node as int);
                        assert(old_self.span(j).0 == x);
                        assert(old_self.is_leaf(j));
                        assert(old_self.is_leaf_start(x));
                        assert(old_self.starts@.contains(x));
                    }
                }
            }
            assert(is_permutation(self.indices@, self.indices@.len()));
            assert(self.spans@.len() == self.nodes@.len());
            assert(self.spans@[0] == (0int, self.indices@.len() as int));
            assert(forall|k: int| 0 <= k < self.lights@.len() ==> self.lights@[k] < self.indices@.len());
        }
        true
    }
}

} // verus!
