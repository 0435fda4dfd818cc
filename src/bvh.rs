//! Topology of the bounding volume hierarchy: an arena of nodes addressed by index, built
//! by splitting the primitives, ordered along the axis of greatest extent, into two halves
//! with the right half never the smaller.
use vstd::prelude::*;

verus! {

broadcast use vstd::seq_lib::group_to_multiset_ensures;

/// The entries `(keys[i], pos[i], prims[i])`: a primitive with its sort key and the place it
/// held in its node's list.
pub open spec fn tagged(keys: Seq<u64>, pos: Seq<usize>, prims: Seq<usize>) -> Seq<(u64, usize, usize)> {
    Seq::new(prims.len(), |i: int| (keys[i], pos[i], prims[i]))
}

/// Entry `a` comes no later than entry `b`: a smaller key, or an equal key and an earlier
/// place.
pub open spec fn entry_le(a: (u64, usize, usize), b: (u64, usize, usize)) -> bool {
    a.0 < b.0 || (a.0 == b.0 && a.1 <= b.1)
}

/// Entries ordered by key, those with equal keys in their original order.
pub open spec fn entries_sorted(s: Seq<(u64, usize, usize)>) -> bool {
    forall|a: int, b: int| 0 <= a < b < s.len() ==> entry_le(#[trigger] s[a], #[trigger] s[b])
}

/// The places `0..n`.
pub open spec fn places(n: nat) -> Seq<usize> {
    Seq::new(n, |i: int| i as usize)
}

proof fn lemma_swap_multiset<A>(s: Seq<A>, i: int, j: int)
    requires
        0 <= i < s.len(),
        0 <= j < s.len(),
        i != j,
    ensures
        s.update(i, s[j]).update(j, s[i]).to_multiset() == s.to_multiset(),
{
    let s1 = s.update(i, s[j]);
    assert(s1[j] == s[j]);
    assert(s1.update(j, s[i]).to_multiset() == s1.to_multiset().insert(s[i]).remove(s[j]));
    assert(s1.to_multiset() == s.to_multiset().insert(s[j]).remove(s[i]));
    assert(s.to_multiset().count(s[i]) > 0);
    assert(s.to_multiset().count(s[j]) > 0);
    assert(s.to_multiset().insert(s[j]).remove(s[i]).insert(s[i]).remove(s[j]) =~= s.to_multiset());
}

/// Orders `prims` by `keys`, primitives with equal keys by their place `pos` (insertion
/// sort), moving each key and place with its primitive.
fn sort_by_keys(prims: &mut Vec<usize>, keys: &mut Vec<u64>, pos: &mut Vec<usize>)
    requires
        old(prims)@.len() == old(keys)@.len(),
        old(prims)@.len() == old(pos)@.len(),
    ensures
        final(prims)@.len() == old(prims)@.len(),
        final(keys)@.len() == old(keys)@.len(),
        final(pos)@.len() == old(pos)@.len(),
        final(prims)@.to_multiset() == old(prims)@.to_multiset(),
        tagged(final(keys)@, final(pos)@, final(prims)@).to_multiset() == tagged(
            old(keys)@,
            old(pos)@,
            old(prims)@,
        ).to_multiset(),
        entries_sorted(tagged(final(keys)@, final(pos)@, final(prims)@)),
{
    let n = prims.len();
    let ghost prims0 = prims@;
    let ghost entries0 = tagged(keys@, pos@, prims@);
    let mut i: usize = 1;
    if n == 0 {
        return;
    }
    while i < n
        invariant
            1 <= i <= n,
            prims@.len() == n,
            keys@.len() == n,
            pos@.len() == n,
            prims@.to_multiset() == prims0.to_multiset(),
            tagged(keys@, pos@, prims@).to_multiset() == entries0.to_multiset(),
            forall|a: int, b: int|
                0 <= a < b < i ==> entry_le(
                    #[trigger] tagged(keys@, pos@, prims@)[a],
                    #[trigger] tagged(keys@, pos@, prims@)[b],
                ),
        decreases n - i,
    {
        let mut j: usize = i;
        while j > 0 && (keys[j - 1] > keys[j] || (keys[j - 1] == keys[j] && pos[j - 1] > pos[j]))
            invariant
                1 <= i < n,
                j <= i,
                prims@.len() == n,
                keys@.len() == n,
                pos@.len() == n,
                prims@.to_multiset() == prims0.to_multiset(),
                tagged(keys@, pos@, prims@).to_multiset() == entries0.to_multiset(),
                forall|a: int, b: int|
                    0 <= a < b <= i && b != j ==> entry_le(
                        #[trigger] tagged(keys@, pos@, prims@)[a],
                        #[trigger] tagged(keys@, pos@, prims@)[b],
                    ),
            decreases j,
        {
            let ghost k_before = keys@;
            let ghost q_before = pos@;
            let ghost p_before = prims@;
            let kj = keys[j];
            let kp = keys[j - 1];
            keys.set(j, kp);
            keys.set(j - 1, kj);
            let qj = pos[j];
            let qp = pos[j - 1];
            pos.set(j, qp);
            pos.set(j - 1, qj);
            let pj = prims[j];
            let pp = prims[j - 1];
            prims.set(j, pp);
            prims.set(j - 1, pj);
            proof {
                lemma_swap_multiset(p_before, j as int, j - 1);
                let z = tagged(k_before, q_before, p_before);
                lemma_swap_multiset(z, j as int, j - 1);
                let t = tagged(keys@, pos@, prims@);
                assert(t =~= z.update(j as int, z[j - 1]).update(j - 1, z[j as int]));
                assert forall|a: int, b: int| 0 <= a < b <= i && b != j - 1 implies entry_le(
                    #[trigger] t[a],
                    #[trigger] t[b],
                ) by {
                    if b == j {
                        if a < j - 1 {
                            assert(entry_le(z[a], z[j - 1]));
                        }
                    } else if a == j {
                        assert(entry_le(z[j - 1], z[b]));
                    } else if a == j - 1 {
                        assert(entry_le(z[j as int], z[b]));
                    } else {
                        assert(entry_le(z[a], z[b]));
                    }
                }
            }
            j = j - 1;
        }
        proof {
            let t = tagged(keys@, pos@, prims@);
            assert forall|a: int, b: int| 0 <= a < b < i + 1 implies entry_le(
                #[trigger] t[a],
                #[trigger] t[b],
            ) by {
                if b == j && a < j - 1 {
                    assert(entry_le(t[a], t[j - 1]));
                }
            }
        }
        i = i + 1;
    }
}

/// A child slot of a node: a primitive, by its index, or another node of the arena.
#[derive(Clone, Copy, PartialEq, Eq, Structural, Debug)]
pub enum Child {
    Prim(usize),
    Node(usize),
}

/// An inner node of the hierarchy; its bounding box encloses those of its two children.
#[derive(Clone, Copy, PartialEq, Eq, Structural, Debug)]
pub struct BvhNode {
    pub left: Child,
    pub right: Child,
}

/// `c` is a primitive or a node stored before index `bound`.
pub open spec fn child_below(c: Child, bound: int) -> bool {
    match c {
        Child::Node(i) => i < bound,
        Child::Prim(_) => true,
    }
}

/// Every node refers only to nodes stored before it, so the arena holds no cycle.
pub open spec fn nodes_wf(nodes: Seq<BvhNode>) -> bool {
    forall|i: int|
        0 <= i < nodes.len() ==> child_below(#[trigger] nodes[i].left, i) && child_below(
            nodes[i].right,
            i,
        )
}

pub open spec fn child_rank(c: Child) -> nat {
    match c {
        Child::Node(i) => (i + 1) as nat,
        Child::Prim(_) => 0,
    }
}

/// The primitives in the subtree of `c`.
pub open spec fn prims_under(nodes: Seq<BvhNode>, c: Child) -> Set<usize>
    decreases child_rank(c),
{
    match c {
        Child::Prim(p) => set![p],
        Child::Node(i) => if i < nodes.len() && child_below(nodes[i as int].left, i as int)
            && child_below(nodes[i as int].right, i as int) {
            prims_under(nodes, nodes[i as int].left) + prims_under(nodes, nodes[i as int].right)
        } else {
            Set::empty()
        },
    }
}

/// The number of leaf slots in the subtree of `c`.
pub open spec fn leaf_count(nodes: Seq<BvhNode>, c: Child) -> nat
    decreases child_rank(c),
{
    match c {
        Child::Prim(_) => 1,
        Child::Node(i) => if i < nodes.len() && child_below(nodes[i as int].left, i as int)
            && child_below(nodes[i as int].right, i as int) {
            leaf_count(nodes, nodes[i as int].left) + leaf_count(nodes, nodes[i as int].right)
        } else {
            0
        },
    }
}

/// At every node of the subtree of `c` the right side holds at least as many leaves as the
/// left side.
pub open spec fn balanced(nodes: Seq<BvhNode>, c: Child) -> bool
    decreases child_rank(c),
{
    match c {
        Child::Prim(_) => true,
        Child::Node(i) => if i < nodes.len() && child_below(nodes[i as int].left, i as int)
            && child_below(nodes[i as int].right, i as int) {
            &&& leaf_count(nodes, nodes[i as int].left) <= leaf_count(nodes, nodes[i as int].right)
            &&& balanced(nodes, nodes[i as int].left)
            &&& balanced(nodes, nodes[i as int].right)
        } else {
            false
        },
    }
}

/// Appending nodes to the arena leaves the subtrees of existing slots as they were.
proof fn lemma_extend(nodes: Seq<BvhNode>, more: Seq<BvhNode>, c: Child)
    requires
        nodes.len() <= more.len(),
        forall|i: int| 0 <= i < nodes.len() ==> more[i] == nodes[i],
        child_below(c, nodes.len() as int),
    ensures
        prims_under(more, c) == prims_under(nodes, c),
        leaf_count(more, c) == leaf_count(nodes, c),
        balanced(more, c) == balanced(nodes, c),
    decreases child_rank(c),
{
    match c {
        Child::Prim(_) => {},
        Child::Node(i) => {
            let n = nodes[i as int];
            assert(more[i as int] == n);
            if child_below(n.left, i as int) && child_below(n.right, i as int) {
                lemma_extend(nodes, more, n.left);
                lemma_extend(nodes, more, n.right);
            }
        },
    }
}

proof fn lemma_multiset_to_set(a: Seq<usize>, b: Seq<usize>)
    requires
        a.to_multiset() == b.to_multiset(),
    ensures
        a.to_set() == b.to_set(),
{
    assert forall|x: usize| a.to_set().contains(x) <==> b.to_set().contains(x) by {
        vstd::seq_lib::to_multiset_contains(a, x);
        vstd::seq_lib::to_multiset_contains(b, x);
    }
    assert(a.to_set() =~= b.to_set());
}

/// `s` is `prims` ordered by split rule: `f` returned keys `k` (one per primitive) for the
/// list `prims`, and `s` holds the entries `(k[i], i, prims[i])` ordered by key, those with
/// equal keys in list order.
pub open spec fn split_order<F: Fn(&Vec<usize>) -> Vec<u64>>(
    prims: Seq<usize>,
    f: F,
    s: Seq<(u64, usize, usize)>,
) -> bool {
    &&& entries_sorted(s)
    &&& exists|v: Vec<usize>, k: Vec<u64>|
        {
            &&& v@ == prims
            &&& #[trigger] f.ensures((&v,), k)
            &&& k@.len() == prims.len()
            &&& s.to_multiset() == tagged(k@, places(prims.len()), prims).to_multiset()
        }
}

/// The primitives of the first `n` entries of `s`.
pub open spec fn first_prims(s: Seq<(u64, usize, usize)>, n: nat) -> Seq<usize> {
    Seq::new(n, |j: int| s[j].2)
}

/// The primitives of the entries of `s` from `n` on, `m` of them.
pub open spec fn rest_prims(s: Seq<(u64, usize, usize)>, n: nat, m: nat) -> Seq<usize> {
    Seq::new(m, |j: int| s[n + j].2)
}

/// `c` is the subtree built over the list `prims` (two or more) with keys from `f`: over two
/// primitives, one node with the first on the left and the second on the right; over `n >= 3`,
/// a node whose left side gets the first `n / 2` primitives in split order (as a bare
/// primitive when that is one) and whose right side gets the rest, each built the same way.
pub open spec fn built<F: Fn(&Vec<usize>) -> Vec<u64>>(
    nodes: Seq<BvhNode>,
    c: Child,
    prims: Seq<usize>,
    f: F,
) -> bool
    decreases prims.len(),
{
    match c {
        Child::Prim(_) => false,
        Child::Node(i) => {
            let n = prims.len();
            let half = n / 2;
            &&& i < nodes.len()
            &&& child_below(nodes[i as int].left, i as int)
            &&& child_below(nodes[i as int].right, i as int)
            &&& if n == 2 {
                nodes[i as int] == BvhNode { left: Child::Prim(prims[0]), right: Child::Prim(prims[1]) }
            } else if n >= 3 {
                &&& leaf_count(nodes, nodes[i as int].left) == half
                &&& exists|s: Seq<(u64, usize, usize)>|
                    {
                        &&& #[trigger] split_order(prims, f, s)
                        &&& s.len() == n
                        &&& half == 1 ==> nodes[i as int].left == Child::Prim(s[0].2)
                        &&& half >= 2 ==> built(nodes, nodes[i as int].left, first_prims(s, half), f)
                        &&& built(nodes, nodes[i as int].right, rest_prims(s, half, (n - half) as nat), f)
                    }
            } else {
                false
            }
        },
    }
}

/// Appending nodes to the arena keeps what was built.
proof fn lemma_extend_built<F: Fn(&Vec<usize>) -> Vec<u64>>(
    nodes: Seq<BvhNode>,
    more: Seq<BvhNode>,
    c: Child,
    prims: Seq<usize>,
    f: F,
)
    requires
        nodes.len() <= more.len(),
        forall|i: int| 0 <= i < nodes.len() ==> more[i] == nodes[i],
        built(nodes, c, prims, f),
    ensures
        built(more, c, prims, f),
    decreases prims.len(),
{
    if let Child::Node(i) = c {
        let node = nodes[i as int];
        assert(more[i as int] == node);
        let n = prims.len();
        let half = n / 2;
        if n >= 3 {
            let s = choose|s: Seq<(u64, usize, usize)>|
                {
                    &&& #[trigger] split_order(prims, f, s)
                    &&& s.len() == n
                    &&& half == 1 ==> node.left == Child::Prim(s[0].2)
                    &&& half >= 2 ==> built(nodes, node.left, first_prims(s, half), f)
                    &&& built(nodes, node.right, rest_prims(s, half, (n - half) as nat), f)
                };
            lemma_extend(nodes, more, node.left);
            if half >= 2 {
                lemma_extend_built(nodes, more, node.left, first_prims(s, half), f);
            }
            lemma_extend_built(nodes, more, node.right, rest_prims(s, half, (n - half) as nat), f);
            assert(split_order(prims, f, s));
        }
    }
}

/// Builds the subtree over `prims` (two or more), appending its nodes to the arena; the
/// subtree's root node is stored last.
fn build<F: Fn(&Vec<usize>) -> Vec<u64>>(prims: Vec<usize>, split_keys: &F, nodes: &mut Vec<BvhNode>) -> (r: Child)
    requires
        prims@.len() >= 2,
        nodes_wf(old(nodes)@),
        old(nodes)@.len() + prims@.len() <= usize::MAX,
        forall|s: &Vec<usize>| split_keys.requires((s,)),
        forall|s: &Vec<usize>, k: Vec<u64>| split_keys.ensures((s,), k) ==> k@.len() == s@.len(),
    ensures
        nodes_wf(final(nodes)@),
        old(nodes)@.len() < final(nodes)@.len() < old(nodes)@.len() + prims@.len(),
        forall|i: int| 0 <= i < old(nodes)@.len() ==> final(nodes)@[i] == old(nodes)@[i],
        r == Child::Node((final(nodes)@.len() - 1) as usize),
        prims_under(final(nodes)@, r) == prims@.to_set(),
        leaf_count(final(nodes)@, r) == prims@.len(),
        balanced(final(nodes)@, r),
        built(final(nodes)@, r, prims@, *split_keys),
    decreases prims@.len(),
{
    let n = prims.len();
    if n == 2 {
        let idx = nodes.len();
        let node = BvhNode { left: Child::Prim(prims[0]), right: Child::Prim(prims[1]) };
        nodes.push(node);
        proof {
            assert(nodes@[idx as int] == node);
            assert(prims_under(nodes@, node.left) == set![prims@[0]]);
            assert(prims_under(nodes@, node.right) == set![prims@[1]]);
            assert(leaf_count(nodes@, node.left) == 1);
            assert(leaf_count(nodes@, node.right) == 1);
            assert(balanced(nodes@, node.left));
            assert(balanced(nodes@, node.right));
            assert(prims@.to_set() =~= set![prims@[0]] + set![prims@[1]]) by {
                assert(prims@ =~= seq![prims@[0], prims@[1]]);
                vstd::seq_lib::seq_to_set_is_finite(prims@);
            }
        }
        return Child::Node(idx);
    }
    let ghost list = prims@;
    let ghost v0 = prims;
    let mut sorted = prims;
    let mut keys = split_keys(&sorted);
    let ghost k0 = keys;
    let mut pos: Vec<usize> = Vec::new();
    let mut p: usize = 0;
    while p < n
        invariant
            p <= n,
            pos@ == places(p as nat),
        decreases n - p,
    {
        pos.push(p);
        p = p + 1;
        assert(pos@ =~= places(p as nat));
    }
    proof {
        assert(tagged(keys@, pos@, sorted@) == tagged(k0@, places(n as nat), list));
    }
    sort_by_keys(&mut sorted, &mut keys, &mut pos);
    let ghost s = tagged(keys@, pos@, sorted@);
    proof {
        lemma_multiset_to_set(sorted@, list);
        assert(split_order(list, *split_keys, s)) by {
            assert(f_witness(list, *split_keys, v0, k0, s));
        }
    }
    let half = n / 2;
    let ghost all = sorted@;
    let right_items = sorted.split_off(half);
    let left_items = sorted;
    proof {
        assert(left_items@ =~= first_prims(s, half as nat));
        assert(right_items@ =~= rest_prims(s, half as nat, (n - half) as nat));
        assert(all =~= left_items@ + right_items@);
        assert(all.to_set() =~= left_items@.to_set() + right_items@.to_set()) by {
            assert forall|x: usize| all.to_set().contains(x) <==> (left_items@.to_set()
                + right_items@.to_set()).contains(x) by {
                if all.contains(x) {
                    let k = choose|k: int| 0 <= k < all.len() && all[k] == x;
                    if k < half {
                        assert(left_items@[k] == x);
                    } else {
                        assert(right_items@[k - half] == x);
                    }
                }
                if left_items@.contains(x) {
                    let k = choose|k: int| 0 <= k < left_items@.len() && left_items@[k] == x;
                    assert(all[k] == x);
                }
                if right_items@.contains(x) {
                    let k = choose|k: int| 0 <= k < right_items@.len() && right_items@[k] == x;
                    assert(all[k + half] == x);
                }
            }
        }
    }
    let ghost left_list = left_items@;
    let ghost right_list = right_items@;
    let left = if half == 1 {
        Child::Prim(left_items[0])
    } else {
        build(left_items, split_keys, nodes)
    };
    let ghost nodes1 = nodes@;
    proof {
        if half == 1 {
            assert(left_list =~= seq![left_list[0]]);
            assert(left_list.to_set() =~= set![left_list[0]]) by {
                assert forall|x: usize| left_list.to_set().contains(x) <==> x == left_list[0] by {
                    if x == left_list[0] {
                        assert(left_list[0] == x);
                    }
                }
            }
        }
    }
    let right = build(right_items, split_keys, nodes);
    proof {
        lemma_extend(nodes1, nodes@, left);
        if half >= 2 {
            lemma_extend_built(nodes1, nodes@, left, left_list, *split_keys);
        }
    }
    let idx = nodes.len();
    let node = BvhNode { left, right };
    let ghost nodes2 = nodes@;
    nodes.push(node);
    proof {
        let fin = nodes@;
        let before = nodes2;
        assert(before.len() == idx);
        assert forall|i: int| 0 <= i < before.len() implies fin[i] == before[i] by {}
        lemma_extend(before, fin, left);
        lemma_extend(before, fin, right);
        if half >= 2 {
            lemma_extend_built(before, fin, left, left_list, *split_keys);
        }
        lemma_extend_built(before, fin, right, right_list, *split_keys);
        assert(fin[idx as int] == node);
        if half == 1 {
            assert(prims_under(fin, left) == set![left_list[0]]);
            assert(leaf_count(fin, left) == 1);
            assert(balanced(fin, left));
        }
        assert forall|i: int| 0 <= i < fin.len() implies child_below(#[trigger] fin[i].left, i)
            && child_below(fin[i].right, i) by {
            if i < idx {
                assert(fin[i] == before[i]);
            }
        }
        assert(built(fin, Child::Node(idx), list, *split_keys)) by {
            assert(s[0].2 == left_list[0]);
            assert(split_order(list, *split_keys, s));
        }
    }
    Child::Node(idx)
}

spec fn f_witness<F: Fn(&Vec<usize>) -> Vec<u64>>(
    prims: Seq<usize>,
    f: F,
    v: Vec<usize>,
    k: Vec<u64>,
    s: Seq<(u64, usize, usize)>,
) -> bool {
    &&& v@ == prims
    &&& f.ensures((&v,), k)
    &&& k@.len() == prims.len()
    &&& s.to_multiset() == tagged(k@, places(prims.len()), prims).to_multiset()
}

/// A bounding volume hierarchy over primitives `0..count`, stored as an arena of nodes.
pub struct Bvh {
    nodes: Vec<BvhNode>,
    root: Child,
}

impl Bvh {
    pub closed spec fn spec_nodes(&self) -> Seq<BvhNode> {
        self.nodes@
    }

    pub closed spec fn spec_root(&self) -> Child {
        self.root
    }

    pub open spec fn wf(&self) -> bool {
        &&& nodes_wf(self.spec_nodes())
        &&& child_below(self.spec_root(), self.spec_nodes().len() as int)
    }

    /// The hierarchy over primitives `0..count`. At each node over three or more
    /// primitives, `split_keys` gives each of them its sort key (its bound's minimum along
    /// the axis on which their enclosing box is longest; one key per primitive); they are
    /// ordered by key, equal keys keeping their order, and the first `n / 2` go left. Two
    /// primitives make one node, the first on the left. A single primitive sits on both
    /// sides of the root.
    pub fn from_slice<F: Fn(&Vec<usize>) -> Vec<u64>>(count: usize, split_keys: F) -> (r: Bvh)
        requires
            count >= 1,
            forall|s: &Vec<usize>| split_keys.requires((s,)),
            forall|s: &Vec<usize>, k: Vec<u64>| split_keys.ensures((s,), k) ==> k@.len() == s@.len(),
        ensures
            r.wf(),
            r.spec_root() is Node,
            prims_under(r.spec_nodes(), r.spec_root()) == Set::new(|p: usize| p < count),
            count >= 2 ==> leaf_count(r.spec_nodes(), r.spec_root()) == count,
            balanced(r.spec_nodes(), r.spec_root()),
            count == 1 ==> r.spec_nodes() == seq![BvhNode { left: Child::Prim(0), right: Child::Prim(0) }]
                && r.spec_root() == Child::Node(0),
            count >= 2 ==> built(r.spec_nodes(), r.spec_root(), places(count as nat), split_keys),
    {
        let mut nodes: Vec<BvhNode> = Vec::new();
        if count == 1 {
            let node = BvhNode { left: Child::Prim(0), right: Child::Prim(0) };
            nodes.push(node);
            let r = Bvh { nodes, root: Child::Node(0) };
            proof {
                assert(r.nodes@[0] == node);
                assert(prims_under(r.nodes@, node.left) == set![0usize]);
                assert(leaf_count(r.nodes@, node.left) == 1);
                assert(balanced(r.nodes@, node.left));
                assert(set![0usize] + set![0usize] =~= Set::new(|p: usize| p < count));
                assert(r.nodes@ =~= seq![node]);
            }
            return r;
        }
        let mut prims: Vec<usize> = Vec::new();
        let mut i: usize = 0;
        while i < count
            invariant
                i <= count,
                prims@ == places(i as nat),
            decreases count - i,
        {
            prims.push(i);
            i = i + 1;
            assert(prims@ =~= places(i as nat));
        }
        proof {
            assert forall|p: usize| prims@.to_set().contains(p) <==> p < count by {
                if p < count {
                    assert(prims@[p as int] == p);
                }
            }
            assert(prims@.to_set() =~= Set::new(|p: usize| p < count));
        }
        let root = build(prims, &split_keys, &mut nodes);
        Bvh { nodes, root }
    }

    /// The root slot.
    pub fn root(&self) -> (r: Child)
        ensures
            r == self.spec_root(),
    {
        self.root
    }

    /// The number of nodes in the arena.
    pub fn node_count(&self) -> (r: usize)
        ensures
            r == self.spec_nodes().len(),
    {
        self.nodes.len()
    }

    /// Node `i` of the arena.
    pub fn node(&self, i: usize) -> (r: BvhNode)
        requires
            i < self.spec_nodes().len(),
        ensures
            r == self.spec_nodes()[i as int],
    {
        self.nodes[i]
    }
}

} // verus!
