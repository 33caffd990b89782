use crate::bbox::{lemma_contains_transitive, lemma_intersects_grows, lemma_union_contains, BoundingBox};
use crate::error::{fails, gives, Error};
use crate::wire::{
    get_varint, get_word, has_at, items_bytes, lemma_has_at_split, lemma_items_push,
    lemma_list_round_trip, lemma_parse_items_sticky, lemma_varint_round_trip, lemma_word_len,
    lemma_word_round_trip, list_bytes, parse_items, parse_varint, parse_word, put_varint,
    put_word, varint_bytes, word_bytes,
};
use vstd::prelude::*;

verus! {

/// How many children a node of the index has at most.
pub const BRANCHING: usize = 16;

/// One node of the index: a box, and the place of what it stands for. For a
/// leaf that is the byte offset of its feature record within the feature
/// section; for any other node it is the position, in the array of nodes, of
/// its first child.
#[derive(Clone, Copy, Debug, PartialEq, Eq, Structural)]
pub struct Node {
    pub bbox: BoundingBox,
    pub offset: u64,
}

// ---------------------------------------------------------------------------
// Tiers: the nodes are stored tier by tier, the leaves first and the root
// last; each tier has one node for every sixteen nodes, or part of sixteen,
// of the tier below.
// ---------------------------------------------------------------------------

/// The number of groups of sixteen that `m` nodes make.
pub open spec fn ceil16(m: int) -> int {
    (m + 15) / 16
}

/// Given where the tiers so far start and where the last of them, which has
/// `m` nodes, ends: the same for all tiers up to the root.
pub open spec fn tiers_from(starts: Seq<int>, m: int) -> Seq<int>
    decreases m,
{
    let next = starts.push(starts.last() + ceil16(m));
    if m <= 16 {
        next
    } else {
        tiers_from(next, ceil16(m))
    }
}

/// Where each tier of the index over `n` leaves starts, and last where the
/// array of nodes ends. Without leaves there is no node and no tier.
pub open spec fn tiers(n: nat) -> Seq<int> {
    if n == 0 {
        seq![0int]
    } else {
        tiers_from(seq![0int, n as int], n as int)
    }
}

/// How many nodes the index over `n` leaves has.
pub open spec fn total_nodes(n: nat) -> int {
    tiers(n).last()
}

/// The number of nodes of tier `k`.
pub open spec fn tier_len(t: Seq<int>, k: int) -> int {
    t[k + 1] - t[k]
}

/// The number of tiers.
pub open spec fn tier_count(t: Seq<int>) -> int {
    t.len() - 1
}

/// Tier `k` has one node for every sixteen, or part of sixteen, of the tier
/// below it.
pub open spec fn tier_grows(t: Seq<int>, k: int) -> bool {
    tier_len(t, k) == ceil16(tier_len(t, k - 1))
}

/// Each tier has a node, and one node for every sixteen, or part of sixteen,
/// of the tier below.
pub open spec fn chained(t: Seq<int>) -> bool {
    &&& t.len() >= 2
    &&& t[0] == 0
    &&& forall|k: int| 0 <= k < t.len() - 1 ==> #[trigger] tier_len(t, k) >= 1
    &&& forall|k: int| 1 <= k < t.len() - 1 ==> #[trigger] tier_grows(t, k)
}

/// The starts as mathematical integers.
pub open spec fn as_ints(v: Seq<usize>) -> Seq<int> {
    Seq::new(v.len(), |i: int| v[i] as int)
}

/// A tier above the last keeps the tiers chained.
pub proof fn lemma_chained_push(t: Seq<int>)
    requires
        chained(t),
    ensures
        chained(t.push(t.last() + ceil16(tier_len(t, t.len() - 2)))),
{
    let top = t.len() - 2;
    let next = t.push(t.last() + ceil16(tier_len(t, top)));
    assert(tier_len(t, top) >= 1);
    assert forall|k: int| 0 <= k < next.len() - 1 implies #[trigger] tier_len(next, k) >= 1 by {
        if k < t.len() - 1 {
            assert(tier_len(next, k) == tier_len(t, k));
        }
    }
    assert forall|k: int| 1 <= k < next.len() - 1 implies #[trigger] tier_grows(next, k) by {
        if k < t.len() - 1 {
            assert(tier_grows(t, k));
            assert(tier_len(next, k) == tier_len(t, k));
            assert(tier_len(next, k - 1) == tier_len(t, k - 1));
        } else {
            assert(tier_len(next, k - 1) == tier_len(t, top));
        }
    }
}

/// The tiers up to the root are chained, keep the tiers given, and end in one
/// node.
pub proof fn lemma_tiers_from_shape(starts: Seq<int>, m: int)
    requires
        chained(starts),
        m == tier_len(starts, starts.len() - 2),
    ensures
        chained(tiers_from(starts, m)),
        tiers_from(starts, m).len() > starts.len(),
        forall|i: int| 0 <= i < starts.len() ==> tiers_from(starts, m)[i] == starts[i],
        tier_len(tiers_from(starts, m), tier_count(tiers_from(starts, m)) - 1) == 1,
    decreases m,
{
    assert(tier_len(starts, starts.len() - 2) >= 1);
    let next = starts.push(starts.last() + ceil16(m));
    lemma_chained_push(starts);
    if m > 16 {
        lemma_tiers_from_shape(next, ceil16(m));
    }
    let all = tiers_from(starts, m);
    assert forall|i: int| 0 <= i < starts.len() implies all[i] == starts[i] by {
        assert(next[i] == starts[i]);
    }
}

/// The shape of the index over `n` leaves: the leaves are the first tier,
/// there is a tier above them, and the last tier is the root alone.
pub proof fn lemma_tiers_shape(n: nat)
    requires
        n >= 1,
    ensures
        chained(tiers(n)),
        tiers(n).len() >= 3,
        tiers(n)[1] == n,
        tier_len(tiers(n), tier_count(tiers(n)) - 1) == 1,
{
    let base = seq![0int, n as int];
    assert(chained(base)) by {
        assert forall|k: int| 0 <= k < base.len() - 1 implies #[trigger] tier_len(base, k)
            >= 1 by {}
    }
    lemma_tiers_from_shape(base, n as int);
}

/// A tier starts no earlier than the tiers below it.
pub proof fn lemma_chained_monotone(t: Seq<int>, i: int, j: int)
    requires
        chained(t),
        0 <= i <= j < t.len(),
    ensures
        t[i] <= t[j],
        0 <= t[i],
    decreases j - i,
{
    if i < j {
        lemma_chained_monotone(t, i, j - 1);
        assert(tier_len(t, j - 1) >= 1);
    }
    if i > 0 {
        lemma_chained_zero(t, i);
    }
}

proof fn lemma_chained_zero(t: Seq<int>, i: int)
    requires
        chained(t),
        0 <= i < t.len(),
    ensures
        0 <= t[i],
    decreases i,
{
    if i > 0 {
        lemma_chained_zero(t, i - 1);
        assert(tier_len(t, i - 1) >= 1);
    }
}

/// The children of the node at place `p` of tier `k` are places of the tier
/// below.
pub proof fn lemma_children_in_tier(t: Seq<int>, k: int, p: int)
    requires
        chained(t),
        1 <= k < t.len() - 1,
        0 <= p < tier_len(t, k),
    ensures
        16 * p < tier_len(t, k - 1),
{
    assert(tier_grows(t, k));
}

/// The parent of a node of tier `k - 1` is a place of tier `k`.
pub proof fn lemma_parent_in_tier(t: Seq<int>, k: int, c: int)
    requires
        chained(t),
        1 <= k < t.len() - 1,
        0 <= c < tier_len(t, k - 1),
    ensures
        0 <= c / 16 < tier_len(t, k),
{
    assert(tier_grows(t, k));
}

// ---------------------------------------------------------------------------
// What makes the array a packed tree
// ---------------------------------------------------------------------------

/// The union of the boxes of the nodes from `lo` up to `hi`, in order.
pub open spec fn cover(nodes: Seq<Node>, lo: int, hi: int) -> BoundingBox
    decreases hi - lo,
{
    if hi <= lo + 1 {
        nodes[lo].bbox
    } else {
        cover(nodes, lo, hi - 1).spec_union(nodes[hi - 1].bbox)
    }
}

/// Where the children of the `p`-th parent end, the tier of the children
/// being the nodes from `lo` up to `hi`.
pub open spec fn children_end(lo: int, hi: int, p: int) -> int {
    if lo + 16 * p + 16 <= hi {
        lo + 16 * p + 16
    } else {
        hi
    }
}

/// The `p`-th node above the tier from `lo` up to `hi` points at its first
/// child, and its box is the union of the boxes of its children.
pub open spec fn parent_holds(nodes: Seq<Node>, lo: int, hi: int, p: int) -> bool {
    &&& nodes[hi + p].offset == lo + 16 * p
    &&& nodes[hi + p].bbox == cover(nodes, lo + 16 * p, children_end(lo, hi, p))
}

/// The node at place `p` of tier `k` points at its first child and has the union
/// of its children's boxes as its box.
pub open spec fn parent_ok(nodes: Seq<Node>, t: Seq<int>, k: int, p: int) -> bool {
    parent_holds(nodes, t[k - 1], t[k], p)
}

/// Every node above the leaves points at its first child and has the union
/// of its children's boxes as its box.
pub open spec fn packed(nodes: Seq<Node>, t: Seq<int>) -> bool {
    forall|k: int, p: int|
        1 <= k < t.len() - 1 && 0 <= p < tier_len(t, k) ==> #[trigger] parent_ok(nodes, t, k, p)
}

/// The union of a run of boxes depends on the nodes of the run alone.
pub proof fn lemma_cover_stable(a: Seq<Node>, b: Seq<Node>, lo: int, hi: int)
    requires
        0 <= lo < hi,
        hi <= a.len(),
        hi <= b.len(),
        forall|i: int| lo <= i < hi ==> a[i] == b[i],
    ensures
        cover(a, lo, hi) == cover(b, lo, hi),
    decreases hi - lo,
{
    if hi > lo + 1 {
        lemma_cover_stable(a, b, lo, hi - 1);
    }
}

/// The union of a run of boxes holds each of them.
pub proof fn lemma_cover_contains(nodes: Seq<Node>, lo: int, hi: int, i: int)
    requires
        lo <= i < hi,
    ensures
        cover(nodes, lo, hi).spec_contains(nodes[i].bbox),
    decreases hi - lo,
{
    if hi > lo + 1 {
        let rest = cover(nodes, lo, hi - 1);
        lemma_union_contains(rest, nodes[hi - 1].bbox);
        if i < hi - 1 {
            lemma_cover_contains(nodes, lo, hi - 1, i);
            lemma_contains_transitive(cover(nodes, lo, hi), rest, nodes[i].bbox);
        }
    } else {
        lemma_contains_transitive(nodes[lo].bbox, nodes[lo].bbox, nodes[lo].bbox);
    }
}

proof fn lemma_parent_stable(a: Seq<Node>, b: Seq<Node>, lo: int, hi: int, p: int)
    requires
        0 <= lo,
        0 <= p,
        lo + 16 * p < hi,
        hi + p < a.len(),
        a.len() <= b.len(),
        forall|i: int| 0 <= i < a.len() ==> a[i] == b[i],
        parent_holds(a, lo, hi, p),
    ensures
        parent_holds(b, lo, hi, p),
{
    lemma_cover_stable(a, b, lo + 16 * p, children_end(lo, hi, p));
}

proof fn lemma_packed_stable(a: Seq<Node>, b: Seq<Node>, t: Seq<int>)
    requires
        chained(t),
        t.last() <= a.len(),
        a.len() <= b.len(),
        forall|i: int| 0 <= i < a.len() ==> a[i] == b[i],
        packed(a, t),
    ensures
        packed(b, t),
{
    assert forall|k: int, p: int| 1 <= k < t.len() - 1 && 0 <= p < tier_len(t, k) implies #[trigger] parent_ok(
        b,
        t,
        k,
        p,
    ) by {
        assert(parent_ok(a, t, k, p));
        lemma_children_in_tier(t, k, p);
        lemma_chained_monotone(t, 0, k - 1);
        lemma_chained_monotone(t, k + 1, t.len() - 1);
        lemma_parent_stable(a, b, t[k - 1], t[k], p);
    }
}

// ---------------------------------------------------------------------------
// Searching
// ---------------------------------------------------------------------------

/// The node at place `p` of tier `k`.
pub open spec fn node_at(nodes: Seq<Node>, t: Seq<int>, k: int, p: int) -> Node {
    nodes[t[k] + p]
}

/// The place, in tier `k`, of the node above leaf `i`.
pub open spec fn ancestor(i: int, k: int) -> int
    decreases k,
{
    if k <= 0 {
        i
    } else {
        ancestor(i, k - 1) / 16
    }
}

/// A search for `q` that starts at the root and leaves out every subtree
/// whose box does not meet `q` comes to the node at place `p` of tier `k` and
/// finds that its box meets `q`.
pub open spec fn live(nodes: Seq<Node>, t: Seq<int>, k: int, p: int, q: BoundingBox) -> bool
    decreases t.len() - k,
{
    &&& node_at(nodes, t, k, p).bbox.spec_intersects(q)
    &&& if 0 <= k && k + 2 < t.len() {
        live(nodes, t, k + 1, p / 16, q)
    } else {
        true
    }
}

/// Each place is greater than the one before it.
pub open spec fn strictly_increasing(r: Seq<usize>) -> bool {
    forall|a: int, b: int| 0 <= a < b < r.len() ==> r[a] < r[b]
}

/// `p` is one of the places that `r` lists.
pub open spec fn listed(r: Seq<usize>, p: int) -> bool {
    exists|j: int| 0 <= j < r.len() && #[trigger] r[j] == p
}

/// `r` lists the places of tier `k` that the search comes to and finds to
/// meet `q`: all of them, each once, in rising order.
pub open spec fn reached(nodes: Seq<Node>, t: Seq<int>, k: int, q: BoundingBox, r: Seq<usize>) -> bool {
    &&& strictly_increasing(r)
    &&& forall|j: int|
        0 <= j < r.len() ==> (#[trigger] r[j]) < tier_len(t, k) && live(nodes, t, k, r[j] as int, q)
    &&& forall|p: int| 0 <= p < tier_len(t, k) && #[trigger] live(nodes, t, k, p, q) ==> listed(r, p)
}

/// `r` lists the places of the boxes among `leaves` that meet `q`: all of
/// them, each once, in rising order.
pub open spec fn filtered(leaves: Seq<Node>, q: BoundingBox, r: Seq<usize>) -> bool {
    &&& strictly_increasing(r)
    &&& forall|j: int|
        0 <= j < r.len() ==> (#[trigger] r[j]) < leaves.len() && leaves[r[j] as int].bbox.spec_intersects(q)
    &&& forall|i: int|
        0 <= i < leaves.len() && (#[trigger] leaves[i]).bbox.spec_intersects(q) ==> listed(r, i)
}

/// Two rising lists of the same places are the same list.
pub proof fn lemma_same_members(a: Seq<usize>, b: Seq<usize>)
    requires
        strictly_increasing(a),
        strictly_increasing(b),
        forall|j: int| 0 <= j < a.len() ==> listed(b, #[trigger] a[j] as int),
        forall|j: int| 0 <= j < b.len() ==> listed(a, #[trigger] b[j] as int),
    ensures
        a == b,
    decreases a.len(),
{
    if a.len() == 0 {
        if b.len() > 0 {
            assert(listed(a, b[0] as int));
        }
        assert(a =~= b);
    } else {
        assert(listed(b, a[0] as int));
        let x = a.last();
        let y = b.last();
        assert(listed(b, a[a.len() - 1] as int));
        assert(listed(a, b[b.len() - 1] as int));
        let jx = choose|j: int| 0 <= j < b.len() && #[trigger] b[j] == x as int;
        let jy = choose|j: int| 0 <= j < a.len() && #[trigger] a[j] == y as int;
        assert(x <= y) by {
            if jx < b.len() - 1 {
                assert(b[jx] < b[b.len() - 1]);
            }
        }
        assert(y <= x) by {
            if jy < a.len() - 1 {
                assert(a[jy] < a[a.len() - 1]);
            }
        }
        let a0 = a.drop_last();
        let b0 = b.drop_last();
        assert forall|j: int| 0 <= j < a0.len() implies listed(b0, #[trigger] a0[j] as int) by {
            assert(a0[j] == a[j]);
            assert(a[j] < a[a.len() - 1]);
            assert(listed(b, a[j] as int));
            let w = choose|w: int| 0 <= w < b.len() && #[trigger] b[w] == a[j] as int;
            assert(w < b.len() - 1);
            assert(b0[w] == a0[j] as int);
        }
        assert forall|j: int| 0 <= j < b0.len() implies listed(a0, #[trigger] b0[j] as int) by {
            assert(b0[j] == b[j]);
            assert(b[j] < b[b.len() - 1]);
            assert(listed(a, b[j] as int));
            let w = choose|w: int| 0 <= w < a.len() && #[trigger] a[w] == b[j] as int;
            assert(w < a.len() - 1);
            assert(a0[w] == b0[j] as int);
        }
        lemma_same_members(a0, b0);
        assert(a =~= a0.push(x));
        assert(b =~= b0.push(y));
    }
}

/// In a packed tree the box of a leaf lies within the box of the node above
/// it in any tier.
pub proof fn lemma_ancestor_contains(nodes: Seq<Node>, t: Seq<int>, i: int, k: int)
    requires
        chained(t),
        packed(nodes, t),
        0 <= i < tier_len(t, 0),
        0 <= k < t.len() - 1,
    ensures
        0 <= ancestor(i, k) < tier_len(t, k),
        node_at(nodes, t, k, ancestor(i, k)).bbox.spec_contains(node_at(nodes, t, 0, i).bbox),
    decreases k,
{
    let leaf = node_at(nodes, t, 0, i).bbox;
    if k == 0 {
        lemma_contains_transitive(leaf, leaf, leaf);
    } else {
        lemma_ancestor_contains(nodes, t, i, k - 1);
        let a = ancestor(i, k - 1);
        let p = a / 16;
        lemma_parent_in_tier(t, k, a);
        assert(parent_ok(nodes, t, k, p));
        lemma_cover_contains(
            nodes,
            t[k - 1] + 16 * p,
            children_end(t[k - 1], t[k], p),
            t[k - 1] + a,
        );
        lemma_contains_transitive(
            node_at(nodes, t, k, p).bbox,
            node_at(nodes, t, k - 1, a).bbox,
            leaf,
        );
    }
}

/// In a packed tree the search comes to every node above a leaf whose box
/// meets `q`.
pub proof fn lemma_live_above_leaf(nodes: Seq<Node>, t: Seq<int>, i: int, k: int, q: BoundingBox)
    requires
        chained(t),
        packed(nodes, t),
        0 <= i < tier_len(t, 0),
        0 <= k < t.len() - 1,
        node_at(nodes, t, 0, i).bbox.spec_intersects(q),
    ensures
        live(nodes, t, k, ancestor(i, k), q),
    decreases t.len() - k,
{
    lemma_ancestor_contains(nodes, t, i, k);
    lemma_intersects_grows(
        node_at(nodes, t, k, ancestor(i, k)).bbox,
        node_at(nodes, t, 0, i).bbox,
        q,
    );
    if k + 2 < t.len() {
        lemma_live_above_leaf(nodes, t, i, k + 1, q);
        assert(ancestor(i, k + 1) == ancestor(i, k) / 16);
    }
}

/// No search comes to a node whose parent is not among the places that it
/// came to in the tier above.
proof fn lemma_gap_dead(
    nodes: Seq<Node>,
    t: Seq<int>,
    k: int,
    q: BoundingBox,
    frontier: Seq<usize>,
    j: int,
    c: int,
)
    requires
        chained(t),
        1 <= k < t.len() - 1,
        reached(nodes, t, k, q, frontier),
        0 <= j <= frontier.len(),
        0 <= c < tier_len(t, k - 1),
        j < frontier.len() ==> c < 16 * frontier[j],
        j > 0 ==> c >= 16 * frontier[j - 1] + 16,
    ensures
        !live(nodes, t, k - 1, c, q),
{
    let x = c / 16;
    lemma_parent_in_tier(t, k, c);
    if live(nodes, t, k - 1, c, q) {
        assert(live(nodes, t, k, x, q));
        assert(listed(frontier, x));
        let w = choose|w: int| 0 <= w < frontier.len() && #[trigger] frontier[w] == x;
        if w >= j {
            if w > j {
                assert(frontier[j] < frontier[w]);
            }
        } else {
            if w < j - 1 {
                assert(frontier[w] < frontier[j - 1]);
            }
        }
    }
}

// ---------------------------------------------------------------------------
// The index
// ---------------------------------------------------------------------------

/// A packed bounding-box tree over the features of a file, in the order of
/// the features.
#[derive(Debug)]
pub struct SpatialIndex {
    nodes: Vec<Node>,
    starts: Vec<usize>,
}

impl View for SpatialIndex {
    type V = Seq<Node>;

    /// All nodes, tier by tier, the leaves first.
    closed spec fn view(&self) -> Seq<Node> {
        self.nodes@
    }
}

impl SpatialIndex {
    /// Where each tier starts, and last where the nodes end.
    pub closed spec fn tier_starts(&self) -> Seq<int> {
        as_ints(self.starts@)
    }

    /// The number of leaves, one for each feature.
    pub open spec fn leaf_count(&self) -> nat {
        if self.tier_starts().len() >= 2 {
            self.tier_starts()[1] as nat
        } else {
            0
        }
    }

    /// The tiers are those of an index over `leaf_count()` leaves, and the
    /// nodes are as many as they ask for.
    pub open spec fn well_formed(&self) -> bool {
        &&& self.tier_starts() == tiers(self.leaf_count())
        &&& self@.len() == self.tier_starts().last()
    }

    /// The leaves, in the order of the features.
    pub open spec fn leaves(&self) -> Seq<Node> {
        self@.take(self.leaf_count() as int)
    }

    /// Every node above the leaves has the union of its children's boxes as
    /// its box and points at its first child.
    pub open spec fn is_packed(&self) -> bool {
        packed(self@, self.tier_starts())
    }

    /// Builds the index over `leaves`, which stay in their order: every
    /// sixteen nodes of a tier, and what is left of them, get a parent in the
    /// tier above, until a tier is a single node, the root.
    pub fn build(leaves: Vec<Node>) -> (idx: SpatialIndex)
        ensures
            idx.well_formed(),
            idx.is_packed(),
            idx.leaf_count() == leaves@.len(),
            idx.leaves() == leaves@,
    {
        let n: usize = leaves.len();
        let ghost given = leaves@;
        let mut nodes: Vec<Node> = leaves;
        let mut starts: Vec<usize> = Vec::new();
        starts.push(0);
        if n == 0 {
            proof {
                assert(as_ints(starts@) =~= seq![0int]);
                assert(nodes@.take(0) =~= given);
            }
            return SpatialIndex { nodes, starts };
        }
        starts.push(n);
        let mut lo: usize = 0;
        let mut hi: usize = n;
        let mut done: bool = false;
        proof {
            let t = as_ints(starts@);
            assert(t =~= seq![0int, n as int]);
            assert(chained(t)) by {
                assert forall|k: int| 0 <= k < t.len() - 1 implies #[trigger] tier_len(t, k)
                    >= 1 by {}
            }
            assert(nodes@.take(n as int) =~= given);
        }
        while !done
            invariant
                n >= 1,
                n == given.len(),
                nodes@.len() >= n,
                nodes@.take(n as int) == given,
                starts@.len() >= 2,
                chained(as_ints(starts@)),
                as_ints(starts@)[1] == n,
                as_ints(starts@).last() == nodes@.len(),
                packed(nodes@, as_ints(starts@)),
                !done ==> {
                    &&& starts@[starts@.len() - 2] == lo
                    &&& starts@[starts@.len() - 1] == hi
                    &&& lo < hi
                    &&& tiers(n as nat) == tiers_from(as_ints(starts@), hi - lo)
                },
                done ==> as_ints(starts@) == tiers(n as nat),
            decreases
                    (if done {
                        0int
                    } else {
                        1 + hi - lo
                    }),
        {
            let ghost t = as_ints(starts@);
            let m: usize = hi - lo;
            let cnt: usize = (m - 1) / 16 + 1;
            assert(cnt == ceil16(m as int));
            proof {
                lemma_chained_monotone(t, 0, t.len() - 2);
            }
            let mut p: usize = 0;
            while p < cnt
                invariant
                    p <= cnt,
                    cnt == ceil16(hi - lo),
                    0 <= lo < hi,
                    nodes@.len() == hi + p,
                    n <= hi,
                    nodes@.take(n as int) == given,
                    t == as_ints(starts@),
                    chained(t),
                    t.last() == hi,
                    packed(nodes@, t),
                    forall|q: int| 0 <= q < p ==> #[trigger] parent_holds(nodes@, lo as int, hi as int, q),
                decreases cnt - p,
            {
                let first: usize = lo + 16 * p;
                let last: usize = if hi - first > 16 {
                    first + 16
                } else {
                    hi
                };
                assert(last == children_end(lo as int, hi as int, p as int));
                let mut bb: BoundingBox = nodes[first].bbox;
                let mut c: usize = first + 1;
                while c < last
                    invariant
                        first < c <= last,
                        last <= nodes@.len(),
                        bb == cover(nodes@, first as int, c as int),
                    decreases last - c,
                {
                    bb = bb.union(nodes[c].bbox);
                    c = c + 1;
                }
                let ghost prev = nodes@;
                nodes.push(Node { bbox: bb, offset: first as u64 });
                proof {
                    let cur = nodes@;
                    lemma_cover_stable(prev, cur, first as int, last as int);
                    lemma_packed_stable(prev, cur, t);
                    assert forall|q: int| 0 <= q < p + 1 implies #[trigger] parent_holds(
                        cur,
                        lo as int,
                        hi as int,
                        q,
                    ) by {
                        if q < p {
                            lemma_parent_stable(prev, cur, lo as int, hi as int, q);
                        }
                    }
                    assert(cur.take(n as int) =~= prev.take(n as int));
                }
                p = p + 1;
            }
            let ghost before = starts@;
            starts.push(nodes.len());
            proof {
                let t2 = as_ints(starts@);
                assert(t2 =~= t.push(t.last() + ceil16(m as int)));
                assert(tier_len(t, t.len() - 2) == m);
                lemma_chained_push(t);
                assert(packed(nodes@, t2)) by {
                    assert forall|k: int, q: int|
                        1 <= k < t2.len() - 1 && 0 <= q < tier_len(t2, k) implies #[trigger] parent_ok(
                        nodes@,
                        t2,
                        k,
                        q,
                    ) by {
                        if k < t.len() - 1 {
                            assert(tier_len(t2, k) == tier_len(t, k));
                            assert(parent_ok(nodes@, t, k, q));
                        } else {
                            assert(parent_holds(nodes@, lo as int, hi as int, q));
                        }
                    }
                }
            }
            if cnt == 1 {
                done = true;
            } else {
                lo = hi;
                hi = nodes.len();
            }
        }
        SpatialIndex { nodes, starts }
    }
    /// What follows from `well_formed` and `is_packed`: the nodes are those
    /// of the packed tree over the leaves.
    pub proof fn lemma_well_formed(&self)
        requires
            self.well_formed(),
        ensures
            self@.len() == total_nodes(self.leaf_count()),
            self@.len() <= usize::MAX,
            self.tier_starts() == tiers(self.leaf_count()),
    {
    }

    /// What `query` returns for `q`: nothing where the index has no leaf,
    /// else the leaves that the search comes to and finds to meet `q`.
    pub open spec fn answers(&self, q: BoundingBox, r: Seq<usize>) -> bool {
        if self.leaf_count() == 0 {
            r.len() == 0
        } else {
            reached(self@, self.tier_starts(), 0, q, r)
        }
    }

    /// The one list that `answers` is true of.
    pub open spec fn found(&self, q: BoundingBox) -> Seq<usize> {
        choose|r: Seq<usize>| self.answers(q, r)
    }

    /// `answers` is true of one list only.
    pub proof fn lemma_found(&self, q: BoundingBox, r: Seq<usize>)
        requires
            self.answers(q, r),
        ensures
            self.found(q) == r,
    {
        let other = self.found(q);
        assert(self.answers(q, other));
        if self.leaf_count() == 0 {
            assert(r =~= other);
        } else {
            assert forall|j: int| 0 <= j < r.len() implies listed(other, #[trigger] r[j] as int) by {
                assert(live(self@, self.tier_starts(), 0, r[j] as int, q));
            }
            assert forall|j: int| 0 <= j < other.len() implies listed(
                r,
                #[trigger] other[j] as int,
            ) by {
                assert(live(self@, self.tier_starts(), 0, other[j] as int, q));
            }
            lemma_same_members(r, other);
        }
    }

    /// The number of leaves.
    pub fn len(&self) -> (n: usize)
        requires
            self.well_formed(),
        ensures
            n == self.leaf_count(),
    {
        if self.starts.len() >= 2 {
            self.starts[1]
        } else {
            0
        }
    }

    /// All nodes, tier by tier, the leaves first and the root last.
    pub fn nodes(&self) -> (v: &Vec<Node>)
        ensures
            v@ == self@,
    {
        &self.nodes
    }

    /// The leaf of feature `i`.
    pub fn leaf(&self, i: usize) -> (nd: Node)
        requires
            self.well_formed(),
            i < self.leaf_count(),
        ensures
            nd == self.leaves()[i as int],
    {
        proof {
            lemma_tiers_shape(self.leaf_count());
            lemma_chained_monotone(self.tier_starts(), 1, self.tier_starts().len() - 1);
        }
        self.nodes[i]
    }

    /// The places of the leaves that a search for `q` finds, in rising order.
    /// The search starts at the root, leaves out every subtree whose box
    /// does not meet `q`, and keeps the leaves whose boxes meet it.
    pub fn query(&self, q: &BoundingBox) -> (r: Vec<usize>)
        requires
            self.well_formed(),
        ensures
            self.answers(*q, r@),
            r@ == self.found(*q),
            forall|j: int| 0 <= j < r@.len() ==> (#[trigger] r@[j]) < self.leaf_count(),
    {
        let r = self.search(q);
        proof {
            self.lemma_found(*q, r@);
            if self.leaf_count() > 0 {
                lemma_tiers_shape(self.leaf_count());
                assert(tier_len(self.tier_starts(), 0) == self.leaf_count());
            }
        }
        r
    }

    fn search(&self, q: &BoundingBox) -> (r: Vec<usize>)
        requires
            self.well_formed(),
        ensures
            self.answers(*q, r@),
    {
        let mut frontier: Vec<usize> = Vec::new();
        if self.starts.len() < 2 {
            return frontier;
        }
        let ghost t = self.tier_starts();
        let ghost nodes = self.nodes@;
        proof {
            if self.leaf_count() == 0 {
                assert(t.len() == 1);
            }
            lemma_tiers_shape(self.leaf_count());
        }
        let mut k: usize = self.starts.len() - 2;
        proof {
            lemma_chained_monotone(t, 0, k as int);
            assert(tier_len(t, k as int) == 1);
        }
        if self.nodes[self.starts[k]].bbox.intersects(*q) {
            frontier.push(0);
            proof {
                assert(frontier@[0] == 0);
            }
        }
        proof {
            assert(reached(nodes, t, k as int, *q, frontier@)) by {
                assert forall|p: int|
                    0 <= p < tier_len(t, k as int) && #[trigger] live(
                        nodes,
                        t,
                        k as int,
                        p,
                        *q,
                    ) implies listed(frontier@, p) by {
                    assert(frontier@[0] == p);
                }
            }
        }
        while k > 0
            invariant
                t == self.tier_starts(),
                nodes == self.nodes@,
                chained(t),
                t.len() == self.starts@.len(),
                t.last() == nodes.len(),
                0 <= k < t.len() - 1,
                reached(nodes, t, k as int, *q, frontier@),
            decreases k,
        {
            let child_lo: usize = self.starts[k - 1];
            let child_hi: usize = self.starts[k];
            proof {
                assert(t[k - 1] == child_lo);
                assert(t[k as int] == child_hi);
                assert(tier_len(t, k - 1) >= 1);
                lemma_chained_monotone(t, k as int, t.len() - 1);
                lemma_chained_monotone(t, 0, k - 1);
            }
            let len: usize = child_hi - child_lo;
            let mut next: Vec<usize> = Vec::new();
            let mut done: usize = 0;
            let mut j: usize = 0;
            while j < frontier.len()
                invariant
                    chained(t),
                    1 <= k < t.len() - 1,
                    t[k - 1] == child_lo,
                    t[k as int] == child_hi,
                    len == child_hi - child_lo,
                    len == tier_len(t, k - 1),
                    child_hi <= nodes.len(),
                    nodes == self.nodes@,
                    reached(nodes, t, k as int, *q, frontier@),
                    j <= frontier@.len(),
                    done <= len,
                    j > 0 ==> done == len || done >= 16 * frontier@[j - 1] + 16,
                    j < frontier@.len() ==> done <= 16 * frontier@[j as int],
                    strictly_increasing(next@),
                    forall|a: int|
                        0 <= a < next@.len() ==> (#[trigger] next@[a]) < done && live(
                            nodes,
                            t,
                            k - 1,
                            next@[a] as int,
                            *q,
                        ),
                    forall|c: int|
                        0 <= c < done && #[trigger] live(nodes, t, k - 1, c, *q) ==> listed(next@, c),
                decreases frontier@.len() - j,
            {
                let p: usize = frontier[j];
                proof {
                    lemma_children_in_tier(t, k as int, p as int);
                }
                let first: usize = 16 * p;
                proof {
                    assert forall|c: int|
                        0 <= c < first && #[trigger] live(nodes, t, k - 1, c, *q) implies listed(
                        next@,
                        c,
                    ) by {
                        if c >= done {
                            lemma_gap_dead(nodes, t, k as int, *q, frontier@, j as int, c);
                        }
                    }
                }
                let last: usize = if len - first > 16 {
                    first + 16
                } else {
                    len
                };
                let mut c: usize = first;
                while c < last
                    invariant
                        chained(t),
                        1 <= k < t.len() - 1,
                        t[k - 1] == child_lo,
                        len == tier_len(t, k - 1),
                        child_lo + len == child_hi,
                        child_hi <= nodes.len(),
                        nodes == self.nodes@,
                        first == 16 * p,
                        first <= c <= last,
                        last <= len,
                        last <= first + 16,
                        live(nodes, t, k as int, p as int, *q),
                        strictly_increasing(next@),
                        forall|a: int|
                            0 <= a < next@.len() ==> (#[trigger] next@[a]) < c && live(
                                nodes,
                                t,
                                k - 1,
                                next@[a] as int,
                                *q,
                            ),
                        forall|x: int|
                            0 <= x < c && #[trigger] live(nodes, t, k - 1, x, *q) ==> listed(
                                next@,
                                x,
                            ),
                    decreases last - c,
                {
                    let hit: bool = self.nodes[child_lo + c].bbox.intersects(*q);
                    let ghost prev = next@;
                    proof {
                        assert(c as int / 16 == p);
                        assert(node_at(nodes, t, k - 1, c as int) == nodes[child_lo + c]);
                        assert(hit == live(nodes, t, k - 1, c as int, *q));
                    }
                    if hit {
                        next.push(c);
                    }
                    proof {
                        assert forall|x: int|
                            0 <= x < c + 1 && #[trigger] live(nodes, t, k - 1, x, *q) implies listed(
                            next@,
                            x,
                        ) by {
                            if x < c {
                                assert(listed(prev, x));
                                let w = choose|w: int| 0 <= w < prev.len() && #[trigger] prev[w] == x;
                                assert(next@[w] == x);
                            } else {
                                assert(next@[next@.len() - 1] == x);
                            }
                        }
                    }
                    c = c + 1;
                }
                done = last;
                j = j + 1;
                proof {
                    if j < frontier@.len() {
                        assert(frontier@[j - 1] < frontier@[j as int]);
                    }
                }
            }
            proof {
                assert forall|c: int|
                    0 <= c < len && #[trigger] live(nodes, t, k - 1, c, *q) implies listed(
                    next@,
                    c,
                ) by {
                    if c >= done {
                        lemma_gap_dead(nodes, t, k as int, *q, frontier@, frontier@.len() as int, c);
                    }
                }
            }
            frontier = next;
            k = k - 1;
        }
        frontier
    }
}

/// The places of the boxes among `leaves` that meet `q`, in rising order,
/// found by looking at every leaf in turn.
pub fn scan(leaves: &Vec<Node>, q: &BoundingBox) -> (r: Vec<usize>)
    ensures
        filtered(leaves@, *q, r@),
{
    let mut r: Vec<usize> = Vec::new();
    let mut i: usize = 0;
    while i < leaves.len()
        invariant
            i <= leaves@.len(),
            strictly_increasing(r@),
            forall|j: int|
                0 <= j < r@.len() ==> (#[trigger] r@[j]) < i && leaves@[r@[j] as int].bbox.spec_intersects(
                    *q,
                ),
            forall|x: int|
                0 <= x < i && (#[trigger] leaves@[x]).bbox.spec_intersects(*q) ==> listed(r@, x),
        decreases leaves@.len() - i,
    {
        let ghost prev = r@;
        if leaves[i].bbox.intersects(*q) {
            r.push(i);
        }
        proof {
            assert forall|x: int|
                0 <= x < i + 1 && (#[trigger] leaves@[x]).bbox.spec_intersects(*q) implies listed(
                r@,
                x,
            ) by {
                if x < i {
                    assert(listed(prev, x));
                    let w = choose|w: int| 0 <= w < prev.len() && #[trigger] prev[w] == x;
                    assert(r@[w] == x);
                } else {
                    assert(r@[r@.len() - 1] == x);
                }
            }
        }
        i = i + 1;
    }
    r
}

/// In every built index the box of each leaf lies within the box of every
/// node above it, up to the root.
pub proof fn law_leaf_within_ancestors(idx: SpatialIndex, i: int, k: int)
    requires
        idx.well_formed(),
        idx.is_packed(),
        0 <= i < idx.leaf_count(),
        0 <= k < tier_count(idx.tier_starts()),
    ensures
        0 <= ancestor(i, k) < tier_len(idx.tier_starts(), k),
        node_at(idx@, idx.tier_starts(), k, ancestor(i, k)).bbox.spec_contains(idx.leaves()[i].bbox),
{
    lemma_tiers_shape(idx.leaf_count());
    lemma_chained_monotone(idx.tier_starts(), 1, idx.tier_starts().len() - 1);
    lemma_ancestor_contains(idx@, idx.tier_starts(), i, k);
}

/// For every query box, a search of a built index finds the same features,
/// in the same order, as a look at every leaf in turn.
pub proof fn law_query_equals_scan(
    idx: SpatialIndex,
    q: BoundingBox,
    by_index: Seq<usize>,
    by_scan: Seq<usize>,
)
    requires
        idx.well_formed(),
        idx.is_packed(),
        idx.answers(q, by_index),
        filtered(idx.leaves(), q, by_scan),
    ensures
        by_index == by_scan,
{
    let n = idx.leaf_count();
    let t = idx.tier_starts();
    let nodes = idx@;
    let leaves = idx.leaves();
    if n == 0 {
        if by_scan.len() > 0 {
            assert(by_scan[0] < leaves.len());
        }
        assert(by_index =~= by_scan);
    } else {
        lemma_tiers_shape(n);
        lemma_chained_monotone(t, 1, t.len() - 1);
        assert(tier_len(t, 0) == n);
        assert forall|j: int| 0 <= j < by_index.len() implies listed(
            by_scan,
            #[trigger] by_index[j] as int,
        ) by {
            let i = by_index[j] as int;
            assert(live(nodes, t, 0, i, q));
            assert(leaves[i] == node_at(nodes, t, 0, i));
        }
        assert forall|j: int| 0 <= j < by_scan.len() implies listed(
            by_index,
            #[trigger] by_scan[j] as int,
        ) by {
            let i = by_scan[j] as int;
            assert(leaves[i] == node_at(nodes, t, 0, i));
            lemma_live_above_leaf(nodes, t, i, 0, q);
        }
        lemma_same_members(by_index, by_scan);
    }
}

// ---------------------------------------------------------------------------
// Layout of the index block
// ---------------------------------------------------------------------------

/// The four bounds of the box and the offset, each a 64-bit word.
pub open spec fn node_bytes(nd: Node) -> Seq<u8> {
    word_bytes(nd.bbox.min_x) + word_bytes(nd.bbox.min_y) + word_bytes(nd.bbox.max_x) + word_bytes(
        nd.bbox.max_y,
    ) + word_bytes(nd.offset)
}

/// The node at `pos`.
pub open spec fn parse_node(s: Seq<u8>, pos: int, end: int) -> Result<(Node, int), Error> {
    match parse_word(s, pos, end) {
        Err(e) => Err(e),
        Ok((min_x, pos1)) => match parse_word(s, pos1, end) {
            Err(e) => Err(e),
            Ok((min_y, pos2)) => match parse_word(s, pos2, end) {
                Err(e) => Err(e),
                Ok((max_x, pos3)) => match parse_word(s, pos3, end) {
                    Err(e) => Err(e),
                    Ok((max_y, pos4)) => match parse_word(s, pos4, end) {
                        Err(e) => Err(e),
                        Ok((offset, pos5)) => Ok(
                            (Node { bbox: BoundingBox { min_x, min_y, max_x, max_y }, offset }, pos5),
                        ),
                    },
                },
            },
        },
    }
}

/// `node_bytes`, as a function value.
pub open spec fn node_writer() -> spec_fn(Node) -> Seq<u8> {
    |nd: Node| node_bytes(nd)
}

/// `parse_node`, as a function value.
pub open spec fn node_reader() -> spec_fn(Seq<u8>, int, int) -> Result<(Node, int), Error> {
    |s: Seq<u8>, pos: int, end: int| parse_node(s, pos, end)
}

/// The number of nodes, then the nodes, the leaves first and the root last.
pub open spec fn index_bytes(nodes: Seq<Node>) -> Seq<u8> {
    list_bytes(nodes, node_writer())
}

/// The index block of a file with `n` features that starts at `pos`. A node
/// count other than that of an index over `n` leaves is a `FormatError`;
/// nodes that the bytes do not hold are a `TruncatedStream`.
pub open spec fn parse_index(s: Seq<u8>, pos: int, end: int, n: nat) -> Result<
    (Seq<Node>, int),
    Error,
> {
    match parse_varint(s, pos, end) {
        Err(e) => Err(e),
        Ok((count, start)) => if total_nodes(n) > usize::MAX || count != total_nodes(n) {
            Err(Error::FormatError)
        } else {
            parse_items(s, start, end, count as nat, node_reader())
        },
    }
}

/// A node takes forty bytes and is read back as written.
pub proof fn lemma_node_round_trip(s: Seq<u8>, pos: int, end: int, nd: Node)
    requires
        has_at(s, pos, end, node_bytes(nd)),
    ensures
        parse_node(s, pos, end) == Ok::<(Node, int), Error>((nd, pos + node_bytes(nd).len())),
        node_bytes(nd).len() == 40,
{
    let a = word_bytes(nd.bbox.min_x);
    let b = word_bytes(nd.bbox.min_y);
    let c = word_bytes(nd.bbox.max_x);
    let d = word_bytes(nd.bbox.max_y);
    let e = word_bytes(nd.offset);
    lemma_word_len(nd.bbox.min_x);
    lemma_word_len(nd.bbox.min_y);
    lemma_word_len(nd.bbox.max_x);
    lemma_word_len(nd.bbox.max_y);
    lemma_word_len(nd.offset);
    lemma_has_at_split(s, pos, end, a + b + c + d, e);
    lemma_has_at_split(s, pos, end, a + b + c, d);
    lemma_has_at_split(s, pos, end, a + b, c);
    lemma_has_at_split(s, pos, end, a, b);
    lemma_word_round_trip(s, pos, end, nd.bbox.min_x);
    lemma_word_round_trip(s, pos + 8, end, nd.bbox.min_y);
    lemma_word_round_trip(s, pos + 16, end, nd.bbox.max_x);
    lemma_word_round_trip(s, pos + 24, end, nd.bbox.max_y);
    lemma_word_round_trip(s, pos + 32, end, nd.offset);
}

/// The index block of an index over `n` leaves is read back as written.
pub proof fn lemma_index_round_trip(s: Seq<u8>, pos: int, end: int, nodes: Seq<Node>, n: nat)
    requires
        has_at(s, pos, end, index_bytes(nodes)),
        nodes.len() == total_nodes(n),
        nodes.len() <= usize::MAX,
    ensures
        parse_index(s, pos, end, n) == Ok::<(Seq<Node>, int), Error>(
            (nodes, pos + index_bytes(nodes).len()),
        ),
{
    let f = node_writer();
    let p = node_reader();
    assert forall|i: int, q: int| 0 <= i < nodes.len() && #[trigger] has_at(s, q, end, f(nodes[i]))
        implies p(s, q, end) == Ok::<(Node, int), Error>((nodes[i], q + f(nodes[i]).len())) by {
        lemma_node_round_trip(s, q, end, nodes[i]);
    }
    lemma_list_round_trip(s, pos, end, nodes, f, p);
    lemma_has_at_split(s, pos, end, varint_bytes(nodes.len()), items_bytes(nodes, f));
    lemma_varint_round_trip(s, pos, end, nodes.len() as u64);
}

/// Appends a node.
pub fn put_node(out: &mut Vec<u8>, nd: &Node)
    ensures
        final(out)@ == old(out)@ + node_bytes(*nd),
{
    let ghost before = out@;
    put_word(out, nd.bbox.min_x);
    put_word(out, nd.bbox.min_y);
    put_word(out, nd.bbox.max_x);
    put_word(out, nd.bbox.max_y);
    put_word(out, nd.offset);
    proof {
        assert(out@ =~= before + node_bytes(*nd));
    }
}

/// Reads the node at `pos`.
pub fn get_node(buf: &[u8], pos: usize, end: usize) -> (r: Result<(Node, usize), Error>)
    requires
        end <= buf@.len(),
    ensures
        match r {
            Ok((nd, next)) => gives(parse_node(buf@, pos as int, end as int), (nd, next as int))
                && next == pos + 40 && next <= end,
            Err(e) => fails(parse_node(buf@, pos as int, end as int), e),
        },
{
    let (min_x, pos1) = match get_word(buf, pos, end) {
        Ok(v) => v,
        Err(e) => {
            return Err(e);
        },
    };
    let (min_y, pos2) = match get_word(buf, pos1, end) {
        Ok(v) => v,
        Err(e) => {
            return Err(e);
        },
    };
    let (max_x, pos3) = match get_word(buf, pos2, end) {
        Ok(v) => v,
        Err(e) => {
            return Err(e);
        },
    };
    let (max_y, pos4) = match get_word(buf, pos3, end) {
        Ok(v) => v,
        Err(e) => {
            return Err(e);
        },
    };
    let (offset, pos5) = match get_word(buf, pos4, end) {
        Ok(v) => v,
        Err(e) => {
            return Err(e);
        },
    };
    Ok((Node { bbox: BoundingBox { min_x, min_y, max_x, max_y }, offset }, pos5))
}

/// Where the tiers of an index over `n` leaves start, if the index can be
/// held at all.
pub fn tier_starts_for(n: usize) -> (r: Option<Vec<usize>>)
    ensures
        match r {
            Some(v) => as_ints(v@) == tiers(n as nat),
            None => total_nodes(n as nat) > usize::MAX,
        },
{
    let mut starts: Vec<usize> = Vec::new();
    starts.push(0);
    if n == 0 {
        proof {
            assert(as_ints(starts@) =~= seq![0int]);
        }
        return Some(starts);
    }
    starts.push(n);
    let mut m: usize = n;
    let mut top: usize = n;
    let mut done: bool = false;
    proof {
        let t = as_ints(starts@);
        assert(t =~= seq![0int, n as int]);
        assert(chained(t)) by {
            assert forall|k: int| 0 <= k < t.len() - 1 implies #[trigger] tier_len(t, k) >= 1 by {}
        }
    }
    while !done
        invariant
            starts@.len() >= 2,
            chained(as_ints(starts@)),
            !done ==> {
                &&& m >= 1
                &&& m == tier_len(as_ints(starts@), starts@.len() - 2)
                &&& top == starts@[starts@.len() - 1]
                &&& tiers(n as nat) == tiers_from(as_ints(starts@), m as int)
            },
            done ==> as_ints(starts@) == tiers(n as nat),
        decreases
                (if done {
                    0int
                } else {
                    1 + m
                }),
    {
        let ghost t = as_ints(starts@);
        let cnt: usize = (m - 1) / 16 + 1;
        assert(cnt == ceil16(m as int));
        proof {
            lemma_chained_push(t);
            let next = t.push(t.last() + ceil16(m as int));
            if m > 16 {
                lemma_tiers_from_shape(next, ceil16(m as int));
            }
            let all = tiers_from(t, m as int);
            assert(chained(all));
            assert(all[t.len() as int] == top + cnt);
            lemma_chained_monotone(all, t.len() as int, all.len() - 1);
        }
        if cnt > usize::MAX - top {
            return None;
        }
        let v: usize = top + cnt;
        starts.push(v);
        proof {
            assert(as_ints(starts@) =~= t.push(t.last() + ceil16(m as int)));
        }
        if cnt == 1 {
            done = true;
        } else {
            m = cnt;
            top = v;
        }
    }
    Some(starts)
}

impl SpatialIndex {
    /// Appends the index block.
    pub fn encode_into(&self, out: &mut Vec<u8>)
        ensures
            final(out)@ == old(out)@ + index_bytes(self@),
    {
        let ghost before = out@;
        let ghost all = self.nodes@;
        put_varint(out, self.nodes.len() as u64);
        let ghost mid = out@;
        proof {
            assert(mid + items_bytes(all.take(0), node_writer()) =~= mid);
        }
        let mut i: usize = 0;
        while i < self.nodes.len()
            invariant
                i <= self.nodes@.len(),
                all == self.nodes@,
                out@ == mid + items_bytes(all.take(i as int), node_writer()),
            decreases self.nodes@.len() - i,
        {
            put_node(out, &self.nodes[i]);
            proof {
                lemma_items_push(all.take(i as int), all[i as int], node_writer());
                assert(all.take(i as int).push(all[i as int]) =~= all.take(i + 1));
                assert(out@ =~= mid + items_bytes(all.take(i + 1), node_writer()));
            }
            i = i + 1;
        }
        proof {
            assert(all.take(all.len() as int) =~= all);
            assert(out@ =~= before + index_bytes(all));
        }
    }

    /// Reads the index block of a file with `n` features. The nodes are
    /// taken as they stand: the search is safe on any of them, and finds
    /// every feature where they are those that `build` made.
    pub fn decode_at(buf: &[u8], pos: usize, end: usize, n: u64) -> (r: Result<
        (SpatialIndex, usize),
        Error,
    >)
        requires
            end <= buf@.len(),
        ensures
            match r {
                Ok((idx, next)) => gives(
                    parse_index(buf@, pos as int, end as int, n as nat),
                    (idx@, next as int),
                ) && idx.well_formed() && idx.leaf_count() == n && pos < next <= end,
                Err(e) => fails(parse_index(buf@, pos as int, end as int, n as nat), e),
            },
    {
        let (count, start) = match get_varint(buf, pos, end) {
            Ok(v) => v,
            Err(e) => {
                return Err(e);
            },
        };
        proof {
            if n >= 1 {
                lemma_tiers_shape(n as nat);
                lemma_chained_monotone(tiers(n as nat), 1, tiers(n as nat).len() - 1);
            }
        }
        if n > usize::MAX as u64 {
            return Err(Error::FormatError);
        }
        let starts = match tier_starts_for(n as usize) {
            Some(v) => v,
            None => {
                return Err(Error::FormatError);
            },
        };
        let total: usize = starts[starts.len() - 1];
        if count != total as u64 {
            return Err(Error::FormatError);
        }
        let ghost p = node_reader();
        let mut nodes: Vec<Node> = Vec::new();
        let mut cur: usize = start;
        let mut i: usize = 0;
        while i < total
            invariant
                i <= total,
                start <= cur <= end,
                end <= buf@.len(),
                p == node_reader(),
                nodes@.len() == i,
                gives(parse_varint(buf@, pos as int, end as int), (count, start as int)),
                count == total,
                total == total_nodes(n as nat),
                gives(parse_items(buf@, start as int, end as int, i as nat, p), (nodes@, cur as int)),
            decreases total - i,
        {
            match get_node(buf, cur, end) {
                Ok((nd, next)) => {
                    nodes.push(nd);
                    cur = next;
                    i = i + 1;
                },
                Err(e) => {
                    proof {
                        assert(fails(
                            parse_items(buf@, start as int, end as int, (i + 1) as nat, p),
                            e,
                        ));
                        lemma_parse_items_sticky(
                            buf@,
                            start as int,
                            end as int,
                            (i + 1) as nat,
                            total as nat,
                            p,
                        );
                    }
                    return Err(e);
                },
            }
        }
        Ok((SpatialIndex { nodes, starts }, cur))
    }
}

} // verus!
