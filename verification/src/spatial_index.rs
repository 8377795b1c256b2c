//! An index of positions that answers range queries: which points lie within
//! a radius of a centre.
//!
//! The index is a k-d tree. Its nodes stand in one vector and name their
//! children by their place in it; each node holds the sequence index of one
//! position, its key. A node splits the space it is responsible for along
//! one axis, at its key's coordinate: what lies below goes left, the rest
//! right. A query walks down from the root and leaves out every subtree
//! whose space the range does not reach.
//!
//! A node is added below the leaf where its key belongs. The keys are added
//! the middle one of the sequence first, then the middle ones of the two
//! halves, and so on: points that come sorted along an axis, as scans and
//! grids do, then give a tree as shallow as points in no particular order
//! do.

use vstd::prelude::*;
use crate::arith::lemma_product_bound;
use crate::point3d::Point3D;
use crate::vector3d::{Vec3, Vector3D};

verus! {

/// The positions of a sequence of points, in the same order.
pub open spec fn positions(points: Seq<Point3D>) -> Seq<Vec3> {
    Seq::new(points.len(), |i: int| points[i].position())
}

/// The squared Euclidean distance between two positions.
pub open spec fn distance2(p: Vec3, q: Vec3) -> int {
    p.minus(q).norm2()
}

/// The coordinate of a position along an axis: 0 for x, 1 for y, else z.
spec fn coordinate(p: Vec3, axis: int) -> int {
    if axis == 0 {
        p.x
    } else if axis == 1 {
        p.y
    } else {
        p.z
    }
}

/// The position with its coordinate along an axis replaced.
spec fn with_coordinate(p: Vec3, axis: int, value: int) -> Vec3 {
    if axis == 0 {
        Vec3 { x: value, y: p.y, z: p.z }
    } else if axis == 1 {
        Vec3 { x: p.x, y: value, z: p.z }
    } else {
        Vec3 { x: p.x, y: p.y, z: value }
    }
}

/// An axis-aligned box of positions, both corners included: the space that a
/// node of the tree is responsible for.
struct Region {
    low: Vec3,
    high: Vec3,
}

impl Region {
    /// The space of all positions that a point can have.
    spec fn full() -> Region {
        Region {
            low: Vec3 { x: i32::MIN as int, y: i32::MIN as int, z: i32::MIN as int },
            high: Vec3 { x: i32::MAX as int, y: i32::MAX as int, z: i32::MAX as int },
        }
    }

    spec fn holds(self, p: Vec3) -> bool {
        &&& self.low.x <= p.x <= self.high.x
        &&& self.low.y <= p.y <= self.high.y
        &&& self.low.z <= p.z <= self.high.z
    }

    /// The part of the region below `value` along an axis.
    spec fn below(self, axis: int, value: int) -> Region {
        Region { low: self.low, high: with_coordinate(self.high, axis, value - 1) }
    }

    /// The part of the region at `value` and above along an axis.
    spec fn from(self, axis: int, value: int) -> Region {
        Region { low: with_coordinate(self.low, axis, value), high: self.high }
    }

    /// The region lies within another.
    spec fn inside(self, other: Region) -> bool {
        &&& other.low.x <= self.low.x && self.high.x <= other.high.x
        &&& other.low.y <= self.low.y && self.high.y <= other.high.y
        &&& other.low.z <= self.low.z && self.high.z <= other.high.z
    }
}

/// A node of the tree: the sequence index of its key, the axis along which
/// it splits, and the places of its two children.
#[derive(Debug, Clone, Copy)]
struct Node {
    key: usize,
    axis: u8,
    left: Option<usize>,
    right: Option<usize>,
}

/// The position that the node at `i` holds.
spec fn key_of(keys: Seq<Point3D>, nodes: Seq<Node>, i: int) -> Vec3 {
    keys[nodes[i].key as int].position()
}

/// A node holds the key with the sequence index `k`.
spec fn placed(nodes: Seq<Node>, k: int) -> bool {
    exists|i: int| 0 <= i < nodes.len() && (#[trigger] nodes[i]).key == k
}

/// The link of a node to a child names the node at `i`.
spec fn links_to(link: Option<usize>, i: int) -> bool {
    link is Some && link->Some_0 == i
}

/// The node at `i` is below the node at `s`, or is that node.
spec fn in_subtree(parent: Seq<int>, s: int, i: int) -> bool
    decreases i,
{
    if i == s {
        true
    } else if s < i && 0 < i < parent.len() && 0 <= parent[i] < i {
        in_subtree(parent, s, parent[i])
    } else {
        false
    }
}

/// What holds of the node at `i` of a tree: its key is one of the keys; it
/// splits along one of the three axes; its key lies in its region; unless it
/// is the root, the node that `parent` names for it stands before it and
/// has it as a child; and each child stands after it and is responsible for
/// its side of the split.
spec fn node_ordered(
    keys: Seq<Point3D>,
    nodes: Seq<Node>,
    parent: Seq<int>,
    region: Seq<Region>,
    i: int,
) -> bool {
    let node = nodes[i];
    let split = coordinate(key_of(keys, nodes, i), node.axis as int);
    &&& node.key < keys.len()
    &&& node.axis < 3
    &&& region[i].holds(key_of(keys, nodes, i))
    &&& i > 0 ==> {
        &&& 0 <= parent[i] < i
        &&& (links_to(nodes[parent[i]].left, i) || links_to(nodes[parent[i]].right, i))
    }
    &&& node.left matches Some(l) ==> {
        &&& i < l < nodes.len()
        &&& region[l as int] == region[i].below(node.axis as int, split)
    }
    &&& node.right matches Some(r) ==> {
        &&& i < r < nodes.len()
        &&& region[r as int] == region[i].from(node.axis as int, split)
    }
}

/// The nodes form a tree over keys of theirs, with the node at 0 as the
/// root. `parent` names each node's parent and `region` the space each is
/// responsible for.
spec fn tree_ordered(
    keys: Seq<Point3D>,
    nodes: Seq<Node>,
    parent: Seq<int>,
    region: Seq<Region>,
) -> bool {
    &&& parent.len() == nodes.len()
    &&& region.len() == nodes.len()
    &&& nodes.len() > 0 ==> region[0] == Region::full()
    &&& forall|i: int| 0 <= i < nodes.len() ==> #[trigger] node_ordered(keys, nodes, parent, region, i)
}

/// Every node is below the root.
proof fn lemma_root_holds_all(
    keys: Seq<Point3D>,
    nodes: Seq<Node>,
    parent: Seq<int>,
    region: Seq<Region>,
    i: int,
)
    requires
        tree_ordered(keys, nodes, parent, region),
        0 <= i < nodes.len(),
    ensures
        in_subtree(parent, 0, i),
    decreases i,
{
    if i > 0 {
        assert(node_ordered(keys, nodes, parent, region, i));
        lemma_root_holds_all(keys, nodes, parent, region, parent[i]);
    }
}

/// A node below another is responsible for a part of the other's region.
proof fn lemma_subtree_region(
    keys: Seq<Point3D>,
    nodes: Seq<Node>,
    parent: Seq<int>,
    region: Seq<Region>,
    s: int,
    i: int,
)
    requires
        tree_ordered(keys, nodes, parent, region),
        0 <= s < nodes.len(),
        0 <= i < nodes.len(),
        in_subtree(parent, s, i),
    ensures
        region[i].inside(region[s]),
    decreases i,
{
    if i != s {
        let p = parent[i];
        assert(node_ordered(keys, nodes, parent, region, i));
        assert(node_ordered(keys, nodes, parent, region, p));
        lemma_subtree_region(keys, nodes, parent, region, s, p);
        lemma_child_region(keys, nodes, parent, region, i);
    }
}

/// A node is responsible for a part of its parent's region: the part below
/// the parent's split where it is the left child, the rest where it is the
/// right one.
proof fn lemma_child_region(
    keys: Seq<Point3D>,
    nodes: Seq<Node>,
    parent: Seq<int>,
    region: Seq<Region>,
    i: int,
)
    requires
        tree_ordered(keys, nodes, parent, region),
        0 < i < nodes.len(),
    ensures
        region[i].inside(region[parent[i]]),
        links_to(nodes[parent[i]].left, i) ==> region[i].high == with_coordinate(
            region[parent[i]].high,
            nodes[parent[i]].axis as int,
            coordinate(key_of(keys, nodes, parent[i]), nodes[parent[i]].axis as int) - 1,
        ),
        links_to(nodes[parent[i]].right, i) ==> region[i].low == with_coordinate(
            region[parent[i]].low,
            nodes[parent[i]].axis as int,
            coordinate(key_of(keys, nodes, parent[i]), nodes[parent[i]].axis as int),
        ),
{
    let p = parent[i];
    assert(node_ordered(keys, nodes, parent, region, i));
    assert(node_ordered(keys, nodes, parent, region, p));
    let axis = nodes[p].axis as int;
    let split = coordinate(key_of(keys, nodes, p), axis);
    if links_to(nodes[p].left, i) {
        assert(region[i] == region[p].below(axis, split));
    }
    if links_to(nodes[p].right, i) {
        assert(region[i] == region[p].from(axis, split));
    }
}

/// A node below another, and not that other itself, is below one of the
/// other's children or is one of them.
proof fn lemma_subtree_splits(
    keys: Seq<Point3D>,
    nodes: Seq<Node>,
    parent: Seq<int>,
    region: Seq<Region>,
    s: int,
    i: int,
)
    requires
        tree_ordered(keys, nodes, parent, region),
        0 <= s < nodes.len(),
        0 <= i < nodes.len(),
        in_subtree(parent, s, i),
        i != s,
    ensures
        (nodes[s].left is Some && in_subtree(parent, nodes[s].left->Some_0 as int, i)) || (
        nodes[s].right is Some && in_subtree(parent, nodes[s].right->Some_0 as int, i)),
    decreases i,
{
    let p = parent[i];
    assert(node_ordered(keys, nodes, parent, region, i));
    assert(node_ordered(keys, nodes, parent, region, s));
    if p == s {
        assert(in_subtree(parent, i, i));
        assert(links_to(nodes[s].left, i) || links_to(nodes[s].right, i));
    } else {
        assert(node_ordered(keys, nodes, parent, region, p));
        lemma_subtree_splits(keys, nodes, parent, region, s, p);
        if nodes[s].left is Some && in_subtree(parent, nodes[s].left->Some_0 as int, p) {
            let l = nodes[s].left->Some_0 as int;
            lemma_subtree_order(parent, l, p);
            assert(in_subtree(parent, l, i));
        } else {
            let r = nodes[s].right->Some_0 as int;
            lemma_subtree_order(parent, r, p);
            assert(in_subtree(parent, r, i));
        }
    }
}

/// A node below another does not stand before it.
proof fn lemma_subtree_order(parent: Seq<int>, s: int, i: int)
    requires
        in_subtree(parent, s, i),
    ensures
        s <= i,
{
}

/// A position that differs from the centre by more than the radius along
/// one axis lies out of range.
proof fn lemma_out_of_range(p: Vec3, center: Vec3, axis: int, radius: int)
    requires
        0 <= radius,
        coordinate(p, axis) - coordinate(center, axis) > radius || coordinate(center, axis)
            - coordinate(p, axis) > radius,
    ensures
        distance2(p, center) > radius * radius,
{
    let dx = p.x - center.x;
    let dy = p.y - center.y;
    let dz = p.z - center.z;
    let d = coordinate(p, axis) - coordinate(center, axis);
    assert(dx * dx >= 0 && dy * dy >= 0 && dz * dz >= 0) by (nonlinear_arith);
    assert(d * d > radius * radius) by (nonlinear_arith)
        requires
            0 <= radius,
            d > radius || -d > radius,
    ;
}

/// Three to the power of `e`.
spec fn power_of_three(e: nat) -> nat
    decreases e,
{
    if e == 0 {
        1
    } else {
        3 * power_of_three((e - 1) as nat)
    }
}

proof fn lemma_power_of_three_grows(low: nat, high: nat)
    requires
        low <= high,
    ensures
        0 < power_of_three(low) <= power_of_three(high),
    decreases high,
{
    if low < high {
        lemma_power_of_three_grows(low, (high - 1) as nat);
    } else if low > 0 {
        lemma_power_of_three_grows((low - 1) as nat, (low - 1) as nat);
    }
}

/// What is left to walk: each node still to be visited counts three to the
/// power of the number of places after it. A node outweighs any two nodes
/// that stand after it.
spec fn pending_weight(pending: Seq<usize>, size: nat) -> nat
    decreases pending.len(),
{
    if pending.len() == 0 {
        0
    } else {
        pending_weight(pending.drop_last(), size) + power_of_three(
            (size - pending.last()) as nat,
        )
    }
}

/// The node at `i` is still to be reached: it is, or is below, a node that
/// waits to be visited.
spec fn awaited(pending: Seq<usize>, parent: Seq<int>, i: int) -> bool {
    exists|k: int| 0 <= k < pending.len() && in_subtree(parent, #[trigger] pending[k] as int, i)
}

/// One more node to visit adds its weight.
proof fn lemma_weight_push(pending: Seq<usize>, next: usize, size: nat)
    ensures
        pending_weight(pending.push(next), size) == pending_weight(pending, size) + power_of_three(
            (size - next) as nat,
        ),
{
    assert(pending.push(next).drop_last() == pending);
}

/// The entry that lists the index `i`, if `found` has one.
spec fn lists(found: Seq<(u128, usize)>, i: int) -> bool {
    exists|j: int| 0 <= j < found.len() && (#[trigger] found[j]).1 == i
}

/// Every entry of `found` names a key within the radius of the centre, with
/// its squared distance, and the entries come by ascending index.
spec fn is_listing(found: Seq<(u128, usize)>, keys: Seq<Vec3>, center: Vec3, radius: int) -> bool {
    &&& forall|j: int|
        0 <= j < found.len() ==> {
            &&& (#[trigger] found[j]).1 < keys.len()
            &&& found[j].0 == distance2(keys[found[j].1 as int], center)
            &&& found[j].0 <= radius * radius
        }
    &&& forall|j: int, k: int| 0 <= j < k < found.len() ==> found[j].1 < found[k].1
}

/// The side of the node at `at` on which a key belongs: the part of the
/// node's region below its split where the key lies below, and else the
/// rest.
spec fn side_of(
    keys: Seq<Point3D>,
    nodes: Seq<Node>,
    region: Seq<Region>,
    at: int,
    key: Vec3,
) -> Region {
    let axis = nodes[at].axis as int;
    let split = coordinate(key_of(keys, nodes, at), axis);
    if coordinate(key, axis) < split {
        region[at].below(axis, split)
    } else {
        region[at].from(axis, split)
    }
}

/// Keys and the tree over them.
pub struct SpatialIndex {
    keys: Vec<Point3D>,
    nodes: Vec<Node>,
    parent: Ghost<Seq<int>>,
    region: Ghost<Seq<Region>>,
}

/// Adds a node for the key with the sequence index `k` to the tree: walks
/// down from the root to the free place where the key belongs, and hangs
/// the node there. The nodes that were there keep their keys.
fn add_node(
    keys: &Vec<Point3D>,
    k: usize,
    nodes: &mut Vec<Node>,
    Ghost(parent): Ghost<Seq<int>>,
    Ghost(region): Ghost<Seq<Region>>,
) -> (grown: (Ghost<Seq<int>>, Ghost<Seq<Region>>))
    requires
        k < keys@.len(),
        tree_ordered(keys@, old(nodes)@, parent, region),
    ensures
        tree_ordered(keys@, final(nodes)@, grown.0@, grown.1@),
        final(nodes)@.len() == old(nodes)@.len() + 1,
        final(nodes)@[old(nodes)@.len() as int].key == k,
        forall|i: int|
            0 <= i < old(nodes)@.len() ==> (#[trigger] final(nodes)@[i]).key == old(nodes)@[i].key,
{
    let key: Point3D = keys[k];
    let size: usize = nodes.len();
    if size == 0 {
        nodes.push(Node { key: k, axis: 0, left: None, right: None });
        let ghost new_parent = parent.push(-1);
        let ghost new_region = region.push(Region::full());
        assert(node_ordered(keys@, nodes@, new_parent, new_region, 0));
        return (Ghost(new_parent), Ghost(new_region));
    }
    let mut current: usize = 0;
    loop
        invariant_except_break
            nodes@ == old(nodes)@,
            region[current as int].holds(key.position()),
        invariant
            size > 0,
            size == old(nodes)@.len(),
            k < keys@.len(),
            key == keys@[k as int],
            current < size,
            tree_ordered(keys@, old(nodes)@, parent, region),
        ensures
            tree_ordered(
                keys@,
                nodes@,
                parent.push(current as int),
                region.push(side_of(keys@, old(nodes)@, region, current as int, key.position())),
            ),
            nodes@.len() == size + 1,
            nodes@[size as int].key == k,
            forall|i: int| 0 <= i < size ==> (#[trigger] nodes@[i]).key == old(nodes)@[i].key,
        decreases size - current,
    {
        let node: Node = nodes[current];
        assert(node_ordered(keys@, nodes@, parent, region, current as int));
        let other: Point3D = keys[node.key];
        let goes_left: bool = if node.axis == 0 {
            key.x < other.x
        } else if node.axis == 1 {
            key.y < other.y
        } else {
            key.z < other.z
        };
        let ghost split = coordinate(other.position(), node.axis as int);
        assert(goes_left == (coordinate(key.position(), node.axis as int) < split));
        let child: Option<usize> = if goes_left {
            node.left
        } else {
            node.right
        };
        match child {
            Some(next) => {
                current = next;
            },
            None => {
                let ghost old_nodes = nodes@;
                let ghost new_region = side_of(keys@, old_nodes, region, current as int, key.position());
                let hung: Node = if goes_left {
                    Node { key: node.key, axis: node.axis, left: Some(size), right: node.right }
                } else {
                    Node { key: node.key, axis: node.axis, left: node.left, right: Some(size) }
                };
                nodes.set(current, hung);
                let next_axis: u8 = if node.axis == 2 {
                    0
                } else {
                    node.axis + 1
                };
                nodes.push(Node { key: k, axis: next_axis, left: None, right: None });
                proof {
                    let grown_parent = parent.push(current as int);
                    let grown_region = region.push(new_region);
                    assert(new_region.holds(key.position()));
                    assert forall|i: int| 0 <= i < nodes@.len() implies #[trigger] node_ordered(
                        keys@,
                        nodes@,
                        grown_parent,
                        grown_region,
                        i,
                    ) by {
                        if i < size {
                            assert(node_ordered(keys@, old_nodes, parent, region, i));
                            assert(key_of(keys@, nodes@, i) == key_of(keys@, old_nodes, i));
                            if i > 0 {
                                assert(node_ordered(keys@, old_nodes, parent, region, parent[i]));
                            }
                        }
                    }
                }
                break ;
            },
        }
    }
    let ghost new_region = side_of(keys@, old(nodes)@, region, current as int, key.position());
    (Ghost(parent.push(current as int)), Ghost(region.push(new_region)))
}

/// Adds nodes for the keys with the sequence indices from `low` up to
/// `high`: first for the one in the middle, then for those before it, then
/// for those after it, each part in the same way.
fn add_range(
    keys: &Vec<Point3D>,
    low: usize,
    high: usize,
    nodes: &mut Vec<Node>,
    Ghost(parent): Ghost<Seq<int>>,
    Ghost(region): Ghost<Seq<Region>>,
) -> (grown: (Ghost<Seq<int>>, Ghost<Seq<Region>>))
    requires
        low <= high <= keys@.len(),
        tree_ordered(keys@, old(nodes)@, parent, region),
    ensures
        tree_ordered(keys@, final(nodes)@, grown.0@, grown.1@),
        final(nodes)@.len() >= old(nodes)@.len(),
        forall|i: int|
            0 <= i < old(nodes)@.len() ==> (#[trigger] final(nodes)@[i]).key == old(nodes)@[i].key,
        forall|k: int| low <= k < high ==> #[trigger] placed(final(nodes)@, k),
    decreases high - low,
{
    if low >= high {
        return (Ghost(parent), Ghost(region));
    }
    let middle: usize = low + (high - low) / 2;
    let ghost at_first = nodes@;
    let with_middle = add_node(keys, middle, nodes, Ghost(parent), Ghost(region));
    let ghost after_middle = nodes@;
    let with_lower = add_range(keys, low, middle, nodes, with_middle.0, with_middle.1);
    let ghost after_lower = nodes@;
    let with_upper = add_range(keys, middle + 1, high, nodes, with_lower.0, with_lower.1);
    proof {
        assert forall|i: int| 0 <= i < at_first.len() implies (#[trigger] nodes@[i]).key
            == at_first[i].key by {
            assert(after_middle[i].key == at_first[i].key);
            assert(after_lower[i].key == after_middle[i].key);
        }
        assert forall|k: int| low <= k < high implies #[trigger] placed(nodes@, k) by {
            if k == middle {
                let i = at_first.len() as int;
                assert(after_lower[i].key == after_middle[i].key);
                assert(nodes@[i].key == k);
            } else if k < middle {
                assert(placed(after_lower, k));
                let i = choose|i: int| 0 <= i < after_lower.len() && (#[trigger] after_lower[i]).key == k;
                assert(nodes@[i].key == k);
            }
        }
    }
    with_upper
}

/// Puts an entry into a listing at the place that its index gives it,
/// unless the listing has an entry of that index already.
fn list_in_order(
    found: &mut Vec<(u128, usize)>,
    entry: (u128, usize),
    Ghost(keys): Ghost<Seq<Vec3>>,
    Ghost(center): Ghost<Vec3>,
    Ghost(radius): Ghost<int>,
)
    requires
        is_listing(old(found)@, keys, center, radius),
        entry.1 < keys.len(),
        entry.0 == distance2(keys[entry.1 as int], center),
        entry.0 <= radius * radius,
    ensures
        is_listing(final(found)@, keys, center, radius),
        lists(final(found)@, entry.1 as int),
        forall|i: int| lists(old(found)@, i) ==> lists(final(found)@, i),
{
    let ghost before = found@;
    let mut place: usize = found.len();
    while place > 0 && found[place - 1].1 > entry.1
        invariant
            place <= found.len(),
            found@ == before,
            is_listing(before, keys, center, radius),
            forall|j: int| place <= j < before.len() ==> entry.1 < (#[trigger] before[j]).1,
        decreases place,
    {
        place -= 1;
    }
    if place > 0 && found[place - 1].1 == entry.1 {
        assert(before[place - 1].1 == entry.1);
        return ;
    }
    found.insert(place, entry);
    proof {
        let after = found@;
        assert(after[place as int] == entry);
        assert forall|j: int| 0 <= j < after.len() implies {
            &&& (#[trigger] after[j]).1 < keys.len()
            &&& after[j].0 == distance2(keys[after[j].1 as int], center)
            &&& after[j].0 <= radius * radius
        } by {
            if j < place {
                assert(after[j] == before[j]);
            } else if j > place {
                assert(after[j] == before[j - 1]);
            }
        }
        assert forall|j: int, k: int| 0 <= j < k < after.len() implies after[j].1 < after[k].1 by {
            if j < place {
                assert(after[j] == before[j]);
                if j < place - 1 {
                    assert(before[j].1 < before[place - 1].1);
                }
            } else if j > place {
                assert(after[j] == before[j - 1]);
            }
            if k < place {
                assert(after[k] == before[k]);
            } else if k > place {
                assert(after[k] == before[k - 1]);
            }
        }
        assert forall|i: int| lists(before, i) implies lists(after, i) by {
            let j = choose|j: int| 0 <= j < before.len() && (#[trigger] before[j]).1 == i;
            if j < place {
                assert(after[j] == before[j]);
            } else {
                assert(after[j + 1] == before[j]);
            }
        }
    }
}

impl SpatialIndex {
    #[verifier::type_invariant]
    spec fn well_formed(self) -> bool {
        &&& tree_ordered(self.keys@, self.nodes@, self.parent@, self.region@)
        &&& forall|k: int| 0 <= k < self.keys@.len() ==> #[trigger] placed(self.nodes@, k)
    }

    /// The indexed positions: the key at `i` owns the sequence index `i`.
    pub closed spec fn keys(&self) -> Seq<Vec3> {
        positions(self.keys@)
    }

    /// An index of the positions of `points`.
    pub fn build(points: &Vec<Point3D>) -> (index: SpatialIndex)
        ensures
            index.keys() == positions(points@),
    {
        let mut keys: Vec<Point3D> = Vec::new();
        let mut i: usize = 0;
        while i < points.len()
            invariant
                i <= points.len(),
                keys@ == points@.take(i as int),
            decreases points.len() - i,
        {
            keys.push(points[i]);
            assert(keys@ == points@.take(i + 1));
            i += 1;
        }
        assert(points@.take(points.len() as int) == points@);
        let mut nodes: Vec<Node> = Vec::new();
        let grown = add_range(
            &keys,
            0,
            keys.len(),
            &mut nodes,
            Ghost(Seq::empty()),
            Ghost(Seq::empty()),
        );
        SpatialIndex { keys, nodes, parent: grown.0, region: grown.1 }
    }

    /// How many positions the index holds.
    pub fn size(&self) -> (n: usize)
        ensures
            n == self.keys().len(),
    {
        self.keys.len()
    }

    /// Every indexed position within `radius` of `center` (the boundary
    /// included), each as the pair of its squared distance and its sequence
    /// index, by ascending index. None within range gives an empty result;
    /// radius 0 gives the positions that coincide with the centre.
    pub fn range_query(&self, center: &Vector3D, radius: u64) -> (found: Vec<(u128, usize)>)
        ensures
            forall|j: int|
                0 <= j < found.len() ==> {
                    &&& (#[trigger] found[j]).1 < self.keys().len()
                    &&& found[j].0 == distance2(self.keys()[found[j].1 as int], center@)
                    &&& found[j].0 <= radius * radius
                },
            forall|j: int, k: int| 0 <= j < k < found.len() ==> found[j].1 < found[k].1,
            forall|i: int|
                0 <= i < self.keys().len() && distance2(#[trigger] self.keys()[i], center@) <= radius
                    * radius ==> exists|j: int| 0 <= j < found.len() && found[j].1 == i,
    {
        proof {
            use_type_invariant(self);
        }
        let ghost keys = self.keys@;
        let ghost nodes = self.nodes@;
        let ghost parent = self.parent@;
        let ghost region = self.region@;
        let ghost places = positions(keys);
        let n: usize = self.nodes.len();
        let mut found: Vec<(u128, usize)> = Vec::new();
        assert(radius * radius <= u128::MAX) by (nonlinear_arith)
            requires
                radius <= u64::MAX,
        ;
        let limit: u128 = (radius as u128) * (radius as u128);
        let mut pending: Vec<usize> = Vec::new();
        if n > 0 {
            pending.push(0);
            assert(pending@.drop_last().len() == 0);
        }
        proof {
            assert forall|i: int| 0 <= i < n implies #[trigger] awaited(pending@, parent, i) by {
                lemma_root_holds_all(keys, nodes, parent, region, i);
                assert(in_subtree(parent, pending[0] as int, i));
            }
        }
        while pending.len() > 0
            invariant
                keys == self.keys@,
                nodes == self.nodes@,
                n == nodes.len(),
                places == positions(keys),
                tree_ordered(keys, nodes, parent, region),
                limit == radius * radius,
                is_listing(found@, places, center@, radius as int),
                forall|k: int| 0 <= k < pending.len() ==> (#[trigger] pending[k]) < n,
                forall|i: int|
                    0 <= i < n && distance2(#[trigger] key_of(keys, nodes, i), center@) <= radius
                        * radius ==> lists(found@, nodes[i].key as int) || awaited(
                        pending@,
                        parent,
                        i,
                    ),
            decreases pending_weight(pending@, n as nat),
        {
            let ghost waiting = pending@;
            let ghost listed = found@;
            let at: usize = pending.pop().unwrap();
            let ghost rest = pending@;
            assert(rest == waiting.drop_last());
            assert(at == waiting.last());
            let node: Node = self.nodes[at];
            assert(node_ordered(keys, nodes, parent, region, at as int));
            let key: Point3D = self.keys[node.key];
            assert(places[node.key as int] == key.position());
            let squared: u128 = squared_distance(&key, center);
            if squared <= limit {
                list_in_order(
                    &mut found,
                    (squared, node.key),
                    Ghost(places),
                    Ghost(center@),
                    Ghost(radius as int),
                );
            }
            let split: i128 = if node.axis == 0 {
                key.x as i128
            } else if node.axis == 1 {
                key.y as i128
            } else {
                key.z as i128
            };
            let middle: i128 = if node.axis == 0 {
                center.x as i128
            } else if node.axis == 1 {
                center.y as i128
            } else {
                center.z as i128
            };
            let reach: i128 = radius as i128;
            let ghost axis = node.axis as int;
            assert(split == coordinate(key.position(), axis));
            assert(middle == coordinate(center@, axis));
            let left_in_reach: bool = middle - reach < split;
            let right_in_reach: bool = split <= middle + reach;
            if left_in_reach {
                match node.left {
                    Some(l) => {
                        proof {
                            lemma_weight_push(pending@, l, n as nat);
                            lemma_power_of_three_grows((n - l) as nat, (n - at - 1) as nat);
                        }
                        pending.push(l);
                    },
                    None => {},
                }
            }
            if right_in_reach {
                match node.right {
                    Some(r) => {
                        proof {
                            lemma_weight_push(pending@, r, n as nat);
                            lemma_power_of_three_grows((n - r) as nat, (n - at - 1) as nat);
                        }
                        pending.push(r);
                    },
                    None => {},
                }
            }
            proof {
                lemma_power_of_three_grows(0, (n - at - 1) as nat);
                assert(power_of_three((n - at) as nat) == 3 * power_of_three((n - at - 1) as nat));
                assert forall|k: int| 0 <= k < pending.len() implies (#[trigger] pending[k]) < n by {
                    if k < rest.len() {
                        assert(pending[k] == waiting[k]);
                    }
                }
                assert forall|i: int|
                    0 <= i < n && distance2(#[trigger] key_of(keys, nodes, i), center@) <= radius
                        * radius implies lists(found@, nodes[i].key as int) || awaited(
                    pending@,
                    parent,
                    i,
                ) by {
                    if lists(listed, nodes[i].key as int) {
                    } else {
                        assert(awaited(waiting, parent, i));
                        let k = choose|k: int|
                            0 <= k < waiting.len() && in_subtree(
                                parent,
                                #[trigger] waiting[k] as int,
                                i,
                            );
                        if k < rest.len() {
                            assert(pending[k] == waiting[k]);
                        } else if i == at {
                            assert(lists(found@, nodes[i].key as int));
                        } else {
                            lemma_subtree_splits(keys, nodes, parent, region, at as int, i);
                            if node.left is Some && in_subtree(
                                parent,
                                node.left->Some_0 as int,
                                i,
                            ) {
                                let l = node.left->Some_0;
                                if left_in_reach {
                                    assert(pending[rest.len() as int] == l);
                                } else {
                                    lemma_subtree_region(keys, nodes, parent, region, l as int, i);
                                    assert(node_ordered(keys, nodes, parent, region, i));
                                    assert(coordinate(key_of(keys, nodes, i), axis) < split);
                                    lemma_out_of_range(
                                        key_of(keys, nodes, i),
                                        center@,
                                        axis,
                                        radius as int,
                                    );
                                }
                            } else {
                                let r = node.right->Some_0;
                                if right_in_reach {
                                    assert(pending[pending.len() - 1] == r);
                                } else {
                                    lemma_subtree_region(keys, nodes, parent, region, r as int, i);
                                    assert(node_ordered(keys, nodes, parent, region, i));
                                    assert(coordinate(key_of(keys, nodes, i), axis) >= split);
                                    lemma_out_of_range(
                                        key_of(keys, nodes, i),
                                        center@,
                                        axis,
                                        radius as int,
                                    );
                                }
                            }
                        }
                    }
                }
            }
        }
        proof {
            assert forall|k: int|
                0 <= k < self.keys().len() && distance2(#[trigger] self.keys()[k], center@)
                    <= radius * radius implies exists|j: int|
                0 <= j < found.len() && found[j].1 == k by {
                assert(placed(nodes, k));
                let i = choose|i: int| 0 <= i < nodes.len() && (#[trigger] nodes[i]).key == k;
                assert(key_of(keys, nodes, i) == places[k]);
                assert(lists(found@, k));
            }
        }
        found
    }
}

/// The squared distance from a point to a centre.
fn squared_distance(point: &Point3D, center: &Vector3D) -> (squared: u128)
    ensures
        squared == distance2(point.position(), center@),
{
    let dx: i128 = point.x as i128 - center.x as i128;
    let dy: i128 = point.y as i128 - center.y as i128;
    let dz: i128 = point.z as i128 - center.z as i128;
    proof {
        // no difference exceeds 2^63 + 2^31, and three squares of that fit
        lemma_product_bound(dx as int, dx as int, 0x8000_0000_8000_0000, 0x8000_0000_8000_0000);
        lemma_product_bound(dy as int, dy as int, 0x8000_0000_8000_0000, 0x8000_0000_8000_0000);
        lemma_product_bound(dz as int, dz as int, 0x8000_0000_8000_0000, 0x8000_0000_8000_0000);
        assert(dx * dx >= 0 && dy * dy >= 0 && dz * dz >= 0) by (nonlinear_arith);
    }
    let sx: u128 = (dx * dx) as u128;
    let sy: u128 = (dy * dy) as u128;
    let sz: u128 = (dz * dz) as u128;
    sx + sy + sz
}

} // verus!
