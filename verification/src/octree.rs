use vstd::prelude::*;
use vstd::std_specs::cmp::PartialEqSpec;

verus! {

/// A sparse voxel octree over the cube `[0, SZ)^3`, `SZ` a power of two.
///
/// Octants live in one growing arena; `Node` octants refer to their eight
/// children by arena index. Merging a node back into a leaf orphans the
/// child entries: they are flagged disabled and never revisited or reused.
#[derive(Debug, Clone)]
pub struct Octree<const SZ: usize, T> {
    pub octants: Vec<Octant<T>>,
}

/// Position of an octant's minimum corner, in tree-local coordinates.
#[derive(Debug, Clone, Copy, PartialEq, Eq, PartialOrd, Ord, Structural)]
pub struct OctantPos(pub usize, pub usize, pub usize);

impl OctantPos {
    pub fn new(x: usize, y: usize, z: usize) -> (r: Self)
        ensures
            r == (OctantPos(x, y, z)),
    {
        Self(x, y, z)
    }

    pub fn new_u32(x: u32, y: u32, z: u32) -> (r: Self)
        ensures
            r == (OctantPos(x as usize, y as usize, z as usize)),
    {
        Self(x as usize, y as usize, z as usize)
    }

    pub fn x(&self) -> (r: usize)
        ensures
            r == self.0,
    {
        self.0
    }

    pub fn y(&self) -> (r: usize)
        ensures
            r == self.1,
    {
        self.1
    }

    pub fn z(&self) -> (r: usize)
        ensures
            r == self.2,
    {
        self.2
    }
}

/// A cubic region of the tree.
#[derive(Debug, Clone, Copy)]
pub struct Octant<T> {
    pub kind: OctantKind<T>,
    pub position: OctantPos,
    /// The side length of the cube.
    pub size: usize,
    /// `false` when this entry was orphaned by a merge.
    pub enabled: bool,
}

#[derive(Debug, Clone, Copy)]
pub enum OctantKind<T> {
    /// A homogeneous cube of values (possibly a single cell).
    Chunk(T),
    /// A cube split into 8 children, identified by arena index.
    Node([usize; 8]),
}

impl<T> Octant<T> {
    /// Whether this octant's cube contains `pos`.
    pub fn contains(&self, pos: OctantPos) -> (r: bool)
        requires
            self.position.0 + self.size <= usize::MAX,
            self.position.1 + self.size <= usize::MAX,
            self.position.2 + self.size <= usize::MAX,
        ensures
            r == covers(*self, pos.0 as int, pos.1 as int, pos.2 as int),
    {
        self.position.0 <= pos.0 && pos.0 < self.position.0 + self.size && self.position.1 <= pos.1
            && pos.1 < self.position.1 + self.size && self.position.2 <= pos.2 && pos.2
            < self.position.2 + self.size
    }
}

/// `s` is a power of two.
pub open spec fn is_pow2(s: int) -> bool
    decreases s,
{
    if s < 1 {
        false
    } else if s == 1 {
        true
    } else {
        s % 2 == 0 && is_pow2(s / 2)
    }
}

/// The point `(x, y, z)` lies in `[0, sz)^3`.
pub open spec fn in_cube(sz: int, x: int, y: int, z: int) -> bool {
    0 <= x < sz && 0 <= y < sz && 0 <= z < sz
}

/// The octant's cube contains the point `(x, y, z)`.
pub open spec fn covers<T>(o: Octant<T>, x: int, y: int, z: int) -> bool {
    &&& o.position.0 <= x < o.position.0 + o.size
    &&& o.position.1 <= y < o.position.1 + o.size
    &&& o.position.2 <= z < o.position.2 + o.size
}

/// The octant's cube lies inside `[0, sz)^3`.
pub open spec fn octant_within<T>(o: Octant<T>, sz: int) -> bool {
    o.position.0 + o.size <= sz && o.position.1 + o.size <= sz && o.position.2 + o.size <= sz
}

/// The two octants' cubes share no point.
pub open spec fn octants_disjoint<T>(a: Octant<T>, b: Octant<T>) -> bool {
    ||| a.position.0 + a.size <= b.position.0
    ||| b.position.0 + b.size <= a.position.0
    ||| a.position.1 + a.size <= b.position.1
    ||| b.position.1 + b.size <= a.position.1
    ||| a.position.2 + a.size <= b.position.2
    ||| b.position.2 + b.size <= a.position.2
}

/// A live homogeneous region: an enabled `Chunk` octant.
pub open spec fn is_leaf<T>(o: Octant<T>) -> bool {
    o.enabled && o.kind is Chunk
}

/// The value held by a `Chunk` octant.
pub open spec fn chunk_value<T>(o: Octant<T>) -> T
    recommends
        o.kind is Chunk,
{
    match o.kind {
        OctantKind::Chunk(v) => v,
        OctantKind::Node(_) => vstd::pervasive::arbitrary(),
    }
}

/// Minimum corner of child slot `k` of a node at `(px, py, pz)` whose
/// children have side length `h`. Slots follow the split order: the x bit
/// weighs 4, the y bit 2, the z bit 1.
pub open spec fn child_base(px: int, py: int, pz: int, h: int, k: int) -> (int, int, int) {
    if k == 0 {
        (px, py, pz)
    } else if k == 1 {
        (px, py, pz + h)
    } else if k == 2 {
        (px, py + h, pz)
    } else if k == 3 {
        (px, py + h, pz + h)
    } else if k == 4 {
        (px + h, py, pz)
    } else if k == 5 {
        (px + h, py, pz + h)
    } else if k == 6 {
        (px + h, py + h, pz)
    } else {
        (px + h, py + h, pz + h)
    }
}

/// Arena index of child slot `k` of the node at index `i`.
pub open spec fn child_slot<T>(octs: Seq<Octant<T>>, i: int, k: int) -> int
    recommends
        0 <= i < octs.len(),
        octs[i].kind is Node,
{
    match octs[i].kind {
        OctantKind::Node(ch) => ch[k] as int,
        OctantKind::Chunk(_) => -1,
    }
}

/// Child slot `k` of the node at index `i` refers to a valid octant of half
/// the parent's size, sitting at the canonical corner for that slot.
pub open spec fn child_ok<T>(octs: Seq<Octant<T>>, i: int, k: int) -> bool
    recommends
        0 <= i < octs.len(),
        octs[i].kind is Node,
{
    let c = child_slot(octs, i, k);
    let o = octs[i];
    let h = o.size as int / 2;
    &&& i < c < octs.len()
    &&& octs[c].enabled
    &&& octs[c].size == h
    &&& (octs[c].position.0 as int, octs[c].position.1 as int, octs[c].position.2 as int)
        == child_base(o.position.0 as int, o.position.1 as int, o.position.2 as int, h, k)
}

/// Structural invariant of a node octant: size at least 2 and eight
/// well-placed children.
pub open spec fn node_wf<T>(octs: Seq<Octant<T>>, i: int) -> bool
    recommends
        0 <= i < octs.len(),
{
    octs[i].kind is Node ==> {
        &&& octs[i].size >= 2
        &&& forall|k: int| 0 <= k < 8 ==> #[trigger] child_ok(octs, i, k)
    }
}

/// Octant `i` is an enabled `Chunk` whose cube contains `(x, y, z)`.
pub open spec fn covering_leaf<T>(octs: Seq<Octant<T>>, i: int, x: int, y: int, z: int) -> bool {
    &&& 0 <= i < octs.len()
    &&& is_leaf(octs[i])
    &&& covers(octs[i], x, y, z)
}

/// Full well-formedness of the octant arena for a tree of side `sz`:
/// a root covering the whole cube, well-placed children under every enabled
/// node, no child shared between two enabled nodes, and — the partition
/// invariant — enabled leaves that cover every point and never overlap.
pub open spec fn tree_wf<T>(octs: Seq<Octant<T>>, sz: int) -> bool {
    &&& octs.len() >= 1
    &&& octs[0].enabled
    &&& octs[0].size == sz
    &&& octs[0].position.0 == 0 && octs[0].position.1 == 0 && octs[0].position.2 == 0
    &&& forall|i: int|
        0 <= i < octs.len() && (#[trigger] octs[i]).enabled ==> {
            &&& octant_within(octs[i], sz)
            &&& is_pow2(octs[i].size as int)
            &&& node_wf(octs, i)
        }
    &&& forall|x: int, y: int, z: int|
        #[trigger] in_cube(sz, x, y, z) ==> exists|i: int| covering_leaf(octs, i, x, y, z)
    &&& forall|i: int, j: int|
        0 <= i < octs.len() && 0 <= j < octs.len() && i != j && is_leaf(#[trigger] octs[i])
            && is_leaf(#[trigger] octs[j]) ==> octants_disjoint(octs[i], octs[j])
    &&& forall|i: int, j: int, k1: int, k2: int|
        {
            &&& 0 <= i < octs.len() && 0 <= j < octs.len() && i != j
            &&& octs[i].enabled && octs[j].enabled
            &&& octs[i].kind is Node && octs[j].kind is Node
            &&& 0 <= k1 < 8 && 0 <= k2 < 8
        } ==> #[trigger] child_slot(octs, i, k1) != #[trigger] child_slot(octs, j, k2)
}

/// Index of the enabled leaf covering `(x, y, z)`; well-defined under
/// `tree_wf` because exactly one such leaf exists.
pub open spec fn leaf_at<T>(octs: Seq<Octant<T>>, x: int, y: int, z: int) -> int {
    choose|i: int| covering_leaf(octs, i, x, y, z)
}

/// Two enabled leaves covering the same point are the same octant.
pub proof fn lemma_leaf_unique<T>(octs: Seq<Octant<T>>, sz: int, i: int, x: int, y: int, z: int)
    requires
        tree_wf(octs, sz),
        covering_leaf(octs, i, x, y, z),
    ensures
        leaf_at(octs, x, y, z) == i,
{
    let j = leaf_at(octs, x, y, z);
    assert(covering_leaf(octs, j, x, y, z));
    if j != i {
        assert(octants_disjoint(octs[i], octs[j]));
        assert(false);
    }
}

impl<const SZ: usize, T> Octree<SZ, T> {
    /// The arena satisfies the tree invariant.
    pub open spec fn wf(self) -> bool {
        tree_wf(self.octants@, SZ as int)
    }

    /// The value the tree holds at point `(x, y, z)`.
    pub open spec fn spec_at(self, x: int, y: int, z: int) -> T {
        chunk_value(self.octants@[leaf_at(self.octants@, x, y, z)])
    }
}

/// Every point of a cube of side `2h` lies in one of its eight half-cubes.
pub proof fn lemma_point_in_child(
    px: int,
    py: int,
    pz: int,
    h: int,
    x: int,
    y: int,
    z: int,
) -> (k: int)
    requires
        h >= 1,
        px <= x < px + 2 * h,
        py <= y < py + 2 * h,
        pz <= z < pz + 2 * h,
    ensures
        0 <= k < 8,
        ({
            let (cx, cy, cz) = child_base(px, py, pz, h, k);
            cx <= x < cx + h && cy <= y < cy + h && cz <= z < cz + h
        }),
{
    let dx: int = if x >= px + h {
        1
    } else {
        0
    };
    let dy: int = if y >= py + h {
        1
    } else {
        0
    };
    let dz: int = if z >= pz + h {
        1
    } else {
        0
    };
    dx * 4 + dy * 2 + dz
}

/// Each half-cube of a cube of side `2h` lies within the cube.
pub proof fn lemma_child_in_parent(px: int, py: int, pz: int, h: int, k: int)
    requires
        h >= 1,
        0 <= k < 8,
    ensures
        ({
            let (cx, cy, cz) = child_base(px, py, pz, h, k);
            px <= cx && cx + h <= px + 2 * h && py <= cy && cy + h <= py + 2 * h && pz <= cz && cz
                + h <= pz + 2 * h
        }),
{
}

/// Distinct half-cubes of one cube are disjoint.
pub proof fn lemma_child_cubes_disjoint(px: int, py: int, pz: int, h: int, k1: int, k2: int)
    requires
        h >= 1,
        0 <= k1 < 8,
        0 <= k2 < 8,
        k1 != k2,
    ensures
        ({
            let (a0, a1, a2) = child_base(px, py, pz, h, k1);
            let (b0, b1, b2) = child_base(px, py, pz, h, k2);
            a0 + h <= b0 || b0 + h <= a0 || a1 + h <= b1 || b1 + h <= a1 || a2 + h <= b2 || b2 + h
                <= a2
        }),
{
}

/// Replacing the value held by a unit leaf preserves well-formedness and
/// changes the tree's contents at that single point only.
pub proof fn lemma_unit_leaf_update<T>(octs: Seq<Octant<T>>, octs2: Seq<Octant<T>>, sz: int, idx: int)
    requires
        tree_wf(octs, sz),
        0 <= idx < octs.len(),
        is_leaf(octs[idx]),
        octs[idx].size == 1,
        octs2.len() == octs.len(),
        forall|j: int| 0 <= j < octs.len() && j != idx ==> octs2[j] == octs[j],
        octs2[idx].kind is Chunk,
        octs2[idx].position == octs[idx].position,
        octs2[idx].size == octs[idx].size,
        octs2[idx].enabled,
    ensures
        tree_wf(octs2, sz),
        forall|x: int, y: int, z: int|
            #[trigger] in_cube(sz, x, y, z) ==> chunk_value(octs2[leaf_at(octs2, x, y, z)]) == (
            if x == octs[idx].position.0 && y == octs[idx].position.1 && z
                == octs[idx].position.2 {
                chunk_value(octs2[idx])
            } else {
                chunk_value(octs[leaf_at(octs, x, y, z)])
            }),
{
    assert forall|i: int| 0 <= i < octs2.len() && (#[trigger] octs2[i]).enabled implies {
        &&& octant_within(octs2[i], sz)
        &&& is_pow2(octs2[i].size as int)
        &&& node_wf(octs2, i)
    } by {
        if i != idx {
            assert(octs2[i] == octs[i]);
            if octs2[i].kind is Node {
                assert forall|k: int| 0 <= k < 8 implies #[trigger] child_ok(octs2, i, k) by {
                    assert(child_ok(octs, i, k));
                    let c = child_slot(octs, i, k);
                    assert(octs2[c].enabled && octs2[c].size == octs[c].size && octs2[c].position
                        == octs[c].position);
                }
            }
        }
    }
    assert forall|x: int, y: int, z: int| #[trigger] in_cube(sz, x, y, z) implies exists|i: int|
        covering_leaf(octs2, i, x, y, z) by {
        let i = choose|i: int| covering_leaf(octs, i, x, y, z);
        assert(covering_leaf(octs2, i, x, y, z));
    }
    assert forall|i: int, j: int|
        0 <= i < octs2.len() && 0 <= j < octs2.len() && i != j && is_leaf(#[trigger] octs2[i])
            && is_leaf(#[trigger] octs2[j]) implies octants_disjoint(octs2[i], octs2[j]) by {
        assert(is_leaf(octs[i]) && is_leaf(octs[j]));
        assert(octants_disjoint(octs[i], octs[j]));
    }
    assert forall|i: int, j: int, k1: int, k2: int|
        {
            &&& 0 <= i < octs2.len() && 0 <= j < octs2.len() && i != j
            &&& octs2[i].enabled && octs2[j].enabled
            &&& octs2[i].kind is Node && octs2[j].kind is Node
            &&& 0 <= k1 < 8 && 0 <= k2 < 8
        } implies #[trigger] child_slot(octs2, i, k1) != #[trigger] child_slot(octs2, j, k2) by {
        assert(i != idx && j != idx);
        assert(child_slot(octs2, i, k1) == child_slot(octs, i, k1));
        assert(child_slot(octs2, j, k2) == child_slot(octs, j, k2));
    }
    assert(tree_wf(octs2, sz));
    assert forall|x: int, y: int, z: int| #[trigger]
        in_cube(sz, x, y, z) implies chunk_value(octs2[leaf_at(octs2, x, y, z)]) == (if x
        == octs[idx].position.0 && y == octs[idx].position.1 && z == octs[idx].position.2 {
        chunk_value(octs2[idx])
    } else {
        chunk_value(octs[leaf_at(octs, x, y, z)])
    }) by {
        let i = choose|i: int| covering_leaf(octs, i, x, y, z);
        lemma_leaf_unique(octs, sz, i, x, y, z);
        assert(covering_leaf(octs2, i, x, y, z));
        lemma_leaf_unique(octs2, sz, i, x, y, z);
        if x == octs[idx].position.0 && y == octs[idx].position.1 && z == octs[idx].position.2 {
            assert(covering_leaf(octs, idx, x, y, z));
            lemma_leaf_unique(octs, sz, idx, x, y, z);
        } else {
            if i == idx {
                assert(covers(octs[idx], x, y, z));
                assert(false);
            }
        }
    }
}

/// `==` on `T` means structural equality, as it does for every type whose
/// `PartialEq` compares all fields; merging relies on this to state that a
/// collapsed node holds the same value its children held.
pub open spec fn eq_is_structural<T: PartialEq>() -> bool {
    forall|a: T, b: T| (#[trigger] a.eq_spec(&b)) <==> a == b
}

/// The value held by child slot `k` of the node at `i`.
pub open spec fn slot_value<T>(octs: Seq<Octant<T>>, i: int, k: int) -> T {
    chunk_value(octs[child_slot(octs, i, k)])
}

/// An enabled node whose eight children all hold one equal value, so that a
/// merge pass collapses it back into a single leaf.
pub open spec fn collapsible<T>(octs: Seq<Octant<T>>, i: int) -> bool {
    &&& 0 <= i < octs.len()
    &&& octs[i].enabled
    &&& octs[i].kind is Node
    &&& forall|k: int|
        0 <= k < 8 ==> octs[#[trigger] child_slot(octs, i, k)].kind is Chunk && slot_value(
            octs,
            i,
            k,
        ) == slot_value(octs, i, 0)
}

/// Octant `j` is a child of a collapsible node below `bound`, so a merge
/// pass over indices below `bound` orphans it.
pub open spec fn orphaned_below<T>(octs: Seq<Octant<T>>, j: int, bound: int) -> bool {
    exists|i: int, k: int|
        i < bound && #[trigger] collapsible(octs, i) && 0 <= k < 8 && #[trigger] child_slot(
            octs,
            i,
            k,
        ) == j
}

/// What a merge pass over indices below `bound` leaves at index `j`:
/// collapsible nodes become leaves holding their children's value, their
/// children are disabled, and everything else is untouched.
pub open spec fn partial_merge<T>(octs: Seq<Octant<T>>, j: int, bound: int) -> Octant<T> {
    if collapsible(octs, j) && j < bound {
        Octant {
            kind: OctantKind::Chunk(slot_value(octs, j, 0)),
            position: octs[j].position,
            size: octs[j].size,
            enabled: octs[j].enabled,
        }
    } else if orphaned_below(octs, j, bound) {
        Octant {
            kind: octs[j].kind,
            position: octs[j].position,
            size: octs[j].size,
            enabled: false,
        }
    } else {
        octs[j]
    }
}

/// What one whole merge pass leaves at index `j`.
pub open spec fn merge_result<T>(octs: Seq<Octant<T>>, j: int) -> Octant<T> {
    partial_merge(octs, j, octs.len() as int)
}

/// Distinct child slots sit at distinct corners.
proof fn lemma_child_bases_distinct(px: int, py: int, pz: int, h: int, k1: int, k2: int)
    requires
        h >= 1,
        0 <= k1 < 8,
        0 <= k2 < 8,
        k1 != k2,
    ensures
        child_base(px, py, pz, h, k1) != child_base(px, py, pz, h, k2),
{
}

/// Collapsing one collapsible node — writing its children's common value
/// into it and disabling the eight children — preserves well-formedness and
/// the tree's contents.
proof fn lemma_collapse_step<T>(pre: Seq<Octant<T>>, post: Seq<Octant<T>>, sz: int, i: int)
    requires
        tree_wf(pre, sz),
        collapsible(pre, i),
        post.len() == pre.len(),
        post[i] == (Octant {
            kind: OctantKind::Chunk(slot_value(pre, i, 0)),
            position: pre[i].position,
            size: pre[i].size,
            enabled: pre[i].enabled,
        }),
        forall|k: int|
            0 <= k < 8 ==> post[#[trigger] child_slot(pre, i, k)] == (Octant {
                kind: pre[child_slot(pre, i, k)].kind,
                position: pre[child_slot(pre, i, k)].position,
                size: pre[child_slot(pre, i, k)].size,
                enabled: false,
            }),
        forall|j: int|
            0 <= j < pre.len() && j != i && !(exists|k: int|
                0 <= k < 8 && #[trigger] child_slot(pre, i, k) == j) ==> post[j] == pre[j],
    ensures
        tree_wf(post, sz),
        forall|x: int, y: int, z: int|
            #[trigger] in_cube(sz, x, y, z) ==> chunk_value(post[leaf_at(post, x, y, z)])
                == chunk_value(pre[leaf_at(pre, x, y, z)]),
{
    let o = pre[i];
    let h = o.size as int / 2;
    let pxi = o.position.0 as int;
    let pyi = o.position.1 as int;
    let pzi = o.position.2 as int;
    assert(node_wf(pre, i));
    assert(is_pow2(o.size as int));
    assert(o.size as int == 2 * h && h >= 1);
    // Every point of the node's cube lies in exactly one (former) child.
    assert forall|x: int, y: int, z: int|
        covers(o, x, y, z) implies exists|k: int|
        0 <= k < 8 && covers(pre[child_slot(pre, i, k)], x, y, z) by {
        let k = lemma_point_in_child(pxi, pyi, pzi, h, x, y, z);
        assert(child_ok(pre, i, k));
        assert(covers(pre[child_slot(pre, i, k)], x, y, z));
    }
    // Octant bounds, sizes, child shape.
    assert forall|j: int| 0 <= j < post.len() && (#[trigger] post[j]).enabled implies {
        &&& octant_within(post[j], sz)
        &&& is_pow2(post[j].size as int)
        &&& node_wf(post, j)
    } by {
        assert(post[j].position == pre[j].position && post[j].size == pre[j].size);
        assert(pre[j].enabled || post[j] == pre[j]);
        if post[j].kind is Node {
            assert(post[j].kind == pre[j].kind || j == i);
            assert(pre[j].kind is Node && post[j].kind == pre[j].kind && pre[j].enabled);
            assert forall|k: int| 0 <= k < 8 implies #[trigger] child_ok(post, j, k) by {
                assert(child_ok(pre, j, k));
                let c = child_slot(pre, j, k);
                assert(child_slot(post, j, k) == c);
                // `c` is not one of the disabled children: a child is owned
                // by exactly one enabled node, and `i` is no longer a node
                // in `post` while `j` still is, so `j != i`.
                assert(j != i);
                assert forall|k2: int| 0 <= k2 < 8 implies #[trigger] child_slot(pre, i, k2)
                    != c by {
                    assert(child_slot(pre, i, k2) != child_slot(pre, j, k));
                }
                if c != i {
                    assert(post[c] == pre[c]);
                }
                assert(post[c].enabled == pre[c].enabled && post[c].size == pre[c].size
                    && post[c].position == pre[c].position);
            }
        }
    }
    // Cover: points under a disabled child are now covered by `i` itself.
    assert forall|x: int, y: int, z: int| #[trigger] in_cube(sz, x, y, z) implies exists|j: int|
        covering_leaf(post, j, x, y, z) by {
        let l = choose|l: int| covering_leaf(pre, l, x, y, z);
        if exists|k: int| 0 <= k < 8 && #[trigger] child_slot(pre, i, k) == l {
            let k = choose|k: int| 0 <= k < 8 && #[trigger] child_slot(pre, i, k) == l;
            assert(child_ok(pre, i, k));
            lemma_child_in_parent(pxi, pyi, pzi, h, k);
            assert(covers(o, x, y, z));
            assert(covering_leaf(post, i, x, y, z));
        } else if l == i {
            assert(false);
        } else {
            assert(covering_leaf(post, l, x, y, z));
        }
    }
    // Disjointness: the new leaf `i` covers exactly what its children did.
    assert forall|a: int, b: int|
        0 <= a < post.len() && 0 <= b < post.len() && a != b && is_leaf(#[trigger] post[a])
            && is_leaf(#[trigger] post[b]) implies octants_disjoint(post[a], post[b]) by {
        if a != i && b != i {
            assert(is_leaf(pre[a]) && is_leaf(pre[b]));
            assert(octants_disjoint(pre[a], pre[b]));
        } else {
            let m = if a == i {
                b
            } else {
                a
            };
            assert(is_leaf(pre[m]));
            if !octants_disjoint(post[a], post[b]) {
                let pm = pre[m];
                // A common point of the two overlapping cubes.
                let qx = vstd::math::max(pm.position.0 as int, pxi);
                let qy = vstd::math::max(pm.position.1 as int, pyi);
                let qz = vstd::math::max(pm.position.2 as int, pzi);
                assert(covers(pm, qx, qy, qz) && covers(o, qx, qy, qz));
                let k = lemma_point_in_child(pxi, pyi, pzi, h, qx, qy, qz);
                assert(child_ok(pre, i, k));
                let c = child_slot(pre, i, k);
                assert(covers(pre[c], qx, qy, qz));
                assert(is_leaf(pre[c]));
                assert(m != c ==> octants_disjoint(pre[m], pre[c]));
                assert(false);
            }
        }
    }
    // No child sharing among the remaining enabled nodes.
    assert forall|a: int, b: int, k1: int, k2: int|
        {
            &&& 0 <= a < post.len() && 0 <= b < post.len() && a != b
            &&& post[a].enabled && post[b].enabled
            &&& post[a].kind is Node && post[b].kind is Node
            &&& 0 <= k1 < 8 && 0 <= k2 < 8
        } implies #[trigger] child_slot(post, a, k1) != #[trigger] child_slot(post, b, k2) by {
        assert(a != i && b != i);
        assert(pre[a].enabled && pre[b].enabled && pre[a].kind is Node && pre[b].kind is Node);
        assert(child_slot(post, a, k1) == child_slot(pre, a, k1));
        assert(child_slot(post, b, k2) == child_slot(pre, b, k2));
    }
    // The root is never a child (children sit above their parent), so it
    // keeps its place, size and enabled flag.
    assert(post[0].enabled && post[0].size == sz && post[0].position == pre[0].position) by {
        if exists|k: int| 0 <= k < 8 && #[trigger] child_slot(pre, i, k) == 0 {
            let k = choose|k: int| 0 <= k < 8 && #[trigger] child_slot(pre, i, k) == 0;
            assert(child_ok(pre, i, k));
            assert(false);
        }
    }
    assert(tree_wf(post, sz));
    // Contents unchanged: under the collapsed node every child held the
    // node's new value; elsewhere the covering leaf is untouched.
    assert forall|x: int, y: int, z: int| #[trigger]
        in_cube(sz, x, y, z) implies chunk_value(post[leaf_at(post, x, y, z)]) == chunk_value(
        pre[leaf_at(pre, x, y, z)],
    ) by {
        let l = choose|l: int| covering_leaf(pre, l, x, y, z);
        lemma_leaf_unique(pre, sz, l, x, y, z);
        if exists|k: int| 0 <= k < 8 && #[trigger] child_slot(pre, i, k) == l {
            let k = choose|k: int| 0 <= k < 8 && #[trigger] child_slot(pre, i, k) == l;
            assert(child_ok(pre, i, k));
            lemma_child_in_parent(pxi, pyi, pzi, h, k);
            assert(covering_leaf(post, i, x, y, z));
            lemma_leaf_unique(post, sz, i, x, y, z);
            assert(chunk_value(pre[l]) == slot_value(pre, i, k));
        } else {
            assert(l != i);
            assert(covering_leaf(post, l, x, y, z));
            lemma_leaf_unique(post, sz, l, x, y, z);
        }
    }
}

/// Partition invariant: every point of `[0, SZ)^3` is covered by exactly
/// one enabled leaf octant. This holds of any tree satisfying `wf`, hence
/// after any sequence of writes, splits and merges, since every operation
/// of the tree preserves `wf`.
pub proof fn lemma_partition_invariant<const SZ: usize, T>(
    t: Octree<SZ, T>,
    x: int,
    y: int,
    z: int,
)
    requires
        t.wf(),
        in_cube(SZ as int, x, y, z),
    ensures
        exists|i: int| covering_leaf(t.octants@, i, x, y, z),
        forall|i: int, j: int|
            covering_leaf(t.octants@, i, x, y, z) && covering_leaf(t.octants@, j, x, y, z) ==> i
                == j,
{
    assert forall|i: int, j: int|
        covering_leaf(t.octants@, i, x, y, z) && covering_leaf(
            t.octants@,
            j,
            x,
            y,
            z,
        ) implies i == j by {
        lemma_leaf_unique(t.octants@, SZ as int, i, x, y, z);
        lemma_leaf_unique(t.octants@, SZ as int, j, x, y, z);
    }
}

/// Split/merge inverse, seen through the tree's contents: a write that
/// stores the value its point already held leaves the view of the tree
/// unchanged — and `merge` never changes the view — so writing a point of a
/// uniform tree back to its own value and merging until stable denotes the
/// original tree exactly. (That the merged arena also reproduces the
/// original octant shapes is checked over concrete runs in the test suite.)
pub proof fn lemma_same_value_write_view_inverse<const SZ: usize, T>(
    before: Octree<SZ, T>,
    after: Octree<SZ, T>,
    pos: OctantPos,
    v: T,
)
    requires
        before.wf(),
        in_cube(SZ as int, pos.0 as int, pos.1 as int, pos.2 as int),
        // the written value equals the value already there
        v == before.spec_at(pos.0 as int, pos.1 as int, pos.2 as int),
        // `after` is what writing `v` at `pos` through `get_mut` leaves
        forall|x: int, y: int, z: int|
            in_cube(SZ as int, x, y, z) ==> after.spec_at(x, y, z) == (if x == pos.0 && y == pos.1
                && z == pos.2 {
                v
            } else {
                before.spec_at(x, y, z)
            }),
    ensures
        forall|x: int, y: int, z: int|
            in_cube(SZ as int, x, y, z) ==> after.spec_at(x, y, z) == before.spec_at(x, y, z),
{
}

/// The enabled octants of the arena, in arena order.
pub open spec fn enabled_octants<T>(octs: Seq<Octant<T>>) -> Seq<Octant<T>> {
    octs.filter(|o: Octant<T>| o.enabled)
}

/// Every entry of `enabled_octants` is an enabled octant of the arena.
pub proof fn lemma_enabled_octants_sub<T>(octs: Seq<Octant<T>>)
    ensures
        forall|j: int|
            0 <= j < enabled_octants(octs).len() ==> (#[trigger] enabled_octants(
                octs,
            )[j]).enabled && octs.contains(enabled_octants(octs)[j]),
    decreases octs.len(),
{
    reveal(Seq::filter);
    if octs.len() > 0 {
        lemma_enabled_octants_sub(octs.drop_last());
        let sub = enabled_octants(octs.drop_last());
        assert forall|j: int| 0 <= j < enabled_octants(octs).len() implies (#[trigger]
        enabled_octants(octs)[j]).enabled && octs.contains(enabled_octants(octs)[j]) by {
            if j < sub.len() {
                assert(enabled_octants(octs)[j] == sub[j]);
                let m = choose|m: int| 0 <= m < octs.drop_last().len() && octs.drop_last()[m]
                    == sub[j];
                assert(octs[m] == sub[j]);
            } else {
                assert(enabled_octants(octs)[j] == octs.last());
                assert(octs[octs.len() - 1] == octs.last());
            }
        }
    }
}

/// Every enabled octant of the arena appears among `enabled_octants`.
pub proof fn lemma_enabled_octants_complete<T>(octs: Seq<Octant<T>>, i: int)
    requires
        0 <= i < octs.len(),
        octs[i].enabled,
    ensures
        enabled_octants(octs).contains(octs[i]),
    decreases octs.len(),
{
    reveal(Seq::filter);
    if i == octs.len() - 1 {
        assert(enabled_octants(octs).last() == octs[i]);
    } else {
        lemma_enabled_octants_complete(octs.drop_last(), i);
        let fd = enabled_octants(octs.drop_last());
        let j = choose|j: int| 0 <= j < fd.len() && fd[j] == octs.drop_last()[i];
        assert(enabled_octants(octs)[j] == octs[i]);
    }
}

/// Two distinct entries of `enabled_octants` come from two distinct arena
/// slots (filtering never duplicates an entry).
pub proof fn lemma_enabled_octants_distinct_sources<T>(octs: Seq<Octant<T>>, j1: int, j2: int)
    requires
        0 <= j1 < j2 < enabled_octants(octs).len(),
    ensures
        exists|i1: int, i2: int|
            0 <= i1 < i2 < octs.len() && octs[i1] == enabled_octants(octs)[j1] && octs[i2]
                == enabled_octants(octs)[j2],
    decreases octs.len(),
{
    reveal(Seq::filter);
    let f = enabled_octants(octs);
    let fd = enabled_octants(octs.drop_last());
    if octs.last().enabled {
        if j2 < fd.len() {
            lemma_enabled_octants_distinct_sources(octs.drop_last(), j1, j2);
            let (i1, i2) = choose|i1: int, i2: int|
                0 <= i1 < i2 < octs.drop_last().len() && octs.drop_last()[i1] == fd[j1]
                    && octs.drop_last()[i2] == fd[j2];
            assert(octs[i1] == f[j1] && octs[i2] == f[j2]);
        } else {
            assert(f[j2] == octs.last());
            lemma_enabled_octants_sub(octs.drop_last());
            assert(octs.drop_last().contains(fd[j1]));
            let i1 = choose|i1: int|
                0 <= i1 < octs.drop_last().len() && octs.drop_last()[i1] == fd[j1];
            let i2 = octs.len() - 1;
            assert(octs[i1] == f[j1] && octs[i2] == f[j2]);
        }
    } else {
        lemma_enabled_octants_distinct_sources(octs.drop_last(), j1, j2);
        let (i1, i2) = choose|i1: int, i2: int|
            0 <= i1 < i2 < octs.drop_last().len() && octs.drop_last()[i1] == fd[j1]
                && octs.drop_last()[i2] == fd[j2];
        assert(octs[i1] == f[j1] && octs[i2] == f[j2]);
    }
}

/// Two enabled leaf entries of `enabled_octants` that share a point are one
/// and the same entry, by the tree's partition invariant.
pub proof fn lemma_enabled_leaves_unique<T>(
    octs: Seq<Octant<T>>,
    sz: int,
    j1: int,
    j2: int,
    x: int,
    y: int,
    z: int,
)
    requires
        tree_wf(octs, sz),
        0 <= j1 < enabled_octants(octs).len(),
        0 <= j2 < enabled_octants(octs).len(),
        enabled_octants(octs)[j1].kind is Chunk,
        enabled_octants(octs)[j2].kind is Chunk,
        covers(enabled_octants(octs)[j1], x, y, z),
        covers(enabled_octants(octs)[j2], x, y, z),
    ensures
        j1 == j2,
{
    lemma_enabled_octants_sub(octs);
    if j1 != j2 {
        let (ja, jb) = if j1 < j2 {
            (j1, j2)
        } else {
            (j2, j1)
        };
        lemma_enabled_octants_distinct_sources(octs, ja, jb);
        let (i1, i2) = choose|i1: int, i2: int|
            0 <= i1 < i2 < octs.len() && octs[i1] == enabled_octants(octs)[ja] && octs[i2]
                == enabled_octants(octs)[jb];
        assert(is_leaf(octs[i1]) && is_leaf(octs[i2]));
        assert(octants_disjoint(octs[i1], octs[i2]));
        assert(false);
    }
}

/// Extending the arena by one octant extends its enabled octants by that
/// octant when it is enabled.
pub proof fn lemma_enabled_octants_step<T>(octs: Seq<Octant<T>>, i: int)
    requires
        0 <= i < octs.len(),
    ensures
        enabled_octants(octs.take(i + 1)) == if octs[i].enabled {
            enabled_octants(octs.take(i)).push(octs[i])
        } else {
            enabled_octants(octs.take(i))
        },
{
    reveal(Seq::filter);
    assert(octs.take(i + 1).drop_last() == octs.take(i));
    assert(octs.take(i + 1).last() == octs[i]);
}

/// Lexicographic point order agrees with the flattened index order.
proof fn lemma_lex_index(sz: int, px: int, py: int, pz: int, x: int, y: int, z: int)
    by (nonlinear_arith)
    requires
        0 <= px < sz,
        0 <= py < sz,
        0 <= pz < sz,
        0 <= x <= sz,
        0 <= y <= sz,
        0 <= z <= sz,
        px < x || (px == x && py < y) || (px == x && py == y && pz < z),
    ensures
        0 <= (px * sz + py) * sz + pz,
        (px * sz + py) * sz + pz < (x * sz + y) * sz + z,
        (px * sz + py) * sz + pz < x * sz * sz + y * sz + z,
{
}

impl<const SZ: usize, T: Copy + Default> Octree<SZ, T> {
    /// A tree holding the default value everywhere, as a single root leaf.
    pub fn new() -> (r: Self)
        requires
            is_pow2(SZ as int),
        ensures
            r.wf(),
            r.octants@.len() == 1,
            r.octants@[0].kind is Chunk,
            // the one leaf holds what `T::default()` returns
            call_ensures(T::default, (), chunk_value(r.octants@[0])),
            forall|x: int, y: int, z: int|
                in_cube(SZ as int, x, y, z) ==> r.spec_at(x, y, z) == chunk_value(r.octants@[0]),
    {
        Self::new_filled(T::default())
    }
}

impl<const SZ: usize, T: Copy> Octree<SZ, T> {
    /// A tree holding `value` everywhere, as a single root leaf.
    pub fn new_filled(value: T) -> (r: Self)
        requires
            is_pow2(SZ as int),
        ensures
            r.wf(),
            r.octants@.len() == 1,
            r.octants@[0].kind == OctantKind::Chunk(value),
            forall|x: int, y: int, z: int|
                in_cube(SZ as int, x, y, z) ==> r.spec_at(x, y, z) == value,
    {
        let root = Octant {
            kind: OctantKind::Chunk(value),
            position: OctantPos(0, 0, 0),
            size: SZ,
            enabled: true,
        };
        let mut octants: Vec<Octant<T>> = Vec::new();
        octants.push(root);
        let r = Self { octants };
        proof {
            assert forall|x: int, y: int, z: int| #[trigger]
                in_cube(SZ as int, x, y, z) implies exists|i: int|
                covering_leaf(r.octants@, i, x, y, z) by {
                assert(covering_leaf(r.octants@, 0, x, y, z));
            }
            assert forall|x: int, y: int, z: int|
                in_cube(SZ as int, x, y, z) implies r.spec_at(x, y, z) == value by {
                lemma_leaf_unique(r.octants@, SZ as int, 0, x, y, z);
            }
        }
        r
    }

    /// Look up the value covering `pos` by descending from the root.
    pub fn get(&self, pos: OctantPos) -> (r: &T)
        requires
            self.wf(),
            in_cube(SZ as int, pos.0 as int, pos.1 as int, pos.2 as int),
        ensures
            *r == self.spec_at(pos.0 as int, pos.1 as int, pos.2 as int),
    {
        let (x, y, z) = (pos.0, pos.1, pos.2);
        let mut idx: usize = 0;
        loop
            invariant
                self.wf(),
                x == pos.0 && y == pos.1 && z == pos.2,
                in_cube(SZ as int, x as int, y as int, z as int),
                idx < self.octants.len(),
                self.octants@[idx as int].enabled,
                covers(self.octants@[idx as int], x as int, y as int, z as int),
            decreases self.octants@[idx as int].size,
        {
            let o = &self.octants[idx];
            match &o.kind {
                OctantKind::Chunk(v) => {
                    proof {
                        lemma_leaf_unique(
                            self.octants@,
                            SZ as int,
                            idx as int,
                            x as int,
                            y as int,
                            z as int,
                        );
                        assert(leaf_at(self.octants@, x as int, y as int, z as int) == idx as int);
                        assert(self.octants@[idx as int].kind == OctantKind::Chunk(*v));
                        assert(chunk_value(self.octants@[idx as int]) == *v);
                    }
                    return v;
                },
                OctantKind::Node(ch) => {
                    let h = o.size / 2;
                    let dx: usize = if x >= o.position.0 + h {
                        1
                    } else {
                        0
                    };
                    let dy: usize = if y >= o.position.1 + h {
                        1
                    } else {
                        0
                    };
                    let dz: usize = if z >= o.position.2 + h {
                        1
                    } else {
                        0
                    };
                    let k = dx * 4 + dy * 2 + dz;
                    proof {
                        assert(node_wf(self.octants@, idx as int));
                        assert(child_ok(self.octants@, idx as int, k as int));
                    }
                    idx = ch[k];
                },
            }
        }
    }

    /// Every octant in the tree, in arena order, skipping orphaned entries.
    pub fn iter_octants(&self) -> (r: Vec<Octant<T>>)
        ensures
            r@ == enabled_octants(self.octants@),
    {
        let mut r: Vec<Octant<T>> = Vec::new();
        let n = self.octants.len();
        let mut i: usize = 0;
        while i < n
            invariant
                n == self.octants@.len(),
                i <= n,
                r@ == enabled_octants(self.octants@.take(i as int)),
            decreases n - i,
        {
            let o = self.octants[i];
            proof {
                lemma_enabled_octants_step(self.octants@, i as int);
            }
            if o.enabled {
                r.push(o);
            }
            i += 1;
        }
        proof {
            assert(self.octants@.take(n as int) == self.octants@);
        }
        r
    }

    /// Every value in the tree with its position, one entry per point of
    /// `[0, SZ)^3`, in lexicographic x, y, z order.
    pub fn iter(&self) -> (r: Vec<(OctantPos, T)>)
        requires
            self.wf(),
        ensures
            r@.len() == SZ * SZ * SZ,
            forall|x: int, y: int, z: int|
                #[trigger] in_cube(SZ as int, x, y, z) ==> r@[(x * SZ + y) * SZ + z] == (
                OctantPos(x as usize, y as usize, z as usize),
                self.spec_at(x, y, z),
            ),
    {
        let mut r: Vec<(OctantPos, T)> = Vec::new();
        let mut x: usize = 0;
        while x < SZ
            invariant
                self.wf(),
                x <= SZ,
                r@.len() == x * SZ * SZ,
                forall|px: int, py: int, pz: int|
                    #[trigger] in_cube(SZ as int, px, py, pz) && px < x ==> r@[(px * SZ + py) * SZ
                        + pz] == (OctantPos(px as usize, py as usize, pz as usize), self.spec_at(
                        px,
                        py,
                        pz,
                    )),
            decreases SZ - x,
        {
            let mut y: usize = 0;
            while y < SZ
                invariant
                    self.wf(),
                    x < SZ,
                    y <= SZ,
                    r@.len() == x * SZ * SZ + y * SZ,
                    forall|px: int, py: int, pz: int|
                        #[trigger] in_cube(SZ as int, px, py, pz) && (px < x || (px == x && py
                            < y)) ==> r@[(px * SZ + py) * SZ + pz] == (OctantPos(
                            px as usize,
                            py as usize,
                            pz as usize,
                        ), self.spec_at(px, py, pz)),
                decreases SZ - y,
            {
                let mut z: usize = 0;
                while z < SZ
                    invariant
                        self.wf(),
                        x < SZ,
                        y < SZ,
                        z <= SZ,
                        r@.len() == x * SZ * SZ + y * SZ + z,
                        forall|px: int, py: int, pz: int|
                            #[trigger] in_cube(SZ as int, px, py, pz) && (px < x || (px == x && (py
                                < y || (py == y && pz < z)))) ==> r@[(px * SZ + py) * SZ + pz] == (
                            OctantPos(px as usize, py as usize, pz as usize),
                            self.spec_at(px, py, pz),
                        ),
                    decreases SZ - z,
                {
                    let pos = OctantPos(x, y, z);
                    let v = *self.get(pos);
                    proof {
                        assert((x * SZ + y) * SZ + z == x * SZ * SZ + y * SZ + z) by (nonlinear_arith);
                    }
                    r.push((pos, v));
                    proof {
                        let sz = SZ as int;
                        let (xi, yi, zi) = (x as int, y as int, z as int);
                        assert forall|px: int, py: int, pz: int|
                            #[trigger] in_cube(sz, px, py, pz) && (px < xi || (px == xi && (py < yi
                                || (py == yi && pz <= zi)))) implies r@[(px * sz + py) * sz + pz]
                            == (OctantPos(px as usize, py as usize, pz as usize), self.spec_at(
                            px,
                            py,
                            pz,
                        )) by {
                            if px == xi && py == yi && pz == zi {
                                assert(r@[(px * sz + py) * sz + pz] == (pos, v));
                            } else {
                                lemma_lex_index(sz, px, py, pz, xi, yi, zi);
                            }
                        }
                    }
                    z += 1;
                }
                proof {
                    assert(x * SZ * SZ + y * SZ + SZ == x * SZ * SZ + (y + 1) * SZ) by (nonlinear_arith);
                }
                y += 1;
            }
            proof {
                assert(x * SZ * SZ + SZ * SZ == (x + 1) * SZ * SZ) by (nonlinear_arith);
            }
            x += 1;
        }
        r
    }

    /// Among the children of the node at `idx`, find the one containing `pos`.
    fn child_containing(&self, idx: usize, pos: OctantPos) -> (c: usize)
        requires
            self.wf(),
            idx < self.octants@.len(),
            self.octants@[idx as int].enabled,
            self.octants@[idx as int].kind is Node,
            covers(self.octants@[idx as int], pos.0 as int, pos.1 as int, pos.2 as int),
        ensures
            c < self.octants@.len(),
            c > idx,
            self.octants@[c as int].enabled,
            self.octants@[c as int].size == self.octants@[idx as int].size / 2,
            covers(self.octants@[c as int], pos.0 as int, pos.1 as int, pos.2 as int),
    {
        let o = &self.octants[idx];
        let (x, y, z) = (pos.0, pos.1, pos.2);
        let h = o.size / 2;
        let dx: usize = if x >= o.position.0 + h {
            1
        } else {
            0
        };
        let dy: usize = if y >= o.position.1 + h {
            1
        } else {
            0
        };
        let dz: usize = if z >= o.position.2 + h {
            1
        } else {
            0
        };
        let k = dx * 4 + dy * 2 + dz;
        proof {
            assert(node_wf(self.octants@, idx as int));
            assert(child_ok(self.octants@, idx as int, k as int));
        }
        match &o.kind {
            OctantKind::Node(ch) => ch[k],
            OctantKind::Chunk(_) => vstd::pervasive::unreached(),
        }
    }

    /// Descend to the unit leaf at `pos`, splitting any larger homogeneous
    /// octant on the way down; the tree's contents are unchanged.
    fn locate_unit(&mut self, pos: OctantPos) -> (idx: usize)
        requires
            old(self).wf(),
            in_cube(SZ as int, pos.0 as int, pos.1 as int, pos.2 as int),
        ensures
            final(self).wf(),
            idx < final(self).octants@.len(),
            ({
                let o = final(self).octants@[idx as int];
                &&& is_leaf(o)
                &&& o.size == 1
                &&& o.position == pos
            }),
            chunk_value(final(self).octants@[idx as int]) == old(self).spec_at(
                pos.0 as int,
                pos.1 as int,
                pos.2 as int,
            ),
            forall|x: int, y: int, z: int|
                in_cube(SZ as int, x, y, z) ==> final(self).spec_at(x, y, z) == old(self).spec_at(
                    x,
                    y,
                    z,
                ),
    {
        let (x, y, z) = (pos.0, pos.1, pos.2);
        let mut idx: usize = 0;
        loop
            invariant
                self.wf(),
                x == pos.0 && y == pos.1 && z == pos.2,
                in_cube(SZ as int, x as int, y as int, z as int),
                idx < self.octants@.len(),
                self.octants@[idx as int].enabled,
                covers(self.octants@[idx as int], x as int, y as int, z as int),
                forall|qx: int, qy: int, qz: int|
                    in_cube(SZ as int, qx, qy, qz) ==> self.spec_at(qx, qy, qz) == old(
                        self,
                    ).spec_at(qx, qy, qz),
            decreases self.octants@[idx as int].size,
        {
            let is_chunk = matches!(&self.octants[idx].kind, OctantKind::Chunk(_));
            if is_chunk {
                if self.octants[idx].size == 1 {
                    proof {
                        let o = self.octants@[idx as int];
                        assert(o.position.0 == x && o.position.1 == y && o.position.2 == z);
                        lemma_leaf_unique(
                            self.octants@,
                            SZ as int,
                            idx as int,
                            x as int,
                            y as int,
                            z as int,
                        );
                    }
                    return idx;
                }
                let indexes = self.split_chunk(idx);
                idx = self.child_containing(idx, pos);
            } else {
                idx = self.child_containing(idx, pos);
            }
        }
    }

    /// Get a mutable reference to the value at the given position,
    /// splitting octants down to a unit leaf as needed.
    pub fn get_mut(&mut self, pos: OctantPos) -> (r: &mut T)
        requires
            old(self).wf(),
            in_cube(SZ as int, pos.0 as int, pos.1 as int, pos.2 as int),
        ensures
            *r == old(self).spec_at(pos.0 as int, pos.1 as int, pos.2 as int),
            final(self).wf(),
            forall|x: int, y: int, z: int|
                in_cube(SZ as int, x, y, z) ==> final(self).spec_at(x, y, z) == (if x == pos.0 && y
                    == pos.1 && z == pos.2 {
                    *final(r)
                } else {
                    old(self).spec_at(x, y, z)
                }),
    {
        let idx = self.locate_unit(pos);
        let ghost mid = self.octants@;
        let o = &mut self.octants[idx];
        match &mut o.kind {
            OctantKind::Chunk(v) => {
                proof {
                    let sz = SZ as int;
                    assert forall|o2: Octant<T>|
                        o2.kind is Chunk && o2.position == mid[idx as int].position && o2.size
                            == mid[idx as int].size && o2.enabled implies {
                        let octs2 = #[trigger] mid.update(idx as int, o2);
                        &&& tree_wf(octs2, sz)
                        &&& forall|x: int, y: int, z: int|
                            #[trigger] in_cube(sz, x, y, z) ==> chunk_value(
                                octs2[leaf_at(octs2, x, y, z)],
                            ) == (if x == pos.0 && y == pos.1 && z == pos.2 {
                                chunk_value(o2)
                            } else {
                                chunk_value(mid[leaf_at(mid, x, y, z)])
                            })
                    } by {
                        let octs2 = mid.update(idx as int, o2);
                        lemma_unit_leaf_update(mid, octs2, sz, idx as int);
                    }
                }
                v
            },
            OctantKind::Node(_) => vstd::pervasive::unreached(),
        }
    }

    /// Attempt to merge octants, returning `true` if any merge happened:
    /// one pass in arena order that collapses every node whose eight
    /// children are equal leaves, orphaning the children. One call only
    /// collapses one level wherever it applies; callers wanting full
    /// bottom-up simplification call repeatedly until it returns `false`.
    #[verifier::rlimit(50)]
    pub fn merge(&mut self) -> (r: bool) where T: Eq
        requires
            old(self).wf(),
            T::obeys_eq_spec(),
            eq_is_structural::<T>(),
        ensures
            final(self).wf(),
            final(self).octants@.len() == old(self).octants@.len(),
            forall|j: int|
                0 <= j < old(self).octants@.len() ==> final(self).octants@[j] == merge_result(
                    old(self).octants@,
                    j,
                ),
            r == exists|i: int| collapsible(old(self).octants@, i),
            forall|x: int, y: int, z: int|
                in_cube(SZ as int, x, y, z) ==> final(self).spec_at(x, y, z) == old(self).spec_at(
                    x,
                    y,
                    z,
                ),
    {
        let ghost orig = self.octants@;
        let ghost sz = SZ as int;
        let mut any = false;
        let n = self.octants.len();
        let mut idx: usize = 0;
        while idx < n
            invariant
                self.wf(),
                sz == SZ as int,
                n == orig.len(),
                self.octants@.len() == n,
                idx <= n,
                tree_wf(orig, sz),
                T::obeys_eq_spec(),
                eq_is_structural::<T>(),
                forall|j: int|
                    0 <= j < n ==> self.octants@[j] == partial_merge(orig, j, idx as int),
                any == exists|i: int| i < idx && collapsible(orig, i),
                forall|x: int, y: int, z: int|
                    #[trigger] in_cube(sz, x, y, z) ==> self.spec_at(x, y, z) == chunk_value(
                        orig[leaf_at(orig, x, y, z)],
                    ),
            decreases n - idx,
        {
            let ghost pre = self.octants@;
            let enabled = self.octants[idx].enabled;
            let kind = self.octants[idx].kind;
            let mut collapsed = false;
            if enabled {
                proof {
                    // An octant this pass has not disabled is unchanged.
                    assert(pre[idx as int] == orig[idx as int]);
                }
                match kind {
                    OctantKind::Node(ch) => {
                        proof {
                            assert(node_wf(pre, idx as int));
                            assert(child_ok(pre, idx as int, 0));
                            // This pass has not touched any child of `idx`:
                            // children sit above their parent, and no other
                            // (collapsible) node shares them.
                            assert forall|k: int| 0 <= k < 8 implies pre[#[trigger] child_slot(
                                pre,
                                idx as int,
                                k,
                            )] == orig[child_slot(pre, idx as int, k)] by {
                                assert(child_ok(pre, idx as int, k));
                                let c = child_slot(pre, idx as int, k);
                                assert(child_slot(orig, idx as int, k) == c);
                                assert(idx < c < n);
                                assert(pre[c] == partial_merge(orig, c, idx as int));
                                if orphaned_below(orig, c, idx as int) {
                                    let (i2, k2) = choose|i2: int, k2: int|
                                        i2 < idx && #[trigger] collapsible(orig, i2) && 0 <= k2 < 8
                                            && #[trigger] child_slot(orig, i2, k2) == c;
                                    assert(child_slot(orig, i2, k2) != child_slot(
                                        orig,
                                        idx as int,
                                        k,
                                    ));
                                    assert(false);
                                }
                                assert(!collapsible(orig, c) || c >= idx);
                            }
                        }
                        let c0 = ch[0];
                        match self.octants[c0].kind {
                            OctantKind::Chunk(fv) => {
                                let mut ok = true;
                                let mut kk: usize = 0;
                                while kk < 8
                                    invariant
                                        self.octants@ == pre,
                                        self.wf(),
                                        n == self.octants@.len(),
                                        idx < n,
                                        kk <= 8,
                                        T::obeys_eq_spec(),
                                        eq_is_structural::<T>(),
                                        pre[idx as int].enabled,
                                        pre[idx as int].kind == OctantKind::<T>::Node(ch),
                                        fv == chunk_value(pre[child_slot(pre, idx as int, 0)]),
                                        ok == (forall|k2: int|
                                            0 <= k2 < kk ==> pre[#[trigger] child_slot(
                                                pre,
                                                idx as int,
                                                k2,
                                            )].kind is Chunk && slot_value(pre, idx as int, k2)
                                                == fv),
                                    decreases 8 - kk,
                                {
                                    proof {
                                        assert(node_wf(pre, idx as int));
                                        assert(child_ok(pre, idx as int, kk as int));
                                    }
                                    let c = ch[kk];
                                    let this_ok = match &self.octants[c].kind {
                                        OctantKind::Chunk(v) => *v == fv,
                                        OctantKind::Node(_) => false,
                                    };
                                    ok = ok && this_ok;
                                    kk += 1;
                                }
                                if ok {
                                    proof {
                                        assert(collapsible(pre, idx as int));
                                        assert forall|k: int| 0 <= k < 8 implies orig[#[trigger]
                                        child_slot(orig, idx as int, k)].kind is Chunk
                                            && slot_value(orig, idx as int, k) == slot_value(
                                            orig,
                                            idx as int,
                                            0,
                                        ) by {
                                            assert(child_slot(orig, idx as int, k) == child_slot(
                                                pre,
                                                idx as int,
                                                k,
                                            ));
                                            assert(pre[child_slot(pre, idx as int, k)]
                                                == orig[child_slot(pre, idx as int, k)]);
                                            assert(pre[child_slot(pre, idx as int, k)].kind
                                                is Chunk && slot_value(pre, idx as int, k) == fv);
                                            assert(pre[child_slot(pre, idx as int, 0)]
                                                == orig[child_slot(pre, idx as int, 0)]);
                                        }
                                        assert(collapsible(orig, idx as int));
                                    }
                                    let pos = self.octants[idx].position;
                                    let size = self.octants[idx].size;
                                    let slot = &mut self.octants[idx];
                                    *slot = Octant {
                                        kind: OctantKind::Chunk(fv),
                                        position: pos,
                                        size,
                                        enabled: true,
                                    };
                                    proof {
                                        // The eight children are distinct
                                        // indices, all above `idx`.
                                        assert forall|k1: int, k2: int|
                                            0 <= k1 < 8 && 0 <= k2 < 8 && k1 != k2 implies ch@[k1]
                                            != ch@[k2] by {
                                            assert(child_ok(pre, idx as int, k1));
                                            assert(child_ok(pre, idx as int, k2));
                                            let o = pre[idx as int];
                                            lemma_child_bases_distinct(
                                                o.position.0 as int,
                                                o.position.1 as int,
                                                o.position.2 as int,
                                                o.size as int / 2,
                                                k1,
                                                k2,
                                            );
                                        }
                                        assert forall|k: int| 0 <= k < 8 implies idx < #[trigger]
                                            ch@[k] < n by {
                                            assert(child_ok(pre, idx as int, k));
                                        }
                                    }
                                    let s0 = &mut self.octants[ch[0]];
                                    s0.enabled = false;
                                    let s1 = &mut self.octants[ch[1]];
                                    s1.enabled = false;
                                    let s2 = &mut self.octants[ch[2]];
                                    s2.enabled = false;
                                    let s3 = &mut self.octants[ch[3]];
                                    s3.enabled = false;
                                    let s4 = &mut self.octants[ch[4]];
                                    s4.enabled = false;
                                    let s5 = &mut self.octants[ch[5]];
                                    s5.enabled = false;
                                    let s6 = &mut self.octants[ch[6]];
                                    s6.enabled = false;
                                    let s7 = &mut self.octants[ch[7]];
                                    s7.enabled = false;
                                    any = true;
                                    collapsed = true;
                                    proof {
                                        let post = self.octants@;
                                        assert forall|j: int|
                                            0 <= j < n && j != idx && !(exists|k: int|
                                                0 <= k < 8 && #[trigger] child_slot(
                                                    pre,
                                                    idx as int,
                                                    k,
                                                ) == j) implies post[j] == pre[j] by {
                                            assert(child_slot(pre, idx as int, 0) != j);
                                            assert(child_slot(pre, idx as int, 1) != j);
                                            assert(child_slot(pre, idx as int, 2) != j);
                                            assert(child_slot(pre, idx as int, 3) != j);
                                            assert(child_slot(pre, idx as int, 4) != j);
                                            assert(child_slot(pre, idx as int, 5) != j);
                                            assert(child_slot(pre, idx as int, 6) != j);
                                            assert(child_slot(pre, idx as int, 7) != j);
                                        }
                                        assert forall|k: int| 0 <= k < 8 implies post[#[trigger]
                                        child_slot(pre, idx as int, k)] == (Octant {
                                            kind: pre[child_slot(pre, idx as int, k)].kind,
                                            position: pre[child_slot(pre, idx as int, k)].position,
                                            size: pre[child_slot(pre, idx as int, k)].size,
                                            enabled: false,
                                        }) by {
                                            assert(child_slot(pre, idx as int, k) == ch@[k]);
                                        }
                                        lemma_collapse_step(pre, post, sz, idx as int);
                                    }
                                } else {
                                    proof {
                                        // Some child failed the equality
                                        // test, so the node was not
                                        // collapsible before the pass either.
                                        assert(!collapsible(pre, idx as int));
                                        if collapsible(orig, idx as int) {
                                            assert forall|k: int| 0 <= k < 8 implies pre[#[trigger]
                                            child_slot(pre, idx as int, k)].kind is Chunk
                                                && slot_value(pre, idx as int, k) == slot_value(
                                                pre,
                                                idx as int,
                                                0,
                                            ) by {
                                                assert(child_slot(pre, idx as int, k)
                                                    == child_slot(orig, idx as int, k));
                                            }
                                            assert(false);
                                        }
                                    }
                                }
                            },
                            OctantKind::Node(_) => {
                                proof {
                                    assert(child_ok(pre, idx as int, 0));
                                    assert(!collapsible(pre, idx as int));
                                    if collapsible(orig, idx as int) {
                                        assert(orig[child_slot(orig, idx as int, 0)].kind
                                            is Chunk);
                                        assert(child_slot(orig, idx as int, 0) == child_slot(
                                            pre,
                                            idx as int,
                                            0,
                                        ));
                                        assert(pre[child_slot(pre, idx as int, 0)]
                                            == orig[child_slot(pre, idx as int, 0)]);
                                        assert(false);
                                    }
                                }
                            },
                        }
                    },
                    OctantKind::Chunk(_) => {
                        proof {
                            assert(!collapsible(orig, idx as int));
                        }
                    },
                }
            } else {
                proof {
                    // A disabled octant was orphaned: it is a former child,
                    // hence a chunk, hence not collapsible.
                    if collapsible(orig, idx as int) {
                        assert(pre[idx as int] == partial_merge(orig, idx as int, idx as int));
                        assert(orig[idx as int].enabled);
                        assert(orphaned_below(orig, idx as int, idx as int));
                        let (i2, k2) = choose|i2: int, k2: int|
                            i2 < idx && #[trigger] collapsible(orig, i2) && 0 <= k2 < 8
                                && #[trigger] child_slot(orig, i2, k2) == idx;
                        assert(orig[child_slot(orig, i2, k2)].kind is Chunk);
                        assert(false);
                    }
                }
            }
            proof {
                // Step the pointwise account of the pass from `idx` to `idx + 1`.
                assert(collapsed == collapsible(orig, idx as int));
                let cur = self.octants@;
                assert forall|j: int| 0 <= j < n implies cur[j] == partial_merge(
                    orig,
                    j,
                    idx + 1,
                ) by {
                    if orphaned_below(orig, j, idx + 1) && !orphaned_below(orig, j, idx as int) {
                        // `j` is orphaned exactly by the collapse at `idx`.
                        let (i2, k2) = choose|i2: int, k2: int|
                            i2 < idx + 1 && #[trigger] collapsible(orig, i2) && 0 <= k2 < 8
                                && #[trigger] child_slot(orig, i2, k2) == j;
                        if i2 < idx {
                            assert(orphaned_below(orig, j, idx as int));
                            assert(false);
                        }
                        assert(i2 == idx && collapsed);
                        assert(child_slot(pre, idx as int, k2) == j);
                        assert(pre[j] == orig[j]);
                        assert(orig[j].kind is Chunk);
                        assert(!collapsible(orig, j));
                        assert(cur[j] == (Octant {
                            kind: pre[j].kind,
                            position: pre[j].position,
                            size: pre[j].size,
                            enabled: false,
                        }));
                    } else if collapsible(orig, j) && j == idx {
                        assert(collapsed);
                        assert(pre[idx as int] == orig[idx as int]);
                        assert(chunk_value(pre[child_slot(pre, idx as int, 0)]) == slot_value(
                            orig,
                            idx as int,
                            0,
                        ));
                        assert(!orphaned_below(orig, j, idx + 1));
                    } else {
                        // `j` is untouched this iteration, and its merge
                        // account does not change when the bound advances.
                        if collapsed {
                            if exists|k: int|
                                0 <= k < 8 && #[trigger] child_slot(pre, idx as int, k) == j {
                                let k = choose|k: int|
                                    0 <= k < 8 && #[trigger] child_slot(pre, idx as int, k) == j;
                                assert(child_slot(orig, idx as int, k) == j);
                                assert(orphaned_below(orig, j, idx + 1));
                                assert(orig[child_slot(orig, idx as int, k)].kind is Chunk);
                                assert(!collapsible(orig, j));
                                assert(!orphaned_below(orig, j, idx as int));
                                assert(false);
                            }
                            if j == idx {
                                assert(collapsible(orig, j) && j < idx + 1);
                                assert(false);
                            }
                            assert(child_slot(pre, idx as int, 0) != j && child_slot(
                                pre,
                                idx as int,
                                1,
                            ) != j && child_slot(pre, idx as int, 2) != j && child_slot(
                                pre,
                                idx as int,
                                3,
                            ) != j && child_slot(pre, idx as int, 4) != j && child_slot(
                                pre,
                                idx as int,
                                5,
                            ) != j && child_slot(pre, idx as int, 6) != j && child_slot(
                                pre,
                                idx as int,
                                7,
                            ) != j);
                            assert(cur[j] == pre[j]);
                        } else {
                            assert(cur[j] == pre[j]);
                        }
                        assert(partial_merge(orig, j, idx + 1) == partial_merge(
                            orig,
                            j,
                            idx as int,
                        ));
                    }
                }
            }
            idx += 1;
        }
        proof {
            assert forall|j: int| 0 <= j < n implies self.octants@[j] == merge_result(
                orig,
                j,
            ) by {
                assert(self.octants@[j] == partial_merge(orig, j, n as int));
                if collapsible(orig, j) {
                    assert(j < n);
                }
                if orphaned_below(orig, j, n as int) {
                    assert(orphaned_below(orig, j, orig.len() as int));
                }
            }
            if any {
                assert(exists|i: int| collapsible(orig, i));
            }
            if exists|i: int| collapsible(orig, i) {
                let i = choose|i: int| collapsible(orig, i);
                assert(i < n);
            }
        }
        any
    }

    /// Split a homogeneous octant of side at least 2 into eight children of
    /// half the side, each inheriting the parent's value. Splitting a unit
    /// octant or an already-split octant is a caller error, excluded here.
    fn split_chunk(&mut self, idx: usize) -> (indexes: [usize; 8])
        requires
            old(self).wf(),
            idx < old(self).octants@.len(),
            old(self).octants@[idx as int].enabled,
            old(self).octants@[idx as int].kind is Chunk,
            old(self).octants@[idx as int].size >= 2,
        ensures
            final(self).wf(),
            final(self).octants@.len() == old(self).octants@.len() + 8,
            forall|j: int|
                0 <= j < old(self).octants@.len() && j != idx ==> final(self).octants@[j] == old(
                    self,
                ).octants@[j],
            final(self).octants@[idx as int].kind == OctantKind::<T>::Node(indexes),
            final(self).octants@[idx as int].position == old(self).octants@[idx as int].position,
            final(self).octants@[idx as int].size == old(self).octants@[idx as int].size,
            final(self).octants@[idx as int].enabled,
            forall|k: int| 0 <= k < 8 ==> indexes@[k] == old(self).octants@.len() + k,
            forall|k: int|
                0 <= k < 8 ==> {
                    let c = #[trigger] final(self).octants@[old(self).octants@.len() + k];
                    &&& c.enabled
                    &&& c.kind == old(self).octants@[idx as int].kind
                    &&& c.size == old(self).octants@[idx as int].size / 2
                    &&& covers(
                        old(self).octants@[idx as int],
                        c.position.0 as int,
                        c.position.1 as int,
                        c.position.2 as int,
                    )
                },
            forall|x: int, y: int, z: int|
                in_cube(SZ as int, x, y, z) ==> final(self).spec_at(x, y, z) == old(self).spec_at(x, y, z),
    {
        let ghost old_octs = self.octants@;
        let ghost old_len = self.octants@.len() as int;
        let o = self.octants[idx];
        let value: T = match o.kind {
            OctantKind::Chunk(v) => v,
            OctantKind::Node(_) => vstd::pervasive::unreached(),
        };
        let h = o.size / 2;
        let px = o.position.0;
        let py = o.position.1;
        let pz = o.position.2;
        proof {
            // `octant_within` bounds every coordinate sum by `SZ`.
            assert(px + o.size <= SZ && py + o.size <= SZ && pz + o.size <= SZ);
            // A power of two of size at least 2 halves exactly.
            assert(is_pow2(o.size as int));
            assert(o.size as int % 2 == 0 && is_pow2(h as int));
            assert(o.size == 2 * h);
        }
        self.octants.push(
            Octant {
                kind: OctantKind::Chunk(value),
                position: OctantPos(px, py, pz),
                size: h,
                enabled: true,
            },
        );
        self.octants.push(
            Octant {
                kind: OctantKind::Chunk(value),
                position: OctantPos(px, py, pz + h),
                size: h,
                enabled: true,
            },
        );
        self.octants.push(
            Octant {
                kind: OctantKind::Chunk(value),
                position: OctantPos(px, py + h, pz),
                size: h,
                enabled: true,
            },
        );
        self.octants.push(
            Octant {
                kind: OctantKind::Chunk(value),
                position: OctantPos(px, py + h, pz + h),
                size: h,
                enabled: true,
            },
        );
        self.octants.push(
            Octant {
                kind: OctantKind::Chunk(value),
                position: OctantPos(px + h, py, pz),
                size: h,
                enabled: true,
            },
        );
        self.octants.push(
            Octant {
                kind: OctantKind::Chunk(value),
                position: OctantPos(px + h, py, pz + h),
                size: h,
                enabled: true,
            },
        );
        self.octants.push(
            Octant {
                kind: OctantKind::Chunk(value),
                position: OctantPos(px + h, py + h, pz),
                size: h,
                enabled: true,
            },
        );
        self.octants.push(
            Octant {
                kind: OctantKind::Chunk(value),
                position: OctantPos(px + h, py + h, pz + h),
                size: h,
                enabled: true,
            },
        );
        let last = self.octants.len();
        let first_idx = last - 8;
        let indexes: [usize; 8] = [
            first_idx,
            first_idx + 1,
            first_idx + 2,
            first_idx + 3,
            first_idx + 4,
            first_idx + 5,
            first_idx + 6,
            first_idx + 7,
        ];
        let node = Octant {
            kind: OctantKind::Node(indexes),
            position: o.position,
            size: o.size,
            enabled: true,
        };
        let slot = &mut self.octants[idx];
        *slot = node;
        proof {
            let octs = self.octants@;
            let sz = SZ as int;
            let hh = h as int;
            let pxi = px as int;
            let pyi = py as int;
            let pzi = pz as int;
            assert(octs.len() == old_len + 8);
            assert(forall|j: int| 0 <= j < old_len && j != idx ==> octs[j] == old_octs[j]);
            // The eight appended children sit at the canonical corners.
            assert forall|k: int| 0 <= k < 8 implies {
                let c = #[trigger] octs[old_len + k];
                &&& c.enabled
                &&& c.kind == OctantKind::Chunk(value)
                &&& c.size == h
                &&& (c.position.0 as int, c.position.1 as int, c.position.2 as int) == child_base(
                    pxi,
                    pyi,
                    pzi,
                    hh,
                    k,
                )
            } by {
                assert(0 <= k < 8);
            }
            // Every enabled octant is in bounds, power-of-two sized, and a
            // well-formed node if split.
            assert forall|i: int| 0 <= i < octs.len() && (#[trigger] octs[i]).enabled implies {
                &&& octant_within(octs[i], sz)
                &&& is_pow2(octs[i].size as int)
                &&& node_wf(octs, i)
            } by {
                if i < old_len && i != idx {
                    assert(octs[i] == old_octs[i]);
                    if octs[i].kind is Node {
                        assert forall|k: int| 0 <= k < 8 implies #[trigger] child_ok(
                            octs,
                            i,
                            k,
                        ) by {
                            assert(child_ok(old_octs, i, k));
                            let c = child_slot(old_octs, i, k);
                            assert(child_slot(octs, i, k) == c);
                            assert(octs[c].enabled && octs[c].size == old_octs[c].size
                                && octs[c].position == old_octs[c].position);
                        }
                    }
                } else if i == idx {
                    assert(octant_within(octs[idx as int], sz));
                    assert forall|k: int| 0 <= k < 8 implies #[trigger] child_ok(
                        octs,
                        idx as int,
                        k,
                    ) by {
                        assert(child_slot(octs, idx as int, k) == old_len + k);
                        lemma_child_in_parent(pxi, pyi, pzi, hh, k);
                    }
                } else {
                    // one of the appended children
                    let k = i - old_len;
                    lemma_child_in_parent(pxi, pyi, pzi, hh, k);
                    assert(octant_within(octs[i], sz));
                }
            }
            // Cover: a point formerly in the split leaf is now in one child.
            assert forall|x: int, y: int, z: int| #[trigger]
                in_cube(sz, x, y, z) implies exists|i: int| covering_leaf(octs, i, x, y, z) by {
                assert(exists|i: int| covering_leaf(old_octs, i, x, y, z));
                let i = choose|i: int| covering_leaf(old_octs, i, x, y, z);
                if i == idx {
                    let k = lemma_point_in_child(pxi, pyi, pzi, hh, x, y, z);
                    assert(covering_leaf(octs, old_len + k, x, y, z));
                } else {
                    assert(covering_leaf(octs, i, x, y, z));
                }
            }
            // Disjointness of the new set of leaves.
            assert forall|i: int, j: int|
                0 <= i < octs.len() && 0 <= j < octs.len() && i != j && is_leaf(#[trigger] octs[i])
                    && is_leaf(#[trigger] octs[j]) implies octants_disjoint(octs[i], octs[j]) by {
                if i < old_len && j < old_len {
                    assert(octants_disjoint(old_octs[i], old_octs[j]));
                } else if i < old_len && j >= old_len {
                    lemma_child_in_parent(pxi, pyi, pzi, hh, j - old_len);
                    assert(octants_disjoint(old_octs[i], old_octs[idx as int]));
                } else if i >= old_len && j < old_len {
                    lemma_child_in_parent(pxi, pyi, pzi, hh, i - old_len);
                    assert(octants_disjoint(old_octs[j], old_octs[idx as int]));
                } else {
                    lemma_child_cubes_disjoint(pxi, pyi, pzi, hh, i - old_len, j - old_len);
                }
            }
            // No child is shared between two enabled nodes.
            assert forall|i: int, j: int, k1: int, k2: int|
                {
                    &&& 0 <= i < octs.len() && 0 <= j < octs.len() && i != j
                    &&& octs[i].enabled && octs[j].enabled
                    &&& octs[i].kind is Node && octs[j].kind is Node
                    &&& 0 <= k1 < 8 && 0 <= k2 < 8
                } implies #[trigger] child_slot(octs, i, k1) != #[trigger] child_slot(
                octs,
                j,
                k2,
            ) by {
                if i == idx && j < old_len {
                    assert(child_ok(old_octs, j, k2));
                } else if j == idx && i < old_len {
                    assert(child_ok(old_octs, i, k1));
                } else if i < old_len && j < old_len {
                    assert(child_slot(octs, i, k1) == child_slot(old_octs, i, k1));
                    assert(child_slot(octs, j, k2) == child_slot(old_octs, j, k2));
                }
            }
            assert(self.wf());
            // The view is unchanged: each point reads the same value.
            assert forall|x: int, y: int, z: int|
                in_cube(sz, x, y, z) implies self.spec_at(x, y, z) == chunk_value(
                old_octs[leaf_at(old_octs, x, y, z)],
            ) by {
                assert(exists|i: int| covering_leaf(old_octs, i, x, y, z));
                let i = choose|i: int| covering_leaf(old_octs, i, x, y, z);
                lemma_leaf_unique(old_octs, sz, i, x, y, z);
                if i == idx {
                    let k = lemma_point_in_child(pxi, pyi, pzi, hh, x, y, z);
                    assert(covering_leaf(octs, old_len + k, x, y, z));
                    lemma_leaf_unique(octs, sz, old_len + k, x, y, z);
                    assert(chunk_value(octs[old_len + k]) == value);
                    assert(chunk_value(old_octs[idx as int]) == value);
                } else {
                    assert(covering_leaf(octs, i, x, y, z));
                    lemma_leaf_unique(octs, sz, i, x, y, z);
                }
            }
        }
        indexes
    }
}

} // verus!
