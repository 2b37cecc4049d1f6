//! The adaptive octree.

use vstd::prelude::*;
use crate::math::vector::{mid, Vector3};
use crate::scene::bounds::{lemma_overlap_grows_with_box, lemma_shell_is_part_of_box};
use crate::scene::{blocking, boxes_of, BBox, Bounds, Scene};
use crate::path::{AllowInterior, DisallowInterior, VoxelStrategy};

verus! {

/// What an octree holds: a box at a depth, and below it either nothing or the
/// trees of its eight octants.
pub struct Tree {
    pub depth: nat,
    pub bounds: Bounds,
    pub children: Seq<Tree>,
}

/// One of the eight boxes that a box falls into when it is cut at its centre
/// along every axis. Octant `i` takes the upper half along `x` when `i` is odd,
/// along `y` when `i / 2` is odd, and along `z` when `i / 4` is.
pub open spec fn octant(bounds: Bounds, i: int) -> Bounds {
    let centre = bounds.centre();
    Bounds {
        min: Vector3 {
            x: if i % 2 == 1 { centre.x } else { bounds.min.x },
            y: if (i / 2) % 2 == 1 { centre.y } else { bounds.min.y },
            z: if (i / 4) % 2 == 1 { centre.z } else { bounds.min.z },
        },
        max: Vector3 {
            x: if i % 2 == 1 { bounds.max.x } else { centre.x },
            y: if (i / 2) % 2 == 1 { bounds.max.y } else { centre.y },
            z: if (i / 4) % 2 == 1 { bounds.max.z } else { centre.z },
        },
    }
}

/// The eight octants of a box, in their order.
pub open spec fn octants_of(bounds: Bounds) -> Seq<Bounds> {
    Seq::new(8, |i: int| octant(bounds, i))
}

/// The obstacles, of those that reached a node, that make it split and so
/// reach its octants: all of them above `min_depth`; from there to
/// `max_depth` those that the node's box blocks under the policy `S`; none
/// from `max_depth` on.
pub open spec fn passed_on<S: VoxelStrategy>(
    bounds: Bounds,
    depth: nat,
    obstacles: Seq<Bounds>,
    min_depth: nat,
    max_depth: nat,
) -> Seq<Bounds> {
    if depth < min_depth {
        obstacles
    } else if depth < max_depth {
        obstacles.filter(|obstacle: Bounds| S::blocks(bounds, obstacle))
    } else {
        Seq::empty()
    }
}

/// The depth from which on no node splits: the greater of the two depths.
pub open spec fn depth_limit(min_depth: nat, max_depth: nat) -> nat {
    if min_depth >= max_depth { min_depth } else { max_depth }
}

impl Tree {
    /// The tree of a single node.
    pub open spec fn leaf(bounds: Bounds, depth: nat) -> Tree {
        Tree { depth, bounds, children: Seq::empty() }
    }

    /// The tree that stands at a node with the given box and depth once the
    /// given obstacles have reached it: a single node if none of them makes it
    /// split, and else the node over the trees of its eight octants, each
    /// reached by the obstacles that the node passed on.
    pub open spec fn grown<S: VoxelStrategy>(
        bounds: Bounds,
        depth: nat,
        obstacles: Seq<Bounds>,
        min_depth: nat,
        max_depth: nat,
    ) -> Tree
        decreases depth_limit(min_depth, max_depth) - depth,
    {
        let passed = passed_on::<S>(bounds, depth, obstacles, min_depth, max_depth);
        if passed.len() > 0 {
            Tree {
                depth,
                bounds,
                children: Seq::new(
                    8,
                    |i: int|
                        Tree::grown::<S>(octant(bounds, i), depth + 1, passed, min_depth, max_depth),
                ),
            }
        } else {
            Tree::leaf(bounds, depth)
        }
    }

    /// Whether every leaf of the tree is at depth `depth` or deeper.
    pub open spec fn leaves_at_least(self, depth: nat) -> bool
        decreases self,
    {
        if self.children.len() == 0 {
            self.depth >= depth
        } else {
            forall|i: int|
                0 <= i < self.children.len() ==> (#[trigger] self.children[i]).leaves_at_least(depth)
        }
    }

    /// Whether no node of the tree is deeper than `depth`.
    pub open spec fn no_deeper_than(self, depth: nat) -> bool
        decreases self,
    {
        &&& self.depth <= depth
        &&& forall|i: int|
            0 <= i < self.children.len() ==> (#[trigger] self.children[i]).no_deeper_than(depth)
    }

    /// Whether the tree holds every node of `other`: the roots agree, and
    /// where `other` is split the tree is split too and holds every node of
    /// each subtree of `other` in the subtree of the same octant.
    pub open spec fn extends(self, other: Tree) -> bool
        decreases other,
    {
        &&& self.depth == other.depth
        &&& self.bounds == other.bounds
        &&& other.children.len() > 0 ==> {
            &&& self.children.len() == other.children.len()
            &&& forall|i: int|
                0 <= i < other.children.len() ==> self.children[i].extends(
                    #[trigger] other.children[i],
                )
        }
    }

    /// The boxes of the nodes of the tree: that of the root, then those of
    /// each subtree in turn.
    pub open spec fn boxes(self) -> Seq<Bounds>
        decreases self,
    {
        seq![self.bounds] + Tree::boxes_of_first(self.children, self.children.len())
    }

    /// The boxes of the nodes of the first `n` trees of the list, tree by tree.
    pub open spec fn boxes_of_first(trees: Seq<Tree>, n: nat) -> Seq<Bounds>
        decreases trees, n,
    {
        if n == 0 || n > trees.len() {
            Seq::empty()
        } else {
            Tree::boxes_of_first(trees, (n - 1) as nat) + trees[n - 1].boxes()
        }
    }
}

/// A node of the octree: its depth, its box, and its eight children or none.
struct Node {
    depth: u32,
    bounds: Bounds,
    child: Vec<Node>,
}

/// An octree over a cube, split where obstacles call for it.
pub struct Octtree {
    root: Node,
}

impl View for Node {
    type V = Tree;

    closed spec fn view(&self) -> Tree {
        self.tree()
    }
}

impl View for Octtree {
    type V = Tree;

    closed spec fn view(&self) -> Tree {
        self.root@
    }
}

impl Node {
    /// The tree that the node and the nodes below it hold.
    spec fn tree(self) -> Tree
        decreases self,
    {
        Tree {
            depth: self.depth as nat,
            bounds: self.bounds,
            children: Seq::new(
                self.child@.len(),
                |i: int|
                    if 0 <= i < self.child@.len() {
                        self.child@[i].tree()
                    } else {
                        Tree::leaf(self.bounds, 0)
                    },
            ),
        }
    }

    /// A node without children.
    fn new(bounds: Bounds, depth: u32) -> (node: Self)
        ensures
            node@ == Tree::leaf(bounds, depth as nat),
            node.bounds == bounds,
            node.depth == depth,
    {
        let node = Self { depth, bounds, child: Vec::new() };
        assert(node@.children =~= Seq::empty());
        node
    }

    /// The eight boxes that the box of the node falls into when it is cut at
    /// its centre.
    fn octants(&self) -> (octants: Vec<Bounds>)
        ensures
            octants@ == octants_of(self.bounds),
    {
        let min = self.bounds.min;
        let max = self.bounds.max;
        let mid = self.bounds.midpoint();
        let mut octants: Vec<Bounds> = Vec::new();
        octants.push(Bounds::new(min, mid));
        octants.push(
            Bounds::new(Vector3::new(mid.x, min.y, min.z), Vector3::new(max.x, mid.y, mid.z)),
        );
        octants.push(
            Bounds::new(Vector3::new(min.x, mid.y, min.z), Vector3::new(mid.x, max.y, mid.z)),
        );
        octants.push(
            Bounds::new(Vector3::new(mid.x, mid.y, min.z), Vector3::new(max.x, max.y, mid.z)),
        );
        octants.push(
            Bounds::new(Vector3::new(min.x, min.y, mid.z), Vector3::new(mid.x, mid.y, max.z)),
        );
        octants.push(
            Bounds::new(Vector3::new(mid.x, min.y, mid.z), Vector3::new(max.x, mid.y, max.z)),
        );
        octants.push(
            Bounds::new(Vector3::new(min.x, mid.y, mid.z), Vector3::new(mid.x, max.y, max.z)),
        );
        octants.push(Bounds::new(mid, max));
        assert(octants@ =~= octants_of(self.bounds));
        octants
    }

    /// The tree of a node has the node's depth and box, and the trees of the
    /// node's children as its children.
    proof fn lemma_view(self)
        ensures
            self@.depth == self.depth,
            self@.bounds == self.bounds,
            self@.children.len() == self.child@.len(),
            forall|j: int| 0 <= j < self.child@.len() ==> self@.children[j] == (#[trigger] self.child@[j])@,
    {
    }

    /// Whether the node holds the tree that stands at its box and depth once
    /// the obstacles `seen` have reached it.
    spec fn is_grown<S: VoxelStrategy>(
        self,
        seen: Seq<Bounds>,
        min_depth: nat,
        max_depth: nat,
    ) -> bool {
        self@ == Tree::grown::<S>(self.bounds, self.depth as nat, seen, min_depth, max_depth)
    }

    /// Enters an obstacle at the node. The node splits if it is above
    /// `min_depth`, or above `max_depth` with a box that blocks the obstacle;
    /// the obstacle is then entered at each of the eight children.
    fn insert<S: VoxelStrategy>(
        &mut self,
        bbox: &BBox,
        min_depth: u32,
        max_depth: u32,
        Ghost(seen): Ghost<Seq<Bounds>>,
    )
        requires
            old(self).is_grown::<S>(seen, min_depth as nat, max_depth as nat),
        ensures
            final(self).bounds == old(self).bounds,
            final(self).depth == old(self).depth,
            final(self).is_grown::<S>(seen.push(bbox.bounds), min_depth as nat, max_depth as nat),
            old(self).depth >= min_depth && !S::blocks(old(self).bounds, bbox.bounds)
                ==> *final(self) == *old(self),
        decreases depth_limit(min_depth as nat, max_depth as nat) - old(self).depth,
    {
        let ghost bounds = self.bounds;
        let ghost depth = self.depth as nat;
        let ghost passed = passed_on::<S>(bounds, depth, seen, min_depth as nat, max_depth as nat);
        let ghost passed_now = passed_on::<S>(
            bounds,
            depth,
            seen.push(bbox.bounds),
            min_depth as nat,
            max_depth as nat,
        );
        proof {
            seen.lemma_filter_push(bbox.bounds, |obstacle: Bounds| S::blocks(bounds, obstacle));
        }
        if self.depth < min_depth || (self.depth < max_depth && S::is_valid(
            &self.bounds,
            &bbox.bounds,
        )) {
            assert(passed_now == passed.push(bbox.bounds));
            if self.child.is_empty() {
                assert(passed.len() == 0) by {
                    if passed.len() > 0 {
                        assert(self@.children.len() == 8);
                    }
                }
                let octants = self.octants();
                let mut k: usize = 0;
                while k < 8
                    invariant
                        k <= 8,
                        self.bounds == bounds,
                        self.depth == depth,
                        depth < u32::MAX,
                        passed.len() == 0,
                        octants@ == octants_of(bounds),
                        self.child@.len() == k,
                        forall|j: int|
                            0 <= j < k ==> (#[trigger] self.child@[j]).bounds == octant(bounds, j)
                                && self.child@[j].depth == depth + 1 && self.child@[j].is_grown::<S>(
                                passed,
                                min_depth as nat,
                                max_depth as nat,
                            ),
                    decreases 8 - k,
                {
                    let node = Node::new(octants[k], self.depth + 1);
                    proof {
                        lemma_grown_from_nothing::<S>(
                            octant(bounds, k as int),
                            depth + 1,
                            passed,
                            min_depth as nat,
                            max_depth as nat,
                        );
                    }
                    self.child.push(node);
                    k += 1;
                }
            } else {
                proof {
                    self.lemma_view();
                }
                assert(passed.len() > 0) by {
                    if passed.len() == 0 {
                        assert(self@ == Tree::leaf(bounds, depth));
                        assert(self@.children.len() == 0);
                    }
                }
                assert(self@.children.len() == 8);
                assert forall|j: int| 0 <= j < 8 implies (#[trigger] self.child@[j]).bounds == octant(
                    bounds,
                    j,
                ) && self.child@[j].depth == depth + 1 && self.child@[j].is_grown::<S>(
                    passed,
                    min_depth as nat,
                    max_depth as nat,
                ) by {
                    self.lemma_view();
                    self.child@[j].lemma_view();
                    lemma_grown_root::<S>(
                        octant(bounds, j),
                        depth + 1,
                        passed,
                        min_depth as nat,
                        max_depth as nat,
                    );
                }
            }
            let mut i: usize = 0;
            while i < 8
                invariant
                    i <= 8,
                    self.bounds == bounds,
                    self.depth == depth,
                    old(self).depth == depth,
                    depth < depth_limit(min_depth as nat, max_depth as nat),
                    self.child@.len() == 8,
                    forall|j: int|
                        0 <= j < 8 ==> (#[trigger] self.child@[j]).bounds == octant(bounds, j)
                            && self.child@[j].depth == depth + 1,
                    forall|j: int|
                        0 <= j < i ==> (#[trigger] self.child@[j]).is_grown::<S>(
                            passed_now,
                            min_depth as nat,
                            max_depth as nat,
                        ),
                    forall|j: int|
                        i <= j < 8 ==> (#[trigger] self.child@[j]).is_grown::<S>(
                            passed,
                            min_depth as nat,
                            max_depth as nat,
                        ),
                    passed_now == passed.push(bbox.bounds),
                decreases 8 - i,
            {
                self.child[i].insert::<S>(bbox, min_depth, max_depth, Ghost(passed));
                i += 1;
            }
            assert(self@ =~= Tree::grown::<S>(
                bounds,
                depth,
                seen.push(bbox.bounds),
                min_depth as nat,
                max_depth as nat,
            )) by {
                assert(passed_now.len() > 0);
                assert forall|j: int| 0 <= j < 8 implies #[trigger] self@.children[j]
                    == Tree::grown::<S>(
                    octant(bounds, j),
                    depth + 1,
                    passed_now,
                    min_depth as nat,
                    max_depth as nat,
                ) by {
                    assert(self.child@[j].is_grown::<S>(
                        passed_now,
                        min_depth as nat,
                        max_depth as nat,
                    ));
                }
                assert(self@.children =~= Tree::grown::<S>(
                    bounds,
                    depth,
                    seen.push(bbox.bounds),
                    min_depth as nat,
                    max_depth as nat,
                ).children);
            }
        } else {
            assert(passed_now == passed);
        }
    }
}

impl Node {
    /// The number of nodes of the tree, or `usize::MAX` if there are more.
    fn num_bounds(&self) -> (count: usize)
        ensures
            count == self@.boxes().len() || (count == usize::MAX && self@.boxes().len() > usize::MAX),
        decreases self,
    {
        proof {
            self.lemma_view();
        }
        let mut below: usize = 0;
        let mut i: usize = 0;
        while i < self.child.len()
            invariant
                i <= self.child.len(),
                self@.children.len() == self.child@.len(),
                forall|j: int|
                    0 <= j < self.child@.len() ==> self@.children[j] == (#[trigger] self.child@[j])@,
                ({
                    let exact = Tree::boxes_of_first(self@.children, i as nat).len();
                    below == exact || (below == usize::MAX && exact > usize::MAX)
                }),
            decreases self.child.len() - i,
        {
            below = below.saturating_add(self.child[i].num_bounds());
            i += 1;
        }
        below.saturating_add(1)
    }

    /// Appends the boxes of the nodes of the tree, the root first.
    fn collect_bounds(&self, vec: &mut Vec<Bounds>)
        ensures
            final(vec)@ == old(vec)@ + self@.boxes(),
        decreases self,
    {
        proof {
            self.lemma_view();
        }
        vec.push(self.bounds);
        let mut i: usize = 0;
        while i < self.child.len()
            invariant
                i <= self.child.len(),
                self@.children.len() == self.child@.len(),
                forall|j: int|
                    0 <= j < self.child@.len() ==> self@.children[j] == (#[trigger] self.child@[j])@,
                vec@ == old(vec)@ + seq![self.bounds] + Tree::boxes_of_first(
                    self@.children,
                    i as nat,
                ),
            decreases self.child.len() - i,
        {
            let ghost before = vec@;
            self.child[i].collect_bounds(vec);
            assert(vec@ =~= old(vec)@ + seq![self.bounds] + Tree::boxes_of_first(
                self@.children,
                (i + 1) as nat,
            ));
            i += 1;
        }
        assert(vec@ =~= old(vec)@ + self@.boxes());
    }

    /// The boxes of the nodes of the tree, the root first.
    fn get_bounds(&self) -> (bounds: Vec<Bounds>)
        ensures
            bounds@ == self@.boxes(),
    {
        let mut bounds = Vec::with_capacity(self.num_bounds());
        self.collect_bounds(&mut bounds);
        assert(bounds@ =~= self@.boxes());
        bounds
    }
}

impl Octtree {
    /// The octree over the bounds of the scene, widened to powers of two, into
    /// which every obstacle of the scene that stands in the way has been
    /// entered. A node splits above `min_depth` whenever an obstacle reaches
    /// it, and from there to `max_depth` when its box blocks an obstacle that
    /// reaches it, under the policy `S`.
    pub fn build<S: VoxelStrategy>(scene: &Scene, min_depth: u32, max_depth: u32) -> (tree: Self)
        requires
            scene.bounds.can_widen(),
        ensures
            tree@ == Tree::grown::<S>(
                scene.bounds.widened(),
                0,
                boxes_of(blocking(scene.obstacles@)),
                min_depth as nat,
                max_depth as nat,
            ),
    {
        let bounds = scene.bounds.to_power_of_two();
        let mut root = Node::new(bounds, 0);
        let obstacles = scene.get_obstacles();
        let ghost boxes = boxes_of(obstacles@);
        proof {
            lemma_grown_from_nothing::<S>(
                bounds,
                0,
                boxes.take(0),
                min_depth as nat,
                max_depth as nat,
            );
        }
        let mut i: usize = 0;
        while i < obstacles.len()
            invariant
                i <= obstacles.len(),
                boxes == boxes_of(obstacles@),
                root.bounds == bounds,
                root.depth == 0,
                root.is_grown::<S>(boxes.take(i as int), min_depth as nat, max_depth as nat),
            decreases obstacles.len() - i,
        {
            assert(boxes.take(i as int).push(obstacles@[i as int].bounds) =~= boxes.take(i + 1));
            root.insert::<S>(&obstacles[i], min_depth, max_depth, Ghost(boxes.take(i as int)));
            i += 1;
        }
        assert(boxes.take(i as int) =~= boxes);
        Self { root }
    }

    /// The box of every node of the tree, leaf or not: that of the root, then
    /// those of the subtree of each octant in turn.
    pub fn get_bounds_instances(&self) -> (boxes: Vec<Bounds>)
        ensures
            boxes@ == self@.boxes(),
    {
        self.root.get_bounds()
    }
}

/// The tree that stands at a node has the node's box and depth at its root.
proof fn lemma_grown_root<S: VoxelStrategy>(
    bounds: Bounds,
    depth: nat,
    obstacles: Seq<Bounds>,
    min_depth: nat,
    max_depth: nat,
)
    ensures
        Tree::grown::<S>(bounds, depth, obstacles, min_depth, max_depth).bounds == bounds,
        Tree::grown::<S>(bounds, depth, obstacles, min_depth, max_depth).depth == depth,
{
}

/// Where no obstacle has reached a node, the node stands alone.
proof fn lemma_grown_from_nothing<S: VoxelStrategy>(
    bounds: Bounds,
    depth: nat,
    obstacles: Seq<Bounds>,
    min_depth: nat,
    max_depth: nat,
)
    requires
        obstacles.len() == 0,
    ensures
        Tree::grown::<S>(bounds, depth, obstacles, min_depth, max_depth) == Tree::leaf(bounds, depth),
{
    obstacles.lemma_filter_len(|obstacle: Bounds| S::blocks(bounds, obstacle));
}

/// With both depths zero nothing ever splits: the tree is its root alone,
/// whatever the obstacles.
pub proof fn lemma_depth_zero_is_single_node<S: VoxelStrategy>(
    bounds: Bounds,
    obstacles: Seq<Bounds>,
)
    ensures
        Tree::grown::<S>(bounds, 0, obstacles, 0, 0) == Tree::leaf(bounds, 0),
        Tree::grown::<S>(bounds, 0, obstacles, 0, 0).boxes() == seq![bounds],
{
    let tree = Tree::grown::<S>(bounds, 0, obstacles, 0, 0);
    assert(Tree::boxes_of_first(tree.children, 0) =~= Seq::empty());
    assert(tree.boxes() =~= seq![bounds]);
}

/// Once an obstacle has been entered, every leaf is at `min_depth` or deeper.
///
/// With no obstacle nothing is entered, and the root stays a leaf at depth 0.
pub proof fn lemma_leaves_reach_min_depth<S: VoxelStrategy>(
    bounds: Bounds,
    obstacles: Seq<Bounds>,
    min_depth: nat,
    max_depth: nat,
)
    requires
        obstacles.len() > 0,
    ensures
        Tree::grown::<S>(bounds, 0, obstacles, min_depth, max_depth).leaves_at_least(min_depth),
{
    lemma_leaves_at_least::<S>(bounds, 0, obstacles, min_depth, max_depth, min_depth);
}

/// Below a node that an obstacle reached above `min_depth`, or that is itself
/// at `floor` or deeper, every leaf is at `floor` or deeper.
proof fn lemma_leaves_at_least<S: VoxelStrategy>(
    bounds: Bounds,
    depth: nat,
    obstacles: Seq<Bounds>,
    min_depth: nat,
    max_depth: nat,
    floor: nat,
)
    requires
        depth >= floor || (obstacles.len() > 0 && floor <= min_depth),
    ensures
        Tree::grown::<S>(bounds, depth, obstacles, min_depth, max_depth).leaves_at_least(floor),
    decreases depth_limit(min_depth, max_depth) - depth,
{
    let tree = Tree::grown::<S>(bounds, depth, obstacles, min_depth, max_depth);
    let passed = passed_on::<S>(bounds, depth, obstacles, min_depth, max_depth);
    if passed.len() > 0 {
        assert forall|i: int| 0 <= i < tree.children.len() implies (#[trigger] tree.children[i]).leaves_at_least(
            floor,
        ) by {
            lemma_leaves_at_least::<S>(
                octant(bounds, i),
                depth + 1,
                passed,
                min_depth,
                max_depth,
                floor,
            );
        }
    }
}

/// The octants of a well-formed box are well formed and lie within it.
pub proof fn lemma_octant_within(bounds: Bounds, i: int)
    requires
        bounds.well_formed(),
    ensures
        octant(bounds, i).well_formed(),
        bounds.encloses(octant(bounds, i)),
{
}

/// A well-formed box of even length along every axis is cut exactly: each
/// octant has half its length along every axis.
pub proof fn lemma_octant_halves(bounds: Bounds, i: int)
    requires
        bounds.well_formed(),
        (bounds.max.x - bounds.min.x) % 2 == 0,
        (bounds.max.y - bounds.min.y) % 2 == 0,
        (bounds.max.z - bounds.min.z) % 2 == 0,
    ensures
        2 * (octant(bounds, i).max.x - octant(bounds, i).min.x) == bounds.max.x - bounds.min.x,
        2 * (octant(bounds, i).max.y - octant(bounds, i).min.y) == bounds.max.y - bounds.min.y,
        2 * (octant(bounds, i).max.z - octant(bounds, i).min.z) == bounds.max.z - bounds.min.z,
{
    lemma_mid_halves(bounds.min.x as int, bounds.max.x as int);
    lemma_mid_halves(bounds.min.y as int, bounds.max.y as int);
    lemma_mid_halves(bounds.min.z as int, bounds.max.z as int);
}

/// The centre of an interval of even length is at half the length from
/// either end.
proof fn lemma_mid_halves(lo: int, hi: int)
    requires
        (hi - lo) % 2 == 0,
    ensures
        2 * (mid(lo, hi) - lo) == hi - lo,
        2 * (hi - mid(lo, hi)) == hi - lo,
{
}

/// An obstacle that reaches a node at `min_depth` or deeper whose box does not
/// block it changes nothing at the node: the tree stays as it stood, and a
/// leaf stays a leaf.
pub proof fn lemma_unblocked_obstacle_changes_nothing<S: VoxelStrategy>(
    bounds: Bounds,
    depth: nat,
    seen: Seq<Bounds>,
    obstacle: Bounds,
    min_depth: nat,
    max_depth: nat,
)
    requires
        depth >= min_depth,
        !S::blocks(bounds, obstacle),
    ensures
        Tree::grown::<S>(bounds, depth, seen.push(obstacle), min_depth, max_depth) == Tree::grown::<
            S,
        >(bounds, depth, seen, min_depth, max_depth),
{
    seen.lemma_filter_push(obstacle, |other: Bounds| S::blocks(bounds, other));
}

/// Under the policy that blocks what a box overlaps, an obstacle that lies
/// outside the box of a node at `min_depth` or deeper changes nothing at the
/// node.
pub proof fn lemma_obstacle_outside_node_disallow_interior(
    bounds: Bounds,
    depth: nat,
    seen: Seq<Bounds>,
    obstacle: Bounds,
    min_depth: nat,
    max_depth: nat,
)
    requires
        depth >= min_depth,
        !bounds.overlaps(obstacle),
    ensures
        Tree::grown::<DisallowInterior>(bounds, depth, seen.push(obstacle), min_depth, max_depth)
            == Tree::grown::<DisallowInterior>(bounds, depth, seen, min_depth, max_depth),
{
    lemma_unblocked_obstacle_changes_nothing::<DisallowInterior>(
        bounds,
        depth,
        seen,
        obstacle,
        min_depth,
        max_depth,
    );
}

/// Under the policy that blocks what crosses the shell of a box, an obstacle
/// that lies outside the well-formed box of a node at `min_depth` or deeper
/// changes nothing at the node.
pub proof fn lemma_obstacle_outside_node_allow_interior(
    bounds: Bounds,
    depth: nat,
    seen: Seq<Bounds>,
    obstacle: Bounds,
    min_depth: nat,
    max_depth: nat,
)
    requires
        bounds.well_formed(),
        depth >= min_depth,
        !bounds.overlaps(obstacle),
    ensures
        Tree::grown::<AllowInterior>(bounds, depth, seen.push(obstacle), min_depth, max_depth)
            == Tree::grown::<AllowInterior>(bounds, depth, seen, min_depth, max_depth),
{
    if bounds.crosses_shell(obstacle) {
        lemma_shell_is_part_of_box(bounds, obstacle);
    }
    lemma_unblocked_obstacle_changes_nothing::<AllowInterior>(
        bounds,
        depth,
        seen,
        obstacle,
        min_depth,
        max_depth,
    );
}

/// Under a policy by which a well-formed box blocks only what it overlaps,
/// obstacles that the root does not overlap make no node split below
/// `min_depth`: no node is deeper than `min_depth`.
pub proof fn lemma_obstacles_outside_split_nothing<S: VoxelStrategy>(
    root: Bounds,
    obstacles: Seq<Bounds>,
    min_depth: nat,
    max_depth: nat,
)
    requires
        root.well_formed(),
        forall|i: int| 0 <= i < obstacles.len() ==> !root.overlaps(#[trigger] obstacles[i]),
        forall|a: Bounds, b: Bounds| a.well_formed() && #[trigger] S::blocks(a, b) ==> a.overlaps(b),
    ensures
        Tree::grown::<S>(root, 0, obstacles, min_depth, max_depth).no_deeper_than(min_depth),
{
    lemma_outside_below::<S>(root, root, 0, obstacles, min_depth, max_depth);
}

/// The law of [`lemma_obstacles_outside_split_nothing`] for the policy that
/// blocks what a box overlaps.
pub proof fn lemma_obstacles_outside_disallow_interior(
    root: Bounds,
    obstacles: Seq<Bounds>,
    min_depth: nat,
    max_depth: nat,
)
    requires
        root.well_formed(),
        forall|i: int| 0 <= i < obstacles.len() ==> !root.overlaps(#[trigger] obstacles[i]),
    ensures
        Tree::grown::<DisallowInterior>(root, 0, obstacles, min_depth, max_depth).no_deeper_than(
            min_depth,
        ),
{
    lemma_obstacles_outside_split_nothing::<DisallowInterior>(
        root,
        obstacles,
        min_depth,
        max_depth,
    );
}

/// The law of [`lemma_obstacles_outside_split_nothing`] for the policy that
/// blocks what crosses the shell of a box.
pub proof fn lemma_obstacles_outside_allow_interior(
    root: Bounds,
    obstacles: Seq<Bounds>,
    min_depth: nat,
    max_depth: nat,
)
    requires
        root.well_formed(),
        forall|i: int| 0 <= i < obstacles.len() ==> !root.overlaps(#[trigger] obstacles[i]),
    ensures
        Tree::grown::<AllowInterior>(root, 0, obstacles, min_depth, max_depth).no_deeper_than(
            min_depth,
        ),
{
    assert forall|a: Bounds, b: Bounds|
        a.well_formed() && #[trigger] AllowInterior::blocks(a, b) implies a.overlaps(b) by {
        lemma_shell_is_part_of_box(a, b);
    }
    lemma_obstacles_outside_split_nothing::<AllowInterior>(root, obstacles, min_depth, max_depth);
}

/// The law of [`lemma_obstacles_outside_split_nothing`] for a node within
/// the root, at `min_depth` or above.
proof fn lemma_outside_below<S: VoxelStrategy>(
    root: Bounds,
    bounds: Bounds,
    depth: nat,
    obstacles: Seq<Bounds>,
    min_depth: nat,
    max_depth: nat,
)
    requires
        bounds.well_formed(),
        root.encloses(bounds),
        depth <= min_depth,
        forall|i: int| 0 <= i < obstacles.len() ==> !root.overlaps(#[trigger] obstacles[i]),
        forall|a: Bounds, b: Bounds| a.well_formed() && #[trigger] S::blocks(a, b) ==> a.overlaps(b),
    ensures
        Tree::grown::<S>(bounds, depth, obstacles, min_depth, max_depth).no_deeper_than(min_depth),
    decreases depth_limit(min_depth, max_depth) - depth,
{
    let tree = Tree::grown::<S>(bounds, depth, obstacles, min_depth, max_depth);
    let passed = passed_on::<S>(bounds, depth, obstacles, min_depth, max_depth);
    if depth < min_depth {
        assert forall|i: int| 0 <= i < tree.children.len() implies (#[trigger] tree.children[i]).no_deeper_than(
            min_depth,
        ) by {
            lemma_octant_within(bounds, i);
            lemma_outside_below::<S>(
                root,
                octant(bounds, i),
                depth + 1,
                obstacles,
                min_depth,
                max_depth,
            );
        }
    } else if depth < max_depth {
        let blocked = |obstacle: Bounds| S::blocks(bounds, obstacle);
        if passed.len() > 0 {
            obstacles.lemma_filter_pred(blocked, 0);
            obstacles.lemma_filter_contains_rev(blocked, passed[0]);
            let j = choose|j: int| 0 <= j < obstacles.len() && obstacles[j] == passed[0];
            lemma_overlap_grows_with_box(bounds, root, obstacles[j]);
        }
    }
}

/// Entering more obstacles only splits further: the tree of a list of
/// obstacles holds every node of the tree of any part of the list.
pub proof fn lemma_more_obstacles_split_further<S: VoxelStrategy>(
    bounds: Bounds,
    depth: nat,
    fewer: Seq<Bounds>,
    more: Seq<Bounds>,
    min_depth: nat,
    max_depth: nat,
)
    requires
        forall|obstacle: Bounds| fewer.contains(obstacle) ==> more.contains(obstacle),
    ensures
        Tree::grown::<S>(bounds, depth, more, min_depth, max_depth).extends(
            Tree::grown::<S>(bounds, depth, fewer, min_depth, max_depth),
        ),
    decreases depth_limit(min_depth, max_depth) - depth,
{
    let passed_fewer = passed_on::<S>(bounds, depth, fewer, min_depth, max_depth);
    let passed_more = passed_on::<S>(bounds, depth, more, min_depth, max_depth);
    let blocked = |obstacle: Bounds| S::blocks(bounds, obstacle);
    assert forall|obstacle: Bounds| passed_fewer.contains(obstacle) implies passed_more.contains(
        obstacle,
    ) by {
        if min_depth <= depth < max_depth {
            lemma_filter_keeps(fewer, blocked, obstacle);
            lemma_filter_keeps(more, blocked, obstacle);
        }
    }
    if passed_fewer.len() > 0 {
        assert(passed_fewer.contains(passed_fewer[0]));
        assert(passed_more.contains(passed_fewer[0]));
        let tree_fewer = Tree::grown::<S>(bounds, depth, fewer, min_depth, max_depth);
        let tree_more = Tree::grown::<S>(bounds, depth, more, min_depth, max_depth);
        assert forall|i: int| 0 <= i < tree_fewer.children.len() implies tree_more.children[i].extends(
            #[trigger] tree_fewer.children[i],
        ) by {
            lemma_more_obstacles_split_further::<S>(
                octant(bounds, i),
                depth + 1,
                passed_fewer,
                passed_more,
                min_depth,
                max_depth,
            );
        }
    }
}

/// Whether two lists hold the same obstacles, in whatever order and however
/// often.
pub open spec fn same_obstacles(first: Seq<Bounds>, second: Seq<Bounds>) -> bool {
    forall|obstacle: Bounds| first.contains(obstacle) <==> second.contains(obstacle)
}

/// The tree does not depend on the order in which the obstacles are entered,
/// nor on how often one of them is.
pub proof fn lemma_order_of_obstacles_is_immaterial<S: VoxelStrategy>(
    bounds: Bounds,
    depth: nat,
    first: Seq<Bounds>,
    second: Seq<Bounds>,
    min_depth: nat,
    max_depth: nat,
)
    requires
        same_obstacles(first, second),
    ensures
        Tree::grown::<S>(bounds, depth, first, min_depth, max_depth) == Tree::grown::<S>(
            bounds,
            depth,
            second,
            min_depth,
            max_depth,
        ),
    decreases depth_limit(min_depth, max_depth) - depth,
{
    let passed_first = passed_on::<S>(bounds, depth, first, min_depth, max_depth);
    let passed_second = passed_on::<S>(bounds, depth, second, min_depth, max_depth);
    let blocked = |obstacle: Bounds| S::blocks(bounds, obstacle);
    assert(same_obstacles(passed_first, passed_second)) by {
        if min_depth <= depth < max_depth {
            assert forall|obstacle: Bounds|
                passed_first.contains(obstacle) <==> passed_second.contains(obstacle) by {
                lemma_filter_keeps(first, blocked, obstacle);
                lemma_filter_keeps(second, blocked, obstacle);
            }
        }
    }
    if passed_first.len() > 0 {
        assert(passed_first.contains(passed_first[0]));
    }
    if passed_second.len() > 0 {
        assert(passed_second.contains(passed_second[0]));
    }
    if passed_first.len() > 0 {
        let tree_first = Tree::grown::<S>(bounds, depth, first, min_depth, max_depth);
        let tree_second = Tree::grown::<S>(bounds, depth, second, min_depth, max_depth);
        assert forall|i: int| 0 <= i < 8 implies tree_first.children[i] == tree_second.children[i] by {
            lemma_order_of_obstacles_is_immaterial::<S>(
                octant(bounds, i),
                depth + 1,
                passed_first,
                passed_second,
                min_depth,
                max_depth,
            );
        }
        assert(tree_first.children =~= tree_second.children);
    }
}

/// What is kept of a list holds just the obstacles of the list that were
/// wanted.
proof fn lemma_filter_keeps(
    obstacles: Seq<Bounds>,
    wanted: spec_fn(Bounds) -> bool,
    obstacle: Bounds,
)
    ensures
        obstacles.filter(wanted).contains(obstacle) <==> obstacles.contains(obstacle) && wanted(
            obstacle,
        ),
{
    if obstacles.filter(wanted).contains(obstacle) {
        let i = choose|i: int|
            0 <= i < obstacles.filter(wanted).len() && obstacles.filter(wanted)[i] == obstacle;
        obstacles.lemma_filter_pred(wanted, i);
        obstacles.lemma_filter_contains_rev(wanted, obstacle);
    }
    if obstacles.contains(obstacle) && wanted(obstacle) {
        let i = choose|i: int| 0 <= i < obstacles.len() && obstacles[i] == obstacle;
        obstacles.lemma_filter_contains(wanted, i);
    }
}

/// Two trees built from one scene with one pair of depths under one policy
/// are the same, node for node, and give the same boxes in the same order.
pub proof fn lemma_tree_is_determined<S: VoxelStrategy>(
    scene: Scene,
    min_depth: nat,
    max_depth: nat,
    first: Octtree,
    second: Octtree,
)
    requires
        first@ == Tree::grown::<S>(
            scene.bounds.widened(),
            0,
            boxes_of(blocking(scene.obstacles@)),
            min_depth,
            max_depth,
        ),
        second@ == Tree::grown::<S>(
            scene.bounds.widened(),
            0,
            boxes_of(blocking(scene.obstacles@)),
            min_depth,
            max_depth,
        ),
    ensures
        first@ == second@,
        first@.boxes() == second@.boxes(),
{
}

} // verus!
