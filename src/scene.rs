//! The scene graph: a tree of distance-field nodes kept in an arena.
//!
//! Nodes refer to their children by index. A node may only adopt nodes that
//! were added before it and that no other node owns yet, so the arena always
//! holds a forest: no node is shared and there are no cycles. The scalar type
//! `F` of the nodes' parameters is left to the evaluator.
use vstd::prelude::*;

verus! {

/// The principal axis a rotation turns about.
#[derive(Clone, Copy, PartialEq, Eq, Debug)]
pub enum Axis {
    X,
    Y,
    Z,
}

/// The sphere of radius one centred at the origin.
#[derive(Clone, Copy, PartialEq, Eq, Debug)]
pub struct UnitSphere;

/// The cube of half-side one centred at the origin.
#[derive(Clone, Copy, PartialEq, Eq, Debug)]
pub struct UnitCube;

/// The horizontal plane `y == height`.
#[derive(Debug)]
pub struct Plane<F> {
    pub height: F,
}

/// Moves the inner node by `at`.
#[derive(Debug)]
pub struct Translation<F> {
    pub inner: usize,
    pub at: (F, F, F),
}

/// Turns the inner node by `angle` radians about `around`.
#[derive(Debug)]
pub struct Rotation<F> {
    pub around: Axis,
    pub inner: usize,
    pub angle: F,
}

/// Stretches the inner node by a factor along each axis.
#[derive(Debug)]
pub struct Scale<F> {
    pub inner: usize,
    pub scaling: (F, F, F),
}

/// Paints the inner node in one flat color.
#[derive(Debug)]
pub struct Coloring<F> {
    pub inner: usize,
    pub color: (F, F, F),
}

/// Paints the inner node in a checkerboard of two colors.
#[derive(Debug)]
pub struct Checkers<F> {
    pub inner: usize,
    pub color1: (F, F, F),
    pub color2: (F, F, F),
}

/// The union of its objects: the nearest one wins.
#[derive(Debug)]
pub struct Union {
    pub objects: Vec<usize>,
}

/// The intersection of its objects; the first one gives the color.
#[derive(Debug)]
pub struct Intersection {
    pub objects: Vec<usize>,
}

impl<F> Plane<F> {
    pub fn new(height: F) -> (r: Plane<F>)
        ensures
            r.height == height,
    {
        Plane { height }
    }
}

impl<F> Translation<F> {
    pub fn new(inner: usize, at: (F, F, F)) -> (r: Translation<F>)
        ensures
            r.inner == inner,
            r.at == at,
    {
        Translation { inner, at }
    }
}

impl<F> Rotation<F> {
    pub fn new(inner: usize, around: Axis, angle: F) -> (r: Rotation<F>)
        ensures
            r.inner == inner,
            r.around == around,
            r.angle == angle,
    {
        Rotation { around, inner, angle }
    }
}

impl<F> Scale<F> {
    pub fn new(inner: usize, scaling: (F, F, F)) -> (r: Scale<F>)
        ensures
            r.inner == inner,
            r.scaling == scaling,
    {
        Scale { inner, scaling }
    }
}

impl<F> Coloring<F> {
    pub fn new(inner: usize, color: (F, F, F)) -> (r: Coloring<F>)
        ensures
            r.inner == inner,
            r.color == color,
    {
        Coloring { inner, color }
    }
}

impl<F> Checkers<F> {
    pub fn new(inner: usize, color1: (F, F, F), color2: (F, F, F)) -> (r: Checkers<F>)
        ensures
            r.inner == inner,
            r.color1 == color1,
            r.color2 == color2,
    {
        Checkers { inner, color1, color2 }
    }
}

/// One node of a scene.
#[derive(Debug)]
pub enum Node<F> {
    Sphere(UnitSphere),
    Cube(UnitCube),
    Plane(Plane<F>),
    Union(Union),
    Intersection(Intersection),
    Translation(Translation<F>),
    Rotation(Rotation<F>),
    Scale(Scale<F>),
    Coloring(Coloring<F>),
    Checkers(Checkers<F>),
}

impl<F> Node<F> {
    /// The indices of the nodes this one owns, in evaluation order.
    pub open spec fn children(&self) -> Seq<usize> {
        match self {
            Node::Union(u) => u.objects@,
            Node::Intersection(i) => i.objects@,
            Node::Translation(t) => seq![t.inner],
            Node::Rotation(r) => seq![r.inner],
            Node::Scale(s) => seq![s.inner],
            Node::Coloring(c) => seq![c.inner],
            Node::Checkers(c) => seq![c.inner],
            _ => seq![],
        }
    }

    /// An intersection of nothing has no surface to take a color from.
    pub open spec fn is_empty_intersection(&self) -> bool {
        match self {
            Node::Intersection(i) => i.objects@.len() == 0,
            _ => false,
        }
    }

    /// The indices of the nodes this one owns.
    pub fn child_ids(&self) -> (r: Vec<usize>)
        ensures
            r@ == self.children(),
    {
        match self {
            Node::Union(u) => copy_ids(&u.objects),
            Node::Intersection(i) => copy_ids(&i.objects),
            Node::Translation(t) => vec![t.inner],
            Node::Rotation(r) => vec![r.inner],
            Node::Scale(s) => vec![s.inner],
            Node::Coloring(c) => vec![c.inner],
            Node::Checkers(c) => vec![c.inner],
            _ => Vec::new(),
        }
    }
}

fn copy_ids(ids: &Vec<usize>) -> (r: Vec<usize>)
    ensures
        r@ == ids@,
{
    let mut r: Vec<usize> = Vec::new();
    let mut k: usize = 0;
    while k < ids.len()
        invariant
            k <= ids.len(),
            r@ == ids@.subrange(0, k as int),
        decreases ids.len() - k,
    {
        r.push(ids[k]);
        k = k + 1;
        assert(r@ =~= ids@.subrange(0, k as int));
    }
    assert(r@ =~= ids@);
    r
}

/// Whether `c` occurs twice in `cs`.
pub open spec fn named_twice(cs: Seq<usize>, c: usize) -> bool {
    exists|a: int, b: int| 0 <= a < b < cs.len() && cs[a] == c && cs[b] == c
}

/// Why a node could not be added to a scene.
#[derive(Clone, Copy, PartialEq, Eq, Debug)]
pub enum SceneError {
    /// The node names a child that the scene does not hold yet.
    UnknownNode(usize),
    /// The node names a child that already has an owner, or names it twice.
    SharedNode(usize),
    /// The node is an intersection of no objects.
    EmptyIntersection,
}

/// A forest of nodes; each node owns the children it names.
pub struct Scene<F> {
    nodes: Vec<Node<F>>,
    parent: Vec<Option<usize>>,
}

impl<F> Scene<F> {
    /// The nodes, by index.
    pub closed spec fn nodes(&self) -> Seq<Node<F>> {
        self.nodes@
    }

    /// The node that owns node `c`, if any.
    pub closed spec fn owner(&self, c: int) -> Option<usize> {
        self.parent@[c]
    }

    /// Every child comes before its owner, no node has two owners, and
    /// `owner` records exactly who owns whom.
    pub closed spec fn wf(&self) -> bool {
        &&& self.nodes@.len() == self.parent@.len()
        &&& forall|i: int, k: int|
            0 <= i < self.nodes@.len() && 0 <= k < self.nodes@[i].children().len() ==> {
                let c = #[trigger] self.nodes@[i].children()[k];
                c < i && self.parent@[c as int] == Some(i as usize)
            }
        &&& forall|i: int| 0 <= i < self.nodes@.len() ==> #[trigger] self.nodes@[i].children().no_duplicates()
        &&& forall|c: int|
            0 <= c < self.parent@.len() && (#[trigger] self.parent@[c]).is_some() ==> {
                let p = self.parent@[c].unwrap() as int;
                c < p < self.nodes@.len() && self.nodes@[p].children().contains(c as usize)
            }
    }

    /// Whether every id in `cs` is a node of the scene without an owner,
    /// each named once.
    pub open spec fn can_adopt(&self, cs: Seq<usize>) -> bool {
        &&& forall|k: int| 0 <= k < cs.len() ==> #[trigger] cs[k] < self.nodes().len()
        &&& forall|k: int| 0 <= k < cs.len() ==> self.owner(#[trigger] cs[k] as int).is_none()
        &&& cs.no_duplicates()
    }

    /// Whether node `id` exists and has no owner.
    pub open spec fn is_root_spec(&self, id: int) -> bool {
        0 <= id < self.nodes().len() && self.owner(id).is_none()
    }

    /// An empty scene.
    pub fn new() -> (r: Scene<F>)
        ensures
            r.wf(),
            r.nodes().len() == 0,
    {
        Scene { nodes: Vec::new(), parent: Vec::new() }
    }

    /// The number of nodes.
    pub fn len(&self) -> (r: usize)
        requires
            self.wf(),
        ensures
            r == self.nodes().len(),
    {
        self.nodes.len()
    }

    /// The node at `id`.
    pub fn node(&self, id: usize) -> (r: &Node<F>)
        requires
            self.wf(),
            id < self.nodes().len(),
        ensures
            *r == self.nodes()[id as int],
    {
        &self.nodes[id]
    }

    /// Adds `node`, which then owns the children it names. The children
    /// must be nodes of the scene without an owner, each named once.
    pub fn add(&mut self, node: Node<F>) -> (r: Result<usize, SceneError>)
        requires
            old(self).wf(),
        ensures
            final(self).wf(),
            r.is_ok() <==> !node.is_empty_intersection() && old(self).can_adopt(node.children()),
            r == Err::<usize, SceneError>(SceneError::EmptyIntersection)
                <==> node.is_empty_intersection(),
            match r {
                Ok(id) => {
                    &&& id == old(self).nodes().len()
                    &&& final(self).nodes() == old(self).nodes().push(node)
                    &&& final(self).owner(id as int).is_none()
                    &&& forall|c: int|
                        0 <= c < id ==> #[trigger] final(self).owner(c) == if node.children().contains(
                            c as usize,
                        ) {
                            Some(id)
                        } else {
                            old(self).owner(c)
                        }
                },
                Err(SceneError::UnknownNode(c)) => node.children().contains(c) && c
                    >= old(self).nodes().len(),
                Err(SceneError::SharedNode(c)) => {
                    &&& node.children().contains(c)
                    &&& c < old(self).nodes().len()
                    &&& (old(self).owner(c as int).is_some() || named_twice(node.children(), c))
                },
                Err(SceneError::EmptyIntersection) => true,
            },
            r.is_err() ==> final(self).nodes() == old(self).nodes() && forall|c: int|
                #![trigger final(self).owner(c)]
                0 <= c < old(self).nodes().len() ==> final(self).owner(c) == old(self).owner(c),
    {
        let empty = match &node {
            Node::Intersection(i) => i.objects.len() == 0,
            _ => false,
        };
        if empty {
            return Err(SceneError::EmptyIntersection);
        }
        let cs = node.child_ids();
        let n = self.nodes.len();
        let mut seen: Vec<bool> = Vec::new();
        while seen.len() < n
            invariant
                seen.len() <= n,
                forall|c: int| 0 <= c < seen.len() ==> !seen@[c],
            decreases n - seen.len(),
        {
            seen.push(false);
        }
        let mut k: usize = 0;
        while k < cs.len()
            invariant
                self.wf(),
                n == self.nodes@.len(),
                cs@ == node.children(),
                k <= cs.len(),
                seen@.len() == n,
                forall|j: int|
                    0 <= j < k ==> #[trigger] cs@[j] < n && self.parent@[cs@[j] as int].is_none()
                        && seen@[cs@[j] as int],
                forall|c: int| 0 <= c < n && seen@[c] ==> exists|j: int| 0 <= j < k && cs@[j] == c,
                cs@.subrange(0, k as int).no_duplicates(),
            decreases cs.len() - k,
        {
            let c = cs[k];
            if c >= n {
                return Err(SceneError::UnknownNode(c));
            }
            if self.parent[c].is_some() {
                return Err(SceneError::SharedNode(c));
            }
            if seen[c] {
                proof {
                    let j = choose|j: int| 0 <= j < k && #[trigger] cs@[j] == c;
                    assert(named_twice(cs@, c));
                }
                return Err(SceneError::SharedNode(c));
            }
            proof {
                let s = cs@.subrange(0, k as int + 1);
                assert forall|a: int, b: int| 0 <= a < s.len() && 0 <= b < s.len() && a != b implies s[a]
                    != s[b] by {
                    if a < k && b < k {
                        assert(cs@.subrange(0, k as int)[a] == s[a]);
                        assert(cs@.subrange(0, k as int)[b] == s[b]);
                    }
                }
            }
            seen.set(c, true);
            k = k + 1;
        }
        assert(cs@.subrange(0, cs@.len() as int) =~= cs@);
        Ok(self.push_node(node))
    }

    /// Adds `node`, whose children are known to be adoptable.
    pub fn push_node(&mut self, node: Node<F>) -> (id: usize)
        requires
            old(self).wf(),
            !node.is_empty_intersection(),
            old(self).can_adopt(node.children()),
        ensures
            final(self).wf(),
            id == old(self).nodes().len(),
            final(self).nodes() == old(self).nodes().push(node),
            final(self).owner(id as int).is_none(),
            forall|c: int|
                0 <= c < id ==> #[trigger] final(self).owner(c) == if node.children().contains(
                    c as usize,
                ) {
                    Some(id)
                } else {
                    old(self).owner(c)
                },
    {
        let cs = node.child_ids();
        let n = self.nodes.len();
        let ghost old_parent = self.parent@;
        let mut k: usize = 0;
        while k < cs.len()
            invariant
                cs@ == node.children(),
                cs@.no_duplicates(),
                k <= cs.len(),
                self.parent@.len() == n,
                self.nodes@.len() == n,
                self.nodes@ == old(self).nodes@,
                old_parent == old(self).parent@,
                forall|j: int| 0 <= j < cs.len() ==> #[trigger] cs@[j] < n,
                forall|c: int|
                    0 <= c < n ==> #[trigger] self.parent@[c] == if cs@.subrange(0, k as int).contains(
                        c as usize,
                    ) {
                        Some(n)
                    } else {
                        old_parent[c]
                    },
            decreases cs.len() - k,
        {
            let c = cs[k];
            self.parent.set(c, Some(n));
            k = k + 1;
            proof {
                assert forall|d: int| 0 <= d < n implies #[trigger] self.parent@[d] == if cs@.subrange(
                    0,
                    k as int,
                ).contains(d as usize) {
                    Some(n)
                } else {
                    old_parent[d]
                } by {
                    let before = cs@.subrange(0, k as int - 1);
                    let after = cs@.subrange(0, k as int);
                    if before.contains(d as usize) {
                        let j = choose|j: int| 0 <= j < before.len() && #[trigger] before[j] == d as usize;
                        assert(after[j] == d as usize);
                    }
                    if d == c as int {
                        assert(after[k - 1] == d as usize);
                    }
                    if after.contains(d as usize) && d != c as int {
                        let j = choose|j: int| 0 <= j < after.len() && #[trigger] after[j] == d as usize;
                        assert(before[j] == d as usize);
                    }
                }
            }
        }
        assert(cs@.subrange(0, cs@.len() as int) =~= cs@);
        self.nodes.push(node);
        self.parent.push(None);
        proof {
            assert forall|i: int, j: int|
                0 <= i < self.nodes@.len() && 0 <= j < self.nodes@[i].children().len() implies {
                let c = #[trigger] self.nodes@[i].children()[j];
                c < i && self.parent@[c as int] == Some(i as usize)
            } by {
                let c = self.nodes@[i].children()[j];
                if i < n {
                    assert(old(self).nodes@[i].children()[j] == c);
                    if cs@.contains(c) {
                        let m = choose|m: int| 0 <= m < cs@.len() && #[trigger] cs@[m] == c;
                        assert(old_parent[c as int].is_none());
                    }
                } else {
                    assert(cs@[j] == c);
                }
            }
            assert forall|i: int| 0 <= i < self.nodes@.len() implies #[trigger] self.nodes@[i].children().no_duplicates() by {
                if i < n {
                    assert(old(self).nodes@[i].children().no_duplicates());
                }
            }
            assert forall|c: int|
                0 <= c < self.parent@.len() && (#[trigger] self.parent@[c]).is_some() implies {
                let p = self.parent@[c].unwrap() as int;
                c < p < self.nodes@.len() && self.nodes@[p].children().contains(c as usize)
            } by {
                if c < n && !cs@.contains(c as usize) {
                    let p = old_parent[c].unwrap() as int;
                    assert(old(self).nodes@[p].children().contains(c as usize));
                    assert(self.nodes@[p] == old(self).nodes@[p]);
                }
                if c < n && cs@.contains(c as usize) {
                    let m = choose|m: int| 0 <= m < cs@.len() && #[trigger] cs@[m] == c as usize;
                    assert(self.nodes@[n as int].children()[m] == c as usize);
                }
            }
        }
        n
    }

    /// Takes the last node out of the scene, provided no node owns it; its
    /// children become roots again. Returns `None`, and leaves the scene as
    /// it was, when the scene is empty or its last node has an owner.
    pub fn remove_last(&mut self) -> (r: Option<Node<F>>)
        requires
            old(self).wf(),
        ensures
            final(self).wf(),
            r.is_some() <==> old(self).nodes().len() > 0 && old(self).owner(
                old(self).nodes().len() - 1,
            ).is_none(),
            r.is_some() ==> {
                &&& r == Some(old(self).nodes().last())
                &&& final(self).nodes() == old(self).nodes().drop_last()
                &&& forall|c: int|
                    0 <= c < final(self).nodes().len() ==> #[trigger] final(self).owner(c) == if r.unwrap().children().contains(
                        c as usize,
                    ) {
                        None
                    } else {
                        old(self).owner(c)
                    }
            },
            r.is_none() ==> final(self).nodes() == old(self).nodes() && forall|c: int|
                #![trigger final(self).owner(c)]
                0 <= c < old(self).nodes().len() ==> final(self).owner(c) == old(self).owner(c),
    {
        let n = self.nodes.len();
        if n == 0 || self.parent[n - 1].is_some() {
            return None;
        }
        let ghost old_parent = self.parent@;
        let ghost old_nodes = self.nodes@;
        self.parent.pop();
        let node = self.nodes.pop().unwrap();
        assert(node == old_nodes[n - 1]);
        let cs = node.child_ids();
        let last = n - 1;
        let mut k: usize = 0;
        while k < cs.len()
            invariant
                cs@ == node.children(),
                cs@.no_duplicates(),
                k <= cs.len(),
                self.parent@.len() == last,
                self.nodes@ == old_nodes.drop_last(),
                forall|j: int| 0 <= j < cs.len() ==> #[trigger] cs@[j] < last,
                forall|c: int|
                    0 <= c < last ==> #[trigger] self.parent@[c] == if cs@.subrange(0, k as int).contains(
                        c as usize,
                    ) {
                        None
                    } else {
                        old_parent[c]
                    },
            decreases cs.len() - k,
        {
            let c = cs[k];
            self.parent.set(c, None);
            k = k + 1;
            proof {
                assert forall|d: int| 0 <= d < last implies #[trigger] self.parent@[d] == if cs@.subrange(
                    0,
                    k as int,
                ).contains(d as usize) {
                    None
                } else {
                    old_parent[d]
                } by {
                    let before = cs@.subrange(0, k as int - 1);
                    let after = cs@.subrange(0, k as int);
                    if before.contains(d as usize) {
                        let j = choose|j: int| 0 <= j < before.len() && #[trigger] before[j] == d as usize;
                        assert(after[j] == d as usize);
                    }
                    if d == c as int {
                        assert(after[k - 1] == d as usize);
                    }
                    if after.contains(d as usize) && d != c as int {
                        let j = choose|j: int| 0 <= j < after.len() && #[trigger] after[j] == d as usize;
                        assert(before[j] == d as usize);
                    }
                }
            }
        }
        assert(cs@.subrange(0, cs@.len() as int) =~= cs@);
        proof {
            assert forall|i: int, j: int|
                0 <= i < self.nodes@.len() && 0 <= j < self.nodes@[i].children().len() implies {
                let c = #[trigger] self.nodes@[i].children()[j];
                c < i && self.parent@[c as int] == Some(i as usize)
            } by {
                let c = self.nodes@[i].children()[j];
                assert(old_nodes[i].children()[j] == c);
                if cs@.contains(c) {
                    let m = choose|m: int| 0 <= m < cs@.len() && #[trigger] cs@[m] == c;
                    assert(old_nodes[last as int].children()[m] == c);
                }
            }
            assert forall|i: int| 0 <= i < self.nodes@.len() implies #[trigger] self.nodes@[i].children().no_duplicates() by {
                assert(old_nodes[i].children().no_duplicates());
            }
            assert forall|c: int|
                0 <= c < self.parent@.len() && (#[trigger] self.parent@[c]).is_some() implies {
                let p = self.parent@[c].unwrap() as int;
                c < p < self.nodes@.len() && self.nodes@[p].children().contains(c as usize)
            } by {
                let p = old_parent[c].unwrap() as int;
                assert(old_nodes[p].children().contains(c as usize));
                if p == last {
                    let m = choose|m: int| 0 <= m < old_nodes[p].children().len() && #[trigger] old_nodes[p].children()[m] == c as usize;
                    assert(cs@[m] == c as usize);
                }
                assert(self.nodes@[p] == old_nodes[p]);
            }
        }
        Some(node)
    }

    /// Whether `id` is a node of the scene that no other node owns.
    pub fn is_root(&self, id: usize) -> (r: bool)
        requires
            self.wf(),
        ensures
            r == self.is_root_spec(id as int),
    {
        id < self.parent.len() && self.parent[id].is_none()
    }
}

/// Adds a box centred at `at` with half-sides `dims`: a unit cube, scaled,
/// then translated. Returns the id of the translation, a new root.
pub fn construct_cuboid<F>(scene: &mut Scene<F>, at: (F, F, F), dims: (F, F, F)) -> (r: usize)
    requires
        old(scene).wf(),
    ensures
        final(scene).wf(),
        r == old(scene).nodes().len() + 2,
        final(scene).nodes() == old(scene).nodes().push(Node::Cube(UnitCube)).push(
            Node::Scale((Scale { inner: (r - 2) as usize, scaling: dims })),
        ).push(Node::Translation((Translation { inner: (r - 1) as usize, at }))),
        final(scene).is_root_spec(r as int),
        forall|c: int|
            0 <= c < old(scene).nodes().len() ==> #[trigger] final(scene).owner(c) == old(scene).owner(c),
{
    let cube = scene.push_node(Node::Cube(UnitCube));
    let scaled = scene.push_node(Node::Scale(Scale::new(cube, dims)));
    assert(seq![cube][0] == cube);
    scene.push_node(Node::Translation(Translation::new(scaled, at)))
}

/// Adds a sphere centred at `at` with radius `rad`: a unit sphere, scaled
/// evenly, then translated. Returns the id of the translation, a new root.
pub fn construct_sphere<F: Copy>(scene: &mut Scene<F>, at: (F, F, F), rad: F) -> (r: usize)
    requires
        old(scene).wf(),
    ensures
        final(scene).wf(),
        r == old(scene).nodes().len() + 2,
        final(scene).nodes() == old(scene).nodes().push(Node::Sphere(UnitSphere)).push(
            Node::Scale((Scale { inner: (r - 2) as usize, scaling: (rad, rad, rad) })),
        ).push(Node::Translation((Translation { inner: (r - 1) as usize, at }))),
        final(scene).is_root_spec(r as int),
        forall|c: int|
            0 <= c < old(scene).nodes().len() ==> #[trigger] final(scene).owner(c) == old(scene).owner(c),
{
    let sphere = scene.push_node(Node::Sphere(UnitSphere));
    let scaled = scene.push_node(Node::Scale(Scale::new(sphere, (rad, rad, rad))));
    assert(seq![sphere][0] == sphere);
    scene.push_node(Node::Translation(Translation::new(scaled, at)))
}

/// Wraps the root `world` for a camera at `pos` turned by `yaw` about the
/// vertical axis and by `pitch` about the horizontal one: the world is
/// translated by `pos`, then rotated about `Y` by `yaw`, then about `X` by
/// `pitch`. Returns the id of the outermost rotation. Fails, leaving the
/// scene as it was, when `world` is not a root of the scene.
pub fn view_from<F>(scene: &mut Scene<F>, world: usize, pos: (F, F, F), yaw: F, pitch: F) -> (r:
    Result<usize, SceneError>)
    requires
        old(scene).wf(),
    ensures
        final(scene).wf(),
        r.is_ok() <==> old(scene).is_root_spec(world as int),
        r == Err::<usize, SceneError>(SceneError::UnknownNode(world)) <==> world >= old(scene).nodes().len(),
        r == Err::<usize, SceneError>(SceneError::SharedNode(world)) <==> world < old(scene).nodes().len()
            && old(scene).owner(world as int).is_some(),
        r.is_ok() ==> {
            let n = old(scene).nodes().len();
            &&& r == Ok::<usize, SceneError>((n + 2) as usize)
            &&& final(scene).nodes() == old(scene).nodes().push(
                Node::Translation((Translation { inner: world, at: pos })),
            ).push(Node::Rotation((Rotation { around: Axis::Y, inner: n as usize, angle: yaw }))).push(
                Node::Rotation((Rotation { around: Axis::X, inner: (n + 1) as usize, angle: pitch })),
            )
            &&& final(scene).is_root_spec(n + 2 as int)
            &&& final(scene).owner(n + 1 as int) == Some((n + 2) as usize)
            &&& final(scene).owner(n as int) == Some((n + 1) as usize)
            &&& forall|c: int|
                0 <= c < n ==> #[trigger] final(scene).owner(c) == if c == world {
                    Some(n as usize)
                } else {
                    old(scene).owner(c)
                }
        },
        r.is_err() ==> final(scene).nodes() == old(scene).nodes() && forall|c: int|
            #![trigger final(scene).owner(c)]
            0 <= c < old(scene).nodes().len() ==> final(scene).owner(c) == old(scene).owner(c),
{
    if world >= scene.len() {
        return Err(SceneError::UnknownNode(world));
    }
    if !scene.is_root(world) {
        return Err(SceneError::SharedNode(world));
    }
    assert(seq![world][0] == world);
    let moved = scene.push_node(Node::Translation(Translation::new(world, pos)));
    assert(seq![moved][0] == moved);
    let turned = scene.push_node(Node::Rotation(Rotation::new(moved, Axis::Y, yaw)));
    assert(seq![turned][0] == turned);
    Ok(scene.push_node(Node::Rotation(Rotation::new(turned, Axis::X, pitch))))
}

} // verus!
