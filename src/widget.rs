//! A cache of positioned, sized, colored rectangular widgets kept as a tree in
//! a flat arena, with its invalidation and redraw bookkeeping.

use vstd::prelude::*;

verus! {

/// An RGBA color.
#[derive(Clone, Copy, Debug, PartialEq, Eq, Structural)]
pub struct Color {
    pub r: u8,
    pub g: u8,
    pub b: u8,
    pub a: u8,
}

impl Color {
    /// An opaque color from its red, green and blue components.
    pub fn rgb(r: u8, g: u8, b: u8) -> (c: Color)
        ensures
            c == (Color { r, g, b, a: 255 }),
    {
        Color { r, g, b, a: 255 }
    }

    /// Opaque white.
    pub fn white() -> (c: Color)
        ensures
            c == (Color { r: 255, g: 255, b: 255, a: 255 }),
    {
        Color::rgb(255, 255, 255)
    }
}

/// Properties common to all widgets.
#[derive(Clone, Copy, Debug)]
pub struct Properties {
    /// The top-left (X, Y) coordinate pair denoting the widget's location.
    pub origin: (i32, i32),
    /// Width and height of the widget, in pixels.
    pub bounds: (u32, u32),
    /// Base color of the widget.
    pub color: Color,
    /// Border color and thickness, in pixels, if any.
    pub border: Option<(Color, u8)>,
    /// Indicates that the widget should not be rendered.
    pub hidden: bool,
    /// Indicates that the widget must be redrawn before it is next composed.
    pub invalidated: bool,
}

impl Default for Properties {
    fn default() -> (p: Properties)
        ensures
            p == (Properties {
                origin: (0, 0),
                bounds: (0, 0),
                color: Color { r: 255, g: 255, b: 255, a: 255 },
                border: None,
                hidden: false,
                invalidated: true,
            }),
    {
        Properties {
            origin: (0, 0),
            bounds: (0, 0),
            color: Color::white(),
            border: None,
            hidden: false,
            invalidated: true,
        }
    }
}

/// A widget: its common properties and a payload of a kind chosen by the user
/// of the cache (text, a thumbnail, nothing).
#[derive(Debug)]
pub struct Widget<W> {
    pub properties: Properties,
    pub content: W,
}

impl<W> Widget<W> {
    /// The same widget, marked for redrawing.
    pub open spec fn invalidated(self) -> Widget<W> {
        Widget { properties: Properties { invalidated: true, ..self.properties }, ..self }
    }

    /// The same widget moved to `(x, y)` and marked for redrawing.
    pub open spec fn moved_to(self, x: i32, y: i32) -> Widget<W> {
        Widget { properties: Properties { origin: (x, y), invalidated: true, ..self.properties }, ..self }
    }

    /// Creates a widget from its properties and payload.
    pub fn new(properties: Properties, content: W) -> (w: Widget<W>)
        ensures
            w == (Widget { properties, content }),
    {
        Widget { properties, content }
    }

    /// The top-left (X, Y) coordinate pair denoting the widget's location.
    pub fn origin(&self) -> (r: (i32, i32))
        ensures
            r == self.properties.origin,
    {
        self.properties.origin
    }

    /// Width and height of the widget, in pixels.
    pub fn bounds(&self) -> (r: (u32, u32))
        ensures
            r == self.properties.bounds,
    {
        self.properties.bounds
    }

    /// Base color of the widget.
    pub fn color(&self) -> (r: Color)
        ensures
            r == self.properties.color,
    {
        self.properties.color
    }

    /// Border color and thickness, in pixels, if any.
    pub fn border(&self) -> (r: Option<(Color, u8)>)
        ensures
            r == self.properties.border,
    {
        self.properties.border
    }

    /// Whether the widget is hidden.
    pub fn is_hidden(&self) -> (r: bool)
        ensures
            r == self.properties.hidden,
    {
        self.properties.hidden
    }

    /// Moves the widget to pixel coordinate (X, Y).
    pub fn set_origin(&mut self, x: i32, y: i32)
        ensures
            *final(self) == old(self).moved_to(x, y),
    {
        self.properties.origin = (x, y);
        self.properties.invalidated = true;
    }

    /// Resizes the widget to the given dimensions, in pixels.
    pub fn set_bounds(&mut self, width: u32, height: u32)
        ensures
            *final(self) == (Widget {
                properties: Properties {
                    bounds: (width, height),
                    invalidated: true,
                    ..old(self).properties
                },
                ..*old(self)
            }),
    {
        self.properties.bounds = (width, height);
        self.properties.invalidated = true;
    }

    /// Sets the base color of the widget.
    pub fn set_color(&mut self, color: Color)
        ensures
            *final(self) == (Widget {
                properties: Properties { color, invalidated: true, ..old(self).properties },
                ..*old(self)
            }),
    {
        self.properties.color = color;
        self.properties.invalidated = true;
    }

    /// Draws a border of the given color and thickness, in pixels, around the widget.
    pub fn set_border(&mut self, color: Color, width: u8)
        ensures
            *final(self) == (Widget {
                properties: Properties {
                    border: Some((color, width)),
                    invalidated: true,
                    ..old(self).properties
                },
                ..*old(self)
            }),
    {
        self.properties.border = Some((color, width));
        self.properties.invalidated = true;
    }

    /// Removes the border around the widget, if any.
    pub fn clear_border(&mut self)
        ensures
            *final(self) == (Widget {
                properties: Properties { border: None, invalidated: true, ..old(self).properties },
                ..*old(self)
            }),
    {
        self.properties.border = None;
        self.properties.invalidated = true;
    }

    /// Shows or hides the widget.
    pub fn set_hidden(&mut self, hidden: bool)
        ensures
            *final(self) == (Widget {
                properties: Properties { hidden, ..old(self).properties },
                ..*old(self)
            }),
    {
        self.properties.hidden = hidden;
    }

    /// Forces the widget to be redrawn on the next pass.
    pub fn invalidate(&mut self)
        ensures
            *final(self) == old(self).invalidated(),
    {
        self.properties.invalidated = true;
    }
}

/// A unique identifier of a widget stored in a [`Widgets`] cache.
///
/// Identifiers are handed out in increasing order and never reused; `0` is the root.
#[derive(Clone, Copy, Debug, PartialEq, Eq, Hash, Structural)]
pub struct WidgetId(pub u32);

impl WidgetId {
    /// The identifier of the root widget.
    pub fn root() -> (r: WidgetId)
        ensures
            r.0 == 0,
    {
        WidgetId(0)
    }

    /// The identifier as an index into the arena.
    pub open spec fn idx(self) -> int {
        self.0 as int
    }
}

/// What the cache knows of one node: its widget, the size of the texture held
/// for it (if one was made), its parent and its ordered children.
pub struct Node<W> {
    pub widget: Widget<W>,
    pub texture: Option<(u32, u32)>,
    pub parent: WidgetId,
    pub children: Seq<WidgetId>,
}

/// The parent of node `i`.
pub open spec fn parent_of<W>(nodes: Seq<Node<W>>, i: int) -> int {
    nodes[i].parent.idx()
}

/// The `k`-th child of node `i`.
pub open spec fn child_of<W>(nodes: Seq<Node<W>>, i: int, k: int) -> int {
    nodes[i].children[k].idx()
}

/// The arena holds a tree rooted at `0`: every other node has a parent with a
/// smaller identifier, and each node's children are exactly the nodes naming it as
/// parent, in increasing (that is, insertion) order.
pub open spec fn tree_wf<W>(nodes: Seq<Node<W>>) -> bool {
    &&& 0 < nodes.len() <= u32::MAX as int + 1
    &&& parent_of(nodes, 0) == 0
    &&& forall|i: int| 0 <= i < nodes.len() ==> #[trigger] nodes[i].children.len() < nodes.len()
    &&& forall|i: int| 0 < i < nodes.len() ==> #[trigger] parent_of(nodes, i) < i
    &&& forall|i: int, k: int|
        0 <= i < nodes.len() && 0 <= k < nodes[i].children.len() ==> {
            &&& i < #[trigger] child_of(nodes, i, k) < nodes.len()
            &&& parent_of(nodes, child_of(nodes, i, k)) == i
        }
    &&& forall|i: int, k1: int, k2: int|
        0 <= i < nodes.len() && 0 <= k1 < k2 < nodes[i].children.len() ==> #[trigger] child_of(
            nodes,
            i,
            k1,
        ) < #[trigger] child_of(nodes, i, k2)
    &&& forall|c: int|
        0 < c < nodes.len() ==> #[trigger] nodes[parent_of(nodes, c)].children.contains(
            WidgetId(c as u32),
        )
}

/// The nodes after inserting `widget` under `parent`: the new node takes the next
/// identifier, is marked for drawing and is appended to its parent's children.
pub open spec fn inserted<W>(nodes: Seq<Node<W>>, widget: Widget<W>, parent: WidgetId) -> Seq<
    Node<W>,
> {
    let id = WidgetId(nodes.len() as u32);
    nodes.update(
        parent.idx(),
        Node { children: nodes[parent.idx()].children.push(id), ..nodes[parent.idx()] },
    ).push(Node { widget: widget.invalidated(), texture: None, parent, children: Seq::empty() })
}


/// Node `b` lies in the subtree of node `a`: it is `a`, or its chain of parents reaches `a`.
pub open spec fn descends<W>(nodes: Seq<Node<W>>, b: int, a: int) -> bool
    decreases b,
{
    if b == a {
        true
    } else if b < a || b <= 0 || b >= nodes.len() {
        false
    } else if parent_of(nodes, b) < b {
        descends(nodes, parent_of(nodes, b), a)
    } else {
        false
    }
}

/// Every node of the tree lies in the subtree of the root.
pub proof fn lemma_descends_root<W>(nodes: Seq<Node<W>>, b: int)
    requires
        tree_wf(nodes),
        0 <= b < nodes.len(),
    ensures
        descends(nodes, b, 0),
    decreases b,
{
    if b > 0 {
        lemma_descends_root(nodes, parent_of(nodes, b));
    }
}

pub proof fn lemma_descends_ge<W>(nodes: Seq<Node<W>>, b: int, a: int)
    requires
        descends(nodes, b, a),
    ensures
        a <= b,
    decreases b,
{
    if b != a {
        lemma_descends_ge(nodes, parent_of(nodes, b), a);
    }
}

/// Of two ancestors of one node, the one with the larger identifier lies below the other.
proof fn lemma_descends_chain<W>(nodes: Seq<Node<W>>, b: int, x: int, y: int)
    requires
        descends(nodes, b, x),
        descends(nodes, b, y),
        x <= y,
    ensures
        descends(nodes, y, x),
    decreases b,
{
    if b != y {
        lemma_descends_ge(nodes, b, y);
        if b == x {
            lemma_descends_ge(nodes, parent_of(nodes, b), y);
        } else {
            lemma_descends_chain(nodes, parent_of(nodes, b), x, y);
        }
    }
}

/// The subtrees of two different children of one node do not meet.
proof fn lemma_children_disjoint<W>(nodes: Seq<Node<W>>, a: int, k1: int, k2: int, b: int)
    requires
        tree_wf(nodes),
        0 <= a < nodes.len(),
        0 <= k1 < nodes[a].children.len(),
        0 <= k2 < nodes[a].children.len(),
        k1 != k2,
        descends(nodes, b, child_of(nodes, a, k1)),
    ensures
        !descends(nodes, b, child_of(nodes, a, k2)),
{
    let c1 = child_of(nodes, a, k1);
    let c2 = child_of(nodes, a, k2);
    if descends(nodes, b, c2) {
        if k1 < k2 {
            assert(c1 < c2);
            lemma_descends_chain(nodes, b, c1, c2);
            lemma_descends_ge(nodes, parent_of(nodes, c2), c1);
        } else {
            assert(c2 < c1);
            lemma_descends_chain(nodes, b, c2, c1);
            lemma_descends_ge(nodes, parent_of(nodes, c1), c2);
        }
    }
}

/// A node below `a` other than `a` itself lies below one of `a`'s children.
pub proof fn lemma_descends_via_child<W>(nodes: Seq<Node<W>>, b: int, a: int) -> (k: int)
    requires
        tree_wf(nodes),
        0 <= a < nodes.len(),
        descends(nodes, b, a),
        b != a,
    ensures
        0 <= k < nodes[a].children.len(),
        descends(nodes, b, child_of(nodes, a, k)),
    decreases b,
{
    let p = parent_of(nodes, b);
    if p == a {
        assert(nodes[parent_of(nodes, b)].children.contains(WidgetId(b as u32)));
        let k = choose|k: int|
            0 <= k < nodes[a].children.len() && nodes[a].children[k] == WidgetId(b as u32);
        assert(child_of(nodes, a, k) == b);
        k
    } else {
        let k = lemma_descends_via_child(nodes, p, a);
        let c = child_of(nodes, a, k);
        lemma_descends_ge(nodes, p, c);
        k
    }
}

/// A child's subtree lies within its parent's.
proof fn lemma_child_subtree<W>(nodes: Seq<Node<W>>, a: int, k: int, b: int)
    requires
        tree_wf(nodes),
        0 <= a < nodes.len(),
        0 <= k < nodes[a].children.len(),
        descends(nodes, b, child_of(nodes, a, k)),
    ensures
        descends(nodes, b, a),
    decreases b,
{
    let c = child_of(nodes, a, k);
    assert(parent_of(nodes, c) == a && a < c < nodes.len());
    assert(descends(nodes, a, a));
    if b != c {
        lemma_descends_ge(nodes, b, c);
        lemma_child_subtree(nodes, a, k, parent_of(nodes, b));
    }
}

/// Two node sequences with the same tree structure (parents and children).
pub open spec fn same_shape<W>(x: Seq<Node<W>>, y: Seq<Node<W>>) -> bool {
    &&& x.len() == y.len()
    &&& forall|i: int|
        #![trigger x[i]]
        #![trigger y[i]]
        0 <= i < x.len() ==> x[i].parent == y[i].parent && x[i].children == y[i].children
}

pub proof fn lemma_same_shape<W>(x: Seq<Node<W>>, y: Seq<Node<W>>)
    requires
        same_shape(x, y),
    ensures
        tree_wf(x) ==> tree_wf(y),
        forall|b: int, a: int| descends(x, b, a) == #[trigger] descends(y, b, a),
{
    assert forall|b: int, a: int| descends(x, b, a) == #[trigger] descends(y, b, a) by {
        lemma_same_shape_descends(x, y, b, a);
    }
    if tree_wf(x) {
        assert forall|i: int| 0 < i < y.len() implies #[trigger] parent_of(y, i) < i by {
            assert(parent_of(x, i) < i);
        }
        assert forall|i: int, k: int|
            0 <= i < y.len() && 0 <= k < y[i].children.len() implies {
            &&& i < #[trigger] child_of(y, i, k) < y.len()
            &&& parent_of(y, child_of(y, i, k)) == i
        } by {
            assert(child_of(x, i, k) == child_of(y, i, k));
        }
        assert forall|i: int, k1: int, k2: int|
            0 <= i < y.len() && 0 <= k1 < k2 < y[i].children.len() implies #[trigger] child_of(
            y,
            i,
            k1,
        ) < #[trigger] child_of(y, i, k2) by {
            assert(child_of(x, i, k1) < child_of(x, i, k2));
        }
        assert forall|c: int| 0 < c < y.len() implies #[trigger] y[parent_of(
            y,
            c,
        )].children.contains(WidgetId(c as u32)) by {
            assert(x[parent_of(x, c)].children.contains(WidgetId(c as u32)));
            assert(parent_of(x, c) == parent_of(y, c));
        }
        assert(parent_of(x, 0) == parent_of(y, 0));
    }
}

proof fn lemma_same_shape_descends<W>(x: Seq<Node<W>>, y: Seq<Node<W>>, b: int, a: int)
    requires
        same_shape(x, y),
    ensures
        descends(x, b, a) == descends(y, b, a),
    decreases b,
{
    if b != a && !(b < a || b <= 0 || b >= x.len()) {
        assert(parent_of(x, b) == parent_of(y, b));
        if parent_of(x, b) < b {
            lemma_same_shape_descends(x, y, parent_of(x, b), a);
        }
    }
}

/// Every origin in the subtree of `id` can be shifted by `(dx, dy)` within `i32`.
pub open spec fn can_translate<W>(nodes: Seq<Node<W>>, id: int, dx: i32, dy: i32) -> bool {
    forall|i: int|
        0 <= i < nodes.len() && #[trigger] descends(nodes, i, id) ==> {
            &&& i32::MIN <= nodes[i].widget.properties.origin.0 + dx <= i32::MAX
            &&& i32::MIN <= nodes[i].widget.properties.origin.1 + dy <= i32::MAX
        }
}

/// The widget moved by `(dx, dy)` and marked for redrawing.
pub open spec fn shifted<W>(w: Widget<W>, dx: i32, dy: i32) -> Widget<W> {
    w.moved_to(
        (w.properties.origin.0 + dx) as i32,
        (w.properties.origin.1 + dy) as i32,
    )
}

/// The nodes after translating the subtree of `id` by a non-zero `(dx, dy)`.
pub open spec fn translated<W>(nodes: Seq<Node<W>>, id: int, dx: i32, dy: i32) -> Seq<Node<W>> {
    Seq::new(
        nodes.len(),
        |i: int|
            if descends(nodes, i, id) {
                Node { widget: shifted(nodes[i].widget, dx, dy), ..nodes[i] }
            } else {
                nodes[i]
            },
    )
}


/// One widget to compose onto the frame, in paint order: where and how large,
/// whether its texture must be (re)created at that size, whether its content must
/// be redrawn into the texture, and the border to draw over it.
#[derive(Clone, Copy, Debug, PartialEq, Eq)]
pub struct RenderStep {
    pub id: WidgetId,
    pub origin: (i32, i32),
    pub bounds: (u32, u32),
    pub new_texture: bool,
    pub redraw: bool,
    pub border: Option<(Color, u8)>,
}

/// A border worth drawing: one at least a pixel thick.
pub open spec fn visible_border(b: Option<(Color, u8)>) -> Option<(Color, u8)> {
    match b {
        Some((c, w)) => if w > 0 {
            Some((c, w))
        } else {
            None
        },
        None => None,
    }
}

/// The step that composes node `i` as it stands before the pass.
pub open spec fn step_of<W>(nodes: Seq<Node<W>>, i: int) -> RenderStep {
    let p = nodes[i].widget.properties;
    RenderStep {
        id: WidgetId(i as u32),
        origin: p.origin,
        bounds: p.bounds,
        new_texture: nodes[i].texture != Some(p.bounds),
        redraw: p.invalidated,
        border: visible_border(p.border),
    }
}

/// A node after a redraw pass: a visible one holds a texture of its size and is up
/// to date; a hidden one is left as it was.
pub open spec fn rendered<W>(n: Node<W>) -> Node<W> {
    if n.widget.properties.hidden {
        n
    } else {
        Node {
            widget: Widget {
                properties: Properties { invalidated: false, ..n.widget.properties },
                ..n.widget
            },
            texture: Some(n.widget.properties.bounds),
            ..n
        }
    }
}

/// The steps of the subtree of `id` in paint order: the node (unless hidden),
/// then the subtrees of its children in order.
pub open spec fn paint<W>(nodes: Seq<Node<W>>, id: int) -> Seq<RenderStep>
    decreases nodes.len() - id, nodes[id].children.len() + 1,
{
    let own = if nodes[id].widget.properties.hidden {
        Seq::empty()
    } else {
        seq![step_of(nodes, id)]
    };
    own + paint_children(nodes, id, nodes[id].children.len() as int)
}

/// The steps of the subtrees of the first `k` children of `id`, in order.
pub open spec fn paint_children<W>(nodes: Seq<Node<W>>, id: int, k: int) -> Seq<RenderStep>
    decreases nodes.len() - id, k,
{
    if k <= 0 || k > nodes[id].children.len() {
        Seq::empty()
    } else {
        let c = child_of(nodes, id, k - 1);
        let rest = paint_children(nodes, id, k - 1);
        if id < c < nodes.len() {
            rest + paint(nodes, c)
        } else {
            rest
        }
    }
}

/// The nodes after a redraw pass over the subtree of `id`.
pub open spec fn rendered_below<W>(nodes: Seq<Node<W>>, id: int) -> Seq<Node<W>> {
    Seq::new(
        nodes.len(),
        |i: int|
            if descends(nodes, i, id) {
                rendered(nodes[i])
            } else {
                nodes[i]
            },
    )
}

/// Two node sequences of one shape that agree on the subtree of `id` paint it alike.
proof fn lemma_paint_local<W>(x: Seq<Node<W>>, y: Seq<Node<W>>, id: int)
    requires
        tree_wf(x),
        same_shape(x, y),
        0 <= id < x.len(),
        forall|j: int| 0 <= j < x.len() && #[trigger] descends(x, j, id) ==> x[j] == y[j],
    ensures
        paint(x, id) == paint(y, id),
    decreases x.len() - id, x[id].children.len() + 1,
{
    assert(descends(x, id, id));
    lemma_paint_children_local(x, y, id, x[id].children.len() as int);
}

proof fn lemma_paint_children_local<W>(x: Seq<Node<W>>, y: Seq<Node<W>>, id: int, k: int)
    requires
        tree_wf(x),
        same_shape(x, y),
        0 <= id < x.len(),
        0 <= k <= x[id].children.len(),
        forall|j: int| 0 <= j < x.len() && #[trigger] descends(x, j, id) ==> x[j] == y[j],
    ensures
        paint_children(x, id, k) == paint_children(y, id, k),
    decreases x.len() - id, k,
{
    assert(descends(x, id, id));
    assert(x[id] == y[id]);
    if k > 0 {
        lemma_paint_children_local(x, y, id, k - 1);
        let c = child_of(x, id, k - 1);
        assert forall|j: int| 0 <= j < x.len() && #[trigger] descends(x, j, c) implies x[j]
            == y[j] by {
            lemma_child_subtree(x, id, k - 1, j);
        }
        lemma_paint_local(x, y, c);
    }
}


/// Inserting under an existing parent keeps the tree well formed.
pub proof fn lemma_inserted_wf<W>(nodes: Seq<Node<W>>, widget: Widget<W>, parent: WidgetId)
    requires
        tree_wf(nodes),
        0 <= parent.idx() < nodes.len(),
        nodes.len() <= u32::MAX,
    ensures
        tree_wf(inserted(nodes, widget, parent)),
{
    let want = inserted(nodes, widget, parent);
    let id = WidgetId(nodes.len() as u32);
    assert forall|i: int| 0 < i < want.len() implies #[trigger] parent_of(want, i) < i by {
        if i < nodes.len() {
            assert(parent_of(want, i) == parent_of(nodes, i));
        }
    }
    assert forall|c: int| 0 < c < want.len() implies #[trigger] want[parent_of(
        want,
        c,
    )].children.contains(WidgetId(c as u32)) by {
        if c < nodes.len() {
            assert(nodes[parent_of(nodes, c)].children.contains(WidgetId(c as u32)));
            if parent_of(nodes, c) == parent.idx() {
                let k = choose|k: int|
                    0 <= k < nodes[parent.idx()].children.len()
                        && nodes[parent.idx()].children[k] == WidgetId(c as u32);
                assert(want[parent.idx()].children[k] == WidgetId(c as u32));
            }
        } else {
            assert(want[parent.idx()].children.last() == id);
        }
    }
    assert forall|i: int, k: int|
        0 <= i < want.len() && 0 <= k < want[i].children.len() implies {
        &&& i < #[trigger] child_of(want, i, k) < want.len()
        &&& parent_of(want, child_of(want, i, k)) == i
    } by {
        if i != parent.idx() || k < nodes[i].children.len() {
            assert(child_of(want, i, k) == child_of(nodes, i, k));
        }
    }
    assert forall|i: int, k1: int, k2: int|
        0 <= i < want.len() && 0 <= k1 < k2 < want[i].children.len() implies #[trigger] child_of(
        want,
        i,
        k1,
    ) < #[trigger] child_of(want, i, k2) by {
        if i == parent.idx() && k2 == nodes[i].children.len() {
            assert(child_of(nodes, i, k1) < nodes.len());
        } else {
            assert(child_of(want, i, k1) == child_of(nodes, i, k1));
            assert(child_of(want, i, k2) == child_of(nodes, i, k2));
        }
    }
}


/// The nodes after inserting `widgets[k]` under `parents[k]`, for each `k` in turn.
pub open spec fn inserted_all<W>(
    nodes: Seq<Node<W>>,
    widgets: Seq<Widget<W>>,
    parents: Seq<WidgetId>,
) -> Seq<Node<W>>
    decreases parents.len(),
{
    if parents.len() == 0 || widgets.len() == 0 {
        nodes
    } else {
        inserted(
            inserted_all(nodes, widgets.drop_last(), parents.drop_last()),
            widgets.last(),
            parents.last(),
        )
    }
}

/// The identifiers handed out to the insertions made under `p`, in the order they
/// were made, when the `k`-th insertion gets identifier `first + k`.
pub open spec fn inserted_under(first: int, parents: Seq<WidgetId>, p: int) -> Seq<WidgetId>
    decreases parents.len(),
{
    if parents.len() == 0 {
        Seq::empty()
    } else {
        let rest = inserted_under(first, parents.drop_last(), p);
        if parents.last().idx() == p {
            rest.push(WidgetId((first + parents.len() - 1) as u32))
        } else {
            rest
        }
    }
}

/// Over any run of insertions into a well-formed tree, the `k`-th insertion creates
/// a fresh node with identifier `nodes.len() + k` under the parent it named, and
/// each node's children are its earlier children followed by the nodes inserted
/// under it, in the order they were inserted.
pub proof fn lemma_insertion_order<W>(
    nodes: Seq<Node<W>>,
    widgets: Seq<Widget<W>>,
    parents: Seq<WidgetId>,
)
    requires
        tree_wf(nodes),
        widgets.len() == parents.len(),
        nodes.len() + parents.len() <= u32::MAX as int + 1,
        forall|k: int| 0 <= k < parents.len() ==> #[trigger] parents[k].idx() < nodes.len() + k,
    ensures
        ({
            let after = inserted_all(nodes, widgets, parents);
            &&& tree_wf(after)
            &&& after.len() == nodes.len() + parents.len()
            &&& forall|k: int|
                0 <= k < parents.len() ==> #[trigger] after[nodes.len() + k].parent == parents[k]
            &&& forall|p: int|
                0 <= p < nodes.len() ==> #[trigger] after[p].children == nodes[p].children
                    + inserted_under(nodes.len() as int, parents, p)
            &&& forall|p: int|
                nodes.len() <= p < after.len() ==> #[trigger] after[p].children == inserted_under(
                    nodes.len() as int,
                    parents,
                    p,
                )
        }),
    decreases parents.len(),
{
    if parents.len() > 0 {
        let ps = parents.drop_last();
        let ws = widgets.drop_last();
        assert forall|k: int| 0 <= k < ps.len() implies #[trigger] ps[k].idx() < nodes.len() + k by {
            assert(ps[k] == parents[k]);
        }
        lemma_insertion_order(nodes, ws, ps);
        let mid = inserted_all(nodes, ws, ps);
        let last = parents.last();
        assert(last == parents[parents.len() - 1]);
        lemma_inserted_wf(mid, widgets.last(), last);
        let after = inserted_all(nodes, widgets, parents);
        assert(after == inserted(mid, widgets.last(), last));
        assert forall|k: int| 0 <= k < parents.len() implies #[trigger] after[nodes.len()
            + k].parent == parents[k] by {
            if k < ps.len() {
                assert(mid[nodes.len() + k].parent == ps[k]);
            }
        }
        assert forall|p: int| 0 <= p < nodes.len() implies #[trigger] after[p].children
            == nodes[p].children + inserted_under(nodes.len() as int, parents, p) by {
            assert(mid[p].children == nodes[p].children + inserted_under(nodes.len() as int, ps, p));
            if p == last.idx() {
                assert(after[p].children =~= nodes[p].children + inserted_under(
                    nodes.len() as int,
                    parents,
                    p,
                ));
            }
        }
        assert forall|p: int| nodes.len() <= p < after.len() implies #[trigger] after[p].children
            == inserted_under(nodes.len() as int, parents, p) by {
            if p < mid.len() {
                assert(mid[p].children == inserted_under(nodes.len() as int, ps, p));
            } else {
                assert(inserted_under(nodes.len() as int, ps, p).len() == 0) by {
                    lemma_inserted_under_bound(nodes.len() as int, ps, p);
                }
            }
        }
    }
}

proof fn lemma_inserted_under_bound(first: int, parents: Seq<WidgetId>, p: int)
    requires
        forall|k: int| 0 <= k < parents.len() ==> #[trigger] parents[k].idx() < first + k,
        p >= first + parents.len(),
    ensures
        inserted_under(first, parents, p).len() == 0,
    decreases parents.len(),
{
    if parents.len() > 0 {
        let ps = parents.drop_last();
        assert forall|k: int| 0 <= k < ps.len() implies #[trigger] ps[k].idx() < first + k by {
            assert(ps[k] == parents[k]);
        }
        assert(parents[parents.len() - 1].idx() < first + parents.len() - 1);
        lemma_inserted_under_bound(first, ps, p);
    }
}

proof fn lemma_contains_append<T>(s0: Seq<T>, s1: Seq<T>, x: T)
    requires
        s0.contains(x) || s1.contains(x),
    ensures
        (s0 + s1).contains(x),
{
    if s0.contains(x) {
        let i = choose|i: int| 0 <= i < s0.len() && s0[i] == x;
        assert((s0 + s1)[i] == x);
    } else {
        let i = choose|i: int| 0 <= i < s1.len() && s1[i] == x;
        assert((s0 + s1)[s0.len() + i] == x);
    }
}

proof fn lemma_paint_children_covers<W>(nodes: Seq<Node<W>>, id: int, k: int, m: int, x: RenderStep)
    requires
        tree_wf(nodes),
        0 <= id < nodes.len(),
        0 <= k < m <= nodes[id].children.len(),
        paint(nodes, child_of(nodes, id, k)).contains(x),
    ensures
        paint_children(nodes, id, m).contains(x),
    decreases m,
{
    let c = child_of(nodes, id, m - 1);
    assert(id < c < nodes.len());
    if m - 1 == k {
        lemma_contains_append(paint_children(nodes, id, m - 1), paint(nodes, c), x);
    } else {
        lemma_paint_children_covers(nodes, id, k, m - 1, x);
        lemma_contains_append(paint_children(nodes, id, m - 1), paint(nodes, c), x);
    }
}

/// Every visible widget of the subtree of `id` gets its step in the paint of
/// that subtree, hidden ancestors or not.
pub proof fn lemma_paint_covers<W>(nodes: Seq<Node<W>>, id: int, b: int)
    requires
        tree_wf(nodes),
        0 <= id < nodes.len(),
        0 <= b < nodes.len(),
        descends(nodes, b, id),
        !nodes[b].widget.properties.hidden,
    ensures
        paint(nodes, id).contains(step_of(nodes, b)),
    decreases nodes.len() - id,
{
    let own = if nodes[id].widget.properties.hidden {
        Seq::empty()
    } else {
        seq![step_of(nodes, id)]
    };
    let rest = paint_children(nodes, id, nodes[id].children.len() as int);
    assert(paint(nodes, id) == own + rest);
    if b == id {
        assert(own[0] == step_of(nodes, b));
        lemma_contains_append(own, rest, step_of(nodes, b));
    } else {
        let k = lemma_descends_via_child(nodes, b, id);
        let c = child_of(nodes, id, k);
        lemma_paint_covers(nodes, c, b);
        lemma_paint_children_covers(nodes, id, k, nodes[id].children.len() as int, step_of(nodes, b));
        lemma_contains_append(own, rest, step_of(nodes, b));
    }
}

/// A redraw pass composes every visible widget, those below hidden ones too,
/// redrawing it exactly when it was marked: the plan holds the widget's step as
/// it stood before the pass.
pub proof fn lemma_draw_covers_visible<W>(nodes: Seq<Node<W>>, b: int)
    requires
        tree_wf(nodes),
        0 <= b < nodes.len(),
        !nodes[b].widget.properties.hidden,
    ensures
        paint(nodes, 0).contains(step_of(nodes, b)),
        step_of(nodes, b).redraw == nodes[b].widget.properties.invalidated,
        rendered(nodes[b]).widget.properties.invalidated == false,
{
    lemma_descends_root(nodes, b);
    lemma_paint_covers(nodes, 0, b);
}

/// A cached widget and its associated metadata.
struct CacheEntry<W> {
    widget: Widget<W>,
    texture: Option<(u32, u32)>,
    parent: WidgetId,
    children: Vec<WidgetId>,
}

impl<W> CacheEntry<W> {
    closed spec fn node(self) -> Node<W> {
        Node {
            widget: self.widget,
            texture: self.texture,
            parent: self.parent,
            children: self.children@,
        }
    }
}

/// A cache of drawable widgets, arranged as a tree under a root widget.
pub struct Widgets<W> {
    entries: Vec<CacheEntry<W>>,
}

impl<W> View for Widgets<W> {
    type V = Seq<Node<W>>;

    closed spec fn view(&self) -> Seq<Node<W>> {
        self.entries@.map_values(|e: CacheEntry<W>| e.node())
    }
}

impl<W> Widgets<W> {
    /// The view is the entries' nodes, one for one.
    proof fn lemma_view(&self)
        ensures
            self@.len() == self.entries@.len(),
            forall|i: int| 0 <= i < self@.len() ==> #[trigger] self@[i] == self.entries@[i].node(),
    {
    }

    /// The arena holds a well-formed tree.
    pub open spec fn wf(&self) -> bool {
        tree_wf(self@)
    }

    /// `id` names a widget of the cache.
    pub open spec fn contains(&self, id: WidgetId) -> bool {
        0 <= id.idx() < self@.len()
    }

    /// Creates a cache holding only `root_widget`, marked for drawing.
    pub fn new(root_widget: Widget<W>) -> (w: Widgets<W>)
        ensures
            w.wf(),
            w@ == seq![
                Node {
                    widget: root_widget.invalidated(),
                    texture: None,
                    parent: WidgetId(0),
                    children: Seq::<WidgetId>::empty(),
                },
            ],
    {
        let mut root_widget = root_widget;
        root_widget.invalidate();
        let mut entries: Vec<CacheEntry<W>> = Vec::new();
        entries.push(
            CacheEntry { widget: root_widget, texture: None, parent: WidgetId(0), children: Vec::new() },
        );
        let w = Widgets { entries };
        assert(w@ =~= seq![
            Node {
                widget: root_widget,
                texture: None,
                parent: WidgetId(0),
                children: Seq::<WidgetId>::empty(),
            },
        ]);
        w
    }

    /// The identifier of the root widget.
    pub fn root(&self) -> (r: WidgetId)
        ensures
            r.0 == 0,
    {
        WidgetId::root()
    }

    /// The number of widgets in the cache; identifiers run from `0` below it.
    pub fn len(&self) -> (n: usize)
        ensures
            n == self@.len(),
    {
        self.entries.len()
    }

    /// Inserts a widget, marked for drawing, as the last child of `parent`, and
    /// returns its identifier: the next one, never handed out before.
    pub fn insert(&mut self, widget: Widget<W>, parent: WidgetId) -> (id: WidgetId)
        requires
            old(self).wf(),
            old(self).contains(parent),
            old(self)@.len() <= u32::MAX,
        ensures
            final(self).wf(),
            id.idx() == old(self)@.len(),
            final(self)@ == inserted(old(self)@, widget, parent),
    {
        let ghost nodes = self@;
        let mut widget = widget;
        widget.invalidate();
        let id = WidgetId(self.entries.len() as u32);
        let p = parent.0 as usize;
        let mut entry = self.entries.remove(p);
        entry.children.push(id);
        self.entries.insert(p, entry);
        self.entries.push(CacheEntry { widget, texture: None, parent, children: Vec::new() });
        proof {
            lemma_inserted_wf(nodes, widget, parent);
        }
        assert(self@ =~= inserted(nodes, widget, parent));
        id
    }

    /// The widget named `id`.
    pub fn get(&self, id: WidgetId) -> (r: &Widget<W>)
        requires
            self.contains(id),
        ensures
            *r == self@[id.idx()].widget,
    {
        &self.entries[id.0 as usize].widget
    }


    /// Mutable access to the widget named `id`; the tree around it stays as it is.
    pub fn get_mut(&mut self, id: WidgetId) -> (r: &mut Widget<W>)
        requires
            old(self).contains(id),
        ensures
            *r == old(self)@[id.idx()].widget,
            final(self)@ == old(self)@.update(
                id.idx(),
                Node { widget: *final(r), ..old(self)@[id.idx()] },
            ),
    {
        &mut self.entries[id.0 as usize].widget
    }

    /// Moves the widget named `id` and every widget below it by `(dx, dy)`, marking
    /// each of them for redrawing; a zero delta changes nothing.
    pub fn translate(&mut self, id: WidgetId, dx: i32, dy: i32)
        requires
            old(self).wf(),
            old(self).contains(id),
            can_translate(old(self)@, id.idx(), dx, dy),
        ensures
            final(self).wf(),
            dx == 0 && dy == 0 ==> final(self)@ == old(self)@,
            !(dx == 0 && dy == 0) ==> final(self)@ == translated(old(self)@, id.idx(), dx, dy),
        decreases u32::MAX - id.0,
    {
        if dx == 0 && dy == 0 {
            return;
        }
        let ghost nodes = self@;
        let i = id.0 as usize;
        assert(descends(nodes, id.idx(), id.idx()));
        let (x, y) = self.entries[i].widget.origin();
        self.entries[i].widget.set_origin(x + dx, y + dy);
        let ghost start = self@;
        assert(same_shape(nodes, start));
        proof {
            lemma_same_shape(nodes, start);
        }
        let n = self.entries[i].children.len();
        let mut k: usize = 0;
        while k < n
            invariant
                tree_wf(nodes),
                0 <= id.idx() < nodes.len(),
                i == id.0,
                !(dx == 0 && dy == 0),
                start.len() == nodes.len(),
                can_translate(nodes, id.idx(), dx, dy),
                k <= n == nodes[id.idx()].children.len(),
                same_shape(nodes, self@),
                forall|j: int|
                    0 <= j < nodes.len() ==> #[trigger] self@[j] == if j == id.idx() {
                        start[j]
                    } else if exists|m: int|
                        0 <= m < k && descends(nodes, j, #[trigger] child_of(nodes, id.idx(), m)) {
                        translated(nodes, id.idx(), dx, dy)[j]
                    } else {
                        nodes[j]
                    },
            decreases n - k,
        {
            proof {
                self.lemma_view();
                assert(self@[id.idx()] == self.entries@[id.idx()].node());
            }
            let c = self.entries[i].children[k];
            let ghost before = self@;
            proof {
                lemma_same_shape(nodes, before);
                assert(child_of(nodes, id.idx(), k as int) == c.idx());
                assert forall|j: int|
                    0 <= j < before.len() && #[trigger] descends(before, j, c.idx()) implies {
                    &&& i32::MIN <= before[j].widget.properties.origin.0 + dx <= i32::MAX
                    &&& i32::MIN <= before[j].widget.properties.origin.1 + dy <= i32::MAX
                } by {
                    assert(descends(nodes, j, c.idx()));
                    lemma_child_subtree(nodes, id.idx(), k as int, j);
                    lemma_descends_ge(nodes, j, c.idx());
                    assert(j != id.idx());
                    if exists|m: int|
                        0 <= m < k && descends(nodes, j, #[trigger] child_of(nodes, id.idx(), m)) {
                        let m = choose|m: int|
                            0 <= m < k && descends(
                                nodes,
                                j,
                                #[trigger] child_of(nodes, id.idx(), m),
                            );
                        lemma_children_disjoint(nodes, id.idx(), m, k as int, j);
                    }
                    assert(before[j] == nodes[j]);
                }
            }
            assert(id.idx() < c.idx() && self@.len() == nodes.len());
            self.translate(c, dx, dy);
            proof {
                lemma_same_shape(before, self@);
                assert forall|j: int| 0 <= j < nodes.len() implies #[trigger] self@[j] == if j
                    == id.idx() {
                    start[j]
                } else if exists|m: int|
                    0 <= m < k + 1 && descends(nodes, j, #[trigger] child_of(nodes, id.idx(), m)) {
                    translated(nodes, id.idx(), dx, dy)[j]
                } else {
                    nodes[j]
                } by {
                    assert(descends(before, j, c.idx()) == descends(nodes, j, c.idx()));
                    let old_j = before[j];
                    if descends(nodes, j, c.idx()) {
                        lemma_child_subtree(nodes, id.idx(), k as int, j);
                        lemma_descends_ge(nodes, j, c.idx());
                        assert(child_of(nodes, id.idx(), k as int) == c.idx());
                        if exists|m: int|
                            0 <= m < k && descends(nodes, j, #[trigger] child_of(nodes, id.idx(), m)) {
                            let m = choose|m: int|
                                0 <= m < k && descends(
                                    nodes,
                                    j,
                                    #[trigger] child_of(nodes, id.idx(), m),
                                );
                            lemma_children_disjoint(nodes, id.idx(), m, k as int, j);
                        }
                        assert(old_j == nodes[j]);
                        assert(descends(nodes, j, id.idx()));
                        assert(descends(nodes, j, child_of(nodes, id.idx(), k as int)));
                    } else {
                        if exists|m: int|
                            0 <= m < k + 1 && descends(
                                nodes,
                                j,
                                #[trigger] child_of(nodes, id.idx(), m),
                            ) {
                            let m = choose|m: int|
                                0 <= m < k + 1 && descends(
                                    nodes,
                                    j,
                                    #[trigger] child_of(nodes, id.idx(), m),
                                );
                            assert(m < k);
                        }
                    }
                }
            }
            k = k + 1;
        }
        proof {
            let want = translated(nodes, id.idx(), dx, dy);
            assert forall|j: int| 0 <= j < nodes.len() implies #[trigger] self@[j] == want[j] by {
                if j != id.idx() && descends(nodes, j, id.idx()) {
                    let m = lemma_descends_via_child(nodes, j, id.idx());
                }
                if exists|m: int|
                    0 <= m < n && descends(nodes, j, #[trigger] child_of(nodes, id.idx(), m)) {
                    let m = choose|m: int|
                        0 <= m < n && descends(nodes, j, #[trigger] child_of(nodes, id.idx(), m));
                    lemma_child_subtree(nodes, id.idx(), m, j);
                    lemma_descends_ge(nodes, j, child_of(nodes, id.idx(), m));
                }
            }
            assert(self@ =~= want);
            lemma_same_shape(nodes, self@);
        }
    }


    /// Whether any widget is marked for redrawing; when none is, a redraw pass can
    /// be skipped.
    pub fn is_invalidated(&self) -> (r: bool)
        ensures
            r == exists|i: int|
                0 <= i < self@.len() && #[trigger] self@[i].widget.properties.invalidated,
    {
        proof {
            self.lemma_view();
        }
        let mut i: usize = 0;
        while i < self.entries.len()
            invariant
                self@.len() == self.entries@.len(),
                forall|j: int| 0 <= j < self@.len() ==> #[trigger] self@[j] == self.entries@[j].node(),
                forall|j: int| 0 <= j < i ==> !(#[trigger] self@[j].widget.properties.invalidated),
            decreases self.entries.len() - i,
        {
            if self.entries[i].widget.properties.invalidated {
                assert(self@[i as int].widget.properties.invalidated);
                return true;
            }
            i = i + 1;
        }
        false
    }

    /// Plans a redraw pass: walks the tree from the root in paint order (each node
    /// before its children, children in order) and returns a step for each visible
    /// widget, telling whether its texture must be made anew at its size and whether
    /// its content must be redrawn. Afterwards every visible widget holds a texture
    /// of its size and is no longer marked; hidden widgets are left as they were,
    /// though their children are still visited.
    pub fn draw(&mut self) -> (steps: Vec<RenderStep>)
        requires
            old(self).wf(),
        ensures
            final(self).wf(),
            final(self)@ == old(self)@.map_values(|n: Node<W>| rendered(n)),
            steps@ == paint(old(self)@, 0),
    {
        let ghost nodes = self@;
        let mut steps: Vec<RenderStep> = Vec::new();
        self.draw_widget(WidgetId::root(), &mut steps);
        proof {
            assert forall|i: int| 0 <= i < nodes.len() implies #[trigger] descends(nodes, i, 0) by {
                lemma_descends_root(nodes, i);
            }
            assert(self@ =~= nodes.map_values(|n: Node<W>| rendered(n)));
            assert(steps@ =~= paint(nodes, 0));
        }
        steps
    }

    fn draw_widget(&mut self, id: WidgetId, steps: &mut Vec<RenderStep>)
        requires
            old(self).wf(),
            old(self).contains(id),
        ensures
            final(self).wf(),
            final(self)@ == rendered_below(old(self)@, id.idx()),
            final(steps)@ == old(steps)@ + paint(old(self)@, id.idx()),
        decreases u32::MAX - id.0,
    {
        let ghost nodes = self@;
        let ghost steps0 = steps@;
        let i = id.0 as usize;
        proof {
            self.lemma_view();
            assert(self@[id.idx()] == self.entries@[id.idx()].node());
        }
        let props = self.entries[i].widget.properties;
        if !props.hidden {
            let (width, height) = props.bounds;
            let new_texture = match self.entries[i].texture {
                Some((w, h)) => w != width || h != height,
                None => true,
            };
            let border = match props.border {
                Some((c, w)) => if w > 0 {
                    Some((c, w))
                } else {
                    None
                },
                None => None,
            };
            steps.push(
                RenderStep {
                    id,
                    origin: props.origin,
                    bounds: props.bounds,
                    new_texture,
                    redraw: props.invalidated,
                    border,
                },
            );
            self.entries[i].texture = Some((width, height));
            self.entries[i].widget.properties.invalidated = false;
        }
        let ghost start = self@;
        proof {
            self.lemma_view();
            assert(start =~= nodes.update(id.idx(), rendered(nodes[id.idx()])));
            assert(same_shape(nodes, start));
            lemma_same_shape(nodes, start);
            assert(steps@ =~= steps0 + if nodes[id.idx()].widget.properties.hidden {
                Seq::empty()
            } else {
                seq![step_of(nodes, id.idx())]
            });
        }
        let n = self.entries[i].children.len();
        let mut k: usize = 0;
        while k < n
            invariant
                tree_wf(nodes),
                0 <= id.idx() < nodes.len(),
                i == id.0,
                start.len() == nodes.len(),
                start[id.idx()] == rendered(nodes[id.idx()]),
                k <= n == nodes[id.idx()].children.len(),
                same_shape(nodes, self@),
                steps@ == steps0 + (if nodes[id.idx()].widget.properties.hidden {
                    Seq::empty()
                } else {
                    seq![step_of(nodes, id.idx())]
                }) + paint_children(nodes, id.idx(), k as int),
                forall|j: int|
                    0 <= j < nodes.len() ==> #[trigger] self@[j] == if j == id.idx() {
                        start[j]
                    } else if exists|m: int|
                        0 <= m < k && descends(nodes, j, #[trigger] child_of(nodes, id.idx(), m)) {
                        rendered(nodes[j])
                    } else {
                        nodes[j]
                    },
            decreases n - k,
        {
            proof {
                self.lemma_view();
                assert(self@[id.idx()] == self.entries@[id.idx()].node());
            }
            let c = self.entries[i].children[k];
            let ghost before = self@;
            let ghost steps1 = steps@;
            proof {
                lemma_same_shape(nodes, before);
                assert(child_of(nodes, id.idx(), k as int) == c.idx());
                assert forall|j: int|
                    0 <= j < nodes.len() && #[trigger] descends(nodes, j, c.idx()) implies nodes[j]
                    == before[j] by {
                    lemma_child_subtree(nodes, id.idx(), k as int, j);
                    lemma_descends_ge(nodes, j, c.idx());
                    if exists|m: int|
                        0 <= m < k && descends(nodes, j, #[trigger] child_of(nodes, id.idx(), m)) {
                        let m = choose|m: int|
                            0 <= m < k && descends(
                                nodes,
                                j,
                                #[trigger] child_of(nodes, id.idx(), m),
                            );
                        lemma_children_disjoint(nodes, id.idx(), m, k as int, j);
                    }
                }
                lemma_paint_local(nodes, before, c.idx());
            }
            assert(id.idx() < c.idx() && self@.len() == nodes.len());
            self.draw_widget(c, steps);
            proof {
                lemma_same_shape(before, self@);
                assert(steps@ =~= steps0 + (if nodes[id.idx()].widget.properties.hidden {
                    Seq::empty()
                } else {
                    seq![step_of(nodes, id.idx())]
                }) + paint_children(nodes, id.idx(), k + 1));
                assert forall|j: int| 0 <= j < nodes.len() implies #[trigger] self@[j] == if j
                    == id.idx() {
                    start[j]
                } else if exists|m: int|
                    0 <= m < k + 1 && descends(nodes, j, #[trigger] child_of(nodes, id.idx(), m)) {
                    rendered(nodes[j])
                } else {
                    nodes[j]
                } by {
                    assert(descends(before, j, c.idx()) == descends(nodes, j, c.idx()));
                    let old_j = before[j];
                    if descends(nodes, j, c.idx()) {
                        lemma_child_subtree(nodes, id.idx(), k as int, j);
                        lemma_descends_ge(nodes, j, c.idx());
                        assert(descends(nodes, j, child_of(nodes, id.idx(), k as int)));
                    } else {
                        if exists|m: int|
                            0 <= m < k + 1 && descends(
                                nodes,
                                j,
                                #[trigger] child_of(nodes, id.idx(), m),
                            ) {
                            let m = choose|m: int|
                                0 <= m < k + 1 && descends(
                                    nodes,
                                    j,
                                    #[trigger] child_of(nodes, id.idx(), m),
                                );
                            assert(m < k);
                        }
                    }
                }
            }
            k = k + 1;
        }
        proof {
            let want = rendered_below(nodes, id.idx());
            assert(descends(nodes, id.idx(), id.idx()));
            assert forall|j: int| 0 <= j < nodes.len() implies #[trigger] self@[j] == want[j] by {
                if j != id.idx() && descends(nodes, j, id.idx()) {
                    let m = lemma_descends_via_child(nodes, j, id.idx());
                }
                if exists|m: int|
                    0 <= m < n && descends(nodes, j, #[trigger] child_of(nodes, id.idx(), m)) {
                    let m = choose|m: int|
                        0 <= m < n && descends(nodes, j, #[trigger] child_of(nodes, id.idx(), m));
                    lemma_child_subtree(nodes, id.idx(), m, j);
                    lemma_descends_ge(nodes, j, child_of(nodes, id.idx(), m));
                }
            }
            assert(self@ =~= want);
            lemma_same_shape(nodes, self@);
            assert(steps@ =~= steps0 + paint(nodes, id.idx()));
        }
    }


    /// Whether every widget in the subtree of `id` can be moved by `(dx, dy)`
    /// without leaving the range of `i32`.
    pub fn fits_translation(&self, id: WidgetId, dx: i32, dy: i32) -> (r: bool)
        requires
            self.wf(),
            self.contains(id),
        ensures
            r == can_translate(self@, id.idx(), dx, dy),
        decreases u32::MAX - id.0,
    {
        let ghost nodes = self@;
        let i = id.0 as usize;
        proof {
            self.lemma_view();
            assert(self@[id.idx()] == self.entries@[id.idx()].node());
            assert(descends(nodes, id.idx(), id.idx()));
        }
        let (x, y) = self.entries[i].widget.origin();
        let nx = x as i64 + dx as i64;
        let ny = y as i64 + dy as i64;
        if nx < i32::MIN as i64 || nx > i32::MAX as i64 || ny < i32::MIN as i64 || ny
            > i32::MAX as i64 {
            return false;
        }
        let n = self.entries[i].children.len();
        let mut k: usize = 0;
        while k < n
            invariant
                tree_wf(nodes),
                nodes == self@,
                0 <= id.idx() < nodes.len(),
                i == id.0,
                k <= n == nodes[id.idx()].children.len(),
                i32::MIN <= nodes[id.idx()].widget.properties.origin.0 + dx <= i32::MAX,
                i32::MIN <= nodes[id.idx()].widget.properties.origin.1 + dy <= i32::MAX,
                forall|m: int| 0 <= m < k ==> can_translate(nodes, #[trigger] child_of(nodes, id.idx(), m), dx, dy),
            decreases n - k,
        {
            proof {
                self.lemma_view();
                assert(self@[id.idx()] == self.entries@[id.idx()].node());
            }
            let c = self.entries[i].children[k];
            assert(child_of(nodes, id.idx(), k as int) == c.idx());
            if !self.fits_translation(c, dx, dy) {
                proof {
                    assert(!can_translate(nodes, c.idx(), dx, dy));
                    let j = choose|j: int|
                        0 <= j < nodes.len() && #[trigger] descends(nodes, j, c.idx()) && !({
                            &&& i32::MIN <= nodes[j].widget.properties.origin.0 + dx <= i32::MAX
                            &&& i32::MIN <= nodes[j].widget.properties.origin.1 + dy <= i32::MAX
                        });
                    lemma_child_subtree(nodes, id.idx(), k as int, j);
                }
                return false;
            }
            k = k + 1;
        }
        proof {
            assert forall|j: int|
                0 <= j < nodes.len() && #[trigger] descends(nodes, j, id.idx()) implies {
                &&& i32::MIN <= nodes[j].widget.properties.origin.0 + dx <= i32::MAX
                &&& i32::MIN <= nodes[j].widget.properties.origin.1 + dy <= i32::MAX
            } by {
                if j != id.idx() {
                    let m = lemma_descends_via_child(nodes, j, id.idx());
                    assert(can_translate(nodes, child_of(nodes, id.idx(), m), dx, dy));
                }
            }
        }
        true
    }

    /// The children of the widget named `id`, in the order they were inserted.
    pub fn get_children_of(&self, id: WidgetId) -> (r: &[WidgetId])
        requires
            self.contains(id),
        ensures
            r@ == self@[id.idx()].children,
    {
        self.entries[id.0 as usize].children.as_slice()
    }
}

} // verus!
