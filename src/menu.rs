//! The home menu: rows of tiles under a shared vertical anchor, one highlighted
//! tile, and the elastic two-axis scrolling that keeps rows in step.

use vstd::prelude::*;

use crate::app::Action;
use crate::fetcher::FetchStatus;
use crate::schema::{lookup, title_lookup, Collection, CollectionInner, Container, ContentSet, Home, TitleKind};
use crate::widget::{
    can_translate, child_of, descends, lemma_descends_ge, lemma_descends_via_child,
    lemma_same_shape, same_shape, translated, tree_wf, Color, Node,
    Properties, Widget, WidgetId,
    Widgets,
};

verus! {

pub const RIGHT_MARGIN: i32 = 52;
pub const TOP_MARGIN: i32 = 68;
pub const LABEL_POINT_SIZE: u16 = 42;
pub const LABEL_PADDING: u32 = 18;
pub const TILE_WIDTH: u32 = 500;
pub const TILE_HEIGHT: u32 = 281;
pub const TILE_MARGIN: u32 = 28;
pub const ROW_HEIGHT: u32 = TILE_HEIGHT + 156;
pub const CURSOR_BORDER_WIDTH: u8 = 10;
/// The highlighted tile is scaled by `CURSOR_SCALE_NUM / CURSOR_SCALE_DEN`.
pub const CURSOR_SCALE_NUM: u32 = 11;
pub const CURSOR_SCALE_DEN: u32 = 10;
pub const ENLARGED_WIDTH: u32 = TILE_WIDTH * CURSOR_SCALE_NUM / CURSOR_SCALE_DEN;
pub const ENLARGED_HEIGHT: u32 = TILE_HEIGHT * CURSOR_SCALE_NUM / CURSOR_SCALE_DEN;
/// How far the highlighted tile's origin moves up and left so that it grows
/// around its center.
pub const GROW_DX: i32 = ((ENLARGED_WIDTH - TILE_WIDTH) / 2) as i32;
pub const GROW_DY: i32 = ((ENLARGED_HEIGHT - TILE_HEIGHT) / 2) as i32;
/// How far a row moves when it scrolls by one tile.
pub const COLUMN_STEP: i32 = (TILE_WIDTH + TILE_MARGIN) as i32;
/// The key of the home document under which the rows stand.
pub const ROWS_KEY: &'static str = "StandardCollection";
pub const TILE_IMAGE_NAME: &'static str = "tile";
pub const TILE_ASPECT_RATIO: &'static str = "1.78";

pub open spec fn background_color() -> Color {
    Color { r: 7, g: 27, b: 15, a: 255 }
}

pub open spec fn tile_color() -> Color {
    Color { r: 23, g: 126, b: 127, a: 255 }
}

pub open spec fn cursor_border() -> (Color, u8) {
    (Color { r: 255, g: 255, b: 255, a: 255 }, CURSOR_BORDER_WIDTH)
}

/// Properties at `(x, y)` of the given size and color, visible and marked for drawing.
pub open spec fn props(x: i32, y: i32, w: u32, h: u32, color: Color, hidden: bool) -> Properties {
    Properties {
        origin: (x, y),
        bounds: (w, h),
        color,
        border: None,
        hidden,
        invalidated: true,
    }
}

/// The thumbnail of a tile: the local path of a downloaded image, or the locator
/// of one still being fetched.
#[derive(Debug)]
pub enum Thumbnail {
    Ready(String),
    Pending(String),
}

impl Thumbnail {
    /// Whether the image is on disk, ready to display.
    pub fn is_ready(&self) -> (r: bool)
        ensures
            r == self is Ready,
    {
        match self {
            Thumbnail::Ready(_) => true,
            Thumbnail::Pending(_) => false,
        }
    }
}

/// The kinds of widget of the menu.
#[derive(Debug)]
pub enum WidgetKind {
    /// The window-sized background.
    Root,
    /// An invisible point that a subtree is moved by.
    Anchor,
    /// A line of text.
    Label { text: String, point_size: u16 },
    /// A tile showing a thumbnail.
    Tile { image: Thumbnail },
}

impl WidgetKind {
    /// The background widget of the given size.
    pub fn new_root(width: u32, height: u32) -> (w: Widget<WidgetKind>)
        ensures
            w == (Widget {
                properties: props(0, 0, width, height, background_color(), false),
                content: WidgetKind::Root,
            }),
    {
        let mut properties = Properties::default();
        properties.bounds = (width, height);
        properties.color = Color::rgb(7, 27, 15);
        Widget::new(properties, WidgetKind::Root)
    }

    /// An invisible anchor point at `(x, y)` for other widgets to hang from.
    pub fn new_anchor(x: i32, y: i32) -> (w: Widget<WidgetKind>)
        ensures
            w == (Widget {
                properties: props(x, y, 1, 1, Color { r: 255, g: 255, b: 255, a: 255 }, true),
                content: WidgetKind::Anchor,
            }),
    {
        let mut properties = Properties::default();
        properties.origin = (x, y);
        properties.bounds = (1, 1);
        properties.hidden = true;
        Widget::new(properties, WidgetKind::Anchor)
    }

    /// A label at `(x, y)` as wide as `max_width`, tall enough for text of the
    /// given point size (4/3 of it, less a little).
    pub fn new_label(text: String, point_size: u16, x: i32, y: i32, max_width: u32) -> (w: Widget<
        WidgetKind,
    >)
        ensures
            w == (Widget {
                properties: props(
                    x,
                    y,
                    max_width,
                    (point_size * 1333 / 1000) as u32,
                    Color { r: 255, g: 255, b: 255, a: 255 },
                    false,
                ),
                content: WidgetKind::Label { text, point_size },
            }),
    {
        let approx_height = (point_size as u32) * 1333 / 1000;
        let mut properties = Properties::default();
        properties.origin = (x, y);
        properties.bounds = (max_width, approx_height);
        Widget::new(properties, WidgetKind::Label { text, point_size })
    }

    /// A tile of the resting size at `(x, y)` whose thumbnail is still to be
    /// fetched from `image_url`.
    pub fn new_tile(x: i32, y: i32, image_url: String) -> (w: Widget<WidgetKind>)
        ensures
            w == (Widget {
                properties: props(x, y, TILE_WIDTH, TILE_HEIGHT, tile_color(), false),
                content: WidgetKind::Tile { image: Thumbnail::Pending(image_url) },
            }),
    {
        let mut properties = Properties::default();
        properties.origin = (x, y);
        properties.bounds = (TILE_WIDTH, TILE_HEIGHT);
        properties.color = Color::rgb(23, 126, 127);
        Widget::new(properties, WidgetKind::Tile { image: Thumbnail::Pending(image_url) })
    }
}

/// The child index to select in a destination row: the requested column moved by
/// the difference between the current row's and the destination row's scroll
/// offsets.
pub fn find_tile_index(column: usize, scroll_offset: isize, adj_scroll_offset: isize) -> (r: usize)
    requires
        0 <= column + scroll_offset - adj_scroll_offset <= usize::MAX,
    ensures
        r == column + scroll_offset - adj_scroll_offset,
{
    (column as i128 + scroll_offset as i128 - adj_scroll_offset as i128) as usize
}

/// `v`, or the nearest end of the range of `i32`.
pub open spec fn clamp_i32(v: int) -> i32 {
    if v < i32::MIN {
        i32::MIN
    } else if v > i32::MAX {
        i32::MAX
    } else {
        v as i32
    }
}

fn clamp(v: i64) -> (r: i32)
    ensures
        r == clamp_i32(v as int),
{
    if v < i32::MIN as i64 {
        i32::MIN
    } else if v > i32::MAX as i64 {
        i32::MAX
    } else {
        v as i32
    }
}

/// A tile losing the highlight: an enlarged tile shrinks back to the resting size
/// around its center; the border goes.
pub open spec fn shrunk(w: Widget<WidgetKind>) -> Widget<WidgetKind> {
    let p = w.properties;
    let resized = if p.bounds == (ENLARGED_WIDTH, ENLARGED_HEIGHT) {
        Properties {
            bounds: (TILE_WIDTH, TILE_HEIGHT),
            origin: (clamp_i32(p.origin.0 + GROW_DX), clamp_i32(p.origin.1 + GROW_DY)),
            ..p
        }
    } else {
        p
    };
    Widget { properties: Properties { border: None, invalidated: true, ..resized }, ..w }
}

/// The properties of a tile gaining the highlight: a tile of the resting size
/// grows by the cursor's scale around its center; it gets the cursor's border.
pub open spec fn enlarged_props(p: Properties) -> Properties {
    let resized = if p.bounds == (TILE_WIDTH, TILE_HEIGHT) {
        Properties {
            bounds: (ENLARGED_WIDTH, ENLARGED_HEIGHT),
            origin: (clamp_i32(p.origin.0 - GROW_DX), clamp_i32(p.origin.1 - GROW_DY)),
            ..p
        }
    } else {
        p
    };
    Properties { border: Some(cursor_border()), invalidated: true, ..resized }
}

/// A tile gaining the highlight.
pub open spec fn enlarged(w: Widget<WidgetKind>) -> Widget<WidgetKind> {
    Widget { properties: enlarged_props(w.properties), ..w }
}

/// The state of the menu: each row's anchor and scroll offset (how many tiles it
/// has been scrolled to the left, negated), the selected (row, child index), and
/// the anchor of the whole grid.
pub struct MenuView {
    pub rows: Seq<(WidgetId, isize)>,
    pub selected: (usize, usize),
    pub grid_root: WidgetId,
}

/// The menu's identifiers name widgets of the tree, and the selected row exists
/// whenever there are rows.
pub open spec fn menu_wf(m: MenuView, nodes: Seq<Node<WidgetKind>>) -> bool {
    &&& tree_wf(nodes)
    &&& 0 <= m.grid_root.idx() < nodes.len()
    &&& forall|r: int| 0 <= r < m.rows.len() ==> 0 <= (#[trigger] m.rows[r]).0.idx() < nodes.len()
    &&& m.rows.len() > 0 ==> m.selected.0 < m.rows.len()
}

/// The selected tile exists.
pub open spec fn selection_valid(m: MenuView, nodes: Seq<Node<WidgetKind>>) -> bool {
    &&& m.selected.0 < m.rows.len()
    &&& m.selected.1 < nodes[m.rows[m.selected.0 as int].0.idx()].children.len()
}

/// The child index in `row` that a request for `column` resolves to.
pub open spec fn target_column(m: MenuView, row: int, column: int) -> int {
    column + m.rows[m.selected.0 as int].1 - m.rows[row].1
}

/// The request names an existing row and resolves to an existing tile of it.
pub open spec fn can_select(m: MenuView, nodes: Seq<Node<WidgetKind>>, row: int, column: int) -> bool {
    &&& 0 <= row < m.rows.len()
    &&& 0 <= target_column(m, row, column) < nodes[m.rows[row].0.idx()].children.len()
}

/// The tile at child index `col` of `row`.
pub open spec fn tile_of(m: MenuView, nodes: Seq<Node<WidgetKind>>, row: int, col: int) -> int {
    child_of(nodes, m.rows[row].0.idx(), col)
}

/// The tree with the highlight moved to tile `t`: the current tile (if any) shrunk,
/// then `t` enlarged.
pub open spec fn highlighted(m: MenuView, nodes: Seq<Node<WidgetKind>>, t: int) -> Seq<Node<WidgetKind>> {
    let n1 = if selection_valid(m, nodes) {
        let c = tile_of(m, nodes, m.selected.0 as int, m.selected.1 as int);
        nodes.update(c, Node { widget: shrunk(nodes[c].widget), ..nodes[c] })
    } else {
        nodes
    };
    n1.update(t, Node { widget: enlarged(n1[t].widget), ..n1[t] })
}

/// How far the grid scrolls vertically when the highlight moves from the current
/// row to `row` and the new tile's top edge is at `y`: up one row when moving up
/// past the upper half of the root while the grid is above the root's top; down
/// one row when moving down past its lower half; else not at all.
pub open spec fn vertical_scroll(m: MenuView, nodes: Seq<Node<WidgetKind>>, row: int, y: int) -> int {
    let root = nodes[0].widget.properties;
    let grid = nodes[m.grid_root.idx()].widget.properties;
    if m.selected.0 > row {
        if y + TILE_HEIGHT < root.bounds.1 / 2 && grid.origin.1 < root.origin.1 {
            ROW_HEIGHT as int
        } else {
            0
        }
    } else if m.selected.0 < row {
        if y - TILE_HEIGHT > root.bounds.1 / 2 {
            -(ROW_HEIGHT as int)
        } else {
            0
        }
    } else {
        0
    }
}

/// How far the current row scrolls when the highlight moves within it to child
/// `col` and the new tile's left edge is at `x`: right one tile when moving left
/// past the root's left edge while the row's anchor is left of it; left one tile
/// when moving right past the root's right edge; else not at all.
pub open spec fn horizontal_scroll(m: MenuView, nodes: Seq<Node<WidgetKind>>, row: int, col: int, x: int) -> int {
    let root = nodes[0].widget.properties;
    let anchor = nodes[m.rows[row].0.idx()].widget.properties;
    if row != m.selected.0 {
        0
    } else if m.selected.1 > col {
        if x < root.origin.0 && anchor.origin.0 < root.origin.0 && m.rows[row].1 < isize::MAX {
            COLUMN_STEP as int
        } else {
            0
        }
    } else if m.selected.1 < col {
        if x + TILE_WIDTH > root.bounds.0 && m.rows[row].1 > isize::MIN {
            -(COLUMN_STEP as int)
        } else {
            0
        }
    } else {
        0
    }
}

/// The menu and the tree after a request to select `column` of `row`. A request
/// that names no existing tile changes nothing. Otherwise the highlight moves to
/// the resolved tile, the grid and the row scroll as `vertical_scroll` and
/// `horizontal_scroll` say (a scroll that would push a widget out of the range of
/// `i32` is not made), the row's offset follows its horizontal scroll, and the
/// resolved tile becomes the selection.
pub open spec fn selected_state(m: MenuView, nodes: Seq<Node<WidgetKind>>, row: int, column: int) -> (
    MenuView,
    Seq<Node<WidgetKind>>,
) {
    if !can_select(m, nodes, row, column) {
        (m, nodes)
    } else {
        let col = target_column(m, row, column);
        let t = tile_of(m, nodes, row, col);
        let n2 = highlighted(m, nodes, t);
        let (x, y) = n2[t].widget.properties.origin;
        let dy = vertical_scroll(m, n2, row, y as int);
        let n3 = if dy != 0 && can_translate(n2, m.grid_root.idx(), 0, dy as i32) {
            translated(n2, m.grid_root.idx(), 0, dy as i32)
        } else {
            n2
        };
        let dx = horizontal_scroll(m, n2, row, col, x as int);
        let anchor = m.rows[row].0.idx();
        let moved = dx != 0 && can_translate(n3, anchor, dx as i32, 0);
        let n4 = if moved {
            translated(n3, anchor, dx as i32, 0)
        } else {
            n3
        };
        let off = m.rows[row].1;
        let rows = if moved {
            m.rows.update(row, (m.rows[row].0, (if dx > 0 { off + 1 } else { off - 1 }) as isize))
        } else {
            m.rows
        };
        (MenuView { rows, selected: (row as usize, col as usize), ..m }, n4)
    }
}


/// Why a menu could not be built from a document.
#[derive(Debug, PartialEq, Eq)]
pub enum MenuError {
    /// The document has no entry under the rows key.
    MissingRows,
    /// The entry under the rows key is not a standard collection.
    NotStandardCollection,
    /// The row at this index has no full title.
    MissingRowTitle(usize),
    /// The named tile has no image of the tile name.
    MissingTileImage(String),
    /// The named tile's image has no version of the tile aspect ratio.
    MissingAspectRatio(String),
    /// A tile's image address is not an absolute URL.
    InvalidImageUrl(String),
    /// The menu does not fit the ranges of identifiers and coordinates.
    TooLarge,
}

/// The canonical serialization of the absolute URL that the text denotes, or
/// `None` where it denotes none.
pub uninterp spec fn url_serialization(s: Seq<char>) -> Option<Seq<char>>;

/// Relies on `url::Url::parse`, whose result depends on the text alone, and on
/// `From<Url> for String`, which hands back the URL's serialization.
#[verifier::external_body]
fn canonical_url(s: &str) -> (r: Option<String>)
    ensures
        match r {
            Some(t) => url_serialization(s@) == Some(t@),
            None => url_serialization(s@) is None,
        },
{
    url::Url::parse(s).ok().map(String::from)
}

/// The rows of the home document: the containers of the standard collection
/// under the rows key.
pub fn get_menu_rows(menu: &Home) -> (r: Result<&[Container], MenuError>)
    ensures
        match lookup(menu.data@, ROWS_KEY@) {
            None => r == Err::<&[Container], MenuError>(MenuError::MissingRows),
            Some(c) => match c.inner {
                CollectionInner::StandardCollection { containers, .. } => r is Ok && r->Ok_0@
                    == containers@,
                _ => r == Err::<&[Container], MenuError>(MenuError::NotStandardCollection),
            },
        },
{
    match crate::schema::find(&menu.data, ROWS_KEY) {
        None => Err(MenuError::MissingRows),
        Some(collection) => match collection.containers() {
            Some(rows) => Ok(rows),
            None => Err(MenuError::NotStandardCollection),
        },
    }
}

/// The text of a set, whichever its kind.
pub open spec fn set_text(s: ContentSet) -> crate::schema::Text {
    match s {
        ContentSet::CuratedSet { text, .. } => text,
        ContentSet::SetRef { text, .. } => text,
    }
}

/// The full title of a row, if it has one.
pub open spec fn row_title(row: Container) -> Option<Seq<char>> {
    match title_lookup(set_text(row.set).title.0@, TitleKind::Full) {
        Some(e) => Some(e.content().content@),
        None => None,
    }
}

/// The full title of the row at index `row_idx`.
pub fn get_row_title(row: &Container, row_idx: usize) -> (r: Result<&str, MenuError>)
    ensures
        match row_title(*row) {
            Some(t) => r is Ok && r->Ok_0@ == t,
            None => r == Err::<&str, MenuError>(MenuError::MissingRowTitle(row_idx)),
        },
{
    match row.set.text().title.get(TitleKind::Full) {
        Some(text) => Ok(text.content.as_str()),
        None => Err(MenuError::MissingRowTitle(row_idx)),
    }
}

/// The name a tile goes by in errors: its full title, or `"unknown"`.
pub open spec fn tile_name(tile: Collection) -> Seq<char> {
    match title_lookup(tile.text.title.0@, TitleKind::Full) {
        Some(e) => e.content().content@,
        None => "unknown"@,
    }
}

/// The address of a tile's thumbnail as the document gives it: the tile-name
/// image in the tile aspect ratio.
pub open spec fn tile_image(tile: Collection) -> Option<Seq<char>> {
    match lookup(tile.image@, TILE_IMAGE_NAME@) {
        Some(images) => match lookup(images.0@, TILE_ASPECT_RATIO@) {
            Some(k) => Some(k.content().url@),
            None => None,
        },
        None => None,
    }
}

/// The canonical locator of a tile's thumbnail.
pub fn get_tile_image_url(tile: &Collection) -> (r: Result<String, MenuError>)
    ensures
        match lookup(tile.image@, TILE_IMAGE_NAME@) {
            None => match r {
                Err(MenuError::MissingTileImage(n)) => n@ == tile_name(*tile),
                _ => false,
            },
            Some(images) => match lookup(images.0@, TILE_ASPECT_RATIO@) {
                None => match r {
                    Err(MenuError::MissingAspectRatio(n)) => n@ == tile_name(*tile),
                    _ => false,
                },
                Some(k) => match url_serialization(k.content().url@) {
                    Some(u) => r is Ok && r->Ok_0@ == u,
                    None => match r {
                        Err(MenuError::InvalidImageUrl(a)) => a@ == k.content().url@,
                        _ => false,
                    },
                },
            },
        },
{
    let name = match tile.text().title.get(TitleKind::Full) {
        Some(text) => text.content.clone(),
        None => "unknown".to_owned(),
    };
    match crate::schema::find(tile.images(), TILE_IMAGE_NAME) {
        None => Err(MenuError::MissingTileImage(name)),
        Some(images) => match images.get(TILE_ASPECT_RATIO) {
            None => Err(MenuError::MissingAspectRatio(name)),
            Some(image) => match canonical_url(image.url.as_str()) {
                Some(u) => Ok(u),
                None => Err(MenuError::InvalidImageUrl(image.url.clone())),
            },
        },
    }
}


/// The item lists of the curated rows among `cs`, in order; rows of other kinds
/// get no tiles.
pub open spec fn curated_items(cs: Seq<Container>) -> Seq<Seq<Collection>>
    decreases cs.len(),
{
    if cs.len() == 0 {
        Seq::empty()
    } else {
        let rest = curated_items(cs.drop_last());
        match cs.last().set {
            ContentSet::CuratedSet { items, .. } => rest.push(items@),
            _ => rest,
        }
    }
}


/// The locator a tile's thumbnail is waiting for, if the widget is such a tile.
pub fn pending_locator(w: &Widget<WidgetKind>) -> (r: Option<&String>)
    ensures
        match w.content {
            WidgetKind::Tile { image: Thumbnail::Pending(l) } => r == Some(&l),
            _ => r is None,
        },
{
    match &w.content {
        WidgetKind::Tile { image: Thumbnail::Pending(l) } => Some(l),
        _ => None,
    }
}

/// A widget after the fetch engine answered for its thumbnail: a waiting tile
/// takes a ready image and is redrawn; it is also redrawn, as a blank tile, when
/// the download failed, and keeps waiting so that it asks again.
pub open spec fn thumbnail_updated(w: Widget<WidgetKind>, status: FetchStatus) -> Widget<WidgetKind> {
    match w.content {
        WidgetKind::Tile { image: Thumbnail::Pending(_) } => match status {
            FetchStatus::Ready(p) => Widget {
                properties: Properties { invalidated: true, ..w.properties },
                content: WidgetKind::Tile { image: Thumbnail::Ready(p) },
            },
            FetchStatus::Failed(_) => w.invalidated(),
            FetchStatus::Pending => w,
        },
        _ => w,
    }
}

/// Applies the fetch engine's answer for a tile's thumbnail.
pub fn update_thumbnail(w: &mut Widget<WidgetKind>, status: FetchStatus)
    ensures
        *final(w) == thumbnail_updated(*old(w), status),
{
    let waiting = match &w.content {
        WidgetKind::Tile { image: Thumbnail::Pending(_) } => true,
        _ => false,
    };
    if waiting {
        match status {
            FetchStatus::Ready(p) => {
                w.content = WidgetKind::Tile { image: Thumbnail::Ready(p) };
                w.invalidate();
            },
            FetchStatus::Failed(_) => w.invalidate(),
            FetchStatus::Pending => {},
        }
    }
}

/// The inputs the menu reacts to.
#[derive(Clone, Copy, Debug, PartialEq, Eq, Structural)]
pub enum Input {
    /// The window was closed.
    Quit,
    Up,
    Down,
    Left,
    Right,
    Escape,
    /// The fullscreen key.
    F11,
    /// Anything else.
    Other,
}

/// The action an input asks for.
pub open spec fn action_of(input: Input) -> Action {
    match input {
        Input::Quit | Input::Escape => Action::Quit,
        Input::F11 => Action::Fullscreen(crate::app::Fullscreen::Toggle),
        _ => Action::Continue,
    }
}

/// The rows of the home document, if it has a standard collection under the rows key.
pub open spec fn document_rows(home: Home) -> Option<Seq<Container>> {
    match lookup(home.data@, ROWS_KEY@) {
        Some(c) => match c.inner {
            CollectionInner::StandardCollection { containers, .. } => Some(containers@),
            _ => None,
        },
        None => None,
    }
}


/// Moving the highlight one tile right within its row changes no other row's
/// offset, and lowers that row's offset by exactly one when the new tile would
/// pass the root's right edge (and the row can be moved), else leaves it.
pub proof fn lemma_offset_counts_overflows(m: MenuView, nodes: Seq<Node<WidgetKind>>)
    requires
        menu_wf(m, nodes),
        selection_valid(m, nodes),
        m.selected.1 < usize::MAX,
    ensures
        ({
            let r = m.selected.0 as int;
            let column = m.selected.1 + 1;
            let (m2, n2) = selected_state(m, nodes, r, column);
            let t = tile_of(m, nodes, r, column);
            let grown = highlighted(m, nodes, t);
            let overflow = can_select(m, nodes, r, column)
                && grown[t].widget.properties.origin.0 + TILE_WIDTH > grown[0].widget.properties.bounds.0
                && m.rows[r].1 > isize::MIN
                && can_translate(grown, m.rows[r].0.idx(), (-COLUMN_STEP) as i32, 0);
            &&& m2.rows.len() == m.rows.len()
            &&& forall|k: int| 0 <= k < m.rows.len() && k != r ==> m2.rows[k] == m.rows[k]
            &&& m2.rows[r].0 == m.rows[r].0
            &&& m2.rows[r].1 == if overflow { m.rows[r].1 - 1 } else { m.rows[r].1 as int }
        }),
{
}


/// The menu and tree after moving the highlight one tile right.
#[verifier::opaque]
pub open spec fn moved_right(m: MenuView, nodes: Seq<Node<WidgetKind>>) -> (MenuView, Seq<Node<WidgetKind>>) {
    selected_state(m, nodes, m.selected.0 as int, m.selected.1 + 1)
}

/// The menu and tree after moving the highlight one tile left.
#[verifier::opaque]
pub open spec fn moved_left(m: MenuView, nodes: Seq<Node<WidgetKind>>) -> (MenuView, Seq<Node<WidgetKind>>) {
    selected_state(
        m,
        nodes,
        m.selected.0 as int,
        if m.selected.1 > 0 { m.selected.1 - 1 } else { 0 },
    )
}

/// The selected row is laid out as the menu builds it: the root's left edge at
/// `x = 0`; the row's anchor at `x = a`; tile `j` (a childless node) at
/// `a + j * COLUMN_STEP` in the resting size, except the selected tile, which is
/// enlarged around its center; coordinates far from the ends of `i32`.
#[verifier::opaque]
pub open spec fn row_laid_out(m: MenuView, nodes: Seq<Node<WidgetKind>>, a: int) -> bool {
    let r = m.selected.0 as int;
    let anchor = m.rows[r].0.idx();
    let kids = nodes[anchor].children;
    &&& menu_wf(m, nodes)
    &&& selection_valid(m, nodes)
    &&& 0 < anchor
    &&& nodes[0].widget.properties.origin.0 == 0
    &&& nodes[anchor].widget.properties.origin.0 == a
    &&& -0x1000_0000 <= a <= 0x1000_0000
    &&& kids.len() <= 0x10_0000
    &&& -0x1000_0000 < m.rows[r].1 < 0x1000_0000
    &&& forall|j: int|
        0 <= j < kids.len() ==> {
            let n = #[trigger] nodes[kids[j].idx()];
            &&& n.children.len() == 0
            &&& if j == m.selected.1 {
                &&& n.widget.properties.bounds == (ENLARGED_WIDTH, ENLARGED_HEIGHT)
                &&& n.widget.properties.origin.0 == a + j * COLUMN_STEP - GROW_DX
            } else {
                &&& n.widget.properties.bounds == (TILE_WIDTH, TILE_HEIGHT)
                &&& n.widget.properties.origin.0 == a + j * COLUMN_STEP
            }
        }
}

/// Below a row anchor whose tiles have no children lie only the anchor and its tiles.
proof fn lemma_row_subtree(nodes: Seq<Node<WidgetKind>>, anchor: int, j: int)
    requires
        tree_wf(nodes),
        0 <= anchor < nodes.len(),
        forall|k: int|
            0 <= k < nodes[anchor].children.len() ==> (#[trigger] nodes[nodes[anchor].children[k].idx()]).children.len() == 0,
        descends(nodes, j, anchor),
        j != anchor,
    ensures
        exists|k: int| 0 <= k < nodes[anchor].children.len() && nodes[anchor].children[k].idx() == j,
{
    let k = lemma_descends_via_child(nodes, j, anchor);
    let c = child_of(nodes, anchor, k);
    assert(nodes[nodes[anchor].children[k].idx()].children.len() == 0);
    if j != c {
        let k2 = lemma_descends_via_child(nodes, j, c);
    }
}

/// One move within a laid-out row, right (`right`) or left: the highlight moves
/// to the neighbouring tile, and the row scrolls by one tile exactly when
/// `scrolls` says, the offset following it.
proof fn lemma_row_step(m: MenuView, nodes: Seq<Node<WidgetKind>>, a: int, right: bool) -> (scrolls: bool)
    requires
        row_laid_out(m, nodes, a),
        -0x0800_0000 <= a <= 0x0800_0000,
        -0x0800_0000 < m.rows[m.selected.0 as int].1 < 0x0800_0000,
        right ==> m.selected.1 + 1 < nodes[m.rows[m.selected.0 as int].0.idx()].children.len(),
        !right ==> m.selected.1 >= 1,
    ensures
        ({
            let (m2, n2) = if right { moved_right(m, nodes) } else { moved_left(m, nodes) };
            let r = m.selected.0 as int;
            let c = m.selected.1 as int;
            let d = if right { -COLUMN_STEP } else { COLUMN_STEP as int };
            &&& scrolls == if right {
                a + (c + 1) * COLUMN_STEP - GROW_DX + TILE_WIDTH > nodes[0].widget.properties.bounds.0
            } else {
                a + (c - 1) * COLUMN_STEP - GROW_DX < 0 && a < 0
            }
            &&& m2.selected == (r as usize, (if right { c + 1 } else { c - 1 }) as usize)
            &&& m2.grid_root == m.grid_root
            &&& m2.rows.len() == m.rows.len()
            &&& forall|k: int| 0 <= k < m.rows.len() && k != r ==> m2.rows[k] == m.rows[k]
            &&& m2.rows[r].0 == m.rows[r].0
            &&& m2.rows[r].1 == m.rows[r].1 + if scrolls { if right { -1int } else { 1int } } else { 0int }
            &&& n2[0].widget.properties.bounds == nodes[0].widget.properties.bounds
            &&& n2[m.rows[r].0.idx()].children == nodes[m.rows[r].0.idx()].children
            &&& n2[m.rows[r].0.idx()].widget.properties.origin.0 == if scrolls { a + d } else { a }
            &&& row_laid_out(m2, n2, if scrolls { a + d } else { a })
        }),
{
    reveal(moved_right);
    reveal(moved_left);
    reveal(row_laid_out);
    let r = m.selected.0 as int;
    let c = m.selected.1 as int;
    let anchor = m.rows[r].0.idx();
    let kids = nodes[anchor].children;
    let c2 = if right { c + 1 } else { c - 1 };
    let column = if right { m.selected.1 + 1 } else { m.selected.1 - 1 };
    assert(target_column(m, r, column) == c2);
    assert(can_select(m, nodes, r, column));
    let cur = child_of(nodes, anchor, c);
    let t = child_of(nodes, anchor, c2);
    assert(tile_of(m, nodes, r, c2) == t);
    assert(cur != t) by {
        if c < c2 {
            assert(child_of(nodes, anchor, c) < child_of(nodes, anchor, c2));
        } else {
            assert(child_of(nodes, anchor, c2) < child_of(nodes, anchor, c));
        }
    }
    assert(anchor < cur < nodes.len() && anchor < t < nodes.len());
    assert(nodes[kids[c].idx()] == nodes[cur]);
    assert(nodes[kids[c2].idx()] == nodes[t]);
    let n2 = highlighted(m, nodes, t);
    assert(same_shape(nodes, n2));
    lemma_same_shape(nodes, n2);
    assert(n2[0] == nodes[0]);
    assert(n2[anchor] == nodes[anchor]);
    let x = n2[t].widget.properties.origin.0;
    assert(x == a + c2 * COLUMN_STEP - GROW_DX);
    let y = n2[t].widget.properties.origin.1;
    assert(vertical_scroll(m, n2, r, y as int) == 0);
    let dx = horizontal_scroll(m, n2, r, c2, x as int);
    let scrolls = if right {
        a + (c + 1) * COLUMN_STEP - GROW_DX + TILE_WIDTH > nodes[0].widget.properties.bounds.0
    } else {
        a + (c - 1) * COLUMN_STEP - GROW_DX < 0 && a < 0
    };
    assert(dx != 0 <==> scrolls);
    assert forall|j: int| 0 <= j < kids.len() implies (#[trigger] n2[n2[anchor].children[j].idx()]).children.len() == 0 by {
        assert(child_of(nodes, anchor, j) == kids[j].idx());
        assert(nodes[kids[j].idx()].children.len() == 0);
    }
    let a2 = if scrolls { a + (if right { -COLUMN_STEP } else { COLUMN_STEP as int }) } else { a };
    let o = m.rows[r].1;
    let rows2 = if dx != 0 && can_translate(n2, anchor, dx as i32, 0) {
        m.rows.update(r, (m.rows[r].0, (if dx > 0 { o + 1 } else { o - 1 }) as isize))
    } else {
        m.rows
    };
    let m2 = MenuView { rows: rows2, selected: (r as usize, c2 as usize), ..m };
    if dx != 0 {
        assert(can_translate(n2, anchor, dx as i32, 0)) by {
            assert forall|j: int| 0 <= j < n2.len() && #[trigger] descends(n2, j, anchor) implies {
                &&& i32::MIN <= n2[j].widget.properties.origin.0 + dx as i32 <= i32::MAX
                &&& i32::MIN <= n2[j].widget.properties.origin.1 + 0i32 <= i32::MAX
            } by {
                if j != anchor {
                    lemma_row_subtree(n2, anchor, j);
                    let k = choose|k: int| 0 <= k < kids.len() && kids[k].idx() == j;
                    assert(child_of(nodes, anchor, k) == kids[k].idx());
                    assert(nodes[kids[k].idx()] == nodes[j]);
                }
            }
        }
        let n4 = translated(n2, anchor, dx as i32, 0);
        assert(selected_state(m, nodes, r, column as int) == (m2, n4));
        assert(same_shape(n2, n4));
        lemma_same_shape(n2, n4);
        assert(!descends(n2, 0, anchor)) by {
            if descends(n2, 0, anchor) {
                lemma_descends_ge(n2, 0, anchor);
            }
        }
        assert(descends(n2, anchor, anchor));
        assert forall|j: int| 0 <= j < kids.len() implies {
            let n = #[trigger] n4[kids[j].idx()];
            &&& n.children.len() == 0
            &&& if j == c2 {
                &&& n.widget.properties.bounds == (ENLARGED_WIDTH, ENLARGED_HEIGHT)
                &&& n.widget.properties.origin.0 == a2 + j * COLUMN_STEP - GROW_DX
            } else {
                &&& n.widget.properties.bounds == (TILE_WIDTH, TILE_HEIGHT)
                &&& n.widget.properties.origin.0 == a2 + j * COLUMN_STEP
            }
        } by {
            let kj = kids[j].idx();
            assert(child_of(nodes, anchor, j) == kj);
            assert(nodes[anchor].children[j].idx() == kj);
            assert(descends(n2, kj, anchor)) by {
                assert(kid_in_subtree(n2, anchor, j));
            }
            if kj != cur && kj != t {
                assert(n2[kj] == nodes[kj]);
            }
            if j == c {
                assert(kj == cur);
            }
            if j == c2 {
                assert(kj == t);
            }
        }
        assert forall|k: int| 0 <= k < m2.rows.len() implies 0 <= (#[trigger] m2.rows[k]).0.idx() < n4.len() by {
            assert(m2.rows[k].0 == m.rows[k].0);
        }
        assert(row_laid_out(m2, n4, a2));
    } else {
        assert(selected_state(m, nodes, r, column as int) == (m2, n2));
        assert forall|j: int| 0 <= j < kids.len() implies {
            let n = #[trigger] n2[kids[j].idx()];
            &&& n.children.len() == 0
            &&& if j == c2 {
                &&& n.widget.properties.bounds == (ENLARGED_WIDTH, ENLARGED_HEIGHT)
                &&& n.widget.properties.origin.0 == a2 + j * COLUMN_STEP - GROW_DX
            } else {
                &&& n.widget.properties.bounds == (TILE_WIDTH, TILE_HEIGHT)
                &&& n.widget.properties.origin.0 == a2 + j * COLUMN_STEP
            }
        } by {
            let kj = kids[j].idx();
            assert(child_of(nodes, anchor, j) == kj);
            if kj != cur && kj != t {
                assert(n2[kj] == nodes[kj]);
            }
            if j == c {
                assert(kj == cur);
            }
            if j == c2 {
                assert(kj == t);
            }
        }
        assert forall|k: int| 0 <= k < m2.rows.len() implies 0 <= (#[trigger] m2.rows[k]).0.idx() < n2.len() by {
            assert(m2.rows[k].0 == m.rows[k].0);
        }
        assert(row_laid_out(m2, n2, a2));
    }
    scrolls
}

/// The `j`-th child of `anchor` lies in its subtree.
spec fn kid_in_subtree(nodes: Seq<Node<WidgetKind>>, anchor: int, j: int) -> bool {
    descends(nodes, child_of(nodes, anchor, j), anchor)
}


/// Starting on the first tile of a row laid out as the menu builds it, with the
/// row's anchor less than a tile's step right of the root's left edge, three moves
/// right and then three moves left bring the highlight back to the first tile and
/// the row back to its offset and its place, whatever the root's width.
pub proof fn lemma_right_left_round_trip(m: MenuView, nodes: Seq<Node<WidgetKind>>)
    requires
        row_laid_out(m, nodes, nodes[m.rows[m.selected.0 as int].0.idx()].widget.properties.origin.0 as int),
        m.selected.1 == 0,
        0 <= nodes[m.rows[m.selected.0 as int].0.idx()].widget.properties.origin.0 < COLUMN_STEP,
        4 <= nodes[m.rows[m.selected.0 as int].0.idx()].children.len(),
        -0x0700_0000 < m.rows[m.selected.0 as int].1 < 0x0700_0000,
    ensures
        ({
            let (m1, n1) = moved_right(m, nodes);
            let (m2, n2) = moved_right(m1, n1);
            let (m3, n3) = moved_right(m2, n2);
            let (m4, n4) = moved_left(m3, n3);
            let (m5, n5) = moved_left(m4, n4);
            let (m6, n6) = moved_left(m5, n5);
            let anchor = m.rows[m.selected.0 as int].0.idx();
            &&& m3.selected == (m.selected.0, 3usize)
            &&& m6.selected == m.selected
            &&& m6.rows == m.rows
            &&& n6[anchor].widget.properties.origin.0 == nodes[anchor].widget.properties.origin.0
        }),
{
    let r = m.selected.0 as int;
    let anchor = m.rows[r].0.idx();
    let a0 = nodes[anchor].widget.properties.origin.0 as int;
    let w = nodes[0].widget.properties.bounds.0 as int;
    let s1 = lemma_row_step(m, nodes, a0, true);
    let (m1, n1) = moved_right(m, nodes);
    let a1 = if s1 { a0 - COLUMN_STEP } else { a0 };
    let s2 = lemma_row_step(m1, n1, a1, true);
    let (m2, n2) = moved_right(m1, n1);
    let a2 = if s2 { a1 - COLUMN_STEP } else { a1 };
    let s3 = lemma_row_step(m2, n2, a2, true);
    let (m3, n3) = moved_right(m2, n2);
    let a3 = if s3 { a2 - COLUMN_STEP } else { a2 };
    let s4 = lemma_row_step(m3, n3, a3, false);
    let (m4, n4) = moved_left(m3, n3);
    let a4 = if s4 { a3 + COLUMN_STEP } else { a3 };
    let s5 = lemma_row_step(m4, n4, a4, false);
    let (m5, n5) = moved_left(m4, n4);
    let a5 = if s5 { a4 + COLUMN_STEP } else { a4 };
    let s6 = lemma_row_step(m5, n5, a5, false);
    let (m6, n6) = moved_left(m5, n5);
    let a6 = if s6 { a5 + COLUMN_STEP } else { a5 };
    assert(a6 == a0);
    assert(m6.rows =~= m.rows);
}


/// The canonical locator of a tile's thumbnail, if the document gives a usable one.
pub open spec fn tile_locator(tile: Collection) -> Option<Seq<char>> {
    match tile_image(tile) {
        Some(u) => url_serialization(u),
        None => None,
    }
}

/// A row the menu can be built from: it has a full title, and each of its items
/// (if curated) a usable thumbnail locator.
pub open spec fn row_ok(c: Container) -> bool {
    &&& row_title(c) is Some
    &&& match c.set {
        ContentSet::CuratedSet { items, .. } => forall|j: int|
            0 <= j < items.len() ==> tile_locator(#[trigger] items@[j]) is Some,
        _ => true,
    }
}

/// Every row can be built from.
pub open spec fn rows_ok(cs: Seq<Container>) -> bool {
    forall|k: int| 0 <= k < cs.len() ==> row_ok(#[trigger] cs[k])
}

/// The number of widgets the rows add: a label per row and, per curated row, an
/// anchor and its tiles.
pub open spec fn built_size(cs: Seq<Container>) -> nat
    decreases cs.len(),
{
    if cs.len() == 0 {
        0
    } else {
        (built_size(cs.drop_last()) + 1 + match cs.last().set {
            ContentSet::CuratedSet { items, .. } => 1 + items.len(),
            _ => 0,
        }) as nat
    }
}

/// The rows' menu fits: at most 2^20 rows, each of at most 2^20 items, and the
/// identifiers of all widgets, `base` of them there already, fit `u32`.
pub open spec fn fits_menu(cs: Seq<Container>, base: nat) -> bool {
    &&& cs.len() <= 0x10_0000
    &&& forall|k: int|
        0 <= k < cs.len() ==> match (#[trigger] cs[k]).set {
            ContentSet::CuratedSet { items, .. } => items.len() <= 0x10_0000,
            _ => true,
        }
    &&& base + 1 + built_size(cs) < u32::MAX
}

/// Whether a row is curated, that is, has tiles.
pub open spec fn is_curated(c: Container) -> bool {
    c.set is CuratedSet
}

/// The items of a curated row; none for a row of another kind.
pub open spec fn row_items(c: Container) -> Seq<Collection> {
    match c.set {
        ContentSet::CuratedSet { items, .. } => items@,
        _ => Seq::empty(),
    }
}

/// The identifier of row `i`'s label when the grid anchor has identifier `g`. A
/// curated row's anchor has the next identifier, and its tiles the ones after.
pub open spec fn label_id(g: int, cs: Seq<Container>, i: int) -> int {
    g + 1 + built_size(cs.take(i))
}

/// The number of curated rows before row `i`: the index of row `i` among the
/// menu's rows, if it is curated.
pub open spec fn curated_before(cs: Seq<Container>, i: int) -> int {
    curated_items(cs.take(i)).len() as int
}

/// The children of the grid anchor `g`: per row its label, then, for a curated
/// row, its anchor.
pub open spec fn grid_kids(g: int, cs: Seq<Container>) -> Seq<WidgetId>
    decreases cs.len(),
{
    if cs.len() == 0 {
        Seq::empty()
    } else {
        let l = g + 1 + built_size(cs.drop_last());
        let rest = grid_kids(g, cs.drop_last());
        if is_curated(cs.last()) {
            rest.push(WidgetId(l as u32)).push(WidgetId((l + 1) as u32))
        } else {
            rest.push(WidgetId(l as u32))
        }
    }
}

/// `n` consecutive identifiers from `first`.
pub open spec fn tile_ids(first: int, n: int) -> Seq<WidgetId> {
    Seq::new(n as nat, |j: int| WidgetId((first + j) as u32))
}

/// The top edge of row `i`'s label.
pub open spec fn label_y(i: int) -> int {
    TOP_MARGIN + i * ROW_HEIGHT
}

/// The height of a row label.
pub open spec fn label_height() -> u32 {
    (LABEL_POINT_SIZE * 1333 / 1000) as u32
}

pub open spec fn white() -> Color {
    Color { r: 255, g: 255, b: 255, a: 255 }
}

/// The resting properties of tile `j` of row `i`.
pub open spec fn tile_props(i: int, j: int) -> Properties {
    props(
        (RIGHT_MARGIN + j * COLUMN_STEP) as i32,
        (label_y(i) + label_height() + LABEL_PADDING) as i32,
        TILE_WIDTH,
        TILE_HEIGHT,
        tile_color(),
        false,
    )
}

/// The widget is a label showing `title` at the label point size.
pub open spec fn is_label_of(w: Widget<WidgetKind>, title: Option<Seq<char>>) -> bool {
    match w.content {
        WidgetKind::Label { text, point_size } => Some(text@) == title && point_size
            == LABEL_POINT_SIZE,
        _ => false,
    }
}

/// The widget is a tile waiting for the thumbnail at `locator`.
pub open spec fn is_tile_for(w: Widget<WidgetKind>, locator: Option<Seq<char>>) -> bool {
    match w.content {
        WidgetKind::Tile { image: Thumbnail::Pending(l) } => Some(l@) == locator,
        _ => false,
    }
}

/// Row `i` of the document stands in the tree under the grid anchor `g`, with the
/// first `n` of its tiles: its label (as wide as the root, `max_width`); for a
/// curated row, its anchor, entered in the menu's rows with offset 0, and its
/// tiles left to right at the resting size, tile (0, 0) of the menu enlarged when
/// `lit`.
pub open spec fn row_built(
    m: MenuView,
    nodes: Seq<Node<WidgetKind>>,
    g: int,
    cs: Seq<Container>,
    i: int,
    n: int,
    lit: bool,
    max_width: u32,
) -> bool {
    let l = label_id(g, cs, i);
    let a = l + 1;
    let q = curated_before(cs, i);
    &&& l < nodes.len()
    &&& nodes[l].parent == WidgetId(g as u32)
    &&& nodes[l].children.len() == 0
    &&& is_label_of(nodes[l].widget, row_title(cs[i]))
    &&& nodes[l].widget.properties == props(
        RIGHT_MARGIN,
        label_y(i) as i32,
        max_width,
        label_height(),
        white(),
        false,
    )
    &&& is_curated(cs[i]) ==> {
        &&& a + n < nodes.len()
        &&& n <= 0x10_0000
        &&& nodes[a].parent == WidgetId(g as u32)
        &&& nodes[a].widget.content is Anchor
        &&& nodes[a].widget.properties == props(RIGHT_MARGIN, label_y(i) as i32, 1, 1, white(), true)
        &&& nodes[a].children == tile_ids(a + 1, n)
        &&& 0 <= q < m.rows.len()
        &&& m.rows[q] == (WidgetId(a as u32), 0isize)
        &&& forall|j: int|
            0 <= j < n ==> {
                let t = #[trigger] nodes[a + 1 + j];
                &&& t.parent == WidgetId(a as u32)
                &&& t.children.len() == 0
                &&& is_tile_for(t.widget, tile_locator(row_items(cs[i])[j]))
                &&& t.widget.properties == if lit && q == 0 && j == 0 {
                    enlarged_props(tile_props(i, j))
                } else {
                    tile_props(i, j)
                }
            }
    }
}

/// The first `k` rows of the document stand in the tree, complete.
pub open spec fn rows_built(
    m: MenuView,
    nodes: Seq<Node<WidgetKind>>,
    g: int,
    cs: Seq<Container>,
    k: int,
    lit: bool,
    max_width: u32,
) -> bool {
    forall|i: int|
        0 <= i < k ==> #[trigger] row_built(m, nodes, g, cs, i, row_items(cs[i]).len() as int, lit, max_width)
}

/// The nodes that were in the tree are kept, but for the root, which may have
/// gained the grid anchor `g` as its last child.
pub open spec fn tree_kept(nodes: Seq<Node<WidgetKind>>, before: Seq<Node<WidgetKind>>, grown: bool) -> bool {
    let g = before.len() as int;
    &&& nodes.len() >= g
    &&& forall|i: int| 0 < i < g ==> nodes[i] == before[i]
    &&& nodes[0].widget == before[0].widget
    &&& nodes[0].parent == before[0].parent
    &&& nodes[0].children == if grown {
        before[0].children.push(WidgetId(g as u32))
    } else {
        before[0].children
    }
}

/// The grid anchor `g` hangs from the root, with the given children and height.
pub open spec fn grid_built(nodes: Seq<Node<WidgetKind>>, g: int, kids: Seq<WidgetId>, height: int) -> bool {
    &&& g < nodes.len()
    &&& nodes[g].parent == WidgetId(0)
    &&& nodes[g].widget.content is Anchor
    &&& nodes[g].widget.properties == props(0, 0, 1, height as u32, white(), true)
    &&& nodes[g].children == kids
}

/// The menu built from rows `cs` into a tree that held `before`: the grid anchor
/// is the root's one new child; the grid holds, per row, the row's label and,
/// for a curated row, its anchor; the menu's rows are the curated rows in order,
/// with offset 0; tile (0, 0) is selected, and enlarged when `lit`.
pub open spec fn menu_built(
    m: MenuView,
    nodes: Seq<Node<WidgetKind>>,
    before: Seq<Node<WidgetKind>>,
    cs: Seq<Container>,
    lit: bool,
) -> bool {
    let g = before.len() as int;
    &&& nodes.len() == g + 1 + built_size(cs)
    &&& tree_kept(nodes, before, true)
    &&& m.grid_root == WidgetId(g as u32)
    &&& grid_built(nodes, g, grid_kids(g, cs), 1 + ROW_HEIGHT * curated_items(cs).len())
    &&& m.rows.len() == curated_items(cs).len()
    &&& m.selected == (0usize, 0usize)
    &&& anchors_ordered(m, g)
    &&& rows_built(m, nodes, g, cs, cs.len() as int, lit, before[0].widget.properties.bounds.0)
}

/// The menu's row anchors come after the grid anchor `g`, in increasing order.
pub open spec fn anchors_ordered(m: MenuView, g: int) -> bool {
    &&& forall|q: int| 0 <= q < m.rows.len() ==> g < (#[trigger] m.rows[q]).0.idx()
    &&& forall|q1: int, q2: int|
        0 <= q1 < q2 < m.rows.len() ==> (#[trigger] m.rows[q1]).0.idx() < (#[trigger] m.rows[q2]).0.idx()
}

/// Highlighting tile (0, 0) of a freshly built menu enlarges that tile and
/// changes nothing else.
proof fn lemma_first_highlight(
    m: MenuView,
    nodes: Seq<Node<WidgetKind>>,
    before: Seq<Node<WidgetKind>>,
    cs: Seq<Container>,
)
    requires
        menu_built(m, nodes, before, cs, false),
        menu_wf(m, nodes),
        0 < before.len(),
    ensures
        selected_state(m, nodes, 0, 0).0 == m,
        menu_built(m, selected_state(m, nodes, 0, 0).1, before, cs, true),
        menu_wf(m, selected_state(m, nodes, 0, 0).1),
{
    let g = before.len() as int;
    let mw = before[0].widget.properties.bounds.0;
    let after = selected_state(m, nodes, 0, 0).1;
    if !can_select(m, nodes, 0, 0) {
        assert forall|i: int| 0 <= i < cs.len() implies #[trigger] row_built(m, nodes, g, cs, i, row_items(cs[i]).len() as int, true, mw) by {
            assert(row_built(m, nodes, g, cs, i, row_items(cs[i]).len() as int, false, mw));
            if is_curated(cs[i]) && curated_before(cs, i) == 0 {
                let a = label_id(g, cs, i) + 1;
                assert(m.rows[0].0.idx() == a);
                assert(target_column(m, 0, 0) == 0);
            }
        }
    } else {
        let a0 = m.rows[0].0.idx();
        let t = tile_of(m, nodes, 0, 0);
        assert(selection_valid(m, nodes));
        assert(parent_of_tree(nodes, a0, t));
        let w = nodes[t].widget;
        let n2 = highlighted(m, nodes, t);
        assert(vertical_scroll(m, n2, 0, n2[t].widget.properties.origin.1 as int) == 0);
        assert(horizontal_scroll(m, n2, 0, 0, n2[t].widget.properties.origin.0 as int) == 0);
        assert(selected_state(m, nodes, 0, 0).0 == m);
        assert(after == n2);
        assert(same_shape(nodes, n2));
        lemma_same_shape(nodes, n2);
        assert(g < a0 < t);
        assert forall|i: int| 0 <= i < cs.len() implies #[trigger] row_built(m, n2, g, cs, i, row_items(cs[i]).len() as int, true, mw) by {
            let n = row_items(cs[i]).len() as int;
            assert(row_built(m, nodes, g, cs, i, n, false, mw));
            let l = label_id(g, cs, i);
            let a = l + 1;
            let q = curated_before(cs, i);
            assert(nodes[l].parent.idx() == g);
            assert(n2[l] == nodes[l]);
            if is_curated(cs[i]) {
                assert(nodes[a].parent.idx() == g);
                assert(n2[a] == nodes[a]);
                assert forall|j: int| 0 <= j < n implies {
                    let tn = #[trigger] n2[a + 1 + j];
                    &&& tn.parent == WidgetId(a as u32)
                    &&& tn.children.len() == 0
                    &&& is_tile_for(tn.widget, tile_locator(row_items(cs[i])[j]))
                    &&& tn.widget.properties == if q == 0 && j == 0 {
                        enlarged_props(tile_props(i, j))
                    } else {
                        tile_props(i, j)
                    }
                } by {
                    let tj = a + 1 + j;
                    assert(nodes[tj].parent.idx() == a);
                    if tj == t {
                        assert(a == a0);
                        if q != 0 {
                            assert(m.rows[q].0.idx() == a);
                            assert(0 < q);
                            assert(m.rows[0].0.idx() < m.rows[q].0.idx());
                        }
                        assert(nodes[a].children[0].idx() == a + 1);
                        assert(j == 0);
                        assert(shrunk(w) == w);
                    } else {
                        assert(n2[tj] == nodes[tj]);
                        if q == 0 {
                            assert(a == a0);
                            assert(nodes[a].children[0].idx() == a + 1);
                        }
                    }
                }
            }
        }
        assert(nodes[g].parent.idx() == 0);
        assert(n2[g] == nodes[g]);
        assert forall|i: int| 0 < i < g implies n2[i] == before[i] by {
            assert(nodes[i] == before[i]);
        }
        assert(n2[0] == nodes[0]);
    }
}

/// A row list with a curated row has a first one.
proof fn lemma_first_curated(cs: Seq<Container>) -> (i0: int)
    requires
        curated_items(cs).len() > 0,
    ensures
        0 <= i0 < cs.len(),
        is_curated(cs[i0]),
        curated_before(cs, i0) == 0,
    decreases cs.len(),
{
    let d = cs.drop_last();
    if curated_items(d).len() > 0 {
        let i0 = lemma_first_curated(d);
        assert(d.take(i0) =~= cs.take(i0));
        assert(d[i0] == cs[i0]);
        i0
    } else {
        assert(cs.take(cs.len() - 1) =~= d);
        assert(cs.last() == cs[cs.len() - 1]);
        cs.len() - 1
    }
}

/// A freshly built menu whose root starts at the left edge and whose first row
/// has tiles lays that row out as the round trip of moves asks: anchor at the
/// right margin, the first tile highlighted.
pub proof fn lemma_built_row_laid_out(
    m: MenuView,
    nodes: Seq<Node<WidgetKind>>,
    before: Seq<Node<WidgetKind>>,
    cs: Seq<Container>,
)
    requires
        menu_built(m, nodes, before, cs, true),
        menu_wf(m, nodes),
        0 < before.len(),
        before[0].widget.properties.origin.0 == 0,
        m.rows.len() > 0,
        nodes[m.rows[0].0.idx()].children.len() > 0,
    ensures
        row_laid_out(m, nodes, RIGHT_MARGIN as int),
{
    reveal(row_laid_out);
    let g = before.len() as int;
    let mw = before[0].widget.properties.bounds.0;
    let i0 = lemma_first_curated(cs);
    let n = row_items(cs[i0]).len() as int;
    assert(row_built(m, nodes, g, cs, i0, n, true, mw));
    let a = label_id(g, cs, i0) + 1;
    assert(m.rows[0].0.idx() == a);
    let kids = nodes[a].children;
    assert(kids == tile_ids(a + 1, n));
    assert forall|j: int| 0 <= j < kids.len() implies {
        let nd = #[trigger] nodes[kids[j].idx()];
        &&& nd.children.len() == 0
        &&& if j == m.selected.1 {
            &&& nd.widget.properties.bounds == (ENLARGED_WIDTH, ENLARGED_HEIGHT)
            &&& nd.widget.properties.origin.0 == RIGHT_MARGIN + j * COLUMN_STEP - GROW_DX
        } else {
            &&& nd.widget.properties.bounds == (TILE_WIDTH, TILE_HEIGHT)
            &&& nd.widget.properties.origin.0 == RIGHT_MARGIN + j * COLUMN_STEP
        }
    } by {
        assert(kids[j].idx() == a + 1 + j);
        assert(nodes[kids[j].idx()] == nodes[a + 1 + j]);
    }
}

/// The parent of `t`, a child of `a`, is `a`.
spec fn parent_of_tree(nodes: Seq<Node<WidgetKind>>, a: int, t: int) -> bool {
    nodes[t].parent.idx() == a
}

proof fn lemma_built_size_mono(cs: Seq<Container>, i: int, k: int)
    requires
        0 <= i < k <= cs.len(),
    ensures
        built_size(cs.take(i)) + 1 + (if is_curated(cs[i]) {
            1 + row_items(cs[i]).len()
        } else {
            0
        }) <= built_size(cs.take(k)),
    decreases k - i,
{
    lemma_built_size_prefix(cs, i);
    if i + 1 < k {
        lemma_built_size_mono(cs, i + 1, k);
        lemma_built_size_prefix(cs, i + 1);
    }
}

/// Rows whose identifiers lie below `top` keep standing when nothing below `top`
/// (but the grid anchor) changes and the menu's rows are extended.
proof fn lemma_rows_built_frame(
    m: MenuView,
    nodes: Seq<Node<WidgetKind>>,
    m2: MenuView,
    nodes2: Seq<Node<WidgetKind>>,
    g: int,
    cs: Seq<Container>,
    k: int,
    lit: bool,
    max_width: u32,
)
    requires
        rows_built(m, nodes, g, cs, k, lit, max_width),
        0 <= k <= cs.len(),
        0 <= g,
        nodes2.len() >= nodes.len(),
        forall|id: int| g < id < g + 1 + built_size(cs.take(k)) ==> nodes2[id] == nodes[id],
        m2.rows.len() >= m.rows.len(),
        forall|q: int| 0 <= q < m.rows.len() ==> m2.rows[q] == m.rows[q],
    ensures
        rows_built(m2, nodes2, g, cs, k, lit, max_width),
{
    assert forall|i: int| 0 <= i < k implies #[trigger] row_built(m2, nodes2, g, cs, i, row_items(cs[i]).len() as int, lit, max_width) by {
        let n = row_items(cs[i]).len() as int;
        assert(row_built(m, nodes, g, cs, i, n, lit, max_width));
        lemma_built_size_mono(cs, i, k);
        let l = label_id(g, cs, i);
        let a = l + 1;
        assert(nodes2[l] == nodes[l]);
        if is_curated(cs[i]) {
            assert(nodes2[a] == nodes[a]);
            assert forall|j: int| 0 <= j < n implies {
                let t = #[trigger] nodes2[a + 1 + j];
                &&& t.parent == WidgetId(a as u32)
                &&& t.children.len() == 0
                &&& is_tile_for(t.widget, tile_locator(row_items(cs[i])[j]))
                &&& t.widget.properties == if lit && curated_before(cs, i) == 0 && j == 0 {
                    enlarged_props(tile_props(i, j))
                } else {
                    tile_props(i, j)
                }
            } by {
                assert(nodes2[a + 1 + j] == nodes[a + 1 + j]);
            }
        }
    }
}

proof fn lemma_built_size_prefix(cs: Seq<Container>, i: int)
    requires
        0 <= i < cs.len(),
    ensures
        built_size(cs.take(i)) + 1 + match cs[i].set {
            ContentSet::CuratedSet { items, .. } => 1 + items.len(),
            _ => 0,
        } == built_size(cs.take(i + 1)),
        built_size(cs.take(i + 1)) <= built_size(cs),
        curated_items(cs.take(i)).len() <= i,
    decreases cs.len(),
{
    assert(cs.take(i + 1).drop_last() =~= cs.take(i));
    assert(cs.take(i + 1).last() == cs[i]);
    if i + 1 < cs.len() {
        lemma_built_size_prefix(cs.drop_last(), i);
        assert(cs.drop_last().take(i + 1) =~= cs.take(i + 1));
        assert(cs.drop_last().take(i) =~= cs.take(i));
    } else {
        assert(cs.take(i + 1) =~= cs);
    }
    lemma_curated_count(cs.take(i));
}

proof fn lemma_curated_count(cs: Seq<Container>)
    ensures
        curated_items(cs).len() <= cs.len(),
    decreases cs.len(),
{
    if cs.len() > 0 {
        lemma_curated_count(cs.drop_last());
    }
}

/// The state of the main menu.
#[derive(Debug)]
pub struct Menu {
    rows: Vec<(WidgetId, isize)>,
    selected_tile: (usize, usize),
    grid_root: WidgetId,
}

impl View for Menu {
    type V = MenuView;

    closed spec fn view(&self) -> MenuView {
        MenuView { rows: self.rows@, selected: self.selected_tile, grid_root: self.grid_root }
    }
}


impl Menu {
    /// The menu's identifiers name widgets of `widgets`, a well-formed tree.
    pub open spec fn wf(&self, widgets: &Widgets<WidgetKind>) -> bool {
        menu_wf(self@, widgets@)
    }

    /// An empty menu: no rows, the selection at the first tile, the grid hung
    /// from the root until the menu is built.
    pub fn new() -> (m: Menu)
        ensures
            m@.rows.len() == 0,
            m@.selected == (0usize, 0usize),
            m@.grid_root.0 == 0,
    {
        Menu { rows: Vec::new(), selected_tile: (0, 0), grid_root: WidgetId::root() }
    }

    /// The selected (row, child index).
    pub fn selected_tile(&self) -> (r: (usize, usize))
        ensures
            r == self@.selected,
    {
        self.selected_tile
    }

    /// The number of rows of tiles.
    pub fn row_count(&self) -> (r: usize)
        ensures
            r == self@.rows.len(),
    {
        self.rows.len()
    }

    /// The anchor and scroll offset of row `row`.
    pub fn row(&self, row: usize) -> (r: (WidgetId, isize))
        requires
            row < self@.rows.len(),
        ensures
            r == self@.rows[row as int],
    {
        self.rows[row]
    }

    /// The anchor that the whole grid hangs from.
    pub fn grid_root(&self) -> (r: WidgetId)
        ensures
            r == self@.grid_root,
    {
        self.grid_root
    }


    /// Builds the menu from the home document under the root of `widgets`: an
    /// invisible grid anchor; for each row its title label and, for a curated row,
    /// an invisible row anchor holding one tile per item, laid out left to right;
    /// then highlights the first tile. A document without the rows, a row without
    /// a title or a tile without a usable thumbnail address is an error; a valid
    /// document whose menu fits the ranges of identifiers and coordinates is built.
    /// Whatever happens, the widgets that were in the tree stay as they were.
    pub fn initialize(&mut self, widgets: &mut Widgets<WidgetKind>, home: &Home) -> (r: Result<
        (),
        MenuError,
    >)
        requires
            old(self).wf(old(widgets)),
            old(self)@.rows.len() == 0,
            old(self)@.selected == (0usize, 0usize),
        ensures
            final(self).wf(final(widgets)),
            tree_kept(final(widgets)@, old(widgets)@, true) || tree_kept(
                final(widgets)@,
                old(widgets)@,
                false,
            ),
            lookup(home.data@, ROWS_KEY@) is None ==> r == Err::<(), MenuError>(
                MenuError::MissingRows,
            ),
            lookup(home.data@, ROWS_KEY@) matches Some(c) && !(c.inner is StandardCollection)
                ==> r == Err::<(), MenuError>(MenuError::NotStandardCollection),
            r is Ok ==> document_rows(*home) is Some && rows_ok(document_rows(*home)->0),
            document_rows(*home) is Some && rows_ok(document_rows(*home)->0) && fits_menu(
                document_rows(*home)->0,
                old(widgets)@.len(),
            ) ==> r is Ok,
            r is Ok ==> document_rows(*home) is Some && menu_built(
                final(self)@,
                final(widgets)@,
                old(widgets)@,
                document_rows(*home)->0,
                true,
            ),
            r is Ok && old(widgets)@[0].widget.properties.origin.0 == 0 && final(self)@.rows.len()
                > 0 && final(widgets)@[final(self)@.rows[0].0.idx()].children.len() > 0
                ==> row_laid_out(final(self)@, final(widgets)@, RIGHT_MARGIN as int),
    {
        let ghost before = widgets@;
        let rows = match get_menu_rows(home) {
            Ok(rows) => rows,
            Err(e) => return Err(e),
        };
        let ghost cs = rows@;
        let ghost g = widgets@.len() as int;
        let (max_width, _) = widgets.get(WidgetId::root()).bounds();
        if widgets.len() >= u32::MAX as usize {
            return Err(MenuError::TooLarge);
        }
        self.grid_root = widgets.insert(WidgetKind::new_anchor(0, 0), WidgetId::root());
        let mut i: usize = 0;
        assert(cs.take(0) =~= Seq::<Container>::empty());
        assert(grid_kids(g, cs.take(0)) =~= Seq::<WidgetId>::empty());
        assert forall|k: int| 0 < k < g implies widgets@[k] == before[k] by {}
        while i < rows.len()
            invariant
                menu_wf(self@, widgets@),
                self@.selected == (0usize, 0usize),
                rows@ == cs,
                i <= cs.len(),
                document_rows(*home) == Some(cs),
                before == old(widgets)@,
                g == before.len(),
                0 < g < u32::MAX,
                max_width == before[0].widget.properties.bounds.0,
                rows_ok(cs.take(i as int)),
                self@.grid_root == WidgetId(g as u32),
                widgets@.len() == g + 1 + built_size(cs.take(i as int)),
                tree_kept(widgets@, before, true),
                grid_built(
                    widgets@,
                    g,
                    grid_kids(g, cs.take(i as int)),
                    1 + ROW_HEIGHT * curated_items(cs.take(i as int)).len(),
                ),
                self@.rows.len() == curated_items(cs.take(i as int)).len(),
                anchors_ordered(self@, g),
                rows_built(self@, widgets@, g, cs, i as int, false, max_width),
            decreases cs.len() - i,
        {
            proof {
                lemma_built_size_prefix(cs, i as int);
            }
            let title = match get_row_title(&rows[i], i) {
                Ok(t) => t,
                Err(e) => return Err(e),
            };
            if i >= 0x10_0000 || widgets.len() >= (u32::MAX - 1) as usize {
                assert(!fits_menu(cs, g as nat));
                return Err(MenuError::TooLarge);
            }
            let row_y = TOP_MARGIN as i64 + (i as i64) * (ROW_HEIGHT as i64);
            let row_y = row_y as i32;
            assert(row_y == label_y(i as int));
            let label = WidgetKind::new_label(
                title.to_owned(),
                LABEL_POINT_SIZE,
                RIGHT_MARGIN,
                row_y,
                max_width,
            );
            let (_, text_height) = label.bounds();
            let grid_root = self.grid_root;
            let ghost nodes0 = widgets@;
            let ghost m0 = self@;
            let ghost l = label_id(g, cs, i as int);
            let _label_id = widgets.insert(label, grid_root);
            assert(cs.take(i + 1).drop_last() =~= cs.take(i as int));
            assert(cs.take(i + 1).last() == cs[i as int]);
            proof {
                lemma_rows_built_frame(m0, nodes0, self@, widgets@, g, cs, i as int, false, max_width);
                assert(widgets@[g].children == grid_kids(g, cs.take(i as int)).push(WidgetId(l as u32)));
            }
            let ghost nodes_l = widgets@;
            match &rows[i].set {
                ContentSet::CuratedSet { items, .. } => {
                    let row_id = widgets.insert(WidgetKind::new_anchor(RIGHT_MARGIN, row_y), grid_root);
                    let ghost nodes1 = widgets@;
                    let ghost m1 = self@;
                    self.rows.push((row_id, 0));
                    let tile_y = row_y + (text_height + LABEL_PADDING) as i32;
                    let ghost a = l + 1;
                    let ghost q = curated_before(cs, i as int);
                    proof {
                        lemma_rows_built_frame(m0, nodes_l, self@, widgets@, g, cs, i as int, false, max_width);
                        assert(row_id.idx() == a);
                        assert(tile_ids(a + 1, 0) =~= Seq::<WidgetId>::empty());
                        assert(self@.rows[q] == (row_id, 0isize));
                    }
                    let mut j: usize = 0;
                    while j < items.len()
                        invariant
                            menu_wf(self@, widgets@),
                            self@.selected == (0usize, 0usize),
                            rows@ == cs,
                            i < cs.len(),
                            i < 0x10_0000,
                            document_rows(*home) == Some(cs),
                            before == old(widgets)@,
                            g == before.len(),
                            0 < g < u32::MAX,
                            max_width == before[0].widget.properties.bounds.0,
                            rows_ok(cs.take(i as int)),
                            row_title(cs[i as int]) is Some,
                            is_curated(cs[i as int]),
                            row_items(cs[i as int]) == items@,
                            self@.grid_root == WidgetId(g as u32),
                            grid_root == WidgetId(g as u32),
                            l == label_id(g, cs, i as int),
                            a == l + 1,
                            row_id == WidgetId(a as u32),
                            q == curated_before(cs, i as int),
                            row_y == label_y(i as int),
                            text_height == label_height(),
                            tile_y == row_y + (text_height + LABEL_PADDING) as i32,
                            widgets@.len() == a + 1 + j,
                            built_size(cs.take(i as int)) + 2 + items.len() == built_size(cs.take(i + 1)),
                            built_size(cs.take(i + 1)) <= built_size(cs),
                            curated_items(cs.take(i as int)).len() <= i,
                            tree_kept(widgets@, before, true),
                            grid_built(
                                widgets@,
                                g,
                                grid_kids(g, cs.take(i as int)).push(WidgetId(l as u32)).push(row_id),
                                1 + ROW_HEIGHT * curated_items(cs.take(i as int)).len(),
                            ),
                            self@.rows.len() == q + 1,
                            anchors_ordered(self@, g),
                            rows_built(self@, widgets@, g, cs, i as int, false, max_width),
                            row_built(self@, widgets@, g, cs, i as int, j as int, false, max_width),
                            j <= items.len(),
                            forall|k: int| 0 <= k < j ==> tile_locator(#[trigger] items@[k]) is Some,
                        decreases items.len() - j,
                    {
                        let url = match get_tile_image_url(&items[j]) {
                            Ok(u) => u,
                            Err(e) => return Err(e),
                        };
                        if j >= 0x10_0000 || widgets.len() >= u32::MAX as usize {
                            assert(!fits_menu(cs, g as nat)) by {
                                if fits_menu(cs, g as nat) {
                                    assert(items@.len() <= 0x10_0000);
                                }
                            }
                            return Err(MenuError::TooLarge);
                        }
                        assert((j as i64) * (COLUMN_STEP as i64) <= 0x10_0000 * 528) by (nonlinear_arith)
                            requires
                                j < 0x10_0000,
                                COLUMN_STEP == 528,
                        ;
                        let x = RIGHT_MARGIN as i64 + (j as i64) * (COLUMN_STEP as i64);
                        let tile = WidgetKind::new_tile(x as i32, tile_y, url);
                        let ghost nodes2 = widgets@;
                        let _tile_id = widgets.insert(tile, row_id);
                        proof {
                            lemma_rows_built_frame(self@, nodes2, self@, widgets@, g, cs, i as int, false, max_width);
                            let t = a + 1 + j;
                            assert(widgets@[a].children =~= tile_ids(a + 1, j + 1));
                            assert(tile_props(i as int, j as int) == widgets@[t].widget.properties);
                            assert forall|k: int| 0 <= k < j + 1 implies {
                                let tn = #[trigger] widgets@[a + 1 + k];
                                &&& tn.parent == WidgetId(a as u32)
                                &&& tn.children.len() == 0
                                &&& is_tile_for(tn.widget, tile_locator(row_items(cs[i as int])[k]))
                                &&& tn.widget.properties == if false && q == 0 && k == 0 {
                                    enlarged_props(tile_props(i as int, k))
                                } else {
                                    tile_props(i as int, k)
                                }
                            } by {
                                if k < j {
                                    assert(widgets@[a + 1 + k] == nodes2[a + 1 + k]);
                                }
                            }
                            assert(widgets@[l] == nodes2[l]);
                            assert(row_built(self@, widgets@, g, cs, i as int, (j + 1) as int, false, max_width));
                        }
                        j = j + 1;
                    }
                    proof {
                        let n = curated_items(cs.take(i as int)).len();
                        assert(ROW_HEIGHT * n <= ROW_HEIGHT * 0x10_0000) by (nonlinear_arith)
                            requires
                                n <= 0x10_0000,
                        ;
                    }
                    let (grid_w, grid_h) = widgets.get(grid_root).bounds();
                    if grid_h > u32::MAX - ROW_HEIGHT {
                        return Err(MenuError::TooLarge);
                    }
                    let ghost nodes3 = widgets@;
                    widgets.get_mut(grid_root).set_bounds(grid_w, grid_h + ROW_HEIGHT);
                    proof {
                        assert(same_shape(nodes3, widgets@));
                        lemma_same_shape(nodes3, widgets@);
                        lemma_rows_built_frame(self@, nodes3, self@, widgets@, g, cs, i as int, false, max_width);
                        assert(curated_items(cs.take(i + 1)) == curated_items(cs.take(i as int)).push(items@));
                        let n = curated_items(cs.take(i as int)).len();
                        assert(1 + ROW_HEIGHT * (n + 1) == 1 + ROW_HEIGHT * n + ROW_HEIGHT) by (nonlinear_arith);
                        assert forall|k: int| l <= k < widgets@.len() implies widgets@[k] == nodes3[k] by {}
                        assert(row_built(self@, widgets@, g, cs, i as int, items@.len() as int, false, max_width)) by {
                            assert(row_built(self@, nodes3, g, cs, i as int, items@.len() as int, false, max_width));
                            assert forall|k: int| 0 <= k < items@.len() implies #[trigger] widgets@[a + 1 + k] == nodes3[a + 1 + k] by {}
                        }
                        assert forall|k: int| 0 <= k < i + 1 implies #[trigger] row_built(self@, widgets@, g, cs, k, row_items(cs[k]).len() as int, false, max_width) by {
                        }
                        assert forall|k: int| 0 <= k < i + 1 implies row_ok(#[trigger] cs.take(i + 1)[k]) by {
                            if k < i {
                                assert(cs.take(i + 1)[k] == cs.take(i as int)[k]);
                            }
                        }
                        assert(grid_kids(g, cs.take(i + 1)) == grid_kids(g, cs.take(i as int)).push(WidgetId(l as u32)).push(row_id));
                        assert forall|k: int| 0 < k < g implies widgets@[k] == before[k] by {
                            assert(nodes3[k] == before[k]);
                        }
                    }
                },
                ContentSet::SetRef { .. } => {
                    proof {
                        assert(curated_items(cs.take(i + 1)) == curated_items(cs.take(i as int)));
                        assert(row_built(self@, widgets@, g, cs, i as int, 0, false, max_width));
                        assert(row_items(cs[i as int]).len() == 0);
                        assert forall|k: int| 0 <= k < i + 1 implies #[trigger] row_built(self@, widgets@, g, cs, k, row_items(cs[k]).len() as int, false, max_width) by {
                        }
                        assert forall|k: int| 0 <= k < i + 1 implies row_ok(#[trigger] cs.take(i + 1)[k]) by {
                            if k < i {
                                assert(cs.take(i + 1)[k] == cs.take(i as int)[k]);
                            }
                        }
                        assert(grid_kids(g, cs.take(i + 1)) == grid_kids(g, cs.take(i as int)).push(WidgetId(l as u32)));
                    }
                },
            }
            i = i + 1;
        }
        assert(cs.take(cs.len() as int) =~= cs);
        let ghost built = widgets@;
        let ghost built_menu = self@;
        assert(menu_built(built_menu, built, before, cs, false));
        self.select_tile(0, 0, widgets);
        proof {
            lemma_first_highlight(built_menu, built, before, cs);
            if before[0].widget.properties.origin.0 == 0 && self@.rows.len() > 0
                && widgets@[self@.rows[0].0.idx()].children.len() > 0 {
                lemma_built_row_laid_out(self@, widgets@, before, cs);
            }
        }
        Ok(())
    }

    /// Reacts to an input: the arrow keys move the highlight; closing the window
    /// or Escape quits; F11 toggles fullscreen.
    pub fn handle_input(&mut self, input: Input, widgets: &mut Widgets<WidgetKind>) -> (a: Action)
        requires
            old(self).wf(old(widgets)),
        ensures
            final(self).wf(final(widgets)),
            a == action_of(input),
            (final(self)@, final(widgets)@) == match input {
                Input::Up => selected_state(
                    old(self)@,
                    old(widgets)@,
                    if old(self)@.selected.0 > 0 { old(self)@.selected.0 - 1 } else { 0 },
                    old(self)@.selected.1 as int,
                ),
                Input::Down => selected_state(
                    old(self)@,
                    old(widgets)@,
                    old(self)@.selected.0 + 1,
                    old(self)@.selected.1 as int,
                ),
                Input::Left => moved_left(old(self)@, old(widgets)@),
                Input::Right => moved_right(old(self)@, old(widgets)@),
                _ => (old(self)@, old(widgets)@),
            },
    {
        match input {
            Input::Quit | Input::Escape => Action::Quit,
            Input::Up => {
                self.move_up(widgets);
                Action::Continue
            },
            Input::Down => {
                self.move_down(widgets);
                Action::Continue
            },
            Input::Left => {
                self.move_left(widgets);
                Action::Continue
            },
            Input::Right => {
                self.move_right(widgets);
                Action::Continue
            },
            Input::F11 => Action::Fullscreen(crate::app::Fullscreen::Toggle),
            Input::Other => Action::Continue,
        }
    }

    /// Moves the highlight one row up (staying on the first row).
    pub fn move_up(&mut self, widgets: &mut Widgets<WidgetKind>)
        requires
            old(self).wf(old(widgets)),
        ensures
            final(self).wf(final(widgets)),
            (final(self)@, final(widgets)@) == selected_state(
                old(self)@,
                old(widgets)@,
                if old(self)@.selected.0 > 0 { old(self)@.selected.0 - 1 } else { 0 },
                old(self)@.selected.1 as int,
            ),
    {
        let (row, column) = self.selected_tile;
        self.select_tile(row.saturating_sub(1), column, widgets);
    }

    /// Moves the highlight one row down.
    pub fn move_down(&mut self, widgets: &mut Widgets<WidgetKind>)
        requires
            old(self).wf(old(widgets)),
        ensures
            final(self).wf(final(widgets)),
            (final(self)@, final(widgets)@) == selected_state(
                old(self)@,
                old(widgets)@,
                old(self)@.selected.0 + 1,
                old(self)@.selected.1 as int,
            ),
    {
        let (row, column) = self.selected_tile;
        let n = self.rows.len();
        if row < usize::MAX && row + 1 < n {
            self.select_tile(row + 1, column, widgets);
        }
    }

    /// Moves the highlight one tile left (staying on the first tile).
    pub fn move_left(&mut self, widgets: &mut Widgets<WidgetKind>)
        requires
            old(self).wf(old(widgets)),
        ensures
            final(self).wf(final(widgets)),
            (final(self)@, final(widgets)@) == moved_left(old(self)@, old(widgets)@),
    {
        reveal(moved_left);
        let (row, column) = self.selected_tile;
        self.select_tile(row, column.saturating_sub(1), widgets);
    }

    /// Moves the highlight one tile right.
    pub fn move_right(&mut self, widgets: &mut Widgets<WidgetKind>)
        requires
            old(self).wf(old(widgets)),
        ensures
            final(self).wf(final(widgets)),
            (final(self)@, final(widgets)@) == moved_right(old(self)@, old(widgets)@),
    {
        reveal(moved_right);
        let (row, column) = self.selected_tile;
        if column < usize::MAX {
            self.select_tile(row, column + 1, widgets);
        } else {
            proof {
                if row < self@.rows.len() {
                    let a = self@.rows[row as int].0.idx();
                    assert(widgets@[a].children.len() < widgets@.len());
                }
            }
        }
    }

    /// Selects the tile at `column` of `row`, as `selected_state` describes.
    #[verifier::rlimit(40)]
    pub fn select_tile(&mut self, row: usize, column: usize, widgets: &mut Widgets<WidgetKind>)
        requires
            old(self).wf(old(widgets)),
        ensures
            final(self).wf(final(widgets)),
            (final(self)@, final(widgets)@) == selected_state(old(self)@, old(widgets)@, row as int, column as int),
            same_shape(old(widgets)@, final(widgets)@),
    {
        let ghost m = self@;
        let ghost nodes = widgets@;
        if row >= self.rows.len() {
            return;
        }
        let (cur_row, cur_column) = self.selected_tile;
        let (cur_anchor, cur_offset) = self.rows[cur_row];
        let (anchor_id, offset) = self.rows[row];
        assert(0 <= m.rows[row as int].0.idx() < nodes.len());
        assert(0 <= m.rows[cur_row as int].0.idx() < nodes.len());
        let n_tiles = widgets.get_children_of(anchor_id).len();
        let wanted = column as i128 + cur_offset as i128 - offset as i128;
        if wanted < 0 || wanted >= n_tiles as i128 {
            return;
        }
        let col = find_tile_index(column, cur_offset, offset);
        let tile_id = widgets.get_children_of(anchor_id)[col];
        assert(tile_id.idx() == tile_of(m, nodes, row as int, col as int));
        assert(0 < tile_id.idx() < nodes.len());

        // The current tile loses the highlight.
        if cur_column < widgets.get_children_of(cur_anchor).len() {
            let cur_tile = widgets.get_children_of(cur_anchor)[cur_column];
            assert(cur_tile.idx() == tile_of(m, nodes, cur_row as int, cur_column as int));
            let tile = widgets.get_mut(cur_tile);
            let (width, height) = tile.bounds();
            if width == ENLARGED_WIDTH && height == ENLARGED_HEIGHT {
                tile.set_bounds(TILE_WIDTH, TILE_HEIGHT);
                let (x, y) = tile.origin();
                tile.set_origin(clamp(x as i64 + GROW_DX as i64), clamp(y as i64 + GROW_DY as i64));
            }
            tile.clear_border();
        }

        // The new tile gains it.
        let tile = widgets.get_mut(tile_id);
        let (width, height) = tile.bounds();
        if width == TILE_WIDTH && height == TILE_HEIGHT {
            tile.set_bounds(ENLARGED_WIDTH, ENLARGED_HEIGHT);
            let (x, y) = tile.origin();
            tile.set_origin(clamp(x as i64 - GROW_DX as i64), clamp(y as i64 - GROW_DY as i64));
        }
        tile.set_border(Color::white(), CURSOR_BORDER_WIDTH);
        let (new_x, new_y) = tile.origin();
        let ghost n2 = widgets@;
        assert(n2 == highlighted(m, nodes, tile_id.idx()));
        proof {
            assert(same_shape(nodes, n2));
            lemma_same_shape(nodes, n2);
        }

        // The grid scrolls up or down, if the new tile is past the middle.
        let (root_x, root_y) = widgets.get(WidgetId::root()).origin();
        let (root_w, root_h) = widgets.get(WidgetId::root()).bounds();
        let (anchor_x, _) = widgets.get(anchor_id).origin();
        let mut dy: i32 = 0;
        if cur_row > row {
            let (_, grid_y) = widgets.get(self.grid_root).origin();
            if (new_y as i64 + TILE_HEIGHT as i64) < (root_h / 2) as i64 && grid_y < root_y {
                dy = ROW_HEIGHT as i32;
            }
        } else if cur_row < row {
            if new_y as i64 - TILE_HEIGHT as i64 > (root_h / 2) as i64 {
                dy = -(ROW_HEIGHT as i32);
            }
        }
        assert(dy == vertical_scroll(m, n2, row as int, new_y as int));
        if dy != 0 && widgets.fits_translation(self.grid_root, 0, dy) {
            widgets.translate(self.grid_root, 0, dy);
        }
        let ghost n3 = widgets@;

        // The row scrolls left or right, if the new tile is past an edge.
        let mut dx: i32 = 0;
        if row == cur_row {
            if cur_column > col {
                if new_x < root_x && anchor_x < root_x && offset < isize::MAX {
                    dx = COLUMN_STEP;
                }
            } else if cur_column < col {
                if new_x as i64 + TILE_WIDTH as i64 > root_w as i64 && offset > isize::MIN {
                    dx = -COLUMN_STEP;
                }
            }
        }
        assert(dx == horizontal_scroll(m, n2, row as int, col as int, new_x as int));
        if dx != 0 && widgets.fits_translation(anchor_id, dx, 0) {
            widgets.translate(anchor_id, dx, 0);
            let new_offset = if dx > 0 {
                offset + 1
            } else {
                offset - 1
            };
            self.rows.set(row, (anchor_id, new_offset));
        }
        self.selected_tile = (row, col);
        proof {
            lemma_same_shape(nodes, widgets@);
        }
    }
}

} // verus!
