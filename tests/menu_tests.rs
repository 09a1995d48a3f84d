use dss_menu::app::Action;
use dss_menu::fetcher::FetchStatus;
use dss_menu::menu::{
    find_tile_index, get_menu_rows, get_row_title, get_tile_image_url, pending_locator,
    update_thumbnail, Input, Menu, MenuError, Thumbnail, WidgetKind, ENLARGED_HEIGHT,
    ENLARGED_WIDTH, TILE_HEIGHT, TILE_WIDTH,
};
use dss_menu::schema::{
    Collection, CollectionInner, Container, ContentSet, Home, ImageContent, ImageKind, ImageTile,
    Language, Meta, ProgramType, Text, TextContent, TitleEntry, TitleKind, Titles,
};
use dss_menu::widget::{Color, WidgetId, Widgets};

const FIRST_TILE_URL: &str = "https://prod-ripcut-delivery.disney-plus.net/v1/variant/disney/3C33485A3043C22B8C89E131693E8B5B9306DAA4E48612A655560752977728A6/scale?format=jpeg&quality=90&scalingAlgorithm=lanczos3&width=500";

fn title(kind: TitleKind, content: &str) -> Text {
    Text {
        title: Titles(vec![(
            kind,
            TitleEntry::Collection {
                default: TextContent { content: content.to_string(), language: Language::English },
            },
        )]),
    }
}

fn tile(name: &str, url: &str) -> Collection {
    let image = ImageTile(vec![(
        "1.78".to_string(),
        ImageKind::Program {
            default: ImageContent { master_height: 1080, master_width: 1920, url: url.to_string() },
        },
    )]);
    Collection {
        inner: CollectionInner::DmcVideo { program_type: ProgramType::Movie },
        image: vec![("tile".to_string(), image)],
        text: title(TitleKind::Full, name),
        video_art: Vec::new(),
    }
}

fn curated_row(row_title: &str, n: usize) -> Container {
    let items = (0..n)
        .map(|j| tile(&format!("item {}", j), &format!("https://example.com/{}.jpg", j)))
        .collect();
    Container {
        set: ContentSet::CuratedSet {
            items,
            meta: Meta { hits: n as u32, offset: 0, page_size: 15 },
            text: title(TitleKind::Full, row_title),
        },
    }
}

fn home_with(rows: Vec<Container>) -> Home {
    let collection = Collection {
        inner: CollectionInner::StandardCollection { collection_id: 7, containers: rows },
        image: Vec::new(),
        text: title(TitleKind::Slug, "home"),
        video_art: Vec::new(),
    };
    Home { data: vec![("StandardCollection".to_string(), collection)] }
}

fn sample_home() -> Home {
    let mut first = curated_row("New to Disney+", 3);
    if let ContentSet::CuratedSet { items, .. } = &mut first.set {
        items[0] = tile("first", FIRST_TILE_URL);
    }
    home_with(vec![first, curated_row("Trending", 2)])
}

fn built_menu(rows: Vec<Container>, width: u32) -> (Menu, Widgets<WidgetKind>) {
    let mut widgets = Widgets::new(WidgetKind::new_root(width, 1080));
    let mut menu = Menu::new();
    menu.initialize(&mut widgets, &home_with(rows)).expect("menu builds");
    (menu, widgets)
}

fn selected_id(menu: &Menu, widgets: &Widgets<WidgetKind>) -> WidgetId {
    let (row, column) = menu.selected_tile();
    widgets.get_children_of(menu.row(row).0)[column]
}

#[test]
fn computes_adjacent_tile_index() {
    let requested_column = 4;
    let cur_scroll_offset = -1;
    let adj_scroll_offset = 1;
    assert_eq!(find_tile_index(requested_column, cur_scroll_offset, adj_scroll_offset), 2);
}

#[test]
fn gets_menu_rows() {
    let h = sample_home();
    let rows = get_menu_rows(&h).expect("failed to get home menu rows");
    assert_eq!(rows.len(), 2);
}

#[test]
fn gets_row_title() {
    let h = sample_home();
    let rows = get_menu_rows(&h).expect("failed to get home menu rows");
    let (i, first) = rows.iter().enumerate().next().expect("must not be empty");
    let title = get_row_title(first, i).expect("failed to retrieve home menu rows");
    assert_eq!(title, "New to Disney+");
}

#[test]
fn gets_tile_image_url() {
    let h = sample_home();
    let rows = get_menu_rows(&h).expect("failed to get home menu rows");
    let first = rows.iter().next().expect("must not be empty");
    let url = match &first.set {
        ContentSet::SetRef { .. } => panic!("expected `CuratedSet`, found `SetRef`"),
        ContentSet::CuratedSet { items, .. } => get_tile_image_url(&items[0]).expect("image not found"),
    };
    assert_eq!(url.as_str(), FIRST_TILE_URL);
}

#[test]
fn tile_url_is_canonicalized() {
    let t = tile("odd", "HTTPS://Example.COM/a/../b.jpg");
    assert_eq!(get_tile_image_url(&t).unwrap(), "https://example.com/b.jpg");
}

#[test]
fn missing_rows_key_is_an_error() {
    let h = Home { data: Vec::new() };
    assert_eq!(get_menu_rows(&h).err(), Some(MenuError::MissingRows));
}

#[test]
fn non_standard_collection_is_an_error() {
    let h = Home { data: vec![("StandardCollection".to_string(), tile("x", "https://a.com/"))] };
    assert_eq!(get_menu_rows(&h).err(), Some(MenuError::NotStandardCollection));
}

#[test]
fn row_without_full_title_is_an_error() {
    let row = Container {
        set: ContentSet::SetRef { ref_id: 3, text: title(TitleKind::Slug, "slug") },
    };
    assert_eq!(get_row_title(&row, 5).err(), Some(MenuError::MissingRowTitle(5)));
}

#[test]
fn tile_image_errors() {
    let mut t = tile("Bambi", "https://a.com/x.jpg");
    (t.image[0].1).0[0].0 = "1.33".to_string();
    assert_eq!(get_tile_image_url(&t).err(), Some(MenuError::MissingAspectRatio("Bambi".to_string())));
    t.image[0].0 = "hero".to_string();
    assert_eq!(get_tile_image_url(&t).err(), Some(MenuError::MissingTileImage("Bambi".to_string())));
    t.text = title(TitleKind::Slug, "bambi");
    assert_eq!(get_tile_image_url(&t).err(), Some(MenuError::MissingTileImage("unknown".to_string())));
    let bad = tile("Dumbo", "not a url");
    assert_eq!(get_tile_image_url(&bad).err(), Some(MenuError::InvalidImageUrl("not a url".to_string())));
}

#[test]
fn initialize_reports_document_errors() {
    let mut widgets = Widgets::new(WidgetKind::new_root(1920, 1080));
    let mut menu = Menu::new();
    assert_eq!(menu.initialize(&mut widgets, &Home { data: Vec::new() }), Err(MenuError::MissingRows));
    let mut row = curated_row("Row", 2);
    if let ContentSet::CuratedSet { items, .. } = &mut row.set {
        items[1] = tile("broken", "::");
    }
    let mut widgets = Widgets::new(WidgetKind::new_root(1920, 1080));
    let mut menu = Menu::new();
    assert_eq!(
        menu.initialize(&mut widgets, &home_with(vec![row])),
        Err(MenuError::InvalidImageUrl("::".to_string()))
    );
    // What was built before the failure stays: the grid, the label, the anchor and the first tile.
    assert_eq!(widgets.len(), 5);
    assert_eq!(widgets.get_children_of(widgets.root()), &[WidgetId(1)]);
    assert_eq!(widgets.get(widgets.root()).bounds(), (1920, 1080));
}

#[test]
fn tiles_are_laid_out_left_to_right() {
    let (menu, widgets) = built_menu(vec![curated_row("A", 4)], 1920);
    let anchor = menu.row(0).0;
    assert_eq!(menu.row(0).1, 0);
    for (j, id) in widgets.get_children_of(anchor).iter().enumerate() {
        let (x, y) = widgets.get(*id).origin();
        if j == 0 {
            assert_eq!((x, y), (52 - 25, 141 - 14));
        } else {
            assert_eq!((x, y), (52 + 528 * j as i32, 141));
            assert_eq!(widgets.get(*id).bounds(), (TILE_WIDTH, TILE_HEIGHT));
            assert_eq!(widgets.get(*id).border(), None);
        }
    }
}

#[test]
fn assembles_two_rows_of_eleven() {
    let (mut menu, mut widgets) = built_menu(vec![curated_row("A", 11), curated_row("B", 11)], 1920);
    let root_children = widgets.get_children_of(widgets.root()).to_vec();
    assert_eq!(root_children.len(), 1);
    let grid = root_children[0];
    assert_eq!(grid, menu.grid_root());
    assert!(matches!(widgets.get(grid).content, WidgetKind::Anchor));
    let grid_children = widgets.get_children_of(grid).to_vec();
    assert_eq!(grid_children.len(), 4);
    let labels: Vec<_> = grid_children
        .iter()
        .filter(|id| matches!(widgets.get(**id).content, WidgetKind::Label { .. }))
        .collect();
    let anchors: Vec<_> = grid_children
        .iter()
        .filter(|id| matches!(widgets.get(**id).content, WidgetKind::Anchor))
        .collect();
    assert_eq!(labels.len(), 2);
    assert_eq!(anchors.len(), 2);
    for a in &anchors {
        assert_eq!(widgets.get_children_of(**a).len(), 11);
    }

    let first = widgets.get_children_of(*anchors[0])[0];
    assert_eq!(menu.selected_tile(), (0, 0));
    assert_eq!(widgets.get(first).bounds(), (ENLARGED_WIDTH, ENLARGED_HEIGHT));
    assert_eq!(widgets.get(first).origin(), (52 - 25, 68 + 55 + 18 - 14));
    assert_eq!(widgets.get(first).border(), Some((Color::white(), 10)));

    menu.move_down(&mut widgets);
    assert_eq!(menu.selected_tile(), (1, 0));
    let second = widgets.get_children_of(*anchors[1])[0];
    assert_eq!(widgets.get(second).bounds(), (ENLARGED_WIDTH, ENLARGED_HEIGHT));
    assert_eq!(widgets.get(second).border(), Some((Color::white(), 10)));
    assert_eq!(widgets.get(first).bounds(), (TILE_WIDTH, TILE_HEIGHT));
    assert_eq!(widgets.get(first).origin(), (52, 68 + 55 + 18));
    assert_eq!(widgets.get(first).border(), None);
}

#[test]
fn right_then_left_returns_to_start() {
    for width in [600u32, 1200, 1920, 4000] {
        let (mut menu, mut widgets) = built_menu(vec![curated_row("A", 6)], width);
        let anchor = menu.row(0).0;
        let start_x = widgets.get(anchor).origin().0;
        for _ in 0..3 {
            menu.move_right(&mut widgets);
        }
        assert_eq!(menu.selected_tile(), (0, 3));
        for _ in 0..3 {
            menu.move_left(&mut widgets);
        }
        assert_eq!(menu.selected_tile(), (0, 0));
        assert_eq!(menu.row(0).1, 0, "viewport width {}", width);
        assert_eq!(widgets.get(anchor).origin().0, start_x);
    }
}

#[test]
fn scroll_offset_counts_overflows() {
    // Tiles start at 52 + 528 * j; with a 1200 pixel wide root the third tile
    // (j = 2) is the first whose right edge would pass the root's.
    let (mut menu, mut widgets) = built_menu(vec![curated_row("A", 8)], 1200);
    let mut offsets = Vec::new();
    for _ in 0..5 {
        menu.move_right(&mut widgets);
        offsets.push(menu.row(0).1);
    }
    assert_eq!(offsets, vec![0, -1, -2, -3, -4]);
    assert_eq!(menu.selected_tile(), (0, 5));
    let selected = selected_id(&menu, &widgets);
    let (x, _) = widgets.get(selected).origin();
    assert!(x + TILE_WIDTH as i32 <= 1200);
}

#[test]
fn offsets_resolve_columns_across_rows() {
    let (mut menu, mut widgets) = built_menu(vec![curated_row("A", 8), curated_row("B", 8)], 1200);
    for _ in 0..3 {
        menu.move_right(&mut widgets);
    }
    assert_eq!(menu.row(0).1, -2);
    menu.move_down(&mut widgets);
    // Column 3 of a row scrolled by two maps to child 1 of an unscrolled row.
    assert_eq!(menu.selected_tile(), (1, 1));
    menu.move_up(&mut widgets);
    assert_eq!(menu.selected_tile(), (0, 3));
}

#[test]
fn moves_stop_at_edges() {
    let (mut menu, mut widgets) = built_menu(vec![curated_row("A", 2)], 1920);
    menu.move_up(&mut widgets);
    menu.move_left(&mut widgets);
    assert_eq!(menu.selected_tile(), (0, 0));
    menu.move_down(&mut widgets);
    assert_eq!(menu.selected_tile(), (0, 0));
    menu.move_right(&mut widgets);
    menu.move_right(&mut widgets);
    assert_eq!(menu.selected_tile(), (0, 1));
}

#[test]
fn inputs_map_to_actions() {
    let (mut menu, mut widgets) = built_menu(vec![curated_row("A", 3)], 1920);
    assert_eq!(menu.handle_input(Input::Right, &mut widgets), Action::Continue);
    assert_eq!(menu.selected_tile(), (0, 1));
    assert_eq!(menu.handle_input(Input::Escape, &mut widgets), Action::Quit);
    assert_eq!(menu.handle_input(Input::Quit, &mut widgets), Action::Quit);
    assert_eq!(
        menu.handle_input(Input::F11, &mut widgets),
        Action::Fullscreen(dss_menu::app::Fullscreen::Toggle)
    );
    assert_eq!(menu.handle_input(Input::Other, &mut widgets), Action::Continue);
    assert_eq!(menu.selected_tile(), (0, 1));
}

#[test]
fn thumbnails_follow_fetch_answers() {
    let mut w = WidgetKind::new_tile(0, 0, "https://a.com/t.jpg".to_string());
    w.properties.invalidated = false;
    assert_eq!(pending_locator(&w).map(|s| s.as_str()), Some("https://a.com/t.jpg"));
    update_thumbnail(&mut w, FetchStatus::Pending);
    assert!(!w.properties.invalidated);
    update_thumbnail(&mut w, FetchStatus::Failed("timeout".to_string()));
    assert!(w.properties.invalidated);
    assert!(pending_locator(&w).is_some());
    w.properties.invalidated = false;
    update_thumbnail(&mut w, FetchStatus::Ready("/tmp/t.jpg".to_string()));
    assert!(w.properties.invalidated);
    assert!(matches!(&w.content, WidgetKind::Tile { image: Thumbnail::Ready(p) } if p == "/tmp/t.jpg"));
    assert!(pending_locator(&w).is_none());
}

#[test]
fn widget_constructors() {
    let label = WidgetKind::new_label("Hi".to_string(), 42, 52, 68, 1920);
    assert_eq!(label.bounds(), (1920, 55));
    assert_eq!(label.origin(), (52, 68));
    let anchor = WidgetKind::new_anchor(3, 4);
    assert!(anchor.is_hidden());
    assert_eq!(anchor.bounds(), (1, 1));
    let root = WidgetKind::new_root(800, 600);
    assert_eq!(root.color(), Color::rgb(7, 27, 15));
    let t = WidgetKind::new_tile(1, 2, "u".to_string());
    assert_eq!(t.color(), Color::rgb(23, 126, 127));
    assert_eq!(t.bounds(), (TILE_WIDTH, TILE_HEIGHT));
}
