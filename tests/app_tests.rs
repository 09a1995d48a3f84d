use dss_menu::app::{next_fullscreen, App, Fullscreen, FullscreenMode};
use dss_menu::schema::{Collection, CollectionInner, CollectionKind, ImageContent, ImageKind, ImageTile, Language, TextContent, Text, TitleEntry, TitleKind, Titles, ProgramType};

#[test]
fn fullscreen_transitions() {
    assert_eq!(next_fullscreen(Fullscreen::On, FullscreenMode::Off), FullscreenMode::True);
    assert_eq!(next_fullscreen(Fullscreen::On, FullscreenMode::Desktop), FullscreenMode::Desktop);
    assert_eq!(next_fullscreen(Fullscreen::On, FullscreenMode::True), FullscreenMode::True);
    assert_eq!(next_fullscreen(Fullscreen::Off, FullscreenMode::Desktop), FullscreenMode::Off);
    assert_eq!(next_fullscreen(Fullscreen::Toggle, FullscreenMode::Off), FullscreenMode::True);
    assert_eq!(next_fullscreen(Fullscreen::Toggle, FullscreenMode::True), FullscreenMode::Off);
    assert_eq!(next_fullscreen(Fullscreen::Toggle, FullscreenMode::Desktop), FullscreenMode::Off);
}

#[test]
fn app_keeps_its_parts() {
    let app = App::new(5u8, "root");
    assert_eq!(app.error_message_box(), None);
    let app = app.with_error_message_box("Title");
    assert_eq!(app.error_message_box(), Some("Title"));
    assert_eq!(app.into_parts(), (5u8, "root"));
}

#[test]
fn schema_lookups() {
    let content = |url: &str| ImageContent { master_height: 1, master_width: 2, url: url.to_string() };
    let tile = ImageTile(vec![
        ("1.33".to_string(), ImageKind::Default { default: content("a") }),
        ("1.78".to_string(), ImageKind::Series { default: content("b") }),
        ("1.78".to_string(), ImageKind::Program { default: content("c") }),
    ]);
    assert_eq!(tile.get("1.78").map(|c| c.url.as_str()), Some("b"));
    assert!(tile.get("0.71").is_none());
    let text = |s: &str| TextContent { content: s.to_string(), language: Language::English };
    let titles = Titles(vec![
        (TitleKind::Slug, TitleEntry::Series { default: text("slug") }),
        (TitleKind::Full, TitleEntry::Program { default: text("Full") }),
    ]);
    assert_eq!(titles.get(TitleKind::Full).map(|t| t.content.as_str()), Some("Full"));
    let only_slug = Titles(vec![(TitleKind::Slug, TitleEntry::Series { default: text("s") })]);
    assert!(only_slug.get(TitleKind::Full).is_none());
    let c = Collection {
        inner: CollectionInner::DmcVideo { program_type: ProgramType::ShortForm },
        image: Vec::new(),
        text: Text { title: titles },
        video_art: Vec::new(),
    };
    assert_eq!(c.kind(), CollectionKind::DmcVideo);
    assert!(c.containers().is_none());
    let s = Collection {
        inner: CollectionInner::StandardCollection { collection_id: 1, containers: Vec::new() },
        image: Vec::new(),
        text: Text { title: Titles(Vec::new()) },
        video_art: Vec::new(),
    };
    assert_eq!(s.kind(), CollectionKind::Standard);
    assert_eq!(s.containers().map(|r| r.len()), Some(0));
}
