use dss_menu::widget::{Color, Properties, RenderStep, Widget, WidgetId, Widgets};

fn plain(x: i32, y: i32) -> Widget<u8> {
    let mut p = Properties::default();
    p.origin = (x, y);
    p.bounds = (10, 20);
    Widget::new(p, 0)
}

fn clear_flags(w: &mut Widgets<u8>) {
    for i in 0..w.len() {
        w.get_mut(WidgetId(i as u32)).properties.invalidated = false;
    }
}

#[test]
fn children_come_in_insertion_order() {
    let mut w = Widgets::new(plain(0, 0));
    let a = w.insert(plain(1, 1), w.root());
    let b = w.insert(plain(2, 2), a);
    let c = w.insert(plain(3, 3), w.root());
    let d = w.insert(plain(4, 4), a);
    assert_eq!(w.get_children_of(w.root()), &[a, c]);
    assert_eq!(w.get_children_of(a), &[b, d]);
    assert!(w.get_children_of(d).is_empty());
    let ids = [a, b, c, d];
    for (k, id) in ids.iter().enumerate() {
        assert_eq!(id.0 as usize, k + 1);
    }
    assert_eq!(w.len(), 5);
}

#[test]
fn new_widgets_are_marked_for_drawing() {
    let mut w = Widgets::new(plain(0, 0));
    clear_flags(&mut w);
    assert!(!w.is_invalidated());
    let mut p = plain(5, 5);
    p.properties.invalidated = false;
    let id = w.insert(p, w.root());
    assert!(w.get(id).properties.invalidated);
    assert!(w.is_invalidated());
}

#[test]
fn zero_translation_changes_nothing() {
    let mut w = Widgets::new(plain(0, 0));
    let a = w.insert(plain(1, 1), w.root());
    clear_flags(&mut w);
    w.translate(a, 0, 0);
    assert_eq!(w.get(a).origin(), (1, 1));
    assert!(!w.is_invalidated());
}

#[test]
fn translation_moves_exactly_the_subtree() {
    let mut w = Widgets::new(plain(0, 0));
    let a = w.insert(plain(10, 10), w.root());
    let b = w.insert(plain(20, 20), a);
    let c = w.insert(plain(30, 30), b);
    let other = w.insert(plain(40, 40), w.root());
    clear_flags(&mut w);
    w.translate(a, -5, 7);
    assert_eq!(w.get(a).origin(), (5, 17));
    assert_eq!(w.get(b).origin(), (15, 27));
    assert_eq!(w.get(c).origin(), (25, 37));
    assert_eq!(w.get(other).origin(), (40, 40));
    assert_eq!(w.get(w.root()).origin(), (0, 0));
    for id in [a, b, c] {
        assert!(w.get(id).properties.invalidated);
    }
    assert!(!w.get(other).properties.invalidated);
    assert!(!w.get(w.root()).properties.invalidated);
}

#[test]
fn translation_fit_is_checked() {
    let mut w = Widgets::new(plain(0, 0));
    let a = w.insert(plain(10, 10), w.root());
    let _b = w.insert(plain(i32::MAX - 3, 0), a);
    assert!(w.fits_translation(a, 3, 0));
    assert!(!w.fits_translation(a, 4, 0));
    assert!(w.fits_translation(w.root(), -10, 0));
}

#[test]
fn render_plans_in_paint_order_and_clears_flags() {
    let mut w = Widgets::new(plain(0, 0));
    let hidden = w.insert(plain(1, 1), w.root());
    w.get_mut(hidden).set_hidden(true);
    let below = w.insert(plain(2, 2), hidden);
    let side = w.insert(plain(3, 3), w.root());
    w.get_mut(side).set_border(Color::white(), 0);
    let steps = w.draw();
    let order: Vec<WidgetId> = steps.iter().map(|s| s.id).collect();
    assert_eq!(order, vec![w.root(), below, side]);
    assert!(steps.iter().all(|s| s.redraw && s.new_texture));
    assert_eq!(steps[2].border, None);
    assert!(!w.get(below).properties.invalidated);
    assert!(w.get(hidden).properties.invalidated);
    assert!(!w.get(side).properties.invalidated);

    // A second pass redraws nothing and keeps every texture.
    let again = w.draw();
    assert_eq!(again.len(), 3);
    assert!(again.iter().all(|s| !s.redraw && !s.new_texture));

    // A resized widget gets a new texture and is redrawn; the others are only composed.
    w.get_mut(side).set_bounds(30, 30);
    w.get_mut(side).set_border(Color::rgb(1, 2, 3), 4);
    let third = w.draw();
    assert_eq!(
        third[2],
        RenderStep {
            id: side,
            origin: (3, 3),
            bounds: (30, 30),
            new_texture: true,
            redraw: true,
            border: Some((Color::rgb(1, 2, 3), 4)),
        }
    );
    assert!(!third[0].redraw && !third[1].redraw);
}

#[test]
fn widget_setters_mark_for_redraw() {
    let mut p = plain(0, 0);
    p.properties.invalidated = false;
    p.set_color(Color::rgb(9, 9, 9));
    assert!(p.properties.invalidated);
    assert_eq!(p.color(), Color::rgb(9, 9, 9));
    p.properties.invalidated = false;
    p.clear_border();
    assert!(p.properties.invalidated);
    p.properties.invalidated = false;
    p.set_hidden(true);
    assert!(!p.properties.invalidated);
    p.invalidate();
    assert!(p.properties.invalidated);
}
