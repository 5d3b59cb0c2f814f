//! Scene, style and interaction tests.

use rice_ui::colors::Color;
use rice_ui::dense::DenseMap;
use rice_ui::dom::DOM;
use rice_ui::errors::UiError;
use rice_ui::fmt::format_indent;
use rice_ui::layout::Layout;
use rice_ui::size::Size;
use rice_ui::styles::{ComputedStyle, StyleProp, StyleSheet, StyleValue};

fn color(r: u8, g: u8, b: u8) -> Color {
    Color { r, g, b, a: 255 }
}

fn sheet_with(
    default: Option<Color>,
    hovered: Option<Color>,
    clicked: Option<Color>,
) -> StyleSheet {
    let mut sheet = StyleSheet::new();
    let key = StyleProp::BackgroundColor.key();
    if let Some(c) = default {
        sheet.default.set(key, StyleValue::Color(c));
    }
    if let Some(c) = hovered {
        sheet.hovered.set(key, StyleValue::Color(c));
    }
    if let Some(c) = clicked {
        sheet.clicked.set(key, StyleValue::Color(c));
    }
    sheet
}

/// A scene with a full-window root and two stacked 50x50 children.
fn two_box_scene(child1: StyleSheet, child2: StyleSheet) -> (DOM, usize, usize) {
    let mut dom = DOM::new();
    let root = dom
        .insert(Layout::new(Size::Fixed(100), Size::Fixed(100)), StyleSheet::new())
        .unwrap();
    let a = dom
        .insert_child(Layout::new(Size::Fixed(50), Size::Fixed(50)), child1, root)
        .unwrap();
    let b = dom
        .insert_child(Layout::new(Size::Fixed(50), Size::Fixed(50)), child2, root)
        .unwrap();
    dom.compute_layout(root).unwrap();
    (dom, a, b)
}

#[test]
fn test_dense_map_basic() {
    let mut map: DenseMap<u32> = DenseMap::new();
    assert!(map.is_empty());
    // keys set out of order still come back right
    map.set(9, 900);
    map.set(3, 300);
    map.set(30, 3000);
    assert!(!map.is_empty());
    assert_eq!(map.get(3), Some(&300));
    assert_eq!(map.get(9), Some(&900));
    assert_eq!(map.get(30), Some(&3000));
    assert_eq!(map.get(4), None);
    // update in place
    map.set(9, 901);
    assert_eq!(map.get(9), Some(&901));
    // remove
    assert_eq!(map.remove(3), Some(300));
    assert_eq!(map.get(3), None);
    assert_eq!(map.get(9), Some(&901));
    assert_eq!(map.get(30), Some(&3000));
    assert_eq!(map.remove(3), None);
}

#[test]
fn test_dense_map_iter() {
    let mut map: DenseMap<u32> = DenseMap::new();
    map.set(17, 1700);
    map.set(2, 200);
    map.set(63, 6300);
    let mut it = map.iter();
    // entries come out in ascending key order
    assert_eq!(it.next(), Some((2, &200)));
    assert_eq!(it.next(), Some((17, &1700)));
    assert_eq!(it.next(), Some((63, &6300)));
    assert_eq!(it.next(), None);
}

#[test]
fn test_from_hex() {
    let c = Color::from_hex("#20a0ff");
    assert_eq!((c.r, c.g, c.b, c.a), (0x20, 0xa0, 0xff, 255));
    let c = Color::from_hex("20A0FF");
    assert_eq!((c.r, c.g, c.b, c.a), (0x20, 0xa0, 0xff, 255));
    let c = Color::from_hex("#20a0ff80");
    assert_eq!((c.r, c.g, c.b, c.a), (0x20, 0xa0, 0xff, 0x80));
    // a malformed digit pair falls back per channel
    let c = Color::from_hex("#zz11ff");
    assert_eq!((c.r, c.g, c.b, c.a), (0, 0x11, 0xff, 255));
    // any other length is opaque black
    let c = Color::from_hex("#123");
    assert_eq!((c.r, c.g, c.b, c.a), (0, 0, 0, 255));
    // repeated leading hashes are all trimmed
    let c = Color::from_hex("##102030");
    assert_eq!((c.r, c.g, c.b, c.a), (0x10, 0x20, 0x30, 255));
}

#[test]
fn test_format_indent() {
    assert_eq!(format_indent(0), Vec::<u8>::new());
    assert_eq!(format_indent(3), vec![32u8; 6]);
}

#[test]
fn test_unknown_style_property_rejected() {
    let mut bad = StyleSheet::new();
    bad.hovered.set(5, StyleValue::Color(color(1, 2, 3)));
    let mut dom = DOM::new();
    let r = dom.insert(Layout::default(), bad);
    assert_eq!(r, Err(UiError::UnknownStyleProperty));

    // the same rejection at cascade application time
    let mut bad = StyleSheet::new();
    bad.hovered.set(5, StyleValue::Color(color(1, 2, 3)));
    let mut style = ComputedStyle::default();
    assert_eq!(bad.apply_hovered(&mut style), Err(UiError::UnknownStyleProperty));
    assert_eq!(style, ComputedStyle::default());
}

#[test]
fn test_invalid_node_id_rejected() {
    let mut dom = DOM::new();
    assert_eq!(dom.compute_layout(0), Err(UiError::InvalidNodeId));
    let r = dom.insert_child(Layout::default(), StyleSheet::new(), 7);
    assert_eq!(r, Err(UiError::InvalidNodeId));

    let a = dom.insert(Layout::default(), StyleSheet::new()).unwrap();
    // a child under two parents would corrupt the tree: rejected
    let r = dom.insert_with_children(Layout::default(), StyleSheet::new(), vec![a, a]);
    assert_eq!(r, Err(UiError::InvalidNodeId));
    let p = dom
        .insert_with_children(Layout::default(), StyleSheet::new(), vec![a])
        .unwrap();
    let r = dom.insert_with_children(Layout::default(), StyleSheet::new(), vec![a]);
    assert_eq!(r, Err(UiError::InvalidNodeId));
    assert!(p > a);

    let mut arena = rice_ui::arena::Arena::new();
    assert_eq!(arena.compute_layout(3), Err(UiError::InvalidNodeId));
    assert_eq!(arena.insert_child(Layout::default(), 0), Err(UiError::InvalidNodeId));
}

#[test]
fn test_insert_applies_default_style() {
    let mut dom = DOM::new();
    let id = dom
        .insert(Layout::default(), sheet_with(Some(color(10, 20, 30)), None, None))
        .unwrap();
    assert_eq!(dom.styles[id].background_color, color(10, 20, 30));
    let bare = dom.insert(Layout::default(), StyleSheet::new()).unwrap();
    assert_eq!(dom.styles[bare].background_color, Color::default());
}

#[test]
fn test_hover_and_unhover() {
    let with_hover = sheet_with(Some(color(1, 1, 1)), Some(color(9, 9, 9)), None);
    let plain = StyleSheet::new();
    let (mut dom, a, _b) = two_box_scene(with_hover, plain);

    // over the first child: hover style applied
    dom.handle_mouse_moved([10, 10]);
    assert_eq!(dom.hovered, Some(a));
    assert_eq!(dom.styles[a].background_color, color(9, 9, 9));
    assert_eq!(dom.dirty, vec![a]);

    // over the second child: reset to the default map's value
    dom.handle_mouse_moved([10, 60]);
    assert_eq!(dom.styles[a].background_color, color(1, 1, 1));
    assert_eq!(dom.dirty, vec![a, a]);
}

#[test]
fn test_hover_reset_falls_back_to_base() {
    // the hover style exists but no default: leaving restores the hard-coded
    // base value
    let hover_only = sheet_with(None, Some(color(9, 9, 9)), None);
    let (mut dom, a, _b) = two_box_scene(hover_only, StyleSheet::new());

    dom.handle_mouse_moved([10, 10]);
    assert_eq!(dom.styles[a].background_color, color(9, 9, 9));
    dom.handle_mouse_moved([10, 60]);
    assert_eq!(dom.styles[a].background_color, Color::default());
}

#[test]
fn test_click_suppresses_hover() {
    let sheet_a = sheet_with(Some(color(1, 1, 1)), Some(color(2, 2, 2)), Some(color(3, 3, 3)));
    let sheet_b = sheet_with(Some(color(4, 4, 4)), Some(color(5, 5, 5)), None);
    let (mut dom, a, b) = two_box_scene(sheet_a, sheet_b);

    // press on the first child
    dom.handle_mouse_moved([10, 10]);
    dom.handle_mouse_clicked(true);
    assert_eq!(dom.clicked, Some(a));
    assert_eq!(dom.hovered, None);
    assert_eq!(dom.styles[a].background_color, color(3, 3, 3));

    // while clicked, pointer moves never touch hover state or styles
    let styles_before = dom.styles.clone();
    let dirty_before = dom.dirty.clone();
    dom.handle_mouse_moved([10, 60]);
    assert_eq!(dom.hovered, None);
    assert_eq!(dom.clicked, Some(a));
    assert_eq!(dom.styles, styles_before);
    assert_eq!(dom.dirty, dirty_before);

    // a second press while pressed is ignored
    dom.handle_mouse_clicked(true);
    assert_eq!(dom.clicked, Some(a));

    // release over the second child: click resets, hover lands there
    dom.handle_mouse_clicked(false);
    assert_eq!(dom.clicked, None);
    assert_eq!(dom.hovered, Some(b));
    assert_eq!(dom.styles[a].background_color, color(1, 1, 1));
    assert_eq!(dom.styles[b].background_color, color(5, 5, 5));
}

#[test]
fn test_reset_mouse() {
    let sheet_a = sheet_with(Some(color(1, 1, 1)), Some(color(2, 2, 2)), Some(color(3, 3, 3)));
    let (mut dom, a, _b) = two_box_scene(sheet_a, StyleSheet::new());

    dom.handle_mouse_moved([10, 10]);
    dom.handle_mouse_clicked(true);
    dom.reset_mouse();
    assert_eq!(dom.clicked, None);
    assert_eq!(dom.hovered, None);
    assert_eq!(dom.mouse, [-1, -1]);
    assert_eq!(dom.styles[a].background_color, color(1, 1, 1));
}

#[test]
fn test_hit_deepest_earliest_sibling() {
    // two overlapping children: the earliest-declared sibling wins
    let mut dom = DOM::new();
    let root = dom
        .insert(Layout::new(Size::Fixed(100), Size::Fixed(100)), StyleSheet::new())
        .unwrap();
    let a = dom
        .insert_child(
            Layout::new(Size::Fixed(100), Size::Fixed(100)),
            sheet_with(None, Some(color(1, 1, 1)), None),
            root,
        )
        .unwrap();
    let _b = dom
        .insert_child(
            Layout::new(Size::Fixed(100), Size::Fixed(100)),
            sheet_with(None, Some(color(2, 2, 2)), None),
            root,
        )
        .unwrap();
    dom.compute_layout(root).unwrap();
    // the bottom edge of the first child touches the top edge of the second:
    // both contain the point, the earliest-declared sibling wins
    dom.handle_mouse_moved([10, 100]);
    assert_eq!(dom.hovered, Some(a));
}

#[test]
fn test_redraw_dedup() {
    // marking a node and one of its descendants dirty keeps the redraw list
    // free of duplicates, the ancestor first
    let mut dom = DOM::new();
    let root = dom
        .insert(Layout::new(Size::Fixed(100), Size::Fixed(100)), StyleSheet::new())
        .unwrap();
    let mid = dom
        .insert_child(Layout::new(Size::Fixed(50), Size::Fixed(50)), StyleSheet::new(), root)
        .unwrap();
    let leaf = dom
        .insert_child(Layout::new(Size::Fixed(25), Size::Fixed(25)), StyleSheet::new(), mid)
        .unwrap();
    let side = dom
        .insert_child(Layout::new(Size::Fixed(25), Size::Fixed(25)), StyleSheet::new(), root)
        .unwrap();

    dom.dirty.push(mid);
    dom.dirty.push(leaf);
    let redraw = dom.compute_redraw().clone();
    assert_eq!(redraw, vec![mid, leaf]);
    assert_eq!(dom.dirty, Vec::<usize>::new());

    // a dirty root covers everything, once, parents before children
    dom.dirty.push(root);
    dom.dirty.push(leaf);
    let redraw = dom.compute_redraw().clone();
    assert_eq!(redraw, vec![root, mid, leaf, side]);
}

#[test]
fn test_redraw_clean_tree_is_empty() {
    let mut dom = DOM::new();
    let root = dom
        .insert(Layout::new(Size::Fixed(100), Size::Fixed(100)), StyleSheet::new())
        .unwrap();
    dom.insert_child(Layout::default(), StyleSheet::new(), root)
        .unwrap();
    assert_eq!(dom.compute_redraw().len(), 0);
}

#[test]
fn test_percent_sizing() {
    let mut arena = rice_ui::arena::Arena::new();
    let root = arena.insert(Layout::new(Size::Fixed(1000), Size::Fixed(800)));
    let child = arena
        .insert_child(Layout::new(Size::Percent(500), Size::Percent(250)), root)
        .unwrap();
    arena.compute_layout(root).unwrap();
    assert_eq!(arena.rects[child].width(), 500);
    assert_eq!(arena.rects[child].height(), 200);
}

#[test]
fn test_style_reset_both_tiers() {
    // present in both maps: reset restores the default map's value;
    // present only in hovered: reset restores the base value
    let both = sheet_with(Some(color(7, 7, 7)), Some(color(8, 8, 8)), None);
    let mut style = ComputedStyle::default();
    both.apply_default(&mut style).unwrap();
    assert_eq!(style.background_color, color(7, 7, 7));
    assert!(both.apply_hovered(&mut style).unwrap());
    assert_eq!(style.background_color, color(8, 8, 8));
    assert!(both.reset_hover(&mut style).unwrap());
    assert_eq!(style.background_color, color(7, 7, 7));

    let hover_only = sheet_with(None, Some(color(8, 8, 8)), None);
    let mut style = ComputedStyle::default();
    hover_only.apply_default(&mut style).unwrap();
    assert!(hover_only.apply_hovered(&mut style).unwrap());
    assert_eq!(style.background_color, color(8, 8, 8));
    assert!(hover_only.reset_hover(&mut style).unwrap());
    assert_eq!(style.background_color, Color::default());

    // an empty map applies and resets nothing
    let empty = StyleSheet::new();
    let mut style = ComputedStyle::default();
    assert!(!empty.apply_hovered(&mut style).unwrap());
    assert!(!empty.reset_hover(&mut style).unwrap());
}

#[test]
fn test_style_prop_from_key() {
    assert_eq!(StyleProp::from_key(0), Ok(StyleProp::BackgroundColor));
    assert_eq!(StyleProp::from_key(1), Err(UiError::UnknownStyleProperty));
    assert_eq!(StyleProp::from_key(63), Err(UiError::UnknownStyleProperty));
}
