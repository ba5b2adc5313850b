use lithium::color::{parse_hex_byte, parse_hex_digit};
use lithium::input::{ButtonState, Key, Keyboard};
use lithium::rational::Rational;
use lithium::rect::{hash_combine, Rect};
use lithium::selector::Selector;
use lithium::symbol::Var;
use lithium::theme::{element_kind, style_variant};
use lithium::util::{IdIdentityHasher, IdIdentityHasherBuilder};
use lithium::vec2::{rescale, rescale_from_01, rescale_to_01, rescale_vec, Vec2};
use lithium::Id;

fn gri(n: i64) -> Rational {
    Rational::from_int(n)
}

fn gr(n: i64, d: i64) -> Rational {
    Rational::ratio(n, d)
}

#[test]
fn rect_corners_and_size() {
    let r = Rect { left: gri(10), right: gri(30), top: gri(5), bottom: gri(25) };
    assert!(r.width().unwrap().eq_rat(gri(20)));
    assert!(r.height().unwrap().eq_rat(gri(20)));
    let c = r.center().unwrap();
    assert!(c.x.eq_rat(gri(20)));
    assert!(c.y.eq_rat(gri(15)));
    let v0 = r.vertex(0);
    assert!(v0.x.eq_rat(gri(10)) && v0.y.eq_rat(gri(5)));
    let v2 = r.vertex(2);
    assert!(v2.x.eq_rat(gri(30)) && v2.y.eq_rat(gri(25)));
    assert!(r.contains(Vec2::new(gri(10), gri(5))));
    assert!(!r.contains(Vec2::new(gri(30), gri(5))));
    assert!(!r.contains(Vec2::new(gri(9), gri(6))));
    let s = r.size().unwrap();
    assert!(s.x.eq_rat(gri(20)) && s.y.eq_rat(gri(20)));
    let tl = r.top_left();
    assert!(tl.x.eq_rat(gri(10)) && tl.y.eq_rat(gri(5)));
    let rc = Rect::from_corners(Vec2::new(gri(1), gri(2)), Vec2::new(gri(3), gri(4)));
    assert!(rc.left.eq_rat(gri(1)) && rc.bottom.eq_rat(gri(4)));
    let rt = Rect::from_top_left_and_size(Vec2::new(gri(1), gri(2)), Vec2::new(gri(3), gri(4)))
        .unwrap();
    assert!(rt.right.eq_rat(gri(4)) && rt.bottom.eq_rat(gri(6)));
    let rh = Rect::from_center_and_half_size(Vec2::new(gri(5), gri(5)), Vec2::new(gri(2), gri(1)))
        .unwrap();
    assert!(rh.left.eq_rat(gri(3)) && rh.bottom.eq_rat(gri(6)));
}

#[test]
fn vec2_products() {
    let a = Vec2::new(gri(1), gri(2));
    let b = Vec2::new(gri(3), gri(4));
    assert!(Vec2::dot(a, b).unwrap().eq_rat(gri(11)));
    assert!(Vec2::cross(a, b).unwrap().eq_rat(gri(-2)));
    assert!(b.norm_squared().unwrap().eq_rat(gri(25)));
    let z: Vec2<Rational> = Vec2::zero();
    assert!(z.x.is_zero());
    let arr = a.into_array();
    assert!(arr[0].eq_rat(gri(1)) && arr[1].eq_rat(gri(2)));
}

#[test]
fn rescaling_round_trips() {
    // 15 in [10, 20] sits at 1/2, and mapped into [0, 100] at 50.
    let half = rescale_to_01(gri(15), (gri(10), gri(20))).unwrap();
    assert!(half.eq_rat(gr(1, 2)));
    let back = rescale_from_01(half, (gri(10), gri(20))).unwrap();
    assert!(back.eq_rat(gri(15)));
    let mapped = rescale(gri(15), (gri(10), gri(20)), (gri(0), gri(100))).unwrap();
    assert!(mapped.eq_rat(gri(50)));
}

#[test]
fn rescaling_maps_between_rectangles() {
    let from = Rect { left: gri(0), right: gri(10), top: gri(0), bottom: gri(10) };
    let to = Rect { left: gri(100), right: gri(200), top: gri(50), bottom: gri(150) };
    let p = rescale_vec(Vec2::new(gri(5), gri(1)), from, to).unwrap();
    assert!(p.x.eq_rat(gri(150)));
    assert!(p.y.eq_rat(gri(60)));
}

#[test]
fn rescaling_overflow_is_checked() {
    // A span wider than the 64-bit rational range cannot be normalized.
    let big = Rational::from_int(i64::MAX);
    let small = Rational::from_int(-i64::MAX);
    assert!(rescale_to_01(big, (small, big)).is_none());
    // An in-range request on the same operands still succeeds.
    assert!(rescale_to_01(gri(0), (gri(-10), gri(10))).unwrap().eq_rat(gr(1, 2)));
}

#[test]
fn edge_variables_differ_per_edge() {
    let rect: Rect<Var> = Rect::from(Id(77, 78));
    assert_ne!(rect.left, rect.right);
    assert_ne!(rect.top, rect.bottom);
    assert_ne!(rect.left, rect.top);
    // The derivation is deterministic.
    let again: Rect<Var> = Rect::from(Id(77, 78));
    assert_eq!(rect.left, again.left);
    assert_eq!(hash_combine(77, 1), hash_combine(77, 1));
    assert_ne!(hash_combine(77, 1), hash_combine(78, 1));
}

#[test]
fn hex_digits_parse_exactly() {
    assert_eq!(parse_hex_digit(b'0'), Ok(0));
    assert_eq!(parse_hex_digit(b'9'), Ok(9));
    // Letters map to their alphabet offsets, as this parser has always read them.
    assert_eq!(parse_hex_digit(b'a'), Ok(0));
    assert_eq!(parse_hex_digit(b'f'), Ok(5));
    assert_eq!(parse_hex_digit(b'A'), Ok(0));
    assert_eq!(parse_hex_digit(b'g'), Err(()));
    assert_eq!(parse_hex_byte(b'1', b'2'), Ok(0x12));
    assert_eq!(parse_hex_byte(b'9', b'9'), Ok(0x99));
    assert_eq!(parse_hex_byte(b'1', b'x'), Err(()));
}

#[test]
fn keyboard_tracks_key_states() {
    let mut kb = Keyboard::new();
    kb.press(Key::A);
    assert_eq!(kb.key_state(Key::A), ButtonState::JustPressed);
    assert!(kb.is_pressed(Key::A));
    assert!(!kb.is_pressed(Key::B));
    kb.advance();
    assert_eq!(kb.key_state(Key::A), ButtonState::Pressed);
    kb.release(Key::A);
    assert_eq!(kb.key_state(Key::A), ButtonState::JustReleased);
    assert!(!kb.is_pressed(Key::A));
    kb.advance();
    assert_eq!(kb.key_state(Key::A), ButtonState::Released);
    kb.press(Key::Left);
    kb.press(Key::Right);
    assert_eq!(kb.all_just_pressed().len(), 2);
    kb.advance();
    assert_eq!(kb.all_pressed().len(), 2);
    assert_eq!(kb.all_just_pressed().len(), 0);
}

#[test]
fn keyboard_collects_text() {
    let mut kb = Keyboard::new();
    kb.enter_char('h');
    kb.enter_str("i!");
    assert_eq!(kb.entered(), &['h', 'i', '!']);
    kb.advance();
    assert_eq!(kb.entered().len(), 0);
}

#[test]
fn button_state_advances() {
    let mut b = ButtonState::JustPressed;
    b.advance();
    assert_eq!(b, ButtonState::Pressed);
    let mut b2 = ButtonState::JustReleased;
    b2.advance();
    assert_eq!(b2, ButtonState::Released);
    assert!(ButtonState::JustPressed.is_pressed());
    assert!(!ButtonState::JustReleased.is_pressed());
}

#[test]
fn selectors_match_targets() {
    let kind = element_kind("Button");
    let other_kind = element_kind("Panel");
    let variant = style_variant("error");
    let s1 = Selector::ElementKind(kind);
    let s2 = Selector::StyleVariant(variant);
    let s3 = Selector::Full(variant, kind);
    assert_eq!(s1.specificity(), 0);
    assert_eq!(s2.specificity(), 1);
    assert_eq!(s3.specificity(), 2);
    assert!(s1.matches((variant, kind)));
    assert!(!s1.matches((variant, other_kind)));
    assert!(s2.matches((variant, other_kind)));
    assert!(s3.matches((variant, kind)));
    assert!(!s3.matches((style_variant("default"), kind)));
}

#[test]
fn click_area_reports_once() {
    let mut area = lithium::widgets::ClickArea::new();
    assert!(!area.clicked());
    area.record_click();
    assert!(area.clicked());
    assert!(!area.clicked());
    let d = lithium::widgets::Dummy::new();
    let d2 = lithium::widgets::Dummy::new();
    // Fresh widgets draw fresh identifiers.
    assert_ne!(d.id(), d2.id());
}

#[test]
fn identity_hasher_folds_words() {
    let builder = IdIdentityHasherBuilder;
    let mut h: IdIdentityHasher = builder.build_hasher();
    h.write_u64(0xff00);
    h.write_u64(0x00ff);
    assert_eq!(h.finish(), 0xffff);
}
