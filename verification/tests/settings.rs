use kicad_spaghetti::settings::BoolResettable;
use kicad_spaghetti::settings::ColorModeResettable;
use kicad_spaghetti::settings::ColorThemeResettable;
use kicad_spaghetti::settings::RenderSettings;
use kicad_spaghetti::settings::Resettable;
use kicad_spaghetti::settings::U32Resettable;
use kicad_spaghetti::settings::UsizeResettable;
use kicad_spaghetti::theme::ColorMode;
use kicad_spaghetti::theme::ColorTheme;

#[test]
fn resettable_set_get_reset() {
    let mut r = U32Resettable::new(3);
    assert_eq!(r.get(), 3);
    r.set(7);
    assert_eq!(r.get(), 7);
    assert_eq!(r.default, 3);
    r.reset();
    assert_eq!(r.get(), 3);
}

#[test]
fn resettable_get_mut_edits_value_only() {
    let mut r = UsizeResettable::new(8);
    *r.get_mut() += 4;
    assert_eq!(r.get(), 12);
    assert_eq!(r.default, 8);
    r.reset();
    assert_eq!(r.value, 8);
}

#[test]
fn reset_after_many_edits_restores_creation_default() {
    let mut r = BoolResettable::new(true);
    r.set(false);
    *r.get_mut() = true;
    r.set(false);
    r.reset();
    assert!(r.get());
    let mut t = ColorThemeResettable::new(ColorTheme::Dark);
    t.set(ColorTheme::Light);
    t.set(ColorTheme::System);
    t.reset();
    assert_eq!(t.get(), ColorTheme::Dark);
}

#[test]
fn resettable_conversions() {
    let r: U32Resettable = 5u32.into();
    assert_eq!(r, U32Resettable { value: 5, default: 5 });
    let mut m = ColorModeResettable::from(ColorMode::Net);
    m.set(ColorMode::Curve);
    assert_eq!(ColorMode::from(m), ColorMode::Curve);
    assert_eq!(u32::from(U32Resettable { value: 9, default: 1 }), 9);
    assert!(bool::from(BoolResettable::from(true)));
    assert_eq!(usize::from(UsizeResettable::from(4usize)), 4);
    assert_eq!(ColorTheme::from(ColorThemeResettable::from(ColorTheme::Light)), ColorTheme::Light);
}

#[test]
fn render_settings_start_off_and_by_layer() {
    let s = RenderSettings::new();
    assert!(!s.quadtree.get());
    assert!(!s.nodebounds.get());
    assert!(!s.mass_circles.get());
    assert!(!s.edge_mark.get());
    assert_eq!(s.color_mode.get(), ColorMode::Layer);
    assert_eq!(s.color_mode.default, ColorMode::Layer);
}
