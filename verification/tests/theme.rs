use kicad_spaghetti::theme::ColorMode;
use kicad_spaghetti::theme::ColorTheme;

#[test]
fn theme_labels_and_order() {
    let names: Vec<&str> = ColorTheme::all().iter().map(|t| t.label()).collect();
    assert_eq!(names, vec!["System", "Light", "Dark"]);
}

#[test]
fn mode_labels_and_order() {
    let names: Vec<&str> = ColorMode::all().iter().map(|m| m.label()).collect();
    assert_eq!(names, vec!["Layer", "Net", "Curve", "Edge"]);
    assert_eq!(ColorMode::all()[3], ColorMode::Edge);
}
