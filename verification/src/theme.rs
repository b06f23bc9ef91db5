//! The choices offered by the interface: colour theme and colour mode.
use vstd::prelude::*;

verus! {

/// The colour theme of the interface.
#[derive(Clone, Copy, Debug, PartialEq, Eq)]
pub enum ColorTheme {
    System,
    Light,
    Dark,
}

/// What the tracks are coloured by.
#[derive(Clone, Copy, Debug, PartialEq, Eq)]
pub enum ColorMode {
    Layer,
    Net,
    Curve,
    Edge,
}

/// The name under which a colour theme is shown.
pub open spec fn theme_label(t: ColorTheme) -> Seq<char> {
    match t {
        ColorTheme::System => "System"@,
        ColorTheme::Light => "Light"@,
        ColorTheme::Dark => "Dark"@,
    }
}

/// The name under which a colour mode is shown.
pub open spec fn mode_label(m: ColorMode) -> Seq<char> {
    match m {
        ColorMode::Layer => "Layer"@,
        ColorMode::Net => "Net"@,
        ColorMode::Curve => "Curve"@,
        ColorMode::Edge => "Edge"@,
    }
}

impl ColorTheme {
    /// The theme's name, as the interface shows it.
    pub fn label(&self) -> (r: &'static str)
        ensures
            r@ == theme_label(*self),
    {
        match self {
            ColorTheme::System => "System",
            ColorTheme::Light => "Light",
            ColorTheme::Dark => "Dark",
        }
    }

    /// Every theme, in declaration order.
    pub fn all() -> (r: Vec<ColorTheme>)
        ensures
            r@ == seq![ColorTheme::System, ColorTheme::Light, ColorTheme::Dark],
    {
        vec![ColorTheme::System, ColorTheme::Light, ColorTheme::Dark]
    }
}

impl ColorMode {
    /// The mode's name, as the interface shows it.
    pub fn label(&self) -> (r: &'static str)
        ensures
            r@ == mode_label(*self),
    {
        match self {
            ColorMode::Layer => "Layer",
            ColorMode::Net => "Net",
            ColorMode::Curve => "Curve",
            ColorMode::Edge => "Edge",
        }
    }

    /// Every mode, in declaration order.
    pub fn all() -> (r: Vec<ColorMode>)
        ensures
            r@ == seq![ColorMode::Layer, ColorMode::Net, ColorMode::Curve, ColorMode::Edge],
    {
        vec![ColorMode::Layer, ColorMode::Net, ColorMode::Curve, ColorMode::Edge]
    }
}

} // verus!
