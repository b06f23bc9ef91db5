//! Settings that remember their default and can be put back to it.
use crate::theme::ColorMode;
use crate::theme::ColorTheme;
use vstd::prelude::*;
use vstd::std_specs::convert::FromSpecImpl;

verus! {

/// A value together with the default it can be reset to.
pub trait Resettable<T>: Sized {
    /// The current value.
    spec fn current(&self) -> T;

    /// The value that `reset` restores.
    spec fn initial(&self) -> T;

    /// Reads the current value.
    fn get(&self) -> (r: T)
        ensures
            r == self.current(),
    ;

    /// Lends the current value for in-place editing; the default is untouched.
    fn get_mut(&mut self) -> (r: &mut T)
        ensures
            *r == old(self).current(),
            final(self).current() == *final(r),
            final(self).initial() == old(self).initial(),
    ;

    /// Replaces the current value; the default is untouched.
    fn set(&mut self, value: T)
        ensures
            final(self).current() == value,
            final(self).initial() == old(self).initial(),
    ;

    /// Puts the current value back to the default.
    fn reset(&mut self)
        ensures
            final(self).current() == old(self).initial(),
            final(self).initial() == old(self).initial(),
    ;
}

/// A resettable `u32` setting.
#[derive(Clone, Copy, PartialEq, Eq, Debug)]
pub struct U32Resettable {
    pub value: u32,
    pub default: u32,
}

impl U32Resettable {
    /// A setting whose value starts at its default.
    pub fn new(default: u32) -> (r: Self)
        ensures
            r.value == default,
            r.default == default,
    {
        Self { value: default, default }
    }
}

impl Resettable<u32> for U32Resettable {
    open spec fn current(&self) -> u32 {
        self.value
    }

    open spec fn initial(&self) -> u32 {
        self.default
    }

    fn get(&self) -> (r: u32) {
        self.value
    }

    fn get_mut(&mut self) -> (r: &mut u32) {
        &mut self.value
    }

    fn set(&mut self, value: u32) {
        self.value = value;
    }

    fn reset(&mut self) {
        self.value = self.default;
    }
}

impl From<U32Resettable> for u32 {
    fn from(m: U32Resettable) -> (r: u32) {
        m.value
    }
}

impl FromSpecImpl<U32Resettable> for u32 {
    open spec fn obeys_from_spec() -> bool {
        true
    }

    open spec fn from_spec(m: U32Resettable) -> u32 {
        m.value
    }
}

impl From<u32> for U32Resettable {
    fn from(m: u32) -> (r: U32Resettable) {
        U32Resettable::new(m)
    }
}

impl FromSpecImpl<u32> for U32Resettable {
    open spec fn obeys_from_spec() -> bool {
        true
    }

    open spec fn from_spec(m: u32) -> U32Resettable {
        U32Resettable { value: m, default: m }
    }
}

/// A resettable `usize` setting.
#[derive(Clone, Copy, PartialEq, Eq, Debug)]
pub struct UsizeResettable {
    pub value: usize,
    pub default: usize,
}

impl UsizeResettable {
    /// A setting whose value starts at its default.
    pub fn new(default: usize) -> (r: Self)
        ensures
            r.value == default,
            r.default == default,
    {
        Self { value: default, default }
    }
}

impl Resettable<usize> for UsizeResettable {
    open spec fn current(&self) -> usize {
        self.value
    }

    open spec fn initial(&self) -> usize {
        self.default
    }

    fn get(&self) -> (r: usize) {
        self.value
    }

    fn get_mut(&mut self) -> (r: &mut usize) {
        &mut self.value
    }

    fn set(&mut self, value: usize) {
        self.value = value;
    }

    fn reset(&mut self) {
        self.value = self.default;
    }
}

impl From<UsizeResettable> for usize {
    fn from(m: UsizeResettable) -> (r: usize) {
        m.value
    }
}

impl FromSpecImpl<UsizeResettable> for usize {
    open spec fn obeys_from_spec() -> bool {
        true
    }

    open spec fn from_spec(m: UsizeResettable) -> usize {
        m.value
    }
}

impl From<usize> for UsizeResettable {
    fn from(m: usize) -> (r: UsizeResettable) {
        UsizeResettable::new(m)
    }
}

impl FromSpecImpl<usize> for UsizeResettable {
    open spec fn obeys_from_spec() -> bool {
        true
    }

    open spec fn from_spec(m: usize) -> UsizeResettable {
        UsizeResettable { value: m, default: m }
    }
}

/// A resettable `bool` setting.
#[derive(Clone, Copy, PartialEq, Eq, Debug)]
pub struct BoolResettable {
    pub value: bool,
    pub default: bool,
}

impl BoolResettable {
    /// A setting whose value starts at its default.
    pub fn new(default: bool) -> (r: Self)
        ensures
            r.value == default,
            r.default == default,
    {
        Self { value: default, default }
    }
}

impl Resettable<bool> for BoolResettable {
    open spec fn current(&self) -> bool {
        self.value
    }

    open spec fn initial(&self) -> bool {
        self.default
    }

    fn get(&self) -> (r: bool) {
        self.value
    }

    fn get_mut(&mut self) -> (r: &mut bool) {
        &mut self.value
    }

    fn set(&mut self, value: bool) {
        self.value = value;
    }

    fn reset(&mut self) {
        self.value = self.default;
    }
}

impl From<BoolResettable> for bool {
    fn from(m: BoolResettable) -> (r: bool) {
        m.value
    }
}

impl FromSpecImpl<BoolResettable> for bool {
    open spec fn obeys_from_spec() -> bool {
        true
    }

    open spec fn from_spec(m: BoolResettable) -> bool {
        m.value
    }
}

impl From<bool> for BoolResettable {
    fn from(m: bool) -> (r: BoolResettable) {
        BoolResettable::new(m)
    }
}

impl FromSpecImpl<bool> for BoolResettable {
    open spec fn obeys_from_spec() -> bool {
        true
    }

    open spec fn from_spec(m: bool) -> BoolResettable {
        BoolResettable { value: m, default: m }
    }
}

/// A resettable colour-theme setting.
#[derive(Clone, Copy, PartialEq, Eq, Debug)]
pub struct ColorThemeResettable {
    pub value: ColorTheme,
    pub default: ColorTheme,
}

impl ColorThemeResettable {
    /// A setting whose value starts at its default.
    pub fn new(default: ColorTheme) -> (r: Self)
        ensures
            r.value == default,
            r.default == default,
    {
        Self { value: default, default }
    }
}

impl Resettable<ColorTheme> for ColorThemeResettable {
    open spec fn current(&self) -> ColorTheme {
        self.value
    }

    open spec fn initial(&self) -> ColorTheme {
        self.default
    }

    fn get(&self) -> (r: ColorTheme) {
        self.value
    }

    fn get_mut(&mut self) -> (r: &mut ColorTheme) {
        &mut self.value
    }

    fn set(&mut self, value: ColorTheme) {
        self.value = value;
    }

    fn reset(&mut self) {
        self.value = self.default;
    }
}

impl From<ColorThemeResettable> for ColorTheme {
    fn from(m: ColorThemeResettable) -> (r: ColorTheme) {
        m.value
    }
}

impl FromSpecImpl<ColorThemeResettable> for ColorTheme {
    open spec fn obeys_from_spec() -> bool {
        true
    }

    open spec fn from_spec(m: ColorThemeResettable) -> ColorTheme {
        m.value
    }
}

impl From<ColorTheme> for ColorThemeResettable {
    fn from(m: ColorTheme) -> (r: ColorThemeResettable) {
        ColorThemeResettable::new(m)
    }
}

impl FromSpecImpl<ColorTheme> for ColorThemeResettable {
    open spec fn obeys_from_spec() -> bool {
        true
    }

    open spec fn from_spec(m: ColorTheme) -> ColorThemeResettable {
        ColorThemeResettable { value: m, default: m }
    }
}

/// A resettable colour-mode setting.
#[derive(Clone, Copy, PartialEq, Eq, Debug)]
pub struct ColorModeResettable {
    pub value: ColorMode,
    pub default: ColorMode,
}

impl ColorModeResettable {
    /// A setting whose value starts at its default.
    pub fn new(default: ColorMode) -> (r: Self)
        ensures
            r.value == default,
            r.default == default,
    {
        Self { value: default, default }
    }
}

impl Resettable<ColorMode> for ColorModeResettable {
    open spec fn current(&self) -> ColorMode {
        self.value
    }

    open spec fn initial(&self) -> ColorMode {
        self.default
    }

    fn get(&self) -> (r: ColorMode) {
        self.value
    }

    fn get_mut(&mut self) -> (r: &mut ColorMode) {
        &mut self.value
    }

    fn set(&mut self, value: ColorMode) {
        self.value = value;
    }

    fn reset(&mut self) {
        self.value = self.default;
    }
}

impl From<ColorModeResettable> for ColorMode {
    fn from(m: ColorModeResettable) -> (r: ColorMode) {
        m.value
    }
}

impl FromSpecImpl<ColorModeResettable> for ColorMode {
    open spec fn obeys_from_spec() -> bool {
        true
    }

    open spec fn from_spec(m: ColorModeResettable) -> ColorMode {
        m.value
    }
}

impl From<ColorMode> for ColorModeResettable {
    fn from(m: ColorMode) -> (r: ColorModeResettable) {
        ColorModeResettable::new(m)
    }
}

impl FromSpecImpl<ColorMode> for ColorModeResettable {
    open spec fn obeys_from_spec() -> bool {
        true
    }

    open spec fn from_spec(m: ColorMode) -> ColorModeResettable {
        ColorModeResettable { value: m, default: m }
    }
}

/// The switches and choices of the drawing.
#[derive(Debug)]
pub struct RenderSettings {
    pub quadtree: BoolResettable,
    pub nodebounds: BoolResettable,
    pub mass_circles: BoolResettable,
    pub color_mode: ColorModeResettable,
    pub edge_mark: BoolResettable,
}

impl RenderSettings {
    /// The settings a fresh drawing starts with: every overlay off, tracks
    /// coloured by layer; each value is also its default.
    pub fn new() -> (r: Self)
        ensures
            r.quadtree == (BoolResettable { value: false, default: false }),
            r.nodebounds == (BoolResettable { value: false, default: false }),
            r.mass_circles == (BoolResettable { value: false, default: false }),
            r.color_mode == (ColorModeResettable { value: ColorMode::Layer, default: ColorMode::Layer }),
            r.edge_mark == (BoolResettable { value: false, default: false }),
    {
        RenderSettings {
            quadtree: BoolResettable::new(false),
            nodebounds: BoolResettable::new(false),
            mass_circles: BoolResettable::new(false),
            color_mode: ColorModeResettable::new(ColorMode::Layer),
            edge_mark: BoolResettable::new(false),
        }
    }
}

/// Along a history in which each step keeps the default, every state has the
/// default of the first one.
proof fn lemma_default_kept<T, R: Resettable<T>>(history: Seq<R>, k: int)
    requires
        0 <= k < history.len(),
        forall|j: int| 0 <= j < history.len() - 1 ==> #[trigger] history[j + 1].initial() == history[j].initial(),
    ensures
        history[k].initial() == history[0].initial(),
    decreases k,
{
    if k > 0 {
        assert(history[(k - 1) + 1].initial() == history[k - 1].initial());
        lemma_default_kept(history, k - 1);
    }
}

/// Whatever edits come between (each `set` or `get_mut` keeps the default),
/// a reset brings back the default the setting had at the start of the history.
pub proof fn law_reset_restores_default<T, R: Resettable<T>>(history: Seq<R>, after: R)
    requires
        history.len() > 0,
        forall|k: int| 0 <= k < history.len() - 1 ==> #[trigger] history[k + 1].initial() == history[k].initial(),
        after.current() == history.last().initial(),
    ensures
        after.current() == history[0].initial(),
{
    lemma_default_kept(history, history.len() - 1);
}

} // verus!
