//! Style rules for rendering components.
//!
//! Each node carries three property maps — default, hovered, clicked — keyed
//! by a small closed set of property ids. Applying a map overlays its
//! properties onto the computed style; resetting restores each property to
//! the default map's value or, when the default map never set it, to the
//! property's hard-coded base value.

use vstd::prelude::*;

use crate::colors::Color;
use crate::dense::DenseMap;
use crate::errors::UiError;

verus! {

/// The property id of the background color.
pub const KEY_BACKGROUND_COLOR: u8 = 0;

/// Style properties: the closed set of ids a style sheet may speak about.
#[derive(Clone, Copy, Debug, PartialEq, Eq, Structural)]
pub enum StyleProp {
    BackgroundColor,
}

/// Value for a style property.
#[derive(Clone, Copy, Debug, PartialEq, Eq, Structural)]
pub enum StyleValue {
    Color(Color),
}

/// Computed style ready for rendering.
#[derive(Clone, Copy, Debug, PartialEq, Eq, Structural)]
pub struct ComputedStyle {
    /// Background color
    pub background_color: Color,
}

impl StyleValue {
    /// The base value of a color-valued property.
    pub open spec fn spec_default() -> StyleValue {
        StyleValue::Color(Color::spec_default())
    }
}

impl Default for StyleValue {
    /// The default color.
    fn default() -> (r: Self)
        ensures
            r == StyleValue::spec_default(),
    {
        StyleValue::Color(Color::default())
    }
}

impl ComputedStyle {
    /// The style every node starts from: every property at its base value.
    pub open spec fn spec_default() -> ComputedStyle {
        ComputedStyle { background_color: Color::spec_default() }
    }
}

impl Default for ComputedStyle {
    /// Every property at its base value.
    fn default() -> (r: Self)
        ensures
            r == ComputedStyle::spec_default(),
    {
        ComputedStyle { background_color: Color::default() }
    }
}

/// The computed style with one property overlaid.
pub open spec fn spec_apply(prop: StyleProp, value: StyleValue, style: ComputedStyle) -> ComputedStyle {
    match (prop, value) {
        (StyleProp::BackgroundColor, StyleValue::Color(c)) => ComputedStyle {
            background_color: c,
            ..style
        },
    }
}

/// The computed style with one property back at its hard-coded base value.
pub open spec fn spec_reset(prop: StyleProp, style: ComputedStyle) -> ComputedStyle {
    match prop {
        StyleProp::BackgroundColor => ComputedStyle {
            background_color: Color::spec_default(),
            ..style
        },
    }
}

impl StyleProp {
    /// The property id this property is stored under.
    pub open spec fn spec_key(self) -> u8 {
        match self {
            StyleProp::BackgroundColor => KEY_BACKGROUND_COLOR,
        }
    }

    /// The property id this property is stored under.
    pub fn key(&self) -> (r: u8)
        ensures
            r == self.spec_key(),
            r < 64,
    {
        match self {
            StyleProp::BackgroundColor => KEY_BACKGROUND_COLOR,
        }
    }

    /// The property a raw id denotes; ids outside the closed enumeration are
    /// rejected.
    pub fn from_key(key: u8) -> (r: Result<StyleProp, UiError>)
        ensures
            match r {
                Ok(p) => key == p.spec_key(),
                Err(e) => key != KEY_BACKGROUND_COLOR && e == UiError::UnknownStyleProperty,
            },
    {
        if key == KEY_BACKGROUND_COLOR {
            Ok(StyleProp::BackgroundColor)
        } else {
            Err(UiError::UnknownStyleProperty)
        }
    }

    /// Apply a style value to a computed style.
    pub fn apply(&self, value: &StyleValue, style: &mut ComputedStyle)
        ensures
            *final(style) == spec_apply(*self, *value, *old(style)),
    {
        match (self, value) {
            (StyleProp::BackgroundColor, StyleValue::Color(color)) => {
                style.background_color = *color;
            },
        }
    }

    /// Reset the corresponding computed style property to its default value.
    pub fn reset(&self, style: &mut ComputedStyle)
        ensures
            *final(style) == spec_reset(*self, *old(style)),
    {
        match self {
            StyleProp::BackgroundColor => {
                style.background_color = Color::default();
            },
        }
    }
}

/// Every key of the map lies in the closed property set.
pub open spec fn keys_known(m: Map<u8, StyleValue>) -> bool {
    forall|k: u8| #[trigger] m.dom().contains(k) ==> k == KEY_BACKGROUND_COLOR
}

/// The computed style after every property of `m` is overlaid onto `style`.
pub open spec fn spec_overlay(m: Map<u8, StyleValue>, style: ComputedStyle) -> ComputedStyle {
    if m.dom().contains(KEY_BACKGROUND_COLOR) {
        spec_apply(StyleProp::BackgroundColor, m[KEY_BACKGROUND_COLOR], style)
    } else {
        style
    }
}

/// The computed style after every property of `m` is reset: to the value the
/// default map `d` holds for it, or to its hard-coded base value when `d`
/// never set it.
pub open spec fn spec_reset_map(
    d: Map<u8, StyleValue>,
    m: Map<u8, StyleValue>,
    style: ComputedStyle,
) -> ComputedStyle {
    if m.dom().contains(KEY_BACKGROUND_COLOR) {
        if d.dom().contains(KEY_BACKGROUND_COLOR) {
            spec_apply(StyleProp::BackgroundColor, d[KEY_BACKGROUND_COLOR], style)
        } else {
            spec_reset(StyleProp::BackgroundColor, style)
        }
    } else {
        style
    }
}

/// Style rules for a component.
pub struct StyleSheet {
    pub default: DenseMap<StyleValue>,
    pub hovered: DenseMap<StyleValue>,
    pub clicked: DenseMap<StyleValue>,
}

impl StyleSheet {
    /// The three maps are well-formed.
    pub open spec fn wf(self) -> bool {
        &&& self.default.wf()
        &&& self.hovered.wf()
        &&& self.clicked.wf()
    }

    /// Every key of the three maps lies in the closed property set.
    pub open spec fn known(self) -> bool {
        &&& keys_known(self.default@)
        &&& keys_known(self.hovered@)
        &&& keys_known(self.clicked@)
    }

    /// An empty style sheet.
    pub fn new() -> (r: Self)
        ensures
            r.wf(),
            r.known(),
            r.default@ == Map::<u8, StyleValue>::empty(),
            r.hovered@ == Map::<u8, StyleValue>::empty(),
            r.clicked@ == Map::<u8, StyleValue>::empty(),
    {
        StyleSheet { default: DenseMap::new(), hovered: DenseMap::new(), clicked: DenseMap::new() }
    }

    /// Whether every key of the three maps lies in the closed property set.
    pub fn check_known(&self) -> (r: bool)
        requires
            self.wf(),
        ensures
            r == self.known(),
    {
        map_keys_known(&self.default) && map_keys_known(&self.hovered) && map_keys_known(
            &self.clicked,
        )
    }

    /// Apply default styles to a computed style; rejected, with the style
    /// untouched, when the default map holds an unknown property id.
    pub fn apply_default(&self, style: &mut ComputedStyle) -> (r: Result<(), UiError>)
        requires
            self.wf(),
        ensures
            match r {
                Ok(()) => keys_known(self.default@) && *final(style) == spec_overlay(
                    self.default@,
                    *old(style),
                ),
                Err(e) => !keys_known(self.default@) && e == UiError::UnknownStyleProperty
                    && *final(style) == *old(style),
            },
    {
        match apply_styles(&self.default, style) {
            Ok(_) => Ok(()),
            Err(e) => Err(e),
        }
    }

    /// Apply hover styles to a computed style; returns whether any style was
    /// applied.
    pub fn apply_hovered(&self, style: &mut ComputedStyle) -> (r: Result<bool, UiError>)
        requires
            self.wf(),
        ensures
            match r {
                Ok(b) => keys_known(self.hovered@) && *final(style) == spec_overlay(
                    self.hovered@,
                    *old(style),
                ) && b == !(self.hovered@.dom() =~= Set::<u8>::empty()),
                Err(e) => !keys_known(self.hovered@) && e == UiError::UnknownStyleProperty
                    && *final(style) == *old(style),
            },
    {
        apply_styles(&self.hovered, style)
    }

    /// Apply clicked styles to a computed style; returns whether any style
    /// was applied.
    pub fn apply_clicked(&self, style: &mut ComputedStyle) -> (r: Result<bool, UiError>)
        requires
            self.wf(),
        ensures
            match r {
                Ok(b) => keys_known(self.clicked@) && *final(style) == spec_overlay(
                    self.clicked@,
                    *old(style),
                ) && b == !(self.clicked@.dom() =~= Set::<u8>::empty()),
                Err(e) => !keys_known(self.clicked@) && e == UiError::UnknownStyleProperty
                    && *final(style) == *old(style),
            },
    {
        apply_styles(&self.clicked, style)
    }

    /// Reset hover styles: each property back to the default map's value, or
    /// to its base value where the default map never set it.
    pub fn reset_hover(&self, style: &mut ComputedStyle) -> (r: Result<bool, UiError>)
        requires
            self.wf(),
        ensures
            match r {
                Ok(b) => keys_known(self.hovered@) && *final(style) == spec_reset_map(
                    self.default@,
                    self.hovered@,
                    *old(style),
                ) && b == !(self.hovered@.dom() =~= Set::<u8>::empty()),
                Err(e) => !keys_known(self.hovered@) && e == UiError::UnknownStyleProperty
                    && *final(style) == *old(style),
            },
    {
        reset_styles(&self.default, &self.hovered, style)
    }

    /// Reset clicked styles: each property back to the default map's value,
    /// or to its base value where the default map never set it.
    pub fn reset_clicked(&self, style: &mut ComputedStyle) -> (r: Result<bool, UiError>)
        requires
            self.wf(),
        ensures
            match r {
                Ok(b) => keys_known(self.clicked@) && *final(style) == spec_reset_map(
                    self.default@,
                    self.clicked@,
                    *old(style),
                ) && b == !(self.clicked@.dom() =~= Set::<u8>::empty()),
                Err(e) => !keys_known(self.clicked@) && e == UiError::UnknownStyleProperty
                    && *final(style) == *old(style),
            },
    {
        reset_styles(&self.default, &self.clicked, style)
    }
}

/// Whether every key of one map lies in the closed property set.
fn map_keys_known(m: &DenseMap<StyleValue>) -> (r: bool)
    requires
        m.wf(),
    ensures
        r == keys_known(m@),
{
    let mut it = m.iter();
    loop
        invariant
            it.wf(),
            it.map() == *m,
            m.wf(),
            forall|j: u8|
                0 <= j < it.pos() ==> #[trigger] m@.dom().contains(j) ==> j
                    == KEY_BACKGROUND_COLOR,
        decreases 64 - it.pos(),
    {
        match it.next() {
            Some((k, _)) => {
                if k != KEY_BACKGROUND_COLOR {
                    return false;
                }
            },
            None => {
                proof {
                    crate::dense::lemma_keys_bounded(m);
                }
                return true;
            },
        }
    }
}

/// Apply all styles from a map to a computed style, or reject the operation
/// whole when the map holds an unknown property id. On success returns
/// whether the map held any property.
fn apply_styles(m: &DenseMap<StyleValue>, style: &mut ComputedStyle) -> (r: Result<bool, UiError>)
    requires
        m.wf(),
    ensures
        match r {
            Ok(b) => keys_known(m@) && *final(style) == spec_overlay(m@, *old(style)) && b == !(
            m@.dom() =~= Set::<u8>::empty()),
            Err(e) => !keys_known(m@) && e == UiError::UnknownStyleProperty && *final(style)
                == *old(style),
        },
{
    if m.is_empty() {
        return Ok(false);
    }
    let mut tmp = *style;
    let mut it = m.iter();
    loop
        invariant
            it.wf(),
            it.map() == *m,
            m.wf(),
            style == old(style),
            !(m@.dom() =~= Set::<u8>::empty()),
            forall|j: u8|
                0 <= j < it.pos() ==> #[trigger] m@.dom().contains(j) ==> j
                    == KEY_BACKGROUND_COLOR,
            tmp == (if m@.dom().contains(KEY_BACKGROUND_COLOR) && KEY_BACKGROUND_COLOR < it.pos() {
                spec_apply(StyleProp::BackgroundColor, m@[KEY_BACKGROUND_COLOR], *old(style))
            } else {
                *old(style)
            }),
        ensures
            keys_known(m@),
            style == old(style),
            tmp == spec_overlay(m@, *old(style)),
            !(m@.dom() =~= Set::<u8>::empty()),
        decreases 64 - it.pos(),
    {
        match it.next() {
            Some((k, v)) => {
                match StyleProp::from_key(k) {
                    Ok(prop) => {
                        prop.apply(v, &mut tmp);
                    },
                    Err(e) => {
                        return Err(e);
                    },
                }
            },
            None => {
                proof {
                    crate::dense::lemma_keys_bounded(m);
                }
                break;
            },
        }
    }
    *style = tmp;
    Ok(true)
}

/// Reset all properties of a map, granularly: to the default map's value
/// where one exists, else to the hard-coded base value. Rejected whole when
/// the map holds an unknown property id.
fn reset_styles(
    d: &DenseMap<StyleValue>,
    m: &DenseMap<StyleValue>,
    style: &mut ComputedStyle,
) -> (r: Result<bool, UiError>)
    requires
        d.wf(),
        m.wf(),
    ensures
        match r {
            Ok(b) => keys_known(m@) && *final(style) == spec_reset_map(d@, m@, *old(style)) && b
                == !(m@.dom() =~= Set::<u8>::empty()),
            Err(e) => !keys_known(m@) && e == UiError::UnknownStyleProperty && *final(style)
                == *old(style),
        },
{
    if m.is_empty() {
        return Ok(false);
    }
    let mut tmp = *style;
    let mut it = m.iter();
    loop
        invariant
            it.wf(),
            it.map() == *m,
            m.wf(),
            d.wf(),
            style == old(style),
            !(m@.dom() =~= Set::<u8>::empty()),
            forall|j: u8|
                0 <= j < it.pos() ==> #[trigger] m@.dom().contains(j) ==> j
                    == KEY_BACKGROUND_COLOR,
            tmp == (if m@.dom().contains(KEY_BACKGROUND_COLOR) && KEY_BACKGROUND_COLOR < it.pos() {
                spec_reset_map(d@, m@, *old(style))
            } else {
                *old(style)
            }),
        ensures
            keys_known(m@),
            style == old(style),
            tmp == spec_reset_map(d@, m@, *old(style)),
            !(m@.dom() =~= Set::<u8>::empty()),
        decreases 64 - it.pos(),
    {
        match it.next() {
            Some((k, _)) => {
                match StyleProp::from_key(k) {
                    Ok(prop) => {
                        match d.get(k) {
                            Some(default_value) => {
                                // the default map knows the property: restore
                                // its value
                                prop.apply(default_value, &mut tmp);
                            },
                            None => {
                                // otherwise, back to the hard-coded base
                                prop.reset(&mut tmp);
                            },
                        }
                    },
                    Err(e) => {
                        return Err(e);
                    },
                }
            },
            None => {
                proof {
                    crate::dense::lemma_keys_bounded(m);
                }
                break;
            },
        }
    }
    *style = tmp;
    Ok(true)
}

/// A property present in an interaction map resets on leaving that state to
/// the default map's value where one exists, and to the property's hard-coded
/// base value where the default map never set it.
pub proof fn law_style_reset_fallback(
    d: Map<u8, StyleValue>,
    m: Map<u8, StyleValue>,
    st: ComputedStyle,
)
    ensures
        m.dom().contains(KEY_BACKGROUND_COLOR) && !d.dom().contains(
            KEY_BACKGROUND_COLOR,
        ) ==> spec_reset_map(d, m, st) == spec_reset(
            StyleProp::BackgroundColor,
            st,
        ),
        m.dom().contains(KEY_BACKGROUND_COLOR) && d.dom().contains(
            KEY_BACKGROUND_COLOR,
        ) ==> spec_reset_map(d, m, st) == spec_apply(
            StyleProp::BackgroundColor,
            d[KEY_BACKGROUND_COLOR],
            st,
        ),
        !m.dom().contains(KEY_BACKGROUND_COLOR)
            ==> spec_reset_map(d, m, st) == st,
{
}

} // verus!
