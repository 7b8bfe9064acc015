//! Themes: named colour palettes with semantic colour names, and the style
//! context that holds the active theme and global style.
//!
//! The colour type is a parameter: the renderer instantiates it with its
//! RGBA colour.
use vstd::prelude::*;
use crate::text_util::{chars_are, str_to_chars};

verus! {

/// Semantic colour palette.
#[derive(Debug, Clone, Copy)]
pub struct ColorPalette<C> {
    pub background: C,
    pub surface: C,
    pub primary: C,
    pub secondary: C,
    pub accent: C,
    pub text: C,
    pub text_secondary: C,
    pub text_disabled: C,
    pub hover: C,
    pub active: C,
    pub focus: C,
    pub success: C,
    pub warning: C,
    pub error: C,
    pub info: C,
    pub border: C,
    pub divider: C,
}

/// A named theme.
#[derive(Debug, Clone)]
pub struct Theme<C> {
    /// Theme name.
    pub name: String,
    /// Colour palette.
    pub colors: ColorPalette<C>,
}

/// The palette colour with the given semantic name.
pub open spec fn color_named<C>(p: ColorPalette<C>, name: Seq<char>) -> Option<C> {
    if name == "background"@ {
        Some(p.background)
    } else if name == "surface"@ {
        Some(p.surface)
    } else if name == "primary"@ {
        Some(p.primary)
    } else if name == "secondary"@ {
        Some(p.secondary)
    } else if name == "accent"@ {
        Some(p.accent)
    } else if name == "text"@ {
        Some(p.text)
    } else if name == "text_secondary"@ {
        Some(p.text_secondary)
    } else if name == "text_disabled"@ {
        Some(p.text_disabled)
    } else if name == "hover"@ {
        Some(p.hover)
    } else if name == "active"@ {
        Some(p.active)
    } else if name == "focus"@ {
        Some(p.focus)
    } else if name == "success"@ {
        Some(p.success)
    } else if name == "warning"@ {
        Some(p.warning)
    } else if name == "error"@ {
        Some(p.error)
    } else if name == "info"@ {
        Some(p.info)
    } else if name == "border"@ {
        Some(p.border)
    } else if name == "divider"@ {
        Some(p.divider)
    } else {
        None
    }
}

impl<C: Copy> Theme<C> {
    /// A theme with the given name and colours.
    pub fn new(name: String, colors: ColorPalette<C>) -> (t: Self)
        ensures
            t.name == name,
            t.colors == colors,
    {
        Theme { name, colors }
    }

    /// The colour with the given semantic name; `None` for unknown names.
    pub fn get_color(&self, name: &str) -> (c: Option<C>)
        ensures
            c == color_named(self.colors, name@),
    {
        let n = str_to_chars(name);
        let p = &self.colors;
        if chars_are(&n, "background") {
            Some(p.background)
        } else if chars_are(&n, "surface") {
            Some(p.surface)
        } else if chars_are(&n, "primary") {
            Some(p.primary)
        } else if chars_are(&n, "secondary") {
            Some(p.secondary)
        } else if chars_are(&n, "accent") {
            Some(p.accent)
        } else if chars_are(&n, "text") {
            Some(p.text)
        } else if chars_are(&n, "text_secondary") {
            Some(p.text_secondary)
        } else if chars_are(&n, "text_disabled") {
            Some(p.text_disabled)
        } else if chars_are(&n, "hover") {
            Some(p.hover)
        } else if chars_are(&n, "active") {
            Some(p.active)
        } else if chars_are(&n, "focus") {
            Some(p.focus)
        } else if chars_are(&n, "success") {
            Some(p.success)
        } else if chars_are(&n, "warning") {
            Some(p.warning)
        } else if chars_are(&n, "error") {
            Some(p.error)
        } else if chars_are(&n, "info") {
            Some(p.info)
        } else if chars_are(&n, "border") {
            Some(p.border)
        } else if chars_are(&n, "divider") {
            Some(p.divider)
        } else {
            None
        }
    }
}

/// The active theme and global style.
#[derive(Debug, Clone)]
pub struct StyleContext<C, G> {
    /// Active colour theme.
    pub theme: Theme<C>,
    /// Active global style settings.
    pub global_style: G,
}

impl<C: Copy, G> StyleContext<C, G> {
    /// A context with the given theme and style.
    pub fn new(theme: Theme<C>, global_style: G) -> (s: Self)
        ensures
            s.theme == theme,
            s.global_style == global_style,
    {
        StyleContext { theme, global_style }
    }

    /// Replaces the theme.
    pub fn set_theme(&mut self, theme: Theme<C>)
        ensures
            final(self).theme == theme,
            final(self).global_style == old(self).global_style,
    {
        self.theme = theme;
    }

    /// Replaces the global style.
    pub fn set_global_style(&mut self, global_style: G)
        ensures
            final(self).global_style == global_style,
            final(self).theme == old(self).theme,
    {
        self.global_style = global_style;
    }

    /// The theme colour with the given name.
    pub fn get_theme_color(&self, name: &str) -> (c: Option<C>)
        ensures
            c == color_named(self.theme.colors, name@),
    {
        self.theme.get_color(name)
    }

    /// The theme colour with the given name, or `fallback` for unknown names.
    pub fn get_theme_color_or(&self, name: &str, fallback: C) -> (c: C)
        ensures
            c == match color_named(self.theme.colors, name@) {
                Some(x) => x,
                None => fallback,
            },
    {
        match self.get_theme_color(name) {
            Some(c) => c,
            None => fallback,
        }
    }
}

} // verus!
