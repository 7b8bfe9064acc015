use gloomy::theme::{ColorPalette, StyleContext, Theme};

type Rgba = (f32, f32, f32, f32);

fn palette(base: f32) -> ColorPalette<Rgba> {
    let c = |k: f32| (base + k * 0.01, 0.5, 0.5, 1.0);
    ColorPalette {
        background: c(0.0),
        surface: c(1.0),
        primary: c(2.0),
        secondary: c(3.0),
        accent: c(4.0),
        text: c(5.0),
        text_secondary: c(6.0),
        text_disabled: c(7.0),
        hover: c(8.0),
        active: c(9.0),
        focus: c(10.0),
        success: c(11.0),
        warning: c(12.0),
        error: c(13.0),
        info: c(14.0),
        border: c(15.0),
        divider: c(16.0),
    }
}

fn dark() -> Theme<Rgba> {
    Theme::new("Dark".to_string(), palette(0.1))
}

fn light() -> Theme<Rgba> {
    Theme::new("Light".to_string(), palette(0.7))
}

#[test]
fn test_get_color() {
    let theme = dark();
    assert_eq!(theme.get_color("primary"), Some(theme.colors.primary));
    assert_eq!(theme.get_color("text"), Some(theme.colors.text));
    assert_eq!(theme.get_color("invalid"), None);
}

#[test]
fn every_palette_name_is_found() {
    let theme = dark();
    let names = [
        "background", "surface", "primary", "secondary", "accent", "text", "text_secondary",
        "text_disabled", "hover", "active", "focus", "success", "warning", "error", "info",
        "border", "divider",
    ];
    let mut seen: Vec<Rgba> = Vec::new();
    for n in names {
        let c = theme.get_color(n).unwrap();
        assert!(!seen.contains(&c));
        seen.push(c);
    }
    assert_eq!(theme.get_color("Primary"), None);
}

#[test]
fn test_style_context_creation() {
    let ctx = StyleContext::new(dark(), ());
    assert_eq!(ctx.theme.name, "Dark");
}

#[test]
fn test_theme_switching() {
    let mut ctx = StyleContext::new(dark(), ());
    assert_eq!(ctx.theme.name, "Dark");
    ctx.set_theme(light());
    assert_eq!(ctx.theme.name, "Light");
}

#[test]
fn test_get_theme_color() {
    let ctx = StyleContext::new(dark(), ());
    assert!(ctx.get_theme_color("primary").is_some());
    assert!(ctx.get_theme_color("invalid").is_none());
}

#[test]
fn test_get_theme_color_or() {
    let ctx = StyleContext::new(dark(), ());
    let fallback = (1.0, 0.0, 0.0, 1.0);
    let primary = ctx.get_theme_color_or("primary", fallback);
    assert_ne!(primary, fallback);
    let invalid = ctx.get_theme_color_or("invalid", fallback);
    assert_eq!(invalid, fallback);
}
