use gloomy::fonts::{FontFamily, FontRegistry};

fn family(name: &str, regular: usize, bold: Option<usize>) -> FontFamily {
    FontFamily { name: name.to_string(), regular_id: regular, bold_id: bold, italic_id: None, bold_italic_id: None }
}

#[test]
fn variants_fall_back_to_regular() {
    let f = FontFamily { name: "Inter".to_string(), regular_id: 0, bold_id: Some(1), italic_id: Some(2), bold_italic_id: None };
    assert_eq!(f.get_variant(false, false), 0);
    assert_eq!(f.get_variant(true, false), 1);
    assert_eq!(f.get_variant(false, true), 2);
    assert_eq!(f.get_variant(true, true), 0);
}

#[test]
fn registry_finds_families_or_the_default() {
    let mut r = FontRegistry::new("Roboto".to_string());
    assert!(r.get_family(None).is_none());
    assert_eq!(r.get_font_id(Some("Mono"), false, false), None);
    r.register_family(family("Roboto", 0, Some(1)));
    r.register_family(family("Mono", 5, None));
    assert_eq!(r.get_font_id(None, true, false), Some(1));
    assert_eq!(r.get_font_id(Some("Mono"), true, false), Some(5));
    assert_eq!(r.get_font_id(Some("Serif"), true, false), Some(1));
    r.register_family(family("Mono", 7, None));
    assert_eq!(r.get_font_id(Some("Mono"), false, false), Some(7));
    assert_eq!(r.get_family(Some("Mono")).unwrap().regular_id, 7);
}

#[test]
fn font_names_for_styles() {
    let empty = FontRegistry::new("Roboto".to_string());
    assert_eq!(empty.font_for_style(None, true, true), Some("bold-italic"));
    assert_eq!(empty.font_for_style(Some("X"), true, false), Some("bold"));
    assert_eq!(empty.font_for_style(None, false, true), Some("italic"));
    assert_eq!(empty.font_for_style(Some("X"), false, false), Some("X"));
    assert_eq!(empty.font_for_style(None, false, false), Some("regular"));
    let mut r = FontRegistry::new("Roboto".to_string());
    r.register_family(family("Roboto", 0, None));
    assert_eq!(r.font_for_style(None, true, true), Some("Roboto"));
    assert_eq!(r.font_for_style(Some("Mono"), true, false), Some("Mono"));
}
