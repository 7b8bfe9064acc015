use gloomy::rich_text::{color_error_message, parse_hex_color, ColorError, RichText, TextStyle};

#[test]
fn test_has_markup() {
    assert!(RichText::has_markup("<color=\"#FF0000\">Text</color>"));
    assert!(!RichText::has_markup("Plain text"));
}

#[test]
fn test_parse_color_tag() {
    let rt = RichText::parse("<color=\"#FF0000\">Red</color>", TextStyle::default());
    assert_eq!(rt.spans.len(), 1);
    assert_eq!(rt.spans[0].text, "Red");
    assert_eq!(rt.spans[0].style.color, Some((255, 0, 0, 255)));
}

#[test]
fn test_parse_bold_tag() {
    let rt = RichText::parse("<bold>Bold</bold>", TextStyle::default());
    assert_eq!(rt.spans.len(), 1);
    assert!(rt.spans[0].style.bold);
}

#[test]
fn test_parse_nested_tags() {
    let rt = RichText::parse(
        "<bold><color=\"#FF0000\">Bold Red</color></bold>",
        TextStyle::default(),
    );
    assert_eq!(rt.spans.len(), 1);
    assert!(rt.spans[0].style.bold);
    assert_eq!(rt.spans[0].style.color, Some((255, 0, 0, 255)));
}

#[test]
fn test_parse_span_tag() {
    let rt = RichText::parse(
        "<span color=\"#00FF00\" size=\"24\" bold>Styled</span>",
        TextStyle::default(),
    );
    assert_eq!(rt.spans.len(), 1);
    assert_eq!(rt.spans[0].style.color, Some((0, 255, 0, 255)));
    assert_eq!(rt.spans[0].style.font_sizes, vec!["24".to_string()]);
    assert!(rt.spans[0].style.bold);
}

#[test]
fn test_mixed_plain_and_markup() {
    let rt = RichText::parse("Plain <bold>Bold</bold> Plain", TextStyle::default());
    assert_eq!(rt.spans.len(), 3);
    assert_eq!(rt.spans[0].text, "Plain ");
    assert!(!rt.spans[0].style.bold);
    assert_eq!(rt.spans[1].text, "Bold");
    assert!(rt.spans[1].style.bold);
    assert_eq!(rt.spans[2].text, " Plain");
    assert!(!rt.spans[2].style.bold);
}

#[test]
fn test_parse_hex_color() {
    assert_eq!(parse_hex_color("#FF0000").unwrap(), (255, 0, 0, 255));
    assert_eq!(parse_hex_color("#00FF00FF").unwrap(), (0, 255, 0, 255));
    assert_eq!(parse_hex_color("0000FF").unwrap(), (0, 0, 255, 255));
}

#[test]
fn hex_color_with_alpha_and_lowercase() {
    assert_eq!(parse_hex_color("#11223380").unwrap(), (0x11, 0x22, 0x33, 0x80));
    assert_eq!(parse_hex_color("#abcdef").unwrap(), (0xab, 0xcd, 0xef, 255));
}

#[test]
fn hex_color_of_wrong_length_is_refused() {
    assert!(matches!(parse_hex_color("#FFF"), Err(ColorError::InvalidLength)));
    assert!(matches!(parse_hex_color(""), Err(ColorError::InvalidLength)));
}

#[test]
fn hex_color_with_bad_digit_is_refused() {
    assert!(matches!(parse_hex_color("#GG0000"), Err(ColorError::InvalidComponent(_))));
}

#[test]
fn plain_text_round_trips() {
    let rt = RichText::parse("no tags here", TextStyle::default());
    assert!(rt.is_plain);
    assert_eq!(rt.spans.len(), 1);
    assert_eq!(rt.to_plain(), "no tags here");
}

#[test]
fn malformed_markup_is_kept_as_plain_text() {
    let rt = RichText::parse("<unknown>x</unknown>", TextStyle::default());
    assert!(rt.is_plain);
    assert_eq!(rt.spans.len(), 1);
    assert_eq!(rt.spans[0].text, "<unknown>x</unknown>");
}

#[test]
fn short_tag_names_and_case() {
    let rt = RichText::parse("<B>a</B><I>b</I><u>c</u>", TextStyle::default());
    assert!(!rt.is_plain);
    assert_eq!(rt.spans.len(), 3);
    assert!(rt.spans[0].style.bold);
    assert!(rt.spans[1].style.italic);
    assert!(rt.spans[2].style.underline);
    assert_eq!(rt.to_plain(), "abc");
}

#[test]
fn font_tag_sets_family() {
    let rt = RichText::parse("<font=\"Mono\">code</font> rest", TextStyle::default());
    assert_eq!(rt.spans.len(), 2);
    assert_eq!(rt.spans[0].style.font_family, Some("Mono".to_string()));
    assert_eq!(rt.spans[1].style.font_family, None);
}

#[test]
fn colour_that_splits_a_character_is_refused() {
    assert!(RichText::try_parse("<color=\"#aé000\">x</color>", TextStyle::default()).is_none());
    let rt = RichText::try_parse("<b>x</b>", TextStyle::default()).unwrap();
    assert!(rt.spans[0].style.bold);
}

#[test]
fn colour_error_messages() {
    let e = parse_hex_color("##FFF").unwrap_err();
    assert_eq!(color_error_message(e, "##FFF"), "Invalid hex color: FFF. Expected 6 or 8 characters");
    let e = parse_hex_color("#FFGG00").unwrap_err();
    assert_eq!(color_error_message(e, "#FFGG00"), "Invalid green component");
    let e = parse_hex_color("#FFFFFFZZ").unwrap_err();
    assert_eq!(color_error_message(e, "#FFFFFFZZ"), "Invalid alpha component");
}
