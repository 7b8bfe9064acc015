use gloomy::interaction::InteractionState;
use gloomy::text_input::{apply_key, parse_index, select_clicked_tab, tab_header_action, KeyInput};

fn ids(list: &[&str]) -> Vec<String> {
    list.iter().map(|s| s.to_string()).collect()
}

#[test]
fn focus_cycles_forward_and_back() {
    let list = ids(&["a", "b", "c"]);
    let mut st = InteractionState::new();
    st.focus_next(&list);
    assert_eq!(st.focused_id.as_deref(), Some("a"));
    st.focus_next(&list);
    assert_eq!(st.focused_id.as_deref(), Some("b"));
    st.focus_next(&list);
    st.focus_next(&list);
    assert_eq!(st.focused_id.as_deref(), Some("a"));
    st.focus_prev(&list);
    assert_eq!(st.focused_id.as_deref(), Some("c"));
    st.focus_next(&list);
    assert_eq!(st.focused_id.as_deref(), Some("a"));
}

#[test]
fn focus_on_empty_list_clears() {
    let mut st = InteractionState::new();
    st.focused_id = Some("x".to_string());
    st.focus_next(&[]);
    assert_eq!(st.focused_id, None);
}

#[test]
fn focus_prev_from_unknown_goes_to_last() {
    let mut st = InteractionState::new();
    st.focused_id = Some("zzz".to_string());
    st.focus_prev(&ids(&["a", "b"]));
    assert_eq!(st.focused_id.as_deref(), Some("b"));
}

#[test]
fn press_and_hit_set_active_and_focus() {
    let mut st = InteractionState::new();
    st.handle_hit(Some("ok".to_string()));
    assert!(st.is_hovered("ok"));
    assert!(!st.is_active("ok"));
    st.set_pressed(true);
    st.handle_hit(Some("ok".to_string()));
    assert!(st.is_active("ok"));
    assert_eq!(st.focused_id.as_deref(), Some("ok"));
    st.handle_hit(None);
    assert_eq!(st.focused_id, None);
    st.set_pressed(false);
    assert!(!st.is_active("ok"));
}

#[test]
fn keys_edit_text() {
    let mut v = "ab".to_string();
    assert!(apply_key(&mut v, &KeyInput::Text("c".to_string())));
    assert_eq!(v, "abc");
    assert!(apply_key(&mut v, &KeyInput::Space));
    assert_eq!(v, "abc ");
    assert!(apply_key(&mut v, &KeyInput::Backspace));
    assert!(apply_key(&mut v, &KeyInput::Backspace));
    assert_eq!(v, "ab");
    assert!(!apply_key(&mut v, &KeyInput::Text("\u{7}".to_string())));
    assert!(!apply_key(&mut v, &KeyInput::Other));
    assert_eq!(v, "ab");
    let mut e = String::new();
    assert!(!apply_key(&mut e, &KeyInput::Backspace));
    assert!(apply_key(&mut e, &KeyInput::Text("é".to_string())));
    assert_eq!(e, "é");
}

#[test]
fn indices_parse_like_usize() {
    assert_eq!(parse_index("0"), Some(0));
    assert_eq!(parse_index("+17"), Some(17));
    assert_eq!(parse_index("+"), None);
    assert_eq!(parse_index(""), None);
    assert_eq!(parse_index("-1"), None);
    assert_eq!(parse_index("1a"), None);
    assert_eq!(parse_index("18446744073709551615"), "18446744073709551615".parse::<usize>().ok());
    assert_eq!(parse_index("99999999999999999999999"), None);
}

#[test]
fn tab_header_click_selects_tab() {
    assert_eq!(select_clicked_tab(Some("my_tab:tab:1"), Some("my_tab"), 2, 0), Some(1));
    assert_eq!(select_clicked_tab(Some("my_tab:tab:1"), Some("my_tab"), 2, 1), None);
    assert_eq!(select_clicked_tab(Some("my_tab:tab:2"), Some("my_tab"), 2, 0), None);
    assert_eq!(select_clicked_tab(Some("other:tab:1"), Some("my_tab"), 2, 0), None);
    assert_eq!(select_clicked_tab(Some("my_tab:tab:x"), Some("my_tab"), 2, 0), None);
    assert_eq!(select_clicked_tab(None, Some("my_tab"), 2, 0), None);
    assert_eq!(select_clicked_tab(Some("my_tab:tab:1"), None, 2, 0), None);
}

#[test]
fn tab_header_actions_select_their_tab() {
    let a = tab_header_action("my_tab", 12);
    assert_eq!(a, "my_tab:tab:12");
    assert_eq!(select_clicked_tab(Some(&a), Some("my_tab"), 20, 0), Some(12));
    assert_eq!(select_clicked_tab(Some(&a), Some("my_tab"), 12, 0), None);
}
