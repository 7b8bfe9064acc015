use gloomy::ui_tree::{
    find_widget, focusable_ids, selected_option, shown_input_text, toggle_on_click, UiNode,
};

fn node(focus: Option<&str>, target: Option<&str>, children: Vec<UiNode>) -> UiNode {
    UiNode {
        focus_id: focus.map(|s| s.to_string()),
        target_id: target.map(|s| s.to_string()),
        children,
    }
}

fn sample() -> UiNode {
    node(
        None,
        None,
        vec![
            node(Some("name"), Some("name"), vec![]),
            node(
                None,
                None,
                vec![node(Some("ok"), Some("ok"), vec![]), node(Some("agree"), Some("agree"), vec![])],
            ),
            node(Some("tabs"), None, vec![node(Some("inner"), Some("inner"), vec![])]),
        ],
    )
}

#[test]
fn focus_ids_are_collected_depth_first() {
    let ids = focusable_ids(&sample());
    assert_eq!(ids, vec!["name", "ok", "agree", "tabs", "inner"]);
}

#[test]
fn widgets_are_found_by_path() {
    let root = sample();
    assert_eq!(find_widget(&root, "agree"), Some(vec![1, 1]));
    assert_eq!(find_widget(&root, "inner"), Some(vec![2, 0]));
    assert_eq!(find_widget(&root, "tabs"), None);
    assert_eq!(find_widget(&root, "missing"), None);
    let leaf = node(None, Some("x"), vec![]);
    assert_eq!(find_widget(&leaf, "x"), Some(vec![]));
}

#[test]
fn checkbox_toggles_on_its_click() {
    let mut checked = false;
    assert!(toggle_on_click(Some("cb"), "cb", &mut checked));
    assert!(checked);
    assert!(!toggle_on_click(Some("other"), "cb", &mut checked));
    assert!(!toggle_on_click(None, "cb", &mut checked));
    assert!(checked);
}

#[test]
fn shown_texts() {
    assert_eq!(shown_input_text("abc", "type here"), Some("abc".to_string()));
    assert_eq!(shown_input_text("", "type here"), Some("type here".to_string()));
    assert_eq!(shown_input_text("", ""), None);
    let opts = vec!["a".to_string(), "b".to_string()];
    assert_eq!(selected_option(&opts, Some(1)), Some("b".to_string()));
    assert_eq!(selected_option(&opts, Some(2)), None);
    assert_eq!(selected_option(&opts, None), None);
}

fn make_container(id: Option<&str>, children: Vec<UiNode>) -> UiNode {
    UiNode::container(id.map(|s| s.to_string()), children)
}

#[test]
fn test_find_widget_mut_container_id() {
    let root = make_container(Some("target"), vec![]);
    let found = find_widget(&root, "target");
    assert!(found.is_some(), "find_widget_mut must find a container by id");
}

#[test]
fn test_find_widget_mut_nested_container_id() {
    let inner = make_container(Some("inner"), vec![]);
    let root = make_container(Some("root"), vec![inner]);
    let found = find_widget(&root, "inner");
    assert!(found.is_some(), "find_widget_mut must find nested container by id");
    assert_eq!(found, Some(vec![0]));
}

#[test]
fn test_find_widget_mut_nonexistent_returns_none() {
    let root = make_container(Some("root"), vec![]);
    let found = find_widget(&root, "nonexistent");
    assert!(found.is_none(), "find_widget_mut must return None for unknown id");
}

#[test]
fn test_find_widget_mut_unnamed_container_not_matched() {
    let root = make_container(None, vec![]);
    let found = find_widget(&root, "anything");
    assert!(found.is_none(), "unnamed container must not match any id");
}
