use gloomy::datagrid::{default_span_one, default_true, SelectionMode, SortDirection};
use gloomy::designer::{designer_command, DesignList, DesignMetadata, DesignerCommand, WidgetType};
use gloomy::kpi::{KpiTrend, TrendDirection};
use gloomy::layout::{Align, Direction, Justify};
use gloomy::snapshot::{join, SnapshotManager};
use gloomy::style::BorderStyle;
use gloomy::tree::{calculate_tree_height_recursive, flatten_tree, TreeNode};
use gloomy::validation::{validate_all, ValidationRule, Verdict};
use gloomy::widget::{default_date_format, default_max_visible, Orientation, TextAlign};

#[test]
fn defaults_match_the_toolkit() {
    assert_eq!(Direction::default(), Direction::Column);
    assert_eq!(Align::default(), Align::Start);
    assert_eq!(Justify::default(), Justify::Start);
    assert_eq!(BorderStyle::default(), BorderStyle::Solid);
    assert_eq!(TextAlign::default(), TextAlign::Left);
    assert_eq!(Orientation::default(), Orientation::Horizontal);
    assert_eq!(SelectionMode::default(), SelectionMode::Disabled);
    assert_eq!(SortDirection::default(), SortDirection::Ascending);
    assert!(default_true());
    assert_eq!(default_span_one(), 1);
    assert_eq!(gloomy::widget::default_span_one(), 1);
    assert!(gloomy::widget::default_true());
    assert_eq!(default_max_visible(), 5);
    assert_eq!(default_date_format(), "%Y-%m-%d");
    let m = DesignMetadata::default();
    assert!(m.name.is_empty() && m.version.is_empty());
    let t = KpiTrend { direction: TrendDirection::Up, value: "+12%".to_string() };
    assert_eq!(t.direction, TrendDirection::Up);
    assert_eq!(Direction::Grid { columns: 3 }, Direction::Grid { columns: 3 });
}

#[test]
fn palette_lists_each_kind_with_its_name() {
    let all = WidgetType::all();
    assert_eq!(all.len(), 8);
    let names: Vec<&str> = all.iter().map(|t| t.name()).collect();
    assert_eq!(
        names,
        vec!["Container", "Label", "Button", "TextInput", "Checkbox", "Slider", "Spacer", "Icon"]
    );
}

#[test]
fn snapshot_paths() {
    let m = SnapshotManager::new("snapshots");
    assert_eq!(m.golden_path("empty"), "snapshots/golden/empty.png");
    assert_eq!(m.actual_path("empty"), "snapshots/actual/empty.png");
    assert_eq!(m.diff_path("x"), "snapshots/diff/x.png");
    assert_eq!(m.golden_directory(), "snapshots/golden");
    assert_eq!(join("a/", "b"), "a/b");
    assert_eq!(join("", "b"), "b");
    assert_eq!(join("a", "/abs"), "/abs");
}

fn sample_tree() -> Vec<TreeNode> {
    vec![
        TreeNode::new("root", "Root")
            .child(TreeNode::new("a", "A").leaf())
            .child(TreeNode::new("b", "B").child(TreeNode::new("b1", "B1"))),
        TreeNode::new("other", "Other").icon("*"),
    ]
}

#[test]
fn tree_rows_follow_expansion() {
    let nodes = sample_tree();
    let none: Vec<String> = Vec::new();
    assert_eq!(calculate_tree_height_recursive(&nodes, &none), 2);
    let expanded = vec!["root".to_string(), "b".to_string()];
    assert_eq!(calculate_tree_height_recursive(&nodes, &expanded), 5);
    let rows = flatten_tree(&nodes, &expanded, 0);
    let shown: Vec<(&str, usize)> = rows.iter().map(|(n, d)| (n.id.as_str(), *d)).collect();
    assert_eq!(shown, vec![("root", 0), ("a", 1), ("b", 1), ("b1", 2), ("other", 0)]);
    assert!(rows[1].0.leaf);
    assert_eq!(rows[4].0.icon.as_deref(), Some("*"));
    let only_root = vec!["root".to_string()];
    assert_eq!(flatten_tree(&nodes, &only_root, 0).len(), 4);
}

#[test]
fn validation_rules() {
    let req: ValidationRule<f64> = ValidationRule::Required;
    assert_eq!(req.validate(""), Verdict::Invalid("This field is required".to_string()));
    assert_eq!(req.validate("x"), Verdict::Valid);
    let min: ValidationRule<f64> = ValidationRule::MinLength(3);
    assert_eq!(min.validate(""), Verdict::Valid);
    assert_eq!(min.validate("ab"), Verdict::Invalid("Must be at least 3 characters".to_string()));
    assert_eq!(min.validate("é"), Verdict::Invalid("Must be at least 3 characters".to_string()));
    assert_eq!(min.validate("éa"), Verdict::Valid);
    let max: ValidationRule<f64> = ValidationRule::MaxLength(2);
    assert_eq!(max.validate("abc"), Verdict::Invalid("Must be no more than 2 characters".to_string()));
    assert_eq!(ValidationRule::Min(1.5).validate("7"), Verdict::Numeric);
    assert_eq!(ValidationRule::Max(1.5).validate(""), Verdict::Valid);
}

#[test]
fn pattern_and_email_rules() {
    let digits: ValidationRule<f64> = ValidationRule::Pattern("^[0-9]+$".to_string());
    assert_eq!(digits.validate("123"), Verdict::Valid);
    assert_eq!(digits.validate("12a"), Verdict::Invalid("Invalid format".to_string()));
    let broken: ValidationRule<f64> = ValidationRule::Pattern("(".to_string());
    assert_eq!(broken.validate("x"), Verdict::Invalid("Invalid pattern configuration".to_string()));
    // The e-mail pattern puts a range after `\w` in a class, which the regex
    // crate refuses; the rule then reports the pattern error.
    let email: ValidationRule<f64> = ValidationRule::Email;
    assert_eq!(email.validate("a@b.org"), Verdict::Invalid("Regex error".to_string()));
    assert_eq!(email.validate(""), Verdict::Valid);
}

#[test]
fn all_rules_are_checked_in_order() {
    let rules: Vec<ValidationRule<f64>> =
        vec![ValidationRule::Required, ValidationRule::MaxLength(1), ValidationRule::Min(0.0)];
    let v = validate_all(&rules, "abc");
    assert_eq!(
        v,
        vec![
            Verdict::Valid,
            Verdict::Invalid("Must be no more than 1 characters".to_string()),
            Verdict::Numeric
        ]
    );
}

#[test]
fn designer_actions() {
    assert_eq!(designer_command("add_label"), DesignerCommand::Add(WidgetType::Label));
    assert_eq!(designer_command("add_textinput"), DesignerCommand::Add(WidgetType::TextInput));
    assert_eq!(designer_command("add_Label"), DesignerCommand::Ignore);
    assert_eq!(designer_command("select_3"), DesignerCommand::Select(3));
    assert_eq!(designer_command("select_+4"), DesignerCommand::Select(4));
    assert_eq!(designer_command("select_x"), DesignerCommand::Ignore);
    assert_eq!(designer_command("select_"), DesignerCommand::Ignore);
    assert_eq!(designer_command("delete_selected"), DesignerCommand::DeleteSelected);
    assert_eq!(designer_command(""), DesignerCommand::Ignore);
}

#[test]
fn design_list_selection() {
    let mut d: DesignList<&str> = DesignList::new();
    d.add("a");
    d.add("b");
    assert_eq!(d.selected, Some(1));
    assert_eq!(d.selected_child(), Some(&"b"));
    d.select(7);
    assert_eq!(d.selected_child(), None);
    assert!(d.delete_selected());
    assert_eq!(d.children, vec!["a", "b"]);
    d.select(0);
    assert!(d.delete_selected());
    assert_eq!(d.children, vec!["b"]);
    assert_eq!(d.selected, None);
    assert!(!d.delete_selected());
}

#[test]
fn with_children_adds_after_existing_children() {
    let n = TreeNode::new("p", "P")
        .child(TreeNode::new("a", "A"))
        .with_children(vec![TreeNode::new("b", "B"), TreeNode::new("c", "C")]);
    let ids: Vec<&str> = n.children.iter().map(|c| c.id.as_str()).collect();
    assert_eq!(ids, vec!["a", "b", "c"]);
    let kept = TreeNode::new("q", "Q").child(TreeNode::new("x", "X")).with_children(Vec::new());
    assert_eq!(kept.children.len(), 1);
}
