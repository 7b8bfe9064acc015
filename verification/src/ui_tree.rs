//! Walks over the widget tree that do not depend on geometry: the order in
//! which focus cycles, finding a widget by identifier, checkbox toggling by
//! click, and the text a widget shows.
//!
//! A widget is seen as a [`UiNode`]: the identifier focus uses, the
//! identifier lookups match, and the children the walks descend into (the
//! children of a container, or the content of a tab view's selected tab).
use vstd::prelude::*;
use crate::text_util::{chars_equal, str_to_chars};

verus! {

/// A widget as the tree walks see it.
#[derive(Debug)]
pub struct UiNode {
    /// The identifier focus cycles through, for widgets that take focus.
    pub focus_id: Option<String>,
    /// The identifier a lookup by identifier matches: the id of an input,
    /// checkbox, slider, switch or container, or a button's action. An
    /// unnamed container has none.
    pub target_id: Option<String>,
    /// The widgets the walks descend into.
    pub children: Vec<UiNode>,
}

impl UiNode {
    /// A container with the given id and children: a lookup by its id finds
    /// it, an unnamed one is matched by no id, and it takes no focus.
    pub fn container(id: Option<String>, children: Vec<UiNode>) -> (n: UiNode)
        ensures
            n.target_id == id,
            n.focus_id is None,
            n.children == children,
    {
        UiNode { focus_id: None, target_id: id, children }
    }
}

pub open spec fn own_focus(n: UiNode) -> Seq<Seq<char>> {
    match n.focus_id {
        Some(s) => seq![s@],
        None => Seq::empty(),
    }
}

/// The focusable identifiers of a forest, depth first: each widget's own
/// before those below it.
pub open spec fn focus_order(nodes: Seq<UiNode>) -> Seq<Seq<char>>
    decreases nodes,
{
    if nodes.len() == 0 {
        Seq::empty()
    } else {
        proof {
            assert(decreases_to!(nodes => nodes[0]));
            assert(decreases_to!(nodes[0] => nodes[0].children));
            assert(decreases_to!(nodes[0].children => nodes[0].children@));
        }
        own_focus(nodes[0]) + focus_order(nodes[0].children@) + focus_order(
            nodes.subrange(1, nodes.len() as int),
        )
    }
}

pub open spec fn strings_view(v: Seq<String>) -> Seq<Seq<char>> {
    v.map_values(|s: String| s@)
}

proof fn lemma_focus_split(nodes: Seq<UiNode>, k: int)
    requires
        0 <= k < nodes.len(),
    ensures
        focus_order(nodes.subrange(k, nodes.len() as int)) == own_focus(nodes[k]) + focus_order(
            nodes[k].children@,
        ) + focus_order(nodes.subrange(k + 1, nodes.len() as int)),
{
    let sub = nodes.subrange(k, nodes.len() as int);
    assert(sub[0] == nodes[k]);
    assert(sub.subrange(1, sub.len() as int) =~= nodes.subrange(k + 1, nodes.len() as int));
}

fn collect_focus(nodes: &Vec<UiNode>, out: &mut Vec<String>)
    ensures
        strings_view(final(out)@) == strings_view(old(out)@) + focus_order(nodes@),
    decreases nodes@,
{
    let mut k: usize = 0;
    assert(nodes@.subrange(0, nodes@.len() as int) =~= nodes@);
    while k < nodes.len()
        invariant
            k <= nodes.len(),
            strings_view(out@) + focus_order(nodes@.subrange(k as int, nodes@.len() as int))
                == strings_view(old(out)@) + focus_order(nodes@),
        decreases nodes.len() - k,
    {
        let node = &nodes[k];
        proof {
            lemma_focus_split(nodes@, k as int);
            assert(decreases_to!(nodes@ => nodes@[k as int]));
            assert(decreases_to!(nodes@ => nodes@[k as int].children@));
        }
        let ghost before = out@;
        match &node.focus_id {
            Some(f) => {
                out.push(f.clone());
                assert(strings_view(out@) =~= strings_view(before) + own_focus(*node));
            },
            None => {
                assert(strings_view(out@) =~= strings_view(before) + own_focus(*node));
            },
        }
        collect_focus(&node.children, out);
        k = k + 1;
        proof {
            assert(strings_view(out@) + focus_order(nodes@.subrange(k as int, nodes@.len() as int))
                =~= strings_view(before) + focus_order(
                nodes@.subrange(k - 1, nodes@.len() as int),
            ));
        }
    }
    assert(nodes@.subrange(k as int, nodes@.len() as int) =~= Seq::<UiNode>::empty());
    assert(strings_view(out@) + Seq::<Seq<char>>::empty() =~= strings_view(out@));
}

/// The focusable identifiers of the tree under `root`, depth first.
pub fn focusable_ids(root: &UiNode) -> (ids: Vec<String>)
    ensures
        strings_view(ids@) == own_focus(*root) + focus_order(root.children@),
{
    let mut ids: Vec<String> = Vec::new();
    match &root.focus_id {
        Some(f) => ids.push(f.clone()),
        None => {},
    }
    assert(strings_view(ids@) =~= own_focus(*root));
    collect_focus(&root.children, &mut ids);
    ids
}

pub open spec fn matches_target(n: UiNode, id: Seq<char>) -> bool {
    n.target_id matches Some(t) && t@ == id
}

/// The path (child indices) to the first widget, in depth-first order, from
/// position `k` of `nodes` on, whose lookup identifier is `id`; a widget
/// that matches is not searched below, and one that does not (a container
/// named otherwise, say) is searched below.
pub open spec fn find_from(nodes: Seq<UiNode>, id: Seq<char>, k: int) -> Option<Seq<int>>
    decreases nodes, nodes.len() - k,
{
    if k < 0 || k >= nodes.len() {
        None
    } else {
        proof {
            assert(decreases_to!(nodes => nodes[k]));
            assert(decreases_to!(nodes[k] => nodes[k].children));
            assert(decreases_to!(nodes[k].children => nodes[k].children@));
        }
        if matches_target(nodes[k], id) {
            Some(seq![k])
        } else {
            match find_from(nodes[k].children@, id, 0) {
                Some(p) => Some(seq![k] + p),
                None => find_from(nodes, id, k + 1),
            }
        }
    }
}

/// The path to the widget with lookup identifier `id` in the tree under
/// `root`: the root itself (the empty path) when it matches.
pub open spec fn find_node(root: UiNode, id: Seq<char>) -> Option<Seq<int>> {
    if matches_target(root, id) {
        Some(Seq::empty())
    } else {
        find_from(root.children@, id, 0)
    }
}

pub open spec fn path_view(p: Seq<usize>) -> Seq<int> {
    p.map_values(|i: usize| i as int)
}

fn target_is(n: &UiNode, id: &Vec<char>) -> (b: bool)
    ensures
        b == matches_target(*n, id@),
{
    match &n.target_id {
        Some(t) => {
            let tc = str_to_chars(t.as_str());
            chars_equal(&tc, id)
        },
        None => false,
    }
}

fn find_in(nodes: &Vec<UiNode>, id: &Vec<char>) -> (r: Option<Vec<usize>>)
    ensures
        match r {
            Some(p) => find_from(nodes@, id@, 0) == Some(path_view(p@)),
            None => find_from(nodes@, id@, 0) is None,
        },
    decreases nodes@,
{
    let mut k: usize = 0;
    while k < nodes.len()
        invariant
            k <= nodes.len(),
            find_from(nodes@, id@, 0) == find_from(nodes@, id@, k as int),
        decreases nodes.len() - k,
    {
        let node = &nodes[k];
        if target_is(node, id) {
            let r = vec![k];
            assert(path_view(r@) =~= seq![k as int]);
            return Some(r);
        }
        proof {
            assert(decreases_to!(nodes@ => nodes@[k as int]));
            assert(decreases_to!(nodes@ => nodes@[k as int].children@));
        }
        match find_in(&node.children, id) {
            Some(p) => {
                let mut r = vec![k];
                let mut tail = p;
                let ghost pv = path_view(tail@);
                r.append(&mut tail);
                assert(path_view(r@) =~= seq![k as int] + pv);
                return Some(r);
            },
            None => {},
        }
        k = k + 1;
    }
    None
}

/// Finds the widget with lookup identifier `id` under `root`: the path of
/// child indices that leads to it.
pub fn find_widget(root: &UiNode, id: &str) -> (r: Option<Vec<usize>>)
    ensures
        match r {
            Some(p) => find_node(*root, id@) == Some(path_view(p@)),
            None => find_node(*root, id@) is None,
        },
{
    let idc = str_to_chars(id);
    if target_is(root, &idc) {
        let r: Vec<usize> = Vec::new();
        assert(path_view(r@) =~= Seq::<int>::empty());
        return Some(r);
    }
    find_in(&root.children, &idc)
}

/// Toggles a checkbox when the click this frame was on it; returns whether
/// it changed.
pub fn toggle_on_click(clicked: Option<&str>, id: &str, checked: &mut bool) -> (changed: bool)
    ensures
        changed == (clicked matches Some(c) && c@ == id@),
        *final(checked) == (if changed {
            !*old(checked)
        } else {
            *old(checked)
        }),
{
    match clicked {
        Some(c) => {
            let a = str_to_chars(c);
            let b = str_to_chars(id);
            if chars_equal(&a, &b) {
                *checked = !*checked;
                true
            } else {
                false
            }
        },
        None => false,
    }
}

/// The text an input shows: its value, or the placeholder while the value
/// is empty; nothing when that is empty too.
pub open spec fn shown_text(value: Seq<char>, placeholder: Seq<char>) -> Option<Seq<char>> {
    let t = if value.len() == 0 {
        placeholder
    } else {
        value
    };
    if t.len() == 0 {
        None
    } else {
        Some(t)
    }
}

/// The text a text input or an autocomplete field shows.
pub fn shown_input_text(value: &str, placeholder: &str) -> (r: Option<String>)
    ensures
        match r {
            Some(s) => shown_text(value@, placeholder@) == Some(s@),
            None => shown_text(value@, placeholder@) is None,
        },
{
    let v = str_to_chars(value);
    let t = if v.len() == 0 {
        placeholder
    } else {
        value
    };
    let tc = str_to_chars(t);
    if tc.len() == 0 {
        None
    } else {
        Some(t.to_string())
    }
}

/// The text a drop-down shows: its selected option, if the selection names
/// one.
pub fn selected_option(options: &Vec<String>, selected: Option<usize>) -> (r: Option<String>)
    ensures
        match r {
            Some(s) => selected matches Some(i) && i < options@.len() && s@ == options@[i as int]@,
            None => !(selected matches Some(i) && i < options@.len()),
        },
{
    match selected {
        Some(i) => {
            if i < options.len() {
                Some(options[i].clone())
            } else {
                None
            }
        },
        None => None,
    }
}

/// The widget that the path `p` of child indices leads to in `nodes`.
pub open spec fn node_at(nodes: Seq<UiNode>, p: Seq<int>) -> Option<UiNode>
    decreases p.len(),
{
    if p.len() == 0 || !(0 <= p[0] < nodes.len()) {
        None
    } else if p.len() == 1 {
        Some(nodes[p[0]])
    } else {
        node_at(nodes[p[0]].children@, p.drop_first())
    }
}

/// A widget whose lookup identifier is `id` is found by `id` at its own
/// place; one without a lookup identifier is only searched below.
pub proof fn lemma_lookup_at_root(n: UiNode, id: Seq<char>)
    ensures
        (n.target_id matches Some(t) && t@ == id) ==> find_node(n, id) == Some(Seq::<int>::empty()),
        n.target_id is None ==> find_node(n, id) == find_from(n.children@, id, 0),
{
}

/// A widget found by identifier is one whose lookup identifier is that
/// identifier: the path found leads to it.
pub proof fn lemma_found_widget_matches(nodes: Seq<UiNode>, id: Seq<char>, k: int)
    requires
        find_from(nodes, id, k) is Some,
    ensures
        node_at(nodes, find_from(nodes, id, k)->Some_0) matches Some(n) && matches_target(n, id),
    decreases nodes, nodes.len() - k,
{
    assert(decreases_to!(nodes => nodes[k]));
    assert(decreases_to!(nodes[k] => nodes[k].children));
    assert(decreases_to!(nodes[k].children => nodes[k].children@));
    if !matches_target(nodes[k], id) {
        match find_from(nodes[k].children@, id, 0) {
            Some(p) => {
                lemma_found_widget_matches(nodes[k].children@, id, 0);
                lemma_path_nonempty(nodes[k].children@, id, 0);
                assert((seq![k] + p).drop_first() =~= p);
            },
            None => {
                lemma_found_widget_matches(nodes, id, k + 1);
            },
        }
    }
}

proof fn lemma_path_nonempty(nodes: Seq<UiNode>, id: Seq<char>, k: int)
    requires
        find_from(nodes, id, k) is Some,
    ensures
        find_from(nodes, id, k)->Some_0.len() >= 1,
    decreases nodes, nodes.len() - k,
{
    assert(decreases_to!(nodes => nodes[k]));
    assert(decreases_to!(nodes[k] => nodes[k].children));
    assert(decreases_to!(nodes[k].children => nodes[k].children@));
    if !matches_target(nodes[k], id) {
        if find_from(nodes[k].children@, id, 0) is None {
            lemma_path_nonempty(nodes, id, k + 1);
        }
    }
}

} // verus!
