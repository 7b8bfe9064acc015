//! Tree nodes for the tree widget, and the rows a tree shows when some of
//! its nodes are expanded.
use vstd::prelude::*;

verus! {

/// Node in the tree hierarchy.
#[derive(Debug)]
pub struct TreeNode {
    /// Unique identifier of the node.
    pub id: String,
    /// Display label.
    pub label: String,
    /// Optional icon.
    pub icon: Option<String>,
    /// Child nodes.
    pub children: Vec<TreeNode>,
    /// The node cannot have children (no expander is drawn).
    pub leaf: bool,
}

/// The identifier `id` is among the expanded identifiers.
pub open spec fn is_expanded(expanded: Seq<String>, id: Seq<char>) -> bool {
    exists|i: int| 0 <= i < expanded.len() && #[trigger] expanded[i]@ == id
}

/// The visible rows of `nodes` at depth `depth`: each node followed, when
/// it is expanded, by the rows of its children one level deeper.
pub open spec fn visible_rows(nodes: Seq<TreeNode>, expanded: Seq<String>, depth: nat) -> Seq<
    (TreeNode, nat),
>
    decreases nodes,
{
    if nodes.len() == 0 {
        Seq::empty()
    } else {
        let first = nodes[0];
        proof {
            assert(decreases_to!(nodes => nodes[0]));
            assert(decreases_to!(nodes[0] => nodes[0].children));
            assert(decreases_to!(nodes[0].children => nodes[0].children@));
        }
        let below = if is_expanded(expanded, first.id@) {
            visible_rows(first.children@, expanded, depth + 1)
        } else {
            Seq::empty()
        };
        seq![(first, depth)] + below + visible_rows(nodes.subrange(1, nodes.len() as int), expanded, depth)
    }
}

/// Number of visible rows, counted node by node.
pub open spec fn row_count(nodes: Seq<TreeNode>, expanded: Seq<String>) -> nat
    decreases nodes,
{
    if nodes.len() == 0 {
        0
    } else {
        let first = nodes[0];
        proof {
            assert(decreases_to!(nodes => nodes[0]));
            assert(decreases_to!(nodes[0] => nodes[0].children));
            assert(decreases_to!(nodes[0].children => nodes[0].children@));
        }
        1 + (if is_expanded(expanded, first.id@) {
            row_count(first.children@, expanded)
        } else {
            0
        }) + row_count(nodes.subrange(1, nodes.len() as int), expanded)
    }
}

/// Number of nodes of a forest, all levels included.
pub open spec fn node_count(nodes: Seq<TreeNode>) -> nat
    decreases nodes,
{
    if nodes.len() == 0 {
        0
    } else {
        proof {
            assert(decreases_to!(nodes => nodes[0]));
            assert(decreases_to!(nodes[0] => nodes[0].children));
            assert(decreases_to!(nodes[0].children => nodes[0].children@));
        }
        1 + node_count(nodes[0].children@) + node_count(nodes.subrange(1, nodes.len() as int))
    }
}

impl TreeNode {
    /// A node with no icon and no children.
    pub fn new(id: &str, label: &str) -> (n: Self)
        ensures
            n.id@ == id@,
            n.label@ == label@,
            n.icon is None,
            n.children@.len() == 0,
            !n.leaf,
    {
        TreeNode { id: id.to_string(), label: label.to_string(), icon: None, children: Vec::new(), leaf: false }
    }

    /// Marks the node as a leaf.
    pub fn leaf(self) -> (n: Self)
        ensures
            n == (TreeNode { leaf: true, ..self }),
    {
        TreeNode { leaf: true, ..self }
    }

    /// Sets the icon.
    pub fn icon(self, icon: &str) -> (n: Self)
        ensures
            n.icon matches Some(i) && i@ == icon@,
            n.id == self.id,
            n.label == self.label,
            n.children == self.children,
            n.leaf == self.leaf,
    {
        TreeNode { icon: Some(icon.to_string()), ..self }
    }

    /// Adds a child after the existing ones.
    pub fn child(self, child: TreeNode) -> (n: Self)
        ensures
            n.children@ == self.children@.push(child),
            n.id == self.id,
            n.label == self.label,
            n.icon == self.icon,
            n.leaf == self.leaf,
    {
        let mut n = self;
        n.children.push(child);
        n
    }

    /// Adds several children after the existing ones.
    pub fn with_children(self, children: Vec<TreeNode>) -> (n: Self)
        ensures
            n.children@ == self.children@ + children@,
            n.id == self.id,
            n.label == self.label,
            n.icon == self.icon,
            n.leaf == self.leaf,
    {
        let mut n = self;
        let mut added = children;
        n.children.append(&mut added);
        n
    }
}

/// The identifier is among the expanded identifiers.
fn contains_id(expanded: &Vec<String>, id: &String) -> (b: bool)
    ensures
        b == is_expanded(expanded@, id@),
{
    let mut i: usize = 0;
    while i < expanded.len()
        invariant
            i <= expanded.len(),
            forall|j: int| 0 <= j < i ==> expanded@[j]@ != id@,
        decreases expanded.len() - i,
    {
        if expanded[i] == *id {
            return true;
        }
        i = i + 1;
    }
    false
}

proof fn lemma_rows_split(nodes: Seq<TreeNode>, expanded: Seq<String>, depth: nat, k: int)
    requires
        0 <= k < nodes.len(),
    ensures
        visible_rows(nodes.subrange(k, nodes.len() as int), expanded, depth) == seq![(nodes[k], depth)]
            + (if is_expanded(expanded, nodes[k].id@) {
            visible_rows(nodes[k].children@, expanded, depth + 1)
        } else {
            Seq::empty()
        }) + visible_rows(nodes.subrange(k + 1, nodes.len() as int), expanded, depth),
{
    let sub = nodes.subrange(k, nodes.len() as int);
    assert(sub[0] == nodes[k]);
    assert(sub.subrange(1, sub.len() as int) =~= nodes.subrange(k + 1, nodes.len() as int));
}

proof fn lemma_count_split(nodes: Seq<TreeNode>, expanded: Seq<String>, k: int)
    requires
        0 <= k < nodes.len(),
    ensures
        row_count(nodes.subrange(k, nodes.len() as int), expanded) == 1 + (if is_expanded(
            expanded,
            nodes[k].id@,
        ) {
            row_count(nodes[k].children@, expanded)
        } else {
            0
        }) + row_count(nodes.subrange(k + 1, nodes.len() as int), expanded),
        node_count(nodes.subrange(k, nodes.len() as int)) == 1 + node_count(nodes[k].children@)
            + node_count(nodes.subrange(k + 1, nodes.len() as int)),
{
    let sub = nodes.subrange(k, nodes.len() as int);
    assert(sub[0] == nodes[k]);
    assert(sub.subrange(1, sub.len() as int) =~= nodes.subrange(k + 1, nodes.len() as int));
}

/// Appends the visible rows of `nodes` at `depth` to `out`.
fn flatten_into<'a>(
    nodes: &'a Vec<TreeNode>,
    expanded: &Vec<String>,
    depth: usize,
    out: &mut Vec<(&'a TreeNode, usize)>,
)
    requires
        depth + node_count(nodes@) <= usize::MAX,
    ensures
        rows_view(final(out)@) == rows_view(old(out)@) + visible_rows(nodes@, expanded@, depth as nat),
    decreases nodes@,
{
    let mut k: usize = 0;
    assert(nodes@.subrange(0, nodes@.len() as int) =~= nodes@);
    while k < nodes.len()
        invariant
            k <= nodes.len(),
            depth + node_count(nodes@) <= usize::MAX,
            depth + node_count(nodes@.subrange(k as int, nodes@.len() as int)) <= usize::MAX,
            rows_view(out@) + visible_rows(nodes@.subrange(k as int, nodes@.len() as int), expanded@, depth as nat)
                == rows_view(old(out)@) + visible_rows(nodes@, expanded@, depth as nat),
        decreases nodes.len() - k,
    {
        let node = &nodes[k];
        proof {
            lemma_rows_split(nodes@, expanded@, depth as nat, k as int);
            lemma_count_split(nodes@, expanded@, k as int);
            assert(decreases_to!(nodes@ => nodes@[k as int]));
        }
        let ghost before = out@;
        out.push((node, depth));
        assert(rows_view(out@) =~= rows_view(before).push((*node, depth as nat)));
        if contains_id(expanded, &node.id) {
            proof {
                assert(decreases_to!(nodes@ => nodes@[k as int].children@));
            }
            flatten_into(&node.children, expanded, depth + 1, out);
        }
        k = k + 1;
        proof {
            let sub = nodes@.subrange(k as int, nodes@.len() as int);
            assert(seq![(nodes@[k - 1], depth as nat)] + (if is_expanded(expanded@, nodes@[k - 1].id@) {
                visible_rows(nodes@[k - 1].children@, expanded@, depth as nat + 1)
            } else {
                Seq::empty()
            }) + visible_rows(sub, expanded@, depth as nat) == visible_rows(nodes@.subrange(k - 1, nodes@.len() as int), expanded@, depth as nat));
        }
    }
}

pub open spec fn rows_view<'a>(rows: Seq<(&'a TreeNode, usize)>) -> Seq<(TreeNode, nat)> {
    rows.map_values(|r: (&'a TreeNode, usize)| (*r.0, r.1 as nat))
}

/// The rows a tree shows: every node in order, and under each expanded node
/// the rows of its children, one level deeper.
pub fn flatten_tree<'a>(nodes: &'a Vec<TreeNode>, expanded: &Vec<String>, depth: usize) -> (rows: Vec<
    (&'a TreeNode, usize),
>)
    requires
        depth + node_count(nodes@) <= usize::MAX,
    ensures
        rows_view(rows@) == visible_rows(nodes@, expanded@, depth as nat),
{
    let mut out: Vec<(&'a TreeNode, usize)> = Vec::new();
    assert(rows_view(out@) =~= Seq::empty());
    flatten_into(nodes, expanded, depth, &mut out);
    assert(Seq::<(TreeNode, nat)>::empty() + visible_rows(nodes@, expanded@, depth as nat) =~= visible_rows(nodes@, expanded@, depth as nat));
    out
}

/// Number of rows a tree shows with the given nodes expanded.
pub fn calculate_tree_height_recursive(nodes: &Vec<TreeNode>, expanded: &Vec<String>) -> (count: usize)
    requires
        row_count(nodes@, expanded@) <= usize::MAX,
    ensures
        count == row_count(nodes@, expanded@),
    decreases nodes@,
{
    let mut count: usize = 0;
    let mut k: usize = 0;
    assert(nodes@.subrange(0, nodes@.len() as int) =~= nodes@);
    while k < nodes.len()
        invariant
            k <= nodes.len(),
            row_count(nodes@, expanded@) <= usize::MAX,
            count + row_count(nodes@.subrange(k as int, nodes@.len() as int), expanded@) == row_count(nodes@, expanded@),
        decreases nodes.len() - k,
    {
        let node = &nodes[k];
        proof {
            lemma_count_split(nodes@, expanded@, k as int);
            assert(decreases_to!(nodes@ => nodes@[k as int].children@));
        }
        count = count + 1;
        if contains_id(expanded, &node.id) {
            let below = calculate_tree_height_recursive(&node.children, expanded);
            count = count + below;
        }
        k = k + 1;
    }
    count
}

/// The number of rows counted equals the number of rows listed: what
/// `calculate_tree_height_recursive` gives for a forest is the number of
/// rows `flatten_tree` lists for it, at any starting depth.
pub proof fn lemma_row_count_matches_rows(nodes: Seq<TreeNode>, expanded: Seq<String>, depth: nat)
    ensures
        row_count(nodes, expanded) == visible_rows(nodes, expanded, depth).len(),
    decreases nodes,
{
    if nodes.len() > 0 {
        assert(decreases_to!(nodes => nodes[0]));
        assert(decreases_to!(nodes[0] => nodes[0].children));
        assert(decreases_to!(nodes[0].children => nodes[0].children@));
        lemma_row_count_matches_rows(nodes[0].children@, expanded, depth + 1);
        lemma_row_count_matches_rows(nodes.subrange(1, nodes.len() as int), expanded, depth);
    }
}

/// With nothing expanded, the rows are exactly the top-level nodes at the
/// starting depth.
pub proof fn lemma_collapsed_rows(nodes: Seq<TreeNode>, depth: nat)
    ensures
        visible_rows(nodes, Seq::empty(), depth) == nodes.map_values(|n: TreeNode| (n, depth)),
    decreases nodes.len(),
{
    if nodes.len() > 0 {
        lemma_collapsed_rows(nodes.subrange(1, nodes.len() as int), depth);
        assert(!is_expanded(Seq::empty(), nodes[0].id@));
        assert(nodes.map_values(|n: TreeNode| (n, depth)) =~= seq![(nodes[0], depth)]
            + nodes.subrange(1, nodes.len() as int).map_values(|n: TreeNode| (n, depth)));
        assert(seq![(nodes[0], depth)] + Seq::<(TreeNode, nat)>::empty() =~= seq![(nodes[0], depth)]);
    } else {
        assert(nodes.map_values(|n: TreeNode| (n, depth)) =~= Seq::empty());
    }
}

} // verus!
