//! The editable outline tree: entries with a mark that says whether they are
//! included.
use crate::model;
use crate::numerals;
use crate::model::{OutlineEntry, OutlineNode};
use vstd::prelude::*;
use vstd::slice::slice_subrange;

verus! {

/// Editable mirror of an [`OutlineEntry`] with an "include" mark.
#[derive(Debug)]
pub struct GuiNode {
    pub included: bool,
    pub title: String,
    pub page: u32,
    pub roman: bool,
    pub children: Vec<GuiNode>,
}

/// What a [`GuiNode`] says.
#[verifier::ext_equal]
pub struct EditNode {
    pub included: bool,
    pub title: Seq<char>,
    pub page: u32,
    pub roman: bool,
    pub children: Seq<EditNode>,
}

/// What a node says.
pub open spec fn edit_node(node: GuiNode) -> EditNode
    decreases node,
{
    EditNode {
        included: node.included,
        title: node.title@,
        page: node.page,
        roman: node.roman,
        children: edit_tree(node.children@),
    }
}

/// What a row of nodes says.
pub open spec fn edit_tree(nodes: Seq<GuiNode>) -> Seq<EditNode>
    decreases nodes,
{
    if nodes.len() == 0 {
        seq![]
    } else {
        edit_tree(nodes.drop_last()).push(edit_node(nodes.last()))
    }
}

/// A new node: included, and without children.
pub open spec fn new_node(title: Seq<char>, page: u32, roman: bool) -> EditNode {
    EditNode { included: true, title, page, roman, children: seq![] }
}

/// The forest with every node included.
pub open spec fn all_included(nodes: Seq<OutlineNode>) -> Seq<EditNode>
    decreases nodes,
{
    if nodes.len() == 0 {
        seq![]
    } else {
        let node = nodes.last();
        all_included(nodes.drop_last()).push(
            EditNode {
                included: true,
                title: node.title,
                page: node.page,
                roman: node.roman,
                children: all_included(node.children),
            },
        )
    }
}

/// The included nodes whose ancestors are all included.
pub open spec fn selected(nodes: Seq<EditNode>) -> Seq<OutlineNode>
    decreases nodes,
{
    if nodes.len() == 0 {
        seq![]
    } else {
        let node = nodes.last();
        let before = selected(nodes.drop_last());
        if node.included {
            before.push(
                OutlineNode {
                    title: node.title,
                    page: node.page,
                    roman: node.roman,
                    children: selected(node.children),
                },
            )
        } else {
            before
        }
    }
}

/// The forest with the mark of every node set.
pub open spec fn marked(nodes: Seq<EditNode>, included: bool) -> Seq<EditNode>
    decreases nodes,
{
    if nodes.len() == 0 {
        seq![]
    } else {
        marked(nodes.drop_last(), included).push(
            EditNode {
                included,
                children: marked(nodes.last().children, included),
                ..nodes.last()
            },
        )
    }
}

/// How many nodes there are.
pub open spec fn size(nodes: Seq<EditNode>) -> nat
    decreases nodes,
{
    if nodes.len() == 0 {
        0
    } else {
        size(nodes.drop_last()) + 1 + size(nodes.last().children)
    }
}

/// How many nodes are marked as included, whatever their ancestors are.
pub open spec fn marks(nodes: Seq<EditNode>) -> nat
    decreases nodes,
{
    if nodes.len() == 0 {
        0
    } else {
        marks(nodes.drop_last()) + marks(nodes.last().children) + if nodes.last().included {
            1nat
        } else {
            0nat
        }
    }
}

/// The node at the end of a path of child indices.
pub open spec fn node_at(nodes: Seq<EditNode>, path: Seq<usize>) -> Option<EditNode>
    decreases path.len(),
{
    if path.len() == 0 || path[0] >= nodes.len() {
        None
    } else if path.len() == 1 {
        Some(nodes[path[0] as int])
    } else {
        node_at(nodes[path[0] as int].children, path.skip(1))
    }
}

/// The forest with the node at the end of a path replaced.
pub open spec fn replaced(nodes: Seq<EditNode>, path: Seq<usize>, node: EditNode) -> Seq<EditNode>
    decreases path.len(),
{
    if path.len() == 0 || path[0] >= nodes.len() {
        nodes
    } else {
        let i = path[0] as int;
        nodes.update(
            i,
            if path.len() == 1 {
                node
            } else {
                EditNode { children: replaced(nodes[i].children, path.skip(1), node), ..nodes[i] }
            },
        )
    }
}

pub proof fn lemma_edit_tree_index(nodes: Seq<GuiNode>)
    ensures
        edit_tree(nodes).len() == nodes.len(),
        forall|i: int|
            0 <= i < nodes.len() ==> #[trigger] edit_tree(nodes)[i] == edit_node(nodes[i]),
    decreases nodes.len(),
{
    if nodes.len() > 0 {
        lemma_edit_tree_index(nodes.drop_last());
    }
}

proof fn lemma_edit_tree_push(nodes: Seq<GuiNode>, node: GuiNode)
    ensures
        edit_tree(nodes.push(node)) == edit_tree(nodes).push(edit_node(node)),
{
    assert(nodes.push(node).drop_last() =~= nodes);
}

proof fn lemma_edit_tree_update(nodes: Seq<GuiNode>, i: int)
    requires
        0 <= i < nodes.len(),
    ensures
        forall|node: GuiNode| #[trigger]
            edit_tree(nodes.update(i, node)) == edit_tree(nodes).update(i, edit_node(node)),
{
    lemma_edit_tree_index(nodes);
    assert forall|node: GuiNode| #[trigger]
        edit_tree(nodes.update(i, node)) == edit_tree(nodes).update(i, edit_node(node)) by {
        lemma_edit_tree_index(nodes.update(i, node));
        assert(edit_tree(nodes.update(i, node)) =~= edit_tree(nodes).update(i, edit_node(node)));
    }
}

impl GuiNode {
    /// What this node says.
    pub open spec fn view(&self) -> EditNode {
        edit_node(*self)
    }

    /// A new node: included, and without children.
    pub fn new(title: String, page: u32, roman: bool) -> (r: Self)
        ensures
            r@ == new_node(title@, page, roman),
    {
        GuiNode { included: true, title, page, roman, children: Vec::new() }
    }

    /// The editable tree of an outline, with every entry included.
    pub fn from_entries(entries: &[OutlineEntry]) -> (r: Vec<GuiNode>)
        ensures
            edit_tree(r@) == all_included(model::outline(entries@)),
        decreases entries@,
    {
        let mut out: Vec<GuiNode> = Vec::new();
        let ghost all = model::outline(entries@);
        let mut i: usize = 0;
        proof {
            model::lemma_outline_index(entries@);
        }
        while i < entries.len()
            invariant
                i <= entries@.len(),
                all == model::outline(entries@),
                all.len() == entries@.len(),
                edit_tree(out@) == all_included(all.take(i as int)),
            decreases entries@.len() - i,
        {
            let entry = &entries[i];
            let node = GuiNode {
                included: true,
                title: entry.title.clone(),
                page: entry.page,
                roman: entry.roman,
                children: GuiNode::from_entries(entry.children.as_slice()),
            };
            proof {
                model::lemma_outline_index(entries@);
                lemma_edit_tree_push(out@, node);
                assert(all.take(i + 1).drop_last() =~= all.take(i as int));
            }
            out.push(node);
            i += 1;
        }
        proof {
            assert(all.take(i as int) =~= all);
        }
        out
    }
}

/// Converts the tree back to outline entries, keeping only included nodes.
pub fn gui_to_entries(nodes: &[GuiNode]) -> (r: Vec<OutlineEntry>)
    ensures
        model::outline(r@) == selected(edit_tree(nodes@)),
    decreases nodes@,
{
    let mut out: Vec<OutlineEntry> = Vec::new();
    let ghost all = edit_tree(nodes@);
    let mut i: usize = 0;
    proof {
        lemma_edit_tree_index(nodes@);
    }
    while i < nodes.len()
        invariant
            i <= nodes@.len(),
            all == edit_tree(nodes@),
            all.len() == nodes@.len(),
            model::outline(out@) == selected(all.take(i as int)),
        decreases nodes@.len() - i,
    {
        let node = &nodes[i];
        proof {
            lemma_edit_tree_index(nodes@);
            assert(all.take(i + 1).drop_last() =~= all.take(i as int));
        }
        if node.included {
            let entry = OutlineEntry {
                title: node.title.clone(),
                page: node.page,
                roman: node.roman,
                children: gui_to_entries(node.children.as_slice()),
            };
            let ghost before = out@;
            out.push(entry);
            proof {
                assert(out@.drop_last() =~= before);
                assert(all.take(i + 1).last() == all[i as int]);
                assert(model::node_of(entry).children == selected(all[i as int].children));
            }
        }
        i += 1;
    }
    proof {
        assert(all.take(i as int) =~= all);
    }
    out
}

/// `(selected_count, total_count)` across the whole tree.
pub fn selection_counts(nodes: &[GuiNode]) -> (r: (usize, usize))
    ensures
        r.0 == numerals::wrap_size(marks(edit_tree(nodes@)) as int),
        r.1 == numerals::wrap_size(size(edit_tree(nodes@)) as int),
    decreases nodes@,
{
    let mut chosen: usize = 0;
    let mut total: usize = 0;
    let ghost all = edit_tree(nodes@);
    let mut i: usize = 0;
    proof {
        lemma_edit_tree_index(nodes@);
        numerals::wrap_size_is_exact(0);
        numerals::wrap_size_is_exact(1);
    }
    while i < nodes.len()
        invariant
            i <= nodes@.len(),
            all == edit_tree(nodes@),
            all.len() == nodes@.len(),
            numerals::wrap_size(0) == 0,
            numerals::wrap_size(1) == 1,
            chosen == numerals::wrap_size(marks(all.take(i as int)) as int),
            total == numerals::wrap_size(size(all.take(i as int)) as int),
        decreases nodes@.len() - i,
    {
        let node = &nodes[i];
        let (child_chosen, child_total) = selection_counts(node.children.as_slice());
        let own: usize = if node.included {
            1
        } else {
            0
        };
        proof {
            lemma_edit_tree_index(nodes@);
            assert(all.take(i + 1).drop_last() =~= all.take(i as int));
            let below = all[i as int].children;
            let before = all.take(i as int);
            numerals::lemma_wrap_size_sum(marks(before), marks(below));
            numerals::lemma_wrap_size_sum(marks(before) + marks(below), own as nat);
            numerals::lemma_wrap_size_sum(size(before), size(below));
            numerals::lemma_wrap_size_sum(size(before) + size(below), 1);
        }
        chosen = chosen.wrapping_add(child_chosen).wrapping_add(own);
        total = total.wrapping_add(child_total).wrapping_add(1);
        i += 1;
    }
    proof {
        assert(all.take(i as int) =~= all);
    }
    (chosen, total)
}

/// Marks every node of the tree as included, or as not included.
pub fn set_included(nodes: &mut Vec<GuiNode>, included: bool)
    ensures
        edit_tree(final(nodes)@) == marked(edit_tree(old(nodes)@), included),
    decreases old(nodes)@,
{
    let ghost before = nodes@;
    let ghost all = edit_tree(nodes@);
    let mut i: usize = 0;
    proof {
        lemma_edit_tree_index(nodes@);
    }
    while i < nodes.len()
        invariant
            i <= nodes@.len(),
            nodes@.len() == before.len(),
            before == old(nodes)@,
            all == edit_tree(before),
            all.len() == before.len(),
            edit_tree(nodes@.take(i as int)) == marked(all.take(i as int), included),
            forall|j: int| i <= j < before.len() ==> nodes@[j] == before[j],
        decreases before.len() - i,
    {
        let ghost current = nodes@;
        proof {
            lemma_edit_tree_index(before);
            assert(nodes@[i as int] == before[i as int]);
        }
        nodes[i].included = included;
        set_included(&mut nodes[i].children, included);
        proof {
            assert(nodes@.take(i as int) =~= current.take(i as int));
            assert(nodes@.take(i + 1).drop_last() =~= nodes@.take(i as int));
            assert(all.take(i + 1).drop_last() =~= all.take(i as int));
            let old_node = edit_node(before[i as int]);
            assert(all.take(i + 1).last() == old_node);
            assert(edit_node(nodes@[i as int]) == EditNode {
                included,
                children: marked(old_node.children, included),
                ..old_node
            });
        }
        i += 1;
    }
    proof {
        assert(nodes@.take(i as int) =~= nodes@);
        assert(all.take(i as int) =~= all);
    }
}

/// Mutable reference to the node at `path` (a sequence of child indices).
pub fn node_at_mut<'a>(nodes: &'a mut Vec<GuiNode>, path: &[usize]) -> (r: Option<&'a mut GuiNode>)
    ensures
        match r {
            Some(node) => node_at(edit_tree(old(nodes)@), path@) == Some(node@) && edit_tree(
                final(nodes)@,
            ) == replaced(edit_tree(old(nodes)@), path@, final(node)@),
            None => node_at(edit_tree(old(nodes)@), path@) is None && edit_tree(final(nodes)@)
                == edit_tree(old(nodes)@),
        },
    decreases path@.len(),
{
    proof {
        lemma_edit_tree_index(nodes@);
    }
    if path.len() == 0 || path[0] >= nodes.len() {
        return None;
    }
    let index: usize = path[0];
    proof {
        lemma_edit_tree_update(nodes@, index as int);
    }
    if path.len() == 1 {
        Some(&mut nodes[index])
    } else {
        let rest = slice_subrange(path, 1, path.len());
        proof {
            assert(rest@ =~= path@.skip(1));
        }
        node_at_mut(&mut nodes[index].children, rest)
    }
}

} // verus!
