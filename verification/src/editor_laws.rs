//! What holds of the editable outline tree.
use crate::editor;
use crate::model;
use crate::numerals;
use crate::editor::{EditNode, GuiNode};
use crate::model::OutlineNode;
use vstd::prelude::*;

verus! {

/// An outline that is loaded and left alone comes back as it was.
pub proof fn loaded_outline_is_kept(nodes: Seq<OutlineNode>)
    ensures
        editor::selected(editor::all_included(nodes)) == nodes,
        editor::size(editor::all_included(nodes)) == model::node_count(nodes),
        editor::marks(editor::all_included(nodes)) == model::node_count(nodes),
    decreases nodes,
{
    if nodes.len() == 0 {
        assert(nodes =~= seq![]);
    } else {
        let before = nodes.drop_last();
        let all = editor::all_included(nodes);
        loaded_outline_is_kept(before);
        loaded_outline_is_kept(nodes.last().children);
        assert(all.drop_last() =~= editor::all_included(before));
        assert(nodes =~= before.push(nodes.last()));
    }
}

/// Including nothing selects nothing. Including everything selects the whole
/// tree, and its nodes are those of the tree. Either way the tree keeps its
/// size.
pub proof fn marking_reaches_every_node(nodes: Seq<EditNode>)
    ensures
        editor::selected(editor::marked(nodes, false)).len() == 0,
        editor::marks(editor::marked(nodes, false)) == 0,
        editor::marks(editor::marked(nodes, true)) == editor::size(nodes),
        model::node_count(editor::selected(editor::marked(nodes, true))) == editor::size(nodes),
        editor::size(editor::marked(nodes, true)) == editor::size(nodes),
        editor::size(editor::marked(nodes, false)) == editor::size(nodes),
    decreases nodes,
{
    if nodes.len() > 0 {
        let before = nodes.drop_last();
        marking_reaches_every_node(before);
        marking_reaches_every_node(nodes.last().children);
        assert(editor::marked(nodes, true).drop_last() =~= editor::marked(before, true));
        assert(editor::marked(nodes, false).drop_last() =~= editor::marked(before, false));
        let chosen = editor::selected(editor::marked(nodes, true));
        assert(chosen.drop_last() =~= editor::selected(editor::marked(before, true)));
    }
}

/// Only the last of two markings counts.
pub proof fn last_marking_counts(nodes: Seq<EditNode>, first: bool, second: bool)
    ensures
        editor::marked(editor::marked(nodes, first), second) == editor::marked(nodes, second),
    decreases nodes,
{
    if nodes.len() > 0 {
        let before = nodes.drop_last();
        last_marking_counts(before, first, second);
        last_marking_counts(nodes.last().children, first, second);
        assert(editor::marked(nodes, first).drop_last() =~= editor::marked(before, first));
    }
}

/// There are no more selected entries than marks, and no more marks than
/// nodes. The same holds of the counts as [`crate::count_all`] and
/// [`crate::editor::selection_counts`] give them, where the nodes can be
/// counted at all.
pub proof fn selection_is_within_marks(nodes: Seq<EditNode>)
    ensures
        model::node_count(editor::selected(nodes)) <= editor::marks(nodes) <= editor::size(nodes),
        editor::size(nodes) <= usize::MAX ==> numerals::wrap_size(
            model::node_count(editor::selected(nodes)) as int,
        ) <= numerals::wrap_size(editor::marks(nodes) as int) <= numerals::wrap_size(
            editor::size(nodes) as int,
        ),
    decreases nodes,
{
    if nodes.len() > 0 {
        let before = nodes.drop_last();
        selection_is_within_marks(before);
        selection_is_within_marks(nodes.last().children);
        if nodes.last().included {
            let chosen = editor::selected(nodes);
            assert(chosen.drop_last() =~= editor::selected(before));
        }
    }
    if editor::size(nodes) <= usize::MAX {
        numerals::wrap_size_is_exact(model::node_count(editor::selected(nodes)));
        numerals::wrap_size_is_exact(editor::marks(nodes));
        numerals::wrap_size_is_exact(editor::size(nodes));
    }
}

/// Whether one path leads through the end of another.
pub open spec fn passes(path: Seq<usize>, start: Seq<usize>) -> bool {
    start.len() <= path.len() && path.take(start.len() as int) == start
}

/// A replaced node is found at its path, and putting a node back where it is
/// changes nothing.
pub proof fn replaced_node_is_found(nodes: Seq<EditNode>, path: Seq<usize>, node: EditNode)
    requires
        editor::node_at(nodes, path) is Some,
    ensures
        editor::node_at(editor::replaced(nodes, path, node), path) == Some(node),
        editor::replaced(nodes, path, editor::node_at(nodes, path)->0) == nodes,
    decreases path.len(),
{
    let i = path[0] as int;
    if path.len() > 1 {
        replaced_node_is_found(nodes[i].children, path.skip(1), node);
    }
    assert(editor::replaced(nodes, path, editor::node_at(nodes, path)->0) =~= nodes);
}

/// Replacing a node leaves the nodes alone that are neither above nor below
/// it.
pub proof fn other_nodes_are_kept(
    nodes: Seq<EditNode>,
    path: Seq<usize>,
    node: EditNode,
    other: Seq<usize>,
)
    requires
        !passes(path, other),
        !passes(other, path),
    ensures
        editor::node_at(editor::replaced(nodes, path, node), other) == editor::node_at(
            nodes,
            other,
        ),
    decreases path.len(),
{
    if path.len() == 0 {
        assert(other.take(0) =~= path);
    } else if other.len() == 0 {
        assert(path.take(0) =~= other);
    } else if path[0] < nodes.len() && path[0] == other[0] {
        let i = path[0] as int;
        if path.len() == 1 {
            assert(other.take(1) =~= path);
        } else if other.len() == 1 {
            assert(path.take(1) =~= other);
        } else {
            if passes(path.skip(1), other.skip(1)) {
                assert(path.take(other.len() as int) =~= seq![path[0]] + path.skip(1).take(
                    other.len() - 1,
                ));
                assert(other =~= seq![other[0]] + other.skip(1));
            }
            if passes(other.skip(1), path.skip(1)) {
                assert(other.take(path.len() as int) =~= seq![other[0]] + other.skip(1).take(
                    path.len() - 1,
                ));
                assert(path =~= seq![path[0]] + path.skip(1));
            }
            other_nodes_are_kept(nodes[i].children, path.skip(1), node, other.skip(1));
        }
    }
}

/// A node says what its fields hold, and so do its children, one for one.
pub proof fn nodes_say_what_they_hold(node: GuiNode, row: Seq<GuiNode>)
    ensures
        node@.included == node.included,
        node@.title == node.title@,
        node@.page == node.page,
        node@.roman == node.roman,
        node@.children == editor::edit_tree(node.children@),
        editor::edit_tree(row).len() == row.len(),
        forall|i: int| 0 <= i < row.len() ==> #[trigger] editor::edit_tree(row)[i] == row[i]@,
{
    editor::lemma_edit_tree_index(row);
}

/// A new node is included and has no children.
pub proof fn new_nodes_are_included(title: Seq<char>, page: u32, roman: bool)
    ensures
        editor::new_node(title, page, roman).included,
        editor::new_node(title, page, roman).title == title,
        editor::new_node(title, page, roman).page == page,
        editor::new_node(title, page, roman).roman == roman,
        editor::new_node(title, page, roman).children.len() == 0,
{
}

/// A loaded outline has one node for each entry, at its place, included and
/// with the entry's title, page and Roman mark.
pub proof fn loaded_nodes_stand_for_their_entries(nodes: Seq<OutlineNode>)
    ensures
        editor::all_included(nodes).len() == nodes.len(),
        forall|i: int|
            #![trigger editor::all_included(nodes)[i]]
            0 <= i < nodes.len() ==> {
                let node = editor::all_included(nodes)[i];
                &&& node.included
                &&& node.title == nodes[i].title
                &&& node.page == nodes[i].page
                &&& node.roman == nodes[i].roman
                &&& node.children == editor::all_included(nodes[i].children)
            },
    decreases nodes.len(),
{
    if nodes.len() > 0 {
        loaded_nodes_stand_for_their_entries(nodes.drop_last());
    }
}

/// A node behind a row that is not included adds nothing to the selection,
/// whatever is below it. An included one adds one entry, with its title, its
/// page and its Roman mark, and below it the selection of its own children.
pub proof fn only_included_nodes_are_selected(row: Seq<EditNode>, node: EditNode)
    ensures
        editor::selected(Seq::<EditNode>::empty()).len() == 0,
        !node.included ==> editor::selected(row.push(node)) == editor::selected(row),
        node.included ==> editor::selected(row.push(node)) == editor::selected(row).push(
            OutlineNode {
                title: node.title,
                page: node.page,
                roman: node.roman,
                children: editor::selected(node.children),
            },
        ),
{
    assert(row.push(node).drop_last() =~= row);
}

/// The selection of two rows, one behind the other, is that of the first and
/// that of the second behind it.
pub proof fn rows_are_selected_one_by_one(first: Seq<EditNode>, second: Seq<EditNode>)
    ensures
        editor::selected(first + second) == editor::selected(first) + editor::selected(second),
    decreases second.len(),
{
    if second.len() == 0 {
        assert(first + second =~= first);
        assert(editor::selected(first) + editor::selected(second) =~= editor::selected(first));
    } else {
        rows_are_selected_one_by_one(first, second.drop_last());
        assert((first + second).drop_last() =~= first + second.drop_last());
        assert(editor::selected(first + second) =~= editor::selected(first) + editor::selected(
            second,
        ));
    }
}

/// The selection of a row is that of the row without the nodes that are not
/// included, whatever the marks below these are. It has one entry for each
/// included node of the row, in the same order, with the node's title, page
/// and Roman mark; below the entry is the selection of the node's children.
pub proof fn selection_has_one_entry_for_each_included_node(row: Seq<EditNode>)
    ensures
        ({
            let ticked = row.filter(|node: EditNode| node.included);
            &&& editor::selected(row) == editor::selected(ticked)
            &&& editor::selected(row).len() == ticked.len()
            &&& forall|i: int|
                #![trigger editor::selected(row)[i]]
                0 <= i < ticked.len() ==> {
                    let entry = editor::selected(row)[i];
                    &&& entry.title == ticked[i].title
                    &&& entry.page == ticked[i].page
                    &&& entry.roman == ticked[i].roman
                    &&& entry.children == editor::selected(ticked[i].children)
                }
        }),
    decreases row.len(),
{
    reveal(Seq::filter);
    let test = |node: EditNode| node.included;
    let ticked = row.filter(test);
    if row.len() > 0 {
        let before = row.drop_last();
        selection_has_one_entry_for_each_included_node(before);
        let ticked_before = before.filter(test);
        if row.last().included {
            assert(ticked == ticked_before.push(row.last()));
            assert(ticked.drop_last() =~= ticked_before);
        } else {
            assert(ticked == ticked_before);
        }
    }
}

/// Marking keeps every node at its place, with its title, its page and its
/// Roman mark, and marks it and all nodes below it.
pub proof fn marking_changes_marks_only(nodes: Seq<EditNode>, included: bool)
    ensures
        editor::marked(nodes, included).len() == nodes.len(),
        forall|i: int|
            #![trigger editor::marked(nodes, included)[i]]
            0 <= i < nodes.len() ==> {
                let node = editor::marked(nodes, included)[i];
                &&& node.included == included
                &&& node.title == nodes[i].title
                &&& node.page == nodes[i].page
                &&& node.roman == nodes[i].roman
                &&& node.children == editor::marked(nodes[i].children, included)
            },
    decreases nodes.len(),
{
    if nodes.len() > 0 {
        marking_changes_marks_only(nodes.drop_last(), included);
    }
}

/// A node behind a row adds itself and the nodes below it to the size, and
/// its own mark and those below it to the marks, whether it is included or
/// not.
pub proof fn nodes_are_counted_with_those_below(row: Seq<EditNode>, node: EditNode)
    ensures
        editor::size(Seq::<EditNode>::empty()) == 0,
        editor::marks(Seq::<EditNode>::empty()) == 0,
        editor::size(row.push(node)) == editor::size(row) + editor::size(node.children) + 1,
        node.included ==> editor::marks(row.push(node)) == editor::marks(row) + editor::marks(
            node.children,
        ) + 1,
        !node.included ==> editor::marks(row.push(node)) == editor::marks(row) + editor::marks(
            node.children,
        ),
{
    assert(row.push(node).drop_last() =~= row);
}

/// A path of one index names a node of the row; a longer one names what its
/// rest names below that node. A path that is empty, or leaves the tree, names
/// nothing.
pub proof fn paths_lead_from_child_to_child(nodes: Seq<EditNode>, i: usize, rest: Seq<usize>)
    ensures
        editor::node_at(nodes, Seq::<usize>::empty()) is None,
        i < nodes.len() ==> editor::node_at(nodes, seq![i]) == Some(nodes[i as int]),
        i < nodes.len() && rest.len() > 0 ==> editor::node_at(nodes, seq![i] + rest)
            == editor::node_at(nodes[i as int].children, rest),
        i >= nodes.len() ==> editor::node_at(nodes, seq![i] + rest) is None,
{
    assert((seq![i] + rest).skip(1) =~= rest);
}

/// The nodes above a replaced one keep their marks, titles and pages, and as
/// many children as they had.
pub proof fn nodes_above_are_kept(
    nodes: Seq<EditNode>,
    path: Seq<usize>,
    node: EditNode,
    above: Seq<usize>,
)
    requires
        editor::node_at(nodes, path) is Some,
        passes(path, above),
        0 < above.len() < path.len(),
    ensures
        editor::replaced(nodes, path, node).len() == nodes.len(),
        editor::node_at(nodes, above) is Some,
        editor::node_at(editor::replaced(nodes, path, node), above) is Some,
        ({
            let was = editor::node_at(nodes, above)->0;
            let is = editor::node_at(editor::replaced(nodes, path, node), above)->0;
            &&& is.included == was.included
            &&& is.title == was.title
            &&& is.page == was.page
            &&& is.roman == was.roman
            &&& is.children.len() == was.children.len()
        }),
    decreases path.len(),
{
    let i = path[0] as int;
    assert(above[0] == path.take(above.len() as int)[0]);
    if above.len() > 1 {
        assert(path.skip(1).take(above.len() - 1) =~= above.skip(1)) by {
            assert(path.take(above.len() as int).skip(1) =~= above.skip(1));
        }
        nodes_above_are_kept(nodes[i].children, path.skip(1), node, above.skip(1));
    }
}

} // verus!
