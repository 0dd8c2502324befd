//! Nesting the flat lines of a table of contents into an outline tree.
use crate::model;
use crate::toc;
use crate::model::{OutlineEntry, OutlineNode};
use crate::toc::{TocItem, TocLine};
use vstd::prelude::*;

verus! {

/// A node of a tree without its children, and how deep it stands: 1 for a
/// top-level node.
#[verifier::ext_equal]
pub struct FlatNode {
    pub depth: nat,
    pub title: Seq<char>,
    pub page: u32,
    pub roman: bool,
}

/// A node at the given depth.
pub open spec fn at_depth(node: OutlineNode, depth: nat) -> FlatNode {
    FlatNode { depth, title: node.title, page: node.page, roman: node.roman }
}

/// The nodes of a forest, each before its children, where its roots stand at
/// the given depth.
pub open spec fn flatten(nodes: Seq<OutlineNode>, depth: nat) -> Seq<FlatNode>
    decreases nodes,
{
    if nodes.len() == 0 {
        seq![]
    } else {
        flatten(nodes.drop_last(), depth).push(at_depth(nodes.last(), depth)) + flatten(
            nodes.last().children,
            depth + 1,
        )
    }
}

/// The depth of the last of the lines. A line goes one step below the line
/// before it, or less deep if its level says so.
pub open spec fn last_depth(lines: Seq<TocItem>) -> nat
    decreases lines.len(),
{
    if lines.len() == 0 {
        0
    } else {
        let before = last_depth(lines.drop_last());
        let level = lines.last().level as nat;
        if level == 0 {
            1
        } else if level <= before {
            level
        } else {
            before + 1
        }
    }
}

/// The lines, each at the depth where it belongs in the tree.
pub open spec fn nested(lines: Seq<TocItem>) -> Seq<FlatNode>
    decreases lines.len(),
{
    if lines.len() == 0 {
        seq![]
    } else {
        let line = lines.last();
        nested(lines.drop_last()).push(
            FlatNode {
                depth: last_depth(lines),
                title: line.title,
                page: line.page,
                roman: line.is_roman,
            },
        )
    }
}

/// The nodes on the path to the node added last, each with the children that
/// it has so far.
spec fn flatten_path(path: Seq<OutlineEntry>) -> Seq<FlatNode>
    decreases path.len(),
{
    if path.len() == 0 {
        seq![]
    } else {
        flatten_path(path.drop_last()).push(at_depth(path.last()@, path.len())) + flatten(
            path.last()@.children,
            path.len() + 1,
        )
    }
}

proof fn lemma_flatten_push(nodes: Seq<OutlineNode>, node: OutlineNode, depth: nat)
    ensures
        flatten(nodes.push(node), depth) == flatten(nodes, depth).push(at_depth(node, depth))
            + flatten(node.children, depth + 1),
{
    assert(nodes.push(node).drop_last() =~= nodes);
}

/// The nodes of two forests side by side are those of the first and then
/// those of the second.
pub proof fn flatten_concatenates(a: Seq<OutlineNode>, b: Seq<OutlineNode>, depth: nat)
    ensures
        flatten(a + b, depth) == flatten(a, depth) + flatten(b, depth),
    decreases b.len(),
{
    if b.len() == 0 {
        assert(a + b =~= a);
        assert(flatten(a, depth) + seq![] =~= flatten(a, depth));
    } else {
        assert((a + b).drop_last() =~= a + b.drop_last());
        flatten_concatenates(a, b.drop_last(), depth);
        let head = flatten(b.drop_last(), depth);
        let below = flatten(b.last().children, depth + 1);
        assert((flatten(a, depth) + head).push(at_depth(b.last(), depth)) + below =~= flatten(
            a,
            depth,
        ) + (head.push(at_depth(b.last(), depth)) + below));
    }
}

proof fn lemma_outline_push(entries: Seq<OutlineEntry>, entry: OutlineEntry)
    ensures
        model::outline(entries.push(entry)) == model::outline(entries).push(entry@),
{
    assert(entries.push(entry).drop_last() =~= entries);
}

proof fn lemma_flatten_depth(nodes: Seq<OutlineNode>, depth: nat)
    ensures
        flatten(nodes, depth).len() == model::node_count(nodes),
        forall|i: int|
            0 <= i < flatten(nodes, depth).len() ==> (#[trigger] flatten(nodes, depth)[i]).depth
                >= depth,
    decreases nodes,
{
    if nodes.len() > 0 {
        lemma_flatten_depth(nodes.drop_last(), depth);
        lemma_flatten_depth(nodes.last().children, depth + 1);
        let head = flatten(nodes.drop_last(), depth);
        let below = flatten(nodes.last().children, depth + 1);
        assert forall|i: int| 0 <= i < flatten(nodes, depth).len() implies (#[trigger] flatten(
            nodes,
            depth,
        )[i]).depth >= depth by {
            if i < head.len() {
                assert(flatten(nodes, depth)[i] == head[i]);
            } else if i > head.len() {
                assert(flatten(nodes, depth)[i] == below[i - head.len() - 1]);
            }
        }
    }
}

/// The nodes of a forest are as many as it has nodes.
pub proof fn flatten_counts_nodes(nodes: Seq<OutlineNode>, depth: nat)
    ensures
        flatten(nodes, depth).len() == model::node_count(nodes),
{
    lemma_flatten_depth(nodes, depth);
}

/// The nodes of a forest with their depths determine the forest.
pub proof fn flatten_is_injective(a: Seq<OutlineNode>, b: Seq<OutlineNode>, depth: nat)
    requires
        flatten(a, depth) == flatten(b, depth),
    ensures
        a == b,
    decreases a,
{
    lemma_flatten_depth(a, depth);
    lemma_flatten_depth(b, depth);
    if a.len() > 0 && b.len() > 0 {
        let all = flatten(a, depth);
        let head_a = flatten(a.drop_last(), depth);
        let head_b = flatten(b.drop_last(), depth);
        let below_a = flatten(a.last().children, depth + 1);
        let below_b = flatten(b.last().children, depth + 1);
        lemma_flatten_depth(a.last().children, depth + 1);
        lemma_flatten_depth(b.last().children, depth + 1);
        let n = head_a.len() as int;
        let m = head_b.len() as int;
        assert(all[n] == at_depth(a.last(), depth));
        assert(all[m] == at_depth(b.last(), depth));
        if n < m {
            assert(all[m] == below_a[m - n - 1]);
        } else if m < n {
            assert(all[n] == below_b[n - m - 1]);
        }
        assert(n == m);
        assert(head_a =~= all.take(n));
        assert(head_b =~= all.take(n));
        assert(below_a =~= all.skip(n + 1));
        assert(below_b =~= all.skip(n + 1));
        flatten_is_injective(a.drop_last(), b.drop_last(), depth);
        flatten_is_injective(a.last().children, b.last().children, depth + 1);
        assert(a.last() == b.last());
        assert(a =~= a.drop_last().push(a.last()));
        assert(b =~= b.drop_last().push(b.last()));
    } else {
        assert(a =~= b);
    }
}

/// Nesting keeps every line, in order, with its title and its page.
pub proof fn nesting_keeps_lines(lines: Seq<TocItem>)
    ensures
        nested(lines).len() == lines.len(),
        forall|i: int|
            0 <= i < lines.len() ==> (#[trigger] nested(lines)[i]) == (FlatNode {
                depth: last_depth(lines.take(i + 1)),
                title: lines[i].title,
                page: lines[i].page,
                roman: lines[i].is_roman,
            }),
    decreases lines.len(),
{
    if lines.len() > 0 {
        let before = lines.drop_last();
        nesting_keeps_lines(before);
        assert forall|i: int| 0 <= i < lines.len() implies (#[trigger] nested(lines)[i]) == (
        FlatNode {
            depth: last_depth(lines.take(i + 1)),
            title: lines[i].title,
            page: lines[i].page,
            roman: lines[i].is_roman,
        }) by {
            if i < before.len() {
                assert(before.take(i + 1) =~= lines.take(i + 1));
                assert(nested(lines)[i] == nested(before)[i]);
            } else {
                assert(lines.take(i + 1) =~= lines);
            }
        }
    }
}

/// A further line keeps the nodes before it and comes last, with its title and
/// its page. It stands at the depth that its level asks for, but at least at
/// depth 1 and at most one step below the line before it.
pub proof fn a_line_stands_as_deep_as_it_asks_for(lines: Seq<TocItem>, line: TocItem)
    ensures
        nested(seq![]) == Seq::<FlatNode>::empty(),
        nested(lines.push(line)).len() == nested(lines).len() + 1,
        nested(lines).is_prefix_of(nested(lines.push(line))),
        ({
            let before = if nested(lines).len() == 0 {
                0
            } else {
                nested(lines).last().depth
            };
            let node = nested(lines.push(line)).last();
            &&& node.title == line.title
            &&& node.page == line.page
            &&& node.roman == line.is_roman
            &&& 1 <= node.depth <= before + 1
            &&& line.level >= 1 ==> node.depth <= line.level
            &&& 1 <= line.level <= before + 1 ==> node.depth == line.level
            &&& line.level > before + 1 ==> node.depth == before + 1
            &&& line.level == 0 ==> node.depth == 1
        }),
{
    assert(lines.push(line).drop_last() =~= lines);
    if lines.len() > 0 {
        lemma_depth_is_positive(lines);
    }
}

/// A tree is read from its root down: the root at its own depth, then what
/// stands below it, one step deeper.
pub proof fn a_root_comes_before_what_stands_below_it(node: OutlineNode, depth: nat)
    ensures
        flatten(seq![node], depth) == seq![
            FlatNode { depth, title: node.title, page: node.page, roman: node.roman },
        ] + flatten(node.children, depth + 1),
        flatten(seq![], depth) == Seq::<FlatNode>::empty(),
{
    let one = seq![node];
    assert(one.drop_last() =~= seq![]);
    assert(flatten(one.drop_last(), depth) =~= seq![]);
    assert(flatten(one, depth) =~= seq![at_depth(node, depth)] + flatten(
        node.children,
        depth + 1,
    ));
}

/// A tree that nests the lines has as many nodes as there are lines.
pub proof fn tree_counts_lines(nodes: Seq<OutlineNode>, lines: Seq<TocItem>)
    requires
        flatten(nodes, 1) == nested(lines),
    ensures
        model::node_count(nodes) == lines.len(),
{
    lemma_flatten_depth(nodes, 1);
    nesting_keeps_lines(lines);
}

/// A line at level 1 starts a top-level entry, whatever came before it.
pub proof fn top_level_lines_are_roots(lines: Seq<TocItem>)
    requires
        lines.len() > 0,
        lines.last().level <= 1,
    ensures
        last_depth(lines) == 1,
    decreases lines.len(),
{
    if lines.len() > 1 {
        lemma_depth_is_positive(lines.drop_last());
    }
}

proof fn lemma_depth_is_positive(lines: Seq<TocItem>)
    requires
        lines.len() > 0,
    ensures
        last_depth(lines) >= 1,
{
}

/// Where no line goes more than one level below the one before it, and the
/// first is at level 1, the lines stand as deep as their levels say.
pub proof fn levels_are_depths(lines: Seq<TocItem>)
    requires
        lines.len() > 0 ==> lines[0].level == 1,
        forall|i: int|
            0 <= i < lines.len() - 1 ==> 1 <= #[trigger] lines[i + 1].level <= lines[i].level + 1,
    ensures
        forall|i: int|
            0 <= i < lines.len() ==> (#[trigger] nested(lines)[i]).depth == lines[i].level,
    decreases lines.len(),
{
    if lines.len() > 0 {
        let before = lines.drop_last();
        assert forall|i: int| 0 <= i < before.len() - 1 implies 1 <= #[trigger] before[i + 1].level
            <= before[i].level + 1 by {
            assert(before[i + 1] == lines[i + 1]);
        }
        levels_are_depths(before);
        nesting_keeps_lines(before);
        nesting_keeps_lines(lines);
        if before.len() > 0 {
            let n = before.len() - 1;
            assert(nested(before)[n].depth == lines[n].level);
            assert(before.take(n + 1) =~= before);
            assert(lines[n + 1].level <= lines[n].level + 1);
        }
        assert forall|i: int| 0 <= i < lines.len() implies (#[trigger] nested(lines)[i]).depth
            == lines[i].level by {
            if i < before.len() {
                assert(nested(lines)[i] == nested(before)[i]);
            }
        }
    }
}

/// Moves the last node of the path to the children of the node above it, or
/// to the roots if it is the only one.
fn close_last(roots: &mut Vec<OutlineEntry>, path: &mut Vec<OutlineEntry>)
    requires
        old(path)@.len() > 0,
    ensures
        final(path)@.len() == old(path)@.len() - 1,
        flatten(model::outline(final(roots)@), 1) + flatten_path(final(path)@) == flatten(
            model::outline(old(roots)@),
            1,
        ) + flatten_path(old(path)@),
{
    let ghost above = path@.drop_last();
    let ghost whole = path@;
    if let Some(node) = path.pop() {
        let ghost roots_before = roots@;
        match path.pop() {
            Some(parent) => {
                let mut parent = parent;
                let ghost parent_before = parent;
                parent.children.push(node);
                path.push(parent);
                proof {
                    let top = above.drop_last();
                    let d = above.len();
                    assert(path@.drop_last() =~= top);
                    lemma_outline_push(parent_before.children@, node);
                    lemma_flatten_push(model::outline(parent_before.children@), node@, d + 1);
                    let row = flatten(model::outline(parent_before.children@), d + 1);
                    let head = flatten_path(top).push(at_depth(parent_before@, d));
                    assert(parent@.children == model::outline(parent.children@));
                    assert(parent_before@.children == model::outline(parent_before.children@));
                    assert(flatten_path(above) == head + row);
                    assert(flatten_path(whole) == (head + row).push(at_depth(node@, d + 1))
                        + flatten(node@.children, d + 2));
                    assert(flatten_path(path@) == head + flatten(parent@.children, d + 1));
                    assert((head + row).push(at_depth(node@, d + 1)) + flatten(
                        node@.children,
                        d + 2,
                    ) =~= head + (row.push(at_depth(node@, d + 1)) + flatten(
                        node@.children,
                        d + 2,
                    )));
                }
            },
            None => {
                roots.push(node);
                proof {
                    lemma_outline_push(roots_before, node);
                    lemma_flatten_push(model::outline(roots_before), node@, 1);
                    let row = flatten(model::outline(roots_before), 1);
                    assert(above =~= seq![]);
                    assert(flatten_path(above) =~= seq![]);
                    assert(path@ =~= seq![]);
                    assert(row + (seq![].push(at_depth(node@, 1)) + flatten(node@.children, 2))
                        =~= (row.push(at_depth(node@, 1)) + flatten(node@.children, 2)) + seq![]);
                }
            },
        }
    }
}

/// Builds a hierarchical outline tree from the flat lines of a table of
/// contents.
pub fn build_toc_tree(lines: &[TocLine]) -> (r: Vec<OutlineEntry>)
    ensures
        flatten(model::outline(r@), 1) == nested(toc::items(lines@)),
{
    let mut roots: Vec<OutlineEntry> = Vec::new();
    let mut path: Vec<OutlineEntry> = Vec::new();
    let ghost all = toc::items(lines@);
    let mut i: usize = 0;
    while i < lines.len()
        invariant
            i <= lines@.len(),
            all == toc::items(lines@),
            flatten(model::outline(roots@), 1) + flatten_path(path@) == nested(all.take(i as int)),
            path@.len() == last_depth(all.take(i as int)),
        decreases lines@.len() - i,
    {
        let line = &lines[i];
        while path.len() > 0 && path.len() >= line.level as usize
            invariant
                i < lines@.len(),
                *line == lines@[i as int],
                flatten(model::outline(roots@), 1) + flatten_path(path@) == nested(
                    all.take(i as int),
                ),
                path@.len() <= last_depth(all.take(i as int)),
                path@.len() >= line.level - 1 || path@.len() == last_depth(all.take(i as int)),
            decreases path@.len(),
        {
            close_last(&mut roots, &mut path);
        }
        let entry = OutlineEntry {
            title: line.title.clone(),
            page: line.page,
            roman: line.is_roman,
            children: Vec::new(),
        };
        let ghost before = path@;
        path.push(entry);
        proof {
            assert(path@.drop_last() =~= before);
            assert(all.take(i + 1).drop_last() =~= all.take(i as int));
            assert(all[i as int] == lines@[i as int]@);
            assert(flatten(entry@.children, path@.len() + 1) =~= seq![]);
            assert(flatten(model::outline(roots@), 1) + flatten_path(path@) =~= nested(
                all.take(i + 1),
            ));
        }
        i += 1;
    }
    proof {
        assert(all.take(i as int) =~= all);
    }
    while path.len() > 0
        invariant
            flatten(model::outline(roots@), 1) + flatten_path(path@) == nested(all),
        decreases path@.len(),
    {
        close_last(&mut roots, &mut path);
    }
    proof {
        assert(flatten(model::outline(roots@), 1) + seq![] =~= flatten(model::outline(roots@), 1));
    }
    roots
}

} // verus!
