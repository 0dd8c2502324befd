//! Outline trees.
use crate::numerals;
use vstd::prelude::*;

verus! {

/// A single table-of-contents entry; children nest arbitrarily deep.
#[derive(Debug)]
pub struct OutlineEntry {
    pub title: String,
    pub page: u32,
    pub roman: bool,
    pub children: Vec<OutlineEntry>,
}

/// What an [`OutlineEntry`] says: its text, its page and its subtree.
#[verifier::ext_equal]
pub struct OutlineNode {
    pub title: Seq<char>,
    pub page: u32,
    pub roman: bool,
    pub children: Seq<OutlineNode>,
}

impl OutlineEntry {
    /// The node that this entry stands for.
    pub open spec fn view(&self) -> OutlineNode {
        node_of(*self)
    }
}

impl Clone for OutlineEntry {
    fn clone(&self) -> (r: Self)
        ensures
            r@ == self@,
        decreases self,
    {
        let mut children: Vec<OutlineEntry> = Vec::new();
        let mut i: usize = 0;
        while i < self.children.len()
            invariant
                i <= self.children@.len(),
                children@.len() == i,
                outline(children@) == outline(self.children@.take(i as int)),
            decreases self.children@.len() - i,
        {
            let child = self.children[i].clone();
            let ghost before = children@;
            children.push(child);
            proof {
                assert(children@.drop_last() =~= before);
                assert(self.children@.take(i + 1).drop_last() =~= self.children@.take(i as int));
            }
            i += 1;
        }
        proof {
            assert(self.children@.take(i as int) =~= self.children@);
        }
        OutlineEntry { title: self.title.clone(), page: self.page, roman: self.roman, children }
    }
}

/// The node that an entry stands for.
pub open spec fn node_of(entry: OutlineEntry) -> OutlineNode
    decreases entry,
{
    OutlineNode {
        title: entry.title@,
        page: entry.page,
        roman: entry.roman,
        children: outline(entry.children@),
    }
}

/// The nodes that a row of entries stands for.
pub open spec fn outline(entries: Seq<OutlineEntry>) -> Seq<OutlineNode>
    decreases entries,
{
    if entries.len() == 0 {
        seq![]
    } else {
        outline(entries.drop_last()).push(node_of(entries.last()))
    }
}

/// How many nodes a forest holds, descendants included.
pub open spec fn node_count(nodes: Seq<OutlineNode>) -> nat
    decreases nodes,
{
    if nodes.len() == 0 {
        0
    } else {
        node_count(nodes.drop_last()) + 1 + node_count(nodes.last().children)
    }
}

pub proof fn lemma_outline_index(entries: Seq<OutlineEntry>)
    ensures
        outline(entries).len() == entries.len(),
        forall|i: int|
            0 <= i < entries.len() ==> #[trigger] outline(entries)[i] == node_of(entries[i]),
    decreases entries.len(),
{
    if entries.len() > 0 {
        lemma_outline_index(entries.drop_last());
    }
}

pub proof fn lemma_node_count_take(nodes: Seq<OutlineNode>, n: int)
    requires
        0 <= n <= nodes.len(),
    ensures
        node_count(nodes.take(n)) <= node_count(nodes),
        n < nodes.len() ==> node_count(nodes.take(n + 1)) == node_count(nodes.take(n)) + 1
            + node_count(nodes[n].children),
    decreases nodes.len(),
{
    if n < nodes.len() {
        assert(nodes.take(n + 1).drop_last() =~= nodes.take(n));
        lemma_node_count_take(nodes.drop_last(), n);
        assert(nodes.drop_last().take(n) =~= nodes.take(n));
    } else {
        assert(nodes.take(n) =~= nodes);
    }
}

/// Total number of entries including all descendants.
pub fn count_all(entries: &[OutlineEntry]) -> (r: usize)
    ensures
        r == numerals::wrap_size(node_count(outline(entries@)) as int),
    decreases entries@,
{
    let mut total: usize = 0;
    let mut i: usize = 0;
    proof {
        lemma_outline_index(entries@);
        numerals::wrap_size_is_exact(0);
        numerals::wrap_size_is_exact(1);
    }
    while i < entries.len()
        invariant
            i <= entries@.len(),
            outline(entries@).len() == entries@.len(),
            numerals::wrap_size(1) == 1,
            total == numerals::wrap_size(node_count(outline(entries@).take(i as int)) as int),
        decreases entries@.len() - i,
    {
        let below: usize = count_all(entries[i].children.as_slice());
        proof {
            lemma_outline_index(entries@);
            lemma_node_count_take(outline(entries@), i as int);
            let before = node_count(outline(entries@).take(i as int));
            numerals::lemma_wrap_size_sum(before, 1);
            numerals::lemma_wrap_size_sum(
                before + 1,
                node_count(outline(entries@)[i as int].children),
            );
        }
        total = total.wrapping_add(1).wrapping_add(below);
        i += 1;
    }
    proof {
        assert(outline(entries@).take(i as int) =~= outline(entries@));
    }
    total
}

/// An entry says what its fields hold, and a row says what its entries say,
/// one for one.
pub proof fn entries_say_what_they_hold(entry: OutlineEntry, row: Seq<OutlineEntry>)
    ensures
        entry@.title == entry.title@,
        entry@.page == entry.page,
        entry@.roman == entry.roman,
        entry@.children == outline(entry.children@),
        outline(row).len() == row.len(),
        forall|i: int| 0 <= i < row.len() ==> #[trigger] outline(row)[i] == row[i]@,
{
    lemma_outline_index(row);
}

/// A node behind a row adds itself and the nodes below it to the count.
pub proof fn nodes_are_counted_with_their_descendants(row: Seq<OutlineNode>, node: OutlineNode)
    ensures
        node_count(Seq::<OutlineNode>::empty()) == 0,
        node_count(row.push(node)) == node_count(row) + node_count(node.children) + 1,
{
    assert(row.push(node).drop_last() =~= row);
}

} // verus!
