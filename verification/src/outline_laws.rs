//! What holds of every outline that is put into a document.
use crate::lopdf_items;
use crate::mapping;
use crate::model;
use crate::outline;
use crate::pages;
use crate::pdf_value;
use crate::model::OutlineNode;
use crate::outline::{Placement, SkippedEntry};
use crate::titles;
use crate::pages::{OutlineError, OutlineFault};
use crate::mapping::PageMapping;
use crate::pdf_value::PdfValue;
use lopdf::{Document, ObjectId};
use vstd::prelude::*;

verus! {

/// The id that an item names under a key.
pub open spec fn link(
    objects: Map<ObjectId, PdfValue>,
    id: ObjectId,
    key: &str,
) -> Option<ObjectId> {
    pages::reference_under(objects[id]->Dictionary_0, pdf_value::name(key))
}

proof fn lemma_keys_differ()
    ensures
        pdf_value::name("Title") != pdf_value::name("Parent"),
        pdf_value::name("Title") != pdf_value::name("Dest"),
        pdf_value::name("Title") != pdf_value::name("First"),
        pdf_value::name("Title") != pdf_value::name("Last"),
        pdf_value::name("Title") != pdf_value::name("Count"),
        pdf_value::name("Title") != pdf_value::name("Prev"),
        pdf_value::name("Title") != pdf_value::name("Next"),
        pdf_value::name("Parent") != pdf_value::name("Dest"),
        pdf_value::name("Parent") != pdf_value::name("First"),
        pdf_value::name("Parent") != pdf_value::name("Last"),
        pdf_value::name("Parent") != pdf_value::name("Count"),
        pdf_value::name("Parent") != pdf_value::name("Prev"),
        pdf_value::name("Parent") != pdf_value::name("Next"),
        pdf_value::name("Dest") != pdf_value::name("First"),
        pdf_value::name("Dest") != pdf_value::name("Last"),
        pdf_value::name("Dest") != pdf_value::name("Count"),
        pdf_value::name("Dest") != pdf_value::name("Prev"),
        pdf_value::name("Dest") != pdf_value::name("Next"),
        pdf_value::name("First") != pdf_value::name("Last"),
        pdf_value::name("First") != pdf_value::name("Count"),
        pdf_value::name("First") != pdf_value::name("Prev"),
        pdf_value::name("First") != pdf_value::name("Next"),
        pdf_value::name("Last") != pdf_value::name("Count"),
        pdf_value::name("Last") != pdf_value::name("Prev"),
        pdf_value::name("Last") != pdf_value::name("Next"),
        pdf_value::name("Count") != pdf_value::name("Prev"),
        pdf_value::name("Count") != pdf_value::name("Next"),
        pdf_value::name("Prev") != pdf_value::name("Next"),
        pdf_value::name("Type") != pdf_value::name("First"),
        pdf_value::name("Type") != pdf_value::name("Last"),
        pdf_value::name("Type") != pdf_value::name("Count"),
{
    reveal_strlit("Title");
    reveal_strlit("Parent");
    reveal_strlit("Dest");
    reveal_strlit("First");
    reveal_strlit("Last");
    reveal_strlit("Count");
    reveal_strlit("Prev");
    reveal_strlit("Next");
    reveal_strlit("Type");
    assert("Title"@[0] == 'T' && "Parent"@[0] == 'P' && "Dest"@[0] == 'D' && "First"@[0] == 'F'
        && "Last"@[0] == 'L' && "Count"@[0] == 'C' && "Prev"@[0] == 'P' && "Next"@[0] == 'N'
        && "Type"@[0] == 'T');
    assert("Parent"@[1] == 'a' && "Prev"@[1] == 'r');
    pdf_value::names_differ("Title", "Parent");
    pdf_value::names_differ("Title", "Dest");
    pdf_value::names_differ("Title", "First");
    pdf_value::names_differ("Title", "Last");
    pdf_value::names_differ("Title", "Count");
    pdf_value::names_differ("Title", "Prev");
    pdf_value::names_differ("Title", "Next");
    pdf_value::names_differ("Parent", "Dest");
    pdf_value::names_differ("Parent", "First");
    pdf_value::names_differ("Parent", "Last");
    pdf_value::names_differ("Parent", "Count");
    pdf_value::names_differ("Parent", "Prev");
    pdf_value::names_differ("Parent", "Next");
    pdf_value::names_differ("Dest", "First");
    pdf_value::names_differ("Dest", "Last");
    pdf_value::names_differ("Dest", "Count");
    pdf_value::names_differ("Dest", "Prev");
    pdf_value::names_differ("Dest", "Next");
    pdf_value::names_differ("First", "Last");
    pdf_value::names_differ("First", "Count");
    pdf_value::names_differ("First", "Prev");
    pdf_value::names_differ("First", "Next");
    pdf_value::names_differ("Last", "Count");
    pdf_value::names_differ("Last", "Prev");
    pdf_value::names_differ("Last", "Next");
    pdf_value::names_differ("Count", "Prev");
    pdf_value::names_differ("Count", "Next");
    pdf_value::names_differ("Prev", "Next");
    pdf_value::names_differ("Type", "First");
    pdf_value::names_differ("Type", "Last");
    pdf_value::names_differ("Type", "Count");
}

/// The entry of an item under a key.
pub open spec fn entry(objects: Map<ObjectId, PdfValue>, id: ObjectId, key: &str) -> Option<
    PdfValue,
> {
    let entries = objects[id]->Dictionary_0;
    let k = pdf_value::name(key);
    if entries.dom().contains(k) {
        Some(entries[k])
    } else {
        None
    }
}

/// What an item says under each of its keys.
proof fn lemma_item(
    at: Placement,
    node: OutlineNode,
    page: ObjectId,
    id: ObjectId,
    parent: ObjectId,
    prev: Option<ObjectId>,
    next: Option<ObjectId>,
    objects: Map<ObjectId, PdfValue>,
)
    requires
        objects[id] == outline::item(at, node, page, id, parent, prev, next),
    ensures
        objects[id] is Dictionary,
        entry(objects, id, "Title") == Some(
            PdfValue::Text(
                titles::title_text(node.title).0,
                titles::title_text(node.title).1,
            ),
        ),
        entry(objects, id, "Dest") == Some(outline::destination(page)),
        link(objects, id, "Parent") == Some(parent),
        link(objects, id, "Prev") == prev,
        link(objects, id, "Next") == next,
        link(objects, id, "First") == outline::first_item(at, node.children, id.0 as int),
        link(objects, id, "Last") == outline::last_item(at, node.children, id.0 as int),
        entry(objects, id, "Count") == if outline::reached(at, node.children) > 0 {
            Some(PdfValue::Integer((-outline::reached(at, node.children)) as i64))
        } else {
            None
        },
{
    lemma_keys_differ();
    outline::lemma_first_and_last(at, node.children, id.0 as int);
}

/// The items of a forest are numbered behind `base`, within its span.
pub proof fn items_are_numbered_in_span(
    at: Placement,
    nodes: Seq<OutlineNode>,
    base: int,
    parent: ObjectId,
    next: Option<ObjectId>,
)
    requires
        0 <= base,
        base + outline::spans(at, nodes) <= u32::MAX,
    ensures
        forall|id: ObjectId| #[trigger]
            outline::items(at, nodes, base, parent, next).dom().contains(id) ==> base < id.0
                <= base + outline::spans(at, nodes) && id.1 == 0,
    decreases nodes,
{
    if nodes.len() > 0 {
        let node = nodes.last();
        let before = nodes.drop_last();
        if outline::target(at, node) is Some {
            let id = outline::last_id(at, nodes, base);
            items_are_numbered_in_span(at, before, base, parent, Some(id));
            items_are_numbered_in_span(at, node.children, id.0 as int, id, None);
            let left = outline::items(at, before, base, parent, Some(id));
            let below = outline::items(at, node.children, id.0 as int, id, None);
            assert forall|k: ObjectId| #[trigger]
                outline::items(at, nodes, base, parent, next).dom().contains(k) implies base < k.0
                <= base + outline::spans(at, nodes) && k.1 == 0 by {
                assert(k == id || left.dom().contains(k) || below.dom().contains(k));
            }
        } else {
            items_are_numbered_in_span(at, before, base, parent, next);
            assert(outline::items(at, nodes, base, parent, next) == outline::items(
                at,
                before,
                base,
                parent,
                next,
            ));
        }
    } else {
        assert(outline::items(at, nodes, base, parent, next).dom() =~= Set::empty());
    }
}

/// The items of a row: those of the siblings before the last one, those of
/// its children, and the last one itself, all apart from each other.
proof fn lemma_items_step(
    at: Placement,
    nodes: Seq<OutlineNode>,
    base: int,
    parent: ObjectId,
    next: Option<ObjectId>,
)
    requires
        nodes.len() > 0,
        outline::target(at, nodes.last()) is Some,
        0 <= base,
        base + outline::spans(at, nodes) <= u32::MAX,
    ensures
        ({
            let node = nodes.last();
            let id = outline::last_id(at, nodes, base);
            let all = outline::items(at, nodes, base, parent, next);
            let left = outline::items(at, nodes.drop_last(), base, parent, Some(id));
            let below = outline::items(at, node.children, id.0 as int, id, None);
            &&& id.0 == base + 1 + outline::spans(at, nodes.drop_last())
            &&& all.dom().contains(id)
            &&& all[id] == outline::item(
                at,
                node,
                outline::target(at, node)->0,
                id,
                parent,
                outline::last_item(at, nodes.drop_last(), base),
                next,
            )
            &&& !left.dom().contains(id)
            &&& !below.dom().contains(id)
            &&& all.dom() == left.dom().union(below.dom()).insert(id)
            &&& left.dom().disjoint(below.dom())
            &&& forall|k: ObjectId| #[trigger]
                left.dom().contains(k) ==> all.dom().contains(k) && all[k] == left[k]
            &&& forall|k: ObjectId| #[trigger]
                below.dom().contains(k) ==> all.dom().contains(k) && all[k] == below[k]
        }),
{
    let node = nodes.last();
    let before = nodes.drop_last();
    let id = outline::last_id(at, nodes, base);
    items_are_numbered_in_span(at, before, base, parent, Some(id));
    items_are_numbered_in_span(at, node.children, id.0 as int, id, None);
    let all = outline::items(at, nodes, base, parent, next);
    let left = outline::items(at, before, base, parent, Some(id));
    let below = outline::items(at, node.children, id.0 as int, id, None);
    assert(all.dom() =~= left.dom().union(below.dom()).insert(id));
}

/// There is one item for each node that is reached.
pub proof fn items_are_counted(
    at: Placement,
    nodes: Seq<OutlineNode>,
    base: int,
    parent: ObjectId,
    next: Option<ObjectId>,
)
    requires
        0 <= base,
        base + outline::spans(at, nodes) <= u32::MAX,
    ensures
        outline::items(at, nodes, base, parent, next).dom().finite(),
        outline::items(at, nodes, base, parent, next).dom().len()
            == outline::reached(at, nodes),
    decreases nodes,
{
    if nodes.len() > 0 {
        let node = nodes.last();
        let before = nodes.drop_last();
        if outline::target(at, node) is Some {
            let id = outline::last_id(at, nodes, base);
            lemma_items_step(at, nodes, base, parent, next);
            items_are_counted(at, before, base, parent, Some(id));
            items_are_counted(at, node.children, id.0 as int, id, None);
            let left = outline::items(at, before, base, parent, Some(id));
            let below = outline::items(at, node.children, id.0 as int, id, None);
            vstd::set_lib::lemma_set_disjoint_lens(left.dom(), below.dom());
        } else {
            items_are_counted(at, before, base, parent, next);
        }
    }
}

/// The ends of a row: the first item has no predecessor, the last one is
/// followed by `next`, and both belong to the parent.
pub proof fn row_ends(
    at: Placement,
    nodes: Seq<OutlineNode>,
    base: int,
    parent: ObjectId,
    next: Option<ObjectId>,
)
    requires
        0 <= base,
        base + outline::spans(at, nodes) <= u32::MAX,
    ensures
        ({
            let all = outline::items(at, nodes, base, parent, next);
            &&& outline::first_item(at, nodes, base) matches Some(first)
                ==> all.dom().contains(first) && link(all, first, "Prev") is None && link(
                all,
                first,
                "Parent",
            ) == Some(parent)
            &&& outline::last_item(at, nodes, base) matches Some(last)
                ==> all.dom().contains(last) && link(all, last, "Next") == next && link(
                all,
                last,
                "Parent",
            ) == Some(parent)
        }),
    decreases nodes.len(),
{
    if nodes.len() > 0 {
        let node = nodes.last();
        let before = nodes.drop_last();
        if outline::target(at, node) is Some {
            let id = outline::last_id(at, nodes, base);
            let all = outline::items(at, nodes, base, parent, next);
            lemma_items_step(at, nodes, base, parent, next);
            row_ends(at, before, base, parent, Some(id));
            outline::lemma_first_and_last(at, before, base);
            lemma_item(
                at,
                node,
                outline::target(at, node)->0,
                id,
                parent,
                outline::last_item(at, before, base),
                next,
                all,
            );
        } else {
            row_ends(at, before, base, parent, next);
        }
    }
}

/// Whether an item of a row, or below it, is tied into the outline: its
/// neighbours, its first and last child and its parent name it in turn, and
/// it leads to a page of the document. Only the last item of the row may name
/// what follows the row.
pub open spec fn is_tied(
    at: Placement,
    all: Map<ObjectId, PdfValue>,
    id: ObjectId,
    parent: ObjectId,
    last: Option<ObjectId>,
    next: Option<ObjectId>,
) -> bool {
    &&& all[id] is Dictionary
    &&& link(all, id, "Next") matches Some(n) ==> (last == Some(id) && next == Some(n)) || (
    all.dom().contains(n) && link(all, n, "Prev") == Some(id) && link(all, n, "Parent") == link(
        all,
        id,
        "Parent",
    ))
    &&& link(all, id, "Prev") matches Some(p) ==> all.dom().contains(p) && link(all, p, "Next")
        == Some(id)
    &&& link(all, id, "First") matches Some(f) ==> all.dom().contains(f) && link(all, f, "Parent")
        == Some(id) && link(all, f, "Prev") is None
    &&& link(all, id, "Last") matches Some(l) ==> all.dom().contains(l) && link(all, l, "Parent")
        == Some(id) && link(all, l, "Next") is None
    &&& link(all, id, "Parent") matches Some(p) && (p == parent || all.dom().contains(p))
    &&& exists|i: int|
        0 <= i < at.pages.len() && entry(all, id, "Dest") == Some(
            outline::destination(#[trigger] at.pages[i]),
        )
}

/// Every outline item is tied into the outline.
pub proof fn items_are_tied(
    at: Placement,
    nodes: Seq<OutlineNode>,
    base: int,
    parent: ObjectId,
    next: Option<ObjectId>,
)
    requires
        0 <= base,
        base + outline::spans(at, nodes) <= u32::MAX,
    ensures
        forall|id: ObjectId| #[trigger]
            outline::items(at, nodes, base, parent, next).dom().contains(id) ==> is_tied(
                at,
                outline::items(at, nodes, base, parent, next),
                id,
                parent,
                outline::last_item(at, nodes, base),
                next,
            ),
    decreases nodes,
{
    let all = outline::items(at, nodes, base, parent, next);
    if nodes.len() > 0 {
        let node = nodes.last();
        let before = nodes.drop_last();
        if outline::target(at, node) is Some {
            let id = outline::last_id(at, nodes, base);
            let page = outline::target(at, node)->0;
            let left = outline::items(at, before, base, parent, Some(id));
            let below = outline::items(at, node.children, id.0 as int, id, None);
            lemma_items_step(at, nodes, base, parent, next);
            items_are_tied(at, before, base, parent, Some(id));
            items_are_tied(at, node.children, id.0 as int, id, None);
            row_ends(at, before, base, parent, Some(id));
            row_ends(at, node.children, id.0 as int, id, None);
            lemma_item(
                at,
                node,
                page,
                id,
                parent,
                outline::last_item(at, before, base),
                next,
                all,
            );
            assert forall|k: ObjectId| #[trigger] all.dom().contains(k) implies is_tied(
                at,
                all,
                k,
                parent,
                outline::last_item(at, nodes, base),
                next,
            ) by {
                if k == id {
                    assert(at.pages[outline::pdf_page(at, node) - 1] == page);
                } else if left.dom().contains(k) {
                    assert(is_tied(
                        at,
                        left,
                        k,
                        parent,
                        outline::last_item(at, before, base),
                        Some(id),
                    ));
                } else {
                    assert(below.dom().contains(k));
                    assert(is_tied(
                        at,
                        below,
                        k,
                        id,
                        outline::last_item(at, node.children, id.0 as int),
                        None,
                    ));
                }
            }
        } else {
            items_are_tied(at, before, base, parent, next);
            assert(all == outline::items(at, before, base, parent, next));
        }
    } else {
        assert(all.dom() =~= Set::empty());
    }
}

/// A bookmark as a PDF viewer shows it.
#[verifier::ext_equal]
pub struct Bookmark {
    pub title: PdfValue,
    pub destination: PdfValue,
    pub children: Seq<Bookmark>,
}

/// The bookmarks that stand for a forest: a node that leads to no page is
/// missing, with everything below it.
pub open spec fn bookmarks(at: Placement, nodes: Seq<OutlineNode>) -> Seq<Bookmark>
    decreases nodes,
{
    if nodes.len() == 0 {
        seq![]
    } else {
        let node = nodes.last();
        let before = bookmarks(at, nodes.drop_last());
        match outline::target(at, node) {
            None => before,
            Some(page) => before.push(
                Bookmark {
                    title: PdfValue::Text(
                        titles::title_text(node.title).0,
                        titles::title_text(node.title).1,
                    ),
                    destination: outline::destination(page),
                    children: bookmarks(at, node.children),
                },
            ),
        }
    }
}

/// What a viewer shows that follows the `/First` and `/Next` links from an
/// item, for at most `steps` steps in a row.
pub open spec fn shown(
    objects: Map<ObjectId, PdfValue>,
    from: Option<ObjectId>,
    steps: nat,
) -> Seq<Bookmark>
    decreases steps,
{
    if steps == 0 {
        seq![]
    } else {
        match from {
            None => seq![],
            Some(id) => seq![
                Bookmark {
                    title: entry(objects, id, "Title")->0,
                    destination: entry(objects, id, "Dest")->0,
                    children: shown(objects, link(objects, id, "First"), (steps - 1) as nat),
                },
            ] + shown(objects, link(objects, id, "Next"), (steps - 1) as nat),
        }
    }
}

/// Whether the objects hold all the items as they are.
pub open spec fn hold_items(
    objects: Map<ObjectId, PdfValue>,
    all: Map<ObjectId, PdfValue>,
) -> bool {
    forall|id: ObjectId| #[trigger]
        all.dom().contains(id) ==> objects.dom().contains(id) && objects[id] == all[id]
}

/// How many items a row has, without their descendants.
spec fn row_len(at: Placement, nodes: Seq<OutlineNode>) -> nat
    decreases nodes.len(),
{
    if nodes.len() == 0 {
        0
    } else {
        row_len(at, nodes.drop_last()) + if outline::target(at, nodes.last()) is Some {
            1nat
        } else {
            0nat
        }
    }
}

proof fn lemma_row_len(at: Placement, nodes: Seq<OutlineNode>)
    ensures
        row_len(at, nodes) <= outline::spans(at, nodes),
    decreases nodes.len(),
{
    if nodes.len() > 0 {
        lemma_row_len(at, nodes.drop_last());
    }
}

proof fn lemma_shown(
    at: Placement,
    nodes: Seq<OutlineNode>,
    base: int,
    parent: ObjectId,
    next: Option<ObjectId>,
    objects: Map<ObjectId, PdfValue>,
    steps: nat,
)
    requires
        0 <= base,
        base + outline::spans(at, nodes) <= u32::MAX,
        hold_items(objects, outline::items(at, nodes, base, parent, next)),
        steps >= outline::spans(at, nodes),
    ensures
        ({
            let start = match outline::first_item(at, nodes, base) {
                Some(id) => Some(id),
                None => next,
            };
            &&& row_len(at, nodes) <= steps
            &&& shown(objects, start, steps) == bookmarks(at, nodes) + shown(
                objects,
                next,
                (steps - row_len(at, nodes)) as nat,
            )
        }),
    decreases nodes,
{
    lemma_row_len(at, nodes);
    let all = outline::items(at, nodes, base, parent, next);
    if nodes.len() == 0 {
        assert(bookmarks(at, nodes) + shown(objects, next, steps) =~= shown(objects, next, steps));
    } else {
        let node = nodes.last();
        let before = nodes.drop_last();
        if outline::target(at, node) is Some {
            let id = outline::last_id(at, nodes, base);
            let page = outline::target(at, node)->0;
            let left = outline::items(at, before, base, parent, Some(id));
            let below = outline::items(at, node.children, id.0 as int, id, None);
            lemma_items_step(at, nodes, base, parent, next);
            assert(hold_items(objects, left)) by {
                assert forall|k: ObjectId| #[trigger] left.dom().contains(k) implies objects.dom(
                ).contains(k) && objects[k] == left[k] by {
                    assert(all.dom().contains(k));
                }
            }
            assert(hold_items(objects, below)) by {
                assert forall|k: ObjectId| #[trigger] below.dom().contains(k) implies objects.dom(
                ).contains(k) && objects[k] == below[k] by {
                    assert(all.dom().contains(k));
                }
            }
            lemma_shown(at, before, base, parent, Some(id), objects, steps);
            lemma_row_len(at, before);
            let rest = (steps - row_len(at, before)) as nat;
            let inner = (rest - 1) as nat;
            lemma_shown(at, node.children, id.0 as int, id, None, objects, inner);
            assert(objects[id] == all[id]);
            lemma_item(
                at,
                node,
                page,
                id,
                parent,
                outline::last_item(at, before, base),
                next,
                objects,
            );
            let mark = Bookmark {
                title: entry(objects, id, "Title")->0,
                destination: entry(objects, id, "Dest")->0,
                children: shown(objects, link(objects, id, "First"), inner),
            };
            assert(mark.children =~= bookmarks(at, node.children)) by {
                let tail = shown(
                    objects,
                    None,
                    (inner - row_len(at, node.children)) as nat,
                );
                assert(tail =~= seq![]);
                assert(bookmarks(at, node.children) + tail =~= bookmarks(at, node.children));
            }
            assert(shown(objects, Some(id), rest) == seq![mark] + shown(objects, next, inner));
            assert(bookmarks(at, nodes) =~= bookmarks(at, before).push(mark));
            assert(bookmarks(at, before) + (seq![mark] + shown(objects, next, inner))
                =~= bookmarks(at, nodes) + shown(objects, next, inner));
        } else {
            lemma_shown(at, before, base, parent, next, objects, steps);
        }
    }
}

/// Following the links from the first item of an outline shows the entries it
/// was made from: each one that leads to a page, in order, with its title, its
/// page and its children.
pub proof fn outline_is_shown(
    at: Placement,
    nodes: Seq<OutlineNode>,
    base: int,
    parent: ObjectId,
    objects: Map<ObjectId, PdfValue>,
    steps: nat,
)
    requires
        0 <= base,
        base + outline::spans(at, nodes) <= u32::MAX,
        hold_items(objects, outline::items(at, nodes, base, parent, None)),
        steps >= outline::spans(at, nodes),
    ensures
        shown(objects, outline::first_item(at, nodes, base), steps) == bookmarks(at, nodes),
{
    lemma_shown(at, nodes, base, parent, None, objects, steps);
    let tail = shown(objects, None, (steps - row_len(at, nodes)) as nat);
    assert(tail =~= seq![]);
    assert(bookmarks(at, nodes) + tail =~= bookmarks(at, nodes));
}

/// Nothing is skipped exactly when every node becomes an item.
pub proof fn nothing_skipped_if_all_reached(at: Placement, nodes: Seq<OutlineNode>)
    ensures
        outline::reached(at, nodes) <= model::node_count(nodes),
        outline::skipped(at, nodes).len() == 0 <==> outline::reached(at, nodes)
            == model::node_count(nodes),
    decreases nodes,
{
    if nodes.len() > 0 {
        nothing_skipped_if_all_reached(at, nodes.drop_last());
        nothing_skipped_if_all_reached(at, nodes.last().children);
    }
}

/// Whether no object of a document has a number beyond the highest one that
/// the document says it uses.
pub open spec fn is_numbered(doc: Document) -> bool {
    forall|id: ObjectId| #[trigger]
        lopdf_items::document_objects(doc).dom().contains(id) ==> id.0
            <= lopdf_items::document_max_id(doc)
}

/// The dictionary that the trailer's `/Root` entry leads to.
pub open spec fn catalog(doc: Document) -> Option<ObjectId> {
    match pages::reference_under(lopdf_items::document_trailer(doc), pdf_value::name("Root")) {
        Some(id) => pdf_value::resolve(lopdf_items::document_objects(doc), id, 128),
        None => None,
    }
}

/// The outline that a viewer shows of a document: it follows the catalog's
/// `/Outlines` entry to the outline root and goes on from its first item.
pub open spec fn document_outline(doc: Document, steps: nat) -> Seq<Bookmark> {
    let objects = lopdf_items::document_objects(doc);
    let root = link(objects, catalog(doc)->0, "Outlines")->0;
    shown(objects, link(objects, root, "First"), steps)
}

proof fn lemma_resolve_extends(
    objects: Map<ObjectId, PdfValue>,
    more: Map<ObjectId, PdfValue>,
    id: ObjectId,
    hops: nat,
)
    requires
        hold_items(more, objects),
        pdf_value::resolve(objects, id, hops) is Some,
    ensures
        pdf_value::resolve(more, id, hops) == pdf_value::resolve(objects, id, hops),
    decreases hops,
{
    assert(objects.dom().contains(id));
    if let PdfValue::Reference(next) = objects[id] {
        lemma_resolve_extends(objects, more, next, (hops - 1) as nat);
    }
}

proof fn lemma_resolve_updated(
    objects: Map<ObjectId, PdfValue>,
    at: ObjectId,
    value: PdfValue,
    id: ObjectId,
    hops: nat,
)
    requires
        objects.dom().contains(at),
        !(objects[at] is Reference),
        !(value is Reference),
    ensures
        pdf_value::resolve(objects.insert(at, value), id, hops) == pdf_value::resolve(
            objects,
            id,
            hops,
        ),
    decreases hops,
{
    if objects.dom().contains(id) && id != at {
        if let PdfValue::Reference(next) = objects[id] {
            if hops > 0 {
                lemma_resolve_updated(objects, at, value, next, (hops - 1) as nat);
            }
        }
    }
}

/// Whether one map holds all objects of another, some of them replaced by
/// dictionaries.
spec fn holds_or_replaces(
    more: Map<ObjectId, PdfValue>,
    objects: Map<ObjectId, PdfValue>,
) -> bool {
    forall|id: ObjectId| #[trigger]
        objects.dom().contains(id) ==> more.dom().contains(id) && (more[id] == objects[id]
            || more[id] is Dictionary)
}

proof fn lemma_still_a_dictionary(
    objects: Map<ObjectId, PdfValue>,
    more: Map<ObjectId, PdfValue>,
    id: ObjectId,
    hops: nat,
)
    requires
        holds_or_replaces(more, objects),
        pdf_value::resolve(objects, id, hops) matches Some(target) && objects[target] is Dictionary,
    ensures
        pdf_value::resolve(more, id, hops) matches Some(target) && more[target] is Dictionary,
    decreases hops,
{
    assert(objects.dom().contains(id));
    if more[id] == objects[id] {
        if let PdfValue::Reference(next) = objects[id] {
            lemma_still_a_dictionary(objects, more, next, (hops - 1) as nat);
        }
    }
}

proof fn lemma_items_are_dictionaries(
    at: Placement,
    nodes: Seq<OutlineNode>,
    base: int,
    parent: ObjectId,
    next: Option<ObjectId>,
)
    ensures
        forall|id: ObjectId| #[trigger]
            outline::items(at, nodes, base, parent, next).dom().contains(id) ==> outline::items(
                at,
                nodes,
                base,
                parent,
                next,
            )[id] is Dictionary,
    decreases nodes,
{
    if nodes.len() > 0 {
        let node = nodes.last();
        let before = nodes.drop_last();
        let all = outline::items(at, nodes, base, parent, next);
        if outline::target(at, node) is Some {
            let id = outline::last_id(at, nodes, base);
            let left = outline::items(at, before, base, parent, Some(id));
            let below = outline::items(at, node.children, id.0 as int, id, None);
            lemma_items_are_dictionaries(at, before, base, parent, Some(id));
            lemma_items_are_dictionaries(at, node.children, id.0 as int, id, None);
            assert forall|k: ObjectId| #[trigger] all.dom().contains(k) implies all[k]
                is Dictionary by {
                assert(k == id || below.dom().contains(k) || left.dom().contains(k));
            }
        } else {
            lemma_items_are_dictionaries(at, before, base, parent, next);
        }
    }
}

/// Once the pages of a document were found, putting an outline into it
/// succeeds, however its objects are numbered. So the entries that were
/// skipped are always told.
pub proof fn injection_succeeds_where_pages_are_found(
    before: Document,
    after: Document,
    nodes: Seq<OutlineNode>,
    mapping: PageMapping,
    r: Result<Vec<SkippedEntry>, OutlineError>,
)
    requires
        outline::can_inject(before, nodes, mapping),
        outline::injected(before, after, nodes, mapping, r),
        pages::document_pages(before) matches Ok(found) && found.len() > 0,
    ensures
        r matches Ok(left_out) && outline::skips(left_out@) == outline::skipped(
            Placement { mapping, pages: pages::document_pages(before)->Ok_0 },
            nodes,
        ),
{
    let at = Placement { mapping, pages: pages::document_pages(before)->Ok_0 };
    let max_id = lopdf_items::document_max_id(before) as int;
    let root = ((max_id + 1) as u32, 0u16);
    let objects = lopdf_items::document_objects(before);
    let all = outline::items(at, nodes, max_id + 1, root, None);
    let added = outline::outline_added(at, nodes, objects, max_id);
    lemma_items_are_dictionaries(at, nodes, max_id + 1, root, None);
    assert(holds_or_replaces(added, objects)) by {
        assert forall|id: ObjectId| #[trigger] objects.dom().contains(id) implies added.dom(
        ).contains(id) && (added[id] == objects[id] || added[id] is Dictionary) by {
            assert(id == root || all.dom().contains(id) || added[id] == objects[id]);
        }
    }
    let start = pages::reference_under(
        lopdf_items::document_trailer(before),
        pdf_value::name("Root"),
    )->0;
    pdf_value::lemma_resolve(objects, start, 128);
    lemma_still_a_dictionary(objects, added, start, 128);
}

/// Whether all nodes that can be read play the same part in both maps.
spec fn same_roles(a: Map<ObjectId, PdfValue>, b: Map<ObjectId, PdfValue>) -> bool {
    forall|id: ObjectId|
        pdf_value::read(a, id) is Some ==> #[trigger] pages::node_role(b, id) == pages::node_role(
            a,
            id,
        )
}

proof fn lemma_same_walk(
    a: Map<ObjectId, PdfValue>,
    b: Map<ObjectId, PdfValue>,
    id: ObjectId,
    depth: nat,
)
    requires
        same_roles(a, b),
        pages::walk(a, id, depth) matches Some(Ok(_)),
    ensures
        pages::walk(b, id, depth) == pages::walk(a, id, depth),
    decreases depth, 0nat,
{
    assert(pages::node_role(b, id) == pages::node_role(a, id));
    if let pages::NodeRole::Pages(kids) = pages::node_role(a, id) {
        lemma_same_walk_kids(a, b, id, kids, (depth - 1) as nat);
    }
}

proof fn lemma_same_walk_kids(
    a: Map<ObjectId, PdfValue>,
    b: Map<ObjectId, PdfValue>,
    id: ObjectId,
    kids: Seq<PdfValue>,
    depth: nat,
)
    requires
        same_roles(a, b),
        pages::walk_kids(a, id, kids, depth) matches Some(Ok(_)),
    ensures
        pages::walk_kids(b, id, kids, depth) == pages::walk_kids(a, id, kids, depth),
    decreases depth, kids.len() + 1,
{
    if kids.len() > 0 {
        lemma_same_walk_kids(a, b, id, kids.drop_last(), depth);
        if let PdfValue::Reference(kid) = kids.last() {
            lemma_same_walk(a, b, kid, depth);
        }
    }
}

/// What putting an outline into a document leaves alone and adds, where the
/// document has pages and its objects are numbered as it says.
///
/// It succeeds. Every object other than the catalog stays as it was, and the
/// catalog only gets its `/Outlines` entry. The pages stay the same. The new
/// outline shows the entries that lead to a page. The document is numbered as
/// it says afterwards.
pub proof fn outline_is_added(
    before: Document,
    after: Document,
    nodes: Seq<OutlineNode>,
    mapping: PageMapping,
    r: Result<Vec<SkippedEntry>, OutlineError>,
)
    requires
        is_numbered(before),
        outline::can_inject(before, nodes, mapping),
        outline::injected(before, after, nodes, mapping, r),
        pages::document_pages(before) matches Ok(found) && found.len() > 0,
    ensures
        ({
            let found = pages::document_pages(before)->Ok_0;
            let at = Placement { mapping, pages: found };
            let old_objects = lopdf_items::document_objects(before);
            let new_objects = lopdf_items::document_objects(after);
            let root = ((lopdf_items::document_max_id(before) + 1) as u32, 0u16);
            &&& r is Ok
            &&& is_numbered(after)
            &&& catalog(before) is Some
            &&& catalog(after) == catalog(before)
            &&& old_objects[catalog(before)->0] is Dictionary
            &&& new_objects[catalog(before)->0] == PdfValue::Dictionary(
                old_objects[catalog(before)->0]->Dictionary_0.insert(
                    pdf_value::name("Outlines"),
                    PdfValue::Reference(root),
                ),
            )
            &&& forall|id: ObjectId| #[trigger]
                old_objects.dom().contains(id) && Some(id) != catalog(before)
                    ==> new_objects.dom().contains(id) && new_objects[id] == old_objects[id]
            &&& pages::has_finite_page_tree(after)
            &&& pages::document_pages(after) == pages::document_pages(before)
            &&& forall|steps: nat|
                steps >= outline::spans(at, nodes) ==> #[trigger] document_outline(after, steps)
                    == bookmarks(at, nodes)
        }),
{
    let found = pages::document_pages(before)->Ok_0;
    let at = Placement { mapping, pages: found };
    let max_id = lopdf_items::document_max_id(before) as int;
    let trailer = lopdf_items::document_trailer(before);
    let old_objects = lopdf_items::document_objects(before);
    let root = ((max_id + 1) as u32, 0u16);
    let all = outline::items(at, nodes, max_id + 1, root, None);
    let added = outline::outline_added(at, nodes, old_objects, max_id);
    let new_objects = lopdf_items::document_objects(after);
    items_are_numbered_in_span(at, nodes, max_id + 1, root, None);
    assert(hold_items(added, old_objects)) by {
        assert forall|id: ObjectId| #[trigger] old_objects.dom().contains(id) implies added.dom(
        ).contains(id) && added[id] == old_objects[id] by {
            assert(id.0 <= max_id);
            assert(!all.dom().contains(id));
        }
    }
    let start = pages::reference_under(trailer, pdf_value::name("Root"))->0;
    lemma_resolve_extends(old_objects, added, start, 128);
    pdf_value::lemma_resolve(old_objects, start, 128);
    let top = pdf_value::resolve(old_objects, start, 128)->0;
    assert(added[top] == old_objects[top]);
    let entries = old_objects[top]->Dictionary_0;
    let changed = PdfValue::Dictionary(
        entries.insert(pdf_value::name("Outlines"), PdfValue::Reference(root)),
    );
    assert(new_objects == added.insert(top, changed));
    assert(top.0 <= max_id);
    lemma_resolve_updated(added, top, changed, start, 128);
    assert(catalog(after) == Some(top));
    assert forall|id: ObjectId| #[trigger] new_objects.dom().contains(id) implies id.0
        <= lopdf_items::document_max_id(after) by {
        assert(id == top || id == root || all.dom().contains(id) || old_objects.dom().contains(id));
    }
    assert forall|id: ObjectId| #[trigger]
        old_objects.dom().contains(id) && Some(id) != catalog(
            before,
        ) implies new_objects.dom().contains(id) && new_objects[id] == old_objects[id] by {
        assert(added.dom().contains(id));
    }
    lemma_same_pages(before, after, added, top, root, changed);
    assert(hold_items(new_objects, all)) by {
        assert forall|id: ObjectId| #[trigger] all.dom().contains(id) implies new_objects.dom(
        ).contains(id) && new_objects[id] == all[id] by {
            assert(id.0 > max_id + 1);
        }
    }
    assert(new_objects[root] == PdfValue::Dictionary(
        outline::root_entries(at, nodes, max_id + 1),
    ));
    lemma_keys_differ();
    outline::lemma_first_and_last(at, nodes, max_id + 1);
    assert(link(new_objects, root, "First") == outline::first_item(at, nodes, max_id + 1));
    assert(link(new_objects, top, "Outlines") == Some(root));
    assert forall|steps: nat| steps >= outline::spans(at, nodes) implies #[trigger] document_outline(
        after,
        steps,
    ) == bookmarks(at, nodes) by {
        outline_is_shown(at, nodes, max_id + 1, root, new_objects, steps);
    }
}

proof fn lemma_same_pages(
    before: Document,
    after: Document,
    added: Map<ObjectId, PdfValue>,
    top: ObjectId,
    root: ObjectId,
    changed: PdfValue,
)
    requires
        pages::has_finite_page_tree(before),
        pages::document_pages(before) is Ok,
        lopdf_items::document_trailer(after) == lopdf_items::document_trailer(before),
        hold_items(added, lopdf_items::document_objects(before)),
        lopdf_items::document_objects(before).dom().contains(top),
        catalog(before) == Some(top),
        lopdf_items::document_objects(before)[top] matches PdfValue::Dictionary(entries)
            && changed == PdfValue::Dictionary(
            entries.insert(pdf_value::name("Outlines"), PdfValue::Reference(root)),
        ),
        lopdf_items::document_objects(after) == added.insert(top, changed),
    ensures
        pages::has_finite_page_tree(after),
        pages::document_pages(after) == pages::document_pages(before),
{
    let a = lopdf_items::document_objects(before);
    let b = lopdf_items::document_objects(after);
    let entries = a[top]->Dictionary_0;
    reveal_strlit("Outlines");
    reveal_strlit("Type");
    reveal_strlit("Kids");
    reveal_strlit("Pages");
    assert("Outlines"@[0] == 'O' && "Type"@[0] == 'T' && "Kids"@[0] == 'K' && "Pages"@[0] == 'P');
    pdf_value::names_differ("Outlines", "Type");
    pdf_value::names_differ("Outlines", "Kids");
    pdf_value::names_differ("Outlines", "Pages");
    assert forall|id: ObjectId|
        pdf_value::read(a, id) is Some implies #[trigger] pages::node_role(b, id)
        == pages::node_role(a, id) by {
        lemma_resolve_extends(a, added, id, 128);
        pdf_value::lemma_resolve(a, id, 128);
        assert(added.dom().contains(top) && added[top] == a[top]);
        lemma_resolve_updated(added, top, changed, id, 128);
        let x = pdf_value::resolve(a, id, 128)->0;
        assert(added[x] == a[x]);
        if x == top {
            assert(pages::dictionary_role(changed->Dictionary_0, id) == pages::dictionary_role(
                entries,
                id,
            ));
        }
    }
    let start = pages::reference_under(
        lopdf_items::document_trailer(before),
        pdf_value::name("Root"),
    )->0;
    lemma_resolve_extends(a, added, start, 128);
    assert(added[top] == a[top]);
    lemma_resolve_updated(added, top, changed, start, 128);
    let tree = pages::page_root(lopdf_items::document_trailer(before), a)->Ok_0;
    assert(pages::page_root(lopdf_items::document_trailer(after), b) == Ok::<
        ObjectId,
        pages::OutlineFault,
    >(tree));
    let depth = choose|depth: nat| pages::walk(a, tree, depth) is Some;
    lemma_same_walk(a, b, tree, depth);
    pages::lemma_pages_below(b, tree, depth);
}

/// An entry behind a row whose page, as the mapping gives it for the entry's
/// own page and Roman mark, is in the document becomes an item, whatever its
/// children are. The item has the entry's title and leads to exactly that page
/// of the document. It follows the last item of the row, and names its first
/// and its last child and how many items are below it. An entry whose page is not in the document adds no item.
pub proof fn an_item_leads_to_the_page_of_its_own_entry(
    at: Placement,
    row: Seq<OutlineNode>,
    node: OutlineNode,
    base: int,
    parent: ObjectId,
    next: Option<ObjectId>,
)
    requires
        0 <= base,
        base + outline::spans(at, row.push(node)) <= u32::MAX,
    ensures
        ({
            let page = mapping::pdf_page_for(node.page, node.roman, at.mapping);
            let id = ((base + 1 + outline::spans(at, row)) as u32, 0u16);
            let all = outline::items(at, row.push(node), base, parent, next);
            if 1 <= page <= at.pages.len() {
                &&& all.dom().contains(id)
                &&& entry(all, id, "Dest") == Some(
                    PdfValue::Array(
                        seq![
                            PdfValue::Reference(at.pages[page - 1]),
                            PdfValue::Name(pdf_value::name("XYZ")),
                            PdfValue::Null,
                            PdfValue::Null,
                            PdfValue::Null,
                        ],
                    ),
                )
                &&& entry(all, id, "Title") == Some(
                    PdfValue::Text(
                        titles::title_text(node.title).0,
                        titles::title_text(node.title).1,
                    ),
                )
                &&& link(all, id, "Parent") == Some(parent)
                &&& link(all, id, "Prev") == outline::last_item(at, row, base)
                &&& link(all, id, "Next") == next
                &&& link(all, id, "First") == outline::first_item(at, node.children, id.0 as int)
                &&& link(all, id, "Last") == outline::last_item(at, node.children, id.0 as int)
                &&& link(all, id, "First") is Some <==> outline::reached(at, node.children) > 0
                &&& link(all, id, "Last") is Some <==> outline::reached(at, node.children) > 0
                &&& entry(all, id, "Count") == if outline::reached(at, node.children) > 0 {
                    Some(PdfValue::Integer((-outline::reached(at, node.children)) as i64))
                } else {
                    None
                }
            } else {
                all == outline::items(at, row, base, parent, next)
            }
        }),
{
    let nodes = row.push(node);
    assert(nodes.drop_last() =~= row);
    if outline::target(at, node) is Some {
        let all = outline::items(at, nodes, base, parent, next);
        lemma_items_step(at, nodes, base, parent, next);
        lemma_item(
            at,
            node,
            outline::target(at, node)->0,
            outline::last_id(at, nodes, base),
            parent,
            outline::last_item(at, row, base),
            next,
            all,
        );
        outline::lemma_first_and_last(
            at,
            node.children,
            outline::last_id(at, nodes, base).0 as int,
        );
    }
}

/// Whether a node is one of a forest.
pub open spec fn is_in(node: OutlineNode, nodes: Seq<OutlineNode>) -> bool
    decreases nodes,
{
    nodes.len() > 0 && (nodes.last() == node || is_in(node, nodes.last().children) || is_in(
        node,
        nodes.drop_last(),
    ))
}

/// Whether an item stands for a node: it has the node's title, and leads to
/// the page of the document that the mapping gives for the node's own page and
/// Roman mark.
pub open spec fn stands_for(
    at: Placement,
    all: Map<ObjectId, PdfValue>,
    id: ObjectId,
    node: OutlineNode,
) -> bool {
    let page = mapping::pdf_page_for(node.page, node.roman, at.mapping);
    &&& 1 <= page <= at.pages.len()
    &&& entry(all, id, "Title") == Some(
        PdfValue::Text(titles::title_text(node.title).0, titles::title_text(node.title).1),
    )
    &&& entry(all, id, "Dest") == Some(
        PdfValue::Array(
            seq![
                PdfValue::Reference(at.pages[page - 1]),
                PdfValue::Name(pdf_value::name("XYZ")),
                PdfValue::Null,
                PdfValue::Null,
                PdfValue::Null,
            ],
        ),
    )
}

/// Every item of an outline stands for a node of the forest that the outline
/// is made from, however deep the node is and whatever its children are.
pub proof fn every_item_stands_for_a_node(
    at: Placement,
    nodes: Seq<OutlineNode>,
    base: int,
    parent: ObjectId,
    next: Option<ObjectId>,
    id: ObjectId,
) -> (node: OutlineNode)
    requires
        0 <= base,
        base + outline::spans(at, nodes) <= u32::MAX,
        outline::items(at, nodes, base, parent, next).dom().contains(id),
    ensures
        is_in(node, nodes),
        stands_for(at, outline::items(at, nodes, base, parent, next), id, node),
    decreases nodes,
{
    let all = outline::items(at, nodes, base, parent, next);
    let node = nodes.last();
    let before = nodes.drop_last();
    if outline::target(at, node) is Some {
        let own = outline::last_id(at, nodes, base);
        lemma_items_step(at, nodes, base, parent, next);
        if id == own {
            assert(before.push(node) =~= nodes);
            an_item_leads_to_the_page_of_its_own_entry(at, before, node, base, parent, next);
            node
        } else if outline::items(at, before, base, parent, Some(own)).dom().contains(id) {
            every_item_stands_for_a_node(at, before, base, parent, Some(own), id)
        } else {
            every_item_stands_for_a_node(at, node.children, own.0 as int, own, None, id)
        }
    } else {
        every_item_stands_for_a_node(at, before, base, parent, next, id)
    }
}

/// An entry behind a row whose own page is in the document adds one bookmark,
/// with its title, its page and the bookmarks of its children. Any other entry
/// adds none, and neither do its children.
pub proof fn a_bookmark_leads_to_the_page_of_its_own_entry(
    at: Placement,
    row: Seq<OutlineNode>,
    node: OutlineNode,
)
    ensures
        bookmarks(at, Seq::<OutlineNode>::empty()).len() == 0,
        ({
            let page = mapping::pdf_page_for(node.page, node.roman, at.mapping);
            bookmarks(at, row.push(node)) == if 1 <= page <= at.pages.len() {
                bookmarks(at, row).push(
                    Bookmark {
                        title: PdfValue::Text(
                            titles::title_text(node.title).0,
                            titles::title_text(node.title).1,
                        ),
                        destination: PdfValue::Array(
                            seq![
                                PdfValue::Reference(at.pages[page - 1]),
                                PdfValue::Name(pdf_value::name("XYZ")),
                                PdfValue::Null,
                                PdfValue::Null,
                                PdfValue::Null,
                            ],
                        ),
                        children: bookmarks(at, node.children),
                    },
                )
            } else {
                bookmarks(at, row)
            }
        }),
{
    assert(row.push(node).drop_last() =~= row);
}

/// An entry behind a row whose own page is in the document is counted with the
/// items below it. Any other entry takes up one number, is counted as no item
/// and is skipped with its title, its page and the page that it would be on;
/// nothing below it is counted or skipped.
pub proof fn entries_without_a_page_are_skipped(
    at: Placement,
    row: Seq<OutlineNode>,
    node: OutlineNode,
)
    ensures
        outline::spans(at, Seq::<OutlineNode>::empty()) == 0,
        outline::reached(at, Seq::<OutlineNode>::empty()) == 0,
        outline::skipped(at, Seq::<OutlineNode>::empty()).len() == 0,
        ({
            let page = mapping::pdf_page_for(node.page, node.roman, at.mapping);
            let nodes = row.push(node);
            if 1 <= page <= at.pages.len() {
                &&& outline::spans(at, nodes) == outline::spans(at, row) + 1 + outline::spans(
                    at,
                    node.children,
                )
                &&& outline::reached(at, nodes) == outline::reached(at, row) + 1
                    + outline::reached(at, node.children)
                &&& outline::skipped(at, nodes) == outline::skipped(at, row) + outline::skipped(
                    at,
                    node.children,
                )
            } else {
                let last = outline::skipped(at, nodes).last();
                &&& outline::spans(at, nodes) == outline::spans(at, row) + 1
                &&& outline::reached(at, nodes) == outline::reached(at, row)
                &&& outline::skipped(at, nodes).len() == outline::skipped(at, row).len() + 1
                &&& outline::skipped(at, nodes).drop_last() == outline::skipped(at, row)
                &&& last.title == node.title
                &&& last.page == node.page
                &&& last.pdf_page == page
            }
        }),
{
    let nodes = row.push(node);
    assert(nodes.drop_last() =~= row);
    if outline::target(at, node) is None {
        assert(outline::skipped(at, nodes).drop_last() =~= outline::skipped(at, row));
    }
}

/// A skipped entry says what its fields hold.
pub proof fn skipped_entries_say_what_they_hold(entries: Seq<SkippedEntry>)
    ensures
        outline::skips(entries).len() == entries.len(),
        forall|i: int|
            #![trigger outline::skips(entries)[i]]
            0 <= i < entries.len() ==> {
                &&& outline::skips(entries)[i].title == entries[i].title@
                &&& outline::skips(entries)[i].page == entries[i].page
                &&& outline::skips(entries)[i].pdf_page == entries[i].pdf_page
            },
{
}

/// The outline root is an outline dictionary. It counts all items, and names
/// the first and the last item of the top row if there are any.
pub proof fn the_root_counts_all_items(at: Placement, nodes: Seq<OutlineNode>, base: int)
    ensures
        ({
            let root = outline::root_entries(at, nodes, base);
            let count = outline::reached(at, nodes);
            &&& root.dom().contains(pdf_value::name("Type"))
            &&& root[pdf_value::name("Type")] == PdfValue::Name(pdf_value::name("Outlines"))
            &&& root.dom().contains(pdf_value::name("Count"))
            &&& count <= i64::MAX ==> root[pdf_value::name("Count")] == PdfValue::Integer(
                count as i64,
            )
            &&& pages::reference_under(root, pdf_value::name("First")) == outline::first_item(
                at,
                nodes,
                base,
            )
            &&& pages::reference_under(root, pdf_value::name("Last")) == outline::last_item(
                at,
                nodes,
                base,
            )
        }),
{
    lemma_keys_differ();
    outline::lemma_first_and_last(at, nodes, base);
}

/// An outline that is refused leaves the document as it is: a document with a
/// fault in its page tree, for that fault, and one without pages.
pub proof fn a_refused_outline_changes_nothing(
    before: Document,
    after: Document,
    nodes: Seq<OutlineNode>,
    mapping: PageMapping,
    r: Result<Vec<SkippedEntry>, OutlineError>,
)
    requires
        outline::can_inject(before, nodes, mapping),
        outline::injected(before, after, nodes, mapping, r),
    ensures
        r is Ok <==> (pages::document_pages(before) matches Ok(found) && found.len() > 0),
        r is Err ==> lopdf_items::document_objects(after) == lopdf_items::document_objects(before),
        r is Err ==> lopdf_items::document_max_id(after) == lopdf_items::document_max_id(before),
        r is Ok ==> lopdf_items::document_max_id(after) == lopdf_items::document_max_id(before) + 1
            + outline::spans(
            Placement { mapping, pages: pages::document_pages(before)->Ok_0 },
            nodes,
        ),
        lopdf_items::document_trailer(after) == lopdf_items::document_trailer(before),
        pages::document_pages(before) matches Err(fault) ==> (r matches Err(e) && e@ == fault),
        (pages::document_pages(before) matches Ok(found) && found.len() == 0) ==> (
        r matches Err(e) && e@ == OutlineFault::NoPages),
{
    if pages::document_pages(before) is Ok && pages::document_pages(before)->Ok_0.len() > 0 {
        injection_succeeds_where_pages_are_found(before, after, nodes, mapping, r);
    }
}

proof fn lemma_spans_are_nodes(at: Placement, nodes: Seq<OutlineNode>)
    ensures
        outline::reached(at, nodes) <= outline::spans(at, nodes) <= model::node_count(nodes),
    decreases nodes,
{
    if nodes.len() > 0 {
        lemma_spans_are_nodes(at, nodes.drop_last());
        lemma_spans_are_nodes(at, nodes.last().children);
    }
}

/// An outline can be put into every document whose page tree has no cycle, if
/// the object numbers suffice for one number for each entry and one for the
/// root, and into every such document without pages.
pub proof fn outlines_fit_where_numbers_suffice(
    doc: Document,
    nodes: Seq<OutlineNode>,
    mapping: PageMapping,
)
    ensures
        pages::has_finite_page_tree(doc) && lopdf_items::document_max_id(doc) + 1
            + model::node_count(nodes) <= u32::MAX ==> outline::can_inject(doc, nodes, mapping),
        pages::has_finite_page_tree(doc) && (pages::document_pages(doc) matches Ok(found)
            ==> found.len() == 0) ==> outline::can_inject(doc, nodes, mapping),
        !pages::has_finite_page_tree(doc) ==> !outline::can_inject(doc, nodes, mapping),
{
    if let Ok(found) = pages::document_pages(doc) {
        lemma_spans_are_nodes(Placement { mapping, pages: found }, nodes);
    }
}

} // verus!
