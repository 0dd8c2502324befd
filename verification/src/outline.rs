//! Outline trees as bookmark objects of a PDF document.
use crate::lopdf_items;
use crate::mapping;
use crate::model;
use crate::pages;
use crate::pdf_value;
use crate::titles;
use crate::lopdf_items::{
    array, dictionary_object, dictionary_set, hexadecimal_string, insert_object, integer,
    literal_string, max_id, name_object, null, object_mut, reference, set_max_id, trailer,
};
use crate::mapping::{compute_pdf_page, PageMapping};
use crate::model::{OutlineEntry, OutlineNode};
use crate::pages::{collect_page_ids, is_page_tree_finite, OutlineError, OutlineFault};
use crate::pdf_value::{PdfValue, TextFormat};
use crate::titles::pdf_string;
use lopdf::{Dictionary, Document, ObjectId};
use vstd::prelude::*;

verus! {

/// The id that stands for no object.
pub const NULL_ID: ObjectId = (0, 0);

/// What decides where an entry leads: the page mapping, and the pages of the
/// document in order.
pub struct Placement {
    pub mapping: PageMapping,
    pub pages: Seq<ObjectId>,
}

/// The PDF page that a node names.
pub open spec fn pdf_page(at: Placement, node: OutlineNode) -> u32 {
    mapping::pdf_page_for(node.page, node.roman, at.mapping)
}

/// The page object that a node leads to, if its page is in the document.
pub open spec fn target(at: Placement, node: OutlineNode) -> Option<ObjectId> {
    let page = pdf_page(at, node);
    if 1 <= page <= at.pages.len() {
        Some(at.pages[page - 1])
    } else {
        None
    }
}

/// How many object numbers a forest takes up: one for each node, and those of
/// its children if the node leads to a page.
pub open spec fn spans(at: Placement, nodes: Seq<OutlineNode>) -> nat
    decreases nodes,
{
    if nodes.len() == 0 {
        0
    } else {
        spans(at, nodes.drop_last()) + 1 + if target(at, nodes.last()) is Some {
            spans(at, nodes.last().children)
        } else {
            0
        }
    }
}

/// How many nodes of a forest become outline items: those that lead to a page
/// and whose ancestors all do.
pub open spec fn reached(at: Placement, nodes: Seq<OutlineNode>) -> nat
    decreases nodes,
{
    if nodes.len() == 0 {
        0
    } else {
        reached(at, nodes.drop_last()) + if target(at, nodes.last()) is Some {
            1 + reached(at, nodes.last().children)
        } else {
            0
        }
    }
}

/// The id of the last node of a row, where numbering starts behind `base`.
pub open spec fn last_id(at: Placement, nodes: Seq<OutlineNode>, base: int) -> ObjectId {
    ((base + 1 + spans(at, nodes.drop_last())) as u32, 0u16)
}

/// The id of the first item of a row.
pub open spec fn first_item(at: Placement, nodes: Seq<OutlineNode>, base: int) -> Option<ObjectId>
    decreases nodes.len(),
{
    if nodes.len() == 0 {
        None
    } else {
        match first_item(at, nodes.drop_last(), base) {
            Some(id) => Some(id),
            None => if target(at, nodes.last()) is Some {
                Some(last_id(at, nodes, base))
            } else {
                None
            },
        }
    }
}

/// The id of the last item of a row.
pub open spec fn last_item(at: Placement, nodes: Seq<OutlineNode>, base: int) -> Option<ObjectId>
    decreases nodes.len(),
{
    if nodes.len() == 0 {
        None
    } else if target(at, nodes.last()) is Some {
        Some(last_id(at, nodes, base))
    } else {
        last_item(at, nodes.drop_last(), base)
    }
}

/// The destination that shows a page as it is.
pub open spec fn destination(page: ObjectId) -> PdfValue {
    PdfValue::Array(
        seq![
            PdfValue::Reference(page),
            PdfValue::Name(pdf_value::name("XYZ")),
            PdfValue::Null,
            PdfValue::Null,
            PdfValue::Null,
        ],
    )
}

/// The entries of an outline item, without its links to its neighbours. An
/// item with `count` descendants is shown closed and names its first and its
/// last child.
pub open spec fn item_entries(
    title: Seq<char>,
    page: ObjectId,
    parent: ObjectId,
    first: ObjectId,
    last: ObjectId,
    count: int,
) -> Map<Seq<u8>, PdfValue> {
    let (bytes, format) = titles::title_text(title);
    let plain = pdf_value::no_entries().insert(
        pdf_value::name("Title"),
        PdfValue::Text(bytes, format),
    ).insert(pdf_value::name("Parent"), PdfValue::Reference(parent)).insert(
        pdf_value::name("Dest"),
        destination(page),
    );
    if count > 0 {
        plain.insert(pdf_value::name("First"), PdfValue::Reference(first)).insert(
            pdf_value::name("Last"),
            PdfValue::Reference(last),
        ).insert(pdf_value::name("Count"), PdfValue::Integer((-count) as i64))
    } else {
        plain
    }
}

/// The entries with a link to another item under the key, if there is one.
pub open spec fn linked(
    entries: Map<Seq<u8>, PdfValue>,
    key: Seq<u8>,
    to: Option<ObjectId>,
) -> Map<Seq<u8>, PdfValue> {
    match to {
        Some(id) => entries.insert(key, PdfValue::Reference(id)),
        None => entries,
    }
}

/// The item for a node that leads to `page` and has the id `id`, between its
/// neighbours `prev` and `next`.
pub open spec fn item(
    at: Placement,
    node: OutlineNode,
    page: ObjectId,
    id: ObjectId,
    parent: ObjectId,
    prev: Option<ObjectId>,
    next: Option<ObjectId>,
) -> PdfValue {
    let entries = item_entries(
        node.title,
        page,
        parent,
        first_item(at, node.children, id.0 as int)->0,
        last_item(at, node.children, id.0 as int)->0,
        reached(at, node.children) as int,
    );
    PdfValue::Dictionary(
        linked(
            linked(entries, pdf_value::name("Prev"), prev),
            pdf_value::name("Next"),
            next,
        ),
    )
}

/// The outline items of a row of siblings and of all their descendants. The
/// row is numbered behind `base`, belongs to `parent`, and `next` follows it.
pub open spec fn items(
    at: Placement,
    nodes: Seq<OutlineNode>,
    base: int,
    parent: ObjectId,
    next: Option<ObjectId>,
) -> Map<ObjectId, PdfValue>
    decreases nodes,
{
    if nodes.len() == 0 {
        Map::empty()
    } else {
        let node = nodes.last();
        let before = nodes.drop_last();
        match target(at, node) {
            None => items(at, before, base, parent, next),
            Some(page) => {
                let id = last_id(at, nodes, base);
                items(at, before, base, parent, Some(id)).union_prefer_right(
                    items(at, node.children, id.0 as int, id, None),
                ).insert(
                    id,
                    item(at, node, page, id, parent, last_item(at, before, base), next),
                )
            },
        }
    }
}

/// An entry that was left out with its children because its page is not in
/// the document.
#[derive(Debug)]
pub struct SkippedEntry {
    pub title: String,
    pub page: u32,
    pub pdf_page: u32,
}

/// What a [`SkippedEntry`] says.
#[verifier::ext_equal]
pub struct Skipped {
    pub title: Seq<char>,
    pub page: u32,
    pub pdf_page: u32,
}

impl SkippedEntry {
    pub open spec fn view(&self) -> Skipped {
        Skipped { title: self.title@, page: self.page, pdf_page: self.pdf_page }
    }
}

/// What a row of skipped entries says.
pub open spec fn skips(entries: Seq<SkippedEntry>) -> Seq<Skipped> {
    entries.map_values(|e: SkippedEntry| e@)
}

/// The nodes that lead to no page, in order; nodes below such a node are not
/// looked at.
pub open spec fn skipped(at: Placement, nodes: Seq<OutlineNode>) -> Seq<Skipped>
    decreases nodes,
{
    if nodes.len() == 0 {
        seq![]
    } else {
        let node = nodes.last();
        let before = skipped(at, nodes.drop_last());
        if target(at, node) is Some {
            before + skipped(at, node.children)
        } else {
            before.push(
                Skipped { title: node.title, page: node.page, pdf_page: pdf_page(at, node) },
            )
        }
    }
}

pub proof fn lemma_first_and_last(at: Placement, nodes: Seq<OutlineNode>, base: int)
    ensures
        first_item(at, nodes, base) is Some <==> reached(at, nodes) > 0,
        last_item(at, nodes, base) is Some <==> reached(at, nodes) > 0,
    decreases nodes.len(),
{
    if nodes.len() > 0 {
        lemma_first_and_last(at, nodes.drop_last(), base);
    }
}

/// A row of which no node leads to a page has no items.
pub proof fn unreached_row_has_no_items(
    at: Placement,
    nodes: Seq<OutlineNode>,
    base: int,
    parent: ObjectId,
    next: Option<ObjectId>,
)
    requires
        reached(at, nodes) == 0,
    ensures
        items(at, nodes, base, parent, next) == Map::<ObjectId, PdfValue>::empty(),
    decreases nodes.len(),
{
    if nodes.len() > 0 {
        unreached_row_has_no_items(at, nodes.drop_last(), base, parent, next);
    }
}

/// Adding a sibling behind a row only adds a link to it to the last item.
proof fn lemma_next_link(
    at: Placement,
    nodes: Seq<OutlineNode>,
    base: int,
    parent: ObjectId,
    next: ObjectId,
)
    ensures
        match last_item(at, nodes, base) {
            None => items(at, nodes, base, parent, Some(next)) == items(
                at,
                nodes,
                base,
                parent,
                None,
            ),
            Some(last) => items(at, nodes, base, parent, None).dom().contains(last) && (items(
                at,
                nodes,
                base,
                parent,
                None,
            )[last] matches PdfValue::Dictionary(entries) && items(
                at,
                nodes,
                base,
                parent,
                Some(next),
            ) == items(at, nodes, base, parent, None).insert(
                last,
                PdfValue::Dictionary(
                    entries.insert(pdf_value::name("Next"), PdfValue::Reference(next)),
                ),
            )),
        },
    decreases nodes.len(),
{
    if nodes.len() > 0 {
        if target(at, nodes.last()) is Some {
            let id = last_id(at, nodes, base);
            let without = items(at, nodes, base, parent, None);
            let with = items(at, nodes, base, parent, Some(next));
            assert(with =~= without.insert(id, with[id]));
        } else {
            lemma_next_link(at, nodes.drop_last(), base, parent, next);
        }
    }
}

proof fn lemma_spans_take(at: Placement, nodes: Seq<OutlineNode>, n: int)
    requires
        0 <= n <= nodes.len(),
    ensures
        spans(at, nodes.take(n)) <= spans(at, nodes),
        reached(at, nodes.take(n)) <= reached(at, nodes),
    decreases nodes.len() - n,
{
    if n == nodes.len() {
        assert(nodes.take(n) =~= nodes);
    } else {
        lemma_spans_take(at, nodes, n + 1);
        assert(nodes.take(n + 1).drop_last() =~= nodes.take(n));
    }
}

/// Builds the dictionary of a single outline item, without `/Prev` and
/// `/Next`.
fn make_outline_dict(
    title: &str,
    page_ref: ObjectId,
    parent_id: ObjectId,
    first_child: ObjectId,
    last_child: ObjectId,
    child_count: i64,
) -> (r: Dictionary)
    ensures
        lopdf_items::dictionary_entries(r) == item_entries(
            title@,
            page_ref,
            parent_id,
            first_child,
            last_child,
            child_count as int,
        ),
{
    let mut d = Dictionary::new();
    let (bytes, format) = pdf_string(title);
    let title_object = match format {
        TextFormat::Literal => literal_string(bytes),
        TextFormat::Hexadecimal => hexadecimal_string(bytes),
    };
    dictionary_set(&mut d, "Title", title_object);
    dictionary_set(&mut d, "Parent", reference(parent_id));
    let place = vec![reference(page_ref), name_object("XYZ"), null(), null(), null()];
    proof {
        assert(place@.map_values(|o: lopdf::Object| lopdf_items::object_value(o)) =~= seq![
            PdfValue::Reference(page_ref),
            PdfValue::Name(pdf_value::name("XYZ")),
            PdfValue::Null,
            PdfValue::Null,
            PdfValue::Null,
        ]);
    }
    dictionary_set(&mut d, "Dest", array(place));
    if child_count > 0 {
        dictionary_set(&mut d, "First", reference(first_child));
        dictionary_set(&mut d, "Last", reference(last_child));
        dictionary_set(&mut d, "Count", integer(-child_count));
    }
    d
}

/// Adds a link to the dictionary of an item that is in the document.
fn link_item(doc: &mut Document, id: ObjectId, key: &str, to: ObjectId)
    requires
        lopdf_items::document_objects(*old(doc)).dom().contains(id),
        lopdf_items::document_objects(*old(doc))[id] is Dictionary,
    ensures
        lopdf_items::same_frame(*old(doc), *final(doc)),
        lopdf_items::document_objects(*final(doc))
            == lopdf_items::document_objects(*old(doc)).insert(
            id,
            PdfValue::Dictionary(
                lopdf_items::document_objects(*old(doc))[id]->Dictionary_0.insert(
                    pdf_value::name(key),
                    PdfValue::Reference(to),
                ),
            ),
        ),
{
    if let Some(object) = object_mut(doc, id) {
        if let Ok(dictionary) = object.as_dict_mut() {
            dictionary_set(dictionary, key, reference(to));
        }
    }
}

/// The objects with a `/Next` link added to the dictionary of `previous`.
spec fn with_next(
    objects: Map<ObjectId, PdfValue>,
    previous: Option<ObjectId>,
    next: ObjectId,
) -> Map<ObjectId, PdfValue> {
    match previous {
        None => objects,
        Some(id) => objects.insert(
            id,
            PdfValue::Dictionary(
                objects[id]->Dictionary_0.insert(
                    pdf_value::name("Next"),
                    PdfValue::Reference(next),
                ),
            ),
        ),
    }
}

/// Linking the last item to a new sibling and adding the sibling's items
/// makes the items of a row those of the longer row.
proof fn lemma_add_item(
    objects: Map<ObjectId, PdfValue>,
    at: Placement,
    nodes: Seq<OutlineNode>,
    base: int,
    parent: ObjectId,
)
    requires
        nodes.len() > 0,
        target(at, nodes.last()) is Some,
    ensures
        ({
            let node = nodes.last();
            let before = nodes.drop_last();
            let id = last_id(at, nodes, base);
            let previous = last_item(at, before, base);
            let old_objects = objects.union_prefer_right(items(at, before, base, parent, None));
            &&& previous matches Some(p) ==> old_objects.dom().contains(p)
                && old_objects[p] is Dictionary
            &&& with_next(old_objects, previous, id).union_prefer_right(
                items(at, node.children, id.0 as int, id, None),
            ).insert(
                id,
                item(at, node, target(at, node)->0, id, parent, previous, None),
            ) == objects.union_prefer_right(items(at, nodes, base, parent, None))
        }),
{
    let node = nodes.last();
    let before = nodes.drop_last();
    let id = last_id(at, nodes, base);
    let previous = last_item(at, before, base);
    let old_objects = objects.union_prefer_right(items(at, before, base, parent, None));
    lemma_next_link(at, before, base, parent, id);
    let next_objects = with_next(old_objects, previous, id);
    assert(next_objects =~= objects.union_prefer_right(items(at, before, base, parent, Some(id))));
    assert(next_objects.union_prefer_right(items(at, node.children, id.0 as int, id, None)).insert(
        id,
        item(at, node, target(at, node)->0, id, parent, previous, None),
    ) =~= objects.union_prefer_right(items(at, nodes, base, parent, None)));
}

/// Adds the item for an entry that leads to `page_ref`, with the items of its
/// children, behind the item `previous`.
fn add_item(
    entry: &OutlineEntry,
    page_ref: ObjectId,
    mapping: &PageMapping,
    page_ids: &[ObjectId],
    doc: &mut Document,
    next_id: &mut u32,
    parent_id: ObjectId,
    previous: Option<ObjectId>,
    left_out: &mut Vec<SkippedEntry>,
) -> (r: i64)
    requires
        ({
            let at = Placement { mapping: *mapping, pages: page_ids@ };
            let children = model::outline(entry.children@);
            &&& *old(next_id) + spans(at, children) <= u32::MAX
            &&& reached(at, children) <= i64::MAX
        }),
        previous matches Some(p) ==> lopdf_items::document_objects(
            *old(doc),
        ).dom().contains(p) && lopdf_items::document_objects(*old(doc))[p] is Dictionary,
    ensures
        lopdf_items::same_frame(*old(doc), *final(doc)),
        ({
            let at = Placement { mapping: *mapping, pages: page_ids@ };
            let node = model::node_of(*entry);
            let id = (*old(next_id), 0u16);
            &&& *final(next_id) == *old(next_id) + spans(at, node.children)
            &&& lopdf_items::document_objects(*final(doc)) == with_next(
                lopdf_items::document_objects(*old(doc)),
                previous,
                id,
            ).union_prefer_right(items(at, node.children, id.0 as int, id, None)).insert(
                id,
                item(at, node, page_ref, id, parent_id, previous, None),
            )
            &&& skips(final(left_out)@) == skips(old(left_out)@) + skipped(at, node.children)
            &&& r == reached(at, node.children)
        }),
    decreases entry,
{
    let this_id: ObjectId = (*next_id, 0);
    if let Some(id) = previous {
        link_item(doc, id, "Next", this_id);
    }
    let (child_first, child_last, child_count) = build_outline(
        entry.children.as_slice(),
        mapping,
        page_ids,
        doc,
        next_id,
        this_id,
        left_out,
    );
    let mut dict = make_outline_dict(
        entry.title.as_str(),
        page_ref,
        parent_id,
        child_first,
        child_last,
        child_count,
    );
    proof {
        let at = Placement { mapping: *mapping, pages: page_ids@ };
        lemma_first_and_last(at, model::outline(entry.children@), this_id.0 as int);
    }
    if let Some(id) = previous {
        dictionary_set(&mut dict, "Prev", reference(id));
    }
    insert_object(doc, this_id, dictionary_object(dict));
    child_count
}

/// Recursively builds the outline items of a row of entries.
///
/// Each entry takes the next object number. An entry whose page is not in the
/// document is skipped with its children; its number stays unused. Siblings
/// are linked both ways as they are added. Returns the first and the last id
/// of the row and the number of items in the subtree; for a row without any
/// item these are null ids and 0.
fn build_outline(
    entries: &[OutlineEntry],
    mapping: &PageMapping,
    page_ids: &[ObjectId],
    doc: &mut Document,
    next_id: &mut u32,
    parent_id: ObjectId,
    left_out: &mut Vec<SkippedEntry>,
) -> (r: (ObjectId, ObjectId, i64))
    requires
        ({
            let at = Placement { mapping: *mapping, pages: page_ids@ };
            let nodes = model::outline(entries@);
            &&& *old(next_id) + spans(at, nodes) <= u32::MAX
            &&& reached(at, nodes) <= i64::MAX
        }),
    ensures
        lopdf_items::same_frame(*old(doc), *final(doc)),
        ({
            let at = Placement { mapping: *mapping, pages: page_ids@ };
            let nodes = model::outline(entries@);
            let base = *old(next_id) as int;
            &&& *final(next_id) == base + spans(at, nodes)
            &&& lopdf_items::document_objects(*final(doc))
                == lopdf_items::document_objects(*old(doc)).union_prefer_right(
                items(at, nodes, base, parent_id, None),
            )
            &&& skips(final(left_out)@) == skips(old(left_out)@) + skipped(at, nodes)
            &&& r.2 == reached(at, nodes)
            &&& reached(at, nodes) == 0 ==> r.0 == NULL_ID && r.1 == NULL_ID
                && lopdf_items::document_objects(*final(doc)) == lopdf_items::document_objects(
                *old(doc),
            )
            &&& reached(at, nodes) > 0 ==> Some(r.0) == first_item(at, nodes, base) && Some(r.1)
                == last_item(at, nodes, base)
        }),
    decreases entries@,
{
    let ghost at = Placement { mapping: *mapping, pages: page_ids@ };
    let ghost nodes = model::outline(entries@);
    let ghost base = *next_id as int;
    let ghost objects = lopdf_items::document_objects(*doc);
    let mut first: Option<ObjectId> = None;
    let mut last: Option<ObjectId> = None;
    let mut total: i64 = 0;
    let mut i: usize = 0;
    proof {
        model::lemma_outline_index(entries@);
        assert(nodes.take(0) =~= seq![]);
        assert(objects.union_prefer_right(items(at, nodes.take(0), base, parent_id, None))
            =~= objects);
        assert(skips(left_out@) + skipped(at, nodes.take(0)) =~= skips(left_out@));
    }
    while i < entries.len()
        invariant
            i <= entries@.len(),
            at == (Placement { mapping: *mapping, pages: page_ids@ }),
            nodes == model::outline(entries@),
            nodes.len() == entries@.len(),
            forall|j: int|
                0 <= j < entries@.len() ==> #[trigger] nodes[j] == model::node_of(
                    entries@[j],
                ),
            base + spans(at, nodes) <= u32::MAX,
            reached(at, nodes) <= i64::MAX,
            lopdf_items::same_frame(*old(doc), *doc),
            base == *old(next_id),
            objects == lopdf_items::document_objects(*old(doc)),
            *next_id == base + spans(at, nodes.take(i as int)),
            lopdf_items::document_objects(*doc) == objects.union_prefer_right(
                items(at, nodes.take(i as int), base, parent_id, None),
            ),
            skips(left_out@) == skips(old(left_out)@) + skipped(at, nodes.take(i as int)),
            total == reached(at, nodes.take(i as int)),
            first == first_item(at, nodes.take(i as int), base),
            last == last_item(at, nodes.take(i as int), base),
        decreases entries@.len() - i,
    {
        let entry = &entries[i];
        let ghost node = nodes[i as int];
        let ghost before = nodes.take(i as int);
        let ghost after = nodes.take(i + 1);
        proof {
            lemma_spans_take(at, nodes, i + 1);
            assert(after.drop_last() =~= before);
            assert(after.last() == node);
        }
        *next_id = *next_id + 1;
        let this_id: ObjectId = (*next_id, 0);
        let pdf_page_number: u32 = compute_pdf_page(entry.page, entry.roman, mapping);
        if pdf_page_number == 0 || pdf_page_number as usize > page_ids.len() {
            let ghost prior = left_out@;
            left_out.push(
                SkippedEntry {
                    title: entry.title.clone(),
                    page: entry.page,
                    pdf_page: pdf_page_number,
                },
            );
            proof {
                assert(node == model::node_of(*entry));
                let skip = Skipped {
                    title: node.title,
                    page: node.page,
                    pdf_page: pdf_page(at, node),
                };
                assert(left_out@.last()@ == skip);
                assert(skips(left_out@) =~= skips(prior).push(skip));
                assert(skips(left_out@) =~= skips(old(left_out)@) + skipped(at, after));
            }
        } else {
            let page_ref = page_ids[pdf_page_number as usize - 1];
            proof {
                assert(this_id == last_id(at, after, base));
                lemma_add_item(objects, at, after, base, parent_id);
            }
            let child_count: i64 = add_item(
                entry,
                page_ref,
                mapping,
                page_ids,
                doc,
                next_id,
                parent_id,
                last,
                left_out,
            );
            proof {
                assert(skips(old(left_out)@) + skipped(at, before) + skipped(at, node.children)
                    =~= skips(old(left_out)@) + skipped(at, after));
            }
            if first.is_none() {
                first = Some(this_id);
            }
            last = Some(this_id);
            total = total + 1 + child_count;
        }
        i += 1;
    }
    proof {
        assert(nodes.take(i as int) =~= nodes);
        lemma_first_and_last(at, nodes, base);
        if reached(at, nodes) == 0 {
            unreached_row_has_no_items(at, nodes, base, parent_id, None);
            assert(lopdf_items::document_objects(*doc) =~= objects);
        }
    }
    match (first, last) {
        (Some(a), Some(b)) => (a, b, total),
        _ => (NULL_ID, NULL_ID, total),
    }
}

/// The objects once the catalog's `/Outlines` entry names `outlines`.
pub open spec fn catalog_update(
    trailer: Map<Seq<u8>, PdfValue>,
    objects: Map<ObjectId, PdfValue>,
    outlines: ObjectId,
) -> Result<Map<ObjectId, PdfValue>, OutlineFault> {
    match pages::reference_under(trailer, pdf_value::name("Root")) {
        None => Err(OutlineFault::MissingRoot),
        Some(catalog) => match pdf_value::resolve(objects, catalog, 128) {
            None => Err(OutlineFault::CatalogUnreadableForUpdate),
            Some(id) => match objects[id] {
                PdfValue::Dictionary(entries) => Ok(
                    objects.insert(
                        id,
                        PdfValue::Dictionary(
                            entries.insert(
                                pdf_value::name("Outlines"),
                                PdfValue::Reference(outlines),
                            ),
                        ),
                    ),
                ),
                _ => Err(OutlineFault::CatalogNotDictionary),
            },
        },
    }
}

/// Points the catalog's `/Outlines` entry at the outline root object.
fn update_catalog(doc: &mut Document, outlines_id: ObjectId) -> (r: Result<(), OutlineError>)
    ensures
        lopdf_items::same_frame(*old(doc), *final(doc)),
        match catalog_update(
            lopdf_items::document_trailer(*old(doc)),
            lopdf_items::document_objects(*old(doc)),
            outlines_id,
        ) {
            Ok(objects) => r is Ok && lopdf_items::document_objects(*final(doc)) == objects,
            Err(fault) => (r matches Err(e) && e@ == fault)
                && lopdf_items::document_objects(*final(doc))
                == lopdf_items::document_objects(*old(doc)),
        },
{
    let ghost objects = lopdf_items::document_objects(*doc);
    let catalog_id = match trailer(doc).get("Root".as_bytes()) {
        Ok(value) => match value.as_reference() {
            Ok(id) => id,
            Err(_) => {
                return Err(OutlineError::MissingRoot);
            },
        },
        Err(_) => {
            return Err(OutlineError::MissingRoot);
        },
    };
    proof {
        pdf_value::lemma_resolve(objects, catalog_id, 128);
        if let Some(id) = pdf_value::resolve(objects, catalog_id, 128) {
            assert(objects.insert(id, objects[id]) =~= objects);
        }
    }
    match doc.get_object_mut(catalog_id) {
        Err(_) => Err(OutlineError::CatalogUnreadableForUpdate),
        Ok(object) => match object.as_dict_mut() {
            Err(_) => Err(OutlineError::CatalogNotDictionary),
            Ok(catalog) => {
                dictionary_set(catalog, "Outlines", reference(outlines_id));
                Ok(())
            },
        },
    }
}

/// The entries of the outline root object.
pub open spec fn root_entries(at: Placement, nodes: Seq<OutlineNode>, base: int) -> Map<
    Seq<u8>,
    PdfValue,
> {
    let plain = pdf_value::no_entries().insert(
        pdf_value::name("Type"),
        PdfValue::Name(pdf_value::name("Outlines")),
    );
    let ends = if reached(at, nodes) > 0 {
        plain.insert(
            pdf_value::name("First"),
            PdfValue::Reference(first_item(at, nodes, base)->0),
        ).insert(
            pdf_value::name("Last"),
            PdfValue::Reference(last_item(at, nodes, base)->0),
        )
    } else {
        plain
    };
    ends.insert(
        pdf_value::name("Count"),
        PdfValue::Integer(reached(at, nodes) as i64),
    )
}

/// The objects with the outline root, which gets the number behind `max_id`,
/// and with the outline items, numbered behind the root.
pub open spec fn outline_added(
    at: Placement,
    nodes: Seq<OutlineNode>,
    objects: Map<ObjectId, PdfValue>,
    max_id: int,
) -> Map<ObjectId, PdfValue> {
    let root = ((max_id + 1) as u32, 0u16);
    objects.union_prefer_right(items(at, nodes, max_id + 1, root, None)).insert(
        root,
        PdfValue::Dictionary(root_entries(at, nodes, max_id + 1)),
    )
}

/// Whether an outline can be put into a document at all: the page tree has no
/// cycle, and, if there are pages, the object numbers suffice.
pub open spec fn can_inject(doc: Document, nodes: Seq<OutlineNode>, mapping: PageMapping) -> bool {
    &&& pages::has_finite_page_tree(doc)
    &&& pages::document_pages(doc) matches Ok(pages) ==> pages.len() > 0 ==> {
        let at = Placement { mapping, pages };
        lopdf_items::document_max_id(doc) + 1 + spans(at, nodes) <= u32::MAX
    }
}

proof fn lemma_reached_spans(at: Placement, nodes: Seq<OutlineNode>)
    ensures
        reached(at, nodes) <= spans(at, nodes),
    decreases nodes,
{
    if nodes.len() > 0 {
        lemma_reached_spans(at, nodes.drop_last());
        lemma_reached_spans(at, nodes.last().children);
    }
}

/// Puts an outline into a document: collects the pages, builds the outline
/// items, creates the outline root and updates the catalog. Returns the
/// entries that were skipped.
///
/// [`can_inject_outline`] tells whether the outline can be put into the
/// document, and [`try_inject_outline`] does so only then.
pub fn inject_outline(
    doc: &mut Document,
    entries: &[OutlineEntry],
    mapping: &PageMapping,
) -> (r: Result<Vec<SkippedEntry>, OutlineError>)
    requires
        can_inject(*old(doc), model::outline(entries@), *mapping),
    ensures
        injected(*old(doc), *final(doc), model::outline(entries@), *mapping, r),
{
    let page_ids = match collect_page_ids(doc) {
        Ok(ids) => ids,
        Err(e) => {
            return Err(e);
        },
    };
    if page_ids.len() == 0 {
        return Err(OutlineError::NoPages);
    }
    let ghost at = Placement { mapping: *mapping, pages: page_ids@ };
    let ghost nodes = model::outline(entries@);
    proof {
        lemma_reached_spans(at, nodes);
    }
    let mut next_id: u32 = max_id(doc) + 1;
    let outlines_id: ObjectId = (next_id, 0);
    let mut left_out: Vec<SkippedEntry> = Vec::new();
    let (first, last, total_count) = build_outline(
        entries,
        mapping,
        page_ids.as_slice(),
        doc,
        &mut next_id,
        outlines_id,
        &mut left_out,
    );
    let mut root = Dictionary::new();
    dictionary_set(&mut root, "Type", name_object("Outlines"));
    if total_count > 0 {
        dictionary_set(&mut root, "First", reference(first));
        dictionary_set(&mut root, "Last", reference(last));
    }
    dictionary_set(&mut root, "Count", integer(total_count));
    insert_object(doc, outlines_id, dictionary_object(root));
    proof {
        assert(skips(left_out@) =~= skipped(at, nodes));
    }
    match update_catalog(doc, outlines_id) {
        Ok(()) => {
            set_max_id(doc, next_id);
            Ok(left_out)
        },
        Err(e) => Err(e),
    }
}

/// What putting an outline into a document does and returns.
///
/// A fault in the page tree, and a document without pages, leave the document
/// as it is. A fault in the catalog would leave the outline objects behind,
/// but no such fault is left once pages were found.
pub open spec fn injected(
    before: Document,
    after: Document,
    nodes: Seq<OutlineNode>,
    mapping: PageMapping,
    r: Result<Vec<SkippedEntry>, OutlineError>,
) -> bool {
    let objects = lopdf_items::document_objects(before);
    let trailer = lopdf_items::document_trailer(before);
    let max_id = lopdf_items::document_max_id(before);
    &&& lopdf_items::document_trailer(after) == trailer
    &&& match pages::document_pages(before) {
        Err(fault) => {
            &&& r matches Err(e) && e@ == fault
            &&& lopdf_items::document_objects(after) == objects
            &&& lopdf_items::document_max_id(after) == max_id
        },
        Ok(pages) => if pages.len() == 0 {
            &&& r matches Err(e) && e@ == OutlineFault::NoPages
            &&& lopdf_items::document_objects(after) == objects
            &&& lopdf_items::document_max_id(after) == max_id
        } else {
            let at = Placement { mapping, pages };
            let added = outline_added(at, nodes, objects, max_id as int);
            match catalog_update(trailer, added, ((max_id + 1) as u32, 0u16)) {
                Ok(complete) => {
                    &&& r matches Ok(left_out) && skips(left_out@) == skipped(at, nodes)
                    &&& lopdf_items::document_objects(after) == complete
                    &&& lopdf_items::document_max_id(after) == max_id + 1 + spans(at, nodes)
                },
                Err(fault) => {
                    &&& r matches Err(e) && e@ == fault
                    &&& lopdf_items::document_objects(after) == added
                    &&& lopdf_items::document_max_id(after) == max_id
                },
            }
        },
    }
}

/// The object numbers that the entries take up, if there are at most `room`.
fn count_spans(
    entries: &[OutlineEntry],
    mapping: &PageMapping,
    page_ids: &[ObjectId],
    room: u32,
) -> (r: Option<u32>)
    ensures
        ({
            let at = Placement { mapping: *mapping, pages: page_ids@ };
            let needed = spans(at, model::outline(entries@));
            match r {
                Some(n) => n == needed && needed <= room,
                None => needed > room,
            }
        }),
    decreases entries@,
{
    let ghost at = Placement { mapping: *mapping, pages: page_ids@ };
    let ghost nodes = model::outline(entries@);
    let mut total: u32 = 0;
    let mut i: usize = 0;
    proof {
        model::lemma_outline_index(entries@);
    }
    while i < entries.len()
        invariant
            i <= entries@.len(),
            at == (Placement { mapping: *mapping, pages: page_ids@ }),
            nodes == model::outline(entries@),
            nodes.len() == entries@.len(),
            forall|j: int|
                0 <= j < entries@.len() ==> #[trigger] nodes[j] == model::node_of(
                    entries@[j],
                ),
            total == spans(at, nodes.take(i as int)),
            total <= room,
        decreases entries@.len() - i,
    {
        let entry = &entries[i];
        proof {
            let after = nodes.take(i + 1);
            assert(after.drop_last() =~= nodes.take(i as int));
            assert(after.last() == nodes[i as int]);
            lemma_spans_take(at, nodes, i + 1);
        }
        if total >= room {
            return None;
        }
        total = total + 1;
        let page: u32 = compute_pdf_page(entry.page, entry.roman, mapping);
        if page != 0 && page as usize <= page_ids.len() {
            match count_spans(entry.children.as_slice(), mapping, page_ids, room - total) {
                Some(below) => {
                    total = total + below;
                },
                None => {
                    return None;
                },
            }
        }
        i += 1;
    }
    proof {
        assert(nodes.take(i as int) =~= nodes);
    }
    Some(total)
}

/// Tells whether an outline can be put into a document.
pub fn can_inject_outline(
    doc: &Document,
    entries: &[OutlineEntry],
    mapping: &PageMapping,
) -> (r: bool)
    ensures
        r == can_inject(*doc, model::outline(entries@), *mapping),
{
    if !is_page_tree_finite(doc) {
        return false;
    }
    let page_ids = match collect_page_ids(doc) {
        Ok(ids) => ids,
        Err(_) => {
            return true;
        },
    };
    if page_ids.len() == 0 {
        return true;
    }
    let used: u32 = max_id(doc);
    if used == u32::MAX {
        return false;
    }
    count_spans(entries, mapping, page_ids.as_slice(), u32::MAX - used - 1).is_some()
}

/// Puts an outline into a document as [`inject_outline`] does, if it can be
/// put there; otherwise leaves the document as it is and returns nothing.
pub fn try_inject_outline(
    doc: &mut Document,
    entries: &[OutlineEntry],
    mapping: &PageMapping,
) -> (r: Option<Result<Vec<SkippedEntry>, OutlineError>>)
    ensures
        match r {
            Some(result) => can_inject(*old(doc), model::outline(entries@), *mapping)
                && injected(
                *old(doc),
                *final(doc),
                model::outline(entries@),
                *mapping,
                result,
            ),
            None => !can_inject(*old(doc), model::outline(entries@), *mapping)
                && *final(doc) == *old(doc),
        },
{
    if can_inject_outline(doc, entries, mapping) {
        Some(inject_outline(doc, entries, mapping))
    } else {
        None
    }
}

} // verus!
