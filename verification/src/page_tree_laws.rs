//! What holds of the pages that are found in a document's page tree.
use crate::lopdf_items;
use crate::pages;
use crate::pdf_value;
use crate::pages::{OutlineError, OutlineFault};
use crate::pdf_value::PdfValue;
use lopdf::{Document, ObjectId};
use vstd::prelude::*;

verus! {

/// An object that is no reference is read as it is, and a reference is
/// followed. A missing object cannot be read.
pub proof fn references_are_followed(
    objects: Map<ObjectId, PdfValue>,
    id: ObjectId,
    next: ObjectId,
)
    ensures
        !objects.dom().contains(id) ==> pdf_value::read(objects, id) is None,
        objects.dom().contains(id) && !(objects[id] is Reference) ==> pdf_value::read(objects, id)
            == Some(objects[id]),
        objects.dom().contains(id) && objects[id] == PdfValue::Reference(next)
            && objects.dom().contains(next) && !(objects[next] is Reference) ==> pdf_value::read(
            objects,
            id,
        ) == Some(objects[next]),
{
    reveal_with_fuel(pdf_value::resolve, 3);
}

/// A page, or a node without a type that is a name, is one page: itself.
pub proof fn a_page_is_found_alone(
    objects: Map<ObjectId, PdfValue>,
    id: ObjectId,
    entries: Map<Seq<u8>, PdfValue>,
)
    requires
        pdf_value::read(objects, id) == Some(PdfValue::Dictionary(entries)),
        !entries.dom().contains(pdf_value::name("Type")) || !(entries[pdf_value::name(
            "Type",
        )] is Name) || entries[pdf_value::name("Type")] == PdfValue::Name(pdf_value::name("Page")),
    ensures
        pages::is_finite(objects, id),
        pages::pages_below(objects, id) == Ok::<Seq<ObjectId>, OutlineFault>(seq![id]),
{
    reveal_strlit("Page");
    reveal_strlit("Pages");
    assert("Page"@.len() != "Pages"@.len());
    pdf_value::names_differ("Page", "Pages");
    assert(pages::walk(objects, id, 0) is Some);
    pages::lemma_pages_below(objects, id, 0);
}

/// Whether the object `id` is a `/Pages` node with these kids.
pub open spec fn has_kids(
    objects: Map<ObjectId, PdfValue>,
    id: ObjectId,
    kids: Seq<PdfValue>,
) -> bool {
    &&& pdf_value::read(objects, id) matches Some(PdfValue::Dictionary(entries))
    &&& entries.dom().contains(pdf_value::name("Type"))
    &&& entries[pdf_value::name("Type")] == PdfValue::Name(pdf_value::name("Pages"))
    &&& entries.dom().contains(pdf_value::name("Kids"))
    &&& entries[pdf_value::name("Kids")] == PdfValue::Array(kids)
}

/// Whether the pages at and below a kid are these.
pub open spec fn kid_has_pages(
    objects: Map<ObjectId, PdfValue>,
    kid: PdfValue,
    found: Seq<ObjectId>,
) -> bool {
    kid matches PdfValue::Reference(id) && pages::is_finite(objects, id) && pages::pages_below(
        objects,
        id,
    ) == Ok::<Seq<ObjectId>, OutlineFault>(found)
}

proof fn lemma_walk_at(objects: Map<ObjectId, PdfValue>, id: ObjectId) -> (depth: nat)
    requires
        pages::is_finite(objects, id),
    ensures
        pages::walk(objects, id, depth) == Some(pages::pages_below(objects, id)),
{
    let depth = choose|depth: nat| pages::walk(objects, id, depth) is Some;
    pages::lemma_pages_below(objects, id, depth);
    depth
}

proof fn lemma_walk_parts(
    objects: Map<ObjectId, PdfValue>,
    id: ObjectId,
    kids: Seq<PdfValue>,
    parts: Seq<Seq<ObjectId>>,
) -> (depth: nat)
    requires
        parts.len() == kids.len(),
        forall|i: int| 0 <= i < kids.len() ==> kid_has_pages(objects, #[trigger] kids[i], parts[i]),
    ensures
        pages::walk_kids(objects, id, kids, depth) == Some(
            Ok::<Seq<ObjectId>, OutlineFault>(parts.flatten_alt()),
        ),
    decreases kids.len(),
{
    if kids.len() == 0 {
        assert(parts =~= seq![]);
        0
    } else {
        let before = kids.drop_last();
        let parts_before = parts.drop_last();
        assert forall|i: int| 0 <= i < before.len() implies kid_has_pages(
            objects,
            #[trigger] before[i],
            parts_before[i],
        ) by {
            assert(before[i] == kids[i]);
        }
        let a = lemma_walk_parts(objects, id, before, parts_before);
        assert(kid_has_pages(objects, kids[kids.len() - 1], parts.last()));
        let last = kids.last()->Reference_0;
        let b = lemma_walk_at(objects, last);
        let depth = if a < b {
            b
        } else {
            a
        };
        pages::walk_is_stable(objects, last, b, depth);
        pages::lemma_walk_kids_stable(objects, id, before, a, depth);
        depth
    }
}

/// The pages at and below a `/Pages` node are those at and below its kids, one
/// kid behind the other. A node without kids has none.
pub proof fn pages_are_those_of_the_kids(
    objects: Map<ObjectId, PdfValue>,
    id: ObjectId,
    kids: Seq<PdfValue>,
    parts: Seq<Seq<ObjectId>>,
)
    requires
        has_kids(objects, id, kids),
        parts.len() == kids.len(),
        forall|i: int| 0 <= i < kids.len() ==> kid_has_pages(objects, #[trigger] kids[i], parts[i]),
    ensures
        pages::is_finite(objects, id),
        pages::pages_below(objects, id) == Ok::<Seq<ObjectId>, OutlineFault>(parts.flatten()),
{
    let depth = lemma_walk_parts(objects, id, kids, parts);
    parts.lemma_flatten_and_flatten_alt_are_equivalent();
    assert(pages::walk(objects, id, depth + 1) is Some);
    pages::lemma_pages_below(objects, id, depth + 1);
}

proof fn lemma_fault_stays(
    objects: Map<ObjectId, PdfValue>,
    id: ObjectId,
    kids: Seq<PdfValue>,
    n: int,
    depth: nat,
    fault: OutlineFault,
)
    requires
        0 <= n <= kids.len(),
        pages::walk_kids(objects, id, kids.take(n), depth) == Some(
            Err::<Seq<ObjectId>, OutlineFault>(fault),
        ),
    ensures
        pages::walk_kids(objects, id, kids, depth) == Some(
            Err::<Seq<ObjectId>, OutlineFault>(fault),
        ),
    decreases kids.len(),
{
    if n == kids.len() {
        assert(kids.take(n) =~= kids);
    } else {
        assert(kids.drop_last().take(n) =~= kids.take(n));
        lemma_fault_stays(objects, id, kids.drop_last(), n, depth, fault);
    }
}

/// A `/Pages` node has the fault of its first kid that has one, whatever comes
/// behind that kid. A kid that is no reference is such a fault of the node.
pub proof fn the_first_fault_among_the_kids_counts(
    objects: Map<ObjectId, PdfValue>,
    id: ObjectId,
    kids: Seq<PdfValue>,
    parts: Seq<Seq<ObjectId>>,
    n: int,
    fault: OutlineFault,
)
    requires
        has_kids(objects, id, kids),
        0 <= n < kids.len(),
        parts.len() == n,
        forall|i: int| 0 <= i < n ==> kid_has_pages(objects, #[trigger] kids[i], parts[i]),
        match kids[n] {
            PdfValue::Reference(kid) => pages::is_finite(objects, kid) && pages::pages_below(
                objects,
                kid,
            ) == Err::<Seq<ObjectId>, OutlineFault>(fault),
            _ => fault == OutlineFault::KidNotReference(id),
        },
    ensures
        pages::is_finite(objects, id),
        pages::pages_below(objects, id) == Err::<Seq<ObjectId>, OutlineFault>(fault),
{
    let before = kids.take(n);
    assert forall|i: int| 0 <= i < before.len() implies kid_has_pages(
        objects,
        #[trigger] before[i],
        parts[i],
    ) by {
        assert(before[i] == kids[i]);
    }
    let a = lemma_walk_parts(objects, id, before, parts);
    assert(kids.take(n + 1).drop_last() =~= before);
    assert(kids.take(n + 1).last() == kids[n]);
    let depth = match kids[n] {
        PdfValue::Reference(kid) => {
            let b = lemma_walk_at(objects, kid);
            let depth = if a < b {
                b
            } else {
                a
            };
            pages::walk_is_stable(objects, kid, b, depth);
            depth
        },
        _ => a,
    };
    pages::lemma_walk_kids_stable(objects, id, before, a, depth);
    lemma_fault_stays(objects, id, kids, n + 1, depth, fault);
    assert(pages::walk(objects, id, depth + 1) is Some);
    pages::lemma_pages_below(objects, id, depth + 1);
}

/// A node that cannot be read, that is no dictionary, that has another type
/// than a page tree has, or whose kids are missing or no array, is a fault.
pub proof fn faulty_nodes_are_named(objects: Map<ObjectId, PdfValue>, id: ObjectId)
    ensures
        ({
            let found = pages::pages_below(objects, id);
            let kind = pdf_value::name("Type");
            let kids = pdf_value::name("Kids");
            match pdf_value::read(objects, id) {
                None => found == Err::<Seq<ObjectId>, OutlineFault>(
                    OutlineFault::NodeUnreadable(id),
                ),
                Some(PdfValue::Dictionary(entries)) => {
                    &&& entries.dom().contains(kind) && entries[kind] == PdfValue::Name(
                        pdf_value::name("Pages"),
                    ) && !entries.dom().contains(kids) ==> found == Err::<
                        Seq<ObjectId>,
                        OutlineFault,
                    >(OutlineFault::MissingKids(id))
                    &&& entries.dom().contains(kind) && entries[kind] == PdfValue::Name(
                        pdf_value::name("Pages"),
                    ) && entries.dom().contains(kids) && !(entries[kids] is Array) ==> found
                        == Err::<Seq<ObjectId>, OutlineFault>(OutlineFault::KidsNotArray(id))
                    &&& entries.dom().contains(kind) && entries[kind] is Name && entries[kind]
                        != PdfValue::Name(pdf_value::name("Pages")) && entries[kind]
                        != PdfValue::Name(pdf_value::name("Page")) ==> found == Err::<
                        Seq<ObjectId>,
                        OutlineFault,
                    >(OutlineFault::UnexpectedNodeType(entries[kind]->Name_0))
                },
                Some(_) => found == Err::<Seq<ObjectId>, OutlineFault>(
                    OutlineFault::NodeNotDictionary(id),
                ),
            }
        }),
{
    if let pages::NodeRole::Faulty(fault) = pages::node_role(objects, id) {
        assert(pages::walk(objects, id, 0) is Some);
        pages::lemma_pages_below(objects, id, 0);
    }
}

/// The pages of a document are those at and below the node that `/Pages` of
/// its catalog refers to, where the trailer's `/Root` refers to the catalog.
/// Each step that fails is a fault of its own.
pub proof fn pages_are_found_through_the_catalog(doc: Document)
    ensures
        ({
            let objects = lopdf_items::document_objects(doc);
            let trailer = lopdf_items::document_trailer(doc);
            let found = pages::document_pages(doc);
            let key = pdf_value::name("Pages");
            if !trailer.dom().contains(pdf_value::name("Root")) {
                found == Err::<Seq<ObjectId>, OutlineFault>(OutlineFault::MissingRoot)
            } else {
                match trailer[pdf_value::name("Root")] {
                    PdfValue::Reference(root) => match pdf_value::read(objects, root) {
                        None => found == Err::<Seq<ObjectId>, OutlineFault>(
                            OutlineFault::CatalogUnreadable,
                        ),
                        Some(PdfValue::Dictionary(catalog)) => {
                            if !catalog.dom().contains(key) {
                                found == Err::<Seq<ObjectId>, OutlineFault>(
                                    OutlineFault::MissingPages,
                                )
                            } else {
                                match catalog[key] {
                                    PdfValue::Reference(top) => found == pages::pages_below(
                                        objects,
                                        top,
                                    ),
                                    _ => found == Err::<Seq<ObjectId>, OutlineFault>(
                                        OutlineFault::PagesNotReference,
                                    ),
                                }
                            }
                        },
                        Some(_) => found == Err::<Seq<ObjectId>, OutlineFault>(
                            OutlineFault::CatalogNotDictionary,
                        ),
                    },
                    _ => found == Err::<Seq<ObjectId>, OutlineFault>(OutlineFault::MissingRoot),
                }
            }
        }),
{
}

/// A page tree has no cycle exactly when the walk from the node that the
/// catalog names comes to an end.
pub proof fn walks_start_at_the_node_that_the_catalog_names(
    doc: Document,
    root: ObjectId,
    catalog: Map<Seq<u8>, PdfValue>,
    top: ObjectId,
)
    requires
        ({
            let objects = lopdf_items::document_objects(doc);
            let trailer = lopdf_items::document_trailer(doc);
            &&& trailer.dom().contains(pdf_value::name("Root"))
            &&& trailer[pdf_value::name("Root")] == PdfValue::Reference(root)
            &&& pdf_value::read(objects, root) == Some(PdfValue::Dictionary(catalog))
            &&& catalog.dom().contains(pdf_value::name("Pages"))
            &&& catalog[pdf_value::name("Pages")] == PdfValue::Reference(top)
        }),
    ensures
        pages::has_finite_page_tree(doc) <==> pages::is_finite(
            lopdf_items::document_objects(doc),
            top,
        ),
{
}

/// An outline error says which fault it is, and of which object.
pub proof fn outline_errors_say_what_is_wrong(e: OutlineError)
    ensures
        e is MissingRoot <==> e@ is MissingRoot,
        e is CatalogUnreadable <==> e@ is CatalogUnreadable,
        e is CatalogNotDictionary <==> e@ is CatalogNotDictionary,
        e is MissingPages <==> e@ is MissingPages,
        e is PagesNotReference <==> e@ is PagesNotReference,
        e is NoPages <==> e@ is NoPages,
        e is CatalogUnreadableForUpdate <==> e@ is CatalogUnreadableForUpdate,
        e matches OutlineError::NodeUnreadable(id) ==> e@ == OutlineFault::NodeUnreadable(id),
        e matches OutlineError::NodeNotDictionary(id) ==> e@ == OutlineFault::NodeNotDictionary(id),
        e matches OutlineError::MissingKids(id) ==> e@ == OutlineFault::MissingKids(id),
        e matches OutlineError::KidsNotArray(id) ==> e@ == OutlineFault::KidsNotArray(id),
        e matches OutlineError::KidNotReference(id) ==> e@ == OutlineFault::KidNotReference(id),
        e matches OutlineError::UnexpectedNodeType(kind) ==> e@
            == OutlineFault::UnexpectedNodeType(kind@),
{
}

} // verus!
