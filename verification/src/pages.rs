//! The pages of a PDF document, in document order.
use crate::lopdf_items;
use crate::pdf_value;
use crate::lopdf_items::{object_count, trailer};
use crate::pdf_value::PdfValue;
use lopdf::{Document, Object, ObjectId};
use vstd::prelude::*;

verus! {

/// Why an outline could not be put into a document.
#[derive(Debug)]
pub enum OutlineError {
    /// The trailer has no `/Root` reference.
    MissingRoot,
    /// The catalog object cannot be read.
    CatalogUnreadable,
    /// The catalog is no dictionary.
    CatalogNotDictionary,
    /// The catalog has no `/Pages` entry.
    MissingPages,
    /// The `/Pages` entry is no indirect reference.
    PagesNotReference,
    /// A node of the page tree cannot be read.
    NodeUnreadable(ObjectId),
    /// A node of the page tree is no dictionary.
    NodeNotDictionary(ObjectId),
    /// A `/Pages` node has no `/Kids` entry.
    MissingKids(ObjectId),
    /// The `/Kids` entry of a node is no array.
    KidsNotArray(ObjectId),
    /// A kid of a node is no reference.
    KidNotReference(ObjectId),
    /// A node of the page tree has an unknown `/Type`.
    UnexpectedNodeType(Vec<u8>),
    /// The document has no pages.
    NoPages,
    /// The catalog object cannot be read when it is to be updated.
    CatalogUnreadableForUpdate,
}

/// What an [`OutlineError`] says.
pub enum OutlineFault {
    MissingRoot,
    CatalogUnreadable,
    CatalogNotDictionary,
    MissingPages,
    PagesNotReference,
    NodeUnreadable(ObjectId),
    NodeNotDictionary(ObjectId),
    MissingKids(ObjectId),
    KidsNotArray(ObjectId),
    KidNotReference(ObjectId),
    UnexpectedNodeType(Seq<u8>),
    NoPages,
    CatalogUnreadableForUpdate,
}

impl OutlineError {
    pub open spec fn view(&self) -> OutlineFault {
        match self {
            OutlineError::MissingRoot => OutlineFault::MissingRoot,
            OutlineError::CatalogUnreadable => OutlineFault::CatalogUnreadable,
            OutlineError::CatalogNotDictionary => OutlineFault::CatalogNotDictionary,
            OutlineError::MissingPages => OutlineFault::MissingPages,
            OutlineError::PagesNotReference => OutlineFault::PagesNotReference,
            OutlineError::NodeUnreadable(id) => OutlineFault::NodeUnreadable(*id),
            OutlineError::NodeNotDictionary(id) => OutlineFault::NodeNotDictionary(*id),
            OutlineError::MissingKids(id) => OutlineFault::MissingKids(*id),
            OutlineError::KidsNotArray(id) => OutlineFault::KidsNotArray(*id),
            OutlineError::KidNotReference(id) => OutlineFault::KidNotReference(*id),
            OutlineError::UnexpectedNodeType(t) => OutlineFault::UnexpectedNodeType(t@),
            OutlineError::NoPages => OutlineFault::NoPages,
            OutlineError::CatalogUnreadableForUpdate => OutlineFault::CatalogUnreadableForUpdate,
        }
    }
}

/// The part that a node plays in the page tree.
pub enum NodeRole {
    Page,
    Pages(Seq<PdfValue>),
    Faulty(OutlineFault),
}

/// The `/Type` of a dictionary, where it is a name.
pub open spec fn node_type(entries: Map<Seq<u8>, PdfValue>) -> Option<Seq<u8>> {
    if entries.dom().contains(pdf_value::name("Type")) {
        match entries[pdf_value::name("Type")] {
            PdfValue::Name(bytes) => Some(bytes),
            _ => None,
        }
    } else {
        None
    }
}

/// The part that the dictionary of the node `id` plays. A node without a type
/// counts as a page.
pub open spec fn dictionary_role(entries: Map<Seq<u8>, PdfValue>, id: ObjectId) -> NodeRole {
    let kids = pdf_value::name("Kids");
    match node_type(entries) {
        None => NodeRole::Page,
        Some(kind) => if kind == pdf_value::name("Pages") {
            if !entries.dom().contains(kids) {
                NodeRole::Faulty(OutlineFault::MissingKids(id))
            } else {
                match entries[kids] {
                    PdfValue::Array(items) => NodeRole::Pages(items),
                    _ => NodeRole::Faulty(OutlineFault::KidsNotArray(id)),
                }
            }
        } else if kind == pdf_value::name("Page") {
            NodeRole::Page
        } else {
            NodeRole::Faulty(OutlineFault::UnexpectedNodeType(kind))
        },
    }
}

/// The part that the object `id` plays.
pub open spec fn node_role(objects: Map<ObjectId, PdfValue>, id: ObjectId) -> NodeRole {
    match pdf_value::read(objects, id) {
        None => NodeRole::Faulty(OutlineFault::NodeUnreadable(id)),
        Some(value) => match value {
            PdfValue::Dictionary(entries) => dictionary_role(entries, id),
            _ => NodeRole::Faulty(OutlineFault::NodeNotDictionary(id)),
        },
    }
}

/// The pages at and below the node `id`, in order, or the first fault on the
/// way. Nothing when there are more than `depth` levels below the node.
pub open spec fn walk(objects: Map<ObjectId, PdfValue>, id: ObjectId, depth: nat) -> Option<
    Result<Seq<ObjectId>, OutlineFault>,
>
    decreases depth, 0nat,
{
    match node_role(objects, id) {
        NodeRole::Page => Some(Ok(seq![id])),
        NodeRole::Faulty(fault) => Some(Err(fault)),
        NodeRole::Pages(kids) => if depth == 0 {
            None
        } else {
            walk_kids(objects, id, kids, (depth - 1) as nat)
        },
    }
}

/// The pages at and below the kids of the node `id`, as [`walk`] finds them.
pub open spec fn walk_kids(
    objects: Map<ObjectId, PdfValue>,
    id: ObjectId,
    kids: Seq<PdfValue>,
    depth: nat,
) -> Option<Result<Seq<ObjectId>, OutlineFault>>
    decreases depth, kids.len() + 1,
{
    if kids.len() == 0 {
        Some(Ok(seq![]))
    } else {
        match walk_kids(objects, id, kids.drop_last(), depth) {
            Some(Ok(pages)) => match kids.last() {
                PdfValue::Reference(kid) => match walk(objects, kid, depth) {
                    Some(Ok(more)) => Some(Ok(pages + more)),
                    Some(Err(fault)) => Some(Err(fault)),
                    None => None,
                },
                _ => Some(Err(OutlineFault::KidNotReference(id))),
            },
            Some(Err(fault)) => Some(Err(fault)),
            None => None,
        }
    }
}

/// Whether the walk from the node `id` comes to an end.
pub open spec fn is_finite(objects: Map<ObjectId, PdfValue>, id: ObjectId) -> bool {
    exists|depth: nat| walk(objects, id, depth) is Some
}

/// What the walk from the node `id` finds, where it comes to an end.
pub open spec fn pages_below(objects: Map<ObjectId, PdfValue>, id: ObjectId) -> Result<
    Seq<ObjectId>,
    OutlineFault,
> {
    let depth = choose|depth: nat| walk(objects, id, depth) is Some;
    walk(objects, id, depth)->0
}

/// The id under a key, where it is a reference.
pub open spec fn reference_under(entries: Map<Seq<u8>, PdfValue>, key: Seq<u8>) -> Option<
    ObjectId,
> {
    if entries.dom().contains(key) {
        match entries[key] {
            PdfValue::Reference(id) => Some(id),
            _ => None,
        }
    } else {
        None
    }
}

/// The root of the page tree, which the catalog names.
pub open spec fn page_root(
    trailer: Map<Seq<u8>, PdfValue>,
    objects: Map<ObjectId, PdfValue>,
) -> Result<ObjectId, OutlineFault> {
    match reference_under(trailer, pdf_value::name("Root")) {
        None => Err(OutlineFault::MissingRoot),
        Some(catalog) => match pdf_value::read(objects, catalog) {
            None => Err(OutlineFault::CatalogUnreadable),
            Some(value) => match value {
                PdfValue::Dictionary(entries) => if !entries.dom().contains(
                    pdf_value::name("Pages"),
                ) {
                    Err(OutlineFault::MissingPages)
                } else {
                    match reference_under(entries, pdf_value::name("Pages")) {
                        Some(root) => Ok(root),
                        None => Err(OutlineFault::PagesNotReference),
                    }
                },
                _ => Err(OutlineFault::CatalogNotDictionary),
            },
        },
    }
}

/// Whether the page tree of a document is free of cycles, as far as a walk
/// goes that stops at the first fault.
pub open spec fn has_finite_page_tree(doc: Document) -> bool {
    page_root(
        lopdf_items::document_trailer(doc),
        lopdf_items::document_objects(doc),
    ) matches Ok(root) ==> is_finite(lopdf_items::document_objects(doc), root)
}

/// The pages of a document in order, or the fault that keeps them from being
/// found.
pub open spec fn document_pages(doc: Document) -> Result<Seq<ObjectId>, OutlineFault> {
    let objects = lopdf_items::document_objects(doc);
    match page_root(lopdf_items::document_trailer(doc), objects) {
        Ok(root) => pages_below(objects, root),
        Err(fault) => Err(fault),
    }
}

/// A walk that comes to an end does not depend on the depth it was allowed.
pub proof fn walk_is_stable(objects: Map<ObjectId, PdfValue>, id: ObjectId, a: nat, b: nat)
    requires
        walk(objects, id, a) is Some,
        a <= b,
    ensures
        walk(objects, id, b) == walk(objects, id, a),
    decreases a, 0nat,
{
    if let NodeRole::Pages(kids) = node_role(objects, id) {
        lemma_walk_kids_stable(objects, id, kids, (a - 1) as nat, (b - 1) as nat);
    }
}

pub proof fn lemma_walk_kids_stable(
    objects: Map<ObjectId, PdfValue>,
    id: ObjectId,
    kids: Seq<PdfValue>,
    a: nat,
    b: nat,
)
    requires
        walk_kids(objects, id, kids, a) is Some,
        a <= b,
    ensures
        walk_kids(objects, id, kids, b) == walk_kids(objects, id, kids, a),
    decreases a, kids.len() + 1,
{
    if kids.len() > 0 {
        lemma_walk_kids_stable(objects, id, kids.drop_last(), a, b);
        if walk_kids(objects, id, kids.drop_last(), a) matches Some(Ok(_)) {
            if let PdfValue::Reference(kid) = kids.last() {
                walk_is_stable(objects, kid, a, b);
            }
        }
    }
}

/// What a finished walk found is what the node's pages are.
pub proof fn lemma_pages_below(objects: Map<ObjectId, PdfValue>, id: ObjectId, depth: nat)
    requires
        walk(objects, id, depth) is Some,
    ensures
        is_finite(objects, id),
        pages_below(objects, id) == walk(objects, id, depth)->0,
{
    let other = choose|d: nat| walk(objects, id, d) is Some;
    if depth <= other {
        walk_is_stable(objects, id, depth, other);
    } else {
        walk_is_stable(objects, id, other, depth);
    }
}

/// The part of a walk over the first `n` kids ends if the whole walk ends; if
/// it finds a fault, so does the whole walk.
proof fn lemma_walk_kids_prefix(
    objects: Map<ObjectId, PdfValue>,
    id: ObjectId,
    kids: Seq<PdfValue>,
    n: int,
    depth: nat,
)
    requires
        0 <= n <= kids.len(),
    ensures
        walk_kids(objects, id, kids, depth) is Some ==> walk_kids(
            objects,
            id,
            kids.take(n),
            depth,
        ) is Some,
        walk_kids(objects, id, kids.take(n), depth) matches Some(Err(fault)) ==> walk_kids(
            objects,
            id,
            kids,
            depth,
        ) == Some(Err::<Seq<ObjectId>, OutlineFault>(fault)),
    decreases kids.len() - n,
{
    if n == kids.len() {
        assert(kids.take(n) =~= kids);
    } else {
        lemma_walk_kids_prefix(objects, id, kids, n + 1, depth);
        assert(kids.take(n + 1).drop_last() =~= kids.take(n));
    }
}

/// A node of the page tree, as it is read.
enum Node<'a> {
    Page,
    Pages(&'a Vec<Object>),
    Faulty(OutlineError),
}

/// What the items of an array hold.
spec fn values(items: Seq<Object>) -> Seq<PdfValue> {
    items.map_values(|o: Object| lopdf_items::object_value(o))
}

impl<'a> Node<'a> {
    spec fn role(&self) -> NodeRole {
        match self {
            Node::Page => NodeRole::Page,
            Node::Pages(kids) => NodeRole::Pages(values(kids@)),
            Node::Faulty(e) => NodeRole::Faulty(e@),
        }
    }
}

/// Whether the bytes are those of the given word.
fn is_word(bytes: &[u8], word: &str) -> (r: bool)
    ensures
        r == (bytes@ == pdf_value::name(word)),
{
    let other = word.as_bytes();
    if bytes.len() != other.len() {
        return false;
    }
    let mut i: usize = 0;
    while i < bytes.len()
        invariant
            i <= bytes@.len(),
            bytes@.len() == other@.len(),
            other@ == pdf_value::name(word),
            forall|j: int| 0 <= j < i ==> bytes@[j] == other@[j],
        decreases bytes@.len() - i,
    {
        if bytes[i] != other[i] {
            return false;
        }
        i += 1;
    }
    proof {
        assert(bytes@ =~= other@);
    }
    true
}

/// Reads the node `id` of the page tree.
fn read_node(doc: &Document, id: ObjectId) -> (r: Node<'_>)
    ensures
        r.role() == node_role(lopdf_items::document_objects(*doc), id),
{
    let object = match doc.get_object(id) {
        Ok(object) => object,
        Err(_) => {
            return Node::Faulty(OutlineError::NodeUnreadable(id));
        },
    };
    let dictionary = match object.as_dict() {
        Ok(dictionary) => dictionary,
        Err(_) => {
            return Node::Faulty(OutlineError::NodeNotDictionary(id));
        },
    };
    let kind = match dictionary.get("Type".as_bytes()) {
        Ok(value) => match value.as_name() {
            Ok(bytes) => bytes,
            Err(_) => {
                return Node::Page;
            },
        },
        Err(_) => {
            return Node::Page;
        },
    };
    if is_word(kind, "Pages") {
        match dictionary.get("Kids".as_bytes()) {
            Err(_) => Node::Faulty(OutlineError::MissingKids(id)),
            Ok(value) => match value.as_array() {
                Ok(items) => Node::Pages(items),
                Err(_) => Node::Faulty(OutlineError::KidsNotArray(id)),
            },
        }
    } else if is_word(kind, "Page") {
        Node::Page
    } else {
        Node::Faulty(OutlineError::UnexpectedNodeType(vstd::slice::slice_to_vec(kind)))
    }
}

/// Appends the pages at and below the node to `ids`.
fn walk_page_tree(
    doc: &Document,
    node_id: ObjectId,
    ids: &mut Vec<ObjectId>,
    Ghost(depth): Ghost<nat>,
) -> (r: Result<(), OutlineError>)
    requires
        walk(lopdf_items::document_objects(*doc), node_id, depth) is Some,
    ensures
        match walk(lopdf_items::document_objects(*doc), node_id, depth)->0 {
            Ok(pages) => r is Ok && final(ids)@ == old(ids)@ + pages,
            Err(fault) => r matches Err(e) && e@ == fault,
        },
        old(ids)@.is_prefix_of(final(ids)@),
    decreases depth,
{
    let ghost objects = lopdf_items::document_objects(*doc);
    match read_node(doc, node_id) {
        Node::Page => {
            ids.push(node_id);
            proof {
                assert(ids@ =~= old(ids)@ + seq![node_id]);
            }
            Ok(())
        },
        Node::Faulty(e) => Err(e),
        Node::Pages(kids) => {
            let ghost below = (depth - 1) as nat;
            let mut i: usize = 0;
            proof {
                assert(ids@ =~= old(ids)@ + Seq::<ObjectId>::empty());
                assert(values(kids@).take(0) =~= seq![]);
            }
            while i < kids.len()
                invariant
                    i <= kids@.len(),
                    objects == lopdf_items::document_objects(*doc),
                    depth > 0,
                    below == depth - 1,
                    walk_kids(objects, node_id, values(kids@), below) is Some,
                    walk(objects, node_id, depth) == walk_kids(
                        objects,
                        node_id,
                        values(kids@),
                        below,
                    ),
                    walk_kids(objects, node_id, values(kids@).take(i as int), below) matches Some(
                        Ok(pages),
                    ) && ids@ == old(ids)@ + pages,
                decreases kids@.len() - i,
            {
                let ghost all = values(kids@);
                let ghost before = ids@;
                proof {
                    lemma_walk_kids_prefix(objects, node_id, all, i + 1, below);
                    assert(all.take(i + 1).drop_last() =~= all.take(i as int));
                    assert(all.take(i + 1).last() == all[i as int]);
                    assert(all[i as int] == lopdf_items::object_value(kids@[i as int]));
                }
                match kids[i].as_reference() {
                    Ok(kid) => {
                        match walk_page_tree(doc, kid, ids, Ghost(below)) {
                            Ok(()) => {
                                proof {
                                    let pages = walk_kids(
                                        objects,
                                        node_id,
                                        all.take(i as int),
                                        below,
                                    )->0->Ok_0;
                                    let more = walk(objects, kid, below)->0->Ok_0;
                                    assert(old(ids)@ + pages + more =~= old(ids)@ + (pages + more));
                                }
                            },
                            Err(e) => {
                                return Err(e);
                            },
                        }
                    },
                    Err(_) => {
                        return Err(OutlineError::KidNotReference(node_id));
                    },
                }
                i += 1;
            }
            proof {
                assert(values(kids@).take(i as int) =~= values(kids@));
            }
            Ok(())
        },
    }
}

/// The root of the page tree, which the catalog names.
fn find_page_root(doc: &Document) -> (r: Result<ObjectId, OutlineError>)
    ensures
        match page_root(
            lopdf_items::document_trailer(*doc),
            lopdf_items::document_objects(*doc),
        ) {
            Ok(root) => r matches Ok(id) && id == root,
            Err(fault) => r matches Err(e) && e@ == fault,
        },
{
    let catalog_id = match trailer(doc).get("Root".as_bytes()) {
        Ok(value) => match value.as_reference() {
            Ok(id) => id,
            Err(_) => {
                return Err(OutlineError::MissingRoot);
            },
        },
        Err(_) => {
            return Err(OutlineError::MissingRoot);
        },
    };
    let catalog = match doc.get_object(catalog_id) {
        Ok(object) => object,
        Err(_) => {
            return Err(OutlineError::CatalogUnreadable);
        },
    };
    let entries = match catalog.as_dict() {
        Ok(dictionary) => dictionary,
        Err(_) => {
            return Err(OutlineError::CatalogNotDictionary);
        },
    };
    match entries.get("Pages".as_bytes()) {
        Ok(value) => match value.as_reference() {
            Ok(id) => Ok(id),
            Err(_) => Err(OutlineError::PagesNotReference),
        },
        Err(_) => Err(OutlineError::MissingPages),
    }
}

/// Walks the page tree from the catalog and collects the pages' ids in
/// document order.
///
/// The objects of a document are kept in the order of their ids, so the page
/// tree is the only source of the order of the pages. The tree must be free
/// of cycles; [`is_page_tree_finite`] tells.
pub fn collect_page_ids(doc: &Document) -> (r: Result<Vec<ObjectId>, OutlineError>)
    requires
        has_finite_page_tree(*doc),
    ensures
        match document_pages(*doc) {
            Ok(pages) => r matches Ok(ids) && ids@ == pages,
            Err(fault) => r matches Err(e) && e@ == fault,
        },
{
    let root = match find_page_root(doc) {
        Ok(root) => root,
        Err(e) => {
            return Err(e);
        },
    };
    let ghost objects = lopdf_items::document_objects(*doc);
    let ghost depth = choose|d: nat| walk(objects, root, d) is Some;
    let mut ids: Vec<ObjectId> = Vec::new();
    match walk_page_tree(doc, root, &mut ids, Ghost(depth)) {
        Ok(()) => {
            proof {
                let pages = walk(objects, root, depth)->0->Ok_0;
                assert(Seq::<ObjectId>::empty() + pages =~= pages);
            }
            Ok(ids)
        },
        Err(e) => Err(e),
    }
}

/// Whether a walk of the node `a` goes on to the node `b`: `b` is a kid of
/// `a`, and the kids before it have been walked without a fault.
spec fn leads_to(objects: Map<ObjectId, PdfValue>, a: ObjectId, b: ObjectId) -> bool {
    node_role(objects, a) matches NodeRole::Pages(kids) && exists|i: int, depth: nat|
        reaches_kid(objects, a, b, kids, i, depth)
}

/// Whether `b` is the kid number `i` of `a`, behind kids without a fault.
spec fn reaches_kid(
    objects: Map<ObjectId, PdfValue>,
    a: ObjectId,
    b: ObjectId,
    kids: Seq<PdfValue>,
    i: int,
    depth: nat,
) -> bool {
    &&& 0 <= i < kids.len()
    &&& kids[i] == PdfValue::Reference(b)
    &&& walk_kids(objects, a, kids.take(i), depth) matches Some(Ok(_))
}

/// Whether each node of the row leads to the next one.
spec fn is_chain(objects: Map<ObjectId, PdfValue>, row: Seq<ObjectId>) -> bool {
    forall|i: int| 0 <= i < row.len() - 1 ==> leads_to(objects, #[trigger] row[i], row[i + 1])
}

proof fn lemma_leads_to(
    objects: Map<ObjectId, PdfValue>,
    a: ObjectId,
    b: ObjectId,
    depth: nat,
)
    requires
        leads_to(objects, a, b),
        walk(objects, a, depth) is Some,
    ensures
        depth > 0,
        walk(objects, b, (depth - 1) as nat) is Some,
{
    let kids = node_role(objects, a)->Pages_0;
    let (i, d) = choose|i: int, d: nat| reaches_kid(objects, a, b, kids, i, d);
    let below = (depth - 1) as nat;
    lemma_walk_kids_prefix(objects, a, kids, i, below);
    lemma_walk_kids_prefix(objects, a, kids, i + 1, below);
    if d <= below {
        lemma_walk_kids_stable(objects, a, kids.take(i), d, below);
    } else {
        lemma_walk_kids_stable(objects, a, kids.take(i), below, d);
    }
    assert(kids.take(i + 1).drop_last() =~= kids.take(i));
    assert(kids.take(i + 1).last() == kids[i]);
}

proof fn lemma_chain(objects: Map<ObjectId, PdfValue>, row: Seq<ObjectId>, j: int, depth: nat)
    requires
        is_chain(objects, row),
        0 <= j < row.len(),
        walk(objects, row[j], depth) is Some,
    ensures
        depth >= row.len() - 1 - j,
        walk(objects, row.last(), (depth - (row.len() - 1 - j)) as nat) is Some,
    decreases row.len() - j,
{
    if j < row.len() - 1 {
        lemma_leads_to(objects, row[j], row[j + 1], depth);
        lemma_chain(objects, row, j + 1, (depth - 1) as nat);
    }
}

/// A node that leads back to itself is walked without end.
proof fn lemma_cycle(objects: Map<ObjectId, PdfValue>, row: Seq<ObjectId>, j: int, depth: nat)
    requires
        is_chain(objects, row),
        0 <= j < row.len() - 1,
        row[j] == row.last(),
    ensures
        walk(objects, row[j], depth) is None,
    decreases depth,
{
    if walk(objects, row[j], depth) is Some {
        lemma_chain(objects, row, j, depth);
        lemma_cycle(objects, row, j, (depth - (row.len() - 1 - j)) as nat);
    }
}

/// Distinct ids of objects are no more than there are objects.
proof fn lemma_path_bound(objects: Map<ObjectId, PdfValue>, path: Seq<ObjectId>, count: nat)
    requires
        lopdf_items::has_count(objects, count),
        path.no_duplicates(),
        forall|i: int| 0 <= i < path.len() ==> objects.dom().contains(#[trigger] path[i]),
    ensures
        path.len() <= count,
{
    path.unique_seq_to_set();
    assert(path.to_set().subset_of(objects.dom()));
    vstd::set_lib::lemma_len_subset(path.to_set(), objects.dom());
}

/// How a walk of the page tree comes out.
enum Outcome {
    Pages,
    Fault,
    Endless,
}

/// Whether the outcome tells how the walk from the node `id` comes out.
spec fn tells(outcome: Outcome, objects: Map<ObjectId, PdfValue>, id: ObjectId) -> bool {
    match outcome {
        Outcome::Pages => exists|depth: nat|
            (#[trigger] walk(objects, id, depth)) matches Some(Ok(_)),
        Outcome::Fault => exists|depth: nat|
            (#[trigger] walk(objects, id, depth)) matches Some(Err(_)),
        Outcome::Endless => !is_finite(objects, id),
    }
}

/// Whether the id is on the path.
fn is_on_path(path: &Vec<ObjectId>, id: ObjectId) -> (r: bool)
    ensures
        r == path@.contains(id),
{
    let mut i: usize = 0;
    while i < path.len()
        invariant
            i <= path@.len(),
            forall|j: int| 0 <= j < i ==> path@[j] != id,
        decreases path@.len() - i,
    {
        if path[i].0 == id.0 && path[i].1 == id.1 {
            return true;
        }
        i += 1;
    }
    false
}

/// Walks the tree below the node, with the nodes above it in `path`, to see
/// whether the walk ends.
fn try_walk(
    doc: &Document,
    node_id: ObjectId,
    path: &mut Vec<ObjectId>,
    Ghost(count): Ghost<nat>,
) -> (r: Outcome)
    requires
        lopdf_items::has_count(lopdf_items::document_objects(*doc), count),
        is_chain(lopdf_items::document_objects(*doc), old(path)@.push(node_id)),
        old(path)@.no_duplicates(),
        forall|i: int|
            0 <= i < old(path)@.len() ==> lopdf_items::document_objects(
                *doc,
            ).dom().contains(#[trigger] old(path)@[i]),
    ensures
        final(path)@ == old(path)@,
        tells(r, lopdf_items::document_objects(*doc), node_id),
    decreases count - old(path)@.len(),
{
    let ghost objects = lopdf_items::document_objects(*doc);
    if is_on_path(path, node_id) {
        proof {
            let row = path@.push(node_id);
            let j = choose|j: int| 0 <= j < path@.len() && path@[j] == node_id;
            assert(row[j] == node_id);
            assert forall|depth: nat| walk(objects, node_id, depth) is None by {
                lemma_cycle(objects, row, j, depth);
            }
        }
        return Outcome::Endless;
    }
    match read_node(doc, node_id) {
        Node::Page => {
            proof {
                assert(walk(objects, node_id, 0) matches Some(Ok(_)));
            }
            Outcome::Pages
        },
        Node::Faulty(_) => {
            proof {
                assert(walk(objects, node_id, 0) matches Some(Err(_)));
            }
            Outcome::Fault
        },
        Node::Pages(kids) => {
            let ghost all = values(kids@);
            let ghost above = path@;
            proof {
                pdf_value::lemma_resolve(objects, node_id, 128);
                lemma_path_bound(objects, path@.push(node_id), count);
                assert(all.take(0) =~= seq![]);
                assert(walk_kids(objects, node_id, all.take(0), 0) matches Some(Ok(_)));
            }
            path.push(node_id);
            let mut i: usize = 0;
            let ghost mut depth: nat = 0;
            let mut outcome = Outcome::Pages;
            while i < kids.len() && matches!(outcome, Outcome::Pages)
                invariant
                    i <= kids@.len(),
                    objects == lopdf_items::document_objects(*doc),
                    lopdf_items::has_count(objects, count),
                    all == values(kids@),
                    node_role(objects, node_id) == NodeRole::Pages(all),
                    path@ == above.push(node_id),
                    above.len() < count,
                    above == old(path)@,
                    is_chain(objects, path@),
                    path@.no_duplicates(),
                    forall|j: int|
                        0 <= j < path@.len() ==> objects.dom().contains(#[trigger] path@[j]),
                    match outcome {
                        Outcome::Pages => walk_kids(objects, node_id, all.take(i as int), depth)
                            matches Some(Ok(_)),
                        _ => tells(outcome, objects, node_id),
                    },
                decreases kids@.len() - i,
            {
                let ghost before = all.take(i as int);
                let ghost after = all.take(i + 1);
                proof {
                    assert(after.drop_last() =~= before);
                    assert(after.last() == all[i as int]);
                    assert(all[i as int] == lopdf_items::object_value(kids@[i as int]));
                }
                match kids[i].as_reference() {
                    Err(_) => {
                        proof {
                            lemma_walk_kids_prefix(objects, node_id, all, i + 1, depth);
                            assert(walk(objects, node_id, depth + 1) matches Some(Err(_)));
                        }
                        outcome = Outcome::Fault;
                    },
                    Ok(kid) => {
                        proof {
                            assert(reaches_kid(objects, node_id, kid, all, i as int, depth));
                            assert(leads_to(objects, node_id, kid));
                            let row = path@.push(kid);
                            assert forall|j: int| 0 <= j < row.len() - 1 implies leads_to(
                                objects,
                                #[trigger] row[j],
                                row[j + 1],
                            ) by {
                                if j < path@.len() - 1 {
                                    assert(leads_to(objects, path@[j], path@[j + 1]));
                                }
                            }
                        }
                        match try_walk(doc, kid, path, Ghost(count)) {
                            Outcome::Pages => {
                                proof {
                                    let d = choose|d: nat|
                                        (#[trigger] walk(objects, kid, d)) matches Some(Ok(_));
                                    let top = if d <= depth {
                                        depth
                                    } else {
                                        d
                                    };
                                    walk_is_stable(objects, kid, d, top);
                                    lemma_walk_kids_stable(objects, node_id, before, depth, top);
                                    depth = top;
                                }
                            },
                            Outcome::Fault => {
                                proof {
                                    let d = choose|d: nat|
                                        (#[trigger] walk(objects, kid, d)) matches Some(Err(_));
                                    let top = if d <= depth {
                                        depth
                                    } else {
                                        d
                                    };
                                    walk_is_stable(objects, kid, d, top);
                                    lemma_walk_kids_stable(objects, node_id, before, depth, top);
                                    lemma_walk_kids_prefix(objects, node_id, all, i + 1, top);
                                    assert(walk(objects, node_id, top + 1) matches Some(Err(_)));
                                }
                                outcome = Outcome::Fault;
                            },
                            Outcome::Endless => {
                                proof {
                                    if is_finite(objects, node_id) {
                                        let d = choose|d: nat| walk(objects, node_id, d) is Some;
                                        lemma_leads_to(objects, node_id, kid, d);
                                    }
                                }
                                outcome = Outcome::Endless;
                            },
                        }
                    },
                }
                i += 1;
            }
            proof {
                if outcome is Pages {
                    assert(all.take(i as int) =~= all);
                    assert(walk(objects, node_id, depth + 1) matches Some(Ok(_)));
                }
            }
            path.pop();
            proof {
                assert(path@ =~= above);
            }
            outcome
        },
    }
}

/// Tells whether the page tree of a document is free of cycles, so that a
/// walk over it comes to an end.
pub fn is_page_tree_finite(doc: &Document) -> (r: bool)
    ensures
        r == has_finite_page_tree(*doc),
{
    let root = match find_page_root(doc) {
        Ok(root) => root,
        Err(_) => {
            return true;
        },
    };
    let count: usize = object_count(doc);
    let mut path: Vec<ObjectId> = Vec::new();
    match try_walk(doc, root, &mut path, Ghost(count as nat)) {
        Outcome::Endless => false,
        _ => true,
    }
}

} // verus!
