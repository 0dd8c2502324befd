//! What holds of editing sessions.
use crate::editor;
use crate::editor_laws;
use crate::files;
use crate::mapping;
use crate::model;
use crate::numerals;
use crate::page_map;
use crate::session;
use crate::text;
use crate::editor::EditNode;
use crate::mapping::{OutlineSpec, PageMapping};
use crate::model::{OutlineEntry, OutlineNode};
use crate::session::{AddTarget, IndexerApp, JobResult, Session, Target};
use std::path::PathBuf;
use vstd::prelude::*;

verus! {

/// The mark of a node as a number.
spec fn own_mark(node: EditNode) -> nat {
    if node.included {
        1
    } else {
        0
    }
}

proof fn lemma_counts_push(nodes: Seq<EditNode>, node: EditNode)
    ensures
        editor::size(nodes.push(node)) == editor::size(nodes) + 1 + editor::size(node.children),
        editor::marks(nodes.push(node)) == editor::marks(nodes) + own_mark(node) + editor::marks(
            node.children,
        ),
{
    assert(nodes.push(node).drop_last() =~= nodes);
}

proof fn lemma_counts_update(nodes: Seq<EditNode>, i: int, node: EditNode)
    requires
        0 <= i < nodes.len(),
    ensures
        editor::size(nodes.update(i, node)) + editor::size(nodes[i].children) == editor::size(nodes)
            + editor::size(node.children),
        editor::marks(nodes.update(i, node)) + own_mark(nodes[i]) + editor::marks(
            nodes[i].children,
        ) == editor::marks(nodes) + own_mark(node) + editor::marks(node.children),
    decreases nodes.len(),
{
    let before = nodes.drop_last();
    let after = nodes.update(i, node);
    if i < before.len() {
        lemma_counts_update(before, i, node);
        assert(after.drop_last() =~= before.update(i, node));
    } else {
        assert(after.drop_last() =~= before);
    }
}

proof fn lemma_counts_replaced(nodes: Seq<EditNode>, path: Seq<usize>, node: EditNode)
    requires
        editor::node_at(nodes, path) is Some,
    ensures
        ({
            let old_node = editor::node_at(nodes, path)->0;
            let after = editor::replaced(nodes, path, node);
            &&& editor::size(after) + editor::size(old_node.children) == editor::size(nodes)
                + editor::size(node.children)
            &&& editor::marks(after) + own_mark(old_node) + editor::marks(old_node.children)
                == editor::marks(nodes) + own_mark(node) + editor::marks(node.children)
        }),
    decreases path.len(),
{
    let i = path[0] as int;
    if path.len() == 1 {
        lemma_counts_update(nodes, i, node);
    } else {
        lemma_counts_replaced(nodes[i].children, path.skip(1), node);
        lemma_counts_update(nodes, i, editor::replaced(nodes, path, node)[i]);
    }
}

/// Adding a node without children adds exactly one node to the tree, and one
/// mark if the node is included.
pub proof fn one_node_is_added(tree: Seq<EditNode>, target: Target, node: EditNode)
    requires
        node.children.len() == 0,
    ensures
        editor::size(session::with_new_node(tree, target, node)) == editor::size(tree) + 1,
        editor::marks(session::with_new_node(tree, target, node)) == editor::marks(tree)
            + if node.included {
            1nat
        } else {
            0nat
        },
{
    lemma_counts_push(tree, node);
    if let Target::Node(path) = target {
        if let Some(parent) = editor::node_at(tree, path) {
            lemma_counts_push(parent.children, node);
            lemma_counts_replaced(
                tree,
                path,
                EditNode { children: parent.children.push(node), ..parent },
            );
        }
    }
}

/// Adding an entry raises both counts of the tree by one: that of the included
/// nodes and that of all nodes, also as [`crate::editor::selection_counts`]
/// gives them.
pub proof fn added_entry_raises_both_counts(
    s: Session,
    target: Target,
    title: Seq<char>,
    page: u32,
    roman: bool,
)
    ensures
        ({
            let after = session::entry_added(s, target, title, page, roman);
            &&& editor::marks(after.tree) == editor::marks(s.tree) + 1
            &&& editor::size(after.tree) == editor::size(s.tree) + 1
            &&& numerals::wrap_size(editor::marks(after.tree) as int) == numerals::wrap_size(
                editor::marks(s.tree) as int,
            ).wrapping_add(1)
            &&& numerals::wrap_size(editor::size(after.tree) as int) == numerals::wrap_size(
                editor::size(s.tree) as int,
            ).wrapping_add(1)
        }),
{
    one_node_is_added(
        s.tree,
        target,
        editor::new_node(session::entry_title(title), page, roman),
    );
    numerals::wrap_size_is_exact(1);
    numerals::lemma_wrap_size_sum(editor::marks(s.tree), 1);
    numerals::lemma_wrap_size_sum(editor::size(s.tree), 1);
}

/// A node that is added below another one is its last child.
pub proof fn added_node_is_the_last_child(tree: Seq<EditNode>, path: Seq<usize>, node: EditNode)
    requires
        editor::node_at(tree, path) is Some,
    ensures
        editor::node_at(session::with_new_node(tree, Target::Node(path), node), path)
            matches Some(parent) && parent.children == editor::node_at(
            tree,
            path,
        )->0.children.push(node),
{
    let parent = editor::node_at(tree, path)->0;
    editor_laws::replaced_node_is_found(
        tree,
        path,
        EditNode { children: parent.children.push(node), ..parent },
    );
}

/// An outline that is saved and loaded again shows the entries that were
/// selected, all of them included, with the same anchors.
pub proof fn saved_outline_is_loaded(
    s: Session,
    spec: OutlineSpec,
    entries: Seq<OutlineEntry>,
    m: PageMapping,
    path: PathBuf,
)
    requires
        model::outline(spec.outline@) == editor::selected(s.tree),
        (spec.arabic_start_logical, spec.arabic_start_pdf) == s.arabic,
        (spec.roman_start_logical, spec.roman_start_pdf) == s.roman,
        entries == spec.outline@,
        mapping::arabic_anchor(m) == (spec.arabic_start_logical, spec.arabic_start_pdf),
        mapping::roman_anchor(m) == (spec.roman_start_logical, spec.roman_start_pdf),
    ensures
        ({
            let loaded = session::outline_loaded(s, path, model::outline(entries), m);
            &&& editor::selected(loaded.tree) == editor::selected(s.tree)
            &&& editor::marks(loaded.tree) == editor::size(loaded.tree)
            &&& loaded.arabic == s.arabic
            &&& loaded.roman == s.roman
        }),
{
    editor_laws::loaded_outline_is_kept(model::outline(entries));
}

/// Opening the dialog for a new entry and closing it again leaves the tree as
/// it was.
pub proof fn cancelled_add_changes_no_tree(s: Session, target: Target)
    ensures
        ({
            let closed = Session { pending_add: None, ..session::add_begun(s, target) };
            closed.tree == s.tree && closed.status == s.status && closed.pending_add is None
        }),
{
}

/// A session says what its fields hold.
pub proof fn sessions_say_what_they_hold(app: IndexerApp)
    ensures
        app@.pdf_path == app.pdf_path,
        app@.output_path == app.output_path@,
        app@.tree == editor::edit_tree(app.tree@),
        app@.arabic == (app.mapping.arabic_start_logical, app.mapping.arabic_start_pdf),
        app@.roman == (app.mapping.roman_start_logical, app.mapping.roman_start_pdf),
        app@.known_pages == app.mapping.page_map@,
        app@.json_path == app.json_path,
        app@.page_texts.len() == app.page_texts@.len(),
        forall|i: int|
            0 <= i < app.page_texts@.len() ==> #[trigger] app@.page_texts[i] == app.page_texts@[i]@,
        app@.status == app.status@,
        app@.status_is_error == app.status_is_error,
        app@.busy == app.busy,
        app.pending_add is None <==> app@.pending_add is None,
        app.pending_add == Some(AddTarget::Root) ==> app@.pending_add == Some(Target::Root),
        app.pending_add matches Some(AddTarget::Node(path)) ==> app@.pending_add == Some(
            Target::Node(path@),
        ),
        app@.add_title == app.add_title@,
        app@.add_page == app.add_page,
        app@.add_roman == app.add_roman,
{
}

/// Whether two sessions work on the same files.
pub open spec fn same_files(a: Session, b: Session) -> bool {
    &&& a.pdf_path == b.pdf_path
    &&& a.output_path == b.output_path
    &&& a.json_path == b.json_path
}

/// Whether two sessions have the same outline, anchors, known pages and page
/// texts.
pub open spec fn same_outline(a: Session, b: Session) -> bool {
    &&& a.tree == b.tree
    &&& a.arabic == b.arabic
    &&& a.roman == b.roman
    &&& a.known_pages == b.known_pages
    &&& a.page_texts == b.page_texts
}

/// Whether the dialog for a new entry is the same in two sessions.
pub open spec fn same_dialog(a: Session, b: Session) -> bool {
    &&& a.pending_add == b.pending_add
    &&& a.add_title == b.add_title
    &&& a.add_page == b.add_page
    &&& a.add_roman == b.add_roman
}

/// A message changes nothing but the message, and whether it reports an error.
pub proof fn messages_change_nothing_else(s: Session, message: Seq<char>)
    ensures
        session::told(s, message).status == message,
        !session::told(s, message).status_is_error,
        session::warned(s, message).status == message,
        session::warned(s, message).status_is_error,
        same_files(session::told(s, message), s),
        same_files(session::warned(s, message), s),
        same_outline(session::told(s, message), s),
        same_outline(session::warned(s, message), s),
        same_dialog(session::told(s, message), s),
        same_dialog(session::warned(s, message), s),
        session::told(s, message).busy == s.busy,
        session::warned(s, message).busy == s.busy,
{
}

/// The text of a count is the count in decimal digits.
pub proof fn counts_are_shown_in_decimal(n: nat)
    ensures
        n <= usize::MAX ==> session::count_text(n) == numerals::decimal_digits(n),
{
    if n <= usize::MAX {
        numerals::wrap_size_is_exact(n);
    }
}

/// A finished job leaves the session idle, on the same files and with the same
/// dialog. Only an extraction that succeeded changes the outline: it brings
/// its own entries, all of them included, its anchors and its page texts.
/// Failures are told as errors.
pub proof fn finished_jobs_leave_the_session_idle(s: Session, result: JobResult)
    ensures
        ({
            let after = session::job_done(s, result);
            &&& !after.busy
            &&& same_files(after, s)
            &&& same_dialog(after, s)
            &&& match result {
                JobResult::Extracted(Ok(found)) => {
                    &&& !after.status_is_error
                    &&& after.status == "Extracted "@ + session::count_text(
                        model::node_count(model::outline(found.entries@)),
                    ) + " entries — tick the chapters to include."@
                    &&& editor::selected(after.tree) == model::outline(found.entries@)
                    &&& editor::marks(after.tree) == editor::size(after.tree)
                    &&& after.arabic == (
                        found.mapping.arabic_start_logical,
                        found.mapping.arabic_start_pdf,
                    )
                    &&& after.roman == (
                        found.mapping.roman_start_logical,
                        found.mapping.roman_start_pdf,
                    )
                    &&& after.known_pages == found.mapping.page_map@
                    &&& after.page_texts == text::string_texts(found.page_texts@)
                },
                JobResult::Extracted(Err(e)) => {
                    &&& after.status_is_error
                    &&& after.status == "Auto-extraction failed: "@ + e@
                    &&& same_outline(after, s)
                },
                JobResult::Indexed(Ok(())) => {
                    &&& !after.status_is_error
                    &&& after.status == "Done — wrote "@ + s.output_path
                    &&& same_outline(after, s)
                },
                JobResult::Indexed(Err(e)) => {
                    &&& after.status_is_error
                    &&& after.status == "Indexing failed: "@ + e@
                    &&& same_outline(after, s)
                },
            }
        }),
{
    if let JobResult::Extracted(Ok(found)) = result {
        editor_laws::loaded_outline_is_kept(model::outline(found.entries@));
    }
}

/// While it is being indexed, a session is busy and keeps its files, its tree,
/// its anchors and its page texts. The known pages are those of the page
/// texts, counted from the Arabic anchor as it is now; without page texts there
/// are none.
pub proof fn indexing_goes_by_the_anchors_as_they_are(s: Session)
    ensures
        ({
            let after = session::indexing(s);
            &&& after.busy
            &&& !after.status_is_error
            &&& after.status == "Indexing "@ + session::count_text(
                model::node_count(editor::selected(s.tree)),
            ) + " entries → "@ + text::trim(s.output_path) + "…"@
            &&& same_files(after, s)
            &&& same_dialog(after, s)
            &&& after.tree == s.tree
            &&& after.arabic == s.arabic
            &&& after.roman == s.roman
            &&& after.page_texts == s.page_texts
            &&& s.page_texts.len() == 0 ==> after.known_pages.len() == 0
            &&& s.page_texts.len() > 0 ==> after.known_pages == page_map::sanitized(
                page_map::page_index(s.page_texts, s.arabic.1),
            )
        }),
{
}

proof fn lemma_selection_len(nodes: Seq<EditNode>)
    ensures
        editor::selected(nodes).len() > 0 <==> exists|i: int|
            0 <= i < nodes.len() && #[trigger] nodes[i].included,
    decreases nodes.len(),
{
    if nodes.len() > 0 {
        let before = nodes.drop_last();
        lemma_selection_len(before);
        if nodes.last().included {
            assert(nodes[nodes.len() - 1].included);
        } else if exists|i: int| 0 <= i < nodes.len() && #[trigger] nodes[i].included {
            let i = choose|i: int| 0 <= i < nodes.len() && #[trigger] nodes[i].included;
            assert(before[i].included);
        }
        if exists|i: int| 0 <= i < before.len() && #[trigger] before[i].included {
            let i = choose|i: int| 0 <= i < before.len() && #[trigger] before[i].included;
            assert(nodes[i].included);
        }
    }
}

/// A session is refused for indexing when its output path is blank, and
/// otherwise when no top-level node is included; it is refused for nothing
/// else.
pub proof fn indexing_needs_an_output_path_and_a_selection(s: Session)
    ensures
        ({
            let blank = text::trim(s.output_path).len() == 0;
            let selected = exists|i: int|
                0 <= i < s.tree.len() && #[trigger] s.tree[i].included;
            &&& blank ==> session::index_refusal(s) == Some("Output path is empty."@)
            &&& !blank && !selected ==> session::index_refusal(s) == Some(
                "No entries selected — tick at least one chapter."@,
            )
            &&& !blank && selected ==> session::index_refusal(s) is None
        }),
{
    lemma_selection_len(s.tree);
}

/// Opening a PDF drops the outline, the anchors, the page texts and the JSON
/// file of the session, and sets the output path to the indexed copy next to
/// the PDF. The message, the dialog and the work under way stay.
pub proof fn an_opened_pdf_starts_afresh(s: Session, path: PathBuf)
    ensures
        ({
            let after = session::pdf_opened(s, path);
            let file = files::path_in(&path);
            let stem = match files::stem_of(file) {
                Some(stem) => stem,
                None => Seq::<char>::empty(),
            };
            let name = match files::extension_of(file) {
                Some(extension) => stem + "_indexed"@ + "."@ + extension,
                None => stem + "_indexed"@,
            };
            &&& after.pdf_path == Some(path)
            &&& after.output_path == files::path_text_of(files::beside(file, name))
            &&& after.tree.len() == 0
            &&& after.json_path is None
            &&& after.page_texts.len() == 0
            &&& after.arabic == (1u32, 1u32)
            &&& after.roman == (1u32, 1u32)
            &&& after.known_pages.len() == 0
            &&& after.status == s.status
            &&& after.status_is_error == s.status_is_error
            &&& after.busy == s.busy
            &&& same_dialog(after, s)
        }),
{
    let file = files::path_in(&path);
    let stem = files::stem_or_empty(files::stem_of(file));
    let none: Seq<char> = seq![];
    assert(stem + "_indexed"@ + none =~= stem + "_indexed"@);
    if let Some(extension) = files::extension_of(file) {
        assert(stem + "_indexed"@ + ("."@ + extension) =~= stem + "_indexed"@ + "."@ + extension);
    }
}

/// A loaded outline brings its entries, all of them included, and its anchors.
/// The file is remembered, and the texts of the pages are dropped. The PDF,
/// the output path, the message, the dialog and the work under way stay.
pub proof fn a_loaded_outline_takes_over(
    s: Session,
    path: PathBuf,
    entries: Seq<OutlineNode>,
    m: PageMapping,
)
    ensures
        ({
            let after = session::outline_loaded(s, path, entries, m);
            &&& editor::selected(after.tree) == entries
            &&& editor::marks(after.tree) == editor::size(after.tree)
            &&& after.arabic == (m.arabic_start_logical, m.arabic_start_pdf)
            &&& after.roman == (m.roman_start_logical, m.roman_start_pdf)
            &&& after.known_pages == m.page_map@
            &&& after.json_path == Some(path)
            &&& after.page_texts.len() == 0
            &&& after.pdf_path == s.pdf_path
            &&& after.output_path == s.output_path
            &&& after.status == s.status
            &&& after.status_is_error == s.status_is_error
            &&& after.busy == s.busy
            &&& same_dialog(after, s)
        }),
{
    editor_laws::loaded_outline_is_kept(entries);
}

/// Loading is told with the number of entries and the file.
pub proof fn loading_is_told_with_the_number_of_entries(
    entries: Seq<OutlineNode>,
    shown: Seq<char>,
)
    ensures
        model::node_count(entries) <= usize::MAX ==> session::loaded_text(entries, shown)
            == "Loaded "@ + numerals::decimal_digits(model::node_count(entries)) + " entries from "@
            + shown,
{
    counts_are_shown_in_decimal(model::node_count(entries));
}

/// A dialog for a new entry opens empty, on page 1 and without the Roman mark,
/// and changes nothing else.
pub proof fn the_dialog_opens_empty(s: Session, target: Target)
    ensures
        ({
            let after = session::add_begun(s, target);
            &&& after.pending_add == Some(target)
            &&& after.add_title.len() == 0
            &&& after.add_page == 1
            &&& !after.add_roman
            &&& same_files(after, s)
            &&& same_outline(after, s)
            &&& after.status == s.status
            &&& after.status_is_error == s.status_is_error
            &&& after.busy == s.busy
        }),
{
}

/// Whether a tree has a new node at a target, in place of nothing else: behind
/// the top row, or behind the children of the node at the path.
pub open spec fn is_put(
    before: Seq<EditNode>,
    after: Seq<EditNode>,
    target: Target,
    node: EditNode,
) -> bool {
    match target {
        Target::Root => after == before.push(node),
        Target::Node(path) => match editor::node_at(before, path) {
            None => after == before.push(node),
            Some(parent) => {
                &&& after.len() == before.len()
                &&& editor::node_at(after, path) == Some(
                    EditNode {
                        included: parent.included,
                        title: parent.title,
                        page: parent.page,
                        roman: parent.roman,
                        children: parent.children.push(node),
                    },
                )
                &&& forall|other: Seq<usize>|
                    !editor_laws::passes(path, other) && !editor_laws::passes(other, path)
                        ==> #[trigger] editor::node_at(after, other) == editor::node_at(
                        before,
                        other,
                    )
            },
        },
    }
}

proof fn lemma_is_put(tree: Seq<EditNode>, target: Target, node: EditNode)
    ensures
        is_put(tree, session::with_new_node(tree, target, node), target, node),
{
    if let Target::Node(path) = target {
        if let Some(parent) = editor::node_at(tree, path) {
            let new_parent = EditNode { children: parent.children.push(node), ..parent };
            editor_laws::replaced_node_is_found(tree, path, new_parent);
            assert forall|other: Seq<usize>|
                !editor_laws::passes(path, other) && !editor_laws::passes(
                    other,
                    path,
                ) implies #[trigger] editor::node_at(
                session::with_new_node(tree, target, node),
                other,
            ) == editor::node_at(tree, other) by {
                editor_laws::other_nodes_are_kept(tree, path, new_parent, other);
            }
        }
    }
}

/// An added entry is included and has no children. It has the trimmed title,
/// or "New entry" where that is empty, and the page and the Roman mark that
/// were given. It stands at its target: behind the children of the node there,
/// or behind the top row where there is none. The title and the page of the
/// dialog are reset; the files, the anchors, the page texts and the rest of the
/// dialog stay.
pub proof fn an_added_entry_stands_at_its_target(
    s: Session,
    target: Target,
    title: Seq<char>,
    page: u32,
    roman: bool,
)
    ensures
        ({
            let after = session::entry_added(s, target, title, page, roman);
            let name = if text::trim(title).len() == 0 {
                "New entry"@
            } else {
                text::trim(title)
            };
            let node = EditNode { included: true, title: name, page, roman, children: seq![] };
            &&& is_put(s.tree, after.tree, target, node)
            &&& after.add_title.len() == 0
            &&& after.add_page == 1
            &&& after.add_roman == s.add_roman
            &&& after.pending_add == s.pending_add
            &&& same_files(after, s)
            &&& after.arabic == s.arabic
            &&& after.roman == s.roman
            &&& after.known_pages == s.known_pages
            &&& after.page_texts == s.page_texts
            &&& after.busy == s.busy
            &&& !after.status_is_error
        }),
{
    lemma_is_put(s.tree, target, editor::new_node(session::entry_title(title), page, roman));
}

/// Confirming the dialog adds the entry that it describes at the target that
/// it was opened for, closes it and resets it. Without an open dialog nothing
/// happens.
pub proof fn a_confirmed_dialog_adds_its_entry(s: Session)
    ensures
        ({
            let after = session::add_confirmed(s);
            match s.pending_add {
                None => after == s,
                Some(target) => {
                    let name = if text::trim(s.add_title).len() == 0 {
                        "New entry"@
                    } else {
                        text::trim(s.add_title)
                    };
                    let node = EditNode {
                        included: true,
                        title: name,
                        page: s.add_page,
                        roman: s.add_roman,
                        children: seq![],
                    };
                    &&& is_put(s.tree, after.tree, target, node)
                    &&& after.pending_add is None
                    &&& after.add_title.len() == 0
                    &&& after.add_page == 1
                    &&& !after.add_roman
                    &&& same_files(after, s)
                    &&& after.arabic == s.arabic
                    &&& after.roman == s.roman
                    &&& after.known_pages == s.known_pages
                    &&& after.page_texts == s.page_texts
                    &&& after.busy == s.busy
                    &&& !after.status_is_error
                },
            }
        }),
{
    if let Some(target) = s.pending_add {
        an_added_entry_stands_at_its_target(s, target, s.add_title, s.add_page, s.add_roman);
    }
}

/// The JSON file of a session is named after its PDF, and "outline.json"
/// without one.
pub proof fn json_files_are_named_after_the_pdf(s: Session)
    ensures
        match s.pdf_path {
            None => session::json_name(s) == "outline.json"@,
            Some(path) => match files::stem_of(files::path_in(&path)) {
                Some(stem) => session::json_name(s) == stem + "-outline.json"@,
                None => session::json_name(s) == "-outline.json"@,
            },
        },
{
    let none: Seq<char> = seq![];
    assert(none + "-outline.json"@ =~= "-outline.json"@);
}

} // verus!
