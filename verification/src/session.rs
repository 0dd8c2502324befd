//! The state of an editing session: which files are open, the outline tree,
//! the page anchors, and what each action does to them.
use crate::editor;
use crate::editor_laws;
use crate::files;
use crate::mapping;
use crate::model;
use crate::numerals;
use crate::page_map;
use crate::text;
use crate::editor::{gui_to_entries, node_at_mut, selection_counts, EditNode, GuiNode};
use crate::extract::TocExtraction;
use crate::files::{default_output, file_stem, outline_file_name, path_text};
use crate::mapping::{OutlineSpec, PageMapping};
use crate::model::{count_all, OutlineEntry, OutlineNode};
use crate::numerals::decimal;
use crate::text::{to_chars, to_text, trim_text};
use std::path::PathBuf;
use vstd::prelude::*;

verus! {

/// Target for a new entry: a top-level line, or a child of the node at a path
/// (a sequence of child indices) into the tree.
#[derive(Clone, Debug)]
pub enum AddTarget {
    Root,
    Node(Vec<usize>),
}

/// What a background job brought about.
pub enum JobResult {
    Extracted(Result<TocExtraction, String>),
    Indexed(Result<(), String>),
}

/// What is to be indexed, and where the result goes.
pub struct IndexJob {
    pub entries: Vec<OutlineEntry>,
    pub mapping: PageMapping,
    pub output: String,
}

/// An editing session.
pub struct IndexerApp {
    pub pdf_path: Option<PathBuf>,
    pub output_path: String,
    pub tree: Vec<GuiNode>,
    pub mapping: PageMapping,
    /// The JSON file that the current outline came from, if any, so that it
    /// can be rewritten in place.
    pub json_path: Option<PathBuf>,
    /// The raw text of every page, kept so that the page map can be rebuilt
    /// when the page-number anchors are edited.
    pub page_texts: Vec<String>,
    pub status: String,
    pub status_is_error: bool,
    pub busy: bool,
    /// Where the dialog for a new entry inserts the node.
    pub pending_add: Option<AddTarget>,
    pub add_title: String,
    pub add_page: u32,
    pub add_roman: bool,
}

/// What a session holds, with its texts and its tree as values.
pub struct Session {
    pub pdf_path: Option<PathBuf>,
    pub output_path: Seq<char>,
    pub tree: Seq<EditNode>,
    pub arabic: (u32, u32),
    pub roman: (u32, u32),
    pub known_pages: Seq<(u32, u32)>,
    pub json_path: Option<PathBuf>,
    pub page_texts: Seq<Seq<char>>,
    pub status: Seq<char>,
    pub status_is_error: bool,
    pub busy: bool,
    pub pending_add: Option<Target>,
    pub add_title: Seq<char>,
    pub add_page: u32,
    pub add_roman: bool,
}

/// What an [`AddTarget`] says.
pub enum Target {
    Root,
    Node(Seq<usize>),
}

impl AddTarget {
    pub open spec fn view(&self) -> Target {
        match self {
            AddTarget::Root => Target::Root,
            AddTarget::Node(path) => Target::Node(path@),
        }
    }
}

impl IndexerApp {
    /// What the session holds.
    pub open spec fn view(&self) -> Session {
        Session {
            pdf_path: self.pdf_path,
            output_path: self.output_path@,
            tree: editor::edit_tree(self.tree@),
            arabic: mapping::arabic_anchor(self.mapping),
            roman: mapping::roman_anchor(self.mapping),
            known_pages: self.mapping.page_map@,
            json_path: self.json_path,
            page_texts: text::string_texts(self.page_texts@),
            status: self.status@,
            status_is_error: self.status_is_error,
            busy: self.busy,
            pending_add: match self.pending_add {
                Some(target) => Some(target@),
                None => None,
            },
            add_title: self.add_title@,
            add_page: self.add_page,
            add_roman: self.add_roman,
        }
    }
}

/// The session with a message that reports no error.
pub open spec fn told(s: Session, message: Seq<char>) -> Session {
    Session { status: message, status_is_error: false, ..s }
}

/// The session with a message that reports an error.
pub open spec fn warned(s: Session, message: Seq<char>) -> Session {
    Session { status: message, status_is_error: true, ..s }
}

/// The text of a number of nodes.
pub open spec fn count_text(n: nat) -> Seq<char> {
    numerals::decimal_digits(numerals::wrap_size(n as int) as nat)
}

/// The title that a new entry gets: the trimmed text, or a placeholder where
/// nothing is left.
pub open spec fn entry_title(title: Seq<char>) -> Seq<char> {
    if text::trim(title).len() == 0 {
        "New entry"@
    } else {
        text::trim(title)
    }
}

/// The tree with a node added at a target. A path that leads nowhere counts
/// as the root.
pub open spec fn with_new_node(
    tree: Seq<EditNode>,
    target: Target,
    node: EditNode,
) -> Seq<EditNode> {
    match target {
        Target::Root => tree.push(node),
        Target::Node(path) => match editor::node_at(tree, path) {
            Some(parent) => editor::replaced(
                tree,
                path,
                EditNode { children: parent.children.push(node), ..parent },
            ),
            None => tree.push(node),
        },
    }
}

/// The outcome of adding an entry.
pub open spec fn entry_added(
    s: Session,
    target: Target,
    title: Seq<char>,
    page: u32,
    roman: bool,
) -> Session {
    told(
        Session {
            tree: with_new_node(
                s.tree,
                target,
                editor::new_node(entry_title(title), page, roman),
            ),
            add_title: seq![],
            add_page: 1,
            ..s
        },
        "Entry added — edit its title/page in the tree, then click “Save JSON” to rewrite the outline file."@,
    )
}

/// The page map for the page texts at hand, as it is rebuilt: no known pages
/// where there are no texts.
pub open spec fn rebuilt_pages(page_texts: Seq<Seq<char>>, arabic: (u32, u32)) -> Seq<(u32, u32)> {
    if page_texts.len() == 0 {
        seq![]
    } else {
        page_map::sanitized(page_map::page_index(page_texts, arabic.1))
    }
}

/// The outcome of opening a dialog for a new entry.
pub open spec fn add_begun(s: Session, target: Target) -> Session {
    Session { pending_add: Some(target), add_title: seq![], add_page: 1, add_roman: false, ..s }
}

/// The outcome of confirming the dialog for a new entry.
pub open spec fn add_confirmed(s: Session) -> Session {
    match s.pending_add {
        Some(target) => Session {
            pending_add: None,
            add_roman: false,
            ..entry_added(s, target, s.add_title, s.add_page, s.add_roman)
        },
        None => s,
    }
}

/// The outcome of opening a PDF.
pub open spec fn pdf_opened(s: Session, path: PathBuf) -> Session {
    Session {
        pdf_path: Some(path),
        output_path: default_output_text(path),
        tree: seq![],
        json_path: None,
        page_texts: seq![],
        arabic: (1, 1),
        roman: (1, 1),
        known_pages: seq![],
        ..s
    }
}

/// The session with the outline of a JSON file, before any message.
pub open spec fn outline_loaded(
    s: Session,
    path: PathBuf,
    entries: Seq<OutlineNode>,
    m: PageMapping,
) -> Session {
    Session {
        tree: editor::all_included(entries),
        arabic: mapping::arabic_anchor(m),
        roman: mapping::roman_anchor(m),
        known_pages: m.page_map@,
        json_path: Some(path),
        page_texts: seq![],
        ..s
    }
}

/// The text that says how many entries came from a file.
pub open spec fn loaded_text(entries: Seq<OutlineNode>, shown: Seq<char>) -> Seq<char> {
    "Loaded "@ + count_text(model::node_count(entries)) + " entries from "@ + shown
}

/// The outcome of a background job.
pub open spec fn job_done(s: Session, result: JobResult) -> Session {
    let idle = Session { busy: false, ..s };
    match result {
        JobResult::Extracted(Ok(found)) => told(
            Session {
                tree: editor::all_included(model::outline(found.entries@)),
                arabic: mapping::arabic_anchor(found.mapping),
                roman: mapping::roman_anchor(found.mapping),
                known_pages: found.mapping.page_map@,
                page_texts: text::string_texts(found.page_texts@),
                ..idle
            },
            "Extracted "@ + count_text(model::node_count(model::outline(found.entries@)))
                + " entries — tick the chapters to include."@,
        ),
        JobResult::Extracted(Err(e)) => warned(idle, "Auto-extraction failed: "@ + e@),
        JobResult::Indexed(Ok(())) => told(idle, "Done — wrote "@ + s.output_path),
        JobResult::Indexed(Err(e)) => warned(idle, "Indexing failed: "@ + e@),
    }
}

/// Why a session cannot be indexed, if it cannot.
pub open spec fn index_refusal(s: Session) -> Option<Seq<char>> {
    if text::trim(s.output_path).len() == 0 {
        Some("Output path is empty."@)
    } else if editor::selected(s.tree).len() == 0 {
        Some("No entries selected — tick at least one chapter."@)
    } else {
        None
    }
}

/// The session while its selected entries are being indexed.
pub open spec fn indexing(s: Session) -> Session {
    told(
        Session { busy: true, known_pages: rebuilt_pages(s.page_texts, s.arabic), ..s },
        "Indexing "@ + count_text(model::node_count(editor::selected(s.tree))) + " entries → "@
            + text::trim(s.output_path) + "…"@,
    )
}

/// The default name of the JSON file for a session.
pub open spec fn json_name(s: Session) -> Seq<char> {
    match s.pdf_path {
        Some(path) => files::written_name(
            files::stem_or_empty(files::stem_of(files::path_in(&path))),
        ),
        None => "outline.json"@,
    }
}

impl IndexerApp {
    /// A session for the given files, with no outline in it yet.
    ///
    /// The output path defaults to the one next to the PDF.
    pub fn new(pdf: Option<PathBuf>, output: Option<PathBuf>) -> (r: Self)
        ensures
            r@ == (Session {
                pdf_path: pdf,
                output_path: match output {
                    Some(path) => files::path_text_of(files::path_in(&path)),
                    None => match pdf {
                        Some(path) => default_output_text(path),
                        None => "indexed.pdf"@,
                    },
                },
                tree: seq![],
                arabic: (1, 1),
                roman: (1, 1),
                known_pages: seq![],
                json_path: None,
                page_texts: seq![],
                status: "Open a PDF and run “Auto-extract TOC”, or load an existing JSON outline."@,
                status_is_error: false,
                busy: false,
                pending_add: None,
                add_title: seq![],
                add_page: 1,
                add_roman: false,
            }),
    {
        let output_path = match &output {
            Some(path) => path_text(path.as_path()),
            None => match &pdf {
                Some(path) => {
                    let beside = default_output(path.as_path());
                    path_text(beside.as_path())
                },
                None => "indexed.pdf".to_owned(),
            },
        };
        let app = IndexerApp {
            pdf_path: pdf,
            output_path,
            tree: Vec::new(),
            mapping: PageMapping::default(),
            json_path: None,
            page_texts: Vec::new(),
            status: "Open a PDF and run “Auto-extract TOC”, or load an existing JSON outline.".to_owned(),
            status_is_error: false,
            busy: false,
            pending_add: None,
            add_title: String::new(),
            add_page: 1,
            add_roman: false,
        };
        proof {
            assert(app@.tree =~= seq![]);
            assert(app@.page_texts =~= seq![]);
            assert(app@.known_pages =~= seq![]);
        }
        app
    }

    /// Shows a message that reports no error.
    pub fn status_ok(&mut self, message: String)
        ensures
            final(self)@ == told(old(self)@, message@),
    {
        self.status = message;
        self.status_is_error = false;
    }

    /// Shows a message that reports an error.
    pub fn status_err(&mut self, message: String)
        ensures
            final(self)@ == warned(old(self)@, message@),
    {
        self.status = message;
        self.status_is_error = true;
    }

    /// Opens the dialog for a new entry at the given target.
    pub fn begin_add(&mut self, target: AddTarget)
        ensures
            final(self)@ == add_begun(old(self)@, target@),
    {
        self.add_title = String::new();
        self.add_page = 1;
        self.add_roman = false;
        self.pending_add = Some(target);
    }

    /// Inserts a new entry at the given target.
    pub fn add_entry(&mut self, target: AddTarget, title: String, page: u32, roman: bool)
        ensures
            final(self)@ == entry_added(old(self)@, target@, title@, page, roman),
    {
        let chars = to_chars(title.as_str());
        let trimmed = trim_text(chars.as_slice());
        let title = if trimmed.len() == 0 {
            "New entry".to_owned()
        } else {
            to_text(trimmed)
        };
        let node = GuiNode::new(title, page, roman);
        match target {
            AddTarget::Root => {
                push_node(&mut self.tree, node);
            },
            AddTarget::Node(path) => {
                add_below(&mut self.tree, path.as_slice(), node);
            },
        }
        self.add_title = String::new();
        self.add_page = 1;
        self.status_ok(
            "Entry added — edit its title/page in the tree, then click “Save JSON” to rewrite the outline file.".to_owned(),
        );
    }

    /// Confirms the dialog for a new entry: the entry is inserted, and the
    /// dialog is closed.
    pub fn confirm_add(&mut self)
        ensures
            final(self)@ == add_confirmed(old(self)@),
    {
        if let Some(target) = self.pending_add.take() {
            let title = self.add_title.clone();
            let page: u32 = self.add_page;
            let roman = self.add_roman;
            self.add_entry(target, title, page, roman);
            self.add_roman = false;
        }
    }

    /// Closes the dialog for a new entry.
    pub fn cancel_add(&mut self)
        ensures
            final(self)@ == (Session { pending_add: None, ..old(self)@ }),
    {
        self.pending_add = None;
    }

    /// Whether there is an outline to work on.
    pub fn has_tree(&self) -> (r: bool)
        ensures
            r == (self@.tree.len() > 0),
    {
        proof {
            editor::lemma_edit_tree_index(self.tree@);
        }
        self.tree.len() > 0
    }

    /// Whether the table of contents can be extracted.
    pub fn can_extract(&self) -> (r: bool)
        ensures
            r == (self@.pdf_path is Some && !self@.busy),
    {
        self.pdf_path.is_some() && !self.busy
    }

    /// Whether the outline can be written to a JSON file.
    pub fn can_export(&self) -> (r: bool)
        ensures
            r == (self@.tree.len() > 0 && !self@.busy),
    {
        self.has_tree() && !self.busy
    }

    /// Whether the PDF can be indexed.
    pub fn can_index(&self) -> (r: bool)
        ensures
            r == (self@.pdf_path is Some && self@.tree.len() > 0 && !self@.busy),
    {
        self.pdf_path.is_some() && self.has_tree() && !self.busy
    }

    /// Opens a PDF: the outline and the anchors of the session are dropped.
    pub fn open_pdf(&mut self, path: PathBuf)
        ensures
            final(self)@ == pdf_opened(old(self)@, path),
    {
        let beside = default_output(path.as_path());
        self.output_path = path_text(beside.as_path());
        self.pdf_path = Some(path);
        self.tree = Vec::new();
        self.json_path = None;
        self.page_texts = Vec::new();
        self.mapping = PageMapping::default();
        proof {
            assert(self@.tree =~= seq![]);
            assert(self@.page_texts =~= seq![]);
            assert(self@.known_pages =~= seq![]);
        }
    }

    /// Takes over the outline of a JSON file.
    fn take_outline(&mut self, path: PathBuf, entries: &[OutlineEntry], mapping: PageMapping)
        ensures
            final(self)@ == outline_loaded(
                old(self)@,
                path,
                model::outline(entries@),
                mapping,
            ),
    {
        self.tree = GuiNode::from_entries(entries);
        self.mapping = mapping;
        self.json_path = Some(path);
        self.page_texts = Vec::new();
        proof {
            assert(self@.page_texts =~= seq![]);
        }
    }

    /// The text of the number of nodes in the tree.
    fn total_text(&self) -> (r: String)
        ensures
            r@ == count_text(editor::size(self@.tree)),
    {
        let (_, total) = selection_counts(self.tree.as_slice());
        decimal(total)
    }

    /// The outline of a JSON file that the user chose was loaded.
    pub fn json_loaded(
        &mut self,
        path: PathBuf,
        shown: &str,
        entries: &[OutlineEntry],
        mapping: PageMapping,
    )
        ensures
            final(self)@ == told(
                outline_loaded(old(self)@, path, model::outline(entries@), mapping),
                loaded_text(model::outline(entries@), shown@),
            ),
    {
        self.take_outline(path, entries, mapping);
        proof {
            editor_laws::loaded_outline_is_kept(model::outline(entries@));
        }
        let total = self.total_text();
        self.status_ok(
            "Loaded ".to_owned().concat(total.as_str()).concat(" entries from ").concat(shown),
        );
    }

    /// The JSON file that the user chose could not be loaded.
    pub fn json_refused(&mut self, error: &str)
        ensures
            final(self)@ == warned(old(self)@, "Cannot load JSON: "@ + error@),
    {
        self.status_err("Cannot load JSON: ".to_owned().concat(error));
    }

    /// The outline of a JSON file next to the PDF was loaded.
    pub fn json_found(
        &mut self,
        path: PathBuf,
        shown: &str,
        entries: &[OutlineEntry],
        mapping: PageMapping,
    )
        ensures
            final(self)@ == told(
                outline_loaded(old(self)@, path, model::outline(entries@), mapping),
                loaded_text(model::outline(entries@), shown@) + " (found next to the PDF)"@,
            ),
    {
        self.json_loaded(path, shown, entries, mapping);
        let message = self.status.clone().concat(" (found next to the PDF)");
        self.status_ok(message);
    }

    /// A JSON file next to the PDF could not be loaded.
    pub fn found_json_refused(&mut self, error: &str)
        ensures
            final(self)@ == warned(
                old(self)@,
                "Found JSON next to the PDF but could not load it: "@ + error@,
            ),
    {
        self.status_err(
            "Found JSON next to the PDF but could not load it: ".to_owned().concat(error),
        );
    }

    /// There is no JSON file next to the PDF.
    pub fn no_json_found(&mut self)
        ensures
            final(self)@ == told(
                old(self)@,
                "PDF selected — no outline JSON found next to it; click “Auto-extract TOC” or “Load JSON…”."@,
            ),
    {
        self.status_ok(
            "PDF selected — no outline JSON found next to it; click “Auto-extract TOC” or “Load JSON…”.".to_owned(),
        );
    }

    /// Starts the extraction of the table of contents, and says whether there
    /// is a PDF to extract it from.
    pub fn start_extract(&mut self) -> (r: bool)
        ensures
            r == (old(self)@.pdf_path is Some),
            final(self)@ == if r {
                told(Session { busy: true, ..old(self)@ }, "Extracting TOC…"@)
            } else {
                old(self)@
            },
    {
        if self.pdf_path.is_none() {
            return false;
        }
        self.busy = true;
        self.status_ok("Extracting TOC…".to_owned());
        true
    }

    /// Starts the indexing of the PDF, and says what is to be indexed. Gives
    /// nothing where there is no PDF, no output path, or no selected entry.
    pub fn start_index(&mut self) -> (r: Option<IndexJob>)
        ensures
            match r {
                Some(job) => {
                    &&& old(self)@.pdf_path is Some
                    &&& index_refusal(old(self)@) is None
                    &&& final(self)@ == indexing(old(self)@)
                    &&& model::outline(job.entries@) == editor::selected(old(self)@.tree)
                    &&& mapping::same_mapping(job.mapping, final(self).mapping)
                    &&& job.output@ == text::trim(old(self)@.output_path)
                },
                None => match index_refusal(old(self)@) {
                    Some(message) => final(self)@ == if old(self)@.pdf_path is Some {
                        warned(old(self)@, message)
                    } else {
                        old(self)@
                    },
                    None => old(self)@.pdf_path is None && final(self)@ == old(self)@,
                },
            },
    {
        if self.pdf_path.is_none() {
            return None;
        }
        let chars = to_chars(self.output_path.as_str());
        let output = to_text(trim_text(chars.as_slice()));
        if trim_text(chars.as_slice()).len() == 0 {
            self.status_err("Output path is empty.".to_owned());
            return None;
        }
        let entries = gui_to_entries(self.tree.as_slice());
        proof {
            model::lemma_outline_index(entries@);
        }
        if entries.len() == 0 {
            self.nothing_selected();
            return None;
        }
        self.mapping.rebuild_page_map(self.page_texts.as_slice());
        let mapping = self.mapping.clone();
        let total = decimal(count_all(entries.as_slice()));
        self.busy = true;
        self.status_ok(
            "Indexing ".to_owned().concat(total.as_str()).concat(" entries → ").concat(
                output.as_str(),
            ).concat("…"),
        );
        Some(IndexJob { entries, mapping, output })
    }

    /// The page-number anchors were edited: the page map is built anew.
    pub fn anchors_edited(&mut self)
        ensures
            final(self)@ == (Session {
                known_pages: rebuilt_pages(old(self)@.page_texts, old(self)@.arabic),
                ..old(self)@
            }),
    {
        self.mapping.rebuild_page_map(self.page_texts.as_slice());
    }

    /// The outline specification of the selected entries, if there are any.
    pub fn build_spec(&self) -> (r: Option<OutlineSpec>)
        ensures
            match r {
                Some(spec) => {
                    &&& model::outline(spec.outline@) == editor::selected(self@.tree)
                    &&& spec.outline@.len() > 0
                    &&& (spec.arabic_start_logical, spec.arabic_start_pdf) == self@.arabic
                    &&& (spec.roman_start_logical, spec.roman_start_pdf) == self@.roman
                },
                None => editor::selected(self@.tree).len() == 0,
            },
    {
        let entries = gui_to_entries(self.tree.as_slice());
        proof {
            model::lemma_outline_index(entries@);
        }
        if entries.len() == 0 {
            return None;
        }
        Some(
            OutlineSpec {
                arabic_start_logical: self.mapping.arabic_start_logical,
                arabic_start_pdf: self.mapping.arabic_start_pdf,
                roman_start_logical: self.mapping.roman_start_logical,
                roman_start_pdf: self.mapping.roman_start_pdf,
                outline: entries,
            },
        )
    }

    /// There is nothing to write or to index, because no entry is selected.
    pub fn nothing_selected(&mut self)
        ensures
            final(self)@ == warned(
                old(self)@,
                "No entries selected — tick at least one chapter."@,
            ),
    {
        self.status_err("No entries selected — tick at least one chapter.".to_owned());
    }

    /// The default name of the JSON file for this session.
    pub fn default_json_name(&self) -> (r: String)
        ensures
            r@ == json_name(self@),
    {
        match &self.pdf_path {
            Some(path) => {
                let stem = match file_stem(path.as_path()) {
                    Some(stem) => stem,
                    None => String::new(),
                };
                outline_file_name(stem.as_str())
            },
            None => "outline.json".to_owned(),
        }
    }

    /// A JSON file was written; it is remembered for later rewrites.
    pub fn json_written(&mut self, path: PathBuf, shown: &str)
        ensures
            final(self)@ == told(
                Session { json_path: Some(path), ..old(self)@ },
                "Wrote "@ + shown@,
            ),
    {
        self.json_path = Some(path);
        self.status_ok("Wrote ".to_owned().concat(shown));
    }

    /// A JSON file could not be written.
    pub fn json_not_written(&mut self, shown: &str, error: &str)
        ensures
            final(self)@ == warned(old(self)@, "Cannot write "@ + shown@ + ": "@ + error@),
    {
        self.status_err("Cannot write ".to_owned().concat(shown).concat(": ").concat(error));
    }

    /// A background job has ended.
    pub fn job_finished(&mut self, result: JobResult)
        ensures
            final(self)@ == job_done(old(self)@, result),
    {
        match result {
            JobResult::Extracted(Ok(extraction)) => {
                self.tree = GuiNode::from_entries(extraction.entries.as_slice());
                proof {
                    editor_laws::loaded_outline_is_kept(model::outline(extraction.entries@));
                }
                self.mapping = extraction.mapping;
                self.page_texts = extraction.page_texts;
                let total = self.total_text();
                self.status_ok(
                    "Extracted ".to_owned().concat(total.as_str()).concat(
                        " entries — tick the chapters to include.",
                    ),
                );
            },
            JobResult::Extracted(Err(e)) => {
                self.status_err("Auto-extraction failed: ".to_owned().concat(e.as_str()));
            },
            JobResult::Indexed(Ok(())) => {
                let message = "Done — wrote ".to_owned().concat(self.output_path.as_str());
                self.status_ok(message);
            },
            JobResult::Indexed(Err(e)) => {
                self.status_err("Indexing failed: ".to_owned().concat(e.as_str()));
            },
        }
        self.busy = false;
    }

    /// The text that says how much of the tree is selected.
    pub fn selection_text(&self) -> (r: String)
        ensures
            r@ == count_text(editor::marks(self@.tree)) + " of "@ + count_text(
                editor::size(self@.tree),
            ) + " entries selected — only checked entries are indexed and exported"@,
    {
        let (chosen, total) = selection_counts(self.tree.as_slice());
        decimal(chosen).concat(" of ").concat(decimal(total).as_str()).concat(
            " entries selected — only checked entries are indexed and exported",
        )
    }
}

/// Adds a top-level node.
fn push_node(tree: &mut Vec<GuiNode>, node: GuiNode)
    ensures
        editor::edit_tree(final(tree)@) == editor::edit_tree(old(tree)@).push(node@),
{
    let ghost before = tree@;
    tree.push(node);
    proof {
        assert(tree@.drop_last() =~= before);
    }
}

/// Adds a node below the node at the path, or a top-level node where the path
/// leads nowhere.
fn add_below(tree: &mut Vec<GuiNode>, path: &[usize], node: GuiNode)
    ensures
        editor::edit_tree(final(tree)@) == with_new_node(
            editor::edit_tree(old(tree)@),
            Target::Node(path@),
            node@,
        ),
{
    match node_at_mut(tree, path) {
        Some(parent) => {
            push_node(&mut parent.children, node);
            return;
        },
        None => {},
    }
    push_node(tree, node);
}

/// The default output path of a PDF, as text.
pub open spec fn default_output_text(pdf: PathBuf) -> Seq<char> {
    let path = files::path_in(&pdf);
    files::path_text_of(
        files::beside(
            path,
            files::indexed(
                files::stem_or_empty(files::stem_of(path)),
                files::extension_of(path),
            ),
        ),
    )
}

} // verus!
