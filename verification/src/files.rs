//! Names of the files that belong to a PDF: the indexed copy and the outline
//! specifications next to it.
use crate::std_text;
use crate::text;
use crate::text_laws;
use crate::text::{equals, less_text, to_chars};
use std::path::{Path, PathBuf};
use vstd::prelude::*;

verus! {

/// `std::path::Path`, seen through the functions below only.
#[verifier::external_type_specification]
#[verifier::external_body]
pub struct ExPath(std::path::Path);

/// `std::path::PathBuf`, seen through the functions below only.
#[verifier::external_type_specification]
#[verifier::external_body]
pub struct ExPathBuf(std::path::PathBuf);

/// The file name of a path without its extension, as text.
pub uninterp spec fn stem_of(path: &std::path::Path) -> Option<Seq<char>>;

/// The extension of the file name of a path, as text.
pub uninterp spec fn extension_of(path: &std::path::Path) -> Option<Seq<char>>;

/// The path with its file name replaced.
pub uninterp spec fn beside(path: &std::path::Path, name: Seq<char>) -> &std::path::Path;

/// The path that a path buffer holds.
pub uninterp spec fn path_in(path: &std::path::PathBuf) -> &std::path::Path;

/// A path as text.
pub uninterp spec fn path_text_of(path: &std::path::Path) -> Seq<char>;

/// What an optional string holds.
pub open spec fn optional_text(s: Option<String>) -> Option<Seq<char>> {
    match s {
        Some(text) => Some(text@),
        None => None,
    }
}

/// `Path::file_stem`: on a given platform, what it gives depends on the path
/// alone. The stem is converted to text; what is no valid Unicode in it is
/// replaced. How the platform divides a path is left unsaid.
#[verifier::external_body]
pub(crate) fn file_stem(path: &Path) -> (r: Option<String>)
    ensures
        optional_text(r) == stem_of(path),
{
    path.file_stem().map(|s| s.to_string_lossy().into_owned())
}

/// `Path::extension`: on a given platform, what it gives depends on the path
/// alone. The extension is converted to text; what is no valid Unicode in it
/// is replaced. How the platform divides a path is left unsaid.
#[verifier::external_body]
pub(crate) fn extension(path: &Path) -> (r: Option<String>)
    ensures
        optional_text(r) == extension_of(path),
{
    path.extension().map(|s| s.to_string_lossy().into_owned())
}

/// `Path::with_file_name`: on a given platform, the path that the result holds
/// depends on the path and on the name alone.
#[verifier::external_body]
pub(crate) fn with_file_name(path: &Path, name: &str) -> (r: PathBuf)
    ensures
        path_in(&r) == beside(path, name@),
{
    path.with_file_name(name)
}

/// `Path::to_string_lossy`: the text depends on the path alone. What is no
/// valid Unicode in the path is replaced.
#[verifier::external_body]
pub(crate) fn path_text(path: &Path) -> (r: String)
    ensures
        r@ == path_text_of(path),
{
    path.to_string_lossy().into_owned()
}

/// `PathBuf::as_path`: the path that the buffer holds.
pub assume_specification[ PathBuf::as_path ](path: &PathBuf) -> (r: &Path)
    ensures
        r == path_in(path),
;

/// The name of the indexed copy of a file: its stem, `_indexed`, and its
/// extension if it has one.
pub open spec fn indexed(stem: Seq<char>, extension: Option<Seq<char>>) -> Seq<char> {
    stem + "_indexed"@ + match extension {
        Some(e) => "."@ + e,
        None => seq![],
    }
}

/// The stem of a path, or no text where it has none.
pub open spec fn stem_or_empty(stem: Option<Seq<char>>) -> Seq<char> {
    match stem {
        Some(s) => s,
        None => seq![],
    }
}

/// The name of the indexed copy of a file.
pub fn indexed_name(stem: &str, extension: &Option<String>) -> (r: String)
    ensures
        r@ == indexed(stem@, optional_text(*extension)),
{
    let name = stem.to_owned().concat("_indexed");
    match extension {
        Some(e) => {
            let whole = name.concat(".").concat(e.as_str());
            proof {
                assert(whole@ =~= indexed(stem@, Some(e@)));
            }
            whole
        },
        None => {
            proof {
                assert(name@ =~= indexed(stem@, None));
            }
            name
        },
    }
}

/// Default output path: `<input_stem>_indexed<ext>` next to the input file.
pub fn default_output(path: &Path) -> (r: PathBuf)
    ensures
        path_in(&r) == beside(path, indexed(stem_or_empty(stem_of(path)), extension_of(path))),
{
    let stem = match file_stem(path) {
        Some(stem) => stem,
        None => String::new(),
    };
    let ext = extension(path);
    let name = indexed_name(stem.as_str(), &ext);
    with_file_name(path, name.as_str())
}

/// The name under which the outline of a PDF with the given stem is written.
pub open spec fn written_name(stem: Seq<char>) -> Seq<char> {
    stem + "-outline.json"@
}

/// The name under which the outline of a PDF is written.
pub fn outline_file_name(stem: &str) -> (r: String)
    ensures
        r@ == written_name(stem@),
{
    stem.to_owned().concat("-outline.json")
}

/// The names that an outline specification next to a PDF may have, best
/// first.
pub fn outline_file_names(stem: &str) -> (r: Vec<String>)
    ensures
        text::string_texts(r@) == seq![
            written_name(stem@),
            stem@ + ".json"@,
            stem@ + "_outline.json"@,
        ],
{
    let names = vec![
        outline_file_name(stem),
        stem.to_owned().concat(".json"),
        stem.to_owned().concat("_outline.json"),
    ];
    proof {
        assert(text::string_texts(names@) =~= seq![
            written_name(stem@),
            stem@ + ".json"@,
            stem@ + "_outline.json"@,
        ]);
    }
    names
}

/// A file of a directory: the stem and the extension of its name.
#[derive(Debug)]
pub struct ListedFile {
    pub stem: String,
    pub extension: Option<String>,
}

/// Whether two texts are the same but for the case of ASCII letters.
pub open spec fn same_but_case(a: Seq<char>, b: Seq<char>) -> bool {
    a.map_values(|c: char| std_text::ascii_lower(c)) == b.map_values(
        |c: char| std_text::ascii_lower(c),
    )
}

/// Whether a name in lower case belongs to a stem in lower case.
pub open spec fn belongs_to(name: Seq<char>, stem: Seq<char>) -> bool {
    name == stem || name == stem + "-outline"@ || name == stem + "_outline"@
}

/// Whether a file is an outline specification for the PDF with the stem, in
/// any case.
pub open spec fn is_outline_file(stem: Seq<char>, file: ListedFile) -> bool {
    &&& file.extension is Some
    &&& same_but_case(file.extension->0@, "json"@)
    &&& belongs_to(text::lower(file.stem@), text::lower(stem))
}

proof fn lemma_lower_suffix(stem: Seq<char>, name: Seq<char>, suffix: Seq<char>)
    requires
        vstd::utf8::is_ascii_chars(stem),
        vstd::utf8::is_ascii_chars(name),
        same_but_case(name, stem + suffix),
        forall|i: int|
            0 <= i < suffix.len() ==> #[trigger] std_text::ascii_lower(suffix[i]) == suffix[i],
    ensures
        text::lower(name) == text::lower(stem) + suffix,
{
    assert((stem + suffix).map_values(|c: char| std_text::ascii_lower(c)) =~= stem.map_values(
        |c: char| std_text::ascii_lower(c),
    ) + suffix);
}

/// For ASCII names, the case of the letters does not matter: a file with one
/// of the names of an outline specification is one, whatever their case.
pub proof fn outline_names_match_in_any_case(stem: Seq<char>, file: ListedFile)
    requires
        vstd::utf8::is_ascii_chars(stem),
        vstd::utf8::is_ascii_chars(file.stem@),
        file.extension is Some,
        same_but_case(file.extension->0@, "json"@),
        same_but_case(file.stem@, stem) || same_but_case(file.stem@, stem + "-outline"@)
            || same_but_case(file.stem@, stem + "_outline"@),
    ensures
        is_outline_file(stem, file),
{
    reveal_strlit("-outline");
    reveal_strlit("_outline");
    let none: Seq<char> = seq![];
    assert(stem + none =~= stem);
    if same_but_case(file.stem@, stem) {
        lemma_lower_suffix(stem, file.stem@, none);
        assert(text::lower(stem) + none =~= text::lower(stem));
    } else if same_but_case(file.stem@, stem + "-outline"@) {
        lemma_lower_suffix(stem, file.stem@, "-outline"@);
    } else {
        lemma_lower_suffix(stem, file.stem@, "_outline"@);
    }
}

/// The name of a file: its stem, and a dot and its extension if it has one.
pub open spec fn name_of(file: ListedFile) -> Seq<char> {
    match file.extension {
        Some(e) => file.stem@ + "."@ + e@,
        None => file.stem@,
    }
}

/// Whether the file at `i` is the outline specification that is chosen among
/// the files: it matches, no matching file has a lesser name, and no matching
/// file before it has the same name.
pub open spec fn is_least_outline(stem: Seq<char>, files: Seq<ListedFile>, i: int) -> bool {
    &&& 0 <= i < files.len()
    &&& is_outline_file(stem, files[i])
    &&& forall|j: int|
        0 <= j < files.len() && is_outline_file(stem, #[trigger] files[j]) ==> !text::is_less(
            name_of(files[j]),
            name_of(files[i]),
        ) && (j < i ==> name_of(files[j]) != name_of(files[i]))
}

/// The name that is chosen does not depend on the order in which the files
/// are listed.
pub proof fn chosen_name_is_unique(
    stem: Seq<char>,
    a: Seq<ListedFile>,
    b: Seq<ListedFile>,
    i: int,
    j: int,
)
    requires
        forall|file: ListedFile| #[trigger] a.contains(file) <==> b.contains(file),
        is_least_outline(stem, a, i),
        is_least_outline(stem, b, j),
    ensures
        name_of(a[i]) == name_of(b[j]),
{
    assert(a.contains(a[i]));
    assert(b.contains(b[j]));
    assert(b.contains(a[i]));
    assert(a.contains(b[j]));
    let k = b.index_of(a[i]);
    let l = a.index_of(b[j]);
    assert(is_outline_file(stem, b[k]));
    assert(is_outline_file(stem, a[l]));
    text_laws::order_is_total(name_of(a[i]), name_of(b[j]));
}

/// Where the outline specification for a PDF was found.
#[derive(Debug, PartialEq, Eq)]
pub enum OutlineChoice {
    /// Under one of the names that [`outline_file_names`] gives.
    Named(usize),
    /// Among the files of the directory.
    Listed(usize),
}

fn lower_ascii(c: char) -> (r: char)
    ensures
        r == std_text::ascii_lower(c),
{
    if c >= 'A' && c <= 'Z' {
        ((c as u8) + 32) as char
    } else {
        c
    }
}

fn equals_but_case(a: &[char], b: &[char]) -> (r: bool)
    ensures
        r == same_but_case(a@, b@),
{
    let ghost x = a@.map_values(|c: char| std_text::ascii_lower(c));
    let ghost y = b@.map_values(|c: char| std_text::ascii_lower(c));
    if a.len() != b.len() {
        proof {
            assert(x.len() != y.len());
        }
        return false;
    }
    let mut i: usize = 0;
    while i < a.len()
        invariant
            i <= a@.len(),
            a@.len() == b@.len(),
            x == a@.map_values(|c: char| std_text::ascii_lower(c)),
            y == b@.map_values(|c: char| std_text::ascii_lower(c)),
            forall|j: int| 0 <= j < i ==> x[j] == y[j],
        decreases a@.len() - i,
    {
        if lower_ascii(a[i]) != lower_ascii(b[i]) {
            proof {
                assert(x[i as int] != y[i as int]);
            }
            return false;
        }
        i += 1;
    }
    proof {
        assert(x =~= y);
    }
    true
}

/// Whether a name in lower case belongs to a stem in lower case.
pub fn name_belongs_to(name: &str, stem: &str) -> (r: bool)
    ensures
        r == belongs_to(name@, stem@),
{
    let chars = to_chars(name);
    let hyphen = stem.to_owned().concat("-outline");
    let underscore = stem.to_owned().concat("_outline");
    equals(chars.as_slice(), stem) || equals(chars.as_slice(), hyphen.as_str()) || equals(
        chars.as_slice(),
        underscore.as_str(),
    )
}

/// Whether a file is an outline specification for the PDF with the stem.
pub fn matches_outline(stem: &str, file: &ListedFile) -> (r: bool)
    ensures
        r == is_outline_file(stem@, *file),
{
    match &file.extension {
        None => false,
        Some(e) => {
            let ext = to_chars(e.as_str());
            let json = to_chars("json");
            if !equals_but_case(ext.as_slice(), json.as_slice()) {
                return false;
            }
            let name = file.stem.as_str().to_lowercase();
            let lower = stem.to_lowercase();
            name_belongs_to(name.as_str(), lower.as_str())
        },
    }
}

/// The name of a file.
fn file_name(file: &ListedFile) -> (r: Vec<char>)
    ensures
        r@ == name_of(*file),
{
    match &file.extension {
        Some(e) => {
            let name = file.stem.clone().concat(".").concat(e.as_str());
            to_chars(name.as_str())
        },
        None => to_chars(file.stem.as_str()),
    }
}

/// Chooses the outline specification for a PDF.
///
/// `present` says which of the names of [`outline_file_names`] exist. The
/// first of them wins. Otherwise it is the file with the least name among the
/// files of the directory that match in any case.
pub fn find_outline_json(stem: &str, present: &[bool], listed: &[ListedFile]) -> (r: Option<
    OutlineChoice,
>)
    ensures
        match r {
            Some(OutlineChoice::Named(i)) => i < present@.len() && present@[i as int] && forall|
                j: int,
            |
                0 <= j < i ==> !present@[j],
            Some(OutlineChoice::Listed(i)) => {
                &&& forall|j: int| 0 <= j < present@.len() ==> !present@[j]
                &&& is_least_outline(stem@, listed@, i as int)
            },
            None => {
                &&& forall|j: int| 0 <= j < present@.len() ==> !present@[j]
                &&& forall|j: int|
                    0 <= j < listed@.len() ==> !is_outline_file(stem@, #[trigger] listed@[j])
            },
        },
{
    let mut i: usize = 0;
    while i < present.len()
        invariant
            i <= present@.len(),
            forall|j: int| 0 <= j < i ==> !present@[j],
        decreases present@.len() - i,
    {
        if present[i] {
            return Some(OutlineChoice::Named(i));
        }
        i += 1;
    }
    match least_outline(stem, listed) {
        Some(k) => Some(OutlineChoice::Listed(k)),
        None => None,
    }
}

/// The file with the least name among those that are an outline specification
/// for the PDF with the stem.
fn least_outline(stem: &str, listed: &[ListedFile]) -> (r: Option<usize>)
    ensures
        match r {
            Some(i) => is_least_outline(stem@, listed@, i as int),
            None => forall|j: int|
                0 <= j < listed@.len() ==> !is_outline_file(stem@, #[trigger] listed@[j]),
        },
{
    let mut best: Option<usize> = None;
    let mut k: usize = 0;
    while k < listed.len()
        invariant
            k <= listed@.len(),
            match best {
                Some(i) => i < k && is_least_outline(stem@, listed@.take(k as int), i as int),
                None => forall|j: int|
                    0 <= j < k ==> !is_outline_file(stem@, #[trigger] listed@[j]),
            },
        decreases listed@.len() - k,
    {
        let ghost seen = listed@.take(k as int);
        let ghost now = listed@.take(k + 1);
        proof {
            assert forall|j: int| 0 <= j < k implies #[trigger] now[j] == seen[j] by {}
            text_laws::order_is_strict(name_of(listed@[k as int]));
        }
        if matches_outline(stem, &listed[k]) {
            match best {
                None => {
                    best = Some(k);
                },
                Some(i) => {
                    let name = file_name(&listed[k]);
                    let other = file_name(&listed[i]);
                    if less_text(name.as_slice(), other.as_slice()) {
                        proof {
                            assert forall|j: int|
                                0 <= j < now.len() && is_outline_file(
                                    stem@,
                                    #[trigger] now[j],
                                ) implies !text::is_less(name_of(now[j]), name@) && (j < k
                                ==> name_of(now[j]) != name@) by {
                                if j < k {
                                    assert(now[j] == seen[j]);
                                    if text::is_less(name_of(now[j]), name@) {
                                        text_laws::order_is_transitive(
                                            name_of(now[j]),
                                            name@,
                                            other@,
                                        );
                                    }
                                }
                            }
                        }
                        best = Some(k);
                    }
                },
            }
        }
        k += 1;
    }
    proof {
        assert(listed@.take(k as int) =~= listed@);
    }
    best
}

/// The indexed copy is named after the file, with `_indexed` behind its stem
/// and the same extension.
pub proof fn the_copy_is_named_after_the_file(stem: Seq<char>, extension: Seq<char>)
    ensures
        indexed(stem, None) == stem + "_indexed"@,
        indexed(stem, Some(extension)) == stem + "_indexed"@ + "."@ + extension,
        written_name(stem) == stem + "-outline.json"@,
        stem_or_empty(Some(stem)) == stem,
        stem_or_empty(None).len() == 0,
{
    let none: Seq<char> = seq![];
    assert(stem + "_indexed"@ + none =~= stem + "_indexed"@);
    assert(stem + "_indexed"@ + ("."@ + extension) =~= stem + "_indexed"@ + "."@ + extension);
}

/// An outline specification has the extension `json`, in any case. Its stem,
/// in lower case, is that of the PDF, alone or with `-outline` or `_outline`
/// behind it. A file without an extension is none.
pub proof fn outline_files_are_known_by_their_names(stem: Seq<char>, file: ListedFile)
    ensures
        file.extension is None ==> !is_outline_file(stem, file),
        file.extension matches Some(extension) ==> (is_outline_file(stem, file) <==> {
            let name = text::lower(file.stem@);
            &&& extension@.len() == 4
            &&& extension@[0] == 'j' || extension@[0] == 'J'
            &&& extension@[1] == 's' || extension@[1] == 'S'
            &&& extension@[2] == 'o' || extension@[2] == 'O'
            &&& extension@[3] == 'n' || extension@[3] == 'N'
            &&& name == text::lower(stem) || name == text::lower(stem) + "-outline"@ || name
                == text::lower(stem) + "_outline"@
        }),
{
    reveal_strlit("json");
    if let Some(extension) = file.extension {
        let x = extension@.map_values(|c: char| std_text::ascii_lower(c));
        let y = "json"@.map_values(|c: char| std_text::ascii_lower(c));
        assert(y =~= seq!['j', 's', 'o', 'n']);
        assert(x.len() == extension@.len());
        if extension@.len() == 4 {
            assert(x[0] == std_text::ascii_lower(extension@[0]));
            assert(x[1] == std_text::ascii_lower(extension@[1]));
            assert(x[2] == std_text::ascii_lower(extension@[2]));
            assert(x[3] == std_text::ascii_lower(extension@[3]));
            lemma_lower_letter(extension@[0], 'J');
            lemma_lower_letter(extension@[1], 'S');
            lemma_lower_letter(extension@[2], 'O');
            lemma_lower_letter(extension@[3], 'N');
            assert((x =~= y) == (x[0] == 'j' && x[1] == 's' && x[2] == 'o' && x[3] == 'n'));
        }
    }
}

proof fn lemma_lower_letter(c: char, upper: char)
    requires
        'A' <= upper <= 'Z',
    ensures
        std_text::ascii_lower(c) == std_text::ascii_lower(upper) <==> (c == upper || c
            == std_text::ascii_lower(upper)),
        upper == 'J' ==> std_text::ascii_lower(upper) == 'j',
        upper == 'S' ==> std_text::ascii_lower(upper) == 's',
        upper == 'O' ==> std_text::ascii_lower(upper) == 'o',
        upper == 'N' ==> std_text::ascii_lower(upper) == 'n',
{
}

/// The file that is chosen is an outline specification, and none of the others
/// has a lesser name.
pub proof fn the_least_name_is_chosen(stem: Seq<char>, files: Seq<ListedFile>, i: int, j: int)
    requires
        is_least_outline(stem, files, i),
        0 <= j < files.len(),
        is_outline_file(stem, files[j]),
    ensures
        is_outline_file(stem, files[i]),
        files[i].extension is Some,
        files[j].extension is Some,
        !text::is_less(
            files[j].stem@ + "."@ + files[j].extension->0@,
            files[i].stem@ + "."@ + files[i].extension->0@,
        ),
{
}

} // verus!
