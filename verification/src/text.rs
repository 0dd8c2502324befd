//! Splitting and searching text, as sequences of characters.
use crate::std_text;
use vstd::prelude::*;
use vstd::slice::slice_subrange;

verus! {

/// The characters that carry Unicode's `White_Space` property.
pub open spec fn is_white_space(c: char) -> bool {
    ||| '\u{9}' <= c <= '\u{d}'
    ||| c == '\u{20}'
    ||| c == '\u{85}'
    ||| c == '\u{a0}'
    ||| c == '\u{1680}'
    ||| '\u{2000}' <= c <= '\u{200a}'
    ||| c == '\u{2028}'
    ||| c == '\u{2029}'
    ||| c == '\u{202f}'
    ||| c == '\u{205f}'
    ||| c == '\u{3000}'
}

/// The texts that a vector of character slices holds.
pub open spec fn texts(v: Seq<&[char]>) -> Seq<Seq<char>> {
    v.map_values(|x: &[char]| x@)
}

/// The texts that a slice of string slices holds.
pub open spec fn str_texts(v: Seq<&str>) -> Seq<Seq<char>> {
    v.map_values(|x: &str| x@)
}

/// The texts that a slice of strings holds.
pub open spec fn string_texts(v: Seq<String>) -> Seq<Seq<char>> {
    v.map_values(|x: String| x@)
}

/// How many characters stand before the first `c`; all of them when `c` does
/// not occur.
pub open spec fn find_char(s: Seq<char>, c: char) -> nat
    decreases s.len(),
{
    if s.len() == 0 || s[0] == c {
        0
    } else {
        1 + find_char(s.skip(1), c)
    }
}

/// The pieces of `s` between the occurrences of `c`.
pub open spec fn split_text(s: Seq<char>, c: char) -> Seq<Seq<char>>
    decreases s.len(),
{
    let n = find_char(s, c);
    if n >= s.len() {
        seq![s]
    } else {
        seq![s.take(n as int)] + split_text(s.skip(n as int + 1), c)
    }
}

/// A line without the carriage return that may close it.
pub open spec fn strip_cr(s: Seq<char>) -> Seq<char> {
    if s.len() > 0 && s.last() == '\r' {
        s.drop_last()
    } else {
        s
    }
}

/// The lines of a text. A line ends with a line feed, or with a carriage
/// return and a line feed; the last line may lack its end.
pub open spec fn lines(s: Seq<char>) -> Seq<Seq<char>>
    decreases s.len(),
{
    let n = find_char(s, '\n');
    if s.len() == 0 {
        seq![]
    } else if n >= s.len() {
        seq![s]
    } else {
        seq![strip_cr(s.take(n as int))] + lines(s.skip(n as int + 1))
    }
}

/// Length of the longest prefix that holds only white space (`white`), or
/// none of it (`!white`).
pub open spec fn run_len(s: Seq<char>, white: bool) -> nat
    decreases s.len(),
{
    if s.len() == 0 || is_white_space(s[0]) != white {
        0
    } else {
        1 + run_len(s.skip(1), white)
    }
}

/// The words of a text: its maximal pieces without white space.
pub open spec fn words(s: Seq<char>) -> Seq<Seq<char>>
    decreases s.len(),
{
    if s.len() == 0 {
        seq![]
    } else if is_white_space(s[0]) {
        words(s.skip(1))
    } else {
        let n = run_len(s, false);
        if n == 0 || n > s.len() {
            seq![]
        } else {
            seq![s.take(n as int)] + words(s.skip(n as int))
        }
    }
}

/// A text without the white space that ends it.
pub open spec fn trim_end(s: Seq<char>) -> Seq<char>
    decreases s.len(),
{
    if s.len() > 0 && is_white_space(s.last()) {
        trim_end(s.drop_last())
    } else {
        s
    }
}

/// A text without the white space around it.
pub open spec fn trim(s: Seq<char>) -> Seq<char> {
    trim_end(s.skip(run_len(s, true) as int))
}

/// A text without the characters of `set` that end it.
pub open spec fn trim_end_of(s: Seq<char>, set: Seq<char>) -> Seq<char>
    decreases s.len(),
{
    if s.len() > 0 && set.contains(s.last()) {
        trim_end_of(s.drop_last(), set)
    } else {
        s
    }
}

/// Whether `needle` stands in `s`, starting at `i`.
pub open spec fn occurs_at(s: Seq<char>, needle: Seq<char>, i: int) -> bool {
    0 <= i <= s.len() - needle.len() && s.subrange(i, i + needle.len()) == needle
}

/// Whether `needle` stands anywhere in `s`.
pub open spec fn contains_text(s: Seq<char>, needle: Seq<char>) -> bool {
    exists|i: int| occurs_at(s, needle, i)
}

/// Whether `a` comes before `b` in the order of a dictionary: at the first
/// place where they differ it ends, or has the lesser character.
pub open spec fn is_less(a: Seq<char>, b: Seq<char>) -> bool
    decreases a.len(),
{
    if b.len() == 0 {
        false
    } else if a.len() == 0 {
        true
    } else {
        a[0] < b[0] || (a[0] == b[0] && is_less(a.skip(1), b.skip(1)))
    }
}

/// How often `c` occurs in `s`.
pub open spec fn count_char(s: Seq<char>, c: char) -> nat
    decreases s.len(),
{
    if s.len() == 0 {
        0
    } else {
        count_char(s.drop_last(), c) + if s.last() == c {
            1nat
        } else {
            0nat
        }
    }
}

/// The parts in order, with `sep` between neighbours.
pub open spec fn join(parts: Seq<Seq<char>>, sep: char) -> Seq<char>
    decreases parts.len(),
{
    if parts.len() == 0 {
        seq![]
    } else if parts.len() == 1 {
        parts[0]
    } else {
        join(parts.drop_last(), sep).push(sep) + parts.last()
    }
}

/// The lower-case form of a text. ASCII text is lowered letter by letter;
/// any other text as `str::to_lowercase` lowers it.
pub open spec fn lower(s: Seq<char>) -> Seq<char> {
    if vstd::utf8::is_ascii_chars(s) {
        s.map_values(|c: char| std_text::ascii_lower(c))
    } else {
        std_text::lowercase_of(s)
    }
}

/// Whether a character is a letter: an ASCII one, or any other that
/// `char::is_alphabetic` takes for one.
pub open spec fn is_letter(c: char) -> bool {
    if c >= '\u{80}' {
        std_text::alphabetic(c)
    } else {
        'a' <= c <= 'z' || 'A' <= c <= 'Z'
    }
}

pub proof fn lemma_find_char(s: Seq<char>, c: char, n: nat)
    requires
        n <= s.len(),
        forall|j: int| 0 <= j < n ==> s[j] != c,
        n < s.len() ==> s[n as int] == c,
    ensures
        find_char(s, c) == n,
    decreases n,
{
    if n > 0 {
        assert(s[0] != c);
        assert forall|j: int| 0 <= j < n - 1 implies s.skip(1)[j] != c by {
            assert(s[j + 1] != c);
        }
        lemma_find_char(s.skip(1), c, (n - 1) as nat);
    }
}

pub proof fn lemma_run_len(s: Seq<char>, white: bool, n: nat)
    requires
        n <= s.len(),
        forall|j: int| 0 <= j < n ==> is_white_space(#[trigger] s[j]) == white,
        n < s.len() ==> is_white_space(s[n as int]) != white,
    ensures
        run_len(s, white) == n,
    decreases n,
{
    if n > 0 {
        assert(is_white_space(s[0]) == white);
        assert forall|j: int| 0 <= j < n - 1 implies is_white_space(
            #[trigger] s.skip(1)[j],
        ) == white by {
            assert(is_white_space(s[j + 1]) == white);
        }
        lemma_run_len(s.skip(1), white, (n - 1) as nat);
    }
}

/// Adding one part to a joined text adds the separator and the part.
proof fn lemma_join_push(parts: Seq<Seq<char>>, sep: char, part: Seq<char>)
    ensures
        join(parts.push(part), sep) == if parts.len() == 0 {
            part
        } else {
            join(parts, sep).push(sep) + part
        },
{
    assert(parts.push(part).drop_last() =~= parts);
}

/// The characters of a string.
pub fn to_chars(s: &str) -> (r: Vec<char>)
    ensures
        r@ == s@,
{
    let mut out: Vec<char> = Vec::new();
    for c in it: s.chars()
        invariant
            it.seq() == s@,
            out@ == s@.take(it.index() as int),
    {
        out.push(c);
        assert(s@.take(it.index() + 1) =~= s@.take(it.index() as int).push(c));
    }
    assert(s@.take(s@.len() as int) =~= s@);
    out
}

/// The string made of the given characters.
pub fn to_text(s: &[char]) -> (r: String)
    ensures
        r@ == s@,
{
    let mut out = String::new();
    let mut i: usize = 0;
    while i < s.len()
        invariant
            i <= s@.len(),
            out@ == s@.take(i as int),
        decreases s@.len() - i,
    {
        out.push(s[i]);
        assert(s@.take(i + 1) =~= s@.take(i as int).push(s@[i as int]));
        i += 1;
    }
    assert(s@.take(i as int) =~= s@);
    out
}

/// Position of the first `c` at or after `start`, or the length of `s`.
pub fn find_from(s: &[char], start: usize, c: char) -> (r: usize)
    requires
        start <= s@.len(),
    ensures
        r == start + find_char(s@.skip(start as int), c),
        start <= r <= s@.len(),
        r < s@.len() ==> s@[r as int] == c,
{
    let mut i: usize = start;
    while i < s.len() && s[i] != c
        invariant
            start <= i <= s@.len(),
            forall|j: int| start <= j < i ==> s@[j] != c,
        decreases s@.len() - i,
    {
        i += 1;
    }
    proof {
        lemma_find_char(s@.skip(start as int), c, (i - start) as nat);
    }
    i
}

/// Splits a text at every `c`.
pub fn split_on<'a>(s: &'a [char], c: char) -> (r: Vec<&'a [char]>)
    ensures
        texts(r@) == split_text(s@, c),
{
    let mut out: Vec<&'a [char]> = Vec::new();
    let mut start: usize = 0;
    proof {
        assert(s@.skip(0) =~= s@);
        assert(texts(out@) + split_text(s@, c) =~= split_text(s@, c));
    }
    loop
        invariant
            start <= s@.len(),
            texts(out@) + split_text(s@.skip(start as int), c) == split_text(s@, c),
        decreases s@.len() - start,
    {
        let n: usize = find_from(s, start, c);
        let piece = slice_subrange(s, start, n);
        let ghost before = texts(out@);
        let ghost rest = s@.skip(start as int);
        out.push(piece);
        proof {
            assert(texts(out@) =~= before.push(piece@));
            assert(piece@ =~= rest.take(n - start));
        }
        if n >= s.len() {
            proof {
                assert(rest.take(n - start) =~= rest);
                assert(texts(out@) =~= before + seq![rest]);
            }
            return out;
        }
        proof {
            assert(rest.skip(n - start + 1) =~= s@.skip(n + 1));
            assert(texts(out@) + split_text(s@.skip(n + 1), c) =~= before + (seq![piece@]
                + split_text(s@.skip(n + 1), c)));
        }
        start = n + 1;
    }
}

/// Splits a text into its lines.
pub fn split_lines<'a>(s: &'a [char]) -> (r: Vec<&'a [char]>)
    ensures
        texts(r@) == lines(s@),
{
    let mut out: Vec<&'a [char]> = Vec::new();
    let mut start: usize = 0;
    proof {
        assert(s@.skip(0) =~= s@);
        assert(texts(out@) + lines(s@) =~= lines(s@));
    }
    while start < s.len()
        invariant
            start <= s@.len(),
            texts(out@) + lines(s@.skip(start as int)) == lines(s@),
        decreases s@.len() - start,
    {
        let n: usize = find_from(s, start, '\n');
        let ghost before = texts(out@);
        let ghost rest = s@.skip(start as int);
        if n >= s.len() {
            let piece = slice_subrange(s, start, n);
            out.push(piece);
            proof {
                assert(piece@ =~= rest);
                assert(texts(out@) =~= before + seq![rest]);
            }
            return out;
        }
        let end: usize = if n > start && s[n - 1] == '\r' {
            n - 1
        } else {
            n
        };
        let piece = slice_subrange(s, start, end);
        out.push(piece);
        proof {
            assert(piece@ =~= strip_cr(rest.take(n - start)));
            assert(texts(out@) =~= before.push(piece@));
            assert(rest.skip(n - start + 1) =~= s@.skip(n + 1));
            assert(texts(out@) + lines(s@.skip(n + 1)) =~= before + (seq![piece@] + lines(
                s@.skip(n + 1),
            )));
        }
        start = n + 1;
    }
    proof {
        assert(s@.skip(start as int) =~= seq![]);
        assert(texts(out@) + seq![] =~= texts(out@));
    }
    out
}

/// Splits a text into its words.
pub fn split_words<'a>(s: &'a [char]) -> (r: Vec<&'a [char]>)
    ensures
        texts(r@) == words(s@),
{
    let mut out: Vec<&'a [char]> = Vec::new();
    let mut start: usize = 0;
    proof {
        assert(s@.skip(0) =~= s@);
        assert(texts(out@) + words(s@) =~= words(s@));
    }
    while start < s.len()
        invariant
            start <= s@.len(),
            texts(out@) + words(s@.skip(start as int)) == words(s@),
        decreases s@.len() - start,
    {
        let ghost rest = s@.skip(start as int);
        if s[start].is_whitespace() {
            proof {
                assert(rest[0] == s@[start as int]);
                assert(rest.skip(1) =~= s@.skip(start + 1));
            }
            start += 1;
        } else {
            let mut end: usize = start + 1;
            while end < s.len() && !s[end].is_whitespace()
                invariant
                    start < end <= s@.len(),
                    forall|j: int| start <= j < end ==> !is_white_space(#[trigger] s@[j]),
                decreases s@.len() - end,
            {
                end += 1;
            }
            let piece = slice_subrange(s, start, end);
            let ghost before = texts(out@);
            out.push(piece);
            proof {
                lemma_run_len(rest, false, (end - start) as nat);
                assert(piece@ =~= rest.take(end - start));
                assert(rest.skip(end - start) =~= s@.skip(end as int));
                assert(texts(out@) =~= before.push(piece@));
                assert(texts(out@) + words(s@.skip(end as int)) =~= before + (seq![piece@] + words(
                    s@.skip(end as int),
                )));
            }
            start = end;
        }
    }
    proof {
        assert(s@.skip(start as int) =~= seq![]);
        assert(texts(out@) + seq![] =~= texts(out@));
    }
    out
}

/// The text without the white space around it.
pub fn trim_text<'a>(s: &'a [char]) -> (r: &'a [char])
    ensures
        r@ == trim(s@),
{
    let mut start: usize = 0;
    while start < s.len() && s[start].is_whitespace()
        invariant
            start <= s@.len(),
            forall|j: int| 0 <= j < start ==> is_white_space(#[trigger] s@[j]),
        decreases s@.len() - start,
    {
        start += 1;
    }
    proof {
        lemma_run_len(s@, true, start as nat);
    }
    let ghost rest = s@.skip(start as int);
    let mut end: usize = s.len();
    proof {
        assert(s@.subrange(start as int, end as int) =~= rest);
    }
    while end > start && s[end - 1].is_whitespace()
        invariant
            start <= end <= s@.len(),
            trim_end(s@.subrange(start as int, end as int)) == trim_end(rest),
        decreases end,
    {
        proof {
            assert(s@.subrange(start as int, end as int).drop_last() =~= s@.subrange(
                start as int,
                end - 1,
            ));
        }
        end -= 1;
    }
    slice_subrange(s, start, end)
}

/// The text without the characters of `set` that end it.
pub fn trim_end_chars<'a>(s: &'a [char], set: &[char]) -> (r: &'a [char])
    ensures
        r@ == trim_end_of(s@, set@),
{
    let mut end: usize = s.len();
    proof {
        assert(s@.subrange(0, end as int) =~= s@);
    }
    while end > 0 && has_char(set, s[end - 1])
        invariant
            end <= s@.len(),
            trim_end_of(s@.subrange(0, end as int), set@) == trim_end_of(s@, set@),
        decreases end,
    {
        proof {
            assert(s@.subrange(0, end as int).drop_last() =~= s@.subrange(0, end - 1));
        }
        end -= 1;
    }
    slice_subrange(s, 0, end)
}

/// Whether the text holds the character.
pub fn has_char(s: &[char], c: char) -> (r: bool)
    ensures
        r == s@.contains(c),
{
    let mut i: usize = 0;
    while i < s.len()
        invariant
            i <= s@.len(),
            forall|j: int| 0 <= j < i ==> s@[j] != c,
        decreases s@.len() - i,
    {
        if s[i] == c {
            return true;
        }
        i += 1;
    }
    false
}

/// How often the character occurs in the text.
pub fn count_of(s: &[char], c: char) -> (r: usize)
    ensures
        r == count_char(s@, c),
        r <= s@.len(),
{
    let mut n: usize = 0;
    let mut i: usize = 0;
    while i < s.len()
        invariant
            i <= s@.len(),
            n <= i,
            n == count_char(s@.take(i as int), c),
        decreases s@.len() - i,
    {
        proof {
            assert(s@.take(i + 1).drop_last() =~= s@.take(i as int));
        }
        if s[i] == c {
            n += 1;
        }
        i += 1;
    }
    proof {
        assert(s@.take(i as int) =~= s@);
    }
    n
}

/// Whether two texts are the same.
pub fn same_text(a: &[char], b: &[char]) -> (r: bool)
    ensures
        r == (a@ == b@),
{
    if a.len() != b.len() {
        return false;
    }
    let mut i: usize = 0;
    while i < a.len()
        invariant
            i <= a@.len(),
            a@.len() == b@.len(),
            forall|j: int| 0 <= j < i ==> a@[j] == b@[j],
        decreases a@.len() - i,
    {
        if a[i] != b[i] {
            return false;
        }
        i += 1;
    }
    proof {
        assert(a@ =~= b@);
    }
    true
}

/// Whether `a` comes before `b` in the order of a dictionary.
pub fn less_text(a: &[char], b: &[char]) -> (r: bool)
    ensures
        r == is_less(a@, b@),
{
    let mut i: usize = 0;
    proof {
        assert(a@.skip(0) =~= a@);
        assert(b@.skip(0) =~= b@);
    }
    while i < a.len() && i < b.len()
        invariant
            i <= a@.len(),
            i <= b@.len(),
            is_less(a@.skip(i as int), b@.skip(i as int)) == is_less(a@, b@),
        decreases a@.len() - i,
    {
        proof {
            assert(a@.skip(i as int).skip(1) =~= a@.skip(i + 1));
            assert(b@.skip(i as int).skip(1) =~= b@.skip(i + 1));
        }
        if a[i] != b[i] {
            return a[i] < b[i];
        }
        i += 1;
    }
    i < b.len()
}

/// Whether the text is the given literal.
pub fn equals(s: &[char], literal: &str) -> (r: bool)
    ensures
        r == (s@ == literal@),
{
    let other = to_chars(literal);
    same_text(s, other.as_slice())
}

/// Whether the text starts with the given literal.
pub fn starts_with(s: &[char], literal: &str) -> (r: bool)
    ensures
        r == occurs_at(s@, literal@, 0),
{
    let other = to_chars(literal);
    if other.len() > s.len() {
        return false;
    }
    same_text(slice_subrange(s, 0, other.len()), other.as_slice())
}

/// Whether the given literal stands anywhere in the text.
pub fn contains(s: &[char], literal: &str) -> (r: bool)
    ensures
        r == contains_text(s@, literal@),
{
    let other = to_chars(literal);
    if other.len() > s.len() {
        return false;
    }
    let last: usize = s.len() - other.len();
    let mut i: usize = 0;
    loop
        invariant
            other@ == literal@,
            i <= last,
            last == s@.len() - other@.len(),
            s@.len() <= usize::MAX,
            forall|j: int| 0 <= j < i ==> !occurs_at(s@, literal@, j),
        decreases last - i,
    {
        if same_text(slice_subrange(s, i, i + other.len()), other.as_slice()) {
            proof {
                assert(occurs_at(s@, literal@, i as int));
            }
            return true;
        }
        if i == last {
            return false;
        }
        i += 1;
    }
}

/// Joins the parts with `sep` between neighbours.
pub fn join_parts(parts: &[&[char]], sep: char) -> (r: Vec<char>)
    ensures
        r@ == join(texts(parts@), sep),
{
    let mut out: Vec<char> = Vec::new();
    let mut i: usize = 0;
    while i < parts.len()
        invariant
            i <= parts@.len(),
            out@ == join(texts(parts@.take(i as int)), sep),
        decreases parts@.len() - i,
    {
        proof {
            let done = parts@.take(i as int);
            assert(texts(parts@.take(i + 1)) =~= texts(done).push(parts@[i as int]@));
            lemma_join_push(texts(done), sep, parts@[i as int]@);
        }
        if i > 0 {
            out.push(sep);
        }
        let ghost before = out@;
        let part = parts[i];
        let mut k: usize = 0;
        while k < part.len()
            invariant
                k <= part@.len(),
                out@ == before + part@.take(k as int),
            decreases part@.len() - k,
        {
            out.push(part[k]);
            proof {
                assert(part@.take(k + 1) =~= part@.take(k as int).push(part@[k as int]));
                assert(out@ =~= before + part@.take(k + 1));
            }
            k += 1;
        }
        proof {
            assert(part@.take(k as int) =~= part@);
        }
        i += 1;
    }
    proof {
        assert(parts@.take(i as int) =~= parts@);
    }
    out
}

/// The lower-case form of a text.
pub fn lower_text(s: &[char]) -> (r: Vec<char>)
    ensures
        r@ == lower(s@),
{
    let text = to_text(s);
    let lower = text.as_str().to_lowercase();
    to_chars(lower.as_str())
}

} // verus!
