//! What holds of split and joined text.
use crate::text;
use vstd::prelude::*;

verus! {

/// A joined text is its first part, the separator, and the other parts joined.
proof fn lemma_join_front(parts: Seq<Seq<char>>, sep: char)
    requires
        parts.len() >= 2,
    ensures
        text::join(parts, sep) == parts[0].push(sep) + text::join(parts.skip(1), sep),
    decreases parts.len(),
{
    let rest = parts.skip(1);
    if parts.len() == 2 {
        assert(parts.drop_last().len() == 1);
        assert(text::join(parts.drop_last(), sep) == parts[0]);
        assert(text::join(rest, sep) == parts[1]);
    } else {
        lemma_join_front(parts.drop_last(), sep);
        assert(parts.drop_last().skip(1) =~= rest.drop_last());
        assert(text::join(parts, sep) =~= parts[0].push(sep) + text::join(rest, sep));
    }
}

/// Splitting a joined text at the separator gives the parts back, where no
/// part holds the separator itself.
pub proof fn split_undoes_join(parts: Seq<Seq<char>>, sep: char)
    requires
        parts.len() > 0,
        forall|i: int| 0 <= i < parts.len() ==> !(#[trigger] parts[i]).contains(sep),
    ensures
        text::split_text(text::join(parts, sep), sep) == parts,
    decreases parts.len(),
{
    let s = text::join(parts, sep);
    let first = parts[0];
    assert forall|j: int| 0 <= j < first.len() implies first[j] != sep by {
        assert(!parts[0].contains(sep));
    }
    if parts.len() == 1 {
        text::lemma_find_char(s, sep, s.len());
        assert(parts =~= seq![s]);
    } else {
        let rest = parts.skip(1);
        lemma_join_front(parts, sep);
        assert forall|j: int| 0 <= j < first.len() implies s[j] != sep by {
            assert(s[j] == first[j]);
        }
        text::lemma_find_char(s, sep, first.len());
        assert(s.take(first.len() as int) =~= first);
        assert(s.skip(first.len() as int + 1) =~= text::join(rest, sep));
        assert forall|i: int| 0 <= i < rest.len() implies !(#[trigger] rest[i]).contains(sep) by {
            assert(!parts[i + 1].contains(sep));
        }
        split_undoes_join(rest, sep);
        assert(parts =~= seq![first] + rest);
    }
}

/// Joining the pieces of a split text with the separator gives the text back.
pub proof fn join_undoes_split(s: Seq<char>, sep: char)
    ensures
        text::split_text(s, sep).len() > 0,
        text::join(text::split_text(s, sep), sep) == s,
    decreases s.len(),
{
    let n = text::find_char(s, sep) as int;
    if n < s.len() {
        let rest = s.skip(n + 1);
        let pieces = text::split_text(s, sep);
        let others = text::split_text(rest, sep);
        join_undoes_split(rest, sep);
        lemma_found(s, sep);
        assert(pieces.skip(1) =~= others);
        lemma_join_front(pieces, sep);
        assert(s =~= s.take(n).push(sep) + rest);
    }
}

proof fn lemma_found(s: Seq<char>, c: char)
    ensures
        text::find_char(s, c) < s.len() ==> s[text::find_char(s, c) as int] == c,
    decreases s.len(),
{
    if s.len() > 0 && s[0] != c {
        lemma_found(s.skip(1), c);
    }
}

/// No text comes before itself.
pub proof fn order_is_strict(a: Seq<char>)
    ensures
        !text::is_less(a, a),
    decreases a.len(),
{
    if a.len() > 0 {
        order_is_strict(a.skip(1));
    }
}

/// A text that comes before another comes before all that the other comes
/// before.
pub proof fn order_is_transitive(a: Seq<char>, b: Seq<char>, c: Seq<char>)
    requires
        text::is_less(a, b),
        text::is_less(b, c),
    ensures
        text::is_less(a, c),
    decreases a.len(),
{
    if a.len() > 0 && a[0] == b[0] && b[0] == c[0] {
        order_is_transitive(a.skip(1), b.skip(1), c.skip(1));
    }
}

/// Of two different texts one comes before the other.
pub proof fn order_is_total(a: Seq<char>, b: Seq<char>)
    ensures
        text::is_less(a, b) || text::is_less(b, a) || a == b,
    decreases a.len(),
{
    if a.len() > 0 && b.len() > 0 {
        order_is_total(a.skip(1), b.skip(1));
        if a[0] == b[0] && a.skip(1) == b.skip(1) {
            assert(a =~= seq![a[0]] + a.skip(1));
            assert(b =~= seq![b[0]] + b.skip(1));
        }
    } else if a.len() == 0 && b.len() == 0 {
        assert(a =~= b);
    }
}

/// The words of a line are found again in the line that is made of them, with
/// one space between neighbours.
pub proof fn words_are_read_back(words: Seq<Seq<char>>)
    requires
        forall|i: int| 0 <= i < words.len() ==> (#[trigger] words[i]).len() > 0,
        forall|i: int, j: int|
            0 <= i < words.len() && 0 <= j < words[i].len() ==> !text::is_white_space(
                #[trigger] words[i][j],
            ),
    ensures
        text::words(text::join(words, ' ')) == words,
    decreases words.len(),
{
    let s = text::join(words, ' ');
    if words.len() == 0 {
        assert(words =~= seq![]);
    } else {
        let first = words[0];
        let rest = words.skip(1);
        assert(first.len() > 0);
        assert forall|j: int| 0 <= j < first.len() implies !text::is_white_space(
            #[trigger] first[j],
        ) by {
            assert(!text::is_white_space(words[0][j]));
        }
        if words.len() == 1 {
            text::lemma_run_len(s, false, s.len());
            assert(s.take(s.len() as int) =~= s);
            assert(s.skip(s.len() as int) =~= seq![]);
            assert(!text::is_white_space(s[0]));
            assert(text::words(s.skip(s.len() as int)) =~= seq![]);
            assert(words =~= seq![s] + seq![]);
        } else {
            lemma_join_front(words, ' ');
            let n = first.len() as int;
            let tail = text::join(rest, ' ');
            assert forall|j: int| 0 <= j < n implies !text::is_white_space(#[trigger] s[j]) by {
                assert(s[j] == first[j]);
            }
            assert(s[n] == ' ');
            text::lemma_run_len(s, false, first.len());
            assert(!text::is_white_space(s[0]));
            assert(s.take(n) =~= first);
            assert(s.skip(n).skip(1) =~= tail);
            assert(s.skip(n)[0] == ' ');
            assert forall|i: int| 0 <= i < rest.len() implies (#[trigger] rest[i]).len() > 0 by {
                assert(words[i + 1].len() > 0);
            }
            assert forall|i: int, j: int|
                0 <= i < rest.len() && 0 <= j < rest[i].len() implies !text::is_white_space(
                #[trigger] rest[i][j],
            ) by {
                assert(!text::is_white_space(words[i + 1][j]));
            }
            words_are_read_back(rest);
            assert(text::words(s.skip(n)) == rest);
            assert(words =~= seq![first] + rest);
        }
    }
}

/// Nothing joined is no text, one part is itself, and a further part comes
/// behind the separator.
pub proof fn join_puts_the_separator_between(parts: Seq<Seq<char>>, part: Seq<char>, sep: char)
    ensures
        text::join(seq![], sep) == Seq::<char>::empty(),
        text::join(seq![part], sep) == part,
        parts.len() > 0 ==> text::join(parts.push(part), sep) == text::join(parts, sep).push(sep)
            + part,
{
    assert(parts.push(part).drop_last() =~= parts);
}

/// A text without a line feed is one line, or none if it is empty. What stands
/// before the first line feed is the first line, without a carriage return at
/// its end; the lines of the rest follow.
pub proof fn lines_end_at_line_feeds(line: Seq<char>, rest: Seq<char>)
    requires
        !line.contains('\n'),
    ensures
        text::lines(line) == if line.len() == 0 {
            Seq::<Seq<char>>::empty()
        } else {
            seq![line]
        },
        text::lines(line.push('\n') + rest) == seq![
            if line.len() > 0 && line[line.len() - 1] == '\r' {
                line.take(line.len() - 1)
            } else {
                line
            },
        ] + text::lines(rest),
{
    assert forall|j: int| 0 <= j < line.len() implies line[j] != '\n' by {
        assert(line.contains(line[j]));
    }
    text::lemma_find_char(line, '\n', line.len());
    let s = line.push('\n') + rest;
    assert forall|j: int| 0 <= j < line.len() implies s[j] != '\n' by {
        assert(s[j] == line[j]);
    }
    text::lemma_find_char(s, '\n', line.len());
    assert(s.take(line.len() as int) =~= line);
    assert(s.skip(line.len() as int + 1) =~= rest);
    if line.len() > 0 {
        assert(line.drop_last() =~= line.take(line.len() - 1));
    }
}

proof fn lemma_run_stops(a: Seq<char>, c: char, b: Seq<char>)
    requires
        text::is_white_space(c),
    ensures
        text::run_len(a.push(c) + b, false) == text::run_len(a, false),
        text::run_len(a, false) <= a.len(),
    decreases a.len(),
{
    let s = a.push(c) + b;
    if a.len() == 0 {
        assert(s[0] == c);
    } else {
        assert(s[0] == a[0]);
        assert(s.skip(1) =~= a.skip(1).push(c) + b);
        lemma_run_stops(a.skip(1), c, b);
    }
}

/// White space parts words: the words on its two sides are those of the two
/// texts. A text without white space is one word, or none if it is empty.
pub proof fn white_space_parts_words(a: Seq<char>, c: char, b: Seq<char>)
    requires
        text::is_white_space(c),
    ensures
        text::words(a.push(c) + b) == text::words(a) + text::words(b),
        (forall|i: int| 0 <= i < a.len() ==> !text::is_white_space(#[trigger] a[i]))
            ==> text::words(a) == if a.len() == 0 {
            Seq::<Seq<char>>::empty()
        } else {
            seq![a]
        },
    decreases a.len(),
{
    let s = a.push(c) + b;
    if a.len() == 0 {
        assert(s[0] == c);
        assert(s.skip(1) =~= b);
        assert(text::words(a) + text::words(b) =~= text::words(b));
    } else if text::is_white_space(a[0]) {
        assert(s[0] == a[0]);
        assert(s.skip(1) =~= a.skip(1).push(c) + b);
        white_space_parts_words(a.skip(1), c, b);
    } else {
        assert(s[0] == a[0]);
        lemma_run_stops(a, c, b);
        let n = text::run_len(a, false) as int;
        assert(s.take(n) =~= a.take(n));
        assert(s.skip(n) =~= a.skip(n).push(c) + b);
        white_space_parts_words(a.skip(n), c, b);
        assert(text::words(s) =~= text::words(a) + text::words(b));
    }
    if forall|i: int| 0 <= i < a.len() ==> !text::is_white_space(#[trigger] a[i]) {
        if a.len() > 0 {
            assert(!text::is_white_space(a[0]));
            text::lemma_run_len(a, false, a.len());
            assert(a.take(a.len() as int) =~= a);
            assert(a.skip(a.len() as int) =~= seq![]);
            assert(text::words(a.skip(a.len() as int)) =~= seq![]);
            assert(text::words(a) =~= seq![a]);
        }
    }
}

proof fn lemma_run_is_white(s: Seq<char>)
    ensures
        text::run_len(s, true) <= s.len(),
        forall|i: int| 0 <= i < text::run_len(s, true) ==> text::is_white_space(#[trigger] s[i]),
        text::run_len(s, true) < s.len() ==> !text::is_white_space(
            s[text::run_len(s, true) as int],
        ),
    decreases s.len(),
{
    if s.len() > 0 && text::is_white_space(s[0]) {
        let rest = s.skip(1);
        lemma_run_is_white(rest);
        assert forall|i: int| 0 <= i < text::run_len(s, true) implies text::is_white_space(
            #[trigger] s[i],
        ) by {
            if i > 0 {
                assert(s[i] == rest[i - 1]);
            }
        }
    }
}

proof fn lemma_trim_end(s: Seq<char>)
    ensures
        text::trim_end(s).len() <= s.len(),
        text::trim_end(s) == s.take(text::trim_end(s).len() as int),
        forall|i: int|
            text::trim_end(s).len() <= i < s.len() ==> text::is_white_space(#[trigger] s[i]),
        text::trim_end(s).len() > 0 ==> !text::is_white_space(text::trim_end(s).last()),
    decreases s.len(),
{
    if s.len() > 0 && text::is_white_space(s.last()) {
        let before = s.drop_last();
        lemma_trim_end(before);
        assert(before.take(text::trim_end(s).len() as int) =~= s.take(
            text::trim_end(s).len() as int,
        ));
        assert forall|i: int| text::trim_end(s).len() <= i < s.len() implies text::is_white_space(
            #[trigger] s[i],
        ) by {
            if i < before.len() {
                assert(before[i] == s[i]);
            }
        }
    } else {
        assert(s.take(s.len() as int) =~= s);
    }
}

/// Trimming takes away white space at both ends, all of it and nothing else.
pub proof fn trimming_takes_white_space_only(s: Seq<char>) -> (ends: (Seq<char>, Seq<char>))
    ensures
        s == ends.0 + text::trim(s) + ends.1,
        forall|i: int| 0 <= i < ends.0.len() ==> text::is_white_space(#[trigger] ends.0[i]),
        forall|i: int| 0 <= i < ends.1.len() ==> text::is_white_space(#[trigger] ends.1[i]),
        text::trim(s).len() > 0 ==> !text::is_white_space(text::trim(s)[0])
            && !text::is_white_space(text::trim(s).last()),
{
    let n = text::run_len(s, true) as int;
    lemma_run_is_white(s);
    let tail = s.skip(n);
    lemma_trim_end(tail);
    let kept = text::trim(s);
    let behind = tail.skip(kept.len() as int);
    if kept.len() > 0 {
        assert(kept[0] == s[n]);
    }
    assert(s =~= s.take(n) + kept + behind);
    assert forall|i: int| 0 <= i < behind.len() implies text::is_white_space(
        #[trigger] behind[i],
    ) by {
        assert(behind[i] == tail[kept.len() + i]);
    }
    (s.take(n), behind)
}

/// Trimming twice is trimming once.
pub proof fn trimming_is_done_once(s: Seq<char>)
    ensures
        text::trim(text::trim(s)) == text::trim(s),
{
    let t = text::trim(s);
    let ends = trimming_takes_white_space_only(s);
    if t.len() == 0 {
        assert(t.skip(0) =~= t);
    } else {
        text::lemma_run_len(t, true, 0);
        assert(t.skip(0) =~= t);
    }
}

/// Cutting characters off the end takes those of the set, all of them and
/// nothing else.
pub proof fn cutting_takes_the_set_only(s: Seq<char>, set: Seq<char>) -> (tail: Seq<char>)
    ensures
        s == text::trim_end_of(s, set) + tail,
        forall|i: int| 0 <= i < tail.len() ==> set.contains(#[trigger] tail[i]),
        text::trim_end_of(s, set).len() > 0 ==> !set.contains(text::trim_end_of(s, set).last()),
    decreases s.len(),
{
    if s.len() > 0 && set.contains(s.last()) {
        let tail = cutting_takes_the_set_only(s.drop_last(), set);
        let whole = tail.push(s.last());
        let kept = text::trim_end_of(s.drop_last(), set);
        assert(text::trim_end_of(s, set) == kept);
        assert(s =~= s.drop_last().push(s.last()));
        assert((kept + tail).push(s.last()) =~= kept + whole);
        assert(s =~= text::trim_end_of(s, set) + whole);
        whole
    } else {
        assert(s =~= s + seq![]);
        seq![]
    }
}

/// A text holds another exactly when it can be taken apart around it.
pub proof fn contained_text_stands_between(s: Seq<char>, needle: Seq<char>)
    ensures
        text::contains_text(s, needle) <==> exists|a: Seq<char>, b: Seq<char>|
            s == #[trigger] (a + needle + b),
{
    if text::contains_text(s, needle) {
        let i = choose|i: int| text::occurs_at(s, needle, i);
        let a = s.take(i);
        let b = s.skip(i + needle.len());
        assert(s =~= a + needle + b) by {
            assert forall|k: int| 0 <= k < s.len() implies s[k] == (a + needle + b)[k] by {
                if i <= k < i + needle.len() {
                    assert(s.subrange(i, i + needle.len())[k - i] == s[k]);
                }
            }
        }
    }
    if exists|a: Seq<char>, b: Seq<char>| s == #[trigger] (a + needle + b) {
        let (a, b) = choose|a: Seq<char>, b: Seq<char>| s == #[trigger] (a + needle + b);
        assert(s.subrange(a.len() as int, a.len() as int + needle.len()) =~= needle);
        assert(text::occurs_at(s, needle, a.len() as int));
    }
}

/// Occurrences add up over the two parts of a text, and a single character
/// counts for itself alone.
pub proof fn occurrences_add_up(a: Seq<char>, b: Seq<char>, c: char, d: char)
    ensures
        text::count_char(a + b, c) == text::count_char(a, c) + text::count_char(b, c),
        text::count_char(seq![d], c) == if c == d {
            1nat
        } else {
            0nat
        },
    decreases b.len(),
{
    assert(seq![d].drop_last() =~= seq![]);
    assert(text::count_char(seq![d].drop_last(), c) == 0);
    if b.len() == 0 {
        assert(a + b =~= a);
    } else {
        assert((a + b).drop_last() =~= a + b.drop_last());
        occurrences_add_up(a, b.drop_last(), c, d);
    }
}

/// ASCII capitals become small letters, and all other ASCII characters stay.
pub proof fn ascii_is_lowered_letter_by_letter(s: Seq<char>, i: int)
    requires
        vstd::utf8::is_ascii_chars(s),
        0 <= i < s.len(),
    ensures
        text::lower(s).len() == s.len(),
        'A' <= s[i] <= 'Z' ==> text::lower(s)[i] as int == s[i] as int + 32,
        !('A' <= s[i] <= 'Z') ==> text::lower(s)[i] == s[i],
{
    lemma_ascii_lower(s[i]);
}

proof fn lemma_ascii_lower(c: char)
    ensures
        'A' <= c <= 'Z' ==> crate::std_text::ascii_lower(c) as int == c as int + 32,
        !('A' <= c <= 'Z') ==> crate::std_text::ascii_lower(c) == c,
{
}

/// The first place where two texts differ decides their order, and a text
/// comes before its continuations.
pub proof fn first_difference_decides(
    start: Seq<char>,
    x: char,
    y: char,
    a: Seq<char>,
    b: Seq<char>,
)
    ensures
        x < y ==> text::is_less(start.push(x) + a, start.push(y) + b),
        text::is_less(start, start.push(y) + b),
    decreases start.len(),
{
    let s = start.push(x) + a;
    let t = start.push(y) + b;
    if start.len() > 0 {
        first_difference_decides(start.skip(1), x, y, a, b);
        assert(s.skip(1) =~= start.skip(1).push(x) + a);
        assert(t.skip(1) =~= start.skip(1).push(y) + b);
    }
}

/// Among the ASCII characters, the space and those from the tab to the
/// carriage return are white space, and a to z and A to Z are letters.
pub proof fn ascii_white_space_and_letters(c: char)
    requires
        (c as int) < 0x80,
    ensures
        text::is_white_space(c) <==> c as int == 0x20 || 0x9 <= c as int <= 0xd,
        text::is_letter(c) <==> 0x41 <= c as int <= 0x5a || 0x61 <= c as int <= 0x7a,
{
}

/// Texts are taken from strings one for one.
pub proof fn texts_are_those_of_the_strings(a: Seq<String>, b: Seq<&str>)
    ensures
        text::string_texts(a).len() == a.len(),
        text::str_texts(b).len() == b.len(),
        forall|i: int| 0 <= i < a.len() ==> #[trigger] text::string_texts(a)[i] == a[i]@,
        forall|i: int| 0 <= i < b.len() ==> #[trigger] text::str_texts(b)[i] == b[i]@,
{
}

} // verus!
