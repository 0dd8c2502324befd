//! What holds of printed page numbers and of the ways they lead to PDF pages.
use crate::mapping;
use crate::numerals;
use crate::page_map;
use crate::text;
use crate::text_laws;
use crate::mapping::{OffsetError, OffsetFault, PageMapping};
use vstd::prelude::*;

verus! {

/// The page number that a running header prints is one of the numbers among
/// its words.
pub proof fn header_number_is_printed(line: Seq<char>)
    requires
        page_map::header_number(line) is Some,
    ensures
        exists|i: int|
            0 <= i < text::words(line).len() && numerals::number(#[trigger] text::words(line)[i])
                == page_map::header_number(line),
{
    let words = text::words(line);
    let found = page_map::numbers(words);
    lemma_numbers_among(words);
    let n = page_map::header_number(line)->0;
    if numerals::number(words[0]) != Some(n) {
        assert(found.contains(n)) by {
            assert(found[found.len() - 1] == n);
        }
    }
}

proof fn lemma_numbers_among(words: Seq<Seq<char>>)
    ensures
        page_map::numbers(words).len() <= words.len(),
        forall|n: u32| #[trigger]
            page_map::numbers(words).contains(n) ==> exists|i: int|
                0 <= i < words.len() && numerals::number(#[trigger] words[i]) == Some(n),
    decreases words.len(),
{
    if words.len() > 0 {
        let before = words.drop_last();
        lemma_numbers_among(before);
        assert forall|n: u32| #[trigger] page_map::numbers(words).contains(n) implies exists|i: int|
            0 <= i < words.len() && numerals::number(#[trigger] words[i]) == Some(n) by {
            if numerals::number(words.last()) == Some(n) {
                assert(numerals::number(words[words.len() - 1]) == Some(n));
            } else {
                let k = page_map::numbers(words).index_of(n);
                assert(page_map::numbers(before)[k] == n);
                assert(page_map::numbers(before).contains(n));
                let i = choose|i: int|
                    0 <= i < before.len() && numerals::number(#[trigger] before[i]) == Some(n);
                assert(words[i] == before[i]);
            }
        }
    }
}

/// A header that shows nothing but a number up to 25 shows a chapter number,
/// and no page number.
pub proof fn lone_small_number_is_no_page(line: Seq<char>)
    requires
        text::words(line).len() == 1,
        numerals::number(text::words(line)[0]) matches Some(n) && n <= 25,
    ensures
        page_map::header_number(line) is None,
{
    let word = text::words(line)[0];
    if page_map::is_section_number(word) {
        let i = word.index_of('.');
        let digits = numerals::unsigned_digits(word);
        let k = if word[0] == '+' {
            i - 1
        } else {
            i
        };
        assert(digits[k] == '.');
        assert(numerals::is_digit(digits[k]));
    }
}

/// Whether the page `page`, counted from 1, is the first one from `body_start`
/// on that prints the number `logical`.
pub open spec fn is_first_with(
    pages: Seq<Seq<char>>,
    body_start: u32,
    logical: u32,
    page: u32,
) -> bool {
    &&& 1 <= page <= pages.len()
    &&& page >= body_start
    &&& page_map::page_number(pages[page - 1]) == Some(logical)
    &&& forall|q: int|
        1 <= q < page && q >= body_start ==> #[trigger] page_map::page_number(pages[q - 1])
            != Some(logical)
}

proof fn lemma_with_entry(entries: Seq<(u32, u32)>, logical: u32, pdf: u32)
    requires
        page_map::is_sorted(entries),
    ensures
        page_map::is_sorted(page_map::with_entry(entries, logical, pdf)),
        forall|e: (u32, u32)| #[trigger]
            page_map::with_entry(entries, logical, pdf).contains(e) <==> entries.contains(e) || (e
                == (logical, pdf) && !exists|i: int|
                0 <= i < entries.len() && #[trigger] entries[i].0 == logical),
{
    page_map::lemma_with_entry_sorted(entries, logical, pdf);
    page_map::lemma_entries_below_bound(entries, logical);
    let i = page_map::entries_below(entries, logical) as int;
    let after = page_map::with_entry(entries, logical, pdf);
    if i < entries.len() && entries[i].0 == logical {
        assert(after == entries);
    } else {
        assert forall|k: int| 0 <= k < entries.len() implies #[trigger] entries[k].0 != logical by {
            if k > i {
                assert(entries[i].0 < entries[k].0);
            }
        }
        assert forall|e: (u32, u32)| #[trigger] after.contains(e) <==> entries.contains(e) || e == (
            logical,
            pdf,
        ) by {
            if after.contains(e) {
                let k = after.index_of(e);
                if k < i {
                    assert(entries[k] == e);
                } else if k > i {
                    assert(entries[k - 1] == e);
                }
            }
            if entries.contains(e) {
                let k = entries.index_of(e);
                if k < i {
                    assert(after[k] == e);
                } else {
                    assert(after[k + 1] == e);
                }
            }
            assert(after[i] == (logical, pdf));
        }
    }
}

/// The index of the printed numbers is in strictly ascending order, and holds
/// each number that a page from `body_start` on prints with the first such
/// page, and nothing else.
pub proof fn page_index_holds_first_pages(pages: Seq<Seq<char>>, body_start: u32)
    requires
        pages.len() <= u32::MAX,
    ensures
        page_map::is_sorted(page_map::page_index(pages, body_start)),
        forall|logical: u32, page: u32|
            page_map::page_index(pages, body_start).contains((logical, page)) <==> #[trigger]
            is_first_with(pages, body_start, logical, page),
    decreases pages.len(),
{
    let index = page_map::page_index(pages, body_start);
    if pages.len() == 0 {
        assert(index =~= seq![]);
    } else {
        let before = pages.drop_last();
        let old_index = page_map::page_index(before, body_start);
        page_index_holds_first_pages(before, body_start);
        let pdf = pages.len() as u32;
        assert(pdf == numerals::wrap32(pages.len() as int));
        let number = page_map::page_number(pages.last());
        assert forall|l: u32, p: u32| p < pdf implies is_first_with(before, body_start, l, p)
            == #[trigger] is_first_with(pages, body_start, l, p) by {
            if 1 <= p {
                assert(before[p - 1] == pages[p - 1]);
                assert forall|q: int| 1 <= q < p implies #[trigger] page_map::page_number(
                    before[q - 1],
                ) == page_map::page_number(pages[q - 1]) by {}
                assert forall|q: int| 1 <= q < p implies #[trigger] page_map::page_number(
                    pages[q - 1],
                ) == page_map::page_number(before[q - 1]) by {}
            }
        }
        if number is Some && pdf >= body_start {
            lemma_with_entry(old_index, number->0, pdf);
        }
        assert forall|l: u32, p: u32|
            index.contains((l, p)) <==> #[trigger] is_first_with(pages, body_start, l, p) by {
            if p < pdf {
                assert(is_first_with(before, body_start, l, p) == is_first_with(
                    pages,
                    body_start,
                    l,
                    p,
                ));
            } else {
                assert(!is_first_with(before, body_start, l, p));
                if p == pdf && number == Some(l) && pdf >= body_start {
                    lemma_known_number(before, body_start, l);
                    if is_first_with(pages, body_start, l, pdf) {
                        assert forall|i: int|
                            0 <= i < old_index.len() implies #[trigger] old_index[i].0 != l by {
                            if old_index[i].0 == l {
                                let e = old_index[i];
                                assert(old_index.contains((e.0, e.1)));
                                assert(is_first_with(before, body_start, l, e.1));
                                assert(page_map::page_number(pages[e.1 - 1]) == Some(l));
                            }
                        }
                    } else {
                        let q = choose|q: int|
                            1 <= q < pdf && q >= body_start && #[trigger] page_map::page_number(
                                pages[q - 1],
                            ) == Some(l);
                        assert(before[q - 1] == pages[q - 1]);
                        assert(page_map::page_number(before[q - 1]) == Some(l));
                    }
                }
            }
        }
    }
}

/// A number that a page prints has an entry in the index.
proof fn lemma_known_number(pages: Seq<Seq<char>>, body_start: u32, logical: u32)
    requires
        pages.len() <= u32::MAX,
        page_map::is_sorted(page_map::page_index(pages, body_start)),
        forall|l: u32, p: u32|
            page_map::page_index(pages, body_start).contains((l, p)) <==> #[trigger] is_first_with(
                pages,
                body_start,
                l,
                p,
            ),
    ensures
        (exists|q: int|
            1 <= q <= pages.len() && q >= body_start && #[trigger] page_map::page_number(
                pages[q - 1],
            ) == Some(logical)) ==> exists|i: int|
            0 <= i < page_map::page_index(pages, body_start).len()
                && #[trigger] page_map::page_index(pages, body_start)[i].0 == logical,
{
    if exists|q: int|
        1 <= q <= pages.len() && q >= body_start && #[trigger] page_map::page_number(pages[q - 1])
            == Some(logical) {
        let q = choose|q: int|
            1 <= q <= pages.len() && q >= body_start && #[trigger] page_map::page_number(
                pages[q - 1],
            ) == Some(logical);
        let p = lemma_least(pages, body_start, logical, q);
        assert(is_first_with(pages, body_start, logical, p as u32));
        let index = page_map::page_index(pages, body_start);
        assert(index.contains((logical, p as u32)));
        let i = index.index_of((logical, p as u32));
        assert(index[i].0 == logical);
    }
}

proof fn lemma_least(pages: Seq<Seq<char>>, body_start: u32, logical: u32, q: int) -> (p: int)
    requires
        pages.len() <= u32::MAX,
        1 <= q <= pages.len(),
        q >= body_start,
        page_map::page_number(pages[q - 1]) == Some(logical),
    ensures
        0 <= p <= u32::MAX,
        is_first_with(pages, body_start, logical, p as u32),
    decreases q,
{
    if exists|r: int|
        1 <= r < q && r >= body_start && #[trigger] page_map::page_number(pages[r - 1]) == Some(
            logical,
        ) {
        let r = choose|r: int|
            1 <= r < q && r >= body_start && #[trigger] page_map::page_number(pages[r - 1])
                == Some(logical);
        lemma_least(pages, body_start, logical, r)
    } else {
        q
    }
}

/// Looking up a page that the map knows gives its PDF page.
pub proof fn known_page_is_found(entries: Seq<(u32, u32)>, logical: u32, page: u32)
    requires
        page_map::is_sorted(entries),
        entries.contains((logical, page)),
        page > 0,
    ensures
        page_map::lookup(entries, logical) == Some(page),
{
    let i = entries.index_of((logical, page));
    page_map::lemma_entries_below(entries, logical, i as nat);
}

/// A page that the map does not know is counted back from the next page that
/// it knows, which keeps the two as far apart in the PDF as in the book.
pub proof fn unknown_page_is_counted_back(entries: Seq<(u32, u32)>, i: int, logical: u32)
    requires
        page_map::is_sorted(entries),
        0 <= i < entries.len(),
        logical <= entries[i].0,
        i > 0 ==> entries[i - 1].0 < logical,
        entries[i].1 > entries[i].0 - logical,
    ensures
        page_map::lookup(entries, logical) matches Some(page) && entries[i].1 - page
            == entries[i].0 - logical,
{
    page_map::lemma_entries_below(entries, logical, i as nat);
}

/// Asked for a page behind all known pages, the map alone extends forward from
/// the last of them.
pub proof fn map_extends_forward(entries: Seq<(u32, u32)>, logical: u32)
    requires
        page_map::is_sorted(entries),
        entries.len() > 0,
        logical > entries.last().0,
        entries.last().1 + (logical - entries.last().0) <= u32::MAX,
    ensures
        page_map::lookup(entries, logical) matches Some(page) && page - entries.last().1 == logical
            - entries.last().0,
{
    page_map::lemma_entries_below(entries, logical, entries.len());
}

/// A body page that the map knows is mapped to its PDF page.
pub proof fn known_page_is_mapped(m: PageMapping, logical: u32, page: u32)
    requires
        page_map::is_sorted(m.page_map@),
        m.page_map@.contains((logical, page)),
        page > 0,
    ensures
        mapping::pdf_page_for(logical, false, m) == page,
{
    let entries = m.page_map@;
    let i = entries.index_of((logical, page));
    assert(entries[i].0 <= entries[entries.len() - 1].0);
    known_page_is_found(entries, logical, page);
}

/// A body page outside the map's range is counted from the Arabic anchor,
/// whatever the map knows.
pub proof fn page_outside_the_map_is_linear(m: PageMapping, logical: u32)
    requires
        m.page_map@.len() > 0 ==> logical > m.page_map@.last().0,
    ensures
        mapping::pdf_page_for(logical, false, m) == mapping::linear_page(
            logical,
            m.arabic_start_logical,
            m.arabic_start_pdf,
        ),
{
}

/// Sanitizing keeps exactly the entries whose offset is within 50 pages of
/// the median offset, if there are at least four, and all of them otherwise.
/// It keeps them in order.
pub proof fn sanitizing_keeps_consistent_entries(entries: Seq<(u32, u32)>)
    requires
        page_map::is_sorted(entries),
    ensures
        page_map::is_sorted(page_map::sanitized(entries)),
        forall|e: (u32, u32)| #[trigger]
            page_map::sanitized(entries).contains(e) <==> entries.contains(e) && (entries.len() < 4
                || page_map::is_consistent(e, page_map::median(page_map::offsets(entries)))),
{
    if entries.len() >= 4 {
        let middle = page_map::median(page_map::offsets(entries));
        let pred = |e: (u32, u32)| page_map::is_consistent(e, middle);
        page_map::lemma_filter_sorted(entries, pred);
        let kept = entries.filter(pred);
        assert(page_map::sanitized(entries) == kept);
        assert forall|e: (u32, u32)| #[trigger] kept.contains(e) <==> entries.contains(e) && pred(
            e,
        ) by {
            if kept.contains(e) {
                entries.lemma_filter_contains_rev(pred, e);
                entries.lemma_filter_pred(pred, kept.index_of(e));
            }
            if entries.contains(e) && pred(e) {
                entries.lemma_filter_contains(pred, entries.index_of(e));
            }
        }
    }
}

/// A body page is found by the number that it prints first of all pages,
/// unless its offset is far from the median of the others.
pub proof fn printed_page_is_found(
    pages: Seq<Seq<char>>,
    body_start: u32,
    logical: u32,
    page: u32,
)
    requires
        pages.len() <= u32::MAX,
        is_first_with(pages, body_start, logical, page),
        page_map::page_index(pages, body_start).len() < 4 || page_map::is_consistent(
            (logical, page),
            page_map::median(page_map::offsets(page_map::page_index(pages, body_start))),
        ),
    ensures
        page_map::lookup(
            page_map::sanitized(page_map::page_index(pages, body_start)),
            logical,
        ) == Some(page),
{
    let index = page_map::page_index(pages, body_start);
    page_index_holds_first_pages(pages, body_start);
    sanitizing_keeps_consistent_entries(index);
    assert(index.contains((logical, page)));
    assert(page_map::sanitized(index).contains((logical, page)));
    known_page_is_found(page_map::sanitized(index), logical, page);
}

/// The offset that more than half of the entries share is the median, so that
/// the pages they stand for survive sanitizing and headers with bogus numbers
/// far off do not.
pub proof fn common_offset_is_median(entries: Seq<(u32, u32)>, offset: i64)
    requires
        2 * page_map::offsets(entries).to_multiset().count(offset) > entries.len(),
    ensures
        page_map::median(page_map::offsets(entries)) == offset,
{
    broadcast use vstd::seq_lib::group_to_multiset_ensures, vstd::multiset::group_multiset_axioms;

    let all = page_map::offsets(entries);
    let sorted = page_map::ascending(all);
    page_map::ascending_sorts(all);
    let m = (all.len() / 2) as int;
    vstd::seq_lib::to_multiset_len(all);
    if sorted[m] < offset {
        let low = sorted.take(m + 1);
        let high = sorted.skip(m + 1);
        assert(low + high =~= sorted);
        vstd::seq_lib::lemma_multiset_commutative(low, high);
        if low.contains(offset) {
            let i = low.index_of(offset);
            assert(sorted[i] <= sorted[m]);
        }
        vstd::seq_lib::to_multiset_contains(low, offset);
        lemma_count_at_most_len(high, offset);
    } else if sorted[m] > offset {
        let low = sorted.take(m);
        let high = sorted.skip(m);
        assert(low + high =~= sorted);
        vstd::seq_lib::lemma_multiset_commutative(low, high);
        if high.contains(offset) {
            let i = high.index_of(offset);
            assert(sorted[m] <= sorted[m + i]);
        }
        vstd::seq_lib::to_multiset_contains(high, offset);
        lemma_count_at_most_len(low, offset);
    }
}

proof fn lemma_count_at_most_len(s: Seq<i64>, x: i64)
    ensures
        s.to_multiset().count(x) <= s.len(),
    decreases s.len(),
{
    broadcast use vstd::seq_lib::group_to_multiset_ensures, vstd::multiset::group_multiset_axioms;

    if s.len() > 0 {
        lemma_count_at_most_len(s.drop_last(), x);
        assert(s =~= s.drop_last().push(s.last()));
        vstd::seq_lib::to_multiset_build(s.drop_last(), s.last());
    }
}

/// The linear formula sends the logical page of an anchor to its PDF page,
/// and keeps two pages as far apart in the PDF as they are in the book.
pub proof fn pages_are_counted_from_the_anchor(logical: u32, start_logical: u32, start_pdf: u32)
    requires
        0 <= logical - start_logical + start_pdf <= u32::MAX,
    ensures
        mapping::linear_page(start_logical, start_logical, start_pdf) == start_pdf,
        mapping::linear_page(logical, start_logical, start_pdf) - start_pdf == logical
            - start_logical,
{
}

/// Roman pages never depend on the Arabic anchor nor on the page map, and
/// where the map is empty body pages depend on the Arabic anchor alone.
pub proof fn anchors_are_independent(logical: u32, a: PageMapping, b: PageMapping)
    ensures
        mapping::roman_anchor(a) == mapping::roman_anchor(b) ==> mapping::pdf_page_for(
            logical,
            true,
            a,
        ) == mapping::pdf_page_for(logical, true, b),
        mapping::arabic_anchor(a) == mapping::arabic_anchor(b) && a.page_map@.len() == 0
            && b.page_map@.len() == 0 ==> mapping::pdf_page_for(logical, false, a)
            == mapping::pdf_page_for(logical, false, b),
{
}

/// The default value of a command-line anchor leaves the anchor as it is.
pub proof fn default_override_keeps_anchor(current: (u32, u32))
    ensures
        mapping::overridden(current, "1:1"@) == Ok::<(u32, u32), OffsetFault>(current),
{
}

/// Two pages written in decimal with a colon between them are read back.
pub proof fn decimal_offset_is_read_back(logical: u32, pdf: u32)
    ensures
        mapping::offset(
            numerals::decimal_digits(logical as nat).push(':') + numerals::decimal_digits(
                pdf as nat,
            ),
        ) == Ok::<(u32, u32), OffsetFault>((logical, pdf)),
{
    let left = numerals::decimal_digits(logical as nat);
    let right = numerals::decimal_digits(pdf as nat);
    let s = left.push(':') + right;
    numerals::decimal_round_trip(logical as nat);
    numerals::decimal_round_trip(pdf as nat);
    assert forall|j: int| 0 <= j < left.len() implies s[j] != ':' by {
        assert(s[j] == left[j]);
        assert(numerals::is_digit(left[j]));
    }
    text::lemma_find_char(s, ':', left.len());
    assert(s.take(left.len() as int) =~= left);
    assert(s.skip(left.len() as int + 1) =~= right);
    assert(numerals::is_digit(left[0]));
    assert(numerals::roman_digit(left[0]) == 0);
}

/// A Roman numeral with a colon and a decimal page behind it is read back.
pub proof fn roman_offset_is_read_back(numeral: Seq<char>, pdf: u32)
    requires
        numerals::is_roman(numeral),
    ensures
        mapping::offset(numeral.push(':') + numerals::decimal_digits(pdf as nat)) == Ok::<
            (u32, u32),
            OffsetFault,
        >((numerals::roman(numeral)->0, pdf)),
{
    let right = numerals::decimal_digits(pdf as nat);
    let s = numeral.push(':') + right;
    numerals::decimal_round_trip(pdf as nat);
    assert forall|j: int| 0 <= j < numeral.len() implies s[j] != ':' by {
        assert(s[j] == numeral[j]);
        assert(numerals::roman_digit(numeral[j]) > 0);
    }
    text::lemma_find_char(s, ':', numeral.len());
    assert(s.take(numeral.len() as int) =~= numeral);
    assert(s.skip(numeral.len() as int + 1) =~= right);
}

/// Whether the word at `k` is the last of the words that is a number.
spec fn is_last_number(words: Seq<Seq<char>>, k: int) -> bool {
    &&& 0 <= k < words.len()
    &&& numerals::number(words[k]) is Some
    &&& forall|j: int| k < j < words.len() ==> numerals::number(#[trigger] words[j]) is None
}

proof fn lemma_last_number(words: Seq<Seq<char>>, k: int)
    requires
        is_last_number(words, k),
    ensures
        page_map::numbers(words) == page_map::numbers(words.take(k)).push(
            numerals::number(words[k])->0,
        ),
    decreases words.len(),
{
    let before = words.drop_last();
    if k < before.len() {
        assert forall|j: int| k < j < before.len() implies numerals::number(#[trigger] before[j])
            is None by {
            assert(numerals::number(words[j]) is None);
        }
        assert(before[k] == words[k]);
        lemma_last_number(before, k);
        assert(before.take(k) =~= words.take(k));
        assert(numerals::number(words[words.len() - 1]) is None);
    } else {
        assert(before =~= words.take(k));
    }
}

proof fn lemma_no_numbers(words: Seq<Seq<char>>)
    requires
        forall|j: int| 0 <= j < words.len() ==> numerals::number(#[trigger] words[j]) is None,
    ensures
        page_map::numbers(words).len() == 0,
    decreases words.len(),
{
    if words.len() > 0 {
        assert forall|j: int| 0 <= j < words.drop_last().len() implies numerals::number(
            #[trigger] words.drop_last()[j],
        ) is None by {
            assert(numerals::number(words[j]) is None);
        }
        lemma_no_numbers(words.drop_last());
        assert(numerals::number(words[words.len() - 1]) is None);
    }
}

proof fn lemma_first_is_a_number(words: Seq<Seq<char>>)
    requires
        words.len() > 0,
        numerals::number(words[0]) is Some,
    ensures
        page_map::numbers(words).len() > 0,
    decreases words.len(),
{
    if words.len() > 1 {
        lemma_first_is_a_number(words.drop_last());
    } else {
        assert(words.last() == words[0]);
    }
}

proof fn lemma_numbers_have_no_dots(word: Seq<char>)
    requires
        numerals::number(word) is Some,
    ensures
        !page_map::is_section_number(word),
{
    if word.contains('.') {
        let i = word.index_of('.');
        let digits = numerals::unsigned_digits(word);
        let k = if word[0] == '+' {
            i - 1
        } else {
            i
        };
        assert(digits[k] == '.');
        assert(numerals::is_digit(digits[k]));
    }
}

/// A header without any number shows no page.
pub proof fn header_without_numbers_has_no_page(line: Seq<char>)
    requires
        forall|j: int|
            0 <= j < text::words(line).len() ==> numerals::number(#[trigger] text::words(line)[j])
                is None,
    ensures
        page_map::header_number(line) is None,
{
    lemma_no_numbers(text::words(line));
}

/// A header that starts with text or with a section number shows its page
/// last: the page is the number behind which no other number follows.
pub proof fn header_that_starts_with_text_ends_with_its_page(line: Seq<char>, k: int)
    requires
        0 < k < text::words(line).len(),
        numerals::number(text::words(line)[0]) is None,
        numerals::number(text::words(line)[k]) is Some,
        forall|j: int|
            k < j < text::words(line).len() ==> numerals::number(#[trigger] text::words(line)[j])
                is None,
    ensures
        page_map::header_number(line) == numerals::number(text::words(line)[k]),
{
    lemma_last_number(text::words(line), k);
}

/// A header that starts with a number above 25, on a line without a
/// cross-reference bar, shows its page first, whatever numbers follow.
pub proof fn header_may_start_with_its_page(line: Seq<char>)
    requires
        text::words(line).len() > 0,
        numerals::number(text::words(line)[0]) matches Some(n) && n > 25,
        !line.contains('|'),
    ensures
        page_map::header_number(line) == numerals::number(text::words(line)[0]),
{
    let words = text::words(line);
    lemma_numbers_have_no_dots(words[0]);
    lemma_first_is_a_number(words);
}

/// A header whose only number comes first shows it as its page, unless it is
/// a lone number up to 25.
pub proof fn header_with_one_number_in_front_shows_it(line: Seq<char>)
    requires
        text::words(line).len() > 0,
        numerals::number(text::words(line)[0]) matches Some(n) && (n > 25 || text::words(line).len()
            > 1),
        forall|j: int|
            0 < j < text::words(line).len() ==> numerals::number(#[trigger] text::words(line)[j])
                is None,
    ensures
        page_map::header_number(line) == numerals::number(text::words(line)[0]),
{
    let words = text::words(line);
    lemma_numbers_have_no_dots(words[0]);
    lemma_last_number(words, 0);
    assert(words.take(0) =~= seq![]);
    assert(page_map::numbers(words.take(0)).len() == 0);
}

/// A header that starts with a cross-reference shows its page last: a number
/// up to 25, or any number on a line with a bar, if another number follows.
pub proof fn header_with_a_cross_reference_ends_with_its_page(line: Seq<char>, k: int)
    requires
        0 < k < text::words(line).len(),
        numerals::number(text::words(line)[0]) matches Some(n) && (n <= 25 || line.contains('|')),
        numerals::number(text::words(line)[k]) is Some,
        forall|j: int|
            k < j < text::words(line).len() ==> numerals::number(#[trigger] text::words(line)[j])
                is None,
    ensures
        page_map::header_number(line) == numerals::number(text::words(line)[k]),
{
    let words = text::words(line);
    lemma_numbers_have_no_dots(words[0]);
    lemma_last_number(words, k);
    assert(words.take(k)[0] == words[0]);
    lemma_first_is_a_number(words.take(k));
}

/// A page shows its number on the first line that holds text: what follows
/// that line does not matter, and a blank page shows none.
pub proof fn first_line_alone_shows_the_page(page: Seq<char>)
    ensures
        text::trim(page).len() == 0 ==> page_map::page_number(page) is None,
        text::trim(page).len() > 0 ==> text::lines(text::trim(page)).len() > 0
            && page_map::page_number(page) == page_map::page_number(
            text::lines(text::trim(page))[0],
        ),
        !page.contains('\n') && text::trim(page).len() > 0 ==> page_map::page_number(page)
            == page_map::header_number(text::trim(page)),
{
    let body = text::trim(page);
    if body.len() > 0 {
        let n = text::find_char(body, '\n') as int;
        let line = text::lines(body)[0];
        lemma_first_line(body);
        lemma_one_line(line);
        if !page.contains('\n') {
            lemma_one_line(page);
        }
    }
}

proof fn lemma_before_line_feed(s: Seq<char>)
    ensures
        text::find_char(s, '\n') <= s.len(),
        forall|i: int| 0 <= i < text::find_char(s, '\n') ==> s[i] != '\n',
    decreases s.len(),
{
    if s.len() > 0 && s[0] != '\n' {
        let rest = s.skip(1);
        lemma_before_line_feed(rest);
        assert forall|i: int| 0 <= i < text::find_char(s, '\n') implies s[i] != '\n' by {
            if i > 0 {
                assert(s[i] == rest[i - 1]);
            }
        }
    }
}

proof fn lemma_first_line(s: Seq<char>)
    requires
        s.len() > 0,
    ensures
        text::lines(s).len() > 0,
        !text::lines(s)[0].contains('\n'),
{
    lemma_before_line_feed(s);
}

proof fn lemma_one_line(s: Seq<char>)
    requires
        !s.contains('\n'),
    ensures
        page_map::page_number(s) == if text::trim(s).len() == 0 {
            None
        } else {
            page_map::header_number(text::trim(s))
        },
        text::trim(s).len() == 0 ==> page_map::header_number(text::trim(s)) is None,
{
    let t = text::trim(s);
    let ends = text_laws::trimming_takes_white_space_only(s);
    text_laws::trimming_is_done_once(s);
    assert(!t.contains('\n')) by {
        if t.contains('\n') {
            let i = t.index_of('\n');
            assert(s[ends.0.len() + i] == '\n');
        }
    }
    text_laws::lines_end_at_line_feeds(t, seq![]);
    if t.len() == 0 {
        assert(text::words(t) =~= seq![]);
        lemma_no_numbers(text::words(t));
    }
}

proof fn lemma_filter_insert(s: Seq<i64>, i: int, x: i64, p: spec_fn(i64) -> bool)
    requires
        0 <= i <= s.len(),
    ensures
        s.insert(i, x).filter(p).len() == s.filter(p).len() + if p(x) {
            1nat
        } else {
            0nat
        },
{
    let a = s.take(i);
    let b = s.skip(i);
    assert(s =~= a + b);
    assert(s.insert(i, x) =~= a.push(x) + b);
    Seq::filter_distributes_over_add(a, b, p);
    Seq::filter_distributes_over_add(a.push(x), b, p);
    a.lemma_filter_len_push(p, x);
}

proof fn lemma_ascending_filter(s: Seq<i64>, p: spec_fn(i64) -> bool)
    ensures
        page_map::ascending(s).filter(p).len() == s.filter(p).len(),
    decreases s.len(),
{
    if s.len() > 0 {
        let before = s.drop_last();
        let sorted = page_map::ascending(before);
        lemma_ascending_filter(before, p);
        page_map::lemma_numbers_below_bound(sorted, s.last());
        lemma_filter_insert(
            sorted,
            page_map::numbers_below(sorted, s.last()) as int,
            s.last(),
            p,
        );
        before.lemma_filter_len_push(p, s.last());
        assert(s =~= before.push(s.last()));
    } else {
        assert(page_map::ascending(s) =~= s);
    }
}

proof fn lemma_all_pass(s: Seq<i64>, p: spec_fn(i64) -> bool)
    requires
        forall|i: int| 0 <= i < s.len() ==> p(#[trigger] s[i]),
    ensures
        s.filter(p).len() == s.len(),
    decreases s.len(),
{
    if s.len() > 0 {
        let before = s.drop_last();
        assert forall|i: int| 0 <= i < before.len() implies p(#[trigger] before[i]) by {
            assert(p(s[i]));
        }
        lemma_all_pass(before, p);
        before.lemma_filter_len_push(p, s.last());
        assert(s =~= before.push(s.last()));
        assert(p(s[s.len() - 1]));
    } else {
        reveal(Seq::filter);
    }
}

proof fn lemma_none_passes(s: Seq<i64>, p: spec_fn(i64) -> bool)
    requires
        forall|i: int| 0 <= i < s.len() ==> !p(#[trigger] s[i]),
    ensures
        s.filter(p).len() == 0,
    decreases s.len(),
{
    if s.len() > 0 {
        let before = s.drop_last();
        assert forall|i: int| 0 <= i < before.len() implies !p(#[trigger] before[i]) by {
            assert(!p(s[i]));
        }
        lemma_none_passes(before, p);
        before.lemma_filter_len_push(p, s.last());
        assert(s =~= before.push(s.last()));
        assert(!p(s[s.len() - 1]));
    } else {
        reveal(Seq::filter);
    }
}

/// The median is one of the numbers. At most half of them are less, and more
/// than half are not greater.
pub proof fn median_is_in_the_middle(s: Seq<i64>)
    requires
        s.len() > 0,
    ensures
        s.contains(page_map::median(s)),
        2 * s.filter(|x: i64| x < page_map::median(s)).len() <= s.len(),
        2 * s.filter(|x: i64| x <= page_map::median(s)).len() > s.len(),
{
    let t = page_map::ascending(s);
    let k = (s.len() / 2) as int;
    page_map::ascending_sorts(s);
    let m = page_map::median(s);
    let less = |x: i64| x < page_map::median(s);
    let most = |x: i64| x <= page_map::median(s);
    assert(t.contains(m)) by {
        assert(t[k] == m);
    }
    vstd::seq_lib::to_multiset_contains(t, m);
    vstd::seq_lib::to_multiset_contains(s, m);
    lemma_ascending_filter(s, less);
    lemma_ascending_filter(s, most);
    let a = t.take(k);
    let b = t.skip(k);
    assert(t =~= a + b);
    Seq::filter_distributes_over_add(a, b, less);
    lemma_none_passes(b, less);
    a.lemma_filter_len(less);
    let c = t.take(k + 1);
    let d = t.skip(k + 1);
    assert(t =~= c + d);
    Seq::filter_distributes_over_add(c, d, most);
    lemma_all_pass(c, most);
}

/// A mapping's map of fewer than four pages is left as it is. From four on,
/// exactly the pages stay whose distance from their printed number is within
/// 50 of the median distance.
pub proof fn pages_within_fifty_of_the_median_stay(entries: Seq<(u32, u32)>, e: (u32, u32))
    requires
        page_map::is_sorted(entries),
        entries.contains(e),
    ensures
        ({
            let distances = entries.map_values(|x: (u32, u32)| (x.1 as int - x.0 as int) as i64);
            let away = e.1 as int - e.0 as int - page_map::median(distances) as int;
            page_map::sanitized(entries).contains(e) <==> entries.len() < 4 || -50 <= away <= 50
        }),
        forall|x: (u32, u32)|
            page_map::sanitized(entries).contains(x) ==> #[trigger] entries.contains(x),
{
    sanitizing_keeps_consistent_entries(entries);
    assert(entries.map_values(|x: (u32, u32)| (x.1 as int - x.0 as int) as i64)
        =~= page_map::offsets(entries));
    assert forall|x: (u32, u32)| page_map::sanitized(entries).contains(x) implies #[trigger]
    entries.contains(x) by {
        assert(page_map::sanitized(entries).contains(x));
    }
}

/// The PDF page of a Roman page, in plain arithmetic: as far behind the anchor
/// as in the book, and 0 where that would lie before the first page.
pub proof fn roman_pages_are_counted_from_the_roman_anchor(m: PageMapping, logical: u32)
    ensures
        ({
            let page = logical as int - m.roman_start_logical as int + m.roman_start_pdf as int;
            &&& page < 0 ==> mapping::pdf_page_for(logical, true, m) == 0
            &&& 0 <= page <= u32::MAX ==> mapping::pdf_page_for(logical, true, m) == page
        }),
{
}

/// The PDF page of a body page that the map gives no answer for, in plain
/// arithmetic: behind the last page of the map, without a map, or where
/// counting back from the next page of the map leads before the first page.
pub proof fn other_body_pages_are_counted_from_the_arabic_anchor(m: PageMapping, logical: u32)
    requires
        page_map::is_sorted(m.page_map@),
        forall|i: int| 0 <= i < m.page_map@.len() ==> #[trigger] m.page_map@[i].1 > 0,
        forall|i: int|
            0 <= i < m.page_map@.len() && #[trigger] m.page_map@[i].0 >= logical && (i > 0
                ==> m.page_map@[i - 1].0 < logical) ==> m.page_map@[i].1 + logical
                <= m.page_map@[i].0,
    ensures
        ({
            let page = logical as int - m.arabic_start_logical as int + m.arabic_start_pdf as int;
            &&& page < 0 ==> mapping::pdf_page_for(logical, false, m) == 0
            &&& 0 <= page <= u32::MAX ==> mapping::pdf_page_for(logical, false, m) == page
        }),
{
    let entries = m.page_map@;
    let linear = mapping::linear_page(logical, m.arabic_start_logical, m.arabic_start_pdf);
    if page_map::is_covered(entries, logical) {
        let n = entries.len() - 1;
        page_map::lemma_entries_below_bound(entries, logical);
        let i = page_map::entries_below(entries, logical) as int;
        if i > n {
            assert(entries[n].0 < logical);
        }
        assert(entries[i].0 >= logical);
        assert(i > 0 ==> entries[i - 1].0 < logical);
        assert(entries[i].1 + logical <= entries[i].0);
        assert(entries[i].1 > 0);
        assert(i < n ==> entries[i].0 < entries[n].0);
        assert(logical < entries[n].0);
        assert(page_map::lookup(entries, logical) is None);
    }
    assert(mapping::pdf_page_for(logical, false, m) == linear);
    let page = logical as int - m.arabic_start_logical as int + m.arabic_start_pdf as int;
    if 0 <= page <= u32::MAX {
        assert(page % 0x1_0000_0000 == page);
    }
}

/// The PDF page of a body page that the map answers for, in plain arithmetic:
/// as far before the next page of the map as in the book.
pub proof fn body_pages_are_counted_back_in_the_map(m: PageMapping, logical: u32, i: int)
    requires
        page_map::is_sorted(m.page_map@),
        0 <= i < m.page_map@.len(),
        logical <= m.page_map@[i].0,
        i > 0 ==> m.page_map@[i - 1].0 < logical,
        m.page_map@[i].1 + logical > m.page_map@[i].0,
    ensures
        mapping::pdf_page_for(logical, false, m) == m.page_map@[i].1 as int - (m.page_map@[i].0
            - logical),
{
    let entries = m.page_map@;
    assert(entries[i].0 <= entries[entries.len() - 1].0);
    unknown_page_is_counted_back(entries, i, logical);
}

/// An offset is taken apart at its first colon: the page before it is Roman or
/// decimal, the one behind it decimal, and the first one that cannot be read
/// is refused. A text without a colon is refused as a whole.
pub proof fn offsets_are_taken_apart_at_the_first_colon(left: Seq<char>, right: Seq<char>)
    requires
        !left.contains(':'),
    ensures
        mapping::offset(left) == Err::<(u32, u32), OffsetFault>(OffsetFault::MissingColon(left)),
        ({
            let before = match numerals::roman(left) {
                Some(n) => Some(n),
                None => numerals::number(left),
            };
            mapping::offset(left.push(':') + right) == if before is None {
                Err::<(u32, u32), OffsetFault>(OffsetFault::InvalidLogicalPage(left))
            } else if numerals::number(right) is None {
                Err::<(u32, u32), OffsetFault>(OffsetFault::InvalidPdfPage(right))
            } else {
                Ok::<(u32, u32), OffsetFault>((before->0, numerals::number(right)->0))
            }
        }),
{
    let s = left.push(':') + right;
    assert forall|j: int| 0 <= j < left.len() implies left[j] != ':' by {
        assert(left.contains(left[j]));
    }
    assert forall|j: int| 0 <= j < left.len() implies s[j] != ':' by {
        assert(s[j] == left[j]);
    }
    text::lemma_find_char(left, ':', left.len());
    text::lemma_find_char(s, ':', left.len());
    assert(s.take(left.len() as int) =~= left);
    assert(s.skip(left.len() as int + 1) =~= right);
}

/// A command-line value other than the default is read as an offset.
pub proof fn other_overrides_are_read(current: (u32, u32), value: Seq<char>)
    requires
        value != "1:1"@,
    ensures
        mapping::overridden(current, value) == mapping::offset(value),
{
}

/// The anchors of a mapping are its fields, and mappings are the same when all
/// anchors and the known pages are.
pub proof fn anchors_are_the_fields(a: PageMapping, b: PageMapping)
    ensures
        mapping::arabic_anchor(a) == (a.arabic_start_logical, a.arabic_start_pdf),
        mapping::roman_anchor(a) == (a.roman_start_logical, a.roman_start_pdf),
        mapping::same_anchors(a, b) <==> a.arabic_start_logical == b.arabic_start_logical
            && a.arabic_start_pdf == b.arabic_start_pdf && a.roman_start_logical
            == b.roman_start_logical && a.roman_start_pdf == b.roman_start_pdf,
        mapping::same_mapping(a, b) <==> mapping::same_anchors(a, b) && a.page_map@ == b.page_map@,
{
}

/// An offset error says which part of the offset was refused, and how that
/// part reads.
pub proof fn offset_errors_say_what_was_refused(e: OffsetError)
    ensures
        e matches OffsetError::MissingColon(s) ==> e@ == OffsetFault::MissingColon(s@),
        e matches OffsetError::InvalidLogicalPage(s) ==> e@ == OffsetFault::InvalidLogicalPage(s@),
        e matches OffsetError::InvalidPdfPage(s) ==> e@ == OffsetFault::InvalidPdfPage(s@),
{
}

} // verus!
