//! Page-number anchors: from logical book pages to physical PDF pages.
use crate::numerals;
use crate::page_map;
use crate::text;
use crate::model::OutlineEntry;
use crate::numerals::{parse_roman, parse_u32};
use crate::page_map::PageNumberMap;
use crate::text::{equals, find_from, to_chars, to_text};
use vstd::prelude::*;
use vstd::slice::slice_subrange;

verus! {

/// The outline specification that a JSON file holds.
#[derive(Debug, Clone)]
pub struct OutlineSpec {
    pub arabic_start_logical: u32,
    pub arabic_start_pdf: u32,
    pub roman_start_logical: u32,
    pub roman_start_pdf: u32,
    pub outline: Vec<OutlineEntry>,
}

/// The value of an anchor that a JSON file leaves out.
pub fn one() -> (r: u32)
    ensures
        r == 1,
{
    1
}

/// Page-number mapping between logical (printed) book pages and physical PDF
/// pages.
pub struct PageMapping {
    pub arabic_start_logical: u32,
    pub arabic_start_pdf: u32,
    pub roman_start_logical: u32,
    pub roman_start_pdf: u32,
    /// Known pages of the Arabic-numbered body. They handle the blank-page
    /// discontinuities that the linear formula misses.
    pub page_map: PageNumberMap,
}

impl Default for PageMapping {
    fn default() -> (r: Self)
        ensures
            r.arabic_start_logical == 1,
            r.arabic_start_pdf == 1,
            r.roman_start_logical == 1,
            r.roman_start_pdf == 1,
            r.page_map@.len() == 0,
    {
        PageMapping {
            arabic_start_logical: 1,
            arabic_start_pdf: 1,
            roman_start_logical: 1,
            roman_start_pdf: 1,
            page_map: PageNumberMap::empty(),
        }
    }
}

impl Clone for PageMapping {
    fn clone(&self) -> (r: Self)
        ensures
            same_mapping(r, *self),
    {
        PageMapping {
            arabic_start_logical: self.arabic_start_logical,
            arabic_start_pdf: self.arabic_start_pdf,
            roman_start_logical: self.roman_start_logical,
            roman_start_pdf: self.roman_start_pdf,
            page_map: self.page_map.clone(),
        }
    }
}

impl PageMapping {
    /// Rebuilds the blank-page-aware map from raw page texts.
    ///
    /// Call this after editing `arabic_start_pdf` when the mapping came from
    /// [`crate::extract_toc`]. An empty slice drops the map entirely,
    /// which is right for outlines loaded from JSON, where only the linear
    /// formula applies.
    pub fn rebuild_page_map(&mut self, pages: &[String])
        ensures
            same_anchors(*final(self), *old(self)),
            final(self).page_map@ == if pages@.len() == 0 {
                Seq::<(u32, u32)>::empty()
            } else {
                page_map::sanitized(
                    page_map::page_index(
                        text::string_texts(pages@),
                        old(self).arabic_start_pdf,
                    ),
                )
            },
    {
        if pages.len() == 0 {
            self.page_map = PageNumberMap::empty();
        } else {
            let mut refs: Vec<&str> = Vec::new();
            let mut i: usize = 0;
            while i < pages.len()
                invariant
                    i <= pages@.len(),
                    refs@.len() == i,
                    forall|j: int| 0 <= j < i ==> #[trigger] refs@[j]@ == pages@[j]@,
                decreases pages@.len() - i,
            {
                refs.push(pages[i].as_str());
                i += 1;
            }
            proof {
                assert(text::str_texts(refs@) =~= text::string_texts(pages@));
            }
            self.page_map = PageNumberMap::build(refs.as_slice(), self.arabic_start_pdf);
        }
    }
}

/// Whether two mappings have the same four anchors.
pub open spec fn same_anchors(a: PageMapping, b: PageMapping) -> bool {
    &&& a.arabic_start_logical == b.arabic_start_logical
    &&& a.arabic_start_pdf == b.arabic_start_pdf
    &&& a.roman_start_logical == b.roman_start_logical
    &&& a.roman_start_pdf == b.roman_start_pdf
}

/// Whether two mappings have the same anchors and know the same pages.
pub open spec fn same_mapping(a: PageMapping, b: PageMapping) -> bool {
    same_anchors(a, b) && a.page_map@ == b.page_map@
}

/// The linear formula: pages are counted from the anchor, and a page that
/// would lie before the first one is page 0.
pub open spec fn linear_page(logical: u32, start_logical: u32, start_pdf: u32) -> u32 {
    let page = logical - start_logical + start_pdf;
    if page < 0 {
        0
    } else {
        numerals::wrap32(page)
    }
}

/// The PDF page of a logical page: by the Roman anchor for front matter, and
/// for the body by the page map. The Arabic anchor serves body pages outside
/// the map's range, behind its last page, and those for which the map knows
/// no answer.
pub open spec fn pdf_page_for(logical: u32, roman: bool, m: PageMapping) -> u32 {
    if roman {
        linear_page(logical, m.roman_start_logical, m.roman_start_pdf)
    } else if page_map::is_covered(m.page_map@, logical) {
        match page_map::lookup(m.page_map@, logical) {
            Some(page) => page,
            None => linear_page(logical, m.arabic_start_logical, m.arabic_start_pdf),
        }
    } else {
        linear_page(logical, m.arabic_start_logical, m.arabic_start_pdf)
    }
}

/// The PDF page that the linear formula gives.
fn linear(logical: u32, start_logical: u32, start_pdf: u32) -> (r: u32)
    ensures
        r == linear_page(logical, start_logical, start_pdf),
{
    let page: i64 = logical as i64 - start_logical as i64 + start_pdf as i64;
    if page < 0 {
        0
    } else {
        (page % 0x1_0000_0000) as u32
    }
}

/// The PDF page of a logical page.
pub fn compute_pdf_page(logical: u32, is_roman: bool, m: &PageMapping) -> (r: u32)
    ensures
        r == pdf_page_for(logical, is_roman, *m),
{
    if is_roman {
        return linear(logical, m.roman_start_logical, m.roman_start_pdf);
    }
    if m.page_map.covers(logical) {
        if let Some(pdf) = m.page_map.get_pdf_page(logical) {
            return pdf;
        }
    }
    linear(logical, m.arabic_start_logical, m.arabic_start_pdf)
}

/// Why a `logical:pdf` offset was refused.
#[derive(Debug)]
pub enum OffsetError {
    /// The whole text, which has no colon.
    MissingColon(String),
    /// The part before the colon, which is no page number.
    InvalidLogicalPage(String),
    /// The part behind the colon, which is no page number.
    InvalidPdfPage(String),
}

/// What an [`OffsetError`] says.
pub enum OffsetFault {
    MissingColon(Seq<char>),
    InvalidLogicalPage(Seq<char>),
    InvalidPdfPage(Seq<char>),
}

impl OffsetError {
    pub open spec fn view(&self) -> OffsetFault {
        match self {
            OffsetError::MissingColon(s) => OffsetFault::MissingColon(s@),
            OffsetError::InvalidLogicalPage(s) => OffsetFault::InvalidLogicalPage(s@),
            OffsetError::InvalidPdfPage(s) => OffsetFault::InvalidPdfPage(s@),
        }
    }
}

/// The page that a Roman or a decimal numeral names.
pub open spec fn logical_page(s: Seq<char>) -> Option<u32> {
    match numerals::roman(s) {
        Some(page) => Some(page),
        None => numerals::number(s),
    }
}

/// The two pages of a `logical:pdf` offset. The logical page is a Roman or a
/// decimal numeral; the PDF page is decimal.
pub open spec fn offset(s: Seq<char>) -> Result<(u32, u32), OffsetFault> {
    let n = text::find_char(s, ':') as int;
    if n >= s.len() {
        Err(OffsetFault::MissingColon(s))
    } else {
        let left = s.take(n);
        let right = s.skip(n + 1);
        match (logical_page(left), numerals::number(right)) {
            (None, _) => Err(OffsetFault::InvalidLogicalPage(left)),
            (Some(_), None) => Err(OffsetFault::InvalidPdfPage(right)),
            (Some(l), Some(p)) => Ok((l, p)),
        }
    }
}

/// Reads a Roman or a decimal numeral.
fn parse_logical_page(s: &[char]) -> (r: Option<u32>)
    ensures
        r == logical_page(s@),
{
    match parse_roman(s) {
        Some(page) => Some(page),
        None => parse_u32(s),
    }
}

/// Reads a `logical:pdf` offset.
pub fn parse_offset(s: &str) -> (r: Result<(u32, u32), OffsetError>)
    ensures
        match r {
            Ok(pages) => offset(s@) == Ok::<(u32, u32), OffsetFault>(pages),
            Err(e) => offset(s@) == Err::<(u32, u32), OffsetFault>(e@),
        },
{
    let chars = to_chars(s);
    let all = chars.as_slice();
    let n: usize = find_from(all, 0, ':');
    proof {
        assert(all@.skip(0) =~= all@);
    }
    if n >= all.len() {
        return Err(OffsetError::MissingColon(to_text(all)));
    }
    let left = slice_subrange(all, 0, n);
    let right = slice_subrange(all, n + 1, all.len());
    proof {
        assert(left@ =~= s@.take(n as int));
        assert(right@ =~= s@.skip(n + 1));
    }
    match parse_logical_page(left) {
        None => Err(OffsetError::InvalidLogicalPage(to_text(left))),
        Some(l) => match parse_u32(right) {
            None => Err(OffsetError::InvalidPdfPage(to_text(right))),
            Some(p) => Ok((l, p)),
        },
    }
}

/// The anchor that a command-line value leaves: `current` for the default
/// `1:1`, and the pages that the value names otherwise.
pub open spec fn overridden(current: (u32, u32), value: Seq<char>) -> Result<
    (u32, u32),
    OffsetFault,
> {
    if value == "1:1"@ {
        Ok(current)
    } else {
        offset(value)
    }
}

/// The Arabic anchor of a mapping: its logical and its PDF page.
pub open spec fn arabic_anchor(m: PageMapping) -> (u32, u32) {
    (m.arabic_start_logical, m.arabic_start_pdf)
}

/// The Roman anchor of a mapping: its logical and its PDF page.
pub open spec fn roman_anchor(m: PageMapping) -> (u32, u32) {
    (m.roman_start_logical, m.roman_start_pdf)
}

/// Overrides the mapping's page-number anchors with command-line values.
///
/// A value of `1:1`, the default, leaves that anchor untouched, so it
/// preserves the settings of a JSON file unless the user explicitly overrides
/// them. The Arabic value is read and applied first: when only the Roman one
/// is refused, the Arabic anchor is already overridden.
pub fn apply_anchor_overrides(
    mapping: &mut PageMapping,
    arabic_start: &str,
    roman_start: &str,
) -> (r: Result<(), OffsetError>)
    ensures
        final(mapping).page_map@ == old(mapping).page_map@,
        match overridden(arabic_anchor(*old(mapping)), arabic_start@) {
            Err(fault) => r matches Err(e) && e@ == fault && same_anchors(
                *final(mapping),
                *old(mapping),
            ),
            Ok(arabic) => arabic_anchor(*final(mapping)) == arabic && match overridden(
                roman_anchor(*old(mapping)),
                roman_start@,
            ) {
                Err(fault) => r matches Err(e) && e@ == fault && roman_anchor(*final(mapping))
                    == roman_anchor(*old(mapping)),
                Ok(roman) => r is Ok && roman_anchor(*final(mapping)) == roman,
            },
        },
{
    let arabic_chars = to_chars(arabic_start);
    let roman_chars = to_chars(roman_start);
    if !equals(arabic_chars.as_slice(), "1:1") {
        match parse_offset(arabic_start) {
            Ok((logical, pdf)) => {
                mapping.arabic_start_logical = logical;
                mapping.arabic_start_pdf = pdf;
            },
            Err(e) => {
                return Err(e);
            },
        }
    }
    if !equals(roman_chars.as_slice(), "1:1") {
        match parse_offset(roman_start) {
            Ok((logical, pdf)) => {
                mapping.roman_start_logical = logical;
                mapping.roman_start_pdf = pdf;
            },
            Err(e) => {
                return Err(e);
            },
        }
    }
    Ok(())
}

/// The entries and the mapping of an outline specification. The mapping uses
/// the anchors of the specification only; command-line overrides can be
/// applied afterwards with [`apply_anchor_overrides`].
pub fn outline_from_spec(spec: OutlineSpec) -> (r: (Vec<OutlineEntry>, PageMapping))
    ensures
        r.0@ == spec.outline@,
        arabic_anchor(r.1) == (spec.arabic_start_logical, spec.arabic_start_pdf),
        roman_anchor(r.1) == (spec.roman_start_logical, spec.roman_start_pdf),
        r.1.page_map@.len() == 0,
{
    let mapping = PageMapping {
        arabic_start_logical: spec.arabic_start_logical,
        arabic_start_pdf: spec.arabic_start_pdf,
        roman_start_logical: spec.roman_start_logical,
        roman_start_pdf: spec.roman_start_pdf,
        page_map: PageNumberMap::empty(),
    };
    (spec.outline, mapping)
}

} // verus!
