//! Discovery of the column margins that a screenplay's pages use.

use vstd::prelude::*;
use crate::geom::{PageData, RawTextItem, ratio_above, ratio_below};
use std::collections::BTreeMap;
use crate::text::{
    CharClass, all_digits, chars_of, has_infix, has_prefix, lowercase_of, parse_unsigned,
    parse_unsigned_spec, to_lowercase, to_uppercase, trim, trim_class, uppercase_of,
};

verus! {

broadcast use vstd::laws_cmp::group_laws_cmp;

/// The left edges of the screenplay columns, each in percent of the page width.
#[derive(Debug, Clone, Copy, PartialEq, Eq, Structural)]
pub struct LayoutProfile {
    pub action_x: u32,
    pub dialogue_x: u32,
    pub parenthetical_x: u32,
    pub character_x: u32,
    pub transition_x: u32,
}

/// The margins of a standard screenplay page.
pub open spec fn default_profile() -> LayoutProfile {
    LayoutProfile {
        action_x: 18,
        dialogue_x: 30,
        parenthetical_x: 37,
        character_x: 44,
        transition_x: 80,
    }
}

impl Default for LayoutProfile {
    fn default() -> (p: Self)
        ensures
            p == default_profile(),
    {
        LayoutProfile {
            action_x: 18,
            dialogue_x: 30,
            parenthetical_x: 37,
            character_x: 44,
            transition_x: 80,
        }
    }
}

/// The text, once white space and dots are stripped from its ends, reads as a `u32`.
pub open spec fn page_number_text(s: Seq<char>) -> bool {
    parse_unsigned_spec(trim(s, CharClass::SpaceDot), 10, u32::MAX as nat) is Some
}

/// The text, once white space and dots are stripped from its ends, is a non-empty run of
/// ASCII digits.
pub open spec fn pure_number_text(s: Seq<char>) -> bool {
    let c = trim(s, CharClass::SpaceDot);
    c.len() > 0 && all_digits(c)
}

pub fn page_number_chars(s: &[char]) -> (r: bool)
    ensures
        r == page_number_text(s@),
{
    let clean = trim_class(s, CharClass::SpaceDot);
    parse_unsigned(&clean, 10, 0xffff_ffff).is_some()
}

/// Whether a line reads as a page number such as `12` or ` 42. `.
pub fn is_page_number(s: &str) -> (r: bool)
    ensures
        r == page_number_text(s@),
{
    page_number_chars(&chars_of(s))
}

pub fn pure_number_chars(s: &[char]) -> (r: bool)
    ensures
        r == pure_number_text(s@),
{
    let clean = trim_class(s, CharClass::SpaceDot);
    if clean.len() == 0 {
        return false;
    }
    let mut i: usize = 0;
    while i < clean.len()
        invariant
            0 <= i <= clean.len(),
            clean@ == trim(s@, CharClass::SpaceDot),
            forall|j: int| 0 <= j < i ==> crate::text::is_digit(#[trigger] clean@[j]),
        decreases clean.len() - i,
    {
        if !crate::text::ascii_digit(clean[i]) {
            return false;
        }
        i = i + 1;
    }
    true
}

/// Whether a line is made only of digits, apart from white space and dots at its ends.
pub fn is_pure_number(s: &str) -> (r: bool)
    ensures
        r == pure_number_text(s@),
{
    pure_number_chars(&chars_of(s))
}


/// Sum of the `y` positions of the lines.
pub open spec fn sum_y(lines: Seq<RawTextItem>) -> int
    decreases lines.len(),
{
    if lines.len() == 0 {
        0
    } else {
        sum_y(lines.drop_last()) + lines.last().y
    }
}

/// A lowercased line that names an author or a draft.
pub open spec fn credit_words(low: Seq<char>) -> bool {
    has_infix(low, "written by"@) || has_infix(low, "draft"@) || has_infix(low, "by:"@) || has_infix(
        low,
        "author"@,
    )
}

/// Whether a page looks like a title page: the first page, with some lines and none that
/// begins a scene heading, at most twelve lines, and either a credit line or lines whose
/// average height lies between 200 and 600 points.
pub open spec fn likely_title_page(page: PageData) -> bool {
    let lines = page.lines@;
    &&& page.page_number <= 1
    &&& lines.len() > 0
    &&& forall|i: int| 0 <= i < lines.len() ==> !crate::fsm::heading_prefix(
        uppercase_of(#[trigger] lines[i].text@),
    )
    &&& lines.len() <= 12
    &&& ((exists|i: int| 0 <= i < lines.len() && credit_words(lowercase_of(#[trigger] lines[i].text@)))
        || (20000 * lines.len() < sum_y(lines) && sum_y(lines) < 60000 * lines.len()))
}

/// Whether a page looks like a title page.
pub fn is_likely_title_page(page: &PageData) -> (r: bool)
    ensures
        r == likely_title_page(*page),
{
    if page.page_number > 1 {
        return false;
    }
    let n = page.lines.len();
    if n == 0 {
        return false;
    }
    let mut i: usize = 0;
    while i < n
        invariant
            0 <= i <= n,
            n == page.lines@.len(),
            forall|j: int| 0 <= j < i ==> !crate::fsm::heading_prefix(
                uppercase_of(#[trigger] page.lines@[j].text@),
            ),
        decreases n - i,
    {
        let up = to_uppercase(&chars_of(page.lines[i].text.as_str()));
        if crate::fsm::heading_prefix_chars(&up) {
            return false;
        }
        i = i + 1;
    }
    if n > 12 {
        return false;
    }
    let mut k: usize = 0;
    while k < n
        invariant
            0 < n <= 12,
            0 <= k <= n,
            page.page_number <= 1,
            n == page.lines@.len(),
            forall|j: int| 0 <= j < k ==> !credit_words(lowercase_of(#[trigger] page.lines@[j].text@)),
            forall|j: int| 0 <= j < n ==> !crate::fsm::heading_prefix(
                uppercase_of(#[trigger] page.lines@[j].text@),
            ),
        decreases n - k,
    {
        let low = to_lowercase(&chars_of(page.lines[k].text.as_str()));
        if crate::text::contains_str(&low, "written by") || crate::text::contains_str(&low, "draft")
            || crate::text::contains_str(&low, "by:") || crate::text::contains_str(&low, "author") {
            return true;
        }
        k = k + 1;
    }
    let mut sum: i64 = 0;
    let mut m: usize = 0;
    while m < n
        invariant
            0 <= m <= n <= 12,
            n == page.lines@.len(),
            0 < n,
            page.page_number <= 1,
            forall|j: int| 0 <= j < n ==> !credit_words(lowercase_of(#[trigger] page.lines@[j].text@)),
            forall|j: int| 0 <= j < n ==> !crate::fsm::heading_prefix(
                uppercase_of(#[trigger] page.lines@[j].text@),
            ),
            sum == sum_y(page.lines@.take(m as int)),
            -0x8000_0000 * m <= sum <= 0x8000_0000 * m,
        decreases n - m,
    {
        assert(page.lines@.take(m + 1).drop_last() =~= page.lines@.take(m as int));
        sum = sum + page.lines[m].y as i64;
        m = m + 1;
    }
    assert(page.lines@.take(n as int) =~= page.lines@);
    20000 * (n as i64) < sum && sum < 60000 * (n as i64)
}


/// `100 x / w` rounded to the nearest integer, halves away from zero (for `x, w > 0`).
pub open spec fn round_percent(x: int, w: int) -> int {
    (200 * x + w) / (2 * w)
}

/// The histogram bucket of a line on a page of positive width, when the line counts towards
/// the margins: lines that are page or scene numbers, and lines left of 13% or right of 90% of
/// the width, do not count.
pub open spec fn line_bucket(page: PageData, item: RawTextItem) -> Option<int> {
    let text = item.text@;
    let w = page.width as int;
    if (page.height - item.y < 7500 && page_number_text(text)) || pure_number_text(text)
        || page_number_text(text) {
        None
    } else if ratio_below(item.x as int, w, 13) || ratio_above(item.x as int, w, 90) {
        None
    } else {
        Some(round_percent(item.x as int, w))
    }
}

/// The counts per bucket after the lines `lines` of `page` are added to `h`.
pub open spec fn count_lines(page: PageData, lines: Seq<RawTextItem>, h: Seq<nat>) -> Seq<nat>
    decreases lines.len(),
{
    if lines.len() == 0 {
        h
    } else {
        let h2 = count_lines(page, lines.drop_last(), h);
        match line_bucket(page, lines.last()) {
            Some(b) => h2.update(b, h2[b] + 1),
            None => h2,
        }
    }
}

/// A page whose lines count towards the margins: not empty, of positive width, and not a
/// title page.
pub open spec fn page_counts(page: PageData) -> bool {
    page.lines@.len() > 0 && page.width > 0 && !likely_title_page(page)
}

/// The number of counted lines per percent of the page width, `0..=100`.
pub open spec fn histogram(pages: Seq<PageData>) -> Seq<nat>
    decreases pages.len(),
{
    if pages.len() == 0 {
        Seq::new(101, |i: int| 0nat)
    } else {
        let h = histogram(pages.drop_last());
        if page_counts(pages.last()) {
            count_lines(pages.last(), pages.last().lines@, h)
        } else {
            h
        }
    }
}

/// The buckets below `n` counted at least twice, with their counts, in increasing order.
pub open spec fn peaks_below(h: Seq<nat>, n: int) -> Seq<(int, nat)>
    decreases n,
{
    if n <= 0 {
        Seq::empty()
    } else {
        let l = peaks_below(h, n - 1);
        if h[n - 1] >= 2 {
            l.push((n - 1, h[n - 1]))
        } else {
            l
        }
    }
}

/// `x` inserted into `s` after the last entry whose count is at least that of `x`.
pub open spec fn insert_by_count(s: Seq<(int, nat)>, x: (int, nat)) -> Seq<(int, nat)>
    decreases s.len(),
{
    if s.len() == 0 {
        seq![x]
    } else if s.last().1 >= x.1 {
        s.push(x)
    } else {
        insert_by_count(s.drop_last(), x).push(s.last())
    }
}

/// `s` sorted by decreasing count, entries of equal count kept in their order.
pub open spec fn sort_by_count(s: Seq<(int, nat)>) -> Seq<(int, nat)>
    decreases s.len(),
{
    if s.len() == 0 {
        Seq::empty()
    } else {
        insert_by_count(sort_by_count(s.drop_last()), s.last())
    }
}

/// `acc` with the bucket `v` added, unless five are already kept or one within 3% is.
pub open spec fn add_distinct(acc: Seq<int>, v: int) -> Seq<int> {
    if acc.len() >= 5 || (exists|i: int| 0 <= i < acc.len() && -3 <= #[trigger] acc[i] - v <= 3) {
        acc
    } else {
        acc.push(v)
    }
}

/// The buckets of `ps` kept, in order, by [`add_distinct`].
pub open spec fn distinct_peaks(ps: Seq<(int, nat)>) -> Seq<int>
    decreases ps.len(),
{
    if ps.len() == 0 {
        Seq::empty()
    } else {
        add_distinct(distinct_peaks(ps.drop_last()), ps.last().0)
    }
}

/// `v` inserted into `s` after the last entry not greater than it.
pub open spec fn insert_ascending(s: Seq<int>, v: int) -> Seq<int>
    decreases s.len(),
{
    if s.len() == 0 {
        seq![v]
    } else if s.last() <= v {
        s.push(v)
    } else {
        insert_ascending(s.drop_last(), v).push(s.last())
    }
}

/// `s` in increasing order.
pub open spec fn sort_ascending(s: Seq<int>) -> Seq<int>
    decreases s.len(),
{
    if s.len() == 0 {
        Seq::empty()
    } else {
        insert_ascending(sort_ascending(s.drop_last()), s.last())
    }
}

/// The profile with the peak `v` given to the first role whose window around the standard
/// margin holds it (the windows are those that comparing `v / 100` with the standard
/// margins in single precision gives).
pub open spec fn assign_peak(p: LayoutProfile, v: int) -> LayoutProfile {
    if 13 <= v <= 24 {
        LayoutProfile { action_x: v as u32, ..p }
    } else if 26 <= v <= 35 {
        LayoutProfile { dialogue_x: v as u32, ..p }
    } else if 33 <= v <= 41 {
        LayoutProfile { parenthetical_x: v as u32, ..p }
    } else if 39 <= v <= 49 {
        LayoutProfile { character_x: v as u32, ..p }
    } else if v > 70 {
        LayoutProfile { transition_x: v as u32, ..p }
    } else {
        p
    }
}

/// The profile after the peaks `ps` are assigned in order.
pub open spec fn assign_peaks(ps: Seq<int>) -> LayoutProfile
    decreases ps.len(),
{
    if ps.len() == 0 {
        default_profile()
    } else {
        assign_peak(assign_peaks(ps.drop_last()), ps.last())
    }
}

/// The layout learned from the pages: the buckets of the histogram counted at least twice,
/// by decreasing count, the first five that lie more than 3% from each kept one, in
/// increasing order, each assigned to the role whose window holds it.
pub open spec fn calibrated(pages: Seq<PageData>) -> LayoutProfile {
    assign_peaks(sort_ascending(distinct_peaks(sort_by_count(peaks_below(histogram(pages), 101)))))
}


proof fn lemma_round_percent(x: int, w: int)
    requires
        w > 0,
        100 * x >= 13 * w,
        100 * x <= 90 * w,
    ensures
        13 <= round_percent(x, w) <= 90,
{
    let n = 200 * x + w;
    let d = 2 * w;
    assert(n >= 13 * d) by (nonlinear_arith)
        requires
            n == 200 * x + w,
            d == 2 * w,
            100 * x >= 13 * w,
            w > 0,
    ;
    assert(n < 91 * d) by (nonlinear_arith)
        requires
            n == 200 * x + w,
            d == 2 * w,
            100 * x <= 90 * w,
            w > 0,
    ;
    assert(n / d >= 13) by (nonlinear_arith)
        requires
            n >= 13 * d,
            d > 0,
    ;
    assert(n / d <= 90) by (nonlinear_arith)
        requires
            n < 91 * d,
            d > 0,
    ;
}

fn line_bucket_exec(page: &PageData, item: &RawTextItem) -> (r: Option<usize>)
    requires
        page.width > 0,
    ensures
        match line_bucket(*page, *item) {
            Some(b) => r == Some(b as usize) && 13 <= b <= 90,
            None => r is None,
        },
{
    let text = chars_of(item.text.as_str());
    let top = page.height as i64 - item.y as i64;
    let page_number = page_number_chars(&text);
    if (top < 7500 && page_number) || pure_number_chars(&text) || page_number {
        return None;
    }
    if crate::geom::below(item.x, page.width, 13) || crate::geom::above(item.x, page.width, 90) {
        return None;
    }
    proof {
        lemma_round_percent(item.x as int, page.width as int);
    }
    let x = item.x as i64;
    let w = page.width as i64;
    let b = (200 * x + w) / (2 * w);
    Some(b as usize)
}

/// The counts of a histogram map, one per percent `0..=100` (zero where a bucket has no
/// entry).
pub open spec fn counts_of(h: BTreeMap<u32, u128>) -> Seq<nat> {
    Seq::new(
        101,
        |b: int|
            if h@.contains_key(b as u32) {
                h@[b as u32] as nat
            } else {
                0nat
            },
    )
}

/// Every count of the histogram map is at most `bound`.
pub open spec fn counts_at_most(h: BTreeMap<u32, u128>, bound: int) -> bool {
    forall|k: u32| #[trigger] h@.contains_key(k) ==> h@[k] <= bound
}

/// The count of bucket `b`, zero when it has none.
fn bucket_count(h: &BTreeMap<u32, u128>, b: u32) -> (r: u128)
    requires
        b < 101,
    ensures
        r == counts_of(*h)[b as int],
        h@.contains_key(b) ==> r == h@[b],
        !h@.contains_key(b) ==> r == 0,
{
    match h.get(&b) {
        Some(c) => *c,
        None => 0,
    }
}

fn count_page(page: &PageData, h: &mut BTreeMap<u32, u128>, bound: u128)
    requires
        page.width > 0,
        counts_at_most(*old(h), bound as int),
        bound + page.lines@.len() <= u128::MAX,
    ensures
        counts_of(*final(h)) == count_lines(*page, page.lines@, counts_of(*old(h))),
        counts_at_most(*final(h), bound + page.lines@.len()),
{
    let n = page.lines.len();
    let ghost h0 = counts_of(*h);
    let mut i: usize = 0;
    while i < n
        invariant
            0 <= i <= n,
            n == page.lines@.len(),
            page.width > 0,
            bound + n <= u128::MAX,
            counts_of(*h) == count_lines(*page, page.lines@.take(i as int), h0),
            counts_at_most(*h, bound + i),
        decreases n - i,
    {
        let ghost before = counts_of(*h);
        let ghost mb = h@;
        assert(page.lines@.take(i + 1).drop_last() =~= page.lines@.take(i as int));
        assert(page.lines@.take(i + 1).last() == page.lines@[i as int]);
        match line_bucket_exec(page, &page.lines[i]) {
            Some(b) => {
                let key = b as u32;
                let c = bucket_count(h, key);
                assert(c <= bound + i) by {
                    if mb.contains_key(key) {
                        assert(mb[key] <= bound + i);
                    }
                }
                h.insert(key, c + 1);
                assert(h@ == mb.insert(key, (c + 1) as u128));
                assert(counts_of(*h) =~= before.update(b as int, before[b as int] + 1));
                assert forall|k: u32| #[trigger] h@.contains_key(k) implies h@[k] <= bound + i + 1 by {
                    if k != key {
                        assert(mb.contains_key(k));
                    }
                }
            },
            None => {},
        }
        i = i + 1;
    }
    assert(page.lines@.take(n as int) =~= page.lines@);
}

/// The histogram of the counted lines of `pages`, as a map from percent to count.
fn build_histogram(pages: &[PageData]) -> (h: BTreeMap<u32, u128>)
    ensures
        counts_of(h) == histogram(pages@),
{
    let mut h: BTreeMap<u32, u128> = BTreeMap::new();
    assert(counts_of(h) =~= Seq::new(101, |i: int| 0nat));
    let mut seen: u128 = 0;
    let mut k: usize = 0;
    while k < pages.len()
        invariant
            0 <= k <= pages.len(),
            counts_of(h) == histogram(pages@.take(k as int)),
            seen <= k * 0xffff_ffff_ffff_ffff,
            counts_at_most(h, seen as int),
        decreases pages.len() - k,
    {
        let page = &pages[k];
        assert(pages@.take(k + 1).drop_last() =~= pages@.take(k as int));
        assert(pages@.take(k + 1).last() == pages@[k as int]);
        let counts = page.lines.len() > 0 && page.width > 0 && !is_likely_title_page(page);
        assert(k * 0xffff_ffff_ffff_ffff + 0xffff_ffff_ffff_ffff <= 0xffff_ffff_ffff_ffff
            * 0xffff_ffff_ffff_ffff) by (nonlinear_arith)
            requires
                k < 0xffff_ffff_ffff_ffff,
        ;
        if counts {
            count_page(page, &mut h, seen);
            seen = seen + page.lines.len() as u128;
        }
        k = k + 1;
    }
    assert(pages@.take(pages@.len() as int) =~= pages@);
    h
}


/// Bucket and count pairs as integers.
pub open spec fn peaks_of(v: Seq<(usize, u128)>) -> Seq<(int, nat)> {
    v.map_values(|p: (usize, u128)| (p.0 as int, p.1 as nat))
}

proof fn lemma_insert_by_count(s: Seq<(int, nat)>, x: (int, nat), j: int)
    requires
        0 <= j <= s.len(),
        forall|k: int| j <= k < s.len() ==> (#[trigger] s[k]).1 < x.1,
        j > 0 ==> s[j - 1].1 >= x.1,
    ensures
        insert_by_count(s, x) == s.insert(j, x),
    decreases s.len(),
{
    if s.len() == 0 {
        assert(s.insert(j, x) =~= seq![x]);
    } else if j == s.len() {
        assert(s.insert(j, x) =~= s.push(x));
    } else {
        assert(s.last().1 < x.1);
        lemma_insert_by_count(s.drop_last(), x, j);
        assert(s.drop_last().insert(j, x).push(s.last()) =~= s.insert(j, x));
    }
}

fn sort_peaks(v: &Vec<(usize, u128)>) -> (r: Vec<(usize, u128)>)
    ensures
        peaks_of(r@) == sort_by_count(peaks_of(v@)),
{
    let mut r: Vec<(usize, u128)> = Vec::new();
    let mut i: usize = 0;
    while i < v.len()
        invariant
            0 <= i <= v.len(),
            peaks_of(r@) == sort_by_count(peaks_of(v@.take(i as int))),
        decreases v.len() - i,
    {
        let x = v[i];
        let mut j = r.len();
        while j > 0 && r[j - 1].1 < x.1
            invariant
                0 <= j <= r.len(),
                forall|k: int| j <= k < r@.len() ==> (#[trigger] r@[k]).1 < x.1,
            decreases j,
        {
            j = j - 1;
        }
        let ghost before = peaks_of(r@);
        proof {
            lemma_insert_by_count(before, (x.0 as int, x.1 as nat), j as int);
        }
        r.insert(j, x);
        assert(peaks_of(r@) =~= before.insert(j as int, (x.0 as int, x.1 as nat)));
        assert(peaks_of(v@.take(i + 1)).drop_last() =~= peaks_of(v@.take(i as int)));
        i = i + 1;
    }
    assert(v@.take(v@.len() as int) =~= v@);
    r
}

proof fn lemma_insert_ascending(s: Seq<int>, v: int, j: int)
    requires
        0 <= j <= s.len(),
        forall|k: int| j <= k < s.len() ==> #[trigger] s[k] > v,
        j > 0 ==> s[j - 1] <= v,
    ensures
        insert_ascending(s, v) == s.insert(j, v),
    decreases s.len(),
{
    if s.len() == 0 {
        assert(s.insert(j, v) =~= seq![v]);
    } else if j == s.len() {
        assert(s.insert(j, v) =~= s.push(v));
    } else {
        lemma_insert_ascending(s.drop_last(), v, j);
        assert(s.drop_last().insert(j, v).push(s.last()) =~= s.insert(j, v));
    }
}

/// The buckets as integers.
pub open spec fn ints_of(v: Seq<usize>) -> Seq<int> {
    v.map_values(|b: usize| b as int)
}

fn sort_buckets(v: &Vec<usize>) -> (r: Vec<usize>)
    ensures
        ints_of(r@) == sort_ascending(ints_of(v@)),
{
    let mut r: Vec<usize> = Vec::new();
    let mut i: usize = 0;
    while i < v.len()
        invariant
            0 <= i <= v.len(),
            ints_of(r@) == sort_ascending(ints_of(v@.take(i as int))),
        decreases v.len() - i,
    {
        let x = v[i];
        let mut j = r.len();
        while j > 0 && r[j - 1] > x
            invariant
                0 <= j <= r.len(),
                forall|k: int| j <= k < r@.len() ==> #[trigger] r@[k] > x,
            decreases j,
        {
            j = j - 1;
        }
        let ghost before = ints_of(r@);
        proof {
            lemma_insert_ascending(before, x as int, j as int);
        }
        r.insert(j, x);
        assert(ints_of(r@) =~= before.insert(j as int, x as int));
        assert(ints_of(v@.take(i + 1)).drop_last() =~= ints_of(v@.take(i as int)));
        i = i + 1;
    }
    assert(v@.take(v@.len() as int) =~= v@);
    r
}

fn keep_distinct(ps: &Vec<(usize, u128)>) -> (r: Vec<usize>)
    ensures
        ints_of(r@) == distinct_peaks(peaks_of(ps@)),
{
    let mut acc: Vec<usize> = Vec::new();
    let mut i: usize = 0;
    while i < ps.len()
        invariant
            0 <= i <= ps.len(),
            ints_of(acc@) == distinct_peaks(peaks_of(ps@.take(i as int))),
        decreases ps.len() - i,
    {
        let v = ps[i].0;
        let ghost before = ints_of(acc@);
        assert(peaks_of(ps@.take(i + 1)).drop_last() =~= peaks_of(ps@.take(i as int)));
        assert(peaks_of(ps@.take(i + 1)).last().0 == v as int);
        if acc.len() < 5 {
            let mut near = false;
            let mut k: usize = 0;
            while k < acc.len()
                invariant
                    0 <= k <= acc.len(),
                    before == ints_of(acc@),
                    near == exists|m: int| 0 <= m < k && -3 <= #[trigger] before[m] - v <= 3,
                decreases acc.len() - k,
            {
                let a = acc[k];
                assert(before[k as int] == a as int);
                if (a <= v && v - a <= 3) || (v < a && a - v <= 3) {
                    near = true;
                }
                k = k + 1;
            }
            if !near {
                acc.push(v);
                assert(ints_of(acc@) =~= before.push(v as int));
            }
        }
        i = i + 1;
    }
    assert(ps@.take(ps@.len() as int) =~= ps@);
    acc
}

/// Learns the column margins of a screenplay from where its lines begin.
pub fn calibrate_layout(pages: &[PageData]) -> (p: LayoutProfile)
    ensures
        p == calibrated(pages@),
{
    let h = build_histogram(pages);
    let mut peaks: Vec<(usize, u128)> = Vec::new();
    let mut b: usize = 0;
    while b < 101
        invariant
            0 <= b <= 101,
            peaks_of(peaks@) == peaks_below(counts_of(h), b as int),
        decreases 101 - b,
    {
        let c = bucket_count(&h, b as u32);
        if c >= 2 {
            let ghost before = peaks_of(peaks@);
            peaks.push((b, c));
            assert(peaks_of(peaks@) =~= before.push((b as int, c as nat)));
        }
        b = b + 1;
    }
    let sorted = sort_peaks(&peaks);
    let distinct = keep_distinct(&sorted);
    let ascending = sort_buckets(&distinct);
    let mut profile = LayoutProfile::default();
    let mut i: usize = 0;
    while i < ascending.len()
        invariant
            0 <= i <= ascending.len(),
            profile == assign_peaks(ints_of(ascending@).take(i as int)),
        decreases ascending.len() - i,
    {
        let v = ascending[i];
        assert(ints_of(ascending@).take(i + 1).drop_last() =~= ints_of(ascending@).take(i as int));
        if 13 <= v && v <= 24 {
            profile.action_x = v as u32;
        } else if 26 <= v && v <= 35 {
            profile.dialogue_x = v as u32;
        } else if 33 <= v && v <= 41 {
            profile.parenthetical_x = v as u32;
        } else if 39 <= v && v <= 49 {
            profile.character_x = v as u32;
        } else if v > 70 {
            profile.transition_x = v as u32;
        }
        i = i + 1;
    }
    assert(ints_of(ascending@).take(ascending@.len() as int) =~= ints_of(ascending@));
    profile
}


/// Every learned margin lies in the window of its role.
pub open spec fn margins_in_windows(p: LayoutProfile) -> bool {
    &&& 13 <= p.action_x <= 24
    &&& 26 <= p.dialogue_x <= 35
    &&& 33 <= p.parenthetical_x <= 41
    &&& 39 <= p.character_x <= 49
    &&& 70 < p.transition_x <= 90
}

/// Every bucket of `s` lies in `0..=90`.
pub open spec fn pair_buckets_bounded(s: Seq<(int, nat)>) -> bool {
    forall|i: int| 0 <= i < s.len() ==> 0 <= (#[trigger] s[i]).0 <= 90
}

/// Every value of `s` lies in `0..=90`.
pub open spec fn buckets_bounded(s: Seq<int>) -> bool {
    forall|i: int| 0 <= i < s.len() ==> 0 <= #[trigger] s[i] <= 90
}

proof fn lemma_peaks_below_bounded(h: Seq<nat>, n: int)
    requires
        n <= 101,
        h.len() == 101,
        forall|b: int| 91 <= b < 101 ==> #[trigger] h[b] == 0,
    ensures
        pair_buckets_bounded(peaks_below(h, n)),
    decreases n,
{
    if n > 0 {
        lemma_peaks_below_bounded(h, n - 1);
    }
}

proof fn lemma_insert_by_count_bounded(s: Seq<(int, nat)>, x: (int, nat))
    requires
        pair_buckets_bounded(s),
        0 <= x.0 <= 90,
    ensures
        pair_buckets_bounded(insert_by_count(s, x)),
    decreases s.len(),
{
    if s.len() > 0 && s.last().1 < x.1 {
        lemma_insert_by_count_bounded(s.drop_last(), x);
    }
}

proof fn lemma_sort_by_count_bounded(s: Seq<(int, nat)>)
    requires
        pair_buckets_bounded(s),
    ensures
        pair_buckets_bounded(sort_by_count(s)),
    decreases s.len(),
{
    if s.len() > 0 {
        lemma_sort_by_count_bounded(s.drop_last());
        lemma_insert_by_count_bounded(sort_by_count(s.drop_last()), s.last());
    }
}

proof fn lemma_distinct_bounded(s: Seq<(int, nat)>)
    requires
        pair_buckets_bounded(s),
    ensures
        buckets_bounded(distinct_peaks(s)),
    decreases s.len(),
{
    if s.len() > 0 {
        lemma_distinct_bounded(s.drop_last());
    }
}

proof fn lemma_insert_ascending_bounded(s: Seq<int>, v: int)
    requires
        buckets_bounded(s),
        0 <= v <= 90,
    ensures
        buckets_bounded(insert_ascending(s, v)),
    decreases s.len(),
{
    if s.len() > 0 && s.last() > v {
        lemma_insert_ascending_bounded(s.drop_last(), v);
    }
}

proof fn lemma_sort_ascending_bounded(s: Seq<int>)
    requires
        buckets_bounded(s),
    ensures
        buckets_bounded(sort_ascending(s)),
    decreases s.len(),
{
    if s.len() > 0 {
        lemma_sort_ascending_bounded(s.drop_last());
        lemma_insert_ascending_bounded(sort_ascending(s.drop_last()), s.last());
    }
}

proof fn lemma_assign_peaks_windows(ps: Seq<int>)
    requires
        buckets_bounded(ps),
    ensures
        margins_in_windows(assign_peaks(ps)),
    decreases ps.len(),
{
    if ps.len() > 0 {
        lemma_assign_peaks_windows(ps.drop_last());
    }
}

/// Law: whatever the pages, every learned margin lies in the window of its role: action
/// between 13% and 24% of the width, dialogue 26–35%, parentheticals 33–41%, character cues
/// 39–49%, transitions above 70% and at most 90%.
pub proof fn lemma_calibrated_in_windows(pages: Seq<PageData>)
    ensures
        margins_in_windows(calibrated(pages)),
{
    lemma_histogram_len(pages);
    let h = histogram(pages);
    lemma_peaks_below_bounded(h, 101);
    lemma_sort_by_count_bounded(peaks_below(h, 101));
    lemma_distinct_bounded(sort_by_count(peaks_below(h, 101)));
    lemma_sort_ascending_bounded(distinct_peaks(sort_by_count(peaks_below(h, 101))));
    lemma_assign_peaks_windows(
        sort_ascending(distinct_peaks(sort_by_count(peaks_below(h, 101)))),
    );
}

proof fn lemma_no_peaks(h: Seq<nat>, n: int)
    requires
        n <= h.len(),
        forall|b: int| 0 <= b < n ==> #[trigger] h[b] < 2,
    ensures
        peaks_below(h, n).len() == 0,
    decreases n,
{
    if n > 0 {
        lemma_no_peaks(h, n - 1);
    }
}

proof fn lemma_count_lines_len(page: PageData, lines: Seq<RawTextItem>, h: Seq<nat>)
    requires
        h.len() == 101,
        page.width > 0,
    ensures
        count_lines(page, lines, h).len() == 101,
        forall|b: int| 91 <= b < 101 ==> #[trigger] count_lines(page, lines, h)[b] == h[b],
    decreases lines.len(),
{
    if lines.len() > 0 {
        lemma_count_lines_len(page, lines.drop_last(), h);
        match line_bucket(page, lines.last()) {
            Some(b) => {
                lemma_round_percent(lines.last().x as int, page.width as int);
            },
            None => {},
        }
    }
}

/// The histogram has one count per percent, `0..=100`; none right of 90%.
pub proof fn lemma_histogram_len(pages: Seq<PageData>)
    ensures
        histogram(pages).len() == 101,
        forall|b: int| 91 <= b < 101 ==> #[trigger] histogram(pages)[b] == 0,
    decreases pages.len(),
{
    if pages.len() > 0 {
        lemma_histogram_len(pages.drop_last());
        if page_counts(pages.last()) {
            lemma_count_lines_len(pages.last(), pages.last().lines@, histogram(pages.drop_last()));
        }
    }
}

/// Law: when no percent of the width holds two counted lines, the standard profile is kept;
/// in particular for no pages at all.
pub proof fn lemma_calibrated_default(pages: Seq<PageData>)
    requires
        forall|b: int| 0 <= b < 101 ==> #[trigger] histogram(pages)[b] < 2,
    ensures
        calibrated(pages) == default_profile(),
{
    lemma_histogram_len(pages);
    lemma_no_peaks(histogram(pages), 101);
}

/// With no pages, no line is counted.
pub proof fn lemma_histogram_empty()
    ensures
        forall|b: int| 0 <= b < 101 ==> #[trigger] histogram(Seq::<PageData>::empty())[b] < 2,
{
}


proof fn lemma_count_lines_same_box(p1: PageData, p2: PageData, lines: Seq<RawTextItem>, h: Seq<nat>)
    requires
        p1.width == p2.width,
        p1.height == p2.height,
    ensures
        count_lines(p1, lines, h) == count_lines(p2, lines, h),
    decreases lines.len(),
{
    if lines.len() > 0 {
        lemma_count_lines_same_box(p1, p2, lines.drop_last(), h);
    }
}

/// Law: a standalone number line (a scene or page number) added to a page after the first
/// never moves the learned margins.
pub proof fn lemma_number_line_ignored(
    pages: Seq<PageData>,
    pages2: Seq<PageData>,
    k: int,
    item: RawTextItem,
)
    requires
        0 <= k < pages.len(),
        pages2.len() == pages.len(),
        forall|i: int| 0 <= i < pages.len() && i != k ==> pages2[i] == pages[i],
        pages2[k].page_number == pages[k].page_number,
        pages2[k].width == pages[k].width,
        pages2[k].height == pages[k].height,
        pages2[k].lines@ == pages[k].lines@.push(item),
        pages[k].page_number > 1,
        pure_number_text(item.text@),
    ensures
        histogram(pages2) == histogram(pages),
        calibrated(pages2) == calibrated(pages),
    decreases pages.len(),
{
    let n = pages.len() - 1;
    if k < n {
        assert forall|i: int| 0 <= i < n && i != k implies pages2.drop_last()[i]
            == pages.drop_last()[i] by {
            assert(pages2[i] == pages[i]);
        }
        lemma_number_line_ignored(pages.drop_last(), pages2.drop_last(), k, item);
        assert(pages2.last() == pages[n]);
    } else {
        assert(pages2.drop_last() =~= pages.drop_last()) by {
            assert forall|i: int| 0 <= i < n implies pages2.drop_last()[i] == pages.drop_last()[i] by {
                assert(pages2[i] == pages[i]);
            }
        }
        let p1 = pages.last();
        let p2 = pages2.last();
        let h = histogram(pages.drop_last());
        assert(line_bucket(p2, item) is None);
        assert(p2.lines@.drop_last() =~= p1.lines@);
        assert(count_lines(p2, p2.lines@, h) == count_lines(p2, p1.lines@, h));
        lemma_count_lines_same_box(p1, p2, p1.lines@, h);
        assert(!likely_title_page(p1) && !likely_title_page(p2));
    }
}


/// `b` is `a` stretched horizontally by `n / m`: the same texts at the same heights, each
/// position `x` scaled.
pub open spec fn lines_scaled(a: Seq<RawTextItem>, b: Seq<RawTextItem>, m: int, n: int) -> bool {
    &&& a.len() == b.len()
    &&& forall|i: int|
        0 <= i < a.len() ==> {
            &&& (#[trigger] b[i]).y == a[i].y
            &&& b[i].text@ == a[i].text@
            &&& m * b[i].x == n * a[i].x
        }
}

/// `b` is the page `a` stretched horizontally by `n / m` (its width and its positions).
pub open spec fn page_scaled(a: PageData, b: PageData, m: int, n: int) -> bool {
    &&& b.page_number == a.page_number
    &&& b.height == a.height
    &&& m * b.width == n * a.width
    &&& lines_scaled(a.lines@, b.lines@, m, n)
}

proof fn lemma_scaled_less(a1: int, b1: int, a2: int, b2: int, m: int, n: int)
    requires
        m > 0,
        n > 0,
        m * a2 == n * a1,
        m * b2 == n * b1,
    ensures
        (a2 < b2) == (a1 < b1),
        (a2 > b2) == (a1 > b1),
{
    assert(m * a2 - m * b2 == n * (a1 - b1)) by (nonlinear_arith)
        requires
            m * a2 == n * a1,
            m * b2 == n * b1,
    ;
    assert(m * (a2 - b2) == m * a2 - m * b2) by (nonlinear_arith);
    assert((a2 - b2 < 0) == (m * (a2 - b2) < 0)) by (nonlinear_arith)
        requires
            m > 0,
    ;
    assert((a2 - b2 > 0) == (m * (a2 - b2) > 0)) by (nonlinear_arith)
        requires
            m > 0,
    ;
    assert((a1 - b1 < 0) == (n * (a1 - b1) < 0)) by (nonlinear_arith)
        requires
            n > 0,
    ;
    assert((a1 - b1 > 0) == (n * (a1 - b1) > 0)) by (nonlinear_arith)
        requires
            n > 0,
    ;
}

proof fn lemma_scaled_quotient(a1: int, b1: int, a2: int, b2: int, m: int, n: int)
    requires
        m > 0,
        n > 0,
        b1 > 0,
        b2 > 0,
        m * a2 == n * a1,
        m * b2 == n * b1,
    ensures
        a2 / b2 == a1 / b1,
{
    let q = a1 / b1;
    let r = a1 % b1;
    assert(a1 == q * b1 + r && 0 <= r < b1) by (nonlinear_arith)
        requires
            b1 > 0,
            q == a1 / b1,
            r == a1 % b1,
    ;
    let d = a2 - q * b2;
    assert(m * d == n * r) by (nonlinear_arith)
        requires
            d == a2 - q * b2,
            m * a2 == n * a1,
            m * b2 == n * b1,
            a1 == q * b1 + r,
    ;
    assert(0 <= d < b2) by (nonlinear_arith)
        requires
            m * d == n * r,
            m * b2 == n * b1,
            0 <= r < b1,
            m > 0,
            n > 0,
    ;
    assert(a2 / b2 == q) by (nonlinear_arith)
        requires
            a2 == q * b2 + d,
            0 <= d < b2,
    ;
}

proof fn lemma_line_bucket_scaled(p1: PageData, p2: PageData, i1: RawTextItem, i2: RawTextItem, m: int, n: int)
    requires
        m > 0,
        n > 0,
        p1.width > 0,
        p2.height == p1.height,
        m * p2.width == n * p1.width,
        i2.y == i1.y,
        i2.text@ == i1.text@,
        m * i2.x == n * i1.x,
    ensures
        line_bucket(p2, i2) == line_bucket(p1, i1),
{
    let w1 = p1.width as int;
    let w2 = p2.width as int;
    let x1 = i1.x as int;
    let x2 = i2.x as int;
    assert(w2 > 0) by (nonlinear_arith)
        requires
            m * w2 == n * w1,
            w1 > 0,
            m > 0,
            n > 0,
    ;
    assert(m * (100 * x2) == n * (100 * x1)) by (nonlinear_arith)
        requires
            m * x2 == n * x1,
    ;
    assert(m * (13 * w2) == n * (13 * w1)) by (nonlinear_arith)
        requires
            m * w2 == n * w1,
    ;
    assert(m * (90 * w2) == n * (90 * w1)) by (nonlinear_arith)
        requires
            m * w2 == n * w1,
    ;
    lemma_scaled_less(100 * x1, 13 * w1, 100 * x2, 13 * w2, m, n);
    lemma_scaled_less(100 * x1, 90 * w1, 100 * x2, 90 * w2, m, n);
    assert(m * (200 * x2 + w2) == n * (200 * x1 + w1)) by (nonlinear_arith)
        requires
            m * x2 == n * x1,
            m * w2 == n * w1,
    ;
    assert(m * (2 * w2) == n * (2 * w1)) by (nonlinear_arith)
        requires
            m * w2 == n * w1,
    ;
    lemma_scaled_quotient(200 * x1 + w1, 2 * w1, 200 * x2 + w2, 2 * w2, m, n);
}

proof fn lemma_count_lines_scaled(
    p1: PageData,
    p2: PageData,
    l1: Seq<RawTextItem>,
    l2: Seq<RawTextItem>,
    h: Seq<nat>,
    m: int,
    n: int,
)
    requires
        m > 0,
        n > 0,
        p1.width > 0,
        p2.height == p1.height,
        m * p2.width == n * p1.width,
        lines_scaled(l1, l2, m, n),
    ensures
        count_lines(p2, l2, h) == count_lines(p1, l1, h),
    decreases l1.len(),
{
    if l1.len() > 0 {
        let k = l1.len() - 1;
        assert(lines_scaled(l1.drop_last(), l2.drop_last(), m, n)) by {
            assert forall|i: int| 0 <= i < k implies {
                &&& (#[trigger] l2.drop_last()[i]).y == l1.drop_last()[i].y
                &&& l2.drop_last()[i].text@ == l1.drop_last()[i].text@
                &&& m * l2.drop_last()[i].x == n * l1.drop_last()[i].x
            } by {
                assert(l2[i].y == l1[i].y);
            }
        }
        lemma_count_lines_scaled(p1, p2, l1.drop_last(), l2.drop_last(), h, m, n);
        assert(l2[k].y == l1[k].y);
        lemma_line_bucket_scaled(p1, p2, l1.last(), l2.last(), m, n);
    }
}

proof fn lemma_sum_y_scaled(l1: Seq<RawTextItem>, l2: Seq<RawTextItem>, m: int, n: int)
    requires
        lines_scaled(l1, l2, m, n),
    ensures
        sum_y(l2) == sum_y(l1),
    decreases l1.len(),
{
    if l1.len() > 0 {
        let k = l1.len() - 1;
        assert(lines_scaled(l1.drop_last(), l2.drop_last(), m, n)) by {
            assert forall|i: int| 0 <= i < k implies {
                &&& (#[trigger] l2.drop_last()[i]).y == l1.drop_last()[i].y
                &&& l2.drop_last()[i].text@ == l1.drop_last()[i].text@
                &&& m * l2.drop_last()[i].x == n * l1.drop_last()[i].x
            } by {
                assert(l2[i].y == l1[i].y);
            }
        }
        lemma_sum_y_scaled(l1.drop_last(), l2.drop_last(), m, n);
        assert(l2[k].y == l1[k].y);
    }
}

proof fn lemma_title_page_scaled(p1: PageData, p2: PageData, m: int, n: int)
    requires
        page_scaled(p1, p2, m, n),
    ensures
        likely_title_page(p2) == likely_title_page(p1),
{
    let l1 = p1.lines@;
    let l2 = p2.lines@;
    lemma_sum_y_scaled(l1, l2, m, n);
    assert forall|i: int| 0 <= i < l1.len() implies #[trigger] l2[i].text@ == l1[i].text@ by {
        assert(l2[i].y == l1[i].y);
    }
    if likely_title_page(p1) {
        assert forall|i: int| 0 <= i < l2.len() implies !crate::fsm::heading_prefix(
            uppercase_of(#[trigger] l2[i].text@),
        ) by {
            assert(l2[i].text@ == l1[i].text@);
            assert(!crate::fsm::heading_prefix(uppercase_of(l1[i].text@)));
        }
        if exists|i: int| 0 <= i < l1.len() && credit_words(lowercase_of(#[trigger] l1[i].text@)) {
            let i = choose|i: int| 0 <= i < l1.len() && credit_words(lowercase_of(#[trigger] l1[i].text@));
            assert(l2[i].text@ == l1[i].text@);
            assert(credit_words(lowercase_of(l2[i].text@)));
        }
    }
    if likely_title_page(p2) {
        assert forall|i: int| 0 <= i < l1.len() implies !crate::fsm::heading_prefix(
            uppercase_of(#[trigger] l1[i].text@),
        ) by {
            assert(l2[i].text@ == l1[i].text@);
            assert(!crate::fsm::heading_prefix(uppercase_of(l2[i].text@)));
        }
        if exists|i: int| 0 <= i < l2.len() && credit_words(lowercase_of(#[trigger] l2[i].text@)) {
            let i = choose|i: int| 0 <= i < l2.len() && credit_words(lowercase_of(#[trigger] l2[i].text@));
            assert(l2[i].text@ == l1[i].text@);
            assert(credit_words(lowercase_of(l1[i].text@)));
        }
    }
}

/// Law: the learned margins depend on line positions only as fractions of the page width, so
/// a script stretched horizontally by any positive factor `n / m` (A4 against US Letter) is
/// calibrated the same.
pub proof fn lemma_calibrated_scale_invariant(pages: Seq<PageData>, pages2: Seq<PageData>, m: int, n: int)
    requires
        m > 0,
        n > 0,
        pages2.len() == pages.len(),
        forall|i: int| 0 <= i < pages.len() ==> page_scaled(#[trigger] pages[i], pages2[i], m, n),
    ensures
        histogram(pages2) == histogram(pages),
        calibrated(pages2) == calibrated(pages),
    decreases pages.len(),
{
    if pages.len() > 0 {
        let k = pages.len() - 1;
        assert forall|i: int| 0 <= i < k implies page_scaled(
            #[trigger] pages.drop_last()[i],
            pages2.drop_last()[i],
            m,
            n,
        ) by {
            assert(page_scaled(pages[i], pages2[i], m, n));
        }
        lemma_calibrated_scale_invariant(pages.drop_last(), pages2.drop_last(), m, n);
        let p1 = pages.last();
        let p2 = pages2.last();
        assert(page_scaled(pages[k], pages2[k], m, n));
        lemma_title_page_scaled(p1, p2, m, n);
        let w1 = p1.width as int;
        let w2 = p2.width as int;
        assert((w2 > 0) == (w1 > 0)) by (nonlinear_arith)
            requires
                m * w2 == n * w1,
                m > 0,
                n > 0,
        ;
        if p1.width > 0 {
            lemma_count_lines_scaled(p1, p2, p1.lines@, p2.lines@, histogram(pages.drop_last()), m, n);
        }
    }
}

} // verus!
