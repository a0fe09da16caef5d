//! Positioned page text and the decoding of PDF text strings.
//!
//! Positions are held in hundredths of a PDF point; `y` grows towards the top of the page.

use vstd::prelude::*;
use crate::text::{
    CharClass, chars_of, ends_with_str, has_prefix, has_suffix, index_from, lead_from, lead_len,
    lines_of, parse_unsigned,
    parse_unsigned_spec, starts_with_str, string_from, trim, trim_class, trim_spaces, trim_ws,
    utf8_len, views_of,
};
use std::collections::BTreeMap;
use vstd::utf8::{decode_utf8, valid_utf8};

verus! {

/// A run of text placed on a page, at `(x, y)` in hundredths of a point.
#[derive(Debug, Clone)]
pub struct RawTextItem {
    pub x: i32,
    pub y: i32,
    pub text: String,
}

/// The text lines of one page; `width` and `height` in hundredths of a point.
#[derive(Debug, Clone)]
pub struct PageData {
    pub page_number: usize,
    pub width: i32,
    pub height: i32,
    pub lines: Vec<RawTextItem>,
}


/// `x` with the sign of the page width folded in, so that `x / w` keeps its sign over `|w|`.
pub open spec fn signed_x(x: int, w: int) -> int {
    if w < 0 {
        -x
    } else {
        x
    }
}

pub open spec fn abs_int(v: int) -> int {
    if v < 0 {
        -v
    } else {
        v
    }
}

/// `x / w < pct / 100`, compared as the quotient of real numbers (when `w` is zero, as the
/// division of floating-point numbers gives: an infinity of the sign of `x`, or no number).
pub open spec fn ratio_below(x: int, w: int, pct: int) -> bool {
    100 * signed_x(x, w) < pct * abs_int(w)
}

/// `x / w > pct / 100`, compared as [`ratio_below`] does.
pub open spec fn ratio_above(x: int, w: int, pct: int) -> bool {
    100 * signed_x(x, w) > pct * abs_int(w)
}

/// `|x / w - pct / 100|`, scaled by `100 |w|`.
pub open spec fn ratio_distance(x: int, w: int, pct: int) -> int {
    abs_int(100 * signed_x(x, w) - pct * abs_int(w))
}

/// `100 x` over a page of width `w`, as used by the ratio comparisons.
pub fn scaled_x(x: i32, w: i32) -> (r: i128)
    ensures
        r == 100 * signed_x(x as int, w as int),
        -0x100_0000_0000 <= r <= 0x100_0000_0000,
{
    let xi = x as i128;
    if w < 0 {
        0 - 100 * xi
    } else {
        100 * xi
    }
}

/// `pct |w|`, as used by the ratio comparisons.
pub fn scaled_pct(pct: i64, w: i32) -> (r: i128)
    ensures
        r == pct * abs_int(w as int),
        -0x4000_0000_0000_0000_0000_0000 <= r <= 0x4000_0000_0000_0000_0000_0000,
{
    let aw: i128 = if w < 0 {
        -(w as i128)
    } else {
        w as i128
    };
    assert(-0x8000_0000_0000_0000 <= pct <= 0x7fff_ffff_ffff_ffff);
    assert(0 <= aw <= 0x8000_0000);
    assert((pct as i128) * aw <= 0x7fff_ffff_ffff_ffff * 0x8000_0000) by (nonlinear_arith)
        requires
            pct <= 0x7fff_ffff_ffff_ffff,
            0 <= aw <= 0x8000_0000,
    ;
    assert((pct as i128) * aw >= -0x8000_0000_0000_0000 * 0x8000_0000) by (nonlinear_arith)
        requires
            pct >= -0x8000_0000_0000_0000,
            0 <= aw <= 0x8000_0000,
    ;
    (pct as i128) * aw
}

pub fn below(x: i32, w: i32, pct: i64) -> (r: bool)
    ensures
        r == ratio_below(x as int, w as int, pct as int),
{
    scaled_x(x, w) < scaled_pct(pct, w)
}

pub fn above(x: i32, w: i32, pct: i64) -> (r: bool)
    ensures
        r == ratio_above(x as int, w as int, pct as int),
{
    scaled_x(x, w) > scaled_pct(pct, w)
}

pub fn distance(x: i32, w: i32, pct: i64) -> (r: i128)
    ensures
        r == ratio_distance(x as int, w as int, pct as int),
{
    let d = scaled_x(x, w) - scaled_pct(pct, w);
    if d < 0 {
        -d
    } else {
        d
    }
}


/// What a [`RawTextItem`] holds, as mathematical values.
pub struct TextItem {
    pub x: int,
    pub y: int,
    pub text: Seq<char>,
}

impl View for RawTextItem {
    type V = TextItem;

    open spec fn view(&self) -> TextItem {
        TextItem { x: self.x as int, y: self.y as int, text: self.text@ }
    }
}

pub open spec fn item_views(items: Seq<RawTextItem>) -> Seq<TextItem> {
    items.map_values(|i: RawTextItem| i@)
}

/// `a` comes before `b` in reading order: on the same baseline (within 2 points) the one
/// further left, else the one higher on the page.
pub open spec fn reads_before(a: TextItem, b: TextItem) -> bool {
    if abs_int(a.y - b.y) < 200 {
        a.x < b.x
    } else {
        a.y > b.y
    }
}

/// `it` inserted into `s` after the last item that it does not read before.
pub open spec fn insert_in_reading_order(s: Seq<TextItem>, it: TextItem) -> Seq<TextItem>
    decreases s.len(),
{
    if s.len() == 0 {
        seq![it]
    } else if !reads_before(it, s.last()) {
        s.push(it)
    } else {
        insert_in_reading_order(s.drop_last(), it).push(s.last())
    }
}

/// The items in reading order, by insertion in turn (a stable sort).
pub open spec fn reading_order(s: Seq<TextItem>) -> Seq<TextItem>
    decreases s.len(),
{
    if s.len() == 0 {
        Seq::empty()
    } else {
        insert_in_reading_order(reading_order(s.drop_last()), s.last())
    }
}

/// Where a run of text ends: 7.2 points per character after its start.
pub open spec fn run_end(it: TextItem) -> int {
    it.x + 720 * it.text.len()
}

/// The merged lines and the end of the last run, after `it` is read: an item on the baseline
/// of the last line (within 2.5 points) that starts less than 25 points after the end of the
/// last run joins that line, after a space when it starts more than 2.5 points after it and
/// neither side has one; any other item starts a new line.
pub open spec fn merge_step(lines: Seq<TextItem>, end: int, it: TextItem) -> (Seq<TextItem>, int) {
    if lines.len() > 0 && abs_int(lines.last().y - it.y) < 250 && it.x - end < 2500 {
        let last = lines.last();
        let spaced = it.x - end > 250 && !has_suffix(last.text, " "@) && !has_prefix(it.text, " "@);
        let text = if spaced {
            last.text.push(' ') + it.text
        } else {
            last.text + it.text
        };
        (lines.update(lines.len() - 1, TextItem { x: last.x, y: last.y, text }), run_end(it))
    } else {
        (lines.push(it), run_end(it))
    }
}

/// The lines merged from `items`, read in order, with the end of the last run.
pub open spec fn merge_runs(items: Seq<TextItem>) -> (Seq<TextItem>, int)
    decreases items.len(),
{
    if items.len() == 0 {
        (Seq::empty(), 0)
    } else {
        let (lines, end) = merge_runs(items.drop_last());
        merge_step(lines, end, items.last())
    }
}

/// The text runs of a page merged into lines: sorted in reading order, then joined along
/// each baseline.
pub open spec fn merged_lines(items: Seq<TextItem>) -> Seq<TextItem> {
    merge_runs(reading_order(items)).0
}

fn reads_before_exec(a: &RawTextItem, b: &RawTextItem) -> (r: bool)
    ensures
        r == reads_before(a@, b@),
{
    let dy = a.y as i64 - b.y as i64;
    if -200 < dy && dy < 200 {
        a.x < b.x
    } else {
        a.y > b.y
    }
}

proof fn lemma_insert_in_reading_order(s: Seq<TextItem>, it: TextItem, j: int)
    requires
        0 <= j <= s.len(),
        forall|k: int| j <= k < s.len() ==> reads_before(it, #[trigger] s[k]),
        j > 0 ==> !reads_before(it, s[j - 1]),
    ensures
        insert_in_reading_order(s, it) == s.insert(j, it),
    decreases s.len(),
{
    if s.len() == 0 {
        assert(s.insert(j, it) =~= seq![it]);
    } else if j == s.len() {
        assert(s.insert(j, it) =~= s.push(it));
    } else {
        lemma_insert_in_reading_order(s.drop_last(), it, j);
        assert(s.drop_last().insert(j, it).push(s.last()) =~= s.insert(j, it));
    }
}

fn copy_item(it: &RawTextItem) -> (r: RawTextItem)
    ensures
        r@ == it@,
{
    RawTextItem { x: it.x, y: it.y, text: it.text.clone() }
}

fn sort_reading_order(items: &Vec<RawTextItem>) -> (r: Vec<RawTextItem>)
    ensures
        item_views(r@) == reading_order(item_views(items@)),
{
    let mut r: Vec<RawTextItem> = Vec::new();
    let mut i: usize = 0;
    while i < items.len()
        invariant
            0 <= i <= items.len(),
            item_views(r@) == reading_order(item_views(items@.take(i as int))),
        decreases items.len() - i,
    {
        let it = copy_item(&items[i]);
        let mut j = r.len();
        while j > 0 && reads_before_exec(&it, &r[j - 1])
            invariant
                0 <= j <= r.len(),
                forall|k: int| j <= k < r@.len() ==> reads_before(it@, #[trigger] r@[k]@),
            decreases j,
        {
            j = j - 1;
        }
        let ghost before = item_views(r@);
        proof {
            lemma_insert_in_reading_order(before, it@, j as int);
        }
        let ghost itv = it@;
        r.insert(j, it);
        assert(item_views(r@) =~= before.insert(j as int, itv));
        assert(item_views(items@.take(i + 1)).drop_last() =~= item_views(items@.take(i as int)));
        i = i + 1;
    }
    assert(items@.take(items@.len() as int) =~= items@);
    r
}

/// Sorts the text runs of a page into reading order and joins the runs that share a baseline
/// into lines.
pub fn merge_same_line_items(items: Vec<RawTextItem>) -> (r: Vec<RawTextItem>)
    ensures
        item_views(r@) == merged_lines(item_views(items@)),
{
    let sorted = sort_reading_order(&items);
    let ghost sv = item_views(sorted@);
    let mut result: Vec<RawTextItem> = Vec::new();
    let mut last_end: i128 = 0;
    let mut i: usize = 0;
    while i < sorted.len()
        invariant
            0 <= i <= sorted.len(),
            sv == item_views(sorted@),
            (item_views(result@), last_end as int) == merge_runs(sv.take(i as int)),
            -0x1_0000_0000_0000_0000_0000 <= last_end <= 0x1_0000_0000_0000_0000_0000,
        decreases sorted.len() - i,
    {
        let it = &sorted[i];
        let ghost before = item_views(result@);
        assert(sv.take(i + 1).drop_last() =~= sv.take(i as int));
        assert(sv.take(i + 1).last() == it@);
        let text = chars_of(it.text.as_str());
        let count = text.len() as i128;
        assert(0 <= count <= 0xffff_ffff_ffff_ffff);
        let end = it.x as i128 + 720 * count;
        let n = result.len();
        let joins = n > 0 && {
            let dy = result[n - 1].y as i64 - it.y as i64;
            -250 < dy && dy < 250
        } && (it.x as i128) - last_end < 2500;
        if joins {
            let gap = (it.x as i128) - last_end;
            let mut last = match result.pop() {
                Some(l) => l,
                None => copy_item(it),
            };
            assert(last@ == before.last());
            let mut joined = chars_of(last.text.as_str());
            if gap > 250 && !ends_with_str(&joined, " ") && !starts_with_str(&text, " ") {
                joined.push(' ');
            }
            crate::text::push_all(&mut joined, &text);
            last.text = crate::text::string_from(&joined);
            result.push(last);
            assert(item_views(result@) =~= merge_step(before, last_end as int, it@).0);
        } else {
            result.push(copy_item(it));
            assert(item_views(result@) =~= before.push(it@));
        }
        last_end = end;
        i = i + 1;
    }
    assert(sv.take(sv.len() as int) =~= sv);
    result
}


/// The run that a text-showing operator places at `(x, y)`: its text without surrounding
/// white space, moved right 7.2 points for each leading white-space character (no further
/// than the largest position); none when the text is only white space.
pub open spec fn placed_run(x: int, y: int, text: Seq<char>) -> Option<TextItem> {
    let t = trim_ws(text);
    if t.len() == 0 {
        None
    } else {
        let shifted = x + 720 * lead_from(text, CharClass::Space, 0);
        let nx = if shifted > i32::MAX { i32::MAX as int } else { shifted };
        Some(TextItem { x: nx, y, text: t })
    }
}

/// The run of text that a text-showing operator places at `(x, y)`, as [`placed_run`] says.
pub fn positioned_run(x: i32, y: i32, text: &str) -> (r: Option<RawTextItem>)
    ensures
        match r {
            Some(it) => placed_run(x as int, y as int, text@) == Some(it@),
            None => placed_run(x as int, y as int, text@) is None,
        },
{
    let s = chars_of(text);
    let t = trim_spaces(&s);
    if t.len() == 0 {
        return None;
    }
    let lead = lead_len(&s, CharClass::Space);
    let shifted: i128 = x as i128 + 720 * (lead as i128);
    let nx: i32 = if shifted > i32::MAX as i128 {
        i32::MAX
    } else {
        shifted as i32
    };
    Some(RawTextItem { x: nx, y, text: string_from(&t) })
}

broadcast use vstd::laws_cmp::group_laws_cmp;

/// The text that `String::from_utf8_lossy` makes of some bytes.
pub uninterp spec fn lossy_utf8(b: Seq<u8>) -> Seq<char>;

/// Calls `String::from_utf8_lossy`: valid UTF-8 is decoded as it is; the result is named
/// [`lossy_utf8`] (invalid sequences become U+FFFD).
#[verifier::external_body]
pub(crate) fn utf8_lossy(b: &[u8]) -> (r: Vec<char>)
    ensures
        r@ == lossy_utf8(b@),
        valid_utf8(b@) ==> r@ == decode_utf8(b@),
{
    String::from_utf8_lossy(b).chars().collect()
}

/// UTF-16 decoding: units outside `D800..=DFFF` stand for themselves, a high surrogate
/// followed by a low one for one supplementary character; anything else is an error.
pub open spec fn utf16_decode(u: Seq<u16>) -> Option<Seq<char>>
    decreases u.len(),
{
    if u.len() == 0 {
        Some(Seq::empty())
    } else if u[0] < 0xD800 || u[0] > 0xDFFF {
        match utf16_decode(u.drop_first()) {
            Some(r) => Some(seq![u[0] as char] + r),
            None => None,
        }
    } else if u[0] <= 0xDBFF && u.len() >= 2 && 0xDC00 <= u[1] && u[1] <= 0xDFFF {
        let c = 0x10000 + (u[0] - 0xD800) * 0x400 + (u[1] - 0xDC00);
        match utf16_decode(u.skip(2)) {
            Some(r) => Some(seq![c as char] + r),
            None => None,
        }
    } else {
        None
    }
}

/// Calls `String::from_utf16`: the UTF-16 decoding of `u`, or `None` where it is invalid.
#[verifier::external_body]
pub(crate) fn string_from_utf16(u: &[u16]) -> (r: Option<Vec<char>>)
    ensures
        match r {
            Some(v) => utf16_decode(u@) == Some(v@),
            None => utf16_decode(u@) is None,
        },
{
    match String::from_utf16(u) {
        Ok(s) => Some(s.chars().collect()),
        Err(_) => None,
    }
}

/// Calls `char::from_u32`: the character with code point `v`, when `v` is a Unicode scalar
/// value.
#[verifier::external_body]
pub(crate) fn char_from_u32(v: u32) -> (r: Option<char>)
    ensures
        r is Some <==> (v <= 0x10FFFF && !(0xD800 <= v && v <= 0xDFFF)),
        r matches Some(c) ==> c as u32 == v,
{
    char::from_u32(v)
}

/// The hex tokens of a CMap line from index `i`: each `<...>` group with its brackets, up to
/// the first `[` outside a group, from which the rest of the line (from its first `[`) is one
/// last token. `toks` are the tokens found, `cur` the group being read, `inb` whether one is.
pub open spec fn hex_tokens_from(
    s: Seq<char>,
    i: int,
    toks: Seq<Seq<char>>,
    cur: Seq<char>,
    inb: bool,
) -> Seq<Seq<char>>
    decreases s.len() - i,
{
    if i < 0 || i >= s.len() {
        toks
    } else {
        let c = s[i];
        if c == '<' {
            hex_tokens_from(s, i + 1, toks, cur.push(c), true)
        } else if c == '>' {
            if inb {
                hex_tokens_from(s, i + 1, toks.push(cur.push(c)), Seq::empty(), false)
            } else {
                hex_tokens_from(s, i + 1, toks, cur.push(c), false)
            }
        } else if c == '[' && !inb {
            toks.push(s.skip(index_from(s, '[', 0)))
        } else if inb {
            hex_tokens_from(s, i + 1, toks, cur.push(c), inb)
        } else {
            hex_tokens_from(s, i + 1, toks, cur, inb)
        }
    }
}

/// The hex tokens of a CMap line.
pub open spec fn hex_tokens(s: Seq<char>) -> Seq<Seq<char>> {
    hex_tokens_from(s, 0, Seq::empty(), Seq::empty(), false)
}

pub fn split_hex_token_chars(s: &[char]) -> (r: Vec<Vec<char>>)
    ensures
        views_of(r@) == hex_tokens(s@),
{
    let mut toks: Vec<Vec<char>> = Vec::new();
    let mut cur: Vec<char> = Vec::new();
    let mut inb = false;
    let mut i: usize = 0;
    assert(views_of(toks@) =~= Seq::<Seq<char>>::empty());
    while i < s.len()
        invariant
            0 <= i <= s.len(),
            hex_tokens_from(s@, i as int, views_of(toks@), cur@, inb) == hex_tokens(s@),
        decreases s.len() - i,
    {
        let c = s[i];
        let ghost before = views_of(toks@);
        if c == '<' {
            inb = true;
            cur.push(c);
        } else if c == '>' {
            cur.push(c);
            if inb {
                let ghost cv = cur@;
                toks.push(cur);
                cur = Vec::new();
                inb = false;
                assert(views_of(toks@) =~= before.push(cv));
            }
        } else if c == '[' && !inb {
            let start = crate::text::find_char(s, '[', 0);
            proof {
                crate::text::lemma_index_from(s@, '[', 0);
            }
            let rest = crate::text::slice_to_vec(s, start, s.len());
            assert(rest@ =~= s@.skip(start as int));
            toks.push(rest);
            assert(views_of(toks@) =~= before.push(s@.skip(index_from(s@, '[', 0))));
            return toks;
        } else if inb {
            cur.push(c);
        }
        i = i + 1;
    }
    toks
}

/// The texts of a sequence of strings.
pub open spec fn string_views(v: Seq<String>) -> Seq<Seq<char>> {
    v.map_values(|t: String| t@)
}

/// Splits a CMap line into its hex tokens.
pub fn split_hex_tokens(s: &str) -> (r: Vec<String>)
    ensures
        string_views(r@) == hex_tokens(s@),
{
    let toks = split_hex_token_chars(&chars_of(s));
    let mut r: Vec<String> = Vec::new();
    let mut i: usize = 0;
    while i < toks.len()
        invariant
            0 <= i <= toks.len(),
            string_views(r@) == views_of(toks@).take(i as int),
        decreases toks.len() - i,
    {
        let ghost before = string_views(r@);
        let t = string_from(&toks[i]);
        assert(t@ == views_of(toks@)[i as int]);
        r.push(t);
        i = i + 1;
        assert(string_views(r@) =~= before.push(views_of(toks@)[i - 1]));
        assert(views_of(toks@).take(i as int) =~= views_of(toks@).take(i - 1).push(
            views_of(toks@)[i - 1],
        ));
    }
    assert(views_of(toks@).take(toks@.len() as int) =~= views_of(toks@));
    r
}

/// The number that a `<...>` token of a CMap names, in hexadecimal.
pub open spec fn hex_code(s: Seq<char>) -> Option<u32> {
    match parse_unsigned_spec(trim(s, CharClass::Angles), 16, u32::MAX as nat) {
        Some(v) => Some(v as u32),
        None => None,
    }
}

pub fn hex_code_chars(s: &[char]) -> (r: Option<u32>)
    ensures
        r == hex_code(s@),
{
    let clean = trim_class(s, CharClass::Angles);
    match parse_unsigned(&clean, 16, 0xffff_ffff) {
        Some(v) => Some(v as u32),
        None => None,
    }
}

/// Parses a hexadecimal CMap token such as `<0041>`.
pub fn parse_hex(s: &str) -> (r: Option<u32>)
    ensures
        r == hex_code(s@),
{
    hex_code_chars(&chars_of(s))
}

/// Every character of `s` is ASCII.
pub open spec fn all_ascii(s: Seq<char>) -> bool {
    forall|i: int| 0 <= i < s.len() ==> (#[trigger] s[i] as u32) < 0x80
}

/// The UTF-16 code units written as groups of four hex digits in `s` from group `k` on.
pub open spec fn utf16_units_from(s: Seq<char>, k: int) -> Option<Seq<u16>>
    decreases s.len() - 4 * k,
{
    if k < 0 || 4 * k + 4 > s.len() {
        Some(Seq::empty())
    } else {
        match parse_unsigned_spec(s.subrange(4 * k, 4 * k + 4), 16, 0xffff) {
            Some(v) => match utf16_units_from(s, k + 1) {
                Some(rest) => Some(seq![v as u16] + rest),
                None => None,
            },
            None => None,
        }
    }
}

/// The text that a `<...>` destination token of a CMap gives: its hex digits read as UTF-16
/// code units, four digits each, then decoded; nothing when the token is not a whole number
/// of four-byte groups of hex digits or is not valid UTF-16.
pub open spec fn utf16_hex(s: Seq<char>) -> Option<Seq<char>> {
    let clean = trim(s, CharClass::Angles);
    if utf8_len(clean) % 4 != 0 || !all_ascii(clean) {
        None
    } else {
        match utf16_units_from(clean, 0) {
            Some(u) => utf16_decode(u),
            None => None,
        }
    }
}

proof fn lemma_ascii_utf8_len(s: Seq<char>)
    requires
        all_ascii(s),
    ensures
        utf8_len(s) == s.len(),
    decreases s.len(),
{
    if s.len() > 0 {
        assert(all_ascii(s.drop_last()));
        lemma_ascii_utf8_len(s.drop_last());
        assert((s[s.len() - 1] as u32) < 0x80);
    }
}

pub fn utf16_hex_chars(s: &[char]) -> (r: Option<Vec<char>>)
    ensures
        crate::fsm::opt_chars(r) == utf16_hex(s@),
{
    let clean = trim_class(s, CharClass::Angles);
    let mut k: usize = 0;
    while k < clean.len()
        invariant
            0 <= k <= clean.len(),
            clean@ == trim(s@, CharClass::Angles),
            forall|j: int| 0 <= j < k ==> (#[trigger] clean@[j] as u32) < 0x80,
        decreases clean.len() - k,
    {
        if (clean[k] as u32) >= 0x80 {
            assert(!all_ascii(clean@));
            return None;
        }
        k = k + 1;
    }
    proof {
        lemma_ascii_utf8_len(clean@);
    }
    if clean.len() % 4 != 0 {
        return None;
    }
    let mut units: Vec<u16> = Vec::new();
    let mut g: usize = 0;
    let groups = clean.len() / 4;
    while g < groups
        invariant
            0 <= g <= groups,
            groups * 4 == clean@.len(),
            clean@ == trim(s@, CharClass::Angles),
            all_ascii(clean@),
            utf8_len(clean@) % 4 == 0,
            utf16_units_from(clean@, 0) == match utf16_units_from(clean@, g as int) {
                Some(rest) => Some(units@ + rest),
                None => None::<Seq<u16>>,
            },
        decreases groups - g,
    {
        assert(4 * g + 4 <= 4 * groups);
        let chunk = crate::text::slice_to_vec(&clean, 4 * g, 4 * g + 4);
        match parse_unsigned(&chunk, 16, 0xffff) {
            Some(v) => {
                let ghost before = units@;
                units.push(v as u16);
                g = g + 1;
                proof {
                    match utf16_units_from(clean@, g as int) {
                        Some(rest) => {
                            assert(before + (seq![v as u16] + rest) =~= units@ + rest);
                        },
                        None => {},
                    }
                }
            },
            None => {
                return None;
            },
        }
    }
    assert(units@ + Seq::<u16>::empty() =~= units@);
    string_from_utf16(&units)
}

/// Parses a hexadecimal UTF-16 CMap destination such as `<00410042>`.
pub fn parse_utf16_hex(s: &str) -> (r: Option<String>)
    ensures
        r.deep_view() == utf16_hex(s@),
{
    match utf16_hex_chars(&chars_of(s)) {
        Some(v) => Some(string_from(&v)),
        None => None,
    }
}


/// The texts a CMap maps character codes to.
pub open spec fn cmap_view(m: BTreeMap<u32, String>) -> Map<u32, Seq<char>> {
    m@.map_values(|v: String| v@)
}

/// The character with the same value as a byte (Latin-1).
pub open spec fn latin1(b: u8) -> char {
    b as char
}

/// The text of one byte at `i`: its CMap entry, else the Latin-1 character.
pub open spec fn single_byte_text(b: Seq<u8>, cmap: Map<u32, Seq<char>>, i: int) -> Seq<char> {
    let code = b[i] as u32;
    if cmap.contains_key(code) {
        cmap[code]
    } else {
        seq![latin1(b[i])]
    }
}

/// The two-byte code at `i` (big-endian).
pub open spec fn two_byte_code(b: Seq<u8>, i: int) -> u32 {
    (b[i] as int * 256 + b[i + 1] as int) as u32
}

/// The text of the bytes of a PDF string from index `i`: a two-byte code with a CMap entry
/// gives that entry; otherwise, in a font with two-byte codes the two bytes give nothing,
/// and else the single byte gives its entry or its Latin-1 character.
pub open spec fn decode_from(b: Seq<u8>, cmap: Map<u32, Seq<char>>, cid: bool, i: int) -> Seq<char>
    decreases b.len() - i,
{
    if i < 0 || i >= b.len() {
        Seq::empty()
    } else if i + 1 < b.len() && cmap.contains_key(two_byte_code(b, i)) {
        cmap[two_byte_code(b, i)] + decode_from(b, cmap, cid, i + 2)
    } else if i + 1 < b.len() && cid {
        decode_from(b, cmap, cid, i + 2)
    } else {
        single_byte_text(b, cmap, i) + decode_from(b, cmap, cid, i + 1)
    }
}

/// The text of the bytes of a PDF string.
pub open spec fn decoded(b: Seq<u8>, cmap: Map<u32, Seq<char>>, cid: bool) -> Seq<char> {
    decode_from(b, cmap, cid, 0)
}

fn cmap_get(cmap: &BTreeMap<u32, String>, code: u32) -> (r: Option<Vec<char>>)
    ensures
        match r {
            Some(v) => cmap_view(*cmap).contains_key(code) && cmap_view(*cmap)[code] == v@,
            None => !cmap_view(*cmap).contains_key(code),
        },
{
    match cmap.get(&code) {
        Some(s) => Some(chars_of(s.as_str())),
        None => None,
    }
}

pub fn decode_byte_chars(bytes: &[u8], cmap: &BTreeMap<u32, String>, is_cid: bool) -> (r: Vec<char>)
    ensures
        r@ == decoded(bytes@, cmap_view(*cmap), is_cid),
{
    let ghost m = cmap_view(*cmap);
    let mut res: Vec<char> = Vec::new();
    let mut i: usize = 0;
    while i < bytes.len()
        invariant
            0 <= i <= bytes.len(),
            m == cmap_view(*cmap),
            res@ + decode_from(bytes@, m, is_cid, i as int) == decoded(bytes@, m, is_cid),
        decreases bytes.len() - i,
    {
        let ghost before = res@;
        if i + 1 < bytes.len() {
            let code: u32 = (bytes[i] as u32) * 256 + bytes[i + 1] as u32;
            assert(code == two_byte_code(bytes@, i as int));
            match cmap_get(cmap, code) {
                Some(t) => {
                    crate::text::push_all(&mut res, &t);
                    i = i + 2;
                    assert(before + decode_from(bytes@, m, is_cid, i - 2) =~= res@ + decode_from(
                        bytes@,
                        m,
                        is_cid,
                        i as int,
                    ));
                    continue;
                },
                None => {},
            }
            if is_cid {
                i = i + 2;
                continue;
            }
        }
        let single = bytes[i] as u32;
        match cmap_get(cmap, single) {
            Some(t) => {
                crate::text::push_all(&mut res, &t);
            },
            None => {
                res.push(bytes[i] as char);
            },
        }
        i = i + 1;
        assert(before + decode_from(bytes@, m, is_cid, i - 1) =~= res@ + decode_from(
            bytes@,
            m,
            is_cid,
            i as int,
        ));
    }
    assert(res@ + Seq::<char>::empty() =~= res@);
    res
}

/// Decodes the bytes of a PDF string through a font's CMap.
pub fn decode_bytes(bytes: &[u8], cmap: &BTreeMap<u32, String>, is_cid: bool) -> (r: String)
    ensures
        r@ == decoded(bytes@, cmap_view(*cmap), is_cid),
{
    string_from(&decode_byte_chars(bytes, cmap, is_cid))
}


/// `v` reduced modulo 2^32, as wrapping `u32` arithmetic gives.
pub open spec fn wrap32(v: int) -> u32 {
    (v % 0x1_0000_0000) as u32
}

/// The entries of an array range `[<d0> <d1> ...]` from destination `idx` on: code `s + idx`
/// maps to the text of the destination, until a code passes `e`.
pub open spec fn array_entries(
    m: Map<u32, Seq<char>>,
    s: u32,
    e: u32,
    dest: Seq<Seq<char>>,
    idx: int,
) -> Map<u32, Seq<char>>
    decreases dest.len() - idx,
{
    if idx < 0 || idx >= dest.len() {
        m
    } else {
        let cid = wrap32(s + idx);
        if cid > e {
            m
        } else {
            let m2 = match utf16_hex(dest[idx]) {
                Some(t) => m.insert(cid, t),
                None => m,
            };
            array_entries(m2, s, e, dest, idx + 1)
        }
    }
}

/// The entries of a sequential range from offset `i` up to `count`: code `s + i` maps to
/// the character `d + i`, where that is a Unicode scalar value.
pub open spec fn sequential_entries(
    m: Map<u32, Seq<char>>,
    s: u32,
    d: u32,
    i: int,
    count: int,
) -> Map<u32, Seq<char>>
    decreases count + 1 - i,
{
    if i < 0 || i > count {
        m
    } else {
        let v = wrap32(d + i);
        let m2 = if v <= 0x10FFFF && !(0xD800 <= v && v <= 0xDFFF) {
            m.insert(wrap32(s + i), seq![v as char])
        } else {
            m
        };
        sequential_entries(m2, s, d, i + 1, count)
    }
}

/// The reading state of a CMap: the entries found and which section is open.
pub struct CMapState {
    pub map: Map<u32, Seq<char>>,
    pub in_char: bool,
    pub in_range: bool,
}

/// The entries of a `bfrange` line added to `m`.
pub open spec fn range_line(m: Map<u32, Seq<char>>, tk: Seq<Seq<char>>) -> Map<u32, Seq<char>> {
    if tk.len() >= 3 {
        match (hex_code(tk[0]), hex_code(tk[1])) {
            (Some(s), Some(e)) => {
                if has_prefix(tk[2], "["@) {
                    array_entries(m, s, e, hex_tokens(trim(tk[2], CharClass::Brackets)), 0)
                } else {
                    match hex_code(tk[2]) {
                        Some(d) => sequential_entries(m, s, d, 0, wrap32(e - s) as int),
                        None => m,
                    }
                }
            },
            _ => m,
        }
    } else {
        m
    }
}

/// The entry of a `bfchar` line added to `m`.
pub open spec fn char_line(m: Map<u32, Seq<char>>, tk: Seq<Seq<char>>) -> Map<u32, Seq<char>> {
    if tk.len() >= 2 {
        match (hex_code(tk[0]), utf16_hex(tk[1])) {
            (Some(c), Some(t)) => m.insert(c, t),
            _ => m,
        }
    } else {
        m
    }
}

/// One line of a CMap read: section markers open and close `bfchar` and `bfrange`
/// sections, and the lines inside them add entries.
pub open spec fn cmap_line(st: CMapState, line: Seq<char>) -> CMapState {
    let t = trim_ws(line);
    if has_suffix(t, "beginbfchar"@) {
        CMapState { in_char: true, ..st }
    } else if has_suffix(t, "endbfchar"@) {
        CMapState { in_char: false, ..st }
    } else if has_suffix(t, "beginbfrange"@) {
        CMapState { in_range: true, ..st }
    } else if has_suffix(t, "endbfrange"@) {
        CMapState { in_range: false, ..st }
    } else if st.in_char {
        CMapState { map: char_line(st.map, hex_tokens(t)), ..st }
    } else if st.in_range {
        CMapState { map: range_line(st.map, hex_tokens(t)), ..st }
    } else {
        st
    }
}

/// The state after the lines `ls`, read in order.
pub open spec fn cmap_lines(ls: Seq<Seq<char>>) -> CMapState
    decreases ls.len(),
{
    if ls.len() == 0 {
        CMapState { map: Map::empty(), in_char: false, in_range: false }
    } else {
        cmap_line(cmap_lines(ls.drop_last()), ls.last())
    }
}

/// The character code to text mapping of a ToUnicode CMap stream.
pub open spec fn cmap_of(data: Seq<u8>) -> Map<u32, Seq<char>> {
    cmap_lines(lines_of(lossy_utf8(data))).map
}

fn insert_entry(m: &mut BTreeMap<u32, String>, code: u32, t: &[char])
    ensures
        cmap_view(*final(m)) == cmap_view(*old(m)).insert(code, t@),
{
    let s = string_from(t);
    let _ = m.insert(code, s);
    assert(cmap_view(*m) =~= cmap_view(*old(m)).insert(code, t@));
}

fn add_array_entries(m: &mut BTreeMap<u32, String>, s: u32, e: u32, dest: &Vec<Vec<char>>)
    ensures
        cmap_view(*final(m)) == array_entries(cmap_view(*old(m)), s, e, views_of(dest@), 0),
{
    let ghost dv = views_of(dest@);
    let mut idx: usize = 0;
    while idx < dest.len()
        invariant
            0 <= idx <= dest.len(),
            dv == views_of(dest@),
            array_entries(cmap_view(*m), s, e, dv, idx as int) == array_entries(
                cmap_view(*old(m)),
                s,
                e,
                dv,
                0,
            ),
        decreases dest.len() - idx,
    {
        let cid = s.wrapping_add(idx as u32);
        assert(cid == wrap32(s + idx)) by (bit_vector)
            requires
                cid == s.wrapping_add(idx as u32),
        ;
        if cid > e {
            return;
        }
        match utf16_hex_chars(&dest[idx]) {
            Some(t) => {
                insert_entry(m, cid, &t);
            },
            None => {},
        }
        idx = idx + 1;
    }
}


fn add_sequential_entries(m: &mut BTreeMap<u32, String>, s: u32, d: u32, count: u32)
    ensures
        cmap_view(*final(m)) == sequential_entries(cmap_view(*old(m)), s, d, 0, count as int),
{
    let mut i: u64 = 0;
    while i <= count as u64
        invariant
            0 <= i <= count as u64 + 1,
            sequential_entries(cmap_view(*m), s, d, i as int, count as int) == sequential_entries(
                cmap_view(*old(m)),
                s,
                d,
                0,
                count as int,
            ),
        decreases count as u64 + 1 - i,
    {
        let iu = i as u32;
        let v = d.wrapping_add(iu);
        let code = s.wrapping_add(iu);
        assert(v == wrap32(d + i)) by (bit_vector)
            requires
                v == d.wrapping_add(iu),
                iu == i as u32,
                i <= 0xffff_ffff,
        ;
        assert(code == wrap32(s + i)) by (bit_vector)
            requires
                code == s.wrapping_add(iu),
                iu == i as u32,
                i <= 0xffff_ffff,
        ;
        match char_from_u32(v) {
            Some(ch) => {
                let t: Vec<char> = vec![ch];
                proof {
                    vstd::utf8::char_u32_cast(ch, v);
                }
                assert(t@ =~= seq![v as char]);
                insert_entry(m, code, &t);
            },
            None => {},
        }
        i = i + 1;
    }
}

fn add_range_line(m: &mut BTreeMap<u32, String>, tk: &Vec<Vec<char>>)
    ensures
        cmap_view(*final(m)) == range_line(cmap_view(*old(m)), views_of(tk@)),
{
    let ghost tv = views_of(tk@);
    if tk.len() < 3 {
        return;
    }
    assert(tv[0] == tk@[0]@ && tv[1] == tk@[1]@ && tv[2] == tk@[2]@);
    match (hex_code_chars(&tk[0]), hex_code_chars(&tk[1])) {
        (Some(s), Some(e)) => {
            if starts_with_str(&tk[2], "[") {
                let inner = trim_class(&tk[2], CharClass::Brackets);
                let dest = split_hex_token_chars(&inner);
                add_array_entries(m, s, e, &dest);
            } else {
                match hex_code_chars(&tk[2]) {
                    Some(d) => {
                        let count = e.wrapping_sub(s);
                        assert(count == wrap32(e - s)) by (bit_vector)
                            requires
                                count == e.wrapping_sub(s),
                        ;
                        add_sequential_entries(m, s, d, count);
                    },
                    None => {},
                }
            }
        },
        _ => {},
    }
}

fn add_char_line(m: &mut BTreeMap<u32, String>, tk: &Vec<Vec<char>>)
    ensures
        cmap_view(*final(m)) == char_line(cmap_view(*old(m)), views_of(tk@)),
{
    let ghost tv = views_of(tk@);
    if tk.len() < 2 {
        return;
    }
    assert(tv[0] == tk@[0]@ && tv[1] == tk@[1]@);
    match (hex_code_chars(&tk[0]), utf16_hex_chars(&tk[1])) {
        (Some(c), Some(t)) => {
            insert_entry(m, c, &t);
        },
        _ => {},
    }
}

/// Reads the character code to text mapping of a ToUnicode CMap stream.
pub fn parse_cmap(data: &[u8]) -> (r: BTreeMap<u32, String>)
    ensures
        cmap_view(r) == cmap_of(data@),
{
    let text = utf8_lossy(data);
    let ls = crate::text::lines(&text);
    let ghost lv = views_of(ls@);
    let mut map: BTreeMap<u32, String> = BTreeMap::new();
    let mut in_char = false;
    let mut in_range = false;
    let mut i: usize = 0;
    assert(cmap_view(map) =~= Map::<u32, Seq<char>>::empty());
    while i < ls.len()
        invariant
            0 <= i <= ls.len(),
            lv == views_of(ls@),
            lv == lines_of(lossy_utf8(data@)),
            cmap_lines(lv.take(i as int)) == (CMapState {
                map: cmap_view(map),
                in_char,
                in_range,
            }),
        decreases ls.len() - i,
    {
        assert(lv.take(i + 1).drop_last() =~= lv.take(i as int));
        assert(lv.take(i + 1).last() == ls@[i as int]@);
        let t = trim_spaces(&ls[i]);
        if ends_with_str(&t, "beginbfchar") {
            in_char = true;
        } else if ends_with_str(&t, "endbfchar") {
            in_char = false;
        } else if ends_with_str(&t, "beginbfrange") {
            in_range = true;
        } else if ends_with_str(&t, "endbfrange") {
            in_range = false;
        } else if in_char {
            let tk = split_hex_token_chars(&t);
            add_char_line(&mut map, &tk);
        } else if in_range {
            let tk = split_hex_token_chars(&t);
            add_range_line(&mut map, &tk);
        }
        i = i + 1;
    }
    assert(lv.take(lv.len() as int) =~= lv);
    map
}


/// An operand of a text-showing operator (`Tj`, `TJ`), as far as its text goes.
#[derive(Debug, Clone)]
pub enum TextOperand {
    /// A string.
    Text(Vec<u8>),
    /// An array: the bytes of its string items, `None` for its other items.
    Array(Vec<Option<Vec<u8>>>),
    /// Any other operand.
    Other,
}

/// The strings of the items of an array operand, in order.
pub open spec fn array_runs(items: Seq<Option<Vec<u8>>>) -> Seq<Seq<u8>>
    decreases items.len(),
{
    if items.len() == 0 {
        Seq::empty()
    } else {
        let prev = array_runs(items.drop_last());
        match items.last() {
            Some(b) => prev.push(b@),
            None => prev,
        }
    }
}

/// The strings that an operand shows.
pub open spec fn operand_runs(op: TextOperand) -> Seq<Seq<u8>> {
    match op {
        TextOperand::Text(b) => seq![b@],
        TextOperand::Array(items) => array_runs(items@),
        TextOperand::Other => Seq::empty(),
    }
}

/// The strings that the operands show, in order.
pub open spec fn text_runs(ops: Seq<TextOperand>) -> Seq<Seq<u8>>
    decreases ops.len(),
{
    if ops.len() == 0 {
        Seq::empty()
    } else {
        text_runs(ops.drop_last()) + operand_runs(ops.last())
    }
}

/// The strings decoded through a CMap and joined.
pub open spec fn decoded_runs(runs: Seq<Seq<u8>>, cmap: Map<u32, Seq<char>>, cid: bool) -> Seq<char>
    decreases runs.len(),
{
    if runs.len() == 0 {
        Seq::empty()
    } else {
        decoded_runs(runs.drop_last(), cmap, cid) + decoded(runs.last(), cmap, cid)
    }
}

/// The strings read as UTF-8 (invalid sequences replaced) and joined.
pub open spec fn lossy_runs(runs: Seq<Seq<u8>>) -> Seq<char>
    decreases runs.len(),
{
    if runs.len() == 0 {
        Seq::empty()
    } else {
        lossy_runs(runs.drop_last()) + lossy_utf8(runs.last())
    }
}

pub open spec fn byte_views(v: Seq<Vec<u8>>) -> Seq<Seq<u8>> {
    v.map_values(|b: Vec<u8>| b@)
}

fn copy_bytes(b: &Vec<u8>) -> (r: Vec<u8>)
    ensures
        r@ == b@,
{
    let mut r: Vec<u8> = Vec::new();
    let mut i: usize = 0;
    while i < b.len()
        invariant
            0 <= i <= b.len(),
            r@ == b@.take(i as int),
        decreases b.len() - i,
    {
        r.push(b[i]);
        i = i + 1;
        assert(r@ =~= b@.take(i as int));
    }
    assert(b@.take(b@.len() as int) =~= b@);
    r
}

/// The strings that the operands show.
pub fn collect_runs(operands: &[TextOperand]) -> (r: Vec<Vec<u8>>)
    ensures
        byte_views(r@) == text_runs(operands@),
{
    let mut r: Vec<Vec<u8>> = Vec::new();
    let mut k: usize = 0;
    assert(byte_views(r@) =~= Seq::<Seq<u8>>::empty());
    while k < operands.len()
        invariant
            0 <= k <= operands.len(),
            byte_views(r@) == text_runs(operands@.take(k as int)),
        decreases operands.len() - k,
    {
        assert(operands@.take(k + 1).drop_last() =~= operands@.take(k as int));
        let ghost before = byte_views(r@);
        match &operands[k] {
            TextOperand::Text(b) => {
                r.push(copy_bytes(b));
                assert(byte_views(r@) =~= before + seq![b@]);
            },
            TextOperand::Array(items) => {
                let mut j: usize = 0;
                assert(before + array_runs(items@.take(0)) =~= before);
                while j < items.len()
                    invariant
                        0 <= j <= items.len(),
                        byte_views(r@) == before + array_runs(items@.take(j as int)),
                    decreases items.len() - j,
                {
                    assert(items@.take(j + 1).drop_last() =~= items@.take(j as int));
                    let ghost mid = byte_views(r@);
                    match &items[j] {
                        Some(b) => {
                            r.push(copy_bytes(b));
                            assert(byte_views(r@) =~= mid.push(b@));
                        },
                        None => {},
                    }
                    j = j + 1;
                }
                assert(items@.take(items@.len() as int) =~= items@);
            },
            TextOperand::Other => {
                assert(before + Seq::<Seq<u8>>::empty() =~= before);
            },
        }
        k = k + 1;
    }
    assert(operands@.take(operands@.len() as int) =~= operands@);
    r
}

/// Decodes the text that operands show through a CMap.
pub fn decode_text(cmap: &BTreeMap<u32, String>, is_cid: bool, operands: &[TextOperand]) -> (r: String)
    ensures
        r@ == decoded_runs(text_runs(operands@), cmap_view(*cmap), is_cid),
{
    let runs = collect_runs(operands);
    let ghost rv = byte_views(runs@);
    let mut out: Vec<char> = Vec::new();
    let mut i: usize = 0;
    while i < runs.len()
        invariant
            0 <= i <= runs.len(),
            rv == byte_views(runs@),
            out@ == decoded_runs(rv.take(i as int), cmap_view(*cmap), is_cid),
        decreases runs.len() - i,
    {
        assert(rv.take(i + 1).drop_last() =~= rv.take(i as int));
        let d = decode_byte_chars(&runs[i], cmap, is_cid);
        crate::text::push_all(&mut out, &d);
        i = i + 1;
    }
    assert(rv.take(rv.len() as int) =~= rv);
    string_from(&out)
}

/// Reads the text that operands show as UTF-8, for a font without a known encoding.
pub fn decode_plain_tj(operands: &[TextOperand]) -> (r: String)
    ensures
        r@ == lossy_runs(text_runs(operands@)),
{
    let runs = collect_runs(operands);
    let ghost rv = byte_views(runs@);
    let mut out: Vec<char> = Vec::new();
    let mut i: usize = 0;
    while i < runs.len()
        invariant
            0 <= i <= runs.len(),
            rv == byte_views(runs@),
            out@ == lossy_runs(rv.take(i as int)),
        decreases runs.len() - i,
    {
        assert(rv.take(i + 1).drop_last() =~= rv.take(i as int));
        let d = utf8_lossy(&runs[i]);
        crate::text::push_all(&mut out, &d);
        i = i + 1;
    }
    assert(rv.take(rv.len() as int) =~= rv);
    string_from(&out)
}

/// The bytes of the encoding name `Identity-H`.
pub open spec fn identity_h() -> Seq<u8> {
    seq![0x49u8, 0x64, 0x65, 0x6e, 0x74, 0x69, 0x74, 0x79, 0x2d, 0x48]
}

/// The bytes of the encoding name `Identity-V`.
pub open spec fn identity_v() -> Seq<u8> {
    seq![0x49u8, 0x64, 0x65, 0x6e, 0x74, 0x69, 0x74, 0x79, 0x2d, 0x56]
}

/// Whether an encoding name is one of the two-byte identity encodings (CID fonts).
pub open spec fn identity_encoding(name: Seq<u8>) -> bool {
    name == identity_h() || name == identity_v()
}

fn bytes_equal(a: &Vec<u8>, b: &Vec<u8>) -> (r: bool)
    ensures
        r == (a@ == b@),
{
    if a.len() != b.len() {
        return false;
    }
    let mut i: usize = 0;
    while i < a.len()
        invariant
            0 <= i <= a.len(),
            a.len() == b.len(),
            forall|j: int| 0 <= j < i ==> a@[j] == b@[j],
        decreases a.len() - i,
    {
        if a[i] != b[i] {
            return false;
        }
        i = i + 1;
    }
    assert(a@ =~= b@);
    true
}

fn is_identity_encoding(name: &Vec<u8>) -> (r: bool)
    ensures
        r == identity_encoding(name@),
{
    let h: Vec<u8> = vec![0x49u8, 0x64, 0x65, 0x6e, 0x74, 0x69, 0x74, 0x79, 0x2d, 0x48];
    let v: Vec<u8> = vec![0x49u8, 0x64, 0x65, 0x6e, 0x74, 0x69, 0x74, 0x79, 0x2d, 0x56];
    assert(h@ =~= identity_h());
    assert(v@ =~= identity_v());
    bytes_equal(name, &h) || bytes_equal(name, &v)
}

/// What the decoding of a font's text needs of its dictionary: the bytes of its ToUnicode
/// CMap (empty when it has none or it cannot be read) and the name of its encoding, if the
/// encoding is a name.
#[derive(Debug, Clone)]
pub struct FontInfo {
    pub to_unicode: Vec<u8>,
    pub encoding: Option<Vec<u8>>,
}

/// Two-byte codes are read when the font's encoding is an identity encoding.
pub open spec fn font_is_cid(font: FontInfo) -> bool {
    match font.encoding {
        Some(n) => identity_encoding(n@),
        None => false,
    }
}

/// Decodes the text that operands of a text-showing operator show in a font: through the
/// font's ToUnicode CMap, with two-byte codes for identity encodings.
pub fn decode_tj(font: &FontInfo, operands: &[TextOperand]) -> (r: String)
    ensures
        r@ == decoded_runs(text_runs(operands@), cmap_of(font.to_unicode@), font_is_cid(*font)),
{
    let cmap = parse_cmap(&font.to_unicode);
    let is_cid = match &font.encoding {
        Some(name) => is_identity_encoding(name),
        None => false,
    };
    decode_text(&cmap, is_cid, operands)
}


proof fn lemma_insert_in_reading_order_len(s: Seq<TextItem>, it: TextItem)
    ensures
        insert_in_reading_order(s, it).len() == s.len() + 1,
    decreases s.len(),
{
    if s.len() > 0 && reads_before(it, s.last()) {
        lemma_insert_in_reading_order_len(s.drop_last(), it);
    }
}

proof fn lemma_reading_order_len(s: Seq<TextItem>)
    ensures
        reading_order(s).len() == s.len(),
    decreases s.len(),
{
    if s.len() > 0 {
        lemma_reading_order_len(s.drop_last());
        lemma_insert_in_reading_order_len(reading_order(s.drop_last()), s.last());
    }
}

proof fn lemma_merge_runs_len(s: Seq<TextItem>)
    ensures
        merge_runs(s).0.len() <= s.len(),
        s.len() > 0 ==> merge_runs(s).0.len() > 0,
    decreases s.len(),
{
    if s.len() > 0 {
        lemma_merge_runs_len(s.drop_last());
    }
}

/// Law: merging never makes more lines than there are runs, and leaves no page that had text
/// without a line.
pub proof fn lemma_merged_lines_count(items: Seq<TextItem>)
    ensures
        merged_lines(items).len() <= items.len(),
        items.len() > 0 ==> merged_lines(items).len() > 0,
{
    lemma_reading_order_len(items);
    lemma_merge_runs_len(reading_order(items));
}

proof fn lemma_decode_latin1_from(b: Seq<u8>, i: int)
    requires
        0 <= i <= b.len(),
    ensures
        decode_from(b, Map::empty(), false, i) == b.skip(i).map_values(|x: u8| latin1(x)),
    decreases b.len() - i,
{
    if i < b.len() {
        lemma_decode_latin1_from(b, i + 1);
        assert(b.skip(i).map_values(|x: u8| latin1(x)) =~= seq![latin1(b[i])] + b.skip(i + 1).map_values(
            |x: u8| latin1(x),
        ));
    } else {
        assert(b.skip(i).map_values(|x: u8| latin1(x)) =~= Seq::<char>::empty());
    }
}

/// Law: without a CMap, in a font of one-byte codes, every byte of a string reads as the
/// character of the same value.
pub proof fn lemma_decode_without_cmap(b: Seq<u8>)
    ensures
        decoded(b, Map::empty(), false) == b.map_values(|x: u8| latin1(x)),
{
    lemma_decode_latin1_from(b, 0);
    assert(b.skip(0) =~= b);
}


/// A character that may stand between hex tokens: anything but `<`, `>` and `[`.
pub open spec fn plain_char(c: char) -> bool {
    c != '<' && c != '>' && c != '['
}

/// `w` holds no bracket.
pub open spec fn plain_gap(w: Seq<char>) -> bool {
    forall|c: int| 0 <= c < w.len() ==> plain_char(#[trigger] w[c])
}

/// `t` is one hex token: `<`, characters other than brackets, `>`.
pub open spec fn hex_token(t: Seq<char>) -> bool {
    &&& t.len() >= 2
    &&& t[0] == '<'
    &&& t[t.len() - 1] == '>'
    &&& forall|i: int| 0 < i < t.len() - 1 ==> plain_char(#[trigger] t[i])
}

/// The gaps `ws` and the tokens `ts` laid out in turn: `ws[0] + ts[0] + ws[1] + ... + ws[n]`.
pub open spec fn spaced_tokens(ws: Seq<Seq<char>>, ts: Seq<Seq<char>>) -> Seq<char>
    decreases ts.len(),
{
    if ts.len() == 0 || ws.len() == 0 {
        if ws.len() > 0 {
            ws[0]
        } else {
            Seq::empty()
        }
    } else {
        ws[0] + ts[0] + spaced_tokens(ws.drop_first(), ts.drop_first())
    }
}

proof fn lemma_skip_gap(s: Seq<char>, i: int, j: int, toks: Seq<Seq<char>>)
    requires
        0 <= i <= j <= s.len(),
        forall|k: int| i <= k < j ==> plain_char(#[trigger] s[k]),
    ensures
        hex_tokens_from(s, i, toks, Seq::empty(), false) == hex_tokens_from(
            s,
            j,
            toks,
            Seq::empty(),
            false,
        ),
    decreases j - i,
{
    if i < j {
        assert(plain_char(s[i]));
        lemma_skip_gap(s, i + 1, j, toks);
    }
}

proof fn lemma_read_token(s: Seq<char>, i: int, t: Seq<char>, m: int, toks: Seq<Seq<char>>)
    requires
        hex_token(t),
        0 <= i,
        i + t.len() <= s.len(),
        s.subrange(i, i + t.len()) == t,
        1 <= m < t.len(),
    ensures
        hex_tokens_from(s, i + m, toks, t.take(m), true) == hex_tokens_from(
            s,
            i + t.len(),
            toks.push(t),
            Seq::empty(),
            false,
        ),
    decreases t.len() - m,
{
    assert(s[i + m] == t[m]);
    if m == t.len() - 1 {
        assert(t.take(m).push(t[m]) =~= t);
    } else {
        assert(plain_char(t[m]));
        assert(t.take(m).push(t[m]) =~= t.take(m + 1));
        lemma_read_token(s, i, t, m + 1, toks);
    }
}

proof fn lemma_spaced_from(s: Seq<char>, i: int, ws: Seq<Seq<char>>, ts: Seq<Seq<char>>, toks: Seq<Seq<char>>)
    requires
        0 <= i <= s.len(),
        ws.len() == ts.len() + 1,
        forall|k: int| 0 <= k < ws.len() ==> plain_gap(#[trigger] ws[k]),
        forall|k: int| 0 <= k < ts.len() ==> hex_token(#[trigger] ts[k]),
        s.skip(i) == spaced_tokens(ws, ts),
    ensures
        hex_tokens_from(s, i, toks, Seq::empty(), false) == toks + ts,
    decreases ts.len(),
{
    let w = ws[0];
    assert(plain_gap(w));
    if ts.len() == 0 {
        assert(s.skip(i) == w);
        assert forall|k: int| i <= k < s.len() implies plain_char(#[trigger] s[k]) by {
            assert(s[k] == s.skip(i)[k - i]);
        }
        lemma_skip_gap(s, i, s.len() as int, toks);
        assert(toks + ts =~= toks);
    } else {
        let t = ts[0];
        assert(hex_token(t));
        let rest = spaced_tokens(ws.drop_first(), ts.drop_first());
        assert(s.skip(i) == w + t + rest);
        let j = i + w.len();
        assert forall|k: int| i <= k < j implies plain_char(#[trigger] s[k]) by {
            assert(s[k] == s.skip(i)[k - i]);
            assert((w + t + rest)[k - i] == w[k - i]);
        }
        lemma_skip_gap(s, i, j, toks);
        assert(s.subrange(j, j + t.len()) =~= t) by {
            assert forall|k: int| 0 <= k < t.len() implies s.subrange(j, j + t.len())[k] == t[k] by {
                assert(s[j + k] == s.skip(i)[w.len() + k]);
                assert((w + t + rest)[w.len() + k] == t[k]);
            }
        }
        assert(s[j] == '<');
        assert(Seq::<char>::empty().push('<') =~= t.take(1));
        lemma_read_token(s, j, t, 1, toks);
        let j2 = j + t.len();
        assert(s.skip(j2) =~= rest) by {
            assert forall|k: int| 0 <= k < rest.len() implies s.skip(j2)[k] == rest[k] by {
                assert(s[j2 + k] == s.skip(i)[w.len() + t.len() + k]);
                assert((w + t + rest)[w.len() + t.len() + k] == rest[k]);
            }
        }
        assert forall|k: int| 0 <= k < ws.drop_first().len() implies plain_gap(
            #[trigger] ws.drop_first()[k],
        ) by {
            assert(ws.drop_first()[k] == ws[k + 1]);
        }
        assert forall|k: int| 0 <= k < ts.drop_first().len() implies hex_token(#[trigger] ts.drop_first()[k]) by {
            assert(ts.drop_first()[k] == ts[k + 1]);
        }
        lemma_spaced_from(s, j2, ws.drop_first(), ts.drop_first(), toks.push(t));
        assert(toks.push(t) + ts.drop_first() =~= toks + ts);
    }
}

/// Law: a line of hex tokens separated by characters other than brackets is split into
/// exactly those tokens, each with its angle brackets.
pub proof fn lemma_hex_tokens_spaced(ws: Seq<Seq<char>>, ts: Seq<Seq<char>>)
    requires
        ws.len() == ts.len() + 1,
        forall|k: int| 0 <= k < ws.len() ==> plain_gap(#[trigger] ws[k]),
        forall|k: int| 0 <= k < ts.len() ==> hex_token(#[trigger] ts[k]),
    ensures
        hex_tokens(spaced_tokens(ws, ts)) == ts,
{
    let s = spaced_tokens(ws, ts);
    assert(s.skip(0) =~= s);
    lemma_spaced_from(s, 0, ws, ts, Seq::empty());
    assert(Seq::<Seq<char>>::empty() + ts =~= ts);
}


/// The texts of `s` laid end to end.
pub open spec fn concat_texts(s: Seq<TextItem>) -> Seq<char>
    decreases s.len(),
{
    if s.len() == 0 {
        Seq::empty()
    } else {
        concat_texts(s.drop_last()) + s.last().text
    }
}

/// `t` without its space characters.
pub open spec fn unspaced(t: Seq<char>) -> Seq<char>
    decreases t.len(),
{
    if t.len() == 0 {
        t
    } else if t.last() == ' ' {
        unspaced(t.drop_last())
    } else {
        unspaced(t.drop_last()).push(t.last())
    }
}

proof fn lemma_unspaced_add(a: Seq<char>, b: Seq<char>)
    ensures
        unspaced(a + b) == unspaced(a) + unspaced(b),
    decreases b.len(),
{
    if b.len() == 0 {
        assert(a + b =~= a);
        assert(unspaced(a) + unspaced(b) =~= unspaced(a));
    } else {
        assert((a + b).drop_last() =~= a + b.drop_last());
        lemma_unspaced_add(a, b.drop_last());
        if b.last() != ' ' {
            assert(unspaced(a) + unspaced(b.drop_last()).push(b.last()) =~= (unspaced(a) + unspaced(
                b.drop_last(),
            )).push(b.last()));
        }
    }
}

proof fn lemma_merge_runs_keeps(s: Seq<TextItem>)
    ensures
        unspaced(concat_texts(merge_runs(s).0)) == unspaced(concat_texts(s)),
        forall|i: int|
            0 <= i < merge_runs(s).0.len() ==> exists|k: int|
                0 <= k < s.len() && s[k].x == (#[trigger] merge_runs(s).0[i]).x && s[k].y
                    == merge_runs(s).0[i].y,
    decreases s.len(),
{
    if s.len() > 0 {
        let pre = s.drop_last();
        lemma_merge_runs_keeps(pre);
        let (lines, end) = merge_runs(pre);
        let it = s.last();
        let out = merge_runs(s).0;
        if lines.len() > 0 && abs_int(lines.last().y - it.y) < 250 && it.x - end < 2500 {
            let last = lines.last();
            let spaced = it.x - end > 250 && !has_suffix(last.text, " "@) && !has_prefix(it.text, " "@);
            assert(out.drop_last() =~= lines.drop_last());
            let ld = concat_texts(lines.drop_last());
            lemma_unspaced_add(ld, out.last().text);
            lemma_unspaced_add(ld, last.text);
            lemma_unspaced_add(concat_texts(pre), it.text);
            if spaced {
                lemma_unspaced_add(last.text.push(' '), it.text);
                assert(last.text.push(' ') =~= last.text + seq![' ']);
                lemma_unspaced_add(last.text, seq![' ']);
                let sp = seq![' '];
                assert(unspaced(sp) =~= Seq::<char>::empty()) by {
                    assert(sp.len() == 1 && sp.last() == ' ');
                    assert(sp.drop_last() =~= Seq::<char>::empty());
                    assert(unspaced(sp.drop_last()).len() == 0);
                }
                assert(unspaced(last.text) + Seq::<char>::empty() =~= unspaced(last.text));
            } else {
                lemma_unspaced_add(last.text, it.text);
            }
            assert(unspaced(ld) + (unspaced(last.text) + unspaced(it.text)) =~= unspaced(ld)
                + unspaced(last.text) + unspaced(it.text));
            assert forall|i: int| 0 <= i < out.len() implies exists|k: int|
                0 <= k < s.len() && s[k].x == (#[trigger] out[i]).x && s[k].y == out[i].y by {
                if i < out.len() - 1 {
                    assert(out[i] == lines[i]);
                } else {
                    assert(out[i].x == lines[i].x && out[i].y == lines[i].y);
                }
                let k = choose|k: int| 0 <= k < pre.len() && pre[k].x == lines[i].x && pre[k].y == lines[i].y;
                assert(s[k] == pre[k]);
            }
        } else {
            lemma_unspaced_add(concat_texts(lines), it.text);
            lemma_unspaced_add(concat_texts(pre), it.text);
            assert(out.drop_last() =~= lines);
            assert forall|i: int| 0 <= i < out.len() implies exists|k: int|
                0 <= k < s.len() && s[k].x == (#[trigger] out[i]).x && s[k].y == out[i].y by {
                if i < out.len() - 1 {
                    assert(out[i] == lines[i]);
                    let k = choose|k: int| 0 <= k < pre.len() && pre[k].x == lines[i].x && pre[k].y == lines[i].y;
                    assert(s[k] == pre[k]);
                } else {
                    assert(s[s.len() - 1] == out[i]);
                }
            }
        }
    }
}

proof fn lemma_insert_in_reading_order_multiset(s: Seq<TextItem>, it: TextItem)
    ensures
        insert_in_reading_order(s, it).to_multiset() == s.to_multiset().insert(it),
    decreases s.len(),
{
    broadcast use vstd::seq_lib::group_to_multiset_ensures;

    if s.len() == 0 {
        assert(seq![it] =~= s.push(it));
    } else if !reads_before(it, s.last()) {
    } else {
        lemma_insert_in_reading_order_multiset(s.drop_last(), it);
        assert(s.drop_last().push(s.last()) =~= s);
        assert(s.to_multiset() =~= s.drop_last().to_multiset().insert(s.last()));
        assert(insert_in_reading_order(s, it).to_multiset() =~= s.to_multiset().insert(it));
    }
}

proof fn lemma_reading_order_multiset(s: Seq<TextItem>)
    ensures
        reading_order(s).to_multiset() == s.to_multiset(),
    decreases s.len(),
{
    broadcast use vstd::seq_lib::group_to_multiset_ensures;

    if s.len() > 0 {
        lemma_reading_order_multiset(s.drop_last());
        lemma_insert_in_reading_order_multiset(reading_order(s.drop_last()), s.last());
        assert(s.drop_last().push(s.last()) =~= s);
    }
}

/// Law: merging keeps the runs' text: the runs are taken in reading order (a reordering of
/// them), the lines hold their characters in that order with only spaces added, and every
/// line starts where some run starts.
pub proof fn lemma_merged_lines_keep_text(items: Seq<TextItem>)
    ensures
        reading_order(items).to_multiset() == items.to_multiset(),
        unspaced(concat_texts(merged_lines(items))) == unspaced(concat_texts(reading_order(items))),
        forall|i: int|
            0 <= i < merged_lines(items).len() ==> exists|k: int|
                0 <= k < items.len() && items[k].x == (#[trigger] merged_lines(items)[i]).x
                    && items[k].y == merged_lines(items)[i].y,
{
    broadcast use vstd::seq_lib::group_to_multiset_ensures;

    lemma_reading_order_multiset(items);
    let r = reading_order(items);
    lemma_merge_runs_keeps(r);
    let m = merged_lines(items);
    assert forall|i: int| 0 <= i < m.len() implies exists|k: int|
        0 <= k < items.len() && items[k].x == (#[trigger] m[i]).x && items[k].y == m[i].y by {
        let j = choose|j: int| 0 <= j < r.len() && r[j].x == m[i].x && r[j].y == m[i].y;
        assert(r.contains(r[j]));
        assert(r.to_multiset().count(r[j]) > 0);
        assert(items.contains(r[j]));
        let k = choose|k: int| 0 <= k < items.len() && items[k] == r[j];
    }
}


/// The characters other than spaces of the texts of `s`, as a multiset.
pub open spec fn text_chars(s: Seq<TextItem>) -> vstd::multiset::Multiset<char> {
    unspaced(concat_texts(s)).to_multiset()
}

proof fn lemma_text_chars_push(s: Seq<TextItem>, it: TextItem)
    ensures
        text_chars(s.push(it)) == text_chars(s).add(unspaced(it.text).to_multiset()),
{
    broadcast use vstd::seq_lib::lemma_multiset_commutative;

    assert(s.push(it).drop_last() =~= s);
    lemma_unspaced_add(concat_texts(s), it.text);
}

proof fn lemma_insert_text_chars(s: Seq<TextItem>, it: TextItem)
    ensures
        text_chars(insert_in_reading_order(s, it)) == text_chars(s).add(unspaced(it.text).to_multiset()),
    decreases s.len(),
{
    broadcast use vstd::multiset::group_multiset_axioms;

    if s.len() == 0 {
        assert(seq![it] =~= s.push(it));
        lemma_text_chars_push(s, it);
    } else if !reads_before(it, s.last()) {
        lemma_text_chars_push(s, it);
    } else {
        let dl = s.drop_last();
        lemma_insert_text_chars(dl, it);
        lemma_text_chars_push(insert_in_reading_order(dl, it), s.last());
        assert(dl.push(s.last()) =~= s);
        lemma_text_chars_push(dl, s.last());
        assert(text_chars(insert_in_reading_order(s, it)) =~= text_chars(s).add(
            unspaced(it.text).to_multiset(),
        ));
    }
}

proof fn lemma_reading_order_text_chars(s: Seq<TextItem>)
    ensures
        text_chars(reading_order(s)) == text_chars(s),
    decreases s.len(),
{
    if s.len() > 0 {
        lemma_reading_order_text_chars(s.drop_last());
        lemma_insert_text_chars(reading_order(s.drop_last()), s.last());
        assert(s.drop_last().push(s.last()) =~= s);
        lemma_text_chars_push(s.drop_last(), s.last());
    }
}

/// Law: the lines merged from some runs hold, besides spaces, exactly the characters of the
/// runs, as a multiset.
pub proof fn lemma_merged_lines_char_multiset(items: Seq<TextItem>)
    ensures
        text_chars(merged_lines(items)) == text_chars(items),
{
    lemma_merge_runs_keeps(reading_order(items));
    lemma_reading_order_text_chars(items);
}


/// Runs on one baseline, left to right, each starting less than 25 points after the end of
/// the run just before it.
pub open spec fn chained_runs(s: Seq<TextItem>) -> bool {
    &&& s.len() > 0
    &&& forall|k: int|
        0 < k < s.len() ==> {
            &&& (#[trigger] s[k]).y == s[0].y
            &&& s[k - 1].x <= s[k].x
            &&& s[k].x - run_end(s[k - 1]) < 2500
        }
}

proof fn lemma_chained_prefix(s: Seq<TextItem>)
    requires
        chained_runs(s),
        s.len() > 1,
    ensures
        chained_runs(s.drop_last()),
{
    let d = s.drop_last();
    assert forall|k: int| 0 < k < d.len() implies {
        &&& (#[trigger] d[k]).y == d[0].y
        &&& d[k - 1].x <= d[k].x
        &&& d[k].x - run_end(d[k - 1]) < 2500
    } by {
        assert(d[k] == s[k] && d[k - 1] == s[k - 1] && d[0] == s[0]);
    }
}

proof fn lemma_chained_reading_order(s: Seq<TextItem>)
    requires
        chained_runs(s),
    ensures
        reading_order(s) == s,
    decreases s.len(),
{
    let d = s.drop_last();
    assert(reading_order(s) == insert_in_reading_order(reading_order(d), s.last()));
    if s.len() == 1 {
        assert(d =~= Seq::<TextItem>::empty());
        assert(reading_order(d) == Seq::<TextItem>::empty());
        assert(seq![s.last()] =~= s);
    } else {
        lemma_chained_prefix(s);
        lemma_chained_reading_order(d);
        let k = s.len() - 1;
        assert(s[k].y == s[0].y);
        if k - 1 > 0 {
            assert(s[k - 1].y == s[0].y);
        }
        assert(s[k - 1].x <= s[k].x);
        assert(d.last() == s[k - 1]);
        assert(!reads_before(s.last(), d.last()));
        assert(insert_in_reading_order(d, s.last()) == d.push(s.last()));
        assert(d.push(s.last()) =~= s);
    }
}

proof fn lemma_chained_merge(s: Seq<TextItem>)
    requires
        chained_runs(s),
    ensures
        merge_runs(s).0.len() == 1,
        merge_runs(s).0[0].x == s[0].x,
        merge_runs(s).0[0].y == s[0].y,
        merge_runs(s).1 == run_end(s.last()),
    decreases s.len(),
{
    let d = s.drop_last();
    if s.len() == 1 {
        assert(d =~= Seq::<TextItem>::empty());
    } else {
        lemma_chained_prefix(s);
        lemma_chained_merge(d);
        let k = s.len() - 1;
        assert(s[k].y == s[0].y);
        assert(d[0] == s[0] && d.last() == s[k - 1]);
    }
}

/// Law: runs on one baseline, left to right, each starting less than 25 points after the end
/// of the run just before it (7.2 points per character after its start), all join one line,
/// however many there are; the line starts where the first run starts.
pub proof fn lemma_chained_runs_one_line(items: Seq<TextItem>)
    requires
        chained_runs(items),
    ensures
        merged_lines(items).len() == 1,
        merged_lines(items)[0].x == items[0].x,
        merged_lines(items)[0].y == items[0].y,
{
    lemma_chained_reading_order(items);
    lemma_chained_merge(items);
}

} // verus!
