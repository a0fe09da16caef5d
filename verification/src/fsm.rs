//! Classification of page lines into screenplay elements.

use vstd::prelude::*;
use crate::calibrate::LayoutProfile;
use crate::geom::{PageData, RawTextItem};
use crate::geom::{abs_int, above, distance, ratio_above, ratio_below, ratio_distance};
use crate::text::{
    CharClass, chars_of, contains_str, ends_with_str, equals_str, has_infix, has_prefix,
    has_suffix, is_alphabetic_char, is_alphanumeric_char, is_ascii_alnum, is_ascii_upper,
    is_digit, is_uppercase_char, is_white_space, join_range, lowercase_of, join_spaced, push_all, replace,
    replace_all, split_whitespace, starts_with_str, string_from, to_uppercase, trim, trim_class,
    trim_spaces, trim_start, trim_start_class, trim_ws, uppercase_of, utf8_len, utf8_len_at_most,
    views_of, words, ascii_upper_of, occurs_at, upper_char, lemma_lead_from_bounds, lemma_tail_from_bounds, in_class, lead_from, tail_from,
    trim_end,
};

verus! {

/// The kinds of screenplay element that the parser recognises.
#[derive(Debug, PartialEq, Eq, Structural, Clone, Copy)]
pub enum ElementType {
    SceneHeading,
    Action,
    Character,
    Parenthetical,
    Dialogue,
    Transition,
}

/// One recognised screenplay element.
#[derive(Debug, Clone)]
pub struct ScriptBlock {
    pub element_type: ElementType,
    pub text: String,
    pub scene_number: Option<String>,
}

/// What a [`ScriptBlock`] holds, as mathematical values.
pub struct Block {
    pub kind: ElementType,
    pub text: Seq<char>,
    pub scene_number: Option<Seq<char>>,
}

impl View for ScriptBlock {
    type V = Block;

    open spec fn view(&self) -> Block {
        Block {
            kind: self.element_type,
            text: self.text@,
            scene_number: self.scene_number.deep_view(),
        }
    }
}

/// The characters of an optional text.
pub open spec fn opt_chars(o: Option<Vec<char>>) -> Option<Seq<char>> {
    match o {
        Some(v) => Some(v@),
        None => None,
    }
}

/// The views of a sequence of blocks.
pub open spec fn block_views(bs: Seq<ScriptBlock>) -> Seq<Block> {
    bs.map_values(|b: ScriptBlock| b@)
}

/// The title, author and credit lines found on a title page.
#[derive(Debug, Clone, Default)]
pub struct TitlePageInfo {
    pub title: Option<String>,
    pub author: Option<String>,
    pub credit: Option<String>,
}

/// What a [`TitlePageInfo`] holds, as mathematical values.
pub struct TitleView {
    pub title: Option<Seq<char>>,
    pub author: Option<Seq<char>>,
    pub credit: Option<Seq<char>>,
}

impl View for TitlePageInfo {
    type V = TitleView;

    open spec fn view(&self) -> TitleView {
        TitleView {
            title: self.title.deep_view(),
            author: self.author.deep_view(),
            credit: self.credit.deep_view(),
        }
    }
}


/// Every letter of `u` is an uppercase letter.
pub open spec fn letters_all_upper(u: Seq<char>) -> bool {
    forall|i: int| 0 <= i < u.len() ==> !is_alphabetic_char(#[trigger] u[i]) || is_uppercase_char(u[i])
}

pub fn chars_all_upper(u: &[char]) -> (r: bool)
    ensures
        r == letters_all_upper(u@),
{
    let mut i: usize = 0;
    while i < u.len()
        invariant
            0 <= i <= u.len(),
            forall|j: int| 0 <= j < i ==> !is_alphabetic_char(#[trigger] u@[j]) || is_uppercase_char(u@[j]),
        decreases u.len() - i,
    {
        if crate::text::char_is_alphabetic(u[i]) && !crate::text::char_is_uppercase(u[i]) {
            return false;
        }
        i = i + 1;
    }
    true
}

/// Text that begins like a scene heading (`INT.`, `EXT.`, `INT/EXT`, `I/E`).
pub open spec fn heading_prefix(up: Seq<char>) -> bool {
    has_prefix(up, "INT."@) || has_prefix(up, "EXT."@) || has_prefix(up, "INT/EXT"@) || has_prefix(
        up,
        "I/E"@,
    )
}

/// Text that holds one of the time-of-day endings of a scene heading.
pub open spec fn has_scene_suffix(up: Seq<char>) -> bool {
    has_infix(up, " - DAY"@) || has_infix(up, " - NIGHT"@) || has_infix(up, " - CONTINUOUS"@)
        || has_infix(up, " - LATER"@) || has_infix(up, " - MOMENTS LATER"@) || has_infix(
        up,
        " - SAME TIME"@,
    ) || has_infix(up, " - DAWN"@) || has_infix(up, " - DUSK"@)
}

pub fn heading_prefix_chars(up: &[char]) -> (r: bool)
    ensures
        r == heading_prefix(up@),
{
    starts_with_str(up, "INT.") || starts_with_str(up, "EXT.") || starts_with_str(up, "INT/EXT")
        || starts_with_str(up, "I/E")
}

/// Whether a line is a scene heading: after any leading scene number, it begins with a
/// location prefix, or it is all capitals and holds a time-of-day ending.
pub open spec fn scene_heading_text(s: Seq<char>) -> bool {
    let up = uppercase_of(trim_ws(trim_start(s, CharClass::DigitSpaceDotHash)));
    heading_prefix(up) || (has_scene_suffix(up) && letters_all_upper(up))
}

pub fn scene_heading_chars(s: &[char]) -> (r: bool)
    ensures
        r == scene_heading_text(s@),
{
    let clean = trim_spaces(&trim_start_class(s, CharClass::DigitSpaceDotHash));
    let up = to_uppercase(&clean);
    if heading_prefix_chars(&up) {
        return true;
    }
    let suffix = contains_str(&up, " - DAY") || contains_str(&up, " - NIGHT") || contains_str(
        &up,
        " - CONTINUOUS",
    ) || contains_str(&up, " - LATER") || contains_str(&up, " - MOMENTS LATER") || contains_str(
        &up,
        " - SAME TIME",
    ) || contains_str(&up, " - DAWN") || contains_str(&up, " - DUSK");
    suffix && chars_all_upper(&up)
}

/// Whether a line is a scene heading.
pub fn is_scene_heading(s: &str) -> (r: bool)
    ensures
        r == scene_heading_text(s@),
{
    scene_heading_chars(&chars_of(s))
}

/// Whether a token is a scene number such as `10`, `57A` or `#12#`: once white space, `#`
/// and `.` are stripped from its ends, at most eight bytes of ASCII letters, digits and
/// hyphens, with at least one digit.
pub open spec fn scene_number_token(s: Seq<char>) -> bool {
    let clean = trim(s, CharClass::SpaceHashDot);
    &&& clean.len() > 0
    &&& utf8_len(clean) <= 8
    &&& exists|i: int| 0 <= i < clean.len() && is_digit(#[trigger] clean[i])
    &&& forall|i: int| 0 <= i < clean.len() ==> is_ascii_alnum(#[trigger] clean[i]) || clean[i] == '-'
}

pub fn scene_number_chars(s: &[char]) -> (r: bool)
    ensures
        r == scene_number_token(s@),
{
    let clean = trim_class(s, CharClass::SpaceHashDot);
    if clean.len() == 0 || !utf8_len_at_most(&clean, 8) {
        return false;
    }
    let mut has_digit = false;
    let mut i: usize = 0;
    while i < clean.len()
        invariant
            0 <= i <= clean.len(),
            clean@ == trim(s@, CharClass::SpaceHashDot),
            has_digit == exists|j: int| 0 <= j < i && is_digit(#[trigger] clean@[j]),
            forall|j: int| 0 <= j < i ==> is_ascii_alnum(#[trigger] clean@[j]) || clean@[j] == '-',
        decreases clean.len() - i,
    {
        let c = clean[i];
        if !(crate::text::ascii_alnum(c) || c == '-') {
            return false;
        }
        if crate::text::ascii_digit(c) {
            has_digit = true;
        }
        i = i + 1;
    }
    has_digit
}

/// Whether a token is a scene number.
pub fn is_scene_number_token(s: &str) -> (r: bool)
    ensures
        r == scene_number_token(s@),
{
    scene_number_chars(&chars_of(s))
}

/// A heading split from a scene number that leads or ends it: the remaining words joined by
/// single spaces and the number without `#` and `.`; the text unchanged and no number when
/// there is none.
pub open spec fn split_scene_number(s: Seq<char>) -> (Seq<char>, Option<Seq<char>>) {
    let parts = words(s);
    if parts.len() == 0 {
        (s, None)
    } else if scene_number_token(parts[0]) && parts.len() > 1 {
        (join_spaced(parts.skip(1)), Some(trim(parts[0], CharClass::HashDot)))
    } else if parts.len() > 1 && scene_number_token(parts.last()) {
        (join_spaced(parts.drop_last()), Some(trim(parts.last(), CharClass::HashDot)))
    } else {
        (s, None)
    }
}

pub fn split_scene_number_chars(s: &[char]) -> (r: (Vec<char>, Option<Vec<char>>))
    ensures
        r.0@ == split_scene_number(s@).0,
        opt_chars(r.1) == split_scene_number(s@).1,
{
    let parts = split_whitespace(s);
    let ghost pv = views_of(parts@);
    let n = parts.len();
    if n == 0 {
        return (slice_copy(s), None);
    }
    assert(pv[0] == parts@[0]@);
    if n > 1 && scene_number_chars(&parts[0]) {
        let rest = join_range(&parts, 1, n);
        assert(pv.subrange(1, n as int) =~= pv.skip(1));
        let num = trim_class(&parts[0], CharClass::HashDot);
        return (rest, Some(num));
    }
    assert(pv.last() == parts@[n - 1]@);
    if n > 1 && scene_number_chars(&parts[n - 1]) {
        let rest = join_range(&parts, 0, n - 1);
        assert(pv.subrange(0, n - 1) =~= pv.drop_last());
        let num = trim_class(&parts[n - 1], CharClass::HashDot);
        return (rest, Some(num));
    }
    (slice_copy(s), None)
}

fn slice_copy(s: &[char]) -> (r: Vec<char>)
    ensures
        r@ == s@,
{
    let r = crate::text::slice_to_vec(s, 0, s.len());
    assert(s@.subrange(0, s@.len() as int) =~= s@);
    r
}

/// Splits a scene heading from a leading or trailing scene number.
pub fn extract_scene_number(s: &str) -> (r: (String, Option<String>))
    ensures
        r.0@ == split_scene_number(s@).0,
        r.1.deep_view() == split_scene_number(s@).1,
{
    let (h, n) = split_scene_number_chars(&chars_of(s));
    let num = match n {
        Some(v) => Some(string_from(&v)),
        None => None,
    };
    (string_from(&h), num)
}


/// `s` with each `(` and the first `)` after it removed together with what lies between,
/// from the left, until no such pair remains.
pub open spec fn strip_paren_groups(s: Seq<char>) -> Seq<char>
    decreases s.len(),
{
    let a = crate::text::index_from(s, '(', 0);
    if a >= s.len() {
        s
    } else {
        let e = crate::text::index_from(s, ')', a);
        if e >= s.len() {
            s
        } else {
            proof {
                crate::text::lemma_index_from(s, '(', 0);
                crate::text::lemma_index_from(s, ')', a);
            }
            strip_paren_groups(s.take(a) + s.skip(e + 1))
        }
    }
}

/// Number of ASCII uppercase letters in `s`.
pub open spec fn count_ascii_upper(s: Seq<char>) -> nat
    decreases s.len(),
{
    if s.len() == 0 {
        0
    } else {
        count_ascii_upper(s.drop_last()) + if is_ascii_upper(s.last()) {
            1nat
        } else {
            0nat
        }
    }
}

/// Number of alphabetic characters in `s`.
pub open spec fn count_alphabetic(s: Seq<char>) -> nat
    decreases s.len(),
{
    if s.len() == 0 {
        0
    } else {
        count_alphabetic(s.drop_last()) + if is_alphabetic_char(s.last()) {
            1nat
        } else {
            0nat
        }
    }
}

/// Whether a line is a character cue: at most 45 bytes, not empty, and once bracketed
/// extensions and double quotes are removed and the ends trimmed, more than 85% of its
/// letters are ASCII capitals.
pub open spec fn character_name_text(s: Seq<char>) -> bool {
    let clean = trim_ws(replace_all(strip_paren_groups(s), seq!['"'], Seq::empty()));
    &&& utf8_len(s) <= 45
    &&& s.len() > 0
    &&& clean.len() > 0
    &&& count_alphabetic(clean) > 0
    &&& 20 * count_ascii_upper(clean) > 17 * count_alphabetic(clean)
}

fn strip_paren_groups_chars(s: &[char]) -> (r: Vec<char>)
    ensures
        r@ == strip_paren_groups(s@),
{
    let mut cur = slice_copy(s);
    loop
        invariant
            strip_paren_groups(cur@) == strip_paren_groups(s@),
        decreases cur@.len(),
    {
        let a = crate::text::find_char(&cur, '(', 0);
        if a >= cur.len() {
            return cur;
        }
        let e = crate::text::find_char(&cur, ')', a);
        if e >= cur.len() {
            return cur;
        }
        proof {
            crate::text::lemma_index_from(cur@, '(', 0);
            crate::text::lemma_index_from(cur@, ')', a as int);
        }
        let mut next = crate::text::slice_to_vec(&cur, 0, a);
        let tail = crate::text::slice_to_vec(&cur, e + 1, cur.len());
        push_all(&mut next, &tail);
        assert(next@ =~= cur@.take(a as int) + cur@.skip(e + 1));
        cur = next;
    }
}

fn count_letters(s: &[char]) -> (r: (usize, usize))
    ensures
        r.0 == count_ascii_upper(s@),
        r.1 == count_alphabetic(s@),
{
    let mut up: usize = 0;
    let mut alpha: usize = 0;
    let mut i: usize = 0;
    while i < s.len()
        invariant
            0 <= i <= s.len(),
            up == count_ascii_upper(s@.take(i as int)),
            alpha == count_alphabetic(s@.take(i as int)),
            up <= i,
            alpha <= i,
        decreases s.len() - i,
    {
        assert(s@.take(i + 1).drop_last() =~= s@.take(i as int));
        if crate::text::ascii_upper(s[i]) {
            up = up + 1;
        }
        if crate::text::char_is_alphabetic(s[i]) {
            alpha = alpha + 1;
        }
        i = i + 1;
    }
    assert(s@.take(s@.len() as int) =~= s@);
    (up, alpha)
}

pub fn character_name_chars(s: &[char]) -> (r: bool)
    ensures
        r == character_name_text(s@),
{
    if !utf8_len_at_most(s, 45) || s.len() == 0 {
        return false;
    }
    let stripped = strip_paren_groups_chars(s);
    let quote: Vec<char> = vec!['"'];
    let empty: Vec<char> = Vec::new();
    let unquoted = replace(&stripped, &quote, &empty);
    assert(quote@ =~= seq!['"']);
    assert(empty@ =~= Seq::<char>::empty());
    let clean = trim_spaces(&unquoted);
    if clean.len() == 0 {
        return false;
    }
    let (up, alpha) = count_letters(&clean);
    alpha > 0 && 20 * (up as u128) > 17 * (alpha as u128)
}

/// Whether a line is a character cue.
pub fn is_character_name(s: &str) -> (r: bool)
    ensures
        r == character_name_text(s@),
{
    character_name_chars(&chars_of(s))
}

/// A parenthetical written with its brackets: the trimmed text when it already begins with
/// `(` and ends with `)`, else the text stripped of brackets and enclosed in a new pair.
pub open spec fn parenthesized(s: Seq<char>) -> Seq<char> {
    let t = trim_ws(s);
    if has_prefix(t, "("@) && has_suffix(t, ")"@) {
        t
    } else {
        seq!['('] + trim(t, CharClass::Parens) + seq![')']
    }
}

pub fn parenthesized_chars(s: &[char]) -> (r: Vec<char>)
    ensures
        r@ == parenthesized(s@),
{
    let t = trim_spaces(s);
    if starts_with_str(&t, "(") && ends_with_str(&t, ")") {
        t
    } else {
        let mut r: Vec<char> = vec!['('];
        push_all(&mut r, &trim_class(&t, CharClass::Parens));
        r.push(')');
        assert(r@ =~= seq!['('] + trim(t@, CharClass::Parens) + seq![')']);
        r
    }
}

/// Encloses a parenthetical in brackets.
pub fn ensure_parentheses(s: &str) -> (r: String)
    ensures
        r@ == parenthesized(s@),
{
    string_from(&parenthesized_chars(&chars_of(s)))
}

/// Whether a line is a running page number such as `2.` or `10.`.
pub fn is_running_page_number(s: &str) -> (r: bool)
    ensures
        r == crate::calibrate::page_number_text(s@),
{
    crate::calibrate::page_number_chars(&chars_of(s))
}

/// `target` ends in a hyphen inside a word: `-` after a letter or digit, not `--` or ` -`.
pub open spec fn ends_in_word_hyphen(target: Seq<char>) -> bool {
    &&& has_suffix(target, "-"@)
    &&& !has_suffix(target, "--"@)
    &&& !has_suffix(target, " -"@)
    &&& target.len() >= 2
    &&& is_alphanumeric_char(target[target.len() - 2])
}

/// `target` continued by the trimmed `next`: directly after a hyphen inside a word, else
/// after one space (added unless `target` already ends in one).
pub open spec fn continued(target: Seq<char>, next: Seq<char>) -> Seq<char> {
    let t = trim_ws(next);
    if ends_in_word_hyphen(target) || has_suffix(target, " "@) {
        target + t
    } else {
        target + seq![' '] + t
    }
}

pub fn continue_chars(target: &mut Vec<char>, next: &[char])
    ensures
        final(target)@ == continued(old(target)@, next@),
{
    let t = trim_spaces(next);
    let n = target.len();
    let hyphen = ends_with_str(target, "-") && !ends_with_str(target, "--") && !ends_with_str(
        target,
        " -",
    ) && n >= 2 && crate::text::char_is_alphanumeric(target[n - 2]);
    if !hyphen && !ends_with_str(target, " ") {
        target.push(' ');
    }
    push_all(target, &t);
}

/// Appends a continuation line to a block's text.
pub fn append_continuation_line(target: &mut String, next: &str)
    ensures
        final(target)@ == continued(old(target)@, next@),
{
    let mut t = chars_of(target.as_str());
    continue_chars(&mut t, &chars_of(next));
    *target = string_from(&t);
}

/// `c` is the letter `upper` or its ASCII lowercase `lower`.
pub open spec fn either_case(c: char, upper: char, lower: char) -> bool {
    c == upper || c == lower
}

/// Whether a line is a `(MORE)` page-break marker: once brackets and white space are stripped
/// from its ends, it is `MORE` in any ASCII case.
pub open spec fn more_marker_text(s: Seq<char>) -> bool {
    let c = trim(s, CharClass::ParensSpace);
    &&& c.len() == 4
    &&& either_case(c[0], 'M', 'm')
    &&& either_case(c[1], 'O', 'o')
    &&& either_case(c[2], 'R', 'r')
    &&& either_case(c[3], 'E', 'e')
}

pub fn more_marker_chars(s: &[char]) -> (r: bool)
    ensures
        r == more_marker_text(s@),
{
    let c = trim_class(s, CharClass::ParensSpace);
    c.len() == 4 && (c[0] == 'M' || c[0] == 'm') && (c[1] == 'O' || c[1] == 'o') && (c[2] == 'R'
        || c[2] == 'r') && (c[3] == 'E' || c[3] == 'e')
}

/// Whether a line is a `(MORE)` marker.
pub fn is_more_marker(s: &str) -> (r: bool)
    ensures
        r == more_marker_text(s@),
{
    more_marker_chars(&chars_of(s))
}

/// A character cue without its `(CONT'D)` tags, trimmed.
pub open spec fn clean_name(s: Seq<char>) -> Seq<char> {
    let e = Seq::<char>::empty();
    let a = replace_all(trim_ws(s), "(CONT'D)"@, e);
    let b = replace_all(a, "(cont'd)"@, e);
    let c = replace_all(b, "(CONT\u{2019}D)"@, e);
    let d = replace_all(c, "(cont\u{2019}d)"@, e);
    trim_ws(d)
}

fn remove_lit(s: &[char], lit: &str) -> (r: Vec<char>)
    requires
        lit@.len() > 0,
    ensures
        r@ == replace_all(s@, lit@, Seq::empty()),
{
    let p = chars_of(lit);
    let empty: Vec<char> = Vec::new();
    assert(empty@ =~= Seq::<char>::empty());
    replace(s, &p, &empty)
}

pub fn clean_name_chars(s: &[char]) -> (r: Vec<char>)
    ensures
        r@ == clean_name(s@),
{
    proof {
        reveal_strlit("(CONT'D)");
        reveal_strlit("(cont'd)");
        reveal_strlit("(CONT\u{2019}D)");
        reveal_strlit("(cont\u{2019}d)");
    }
    let t = trim_spaces(s);
    let a = remove_lit(&t, "(CONT'D)");
    let b = remove_lit(&a, "(cont'd)");
    let c = remove_lit(&b, "(CONT\u{2019}D)");
    let d = remove_lit(&c, "(cont\u{2019}d)");
    trim_spaces(&d)
}

/// Removes `(CONT'D)` tags from a character cue.
pub fn clean_character_name(s: &str) -> (r: String)
    ensures
        r@ == clean_name(s@),
{
    string_from(&clean_name_chars(&chars_of(s)))
}

/// The name of the most recent character cue in the current scene: searching back from the
/// end, the text of the first character block, or nothing once a scene heading is met.
pub open spec fn last_character(bs: Seq<Block>) -> Option<Seq<char>>
    decreases bs.len(),
{
    if bs.len() == 0 {
        None
    } else if bs.last().kind == ElementType::Character {
        Some(bs.last().text)
    } else if bs.last().kind == ElementType::SceneHeading {
        None
    } else {
        last_character(bs.drop_last())
    }
}

/// Finds the name of the most recent character cue in the current scene.
pub fn find_last_character_name(blocks: &[ScriptBlock]) -> (r: Option<&str>)
    ensures
        match r {
            Some(t) => last_character(block_views(blocks@)) == Some(t@),
            None => last_character(block_views(blocks@)) is None,
        },
{
    let ghost bv = block_views(blocks@);
    let mut n = blocks.len();
    assert(bv.take(n as int) =~= bv);
    while n > 0
        invariant
            0 <= n <= blocks.len(),
            bv == block_views(blocks@),
            last_character(bv.take(n as int)) == last_character(bv),
        decreases n,
    {
        let b = &blocks[n - 1];
        assert(bv.take(n as int).last() == b@);
        assert(bv.take(n as int).drop_last() =~= bv.take(n - 1));
        if b.element_type == ElementType::Character {
            return Some(b.text.as_str());
        }
        if b.element_type == ElementType::SceneHeading {
            return None;
        }
        n = n - 1;
    }
    None
}


/// The element before is part of a dialogue: a character cue, dialogue or a parenthetical.
pub open spec fn in_dialogue_flow(state: ElementType) -> bool {
    state == ElementType::Character || state == ElementType::Dialogue || state
        == ElementType::Parenthetical
}

/// The element that a line is by its position and text, given the previous element `state`;
/// the position is `x` on a page of width `w`, the margins those of `p` (in percent).
pub open spec fn classify(
    x: int,
    w: int,
    p: LayoutProfile,
    text: Seq<char>,
    state: ElementType,
) -> ElementType {
    let aw = abs_int(w);
    let dist_action = ratio_distance(x, w, p.action_x as int);
    let dist_dialogue = ratio_distance(x, w, p.dialogue_x as int);
    let dist_paren = ratio_distance(x, w, p.parenthetical_x as int);
    let dist_char = ratio_distance(x, w, p.character_x as int);
    let starts_paren = has_prefix(text, "("@);
    if starts_paren && has_suffix(text, ")"@) && in_dialogue_flow(state) {
        ElementType::Parenthetical
    } else if (has_suffix(text, "TO:"@) || text == "FADE OUT."@ || text == "FADE IN:"@)
        && ratio_above(x, w, 60) {
        ElementType::Transition
    } else if character_name_text(text) && dist_char < 7 * aw && ratio_above(
        x,
        w,
        p.dialogue_x + 5,
    ) {
        ElementType::Character
    } else if in_dialogue_flow(state) && (starts_paren || dist_paren < dist_dialogue) && (
    starts_paren || (dist_paren < 5 * aw && utf8_len(text) < 35)) {
        ElementType::Parenthetical
    } else if in_dialogue_flow(state) && ratio_above(x, w, p.action_x + 5) {
        ElementType::Dialogue
    } else {
        let dialogue_closer = dist_dialogue < dist_action && ratio_above(x, w, p.action_x + 6);
        let min_dist = if dialogue_closer {
            dist_dialogue
        } else {
            dist_action
        };
        if dist_char < min_dist && character_name_text(text) {
            ElementType::Character
        } else if dialogue_closer {
            ElementType::Dialogue
        } else {
            ElementType::Action
        }
    }
}

pub fn classify_chars(
    x: i32,
    w: i32,
    p: &LayoutProfile,
    text: &[char],
    state: ElementType,
) -> (r: ElementType)
    ensures
        r == classify(x as int, w as int, *p, text@, state),
        r != ElementType::SceneHeading,
{
    let flow = state == ElementType::Character || state == ElementType::Dialogue || state
        == ElementType::Parenthetical;
    let starts_paren = starts_with_str(text, "(");
    if starts_paren && ends_with_str(text, ")") && flow {
        return ElementType::Parenthetical;
    }
    if (ends_with_str(text, "TO:") || equals_str(text, "FADE OUT.") || equals_str(text, "FADE IN:"))
        && above(x, w, 60) {
        return ElementType::Transition;
    }
    let aw: i128 = if w < 0 {
        -(w as i128)
    } else {
        w as i128
    };
    let dist_action = distance(x, w, p.action_x as i64);
    let dist_dialogue = distance(x, w, p.dialogue_x as i64);
    let dist_paren = distance(x, w, p.parenthetical_x as i64);
    let dist_char = distance(x, w, p.character_x as i64);
    let is_name = character_name_chars(text);
    if is_name && dist_char < 7 * aw && above(x, w, p.dialogue_x as i64 + 5) {
        return ElementType::Character;
    }
    if flow && (starts_paren || dist_paren < dist_dialogue) && (starts_paren || (dist_paren < 5
        * aw && utf8_len_at_most(text, 34))) {
        return ElementType::Parenthetical;
    }
    if flow && above(x, w, p.action_x as i64 + 5) {
        return ElementType::Dialogue;
    }
    let dialogue_closer = dist_dialogue < dist_action && above(x, w, p.action_x as i64 + 6);
    let min_dist = if dialogue_closer {
        dist_dialogue
    } else {
        dist_action
    };
    if dist_char < min_dist && is_name {
        ElementType::Character
    } else if dialogue_closer {
        ElementType::Dialogue
    } else {
        ElementType::Action
    }
}

/// The element that a line is by its position, text and the previous element.
pub fn classify_by_margin(
    x: i32,
    width: i32,
    profile: &LayoutProfile,
    text: &str,
    state: ElementType,
) -> (r: ElementType)
    ensures
        r == classify(x as int, width as int, *profile, text@, state),
{
    classify_chars(x, width, profile, &chars_of(text), state)
}


/// A title page with no field found yet.
pub open spec fn no_title() -> TitleView {
    TitleView { title: None, author: None, credit: None }
}

/// A lowercased line that names who wrote the script.
pub open spec fn credit_line(lower: Seq<char>) -> bool {
    has_infix(lower, "written by"@) || has_infix(lower, "story by"@) || has_infix(
        lower,
        "screenplay by"@,
    )
}

/// A lowercased line that is a date, a draft note or contact details.
pub open spec fn date_or_contact(lower: Seq<char>) -> bool {
    has_infix(lower, "draft"@) || has_infix(lower, "@"@) || has_infix(lower, "phone"@) || (forall|
        i: int,
    |
        0 <= i < lower.len() ==> is_digit(#[trigger] lower[i]) || lower[i] == '/' || lower[i] == '-'
            || lower[i] == '.')
}

/// `s` without its first two characters.
pub open spec fn after_two(s: Seq<char>) -> Seq<char> {
    if s.len() >= 2 {
        s.skip(2)
    } else {
        Seq::empty()
    }
}

/// `info` with `credit` set to `line`, then `author` to the next line when there is one;
/// returns the updated fields and the index of the next line to read.
pub open spec fn credit_then_author(lines: Seq<RawTextItem>, i: int, info: TitleView) -> (
    TitleView,
    int,
) {
    let c = TitleView { title: info.title, author: info.author, credit: Some(lines[i].text@) };
    if i + 1 < lines.len() {
        (TitleView { title: c.title, author: Some(lines[i + 1].text@), credit: c.credit }, i + 2)
    } else {
        (c, i + 1)
    }
}

/// One line of a title page read into `info`: the updated fields and the next index.
pub open spec fn title_step(lines: Seq<RawTextItem>, i: int, info: TitleView) -> (TitleView, int) {
    let line = lines[i].text@;
    let lower = lowercase_of(line);
    if credit_line(lower) {
        credit_then_author(lines, i, info)
    } else if has_prefix(lower, "by "@) || lower == "by"@ || has_prefix(lower, "by:"@) {
        if lower == "by"@ || lower == "by:"@ {
            credit_then_author(lines, i, info)
        } else {
            let author = trim_ws(trim_start(after_two(line), CharClass::ColonBlank));
            (TitleView { title: info.title, author: Some(author), credit: info.credit }, i + 1)
        }
    } else if info.title is None {
        (TitleView { title: Some(line), author: info.author, credit: info.credit }, i + 1)
    } else if info.author is None && lines.len() <= 4 && !date_or_contact(lower) {
        (TitleView { title: info.title, author: Some(line), credit: info.credit }, i + 1)
    } else {
        (info, i + 1)
    }
}

/// The title-page fields read from the lines at and after `i`.
pub open spec fn title_from(lines: Seq<RawTextItem>, i: int, info: TitleView) -> TitleView
    decreases lines.len() - i,
{
    if i < 0 || i >= lines.len() {
        info
    } else {
        let (next, j) = title_step(lines, i, info);
        if j <= i {
            info
        } else {
            title_from(lines, j, next)
        }
    }
}

/// The title, author and credit read from a title page: a line that names who wrote the
/// script is the credit and the line after it the author; a line that begins with `by`
/// gives the author; the first other line is the title, and on a page of at most four lines
/// the next line that is not a date or contact is the author.
pub open spec fn title_page_fields(page: PageData) -> TitleView {
    title_from(page.lines@, 0, no_title())
}

fn date_or_contact_chars(lower: &[char]) -> (r: bool)
    ensures
        r == date_or_contact(lower@),
{
    if contains_str(lower, "draft") || contains_str(lower, "@") || contains_str(lower, "phone") {
        return true;
    }
    let mut i: usize = 0;
    while i < lower.len()
        invariant
            0 <= i <= lower.len(),
            !has_infix(lower@, "draft"@) && !has_infix(lower@, "@"@) && !has_infix(lower@, "phone"@),
            forall|j: int|
                0 <= j < i ==> is_digit(#[trigger] lower@[j]) || lower@[j] == '/' || lower@[j]
                    == '-' || lower@[j] == '.',
        decreases lower.len() - i,
    {
        let c = lower[i];
        if !(crate::text::ascii_digit(c) || c == '/' || c == '-' || c == '.') {
            return false;
        }
        i = i + 1;
    }
    true
}

/// Reads the title, author and credit from a title page.
pub fn extract_title_page(page: &PageData) -> (info: TitlePageInfo)
    ensures
        info@ == title_page_fields(*page),
{
    let mut info = TitlePageInfo { title: None, author: None, credit: None };
    let n = page.lines.len();
    let ghost lines = page.lines@;
    let mut i: usize = 0;
    while i < n
        invariant
            0 <= i <= n,
            n == lines.len(),
            lines == page.lines@,
            title_from(lines, i as int, info@) == title_from(lines, 0, no_title()),
        decreases n - i,
    {
        let ghost before = info@;
        let line = chars_of(page.lines[i].text.as_str());
        let lower = crate::text::to_lowercase(&line);
        let credit = contains_str(&lower, "written by") || contains_str(&lower, "story by")
            || contains_str(&lower, "screenplay by");
        let by_word = starts_with_str(&lower, "by ") || equals_str(&lower, "by") || starts_with_str(
            &lower,
            "by:",
        );
        let bare_by = equals_str(&lower, "by") || equals_str(&lower, "by:");
        if credit || (by_word && bare_by) {
            info.credit = Some(page.lines[i].text.clone());
            if i + 1 < n {
                info.author = Some(page.lines[i + 1].text.clone());
                assert(title_step(lines, i as int, before) == (info@, i + 2));
                i = i + 2;
                continue;
            }
            assert(title_step(lines, i as int, before) == (info@, i + 1));
        } else if by_word {
            let rest = if line.len() >= 2 {
                crate::text::slice_to_vec(&line, 2, line.len())
            } else {
                Vec::new()
            };
            assert(rest@ =~= after_two(line@));
            let author = trim_spaces(&trim_start_class(&rest, CharClass::ColonBlank));
            info.author = Some(string_from(&author));
            assert(title_step(lines, i as int, before) == (info@, i + 1));
        } else if info.title.is_none() {
            info.title = Some(page.lines[i].text.clone());
            assert(title_step(lines, i as int, before) == (info@, i + 1));
        } else if info.author.is_none() && n <= 4 && !date_or_contact_chars(&lower) {
            info.author = Some(page.lines[i].text.clone());
            assert(title_step(lines, i as int, before) == (info@, i + 1));
        } else {
            assert(title_step(lines, i as int, before) == (info@, i + 1));
        }
        i = i + 1;
    }
    info
}


/// The parser's state between lines: the blocks so far, the previous element and the height
/// of the last action line while an action paragraph may continue.
pub struct ParseState {
    pub blocks: Seq<Block>,
    pub state: ElementType,
    pub last_action_y: Option<int>,
}

/// The state before the first line.
pub open spec fn start_state() -> ParseState {
    ParseState { blocks: Seq::empty(), state: ElementType::Action, last_action_y: None }
}

pub open spec fn new_block(kind: ElementType, text: Seq<char>) -> Block {
    Block { kind, text, scene_number: None }
}

/// `bs` with the text of its last block replaced.
pub open spec fn with_last_text(bs: Seq<Block>, text: Seq<char>) -> Seq<Block> {
    bs.update(
        bs.len() - 1,
        Block { kind: bs.last().kind, text, scene_number: bs.last().scene_number },
    )
}

/// The last block has the given kind.
pub open spec fn last_is(bs: Seq<Block>, kind: ElementType) -> bool {
    bs.len() > 0 && bs.last().kind == kind
}

/// A scene heading appended; the next lines start a new action paragraph.
pub open spec fn heading_state(st: ParseState, heading: Seq<char>, num: Option<Seq<char>>) -> ParseState {
    ParseState {
        blocks: st.blocks.push(Block { kind: ElementType::SceneHeading, text: heading, scene_number: num }),
        state: ElementType::Action,
        last_action_y: None,
    }
}

/// The lines after a scene heading that continue it: scene numbers on the next lines (kept
/// when the heading has none yet), and capitalised lines that continue a heading ending in a
/// hyphen. Returns the index of the last line taken, the heading and its number.
pub open spec fn absorb_heading(
    page: PageData,
    j: int,
    heading: Seq<char>,
    num: Option<Seq<char>>,
) -> (int, Seq<char>, Option<Seq<char>>)
    decreases page.lines@.len() - j,
{
    let lines = page.lines@;
    if j < 0 || j + 1 >= lines.len() {
        (j, heading, num)
    } else {
        let next = lines[j + 1];
        let gap = lines[j].y - next.y;
        let t = trim_ws(next.text@);
        if 600 < gap && gap < 2000 {
            if scene_number_token(t) && ratio_below(next.x as int, page.width as int, 95) {
                let n2 = if num is None {
                    Some(trim(t, CharClass::HashDot))
                } else {
                    num
                };
                absorb_heading(page, j + 1, heading, n2)
            } else if has_suffix(heading, "-"@) && ratio_below(next.x as int, page.width as int, 45)
                && letters_all_upper(t) {
                let (nc, ns) = split_scene_number(t);
                let n2 = if num is None {
                    ns
                } else {
                    num
                };
                absorb_heading(page, j + 1, continued(heading, nc), n2)
            } else {
                (j, heading, num)
            }
        } else {
            (j, heading, num)
        }
    }
}

/// The state after a line classified as `kind`.
pub open spec fn element_step(st: ParseState, item: RawTextItem, kind: ElementType) -> ParseState {
    let text = item.text@;
    let bs = st.blocks;
    match kind {
        ElementType::Character => {
            let name = clean_name(text);
            if (last_is(bs, ElementType::Dialogue) || last_is(bs, ElementType::Parenthetical))
                && last_character(bs) == Some(name) {
                ParseState { blocks: bs, state: ElementType::Dialogue, last_action_y: None }
            } else {
                ParseState {
                    blocks: bs.push(new_block(ElementType::Character, name)),
                    state: ElementType::Character,
                    last_action_y: None,
                }
            }
        },
        ElementType::Parenthetical => {
            let clean = trim_ws(trim(text, CharClass::Parens));
            let blocks = if st.state == ElementType::Parenthetical {
                if last_is(bs, ElementType::Parenthetical) {
                    let inner = trim_ws(trim(bs.last().text, CharClass::Parens));
                    with_last_text(bs, seq!['('] + inner + seq![' '] + clean + seq![')'])
                } else {
                    bs
                }
            } else {
                bs.push(new_block(ElementType::Parenthetical, parenthesized(text)))
            };
            ParseState { blocks, state: ElementType::Parenthetical, last_action_y: None }
        },
        ElementType::Dialogue => {
            let blocks = if st.state == ElementType::Dialogue {
                if last_is(bs, ElementType::Dialogue) {
                    with_last_text(bs, continued(bs.last().text, text))
                } else if bs.len() > 0 {
                    bs.push(new_block(ElementType::Dialogue, text))
                } else {
                    bs
                }
            } else {
                bs.push(new_block(ElementType::Dialogue, text))
            };
            ParseState { blocks, state: ElementType::Dialogue, last_action_y: None }
        },
        ElementType::Transition => ParseState {
            blocks: bs.push(new_block(ElementType::Transition, text)),
            state: ElementType::Action,
            last_action_y: None,
        },
        ElementType::Action => {
            let near = match st.last_action_y {
                Some(py) => abs_int(py - item.y) < 1800,
                None => false,
            };
            let blocks = if st.state == ElementType::Action && near && last_is(
                bs,
                ElementType::Action,
            ) {
                with_last_text(bs, continued(bs.last().text, text))
            } else {
                bs.push(new_block(ElementType::Action, text))
            };
            ParseState { blocks, state: ElementType::Action, last_action_y: Some(item.y as int) }
        },
        ElementType::SceneHeading => st,
    }
}

/// What the line at `i` does to the state, and the index of the next line to read: running
/// page numbers at the top right and `(MORE)` markers are skipped, a scene number in the left
/// margin joins the heading on the same baseline, a scene heading takes its continuation
/// lines, and any other line is classified by its margin.
pub open spec fn line_step(page: PageData, p: LayoutProfile, i: int, st: ParseState) -> (
    int,
    ParseState,
) {
    let lines = page.lines@;
    let w = page.width as int;
    let item = lines[i];
    let text = item.text@;
    if page.height - item.y < 7500 && ratio_above(item.x as int, w, 70)
        && crate::calibrate::page_number_text(text) {
        (i + 1, st)
    } else if scene_number_token(text) && ratio_below(item.x as int, w, p.action_x - 2) && i + 1
        < lines.len() && abs_int(lines[i + 1].y - item.y) < 500 && scene_heading_text(
        lines[i + 1].text@,
    ) {
        let (heading, inline_num) = split_scene_number(lines[i + 1].text@);
        let num = if inline_num is Some {
            inline_num
        } else {
            Some(trim(text, CharClass::HashDot))
        };
        (i + 2, heading_state(st, heading, num))
    } else if scene_heading_text(text) {
        let (heading, num) = split_scene_number(text);
        let (j, h, n) = absorb_heading(page, i, heading, num);
        (j + 1, heading_state(st, h, n))
    } else if more_marker_text(text) {
        (i + 1, st)
    } else {
        (i + 1, element_step(st, item, classify(item.x as int, w, p, text, st.state)))
    }
}

/// The state after the lines of `page` from index `i` on.
pub open spec fn page_from(page: PageData, p: LayoutProfile, i: int, st: ParseState) -> ParseState
    decreases page.lines@.len() - i,
{
    if i < 0 || i >= page.lines@.len() {
        st
    } else {
        let (j, next) = line_step(page, p, i, st);
        if j <= i || j > page.lines@.len() {
            st
        } else {
            page_from(page, p, j, next)
        }
    }
}

/// The state after all the lines of `pages`, in order.
pub open spec fn pages_fold(pages: Seq<PageData>, p: LayoutProfile) -> ParseState
    decreases pages.len(),
{
    if pages.len() == 0 {
        start_state()
    } else {
        page_from(pages.last(), p, 0, pages_fold(pages.drop_last(), p))
    }
}

/// Whether the first page is a title page.
pub open spec fn has_title_page(pages: Seq<PageData>) -> bool {
    pages.len() > 0 && crate::calibrate::likely_title_page(pages[0])
}

/// The screenplay read from `pages`: the title page fields when the first page is a title
/// page, and the blocks of the remaining pages.
pub open spec fn screenplay(pages: Seq<PageData>, p: LayoutProfile) -> (Option<TitleView>, Seq<Block>) {
    if has_title_page(pages) {
        (Some(title_page_fields(pages[0])), pages_fold(pages.skip(1), p).blocks)
    } else {
        (None, pages_fold(pages, p).blocks)
    }
}


/// The parser's state while it reads the lines.
struct Parser {
    blocks: Vec<ScriptBlock>,
    state: ElementType,
    last_action_y: Option<i32>,
}

impl View for Parser {
    type V = ParseState;

    closed spec fn view(&self) -> ParseState {
        ParseState {
            blocks: block_views(self.blocks@),
            state: self.state,
            last_action_y: match self.last_action_y {
                Some(y) => Some(y as int),
                None => None,
            },
        }
    }
}

fn make_block(kind: ElementType, text: &[char], num: Option<Vec<char>>) -> (b: ScriptBlock)
    ensures
        b@ == (Block { kind, text: text@, scene_number: opt_chars(num) }),
{
    let scene_number = match num {
        Some(n) => Some(string_from(&n)),
        None => None,
    };
    ScriptBlock { element_type: kind, text: string_from(text), scene_number }
}

fn push_block(blocks: &mut Vec<ScriptBlock>, b: ScriptBlock)
    ensures
        block_views(final(blocks)@) == block_views(old(blocks)@).push(b@),
{
    blocks.push(b);
    assert(block_views(blocks@) =~= block_views(old(blocks)@).push(b@));
}

fn set_last_text(blocks: &mut Vec<ScriptBlock>, text: &[char])
    requires
        old(blocks)@.len() > 0,
    ensures
        block_views(final(blocks)@) == with_last_text(block_views(old(blocks)@), text@),
{
    let ghost bv = block_views(old(blocks)@);
    match blocks.pop() {
        Some(mut b) => {
            assert(b@ == bv.last());
            b.text = string_from(text);
            blocks.push(b);
            assert(block_views(blocks@) =~= with_last_text(bv, text@));
        },
        None => {},
    }
}

fn last_kind_is(blocks: &Vec<ScriptBlock>, kind: ElementType) -> (r: bool)
    ensures
        r == last_is(block_views(blocks@), kind),
{
    blocks.len() > 0 && blocks[blocks.len() - 1].element_type == kind
}

fn last_text(blocks: &Vec<ScriptBlock>) -> (r: Vec<char>)
    requires
        blocks@.len() > 0,
    ensures
        r@ == block_views(blocks@).last().text,
{
    chars_of(blocks[blocks.len() - 1].text.as_str())
}

impl Parser {
    fn element_step(&mut self, item: &RawTextItem, kind: ElementType)
        ensures
            final(self)@ == element_step(old(self)@, *item, kind),
    {
        let text = chars_of(item.text.as_str());
        match kind {
            ElementType::Character => {
                let name = clean_name_chars(&text);
                let continues = (last_kind_is(&self.blocks, ElementType::Dialogue) || last_kind_is(
                    &self.blocks,
                    ElementType::Parenthetical,
                )) && match find_last_character_name(&self.blocks) {
                    Some(t) => crate::text::equals(&chars_of(t), &name),
                    None => false,
                };
                if continues {
                    self.state = ElementType::Dialogue;
                    self.last_action_y = None;
                } else {
                    push_block(&mut self.blocks, make_block(ElementType::Character, &name, None));
                    self.state = ElementType::Character;
                    self.last_action_y = None;
                }
            },
            ElementType::Parenthetical => {
                let clean = trim_spaces(&trim_class(&text, CharClass::Parens));
                if self.state == ElementType::Parenthetical {
                    if last_kind_is(&self.blocks, ElementType::Parenthetical) {
                        let lt = last_text(&self.blocks);
                        let inner = trim_spaces(&trim_class(&lt, CharClass::Parens));
                        let mut merged: Vec<char> = vec!['('];
                        push_all(&mut merged, &inner);
                        merged.push(' ');
                        push_all(&mut merged, &clean);
                        merged.push(')');
                        assert(merged@ =~= seq!['('] + inner@ + seq![' '] + clean@ + seq![')']);
                        set_last_text(&mut self.blocks, &merged);
                    }
                } else {
                    let wrapped = parenthesized_chars(&text);
                    push_block(
                        &mut self.blocks,
                        make_block(ElementType::Parenthetical, &wrapped, None),
                    );
                }
                self.state = ElementType::Parenthetical;
                self.last_action_y = None;
            },
            ElementType::Dialogue => {
                if self.state == ElementType::Dialogue {
                    if last_kind_is(&self.blocks, ElementType::Dialogue) {
                        let mut lt = last_text(&self.blocks);
                        continue_chars(&mut lt, &text);
                        set_last_text(&mut self.blocks, &lt);
                    } else if self.blocks.len() > 0 {
                        push_block(&mut self.blocks, make_block(ElementType::Dialogue, &text, None));
                    }
                } else {
                    push_block(&mut self.blocks, make_block(ElementType::Dialogue, &text, None));
                }
                self.state = ElementType::Dialogue;
                self.last_action_y = None;
            },
            ElementType::Transition => {
                push_block(&mut self.blocks, make_block(ElementType::Transition, &text, None));
                self.state = ElementType::Action;
                self.last_action_y = None;
            },
            ElementType::Action => {
                let near = match self.last_action_y {
                    Some(py) => {
                        let d = py as i64 - item.y as i64;
                        -1800 < d && d < 1800
                    },
                    None => false,
                };
                if self.state == ElementType::Action && near && last_kind_is(
                    &self.blocks,
                    ElementType::Action,
                ) {
                    let mut lt = last_text(&self.blocks);
                    continue_chars(&mut lt, &text);
                    set_last_text(&mut self.blocks, &lt);
                } else {
                    push_block(&mut self.blocks, make_block(ElementType::Action, &text, None));
                }
                self.state = ElementType::Action;
                self.last_action_y = Some(item.y);
            },
            ElementType::SceneHeading => {},
        }
    }
}


fn absorb_heading_chars(page: &PageData, j0: usize, heading0: Vec<char>, num0: Option<Vec<char>>) -> (r: (
    usize,
    Vec<char>,
    Option<Vec<char>>,
))
    requires
        j0 < page.lines@.len(),
    ensures
        (r.0 as int, r.1@, opt_chars(r.2)) == absorb_heading(*page, j0 as int, heading0@, opt_chars(num0)),
        j0 <= r.0 < page.lines@.len(),
{
    let n = page.lines.len();
    let mut j = j0;
    let mut heading = heading0;
    let mut num = num0;
    while j + 1 < n
        invariant
            j0 <= j < n,
            n == page.lines@.len(),
            absorb_heading(*page, j as int, heading@, opt_chars(num)) == absorb_heading(
                *page,
                j0 as int,
                heading0@,
                opt_chars(num0),
            ),
        ensures
            absorb_heading(*page, j as int, heading@, opt_chars(num)) == (
                j as int,
                heading@,
                opt_chars(num),
            ),
        decreases n - j,
    {
        let next = &page.lines[j + 1];
        let gap = page.lines[j].y as i64 - next.y as i64;
        if !(600 < gap && gap < 2000) {
            break;
        }
        let t = trim_spaces(&chars_of(next.text.as_str()));
        if scene_number_chars(&t) && crate::geom::below(next.x, page.width, 95) {
            if num.is_none() {
                num = Some(trim_class(&t, CharClass::HashDot));
            }
            j = j + 1;
        } else if ends_with_str(&heading, "-") && crate::geom::below(next.x, page.width, 45)
            && chars_all_upper(&t) {
            let (nc, ns) = split_scene_number_chars(&t);
            continue_chars(&mut heading, &nc);
            if num.is_none() {
                num = ns;
            }
            j = j + 1;
        } else {
            break;
        }
    }
    (j, heading, num)
}

impl Parser {
    fn line_step(&mut self, page: &PageData, p: &LayoutProfile, i: usize) -> (next: usize)
        requires
            i < page.lines@.len(),
        ensures
            (next as int, final(self)@) == line_step(*page, *p, i as int, old(self)@),
            i < next <= page.lines@.len(),
    {
        let n = page.lines.len();
        let item = &page.lines[i];
        let text = chars_of(item.text.as_str());
        let top = page.height as i64 - item.y as i64;
        if top < 7500 && crate::geom::above(item.x, page.width, 70)
            && crate::calibrate::page_number_chars(&text) {
            return i + 1;
        }
        if scene_number_chars(&text) && crate::geom::below(item.x, page.width, p.action_x as i64 - 2)
            && i + 1 < n {
            let next = &page.lines[i + 1];
            let dy = next.y as i64 - item.y as i64;
            if -500 < dy && dy < 500 {
                let next_text = chars_of(next.text.as_str());
                if scene_heading_chars(&next_text) {
                    let (heading, inline_num) = split_scene_number_chars(&next_text);
                    let num = match inline_num {
                        Some(v) => Some(v),
                        None => Some(trim_class(&text, CharClass::HashDot)),
                    };
                    push_block(&mut self.blocks, make_block(ElementType::SceneHeading, &heading, num));
                    self.state = ElementType::Action;
                    self.last_action_y = None;
                    return i + 2;
                }
            }
        }
        if scene_heading_chars(&text) {
            let (heading, num) = split_scene_number_chars(&text);
            let (j, h, hn) = absorb_heading_chars(page, i, heading, num);
            push_block(&mut self.blocks, make_block(ElementType::SceneHeading, &h, hn));
            self.state = ElementType::Action;
            self.last_action_y = None;
            return j + 1;
        }
        if more_marker_chars(&text) {
            return i + 1;
        }
        let kind = classify_chars(item.x, page.width, p, &text, self.state);
        self.element_step(item, kind);
        i + 1
    }

    fn read_page(&mut self, page: &PageData, p: &LayoutProfile)
        ensures
            final(self)@ == page_from(*page, *p, 0, old(self)@),
    {
        let n = page.lines.len();
        let mut i: usize = 0;
        while i < n
            invariant
                0 <= i <= n,
                n == page.lines@.len(),
                page_from(*page, *p, i as int, self@) == page_from(*page, *p, 0, old(self)@),
            decreases n - i,
        {
            i = self.line_step(page, p, i);
        }
    }
}

/// Reads the screenplay from its pages: the title page, when the first page is one, and the
/// blocks of the other pages in order.
pub fn parse_screenplay(pages: &[PageData], profile: &LayoutProfile) -> (r: (
    Option<TitlePageInfo>,
    Vec<ScriptBlock>,
))
    ensures
        match r.0 {
            Some(t) => screenplay(pages@, *profile).0 == Some(t@),
            None => screenplay(pages@, *profile).0 is None,
        },
        block_views(r.1@) == screenplay(pages@, *profile).1,
{
    let mut parser = Parser { blocks: Vec::new(), state: ElementType::Action, last_action_y: None };
    assert(parser@ == start_state()) by {
        assert(block_views(parser.blocks@) =~= Seq::<Block>::empty());
    }
    let mut title_page: Option<TitlePageInfo> = None;
    let mut start: usize = 0;
    if pages.len() > 0 && crate::calibrate::is_likely_title_page(&pages[0]) {
        title_page = Some(extract_title_page(&pages[0]));
        start = 1;
    }
    let ghost body = pages@.skip(start as int);
    let mut k = start;
    while k < pages.len()
        invariant
            start <= k <= pages.len(),
            body == pages@.skip(start as int),
            parser@ == pages_fold(body.take(k - start), *profile),
        decreases pages.len() - k,
    {
        parser.read_page(&pages[k], profile);
        k = k + 1;
        assert(body.take(k - start).drop_last() =~= body.take(k - start - 1));
        assert(body.take(k - start).last() == pages@[k - 1]);
    }
    assert(body.take(pages.len() - start) =~= body);
    assert(start == 0 ==> body =~= pages@);
    (title_page, parser.blocks)
}


/// `t` begins with `(` and ends with `)`.
pub open spec fn parenthesised(t: Seq<char>) -> bool {
    t.len() >= 2 && t[0] == '(' && t[t.len() - 1] == ')'
}

/// The blocks at `i` and `i + 1` are both dialogue.
pub open spec fn dialogue_pair(bs: Seq<Block>, i: int) -> bool {
    bs[i].kind == ElementType::Dialogue && bs[i + 1].kind == ElementType::Dialogue
}

/// No two dialogue blocks are adjacent.
pub open spec fn dialogue_merged(bs: Seq<Block>) -> bool {
    forall|i: int| 0 <= i < bs.len() - 1 ==> !#[trigger] dialogue_pair(bs, i)
}

/// Every parenthetical block is enclosed in brackets.
pub open spec fn parentheticals_enclosed(bs: Seq<Block>) -> bool {
    forall|i: int|
        0 <= i < bs.len() && (#[trigger] bs[i]).kind == ElementType::Parenthetical ==> parenthesised(
            bs[i].text,
        )
}

/// Only scene headings carry a scene number.
pub open spec fn numbers_on_headings(bs: Seq<Block>) -> bool {
    forall|i: int|
        0 <= i < bs.len() && (#[trigger] bs[i]).scene_number is Some ==> bs[i].kind
            == ElementType::SceneHeading
}

/// What the parser keeps true of its state between lines.
pub open spec fn state_ok(st: ParseState) -> bool {
    &&& dialogue_merged(st.blocks)
    &&& parentheticals_enclosed(st.blocks)
    &&& numbers_on_headings(st.blocks)
    &&& last_is(st.blocks, ElementType::Dialogue) ==> st.state == ElementType::Dialogue
}

proof fn lemma_parenthesized(s: Seq<char>)
    ensures
        parenthesised(parenthesized(s)),
{
    reveal_strlit("(");
    reveal_strlit(")");
    let t = trim_ws(s);
    if has_prefix(t, "("@) && has_suffix(t, ")"@) {
        assert(t.take(1)[0] == '(');
        assert(t.skip(t.len() - 1)[0] == ')');
    }
}

proof fn lemma_push_ok(st: ParseState, b: Block, state: ElementType)
    requires
        state_ok(st),
        b.kind != ElementType::Dialogue || !last_is(st.blocks, ElementType::Dialogue),
        b.kind == ElementType::Parenthetical ==> parenthesised(b.text),
        b.scene_number is Some ==> b.kind == ElementType::SceneHeading,
        b.kind == ElementType::Dialogue ==> state == ElementType::Dialogue,
    ensures
        state_ok(ParseState { blocks: st.blocks.push(b), state, last_action_y: None }),
        forall|y: int| state_ok(ParseState { blocks: st.blocks.push(b), state, last_action_y: Some(y) }),
{
    let bs = st.blocks.push(b);
    assert forall|i: int| 0 <= i < bs.len() - 1 implies !#[trigger] dialogue_pair(bs, i) by {
        if i + 1 == bs.len() - 1 {
            assert(bs[i] == st.blocks.last());
        } else {
            assert(bs[i] == st.blocks[i] && bs[i + 1] == st.blocks[i + 1]);
            assert(!dialogue_pair(st.blocks, i));
        }
    }
    assert forall|i: int| 0 <= i < bs.len() && (#[trigger] bs[i]).kind
        == ElementType::Parenthetical implies parenthesised(bs[i].text) by {
        if i < st.blocks.len() {
            assert(bs[i] == st.blocks[i]);
        }
    }
    assert forall|i: int| 0 <= i < bs.len() && (#[trigger] bs[i]).scene_number is Some implies bs[i].kind
        == ElementType::SceneHeading by {
        if i < st.blocks.len() {
            assert(bs[i] == st.blocks[i]);
        }
    }
}

proof fn lemma_with_last_ok(st: ParseState, text: Seq<char>, state: ElementType, y: Option<int>)
    requires
        state_ok(st),
        st.blocks.len() > 0,
        st.blocks.last().kind == ElementType::Parenthetical ==> parenthesised(text),
        st.blocks.last().kind == ElementType::Dialogue ==> state == ElementType::Dialogue,
    ensures
        state_ok(ParseState { blocks: with_last_text(st.blocks, text), state, last_action_y: y }),
{
    let bs = with_last_text(st.blocks, text);
    let n = st.blocks.len();
    assert forall|i: int| 0 <= i < bs.len() - 1 implies !#[trigger] dialogue_pair(bs, i) by {
        assert(bs[i].kind == st.blocks[i].kind && bs[i + 1].kind == st.blocks[i + 1].kind);
        assert(!dialogue_pair(st.blocks, i));
    }
    assert forall|i: int| 0 <= i < bs.len() && (#[trigger] bs[i]).kind
        == ElementType::Parenthetical implies parenthesised(bs[i].text) by {
        if i < n - 1 {
            assert(bs[i] == st.blocks[i]);
        }
    }
    assert forall|i: int| 0 <= i < bs.len() && (#[trigger] bs[i]).scene_number is Some implies bs[i].kind
        == ElementType::SceneHeading by {
        assert(bs[i].kind == st.blocks[i].kind && bs[i].scene_number == st.blocks[i].scene_number);
    }
}

proof fn lemma_element_step_ok(st: ParseState, item: RawTextItem, kind: ElementType)
    requires
        state_ok(st),
    ensures
        state_ok(element_step(st, item, kind)),
{
    let text = item.text@;
    let bs = st.blocks;
    match kind {
        ElementType::Character => {
            let name = clean_name(text);
            if !((last_is(bs, ElementType::Dialogue) || last_is(bs, ElementType::Parenthetical))
                && last_character(bs) == Some(name)) {
                lemma_push_ok(st, new_block(ElementType::Character, name), ElementType::Character);
            }
        },
        ElementType::Parenthetical => {
            let clean = trim_ws(trim(text, CharClass::Parens));
            if st.state == ElementType::Parenthetical {
                if last_is(bs, ElementType::Parenthetical) {
                    let inner = trim_ws(trim(bs.last().text, CharClass::Parens));
                    let t = seq!['('] + inner + seq![' '] + clean + seq![')'];
                    assert(t[0] == '(' && t[t.len() - 1] == ')');
                    lemma_with_last_ok(st, t, ElementType::Parenthetical, None);
                }
            } else {
                lemma_parenthesized(text);
                lemma_push_ok(
                    st,
                    new_block(ElementType::Parenthetical, parenthesized(text)),
                    ElementType::Parenthetical,
                );
            }
        },
        ElementType::Dialogue => {
            if st.state == ElementType::Dialogue {
                if last_is(bs, ElementType::Dialogue) {
                    lemma_with_last_ok(
                        st,
                        continued(bs.last().text, text),
                        ElementType::Dialogue,
                        None,
                    );
                } else if bs.len() > 0 {
                    lemma_push_ok(st, new_block(ElementType::Dialogue, text), ElementType::Dialogue);
                }
            } else {
                lemma_push_ok(st, new_block(ElementType::Dialogue, text), ElementType::Dialogue);
            }
        },
        ElementType::Transition => {
            lemma_push_ok(st, new_block(ElementType::Transition, text), ElementType::Action);
        },
        ElementType::Action => {
            let near = match st.last_action_y {
                Some(py) => abs_int(py - item.y) < 1800,
                None => false,
            };
            if st.state == ElementType::Action && near && last_is(bs, ElementType::Action) {
                lemma_with_last_ok(
                    st,
                    continued(bs.last().text, text),
                    ElementType::Action,
                    Some(item.y as int),
                );
            } else {
                lemma_push_ok(st, new_block(ElementType::Action, text), ElementType::Action);
            }
        },
        ElementType::SceneHeading => {},
    }
}

proof fn lemma_line_step_ok(page: PageData, p: LayoutProfile, i: int, st: ParseState)
    requires
        state_ok(st),
        0 <= i < page.lines@.len(),
    ensures
        state_ok(line_step(page, p, i, st).1),
{
    let lines = page.lines@;
    let w = page.width as int;
    let item = lines[i];
    let text = item.text@;
    if page.height - item.y < 7500 && ratio_above(item.x as int, w, 70)
        && crate::calibrate::page_number_text(text) {
    } else if scene_number_token(text) && ratio_below(item.x as int, w, p.action_x - 2) && i + 1
        < lines.len() && abs_int(lines[i + 1].y - item.y) < 500 && scene_heading_text(
        lines[i + 1].text@,
    ) {
        let (heading, inline_num) = split_scene_number(lines[i + 1].text@);
        let num = if inline_num is Some {
            inline_num
        } else {
            Some(trim(text, CharClass::HashDot))
        };
        lemma_push_ok(
            st,
            Block { kind: ElementType::SceneHeading, text: heading, scene_number: num },
            ElementType::Action,
        );
    } else if scene_heading_text(text) {
        let (heading, num) = split_scene_number(text);
        let (j, h, n) = absorb_heading(page, i, heading, num);
        lemma_push_ok(
            st,
            Block { kind: ElementType::SceneHeading, text: h, scene_number: n },
            ElementType::Action,
        );
    } else if more_marker_text(text) {
    } else {
        lemma_element_step_ok(st, item, classify(item.x as int, w, p, text, st.state));
    }
}

proof fn lemma_page_from_ok(page: PageData, p: LayoutProfile, i: int, st: ParseState)
    requires
        state_ok(st),
    ensures
        state_ok(page_from(page, p, i, st)),
    decreases page.lines@.len() - i,
{
    if 0 <= i < page.lines@.len() {
        let (j, next) = line_step(page, p, i, st);
        if !(j <= i || j > page.lines@.len()) {
            lemma_line_step_ok(page, p, i, st);
            lemma_page_from_ok(page, p, j, next);
        }
    }
}

proof fn lemma_pages_fold_ok(pages: Seq<PageData>, p: LayoutProfile)
    ensures
        state_ok(pages_fold(pages, p)),
    decreases pages.len(),
{
    if pages.len() > 0 {
        lemma_pages_fold_ok(pages.drop_last(), p);
        lemma_page_from_ok(pages.last(), p, 0, pages_fold(pages.drop_last(), p));
    }
}

/// Law: in every screenplay read from pages, dialogue lines are merged into single blocks
/// (no two dialogue blocks are adjacent), every parenthetical is enclosed in brackets, and
/// only scene headings carry scene numbers.
pub proof fn lemma_screenplay_blocks(pages: Seq<PageData>, p: LayoutProfile)
    ensures
        dialogue_merged(screenplay(pages, p).1),
        parentheticals_enclosed(screenplay(pages, p).1),
        numbers_on_headings(screenplay(pages, p).1),
{
    if has_title_page(pages) {
        lemma_pages_fold_ok(pages.skip(1), p);
    } else {
        lemma_pages_fold_ok(pages, p);
    }
}


proof fn lemma_ratio_scaling(x: int, w: int, k: int, c: int)
    requires
        k > 0,
    ensures
        ratio_below(k * x, k * w, c) == ratio_below(x, w, c),
        ratio_above(k * x, k * w, c) == ratio_above(x, w, c),
        ratio_distance(k * x, k * w, c) == k * ratio_distance(x, w, c),
        abs_int(k * w) == k * abs_int(w),
{
    let sx = crate::geom::signed_x(x, w);
    let aw = abs_int(w);
    assert(crate::geom::signed_x(k * x, k * w) == k * sx) by (nonlinear_arith)
        requires
            k > 0,
            sx == crate::geom::signed_x(x, w),
    ;
    assert(abs_int(k * w) == k * aw) by (nonlinear_arith)
        requires
            k > 0,
            aw == abs_int(w),
    ;
    let d = 100 * sx - c * aw;
    assert(100 * (k * sx) - c * (k * aw) == k * d) by (nonlinear_arith)
        requires
            d == 100 * sx - c * aw,
    ;
    assert((k * d < 0) == (d < 0)) by (nonlinear_arith)
        requires
            k > 0,
    ;
    assert((k * d > 0) == (d > 0)) by (nonlinear_arith)
        requires
            k > 0,
    ;
    assert(abs_int(k * d) == k * abs_int(d)) by (nonlinear_arith)
        requires
            k > 0,
    ;
}

proof fn lemma_scaled_less(a: int, b: int, k: int)
    requires
        k > 0,
    ensures
        (k * a < k * b) == (a < b),
{
    assert((k * a < k * b) == (a < b)) by (nonlinear_arith)
        requires
            k > 0,
    ;
}

/// Law: classifying a line by its margin depends on its position only as a fraction of the
/// page width, so a page scaled uniformly (A4 against US Letter) reads the same.
pub proof fn lemma_classify_scale_invariant(
    x: int,
    w: int,
    k: int,
    p: LayoutProfile,
    text: Seq<char>,
    state: ElementType,
)
    requires
        k > 0,
    ensures
        classify(k * x, k * w, p, text, state) == classify(x, w, p, text, state),
{
    let aw = abs_int(w);
    lemma_ratio_scaling(x, w, k, 60);
    lemma_ratio_scaling(x, w, k, p.dialogue_x + 5);
    lemma_ratio_scaling(x, w, k, p.action_x + 5);
    lemma_ratio_scaling(x, w, k, p.action_x + 6);
    lemma_ratio_scaling(x, w, k, p.action_x as int);
    lemma_ratio_scaling(x, w, k, p.dialogue_x as int);
    lemma_ratio_scaling(x, w, k, p.parenthetical_x as int);
    lemma_ratio_scaling(x, w, k, p.character_x as int);
    let da = ratio_distance(x, w, p.action_x as int);
    let dd = ratio_distance(x, w, p.dialogue_x as int);
    let dp = ratio_distance(x, w, p.parenthetical_x as int);
    let dc = ratio_distance(x, w, p.character_x as int);
    lemma_scaled_less(dc, 7 * aw, k);
    lemma_scaled_less(dp, dd, k);
    lemma_scaled_less(dp, 5 * aw, k);
    lemma_scaled_less(dd, da, k);
    lemma_scaled_less(dc, dd, k);
    lemma_scaled_less(dc, da, k);
    assert(k * (7 * aw) == 7 * (k * aw)) by (nonlinear_arith);
    assert(k * (5 * aw) == 5 * (k * aw)) by (nonlinear_arith);
}


/// Law: continuing a text keeps it as it was and ends with the trimmed continuation, with
/// at most one space between them.
pub proof fn lemma_continued(target: Seq<char>, next: Seq<char>)
    ensures
        has_prefix(continued(target, next), target),
        has_suffix(continued(target, next), trim_ws(next)),
        continued(target, next).len() <= target.len() + 1 + trim_ws(next).len(),
{
    let r = continued(target, next);
    let t = trim_ws(next);
    assert(r.take(target.len() as int) =~= target);
    assert(r.skip(r.len() - t.len()) =~= t);
}


/// The separator that continuing `target` puts before the continuation: none after a hyphen
/// that follows a letter or digit, or after a space; one space otherwise.
pub open spec fn continuation_separator(target: Seq<char>) -> Seq<char> {
    let n = target.len();
    if (n >= 2 && target[n - 1] == '-' && is_alphanumeric_char(target[n - 2])) || (n >= 1
        && target[n - 1] == ' ') {
        Seq::empty()
    } else {
        seq![' ']
    }
}

/// Law: continuing a text appends the separator and then the trimmed continuation.
pub proof fn lemma_continuation_separator(target: Seq<char>, next: Seq<char>)
    ensures
        continued(target, next) == target + continuation_separator(target) + trim_ws(next),
{
    reveal_strlit("-");
    reveal_strlit("--");
    reveal_strlit(" -");
    reveal_strlit(" ");
    let n = target.len();
    if n >= 1 {
        assert(has_suffix(target, " "@) <==> target[n - 1] == ' ') by {
            assert(target.skip(n - 1)[0] == target[n - 1]);
            assert(" "@[0] == ' ');
            if target[n - 1] == ' ' {
                assert(target.skip(n - 1) =~= " "@);
            }
        }
        assert(has_suffix(target, "-"@) <==> target[n - 1] == '-') by {
            assert(target.skip(n - 1)[0] == target[n - 1]);
            assert("-"@[0] == '-');
            if target[n - 1] == '-' {
                assert(target.skip(n - 1) =~= "-"@);
            }
        }
    }
    if n >= 2 && target[n - 1] == '-' && is_alphanumeric_char(target[n - 2]) {
        assert(target[n - 2] != '-' && target[n - 2] != ' ');
        assert(!has_suffix(target, "--"@)) by {
            if has_suffix(target, "--"@) {
                assert(target.skip(n - 2)[0] == target[n - 2]);
            }
        }
        assert(!has_suffix(target, " -"@)) by {
            if has_suffix(target, " -"@) {
                assert(target.skip(n - 2)[0] == target[n - 2]);
            }
        }
    }
    assert(target + Seq::<char>::empty() =~= target);
}
/// `b` is the page `a` with the line `it` put before its first line.
pub open spec fn line_put_first(a: PageData, b: PageData, it: RawTextItem) -> bool {
    &&& b.page_number == a.page_number
    &&& b.width == a.width
    &&& b.height == a.height
    &&& b.lines@ == seq![it] + a.lines@
}

proof fn lemma_absorb_shift(
    a: PageData,
    b: PageData,
    it: RawTextItem,
    j: int,
    heading: Seq<char>,
    num: Option<Seq<char>>,
)
    requires
        line_put_first(a, b, it),
        j >= 0,
    ensures
        ({
            let r = absorb_heading(a, j, heading, num);
            absorb_heading(b, j + 1, heading, num) == (r.0 + 1, r.1, r.2)
        }),
    decreases a.lines@.len() - j,
{
    let la = a.lines@;
    let lb = b.lines@;
    if j + 1 < la.len() {
        assert(lb[j + 1] == la[j]);
        assert(lb[j + 2] == la[j + 1]);
        let next = la[j + 1];
        let t = trim_ws(next.text@);
        let gap = la[j].y - next.y;
        if 600 < gap && gap < 2000 {
            if scene_number_token(t) && ratio_below(next.x as int, a.width as int, 95) {
                let n2 = if num is None {
                    Some(trim(t, CharClass::HashDot))
                } else {
                    num
                };
                lemma_absorb_shift(a, b, it, j + 1, heading, n2);
            } else if has_suffix(heading, "-"@) && ratio_below(next.x as int, a.width as int, 45)
                && letters_all_upper(t) {
                let (nc, ns) = split_scene_number(t);
                let n2 = if num is None {
                    ns
                } else {
                    num
                };
                lemma_absorb_shift(a, b, it, j + 1, continued(heading, nc), n2);
            }
        }
    }
}

proof fn lemma_page_from_shift(a: PageData, b: PageData, it: RawTextItem, p: LayoutProfile, i: int, st: ParseState)
    requires
        line_put_first(a, b, it),
        i >= 0,
    ensures
        page_from(b, p, i + 1, st) == page_from(a, p, i, st),
    decreases a.lines@.len() - i,
{
    let la = a.lines@;
    let lb = b.lines@;
    if i < la.len() {
        assert(lb[i + 1] == la[i]);
        if i + 1 < la.len() {
            assert(lb[i + 2] == la[i + 1]);
        }
        let text = la[i].text@;
        if scene_heading_text(text) {
            let (heading, num) = split_scene_number(text);
            lemma_absorb_shift(a, b, it, i, heading, num);
        }
        let (j, next) = line_step(a, p, i, st);
        assert(line_step(b, p, i + 1, st) == (j + 1, next));
        if j > i && j <= la.len() {
            lemma_page_from_shift(a, b, it, p, j, next);
        }
    }
}

/// The characters of a trimmed text are characters of the text.
proof fn lemma_trim_chars(s: Seq<char>, k: CharClass)
    ensures
        forall|i: int|
            0 <= i < trim(s, k).len() ==> exists|j: int| 0 <= j < s.len() && s[j] == #[trigger] trim(
                s,
                k,
            )[i],
{
    let a = lead_from(s, k, 0);
    lemma_lead_from_bounds(s, k, 0);
    let u = trim_start(s, k);
    lemma_tail_from_bounds(u, k, u.len() as int);
    assert forall|i: int| 0 <= i < trim(s, k).len() implies exists|j: int|
        0 <= j < s.len() && s[j] == #[trigger] trim(s, k)[i] by {
        assert(trim(s, k)[i] == u[i]);
        assert(u[i] == s[a + i]);
    }
}

/// A character of a `(MORE)` marker: a bracket, white space or a letter of the word.
spec fn more_char(c: char) -> bool {
    ||| c == '(' || c == ')' || is_white_space(c)
    ||| c == 'M' || c == 'm' || c == 'O' || c == 'o' || c == 'R' || c == 'r' || c == 'E' || c == 'e'
}

/// A character of an uppercased `(MORE)` marker.
spec fn upper_more_char(c: char) -> bool {
    ||| c == '(' || c == ')' || is_white_space(c)
    ||| c == 'M' || c == 'O' || c == 'R' || c == 'E'
}

/// Every character of a text whose trimmed form is a `(MORE)` word is a bracket, white space
/// or a letter of that word.
proof fn lemma_more_marker_chars(s: Seq<char>)
    requires
        more_marker_text(s),
    ensures
        forall|j: int| 0 <= j < s.len() ==> more_char(#[trigger] s[j]),
{
    let k = CharClass::ParensSpace;
    let a = lead_from(s, k, 0);
    lemma_lead_from_bounds(s, k, 0);
    let u = trim_start(s, k);
    let e = tail_from(u, k, u.len() as int);
    lemma_tail_from_bounds(u, k, u.len() as int);
    let c = trim(s, k);
    assert forall|j: int| 0 <= j < s.len() implies more_char(#[trigger] s[j]) by {
        if j < a {
            assert(in_class(s[j], k));
        } else if j < a + e {
            assert(s[j] == u[j - a]);
            assert(c[j - a] == u[j - a]);
            assert(0 <= j - a < 4);
            if j - a == 0 {
                assert(either_case(c[0], 'M', 'm'));
            } else if j - a == 1 {
                assert(either_case(c[1], 'O', 'o'));
            } else if j - a == 2 {
                assert(either_case(c[2], 'R', 'r'));
            } else {
                assert(either_case(c[3], 'E', 'e'));
            }
        } else {
            assert(s[j] == u[j - a]);
            assert(in_class(u[j - a], k));
        }
    }
}

proof fn lemma_more_marker_no_digit(s: Seq<char>)
    requires
        more_marker_text(s),
    ensures
        forall|j: int| 0 <= j < s.len() ==> !is_digit(#[trigger] s[j]),
{
    lemma_more_marker_chars(s);
    assert forall|j: int| 0 <= j < s.len() implies !is_digit(#[trigger] s[j]) by {
        assert(more_char(s[j]));
    }
}

proof fn lemma_upper_more(t: Seq<char>)
    requires
        forall|j: int| 0 <= j < t.len() ==> more_char(#[trigger] t[j]),
    ensures
        forall|j: int| 0 <= j < uppercase_of(t).len() ==> upper_more_char(#[trigger] uppercase_of(t)[j]),
    decreases t.len(),
{
    if t.len() > 0 {
        let d = t.drop_last();
        assert forall|j: int| 0 <= j < d.len() implies more_char(#[trigger] d[j]) by {
            assert(d[j] == t[j]);
        }
        lemma_upper_more(d);
        let c = t.last();
        assert(more_char(t[t.len() - 1]));
        let uc = upper_char(c);
        assert(forall|j: int| 0 <= j < uc.len() ==> upper_more_char(#[trigger] uc[j])) by {
            if c == 'm' {
                assert(ascii_upper_of(c) == 'M');
            } else if c == 'o' {
                assert(ascii_upper_of(c) == 'O');
            } else if c == 'r' {
                assert(ascii_upper_of(c) == 'R');
            } else if c == 'e' {
                assert(ascii_upper_of(c) == 'E');
            }
        }
        let r = uppercase_of(t);
        let p = uppercase_of(d);
        assert forall|j: int| 0 <= j < r.len() implies upper_more_char(#[trigger] r[j]) by {
            if j < p.len() {
                assert(r[j] == p[j]);
            } else {
                assert(r[j] == uc[j - p.len()]);
            }
        }
    }
}

proof fn lemma_no_dash_infix(up: Seq<char>, p: Seq<char>)
    requires
        p.len() >= 2,
        p[1] == '-',
        forall|j: int| 0 <= j < up.len() ==> upper_more_char(#[trigger] up[j]),
    ensures
        !has_infix(up, p),
{
    if has_infix(up, p) {
        let i = choose|i: int| occurs_at(up, p, i);
        assert(up.subrange(i, i + p.len())[1] == up[i + 1]);
        assert(upper_more_char(up[i + 1]));
    }
}

/// A `(MORE)` marker is never read as a scene heading.
proof fn lemma_more_marker_not_heading(s: Seq<char>)
    requires
        more_marker_text(s),
    ensures
        !scene_heading_text(s),
{
    lemma_more_marker_chars(s);
    let k = CharClass::DigitSpaceDotHash;
    let a = lead_from(s, k, 0);
    lemma_lead_from_bounds(s, k, 0);
    let u = trim_start(s, k);
    assert forall|j: int| 0 <= j < u.len() implies more_char(#[trigger] u[j]) by {
        assert(u[j] == s[a + j]);
    }
    let core = trim_ws(u);
    lemma_trim_chars(u, CharClass::Space);
    assert forall|j: int| 0 <= j < core.len() implies more_char(#[trigger] core[j]) by {
        let i = choose|i: int| 0 <= i < u.len() && u[i] == core[j];
    }
    lemma_upper_more(core);
    let up = uppercase_of(core);
    reveal_strlit("INT.");
    reveal_strlit("EXT.");
    reveal_strlit("INT/EXT");
    reveal_strlit("I/E");
    reveal_strlit(" - DAY");
    reveal_strlit(" - NIGHT");
    reveal_strlit(" - CONTINUOUS");
    reveal_strlit(" - LATER");
    reveal_strlit(" - MOMENTS LATER");
    reveal_strlit(" - SAME TIME");
    reveal_strlit(" - DAWN");
    reveal_strlit(" - DUSK");
    if has_prefix(up, "INT."@) {
        assert(up.take(4)[0] == up[0]);
        assert(upper_more_char(up[0]));
    }
    if has_prefix(up, "EXT."@) {
        assert(up.take(4)[1] == up[1]);
        assert(upper_more_char(up[1]));
    }
    if has_prefix(up, "INT/EXT"@) {
        assert(up.take(7)[0] == up[0]);
        assert(upper_more_char(up[0]));
    }
    if has_prefix(up, "I/E"@) {
        assert(up.take(3)[0] == up[0]);
        assert(upper_more_char(up[0]));
    }
    assert(!heading_prefix(up));
    lemma_no_dash_infix(up, " - DAY"@);
    lemma_no_dash_infix(up, " - NIGHT"@);
    lemma_no_dash_infix(up, " - CONTINUOUS"@);
    lemma_no_dash_infix(up, " - LATER"@);
    lemma_no_dash_infix(up, " - MOMENTS LATER"@);
    lemma_no_dash_infix(up, " - SAME TIME"@);
    lemma_no_dash_infix(up, " - DAWN"@);
    lemma_no_dash_infix(up, " - DUSK"@);
}

proof fn lemma_more_marker_not_number(s: Seq<char>)
    requires
        more_marker_text(s),
    ensures
        !scene_number_token(s),
{
    lemma_more_marker_no_digit(s);
    lemma_trim_chars(s, CharClass::SpaceHashDot);
    let clean = trim(s, CharClass::SpaceHashDot);
    if scene_number_token(s) {
        let i = choose|i: int| 0 <= i < clean.len() && is_digit(#[trigger] clean[i]);
        let j = choose|j: int| 0 <= j < s.len() && s[j] == #[trigger] clean[i];
        assert(!is_digit(s[j]));
    }
}

/// A line that page breaks leave on a page: a `(MORE)` marker, or a page number within 75
/// points of the top and right of 70% of the width.
pub open spec fn page_break_line(page: PageData, it: RawTextItem) -> bool {
    ||| more_marker_text(it.text@)
    ||| page.height - it.y < 7500 && ratio_above(it.x as int, page.width as int, 70)
        && crate::calibrate::page_number_text(it.text@)
}

proof fn lemma_page_break_line_skipped(a: PageData, b: PageData, it: RawTextItem, p: LayoutProfile, st: ParseState)
    requires
        line_put_first(a, b, it),
        page_break_line(a, it),
    ensures
        page_from(b, p, 0, st) == page_from(a, p, 0, st),
{
    assert(b.lines@[0] == it);
    if more_marker_text(it.text@) {
        lemma_more_marker_not_number(it.text@);
        lemma_more_marker_not_heading(it.text@);
    }
    assert(line_step(b, p, 0, st) == (1int, st));
    lemma_page_from_shift(a, b, it, p, 0, st);
}

proof fn lemma_fold_page_replaced(pages: Seq<PageData>, pages2: Seq<PageData>, k: int, p: LayoutProfile)
    requires
        0 <= k < pages.len(),
        pages2.len() == pages.len(),
        forall|i: int| 0 <= i < pages.len() && i != k ==> pages2[i] == pages[i],
        forall|st: ParseState| page_from(#[trigger] pages2[k], p, 0, st) == page_from(pages[k], p, 0, st),
    ensures
        pages_fold(pages2, p) == pages_fold(pages, p),
    decreases pages.len(),
{
    let n = pages.len() - 1;
    if k < n {
        assert forall|i: int| 0 <= i < n && i != k implies pages2.drop_last()[i]
            == pages.drop_last()[i] by {
            assert(pages2[i] == pages[i]);
        }
        assert(pages2.drop_last()[k] == pages2[k] && pages.drop_last()[k] == pages[k]);
        lemma_fold_page_replaced(pages.drop_last(), pages2.drop_last(), k, p);
        assert(pages2.last() == pages[n]);
    } else {
        assert(pages2.drop_last() =~= pages.drop_last()) by {
            assert forall|i: int| 0 <= i < n implies pages2.drop_last()[i] == pages.drop_last()[i] by {
                assert(pages2[i] == pages[i]);
            }
        }
        let st = pages_fold(pages.drop_last(), p);
        assert(page_from(pages2[k], p, 0, st) == page_from(pages[k], p, 0, st));
    }
}
/// Law: a line that ends in `TO:` or reads exactly `FADE OUT.` or `FADE IN:`, right of 60%
/// of the page width, is a transition, whatever element came before it and whatever the
/// learned margins.
pub proof fn lemma_transition_cue(x: int, w: int, p: LayoutProfile, text: Seq<char>, state: ElementType)
    requires
        has_suffix(text, "TO:"@) || text == "FADE OUT."@ || text == "FADE IN:"@,
        ratio_above(x, w, 60),
    ensures
        classify(x, w, p, text, state) == ElementType::Transition,
{
    reveal_strlit("TO:");
    reveal_strlit("FADE OUT.");
    reveal_strlit("FADE IN:");
    reveal_strlit("(");
    reveal_strlit(")");
    if has_prefix(text, "("@) && has_suffix(text, ")"@) {
        assert(text.skip(text.len() - 1)[0] == text[text.len() - 1]);
        if has_suffix(text, "TO:"@) {
            assert(text.skip(text.len() - 3)[2] == text[text.len() - 1]);
        } else {
            assert(text.take(1)[0] == text[0]);
        }
    }
}

/// Law: an action line joins the last block only when that block is action, the element
/// before was action, and its baseline lies less than 18 points from that of the previous
/// action line; it then continues that block's text. Any other action line starts a new
/// action block of its own text. Either way the line's baseline is kept for the next one.
pub proof fn lemma_action_paragraphs(st: ParseState, item: RawTextItem)
    ensures
        ({
            let r = element_step(st, item, ElementType::Action);
            let joins = st.state == ElementType::Action && last_is(st.blocks, ElementType::Action)
                && (st.last_action_y matches Some(py) && abs_int(py - item.y) < 1800);
            &&& r.state == ElementType::Action
            &&& r.last_action_y == Some(item.y as int)
            &&& joins ==> r.blocks.len() == st.blocks.len() && r.blocks.drop_last()
                == st.blocks.drop_last() && r.blocks.last().kind == ElementType::Action
                && r.blocks.last().text == continued(st.blocks.last().text, item.text@)
            &&& !joins ==> r.blocks == st.blocks.push(
                Block { kind: ElementType::Action, text: item.text@, scene_number: None },
            )
        }),
{
    let r = element_step(st, item, ElementType::Action);
    let joins = st.state == ElementType::Action && last_is(st.blocks, ElementType::Action)
        && (st.last_action_y matches Some(py) && abs_int(py - item.y) < 1800);
    if joins {
        assert(r.blocks.drop_last() =~= st.blocks.drop_last());
    }
}

/// Law: once a title has been read, no later line of the title page changes it.
pub proof fn lemma_title_kept(lines: Seq<RawTextItem>, i: int, info: TitleView)
    requires
        info.title is Some,
    ensures
        title_from(lines, i, info).title == info.title,
    decreases lines.len() - i,
{
    if 0 <= i < lines.len() {
        let (next, j) = title_step(lines, i, info);
        if j > i {
            lemma_title_kept(lines, j, next);
        }
    }
}

/// Law: when the first line of a title page is neither a credit line nor a `by` line, it is
/// the title, and stays the title whatever lines follow.
pub proof fn lemma_title_first_plain_line(page: PageData)
    requires
        page.lines@.len() > 0,
        !credit_line(lowercase_of(page.lines@[0].text@)),
        !has_prefix(lowercase_of(page.lines@[0].text@), "by "@),
        !has_prefix(lowercase_of(page.lines@[0].text@), "by:"@),
        lowercase_of(page.lines@[0].text@) != "by"@,
    ensures
        title_page_fields(page).title == Some(page.lines@[0].text@),
{
    let lines = page.lines@;
    let (next, j) = title_step(lines, 0, no_title());
    assert(next.title == Some(lines[0].text@));
    lemma_title_kept(lines, j, next);
}


/// Law: a `(MORE)` marker or a top-right running page number at the head of any page after
/// the first leaves no trace: the screenplay read is the same without it.
pub proof fn lemma_page_break_line_ignored(
    pages: Seq<PageData>,
    pages2: Seq<PageData>,
    k: int,
    it: RawTextItem,
    p: LayoutProfile,
)
    requires
        1 <= k < pages.len(),
        pages2.len() == pages.len(),
        forall|i: int| 0 <= i < pages.len() && i != k ==> pages2[i] == pages[i],
        line_put_first(pages[k], pages2[k], it),
        page_break_line(pages[k], it),
    ensures
        screenplay(pages2, p) == screenplay(pages, p),
{
    assert forall|st: ParseState| page_from(#[trigger] pages2[k], p, 0, st) == page_from(pages[k], p, 0, st) by {
        lemma_page_break_line_skipped(pages[k], pages2[k], it, p, st);
    }
    assert(pages2[0] == pages[0]);
    lemma_fold_page_replaced(pages, pages2, k, p);
    let s1 = pages.skip(1);
    let s2 = pages2.skip(1);
    assert forall|i: int| 0 <= i < s1.len() && i != k - 1 implies s2[i] == s1[i] by {
        assert(pages2[i + 1] == pages[i + 1]);
    }
    assert(s2[k - 1] == pages2[k] && s1[k - 1] == pages[k]);
    lemma_fold_page_replaced(s1, s2, k - 1, p);
}


/// Law: a `(MORE)` marker leaves the blocks and the state as they were.
pub proof fn lemma_more_marker_skipped(page: PageData, p: LayoutProfile, i: int, st: ParseState)
    requires
        0 <= i < page.lines@.len(),
        more_marker_text(page.lines@[i].text@),
    ensures
        line_step(page, p, i, st) == (i + 1, st),
{
    lemma_more_marker_not_number(page.lines@[i].text@);
    lemma_more_marker_not_heading(page.lines@[i].text@);
}

/// Law: a running page number at the top right of a page (within 75 points of its top,
/// right of 70% of its width) leaves the blocks and the state as they were.
pub proof fn lemma_running_page_number_skipped(
    page: PageData,
    p: LayoutProfile,
    i: int,
    st: ParseState,
)
    requires
        0 <= i < page.lines@.len(),
        page.height - page.lines@[i].y < 7500,
        ratio_above(page.lines@[i].x as int, page.width as int, 70),
        crate::calibrate::page_number_text(page.lines@[i].text@),
    ensures
        line_step(page, p, i, st) == (i + 1, st),
{
}

/// Law: a dialogue split across a page break is reconnected: when the cue repeats the name
/// of the character who is speaking, no block is added and the dialogue goes on.
pub proof fn lemma_dialogue_reconnected(st: ParseState, item: RawTextItem)
    requires
        last_is(st.blocks, ElementType::Dialogue) || last_is(st.blocks, ElementType::Parenthetical),
        last_character(st.blocks) == Some(clean_name(item.text@)),
    ensures
        element_step(st, item, ElementType::Character).blocks == st.blocks,
        element_step(st, item, ElementType::Character).state == ElementType::Dialogue,
{
}

} // verus!
