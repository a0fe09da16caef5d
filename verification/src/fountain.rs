//! Rendering of screenplay elements as Fountain markup.

use vstd::prelude::*;
use crate::fsm::{Block, ElementType, ScriptBlock, TitlePageInfo, TitleView, block_views};
use crate::text::{
    chars_of, has_prefix, has_suffix, push_all, push_str, string_from, to_uppercase, trim_spaces, trim_ws,
    uppercase_of, ends_with,
};

verus! {

/// The line `label` + trimmed `value` + newline, or nothing when the field is absent.
pub open spec fn field_line(label: Seq<char>, value: Option<Seq<char>>) -> Seq<char> {
    match value {
        Some(v) => label + trim_ws(v) + seq!['\n'],
        None => Seq::empty(),
    }
}

/// The title-page header: one line per present field, then a blank line if any was written.
pub open spec fn title_header(tp: Option<TitleView>) -> Seq<char> {
    match tp {
        None => Seq::empty(),
        Some(t) => {
            let lines = field_line("Title: "@, t.title) + field_line("Credit: "@, t.credit)
                + field_line("Author: "@, t.author);
            if lines.len() > 0 {
                lines.push('\n')
            } else {
                lines
            }
        },
    }
}

/// The output so far is non-empty and does not yet end in a blank line.
pub open spec fn needs_break(out: Seq<char>) -> bool {
    out.len() > 0 && !has_suffix(out, "\n\n"@)
}

/// `out` followed by a newline when [`needs_break`] holds.
pub open spec fn with_break(out: Seq<char>) -> Seq<char> {
    if needs_break(out) {
        out.push('\n')
    } else {
        out
    }
}

/// The element before is a character cue, a parenthetical or dialogue.
pub open spec fn is_dialogue_component(prev: Option<ElementType>) -> bool {
    match prev {
        Some(ElementType::Character) | Some(ElementType::Parenthetical) | Some(
            ElementType::Dialogue,
        ) => true,
        _ => false,
    }
}

/// `t` trimmed, without one leading `marker` (itself followed by trimmed text).
pub open spec fn strip_marker(t: Seq<char>, marker: char) -> Seq<char> {
    let h = trim_ws(t);
    if h.len() > 0 && h[0] == marker {
        trim_ws(h.drop_first())
    } else {
        h
    }
}

/// `t` trimmed, with `prefix` put in front unless it already begins with `marker`.
pub open spec fn ensure_marker(t: Seq<char>, marker: char, prefix: Seq<char>) -> Seq<char> {
    let a = trim_ws(t);
    if a.len() > 0 && a[0] == marker {
        a
    } else {
        prefix + a
    }
}

/// The markup of one block, appended to the output `out` written so far.
pub open spec fn render_block(out: Seq<char>, prev: Option<ElementType>, b: Block) -> Seq<char> {
    match b.kind {
        ElementType::SceneHeading => {
            let number = match b.scene_number {
                Some(n) => " #"@ + n + seq!['#'],
                None => Seq::empty(),
            };
            with_break(out) + seq!['.'] + uppercase_of(strip_marker(b.text, '.')) + number
                + "\n\n"@
        },
        ElementType::Action => {
            let o = if is_dialogue_component(prev) && !has_suffix(out, "\n\n"@) {
                out.push('\n')
            } else {
                out
            };
            o + ensure_marker(b.text, '!', seq!['!']) + "\n\n"@
        },
        ElementType::Character => {
            with_break(out) + seq!['@'] + uppercase_of(strip_marker(b.text, '@')) + seq!['\n']
        },
        ElementType::Parenthetical => out + trim_ws(b.text) + seq!['\n'],
        ElementType::Dialogue => out + trim_ws(b.text) + seq!['\n'],
        ElementType::Transition => {
            with_break(out) + ensure_marker(b.text, '>', "> "@) + "\n\n"@
        },
    }
}

/// The kind of the last block, if any.
pub open spec fn last_kind(bs: Seq<Block>) -> Option<ElementType> {
    if bs.len() == 0 {
        None
    } else {
        Some(bs.last().kind)
    }
}

/// The markup of `bs`, each block rendered after the output of the ones before it.
pub open spec fn render_blocks(header: Seq<char>, bs: Seq<Block>) -> Seq<char>
    decreases bs.len(),
{
    if bs.len() == 0 {
        header
    } else {
        render_block(render_blocks(header, bs.drop_last()), last_kind(bs.drop_last()), bs.last())
    }
}

/// The Fountain document for an optional title page and a sequence of blocks.
pub open spec fn fountain_of(tp: Option<TitleView>, bs: Seq<Block>) -> Seq<char> {
    render_blocks(title_header(tp), bs)
}


/// The view of an optional title page.
pub open spec fn title_view(tp: Option<&TitlePageInfo>) -> Option<TitleView> {
    match tp {
        Some(t) => Some(t@),
        None => None,
    }
}

fn push_field(out: &mut Vec<char>, label: &str, value: &Option<String>)
    ensures
        final(out)@ == old(out)@ + field_line(label@, value.deep_view()),
{
    match value {
        Some(v) => {
            push_str(out, label);
            let t = trim_spaces(&chars_of(v.as_str()));
            push_all(out, &t);
            out.push('\n');
        },
        None => {
            assert(old(out)@ + field_line(label@, value.deep_view()) =~= old(out)@);
        },
    }
}

fn ends_with_blank_line(out: &Vec<char>) -> (r: bool)
    ensures
        r == has_suffix(out@, "\n\n"@),
{
    let nl = chars_of("\n\n");
    ends_with(out, &nl)
}

fn push_break(out: &mut Vec<char>)
    ensures
        final(out)@ == with_break(old(out)@),
{
    if out.len() > 0 && !ends_with_blank_line(out) {
        out.push('\n');
    }
}

fn without_marker(t: &[char], marker: char) -> (r: Vec<char>)
    ensures
        r@ == strip_marker(t@, marker),
{
    let h = trim_spaces(t);
    if h.len() > 0 && h[0] == marker {
        let rest = crate::text::slice_to_vec(&h, 1, h.len());
        assert(rest@ =~= h@.drop_first());
        trim_spaces(&rest)
    } else {
        h
    }
}

fn push_with_marker(out: &mut Vec<char>, t: &[char], marker: char, prefix: &str)
    ensures
        final(out)@ == old(out)@ + ensure_marker(t@, marker, prefix@),
{
    let a = trim_spaces(t);
    if a.len() > 0 && a[0] == marker {
        push_all(out, &a);
    } else {
        push_str(out, prefix);
        push_all(out, &a);
    }
}

fn render_one(out: &mut Vec<char>, prev: Option<ElementType>, b: &ScriptBlock)
    ensures
        final(out)@ == render_block(old(out)@, prev, b@),
{
    let text = chars_of(b.text.as_str());
    match b.element_type {
        ElementType::SceneHeading => {
            push_break(out);
            out.push('.');
            let up = to_uppercase(&without_marker(&text, '.'));
            push_all(out, &up);
            match &b.scene_number {
                Some(n) => {
                    push_str(out, " #");
                    push_all(out, &chars_of(n.as_str()));
                    out.push('#');
                },
                None => {},
            }
            push_str(out, "\n\n");
            assert(out@ =~= render_block(old(out)@, prev, b@));
        },
        ElementType::Action => {
            let dialogue_before = match prev {
                Some(ElementType::Character) | Some(ElementType::Parenthetical) | Some(
                    ElementType::Dialogue,
                ) => true,
                _ => false,
            };
            if dialogue_before && !ends_with_blank_line(out) {
                out.push('\n');
            }
            push_with_marker(out, &text, '!', "!");
            push_str(out, "\n\n");
            proof { reveal_strlit("!"); }
            assert(out@ =~= render_block(old(out)@, prev, b@));
        },
        ElementType::Character => {
            push_break(out);
            out.push('@');
            let up = to_uppercase(&without_marker(&text, '@'));
            push_all(out, &up);
            out.push('\n');
            assert(out@ =~= render_block(old(out)@, prev, b@));
        },
        ElementType::Parenthetical | ElementType::Dialogue => {
            push_all(out, &trim_spaces(&text));
            out.push('\n');
            assert(out@ =~= render_block(old(out)@, prev, b@));
        },
        ElementType::Transition => {
            push_break(out);
            push_with_marker(out, &text, '>', "> ");
            push_str(out, "\n\n");
            assert(out@ =~= render_block(old(out)@, prev, b@));
        },
    }
}

/// Renders an optional title page and the screenplay blocks as Fountain markup.
pub fn format_fountain(title_page: Option<&TitlePageInfo>, blocks: &[ScriptBlock]) -> (r: String)
    ensures
        r@ == fountain_of(title_view(title_page), block_views(blocks@)),
{
    let mut out: Vec<char> = Vec::new();
    match title_page {
        Some(tp) => {
            push_field(&mut out, "Title: ", &tp.title);
            push_field(&mut out, "Credit: ", &tp.credit);
            push_field(&mut out, "Author: ", &tp.author);
            if out.len() > 0 {
                out.push('\n');
            }
        },
        None => {},
    }
    let ghost header = out@;
    assert(header == title_header(title_view(title_page)));
    let ghost bv = block_views(blocks@);
    let mut prev: Option<ElementType> = None;
    let mut i: usize = 0;
    while i < blocks.len()
        invariant
            0 <= i <= blocks.len(),
            bv == block_views(blocks@),
            bv.len() == blocks@.len(),
            out@ == render_blocks(header, bv.take(i as int)),
            prev == last_kind(bv.take(i as int)),
        decreases blocks.len() - i,
    {
        render_one(&mut out, prev, &blocks[i]);
        prev = Some(blocks[i].element_type);
        i = i + 1;
        assert(bv.take(i as int).drop_last() =~= bv.take(i - 1));
    }
    assert(bv.take(blocks@.len() as int) =~= bv);
    string_from(&out)
}


/// Rendering a block only appends to the output written before it.
pub proof fn lemma_render_block_appends(out: Seq<char>, prev: Option<ElementType>, b: Block)
    ensures
        render_block(out, prev, b).len() > out.len(),
        render_block(out, prev, b).take(out.len() as int) == out,
{
    reveal_strlit("\n\n");
    let r = render_block(out, prev, b);
    let wb = with_break(out);
    assert(wb.take(out.len() as int) =~= out);
    assert(out.push('\n').take(out.len() as int) =~= out);
    assert(r.take(out.len() as int) =~= out);
}

/// Law: rendering is incremental — the document of some blocks is a prefix of the
/// document of those blocks followed by one more, and is strictly shorter.
pub proof fn lemma_fountain_prefix(tp: Option<TitleView>, bs: Seq<Block>, b: Block)
    ensures
        fountain_of(tp, bs.push(b)).len() > fountain_of(tp, bs).len(),
        fountain_of(tp, bs.push(b)).take(fountain_of(tp, bs).len() as int) == fountain_of(tp, bs),
{
    assert(bs.push(b).drop_last() =~= bs);
    lemma_render_block_appends(fountain_of(tp, bs), last_kind(bs), b);
}

proof fn lemma_render_blocks_len(header: Seq<char>, bs: Seq<Block>)
    ensures
        render_blocks(header, bs).len() >= header.len() + bs.len(),
    decreases bs.len(),
{
    if bs.len() > 0 {
        lemma_render_blocks_len(header, bs.drop_last());
        lemma_render_block_appends(
            render_blocks(header, bs.drop_last()),
            last_kind(bs.drop_last()),
            bs.last(),
        );
    }
}

/// The title page gives no field.
pub open spec fn no_title_fields(tp: Option<TitleView>) -> bool {
    match tp {
        Some(t) => t.title is None && t.author is None && t.credit is None,
        None => true,
    }
}

/// Law: the document is empty exactly when there are no blocks and the title page, if
/// any, has no field.
pub proof fn lemma_fountain_empty(tp: Option<TitleView>, bs: Seq<Block>)
    ensures
        fountain_of(tp, bs).len() == 0 <==> (bs.len() == 0 && no_title_fields(tp)),
{
    lemma_render_blocks_len(title_header(tp), bs);
    match tp {
        Some(t) => {
            let a = field_line("Title: "@, t.title);
            let b = field_line("Credit: "@, t.credit);
            let c = field_line("Author: "@, t.author);
            assert((a + b + c).len() == a.len() + b.len() + c.len());
            if t.title is Some {
                assert(a.len() > 0);
            }
            if t.credit is Some {
                assert(b.len() > 0);
            }
            if t.author is Some {
                assert(c.len() > 0);
            }
        },
        None => {},
    }
}


/// A block that renders to at least two characters: any block but a parenthetical or a
/// dialogue line whose text is only white space.
pub open spec fn renders_visibly(b: Block) -> bool {
    (b.kind == ElementType::Parenthetical || b.kind == ElementType::Dialogue) ==> trim_ws(
        b.text,
    ).len() > 0
}

proof fn lemma_suffix_shift(h: Seq<char>, out: Seq<char>)
    requires
        out.len() >= 2,
    ensures
        has_suffix(h + out, "\n\n"@) == has_suffix(out, "\n\n"@),
{
    reveal_strlit("\n\n");
    let r = h + out;
    assert(r.skip(r.len() - 2) =~= out.skip(out.len() - 2));
}

proof fn lemma_render_block_shift(h: Seq<char>, out: Seq<char>, prev: Option<ElementType>, b: Block)
    requires
        has_suffix(h, "\n\n"@),
        out.len() == 0 ==> !is_dialogue_component(prev),
        out.len() == 0 || out.len() >= 2,
    ensures
        render_block(h + out, prev, b) == h + render_block(out, prev, b),
{
    reveal_strlit("\n\n");
    if out.len() == 0 {
        assert(h + out =~= h);
        assert(h.len() >= 2);
    } else {
        lemma_suffix_shift(h, out);
    }
    assert(with_break(h + out) =~= h + with_break(out));
    assert((h + out).push('\n') =~= h + out.push('\n'));
    let r1 = render_block(h + out, prev, b);
    let r2 = h + render_block(out, prev, b);
    assert(r1 =~= r2);
}

proof fn lemma_render_blocks_shift(h: Seq<char>, bs: Seq<Block>)
    requires
        has_suffix(h, "\n\n"@),
        forall|i: int| 0 <= i < bs.len() ==> renders_visibly(#[trigger] bs[i]),
    ensures
        render_blocks(h, bs) == h + render_blocks(Seq::empty(), bs),
        bs.len() > 0 ==> render_blocks(Seq::empty(), bs).len() >= 2,
    decreases bs.len(),
{
    reveal_strlit("\n\n");
    if bs.len() == 0 {
        assert(h + Seq::<char>::empty() =~= h);
    } else {
        let pre = bs.drop_last();
        assert forall|i: int| 0 <= i < pre.len() implies renders_visibly(#[trigger] pre[i]) by {
            assert(pre[i] == bs[i]);
        }
        lemma_render_blocks_shift(h, pre);
        let out = render_blocks(Seq::empty(), pre);
        lemma_render_block_shift(h, out, last_kind(pre), bs.last());
        assert(renders_visibly(bs[bs.len() - 1]));
        lemma_render_block_appends(out, last_kind(pre), bs.last());
        let r = render_block(out, last_kind(pre), bs.last());
        assert(r.len() >= 2) by {
            assert(r.take(out.len() as int) == out);
            assert(with_break(out).len() >= out.len());
        }
    }
}

/// Law: a title page with some field only puts its header before the blocks, which render
/// as they do without it (when no parenthetical or dialogue line is blank).
pub proof fn lemma_title_header_prefix(t: TitleView, bs: Seq<Block>)
    requires
        !no_title_fields(Some(t)),
        forall|i: int| 0 <= i < bs.len() ==> renders_visibly(#[trigger] bs[i]),
    ensures
        fountain_of(Some(t), bs) == fountain_of(Some(t), Seq::empty()) + fountain_of(None, bs),
{
    reveal_strlit("\n\n");
    let a = field_line("Title: "@, t.title);
    let b = field_line("Credit: "@, t.credit);
    let c = field_line("Author: "@, t.author);
    let lines = a + b + c;
    assert(lines.len() > 0 && lines.last() == '\n') by {
        if t.author is Some {
            assert(lines.last() == c.last());
        } else if t.credit is Some {
            assert(c =~= Seq::<char>::empty());
            assert(lines =~= a + b);
            assert(lines.last() == b.last());
        } else {
            assert(c =~= Seq::<char>::empty());
            assert(b =~= Seq::<char>::empty());
            assert(lines =~= a);
        }
    }
    let h = title_header(Some(t));
    assert(h =~= lines.push('\n'));
    assert(h.skip(h.len() - 2) =~= "\n\n"@);
    lemma_render_blocks_shift(h, bs);
}


/// A non-empty document ends with a newline.
proof fn lemma_fountain_ends_newline(tp: Option<TitleView>, bs: Seq<Block>)
    ensures
        fountain_of(tp, bs).len() > 0 ==> fountain_of(tp, bs).last() == '\n',
    decreases bs.len(),
{
    reveal_strlit("\n\n");
    if bs.len() > 0 {
        lemma_fountain_ends_newline(tp, bs.drop_last());
        assert(bs.drop_last().push(bs.last()) =~= bs);
    } else {
        match tp {
            Some(t) => {
                let lines = field_line("Title: "@, t.title) + field_line("Credit: "@, t.credit)
                    + field_line("Author: "@, t.author);
                if lines.len() > 0 {
                    assert(lines.push('\n').last() == '\n');
                }
            },
            None => {},
        }
    }
}

/// Law: every character cue after the start of the document follows a blank line: the
/// output written before the `@NAME` line extends the document of the blocks before it and
/// ends in two newlines.
pub proof fn lemma_cue_after_blank_line(tp: Option<TitleView>, bs: Seq<Block>, b: Block)
    requires
        b.kind == ElementType::Character,
        fountain_of(tp, bs).len() > 0,
    ensures
        ({
            let d = fountain_of(tp, bs);
            let e = fountain_of(tp, bs.push(b));
            let cue = seq!['@'] + uppercase_of(strip_marker(b.text, '@')) + seq!['\n'];
            let w = e.take(e.len() - cue.len());
            &&& e == w + cue
            &&& has_prefix(w, d)
            &&& has_suffix(w, "\n\n"@)
        }),
{
    reveal_strlit("\n\n");
    let d = fountain_of(tp, bs);
    lemma_fountain_ends_newline(tp, bs);
    assert(bs.push(b).drop_last() =~= bs);
    let e = fountain_of(tp, bs.push(b));
    let cue = seq!['@'] + uppercase_of(strip_marker(b.text, '@')) + seq!['\n'];
    let wb = with_break(d);
    assert(e == wb + cue);
    assert(e.take(e.len() - cue.len()) =~= wb);
    assert(wb.take(d.len() as int) =~= d);
    if needs_break(d) {
        assert(wb.skip(wb.len() - 2) =~= "\n\n"@);
    }
}

} // verus!
