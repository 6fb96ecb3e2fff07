//! Properties of wrapping that relate several texts or calls.
use vstd::prelude::*;
use crate::layout::{
    base_gap, first_long_word, fitting, gap, lemma_leftover_bounds, join_lines, justified_lines, lemma_first_long_word_none,
    lemma_pack_shape, lemma_render_line_len, min_len, pack, render_all, render_line,
    render_prefix, trailing, wrap,
};
use crate::tokens::{
    byte_len, lacks, lemma_words_after_space, lemma_words_of_run, lemma_words_of_spaces, lemma_words_shape,
    spaces, words,
};

verus! {

/// `t` with every line break read as a space.
pub open spec fn breaks_as_spaces(t: Seq<char>) -> Seq<char> {
    t.map_values(|c: char| if c == '\n' { ' ' } else { c })
}

/// The words of a text whose lines are separated by line breaks.
pub open spec fn text_words(t: Seq<char>) -> Seq<Seq<char>> {
    words(breaks_as_spaces(t))
}

/// The words with one space between adjacent ones.
pub open spec fn join_words(ws: Seq<Seq<char>>) -> Seq<char>
    decreases ws.len(),
{
    if ws.len() == 0 {
        Seq::empty()
    } else if ws.len() == 1 {
        ws[0]
    } else {
        join_words(ws.drop_last()).push(' ') + ws.last()
    }
}

/// A text reduced to its words with single spaces between them.
pub open spec fn collapse(t: Seq<char>) -> Seq<char> {
    join_words(text_words(t))
}

/// The lines' words, one line after another.
pub open spec fn flat(ls: Seq<Seq<Seq<char>>>) -> Seq<Seq<char>>
    decreases ls.len(),
{
    if ls.len() == 0 {
        Seq::empty()
    } else {
        flat(ls.drop_last()) + ls.last()
    }
}

/// Each word is non-empty and holds neither a space nor a line break.
pub open spec fn plain_words(ws: Seq<Seq<char>>) -> bool {
    forall|i: int|
        0 <= i < ws.len() ==> #[trigger] ws[i].len() > 0 && lacks(ws[i], ' ') && lacks(ws[i], '\n')
}

proof fn lemma_flat_pack(ws: Seq<Seq<char>>, width: int)
    ensures
        flat(pack(ws, width)) == ws,
    decreases ws.len(),
{
    if ws.len() > 0 {
        let t = ws.drop_last();
        lemma_flat_pack(t, width);
        let p = pack(t, width);
        let w = ws.last();
        if p.len() == 0 {
            assert(seq![seq![w]].drop_last() =~= Seq::<Seq<Seq<char>>>::empty());
            assert(t =~= Seq::<Seq<char>>::empty());
            assert(ws =~= seq![w]);
            assert(Seq::<Seq<char>>::empty() + seq![w] =~= seq![w]);
        } else if min_len(p.last()) + 1 + byte_len(w) <= width {
            let q = p.update(p.len() - 1, p.last().push(w));
            assert(q.drop_last() =~= p.drop_last());
            assert(flat(p) == flat(p.drop_last()) + p.last());
            assert(ws =~= t.push(w));
            assert(ws =~= flat(p.drop_last()) + p.last().push(w));
        } else {
            assert(p.push(seq![w]).drop_last() =~= p);
            assert(ws =~= flat(p) + seq![w]);
        }
    }
}

proof fn lemma_words_trailing_spaces(r: Seq<char>, m: nat)
    ensures
        words(r + spaces(m)) == words(r),
{
    if m > 0 {
        lemma_words_after_space(r, spaces((m - 1) as nat));
        assert(r + spaces(m) =~= r.push(' ') + spaces((m - 1) as nat));
        lemma_words_of_spaces((m - 1) as nat);
        assert(words(r) + Seq::<Seq<char>>::empty() =~= words(r));
    } else {
        assert(r + spaces(m) =~= r);
    }
}

proof fn lemma_render_prefix_words(line: Seq<Seq<char>>, width: int, k: int)
    requires
        1 <= k <= line.len(),
        plain_words(line),
        base_gap(line, width) >= 0,
    ensures
        words(render_prefix(line, width, k)) == line.subrange(0, k),
        lacks(render_prefix(line, width, k), '\n'),
    decreases k,
{
    if k == 1 {
        lemma_words_of_run(line[0]);
        assert(line.subrange(0, 1) =~= seq![line[0]]);
    } else {
        lemma_render_prefix_words(line, width, k - 1);
        let r = render_prefix(line, width, k - 1);
        let g = gap(line, width, k - 2);
        let x = line[k - 1];
        lemma_words_of_run(x);
        if g >= 1 {
            lemma_words_trailing_spaces(r, (g - 1) as nat);
            lemma_words_after_space(r + spaces((g - 1) as nat), x);
            assert(r + spaces(g) + x =~= (r + spaces((g - 1) as nat)).push(' ') + x);
        }
        assert(line.subrange(0, k) =~= line.subrange(0, k - 1) + seq![x]);
        let full = r + spaces(g) + x;
        assert forall|j: int| 0 <= j < full.len() implies full[j] != '\n' by {
            if j >= r.len() + g {
                assert(full[j] == x[j - r.len() - g]);
            } else if j < r.len() {
                assert(full[j] == r[j]);
            }
        }
    }
}

/// A justified line holds exactly the line's words, and no line break.
proof fn lemma_render_line_words(line: Seq<Seq<char>>, width: int)
    requires
        line.len() >= 1,
        plain_words(line),
        min_len(line) <= width,
    ensures
        words(render_line(line, width)) == line,
        lacks(render_line(line, width), '\n'),
{
    lemma_leftover_bounds(line, width);
    lemma_render_prefix_words(line, width, line.len() as int);
    let r = render_prefix(line, width, line.len() as int);
    lemma_words_trailing_spaces(r, trailing(line, width));
    assert(line.subrange(0, line.len() as int) =~= line);
    let full = render_line(line, width);
    assert forall|j: int| 0 <= j < full.len() implies full[j] != '\n' by {
        if j < r.len() {
            assert(full[j] == r[j]);
        }
    }
}

proof fn lemma_no_break_unchanged(t: Seq<char>)
    requires
        lacks(t, '\n'),
    ensures
        breaks_as_spaces(t) == t,
{
    assert(breaks_as_spaces(t) =~= t);
}

proof fn lemma_words_of_joined(ls: Seq<Seq<Seq<char>>>, width: int)
    requires
        forall|i: int|
            0 <= i < ls.len() ==> (#[trigger] ls[i]).len() >= 1 && plain_words(ls[i]) && min_len(
                ls[i],
            ) <= width,
    ensures
        text_words(join_lines(render_all(ls, width))) == flat(ls),
    decreases ls.len(),
{
    let rs = render_all(ls, width);
    if ls.len() == 0 {
        assert(rs =~= Seq::<Seq<char>>::empty());
        lemma_words_of_run(Seq::<char>::empty());
        assert(breaks_as_spaces(Seq::<char>::empty()) =~= Seq::<char>::empty());
    } else {
        let t = ls.drop_last();
        let x = render_line(ls.last(), width);
        assert(ls[ls.len() - 1] == ls.last());
        lemma_render_line_words(ls.last(), width);
        lemma_no_break_unchanged(x);
        assert(rs.drop_last() =~= render_all(t, width));
        assert(rs.last() == x);
        if ls.len() == 1 {
            assert(t =~= Seq::<Seq<Seq<char>>>::empty());
            assert(flat(t) == Seq::<Seq<char>>::empty());
            assert(flat(ls) =~= Seq::<Seq<char>>::empty() + ls.last());
            assert(flat(ls) =~= ls.last());
        } else {
            lemma_words_of_joined(t, width);
            let j = join_lines(render_all(t, width));
            assert(breaks_as_spaces(j + seq!['\n'] + x) =~= breaks_as_spaces(j).push(' ') + x);
            lemma_words_after_space(breaks_as_spaces(j), x);
        }
    }
}

proof fn lemma_words_of_join_words(ws: Seq<Seq<char>>)
    requires
        forall|i: int| 0 <= i < ws.len() ==> #[trigger] ws[i].len() > 0 && lacks(ws[i], ' '),
    ensures
        words(join_words(ws)) == ws,
    decreases ws.len(),
{
    if ws.len() == 0 {
        lemma_words_of_run(Seq::<char>::empty());
    } else if ws.len() == 1 {
        lemma_words_of_run(ws[0]);
        assert(ws =~= seq![ws[0]]);
    } else {
        let t = ws.drop_last();
        assert forall|i: int| 0 <= i < t.len() implies #[trigger] t[i].len() > 0 && lacks(
            t[i],
            ' ',
        ) by {
            assert(t[i] == ws[i]);
        }
        lemma_words_of_join_words(t);
        assert(ws[ws.len() - 1] == ws.last());
        lemma_words_of_run(ws.last());
        lemma_words_after_space(join_words(t), ws.last());
        assert(ws =~= t + seq![ws.last()]);
    }
}

/// The packed lines of a text without line breaks, whose words all fit.
proof fn lemma_packed_plain(s: Seq<char>, width: int)
    requires
        lacks(s, '\n'),
        first_long_word(words(s), width) is None,
    ensures
        fitting(words(s), width),
        forall|i: int|
            0 <= i < pack(words(s), width).len() ==> (#[trigger] pack(words(s), width)[i]).len()
                >= 1 && plain_words(pack(words(s), width)[i]) && 0 < min_len(
                pack(words(s), width)[i],
            ) <= width,
{
    let ws = words(s);
    lemma_words_shape(s, '\n');
    lemma_first_long_word_none(ws, width);
    lemma_pack_shape(ws, width);
    lemma_flat_members(pack(ws, width), width, ws);
}

proof fn lemma_flat_members(ls: Seq<Seq<Seq<char>>>, width: int, ws: Seq<Seq<char>>)
    requires
        flat(ls) == ws || ls == pack(ws, width),
        plain_words(ws),
    ensures
        forall|i: int| 0 <= i < ls.len() ==> plain_words(#[trigger] ls[i]),
    decreases ls.len(),
{
    lemma_flat_pack(ws, width);
    if ls.len() > 0 {
        let t = ls.drop_last();
        assert(flat(ls) == flat(t) + ls.last());
        assert(plain_words(flat(t))) by {
            assert forall|i: int| 0 <= i < flat(t).len() implies #[trigger] flat(t)[i].len() > 0
                && lacks(flat(t)[i], ' ') && lacks(flat(t)[i], '\n') by {
                assert(flat(ls)[i] == flat(t)[i]);
            }
        }
        lemma_flat_members(t, width, flat(t));
        assert forall|i: int| 0 <= i < ls.len() implies plain_words(#[trigger] ls[i]) by {
            if i < t.len() {
                assert(ls[i] == t[i]);
            } else {
                assert forall|j: int| 0 <= j < ls[i].len() implies #[trigger] ls[i][j].len() > 0
                    && lacks(ls[i][j], ' ') && lacks(ls[i][j], '\n') by {
                    assert(flat(ls)[flat(t).len() + j] == ls[i][j]);
                }
            }
        }
    }
}

/// Every line of the wrapped text is exactly `width` bytes long: the text is
/// its justified lines joined by line breaks, each of `width` bytes, and when
/// the input holds no line break, no line does either.
pub proof fn lemma_every_line_full_width(s: Seq<char>, width: int)
    requires
        first_long_word(words(s), width) is None,
    ensures
        wrap(s, width) == join_lines(justified_lines(s, width)),
        forall|i: int|
            0 <= i < justified_lines(s, width).len() ==> byte_len(
                #[trigger] justified_lines(s, width)[i],
            ) == width,
        lacks(s, '\n') ==> forall|i: int|
            0 <= i < justified_lines(s, width).len() ==> lacks(
                #[trigger] justified_lines(s, width)[i],
                '\n',
            ),
{
    let ws = words(s);
    lemma_words_shape(s, ' ');
    lemma_first_long_word_none(ws, width);
    lemma_pack_shape(ws, width);
    let p = pack(ws, width);
    assert forall|i: int| 0 <= i < justified_lines(s, width).len() implies byte_len(
        #[trigger] justified_lines(s, width)[i],
    ) == width by {
        lemma_render_line_len(p[i], width);
    }
    if lacks(s, '\n') {
        lemma_packed_plain(s, width);
        assert forall|i: int| 0 <= i < justified_lines(s, width).len() implies lacks(
            #[trigger] justified_lines(s, width)[i],
            '\n',
        ) by {
            lemma_render_line_words(p[i], width);
        }
    }
}

/// Reading the words back from the wrapped text, with line breaks taken as
/// separators, gives the input's words in their order: wrapping only changes
/// the spacing.
pub proof fn lemma_words_kept(s: Seq<char>, width: int)
    requires
        lacks(s, '\n'),
        first_long_word(words(s), width) is None,
    ensures
        text_words(wrap(s, width)) == words(s),
        text_words(s) == words(s),
{
    lemma_packed_plain(s, width);
    lemma_words_of_joined(pack(words(s), width), width);
    lemma_flat_pack(words(s), width);
    lemma_no_break_unchanged(s);
}

/// Wrapping the wrapped text again, after its words are set back on one line
/// with single spaces, succeeds and gives the same text.
pub proof fn lemma_rewrap_collapsed(s: Seq<char>, width: int)
    requires
        lacks(s, '\n'),
        first_long_word(words(s), width) is None,
    ensures
        first_long_word(words(collapse(wrap(s, width))), width) is None,
        wrap(collapse(wrap(s, width)), width) == wrap(s, width),
{
    lemma_words_kept(s, width);
    lemma_words_shape(s, ' ');
    lemma_words_of_join_words(words(s));
}

/// A single word longer than `width` bytes is the word that wrapping rejects.
pub proof fn lemma_long_word_rejected(w: Seq<char>, width: int)
    requires
        lacks(w, ' '),
        byte_len(w) > width,
        w.len() > 0,
    ensures
        first_long_word(words(w), width) == Some(w),
{
    lemma_words_of_run(w);
    assert(seq![w].drop_last() =~= Seq::<Seq<char>>::empty());
    assert(first_long_word(Seq::<Seq<char>>::empty(), width) is None);
    assert(pack(Seq::<Seq<char>>::empty(), width) == Seq::<Seq<Seq<char>>>::empty());
}

/// A single word of exactly `width` bytes is wrapped to itself, with no
/// padding.
pub proof fn lemma_exact_word_unpadded(w: Seq<char>, width: int)
    requires
        lacks(w, ' '),
        byte_len(w) == width,
        w.len() > 0,
    ensures
        first_long_word(words(w), width) is None,
        wrap(w, width) == w,
{
    lemma_words_of_run(w);
    assert(seq![w].drop_last() =~= Seq::<Seq<char>>::empty());
    assert(first_long_word(Seq::<Seq<char>>::empty(), width) is None);
    assert(pack(Seq::<Seq<char>>::empty(), width) == Seq::<Seq<Seq<char>>>::empty());
    assert(pack(words(w), width) == seq![seq![w]]);
    assert(min_len(seq![w]) == byte_len(w));
    assert(render_line(seq![w], width) =~= w);
    assert(justified_lines(w, width) =~= seq![w]);
}

} // verus!
