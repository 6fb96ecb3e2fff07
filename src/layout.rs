//! Packing words into lines and justifying each line to a fixed width.
use vstd::prelude::*;
use crate::tokens::{
    byte_len, lemma_byte_len_add, lemma_byte_len_at_least_len, lemma_byte_len_spaces, spaces, words,
};
use vstd::arithmetic::div_mod::{lemma_fundamental_div_mod, lemma_mod_pos_bound};

verus! {

/// The length in bytes of a line set with one space between adjacent words.
pub open spec fn min_len(line: Seq<Seq<char>>) -> int
    decreases line.len(),
{
    if line.len() == 0 {
        0
    } else if line.len() == 1 {
        byte_len(line[0])
    } else {
        min_len(line.drop_last()) + 1 + byte_len(line.last())
    }
}

/// Greedy packing: each word joins the last line while that line, set with
/// single spaces, stays within `width`; otherwise it opens a new line.
pub open spec fn pack(ws: Seq<Seq<char>>, width: int) -> Seq<Seq<Seq<char>>>
    decreases ws.len(),
{
    if ws.len() == 0 {
        Seq::empty()
    } else {
        let p = pack(ws.drop_last(), width);
        let w = ws.last();
        if p.len() == 0 {
            seq![seq![w]]
        } else if min_len(p.last()) + 1 + byte_len(w) <= width {
            p.update(p.len() - 1, p.last().push(w))
        } else {
            p.push(seq![w])
        }
    }
}

/// Extra padding of a line beyond single spaces.
pub open spec fn free_space(line: Seq<Seq<char>>, width: int) -> int {
    width - min_len(line)
}

/// Padding that every gap of the line receives.
pub open spec fn base_gap(line: Seq<Seq<char>>, width: int) -> int {
    let seps = line.len() - 1;
    if seps <= 0 {
        0
    } else {
        free_space(line, width) / seps
    }
}

/// Padding left over after every gap received `base_gap`.
pub open spec fn leftover(line: Seq<Seq<char>>, width: int) -> int {
    free_space(line, width) - (line.len() - 1) * base_gap(line, width)
}

/// Width of the gap after the word at `i`: one space, the base padding, and
/// one more for each of the leftmost `leftover` gaps.
pub open spec fn gap(line: Seq<Seq<char>>, width: int, i: int) -> nat {
    (1 + base_gap(line, width) + if i < leftover(line, width) {
        1int
    } else {
        0
    }) as nat
}

/// The first `k` words of the line with their gaps.
pub open spec fn render_prefix(line: Seq<Seq<char>>, width: int, k: int) -> Seq<char>
    decreases k,
{
    if k <= 0 {
        Seq::empty()
    } else if k == 1 {
        line[0]
    } else {
        render_prefix(line, width, k - 1) + spaces(gap(line, width, k - 2)) + line[k - 1]
    }
}

/// Padding after the last word: all of the free space on a one-word line.
pub open spec fn trailing(line: Seq<Seq<char>>, width: int) -> nat {
    if line.len() <= 1 {
        free_space(line, width) as nat
    } else {
        0
    }
}

/// A line justified to `width`.
pub open spec fn render_line(line: Seq<Seq<char>>, width: int) -> Seq<char> {
    render_prefix(line, width, line.len() as int) + spaces(trailing(line, width))
}

/// Each line justified to `width`.
pub open spec fn render_all(ls: Seq<Seq<Seq<char>>>, width: int) -> Seq<Seq<char>> {
    Seq::new(ls.len(), |i: int| render_line(ls[i], width))
}

/// The lines with a line break between adjacent ones.
pub open spec fn join_lines(rs: Seq<Seq<char>>) -> Seq<char>
    decreases rs.len(),
{
    if rs.len() == 0 {
        Seq::empty()
    } else if rs.len() == 1 {
        rs[0]
    } else {
        join_lines(rs.drop_last()) + seq!['\n'] + rs.last()
    }
}

/// The justified lines of the text `s` at `width`.
pub open spec fn justified_lines(s: Seq<char>, width: int) -> Seq<Seq<char>> {
    render_all(pack(words(s), width), width)
}

/// The text `s` wrapped and justified at `width`.
pub open spec fn wrap(s: Seq<char>, width: int) -> Seq<char> {
    join_lines(justified_lines(s, width))
}

/// The first word longer than `width` bytes, if any.
pub open spec fn first_long_word(ws: Seq<Seq<char>>, width: int) -> Option<Seq<char>>
    decreases ws.len(),
{
    if ws.len() == 0 {
        None
    } else {
        match first_long_word(ws.drop_last(), width) {
            Some(w) => Some(w),
            None => if byte_len(ws.last()) > width {
                Some(ws.last())
            } else {
                None
            },
        }
    }
}

/// Every word is non-empty and at most `width` bytes long.
pub open spec fn fitting(ws: Seq<Seq<char>>, width: int) -> bool {
    forall|i: int| 0 <= i < ws.len() ==> 0 < #[trigger] ws[i].len() && byte_len(ws[i]) <= width
}

pub proof fn lemma_first_long_word_none(ws: Seq<Seq<char>>, width: int)
    ensures
        first_long_word(ws, width) is None <==> forall|i: int|
            0 <= i < ws.len() ==> byte_len(#[trigger] ws[i]) <= width,
    decreases ws.len(),
{
    if ws.len() > 0 {
        let t = ws.drop_last();
        lemma_first_long_word_none(t, width);
        if first_long_word(ws, width) is None {
            assert forall|i: int| 0 <= i < ws.len() implies byte_len(#[trigger] ws[i]) <= width by {
                if i < t.len() {
                    assert(ws[i] == t[i]);
                }
            }
        }
        if forall|i: int| 0 <= i < ws.len() ==> byte_len(#[trigger] ws[i]) <= width {
            assert forall|i: int| 0 <= i < t.len() implies byte_len(#[trigger] t[i]) <= width by {
                assert(ws[i] == t[i]);
            }
            assert(byte_len(ws[ws.len() - 1]) <= width);
        }
    }
}

/// Words after the first long word do not change which one is first.
pub proof fn lemma_first_long_word_add(a: Seq<Seq<char>>, b: Seq<Seq<char>>, width: int)
    requires
        first_long_word(a, width) is Some,
    ensures
        first_long_word(a + b, width) == first_long_word(a, width),
    decreases b.len(),
{
    if b.len() == 0 {
        assert(a + b =~= a);
    } else {
        lemma_first_long_word_add(a, b.drop_last(), width);
        assert((a + b).drop_last() =~= a + b.drop_last());
    }
}

/// The single-space length of a line is at least its last word's length, and
/// grows with each word.
pub proof fn lemma_min_len_bounds(line: Seq<Seq<char>>)
    requires
        line.len() >= 1,
    ensures
        min_len(line) >= byte_len(line.last()),
        min_len(line) >= line.len() - 1,
    decreases line.len(),
{
    lemma_byte_len_at_least_len(line.last());
    if line.len() > 1 {
        lemma_min_len_bounds(line.drop_last());
    }
}

/// Every packed line holds at least one word and fits within `width`.
pub proof fn lemma_pack_shape(ws: Seq<Seq<char>>, width: int)
    requires
        fitting(ws, width),
    ensures
        pack(ws, width).len() == 0 <==> ws.len() == 0,
        forall|i: int|
            0 <= i < pack(ws, width).len() ==> (#[trigger] pack(ws, width)[i]).len() >= 1
                && 0 < min_len(pack(ws, width)[i]) <= width,
    decreases ws.len(),
{
    if ws.len() > 0 {
        let t = ws.drop_last();
        assert(fitting(t, width)) by {
            assert forall|i: int| 0 <= i < t.len() implies 0 < #[trigger] t[i].len() && byte_len(
                t[i],
            ) <= width by {
                assert(t[i] == ws[i]);
            }
        }
        lemma_pack_shape(t, width);
        let p = pack(t, width);
        let w = ws.last();
        assert(0 < w.len() && byte_len(w) <= width) by {
            assert(ws[ws.len() - 1] == w);
        }
        lemma_byte_len_at_least_len(w);
        let q = pack(ws, width);
        if p.len() == 0 {
            assert(min_len(seq![w]) == byte_len(w));
        } else if min_len(p.last()) + 1 + byte_len(w) <= width {
            assert forall|i: int| 0 <= i < q.len() implies (#[trigger] q[i]).len() >= 1
                && 0 < min_len(q[i]) <= width by {
                if i < p.len() - 1 {
                    assert(q[i] == p[i]);
                } else {
                    let l = p.last().push(w);
                    assert(l.drop_last() =~= p.last());
                    assert(p[p.len() - 1] == p.last());
                }
            }
        } else {
            assert forall|i: int| 0 <= i < q.len() implies (#[trigger] q[i]).len() >= 1
                && 0 < min_len(q[i]) <= width by {
                if i < p.len() {
                    assert(q[i] == p[i]);
                } else {
                    assert(min_len(seq![w]) == byte_len(w));
                }
            }
        }
    }
}

/// How the free space splits: every gap gets the base padding and fewer
/// than one gap's worth is left over; a one-word line keeps it all.
pub proof fn lemma_leftover_bounds(line: Seq<Seq<char>>, width: int)
    requires
        line.len() >= 1,
        free_space(line, width) >= 0,
    ensures
        0 <= base_gap(line, width) <= free_space(line, width),
        0 <= leftover(line, width),
        line.len() > 1 ==> leftover(line, width) < line.len() - 1,
        line.len() == 1 ==> leftover(line, width) == free_space(line, width),
        leftover(line, width) > 0 ==> base_gap(line, width) < free_space(line, width),
{
    let free = free_space(line, width);
    let seps = line.len() - 1;
    if seps > 0 {
        lemma_fundamental_div_mod(free, seps);
        lemma_mod_pos_bound(free, seps);
        let b = free / seps;
        assert(b >= 0) by (nonlinear_arith)
            requires
                free >= 0,
                seps > 0,
                b == free / seps,
        ;
        assert(seps * b >= b) by (nonlinear_arith)
            requires
                seps >= 1,
                b >= 0,
        ;
        assert(leftover(line, width) == free % seps);
    }
}

/// The single-space length of the first `k` words.
proof fn lemma_min_len_prefix(line: Seq<Seq<char>>, k: int)
    requires
        2 <= k <= line.len(),
    ensures
        min_len(line.subrange(0, k)) == min_len(line.subrange(0, k - 1)) + 1 + byte_len(line[k - 1]),
{
    assert(line.subrange(0, k).drop_last() =~= line.subrange(0, k - 1));
}

proof fn lemma_render_prefix_len(line: Seq<Seq<char>>, width: int, k: int)
    requires
        1 <= k <= line.len(),
        base_gap(line, width) >= 0,
        leftover(line, width) >= 0,
    ensures
        byte_len(render_prefix(line, width, k)) == min_len(line.subrange(0, k)) + (k - 1)
            * base_gap(line, width) + if k - 1 < leftover(line, width) {
            k - 1
        } else {
            leftover(line, width)
        },
    decreases k,
{
    let b = base_gap(line, width);
    if k == 1 {
        assert(line.subrange(0, 1) =~= seq![line[0]]);
    } else {
        lemma_render_prefix_len(line, width, k - 1);
        lemma_min_len_prefix(line, k);
        let r = render_prefix(line, width, k - 1);
        let g = gap(line, width, k - 2);
        lemma_byte_len_add(r + spaces(g), line[k - 1]);
        lemma_byte_len_add(r, spaces(g));
        lemma_byte_len_spaces(g);
        assert((k - 1) * b == (k - 2) * b + b) by (nonlinear_arith);
    }
}

/// A justified line is exactly `width` bytes long.
pub proof fn lemma_render_line_len(line: Seq<Seq<char>>, width: int)
    requires
        line.len() >= 1,
        min_len(line) <= width,
    ensures
        byte_len(render_line(line, width)) == width,
        width > 0 ==> render_line(line, width).len() > 0,
{
    lemma_leftover_bounds(line, width);
    lemma_render_prefix_len(line, width, line.len() as int);
    assert(line.subrange(0, line.len() as int) =~= line);
    let r = render_prefix(line, width, line.len() as int);
    lemma_byte_len_add(r, spaces(trailing(line, width)));
    lemma_byte_len_spaces(trailing(line, width));
}

} // verus!
