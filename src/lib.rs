//! Justified text wrapping: text is split into words at spaces, the words are
//! packed greedily into lines, and every line is padded with spaces between
//! its words to exactly the line width.
use vstd::prelude::*;

pub mod tokens;
pub mod layout;
pub mod justify;
pub mod laws;

use crate::justify::{add_line_to_result, add_word, line_text, span_text, spans_ok};
use crate::layout::{
    first_long_word, fitting, join_lines, lemma_first_long_word_add, lemma_first_long_word_none,
    lemma_pack_shape, lemma_render_line_len, min_len, pack, render_all, render_line, wrap,
};
use crate::tokens::{
    byte_len, get_next_word, lemma_byte_len_at_least_len, lemma_words_of_run, lemma_words_step,
    to_chars, word_byte_len, words,
};

verus! {

/// A word longer than the line width: the word, then the width.
#[derive(Clone, Debug, PartialEq, Eq)]
pub struct WordTooLongError(pub String, pub usize);

/// The output so far for the words `ws`: the closed lines, justified and
/// joined, in `result`; the open line as spans of `chars`, with its
/// single-space length.
pub open spec fn packed_state(
    chars: Seq<char>,
    ws: Seq<Seq<char>>,
    width: int,
    result: Seq<char>,
    line: Seq<(usize, usize)>,
    line_min: int,
) -> bool {
    &&& spans_ok(chars, line)
    &&& if ws.len() == 0 {
        result.len() == 0 && line.len() == 0 && line_min == 0
    } else {
        let p = pack(ws, width);
        &&& result == join_lines(render_all(p.drop_last(), width))
        &&& line_text(chars, line) == p.last()
        &&& line_min == min_len(p.last())
    }
}

/// Joining one more line onto non-empty lines puts a line break before it.
proof fn lemma_join_push(rs: Seq<Seq<char>>, x: Seq<char>)
    requires
        rs.len() >= 1 ==> rs[0].len() >= 1,
    ensures
        join_lines(rs.push(x)) == join_lines(rs) + (if join_lines(rs).len() > 0 {
            seq!['\n']
        } else {
            Seq::<char>::empty()
        }) + x,
{
    assert(rs.push(x).drop_last() =~= rs);
    if rs.len() == 0 {
        assert(Seq::<char>::empty() + Seq::<char>::empty() + x =~= x);
    } else if rs.len() == 1 {
        assert(join_lines(rs) == rs[0]);
    }
}

/// Closing the last packed line: the justified lines of all of `p`.
proof fn lemma_close_last(p: Seq<Seq<Seq<char>>>, width: int)
    requires
        p.len() >= 1,
        forall|i: int|
            0 <= i < p.len() ==> (#[trigger] p[i]).len() >= 1 && 0 < min_len(p[i]) <= width,
    ensures
        ({
            let r = join_lines(render_all(p.drop_last(), width));
            join_lines(render_all(p, width)) == r + (if r.len() > 0 {
                seq!['\n']
            } else {
                Seq::<char>::empty()
            }) + render_line(p.last(), width)
        }),
{
    let rs = render_all(p.drop_last(), width);
    assert(render_all(p, width) =~= rs.push(render_line(p.last(), width)));
    if rs.len() >= 1 {
        lemma_render_line_len(p[0], width);
        assert(rs[0] == render_line(p[0], width));
    }
    lemma_join_push(rs, render_line(p.last(), width));
}

/// Whether the word `w` joins the open line `line` at `width`: the line is
/// empty, or it stays within `width` bytes with the word after one space.
pub open spec fn joins_line(line: Seq<Seq<char>>, w: Seq<char>, width: int) -> bool {
    line.len() == 0 || min_len(line) + 1 + byte_len(w) <= width
}

/// One step of `handle_word` advances the packing by one word.
proof fn lemma_pack_step(
    chars: Seq<char>,
    ws: Seq<Seq<char>>,
    width: int,
    result0: Seq<char>,
    line0: Seq<(usize, usize)>,
    min0: int,
    result1: Seq<char>,
    line1: Seq<(usize, usize)>,
    min1: int,
    w: Seq<char>,
)
    requires
        packed_state(chars, ws, width, result0, line0, min0),
        fitting(ws.push(w), width),
        joins_line(line_text(chars, line0), w, width) ==> result1 == result0 && line_text(
            chars,
            line1,
        ) == line_text(chars, line0).push(w),
        !joins_line(line_text(chars, line0), w, width) ==> result1 == result0 + (if result0.len()
            > 0 {
            seq!['\n']
        } else {
            Seq::<char>::empty()
        }) + render_line(line_text(chars, line0), width) && line_text(chars, line1) == seq![w],
        spans_ok(chars, line1),
        min1 == min_len(line_text(chars, line1)),
    ensures
        packed_state(chars, ws.push(w), width, result1, line1, min1),
{
    let ws2 = ws.push(w);
    assert(ws2.drop_last() =~= ws);
    assert(ws2.last() == w);
    assert(fitting(ws, width)) by {
        assert forall|i: int| 0 <= i < ws.len() implies 0 < #[trigger] ws[i].len() && byte_len(
            ws[i],
        ) <= width by {
            assert(ws2[i] == ws[i]);
        }
    }
    lemma_pack_shape(ws, width);
    let p = pack(ws, width);
    let q = pack(ws2, width);
    let l0 = line_text(chars, line0);
    if ws.len() == 0 {
        assert(l0 =~= Seq::<Seq<char>>::empty());
        assert(l0.push(w) =~= seq![w]);
        assert(q == seq![seq![w]]);
        assert(q.drop_last() =~= Seq::<Seq<Seq<char>>>::empty());
        assert(render_all(q.drop_last(), width) =~= Seq::<Seq<char>>::empty());
        assert(joins_line(l0, w, width));
        assert(join_lines(Seq::<Seq<char>>::empty()) == Seq::<char>::empty());
        assert(result1 == join_lines(render_all(q.drop_last(), width)));
        assert(q.last() == seq![w]);
        assert(line_text(chars, line1) == q.last());
    } else {
        assert(p[p.len() - 1] == p.last());
        if joins_line(l0, w, width) {
            let l = p.last().push(w);
            assert(l0 == p.last());
            assert(q == p.update(p.len() - 1, l));
            assert(q.drop_last() =~= p.drop_last());
            assert(q.last() == l);
        } else {
            lemma_close_last(p, width);
            assert(q == p.push(seq![w]));
            assert(q.drop_last() =~= p);
            assert(q.last() == seq![w]);
        }
        assert(result1 == join_lines(render_all(q.drop_last(), width)));
        assert(line_text(chars, line1) == q.last());
    }
}

/// Adds one word to the open line: the line takes it while the line, set
/// with single spaces, stays within `line_width` bytes; otherwise the open
/// line is closed into `result` and the word opens the next one.
fn handle_word(
    current_line_words: &mut Vec<(usize, usize)>,
    current_line_min_length: &mut usize,
    line_width: usize,
    result: &mut String,
    chars: &Vec<char>,
    word: (usize, usize),
    word_len: usize,
)
    requires
        spans_ok(chars@, old(current_line_words)@),
        *old(current_line_min_length) == min_len(line_text(chars@, old(current_line_words)@)),
        *old(current_line_min_length) <= line_width,
        word.0 < word.1 <= chars@.len(),
        word_len == byte_len(span_text(chars@, word)),
        word_len <= line_width,
    ensures
        joins_line(
            line_text(chars@, old(current_line_words)@),
            span_text(chars@, word),
            line_width as int,
        ) ==> final(result)@ == old(result)@ && final(current_line_words)@ == old(
            current_line_words,
        )@.push(word) && *final(current_line_min_length) == (if old(
            current_line_words,
        )@.len() == 0 {
            word_len as int
        } else {
            *old(current_line_min_length) + 1 + word_len
        }),
        !joins_line(
            line_text(chars@, old(current_line_words)@),
            span_text(chars@, word),
            line_width as int,
        ) ==> final(result)@ == old(result)@ + (if old(result)@.len() > 0 {
            seq!['\n']
        } else {
            Seq::<char>::empty()
        }) + render_line(line_text(chars@, old(current_line_words)@), line_width as int)
            && final(current_line_words)@ == seq![word] && *final(current_line_min_length)
            == word_len,
        spans_ok(chars@, final(current_line_words)@),
        *final(current_line_min_length) == min_len(line_text(chars@, final(current_line_words)@)),
        *final(current_line_min_length) <= line_width,
{
    let ghost w = span_text(chars@, word);
    let ghost l0 = line_text(chars@, current_line_words@);
    proof {
        lemma_byte_len_at_least_len(w);
    }
    if current_line_words.len() > 0 && word_len >= line_width - *current_line_min_length {
        add_line_to_result(line_width, current_line_min_length, current_line_words, result, chars);
    }
    let new_line_min_length = if current_line_words.len() == 0 {
        word_len
    } else {
        *current_line_min_length + 1 + word_len
    };
    let ghost old_line = current_line_words@;
    assert(spans_ok(chars@, old_line));
    current_line_words.push(word);
    *current_line_min_length = new_line_min_length;
    proof {
        assert(spans_ok(chars@, current_line_words@)) by {
            assert forall|i: int| 0 <= i < current_line_words@.len() implies #[trigger] current_line_words@[i].0
                <= current_line_words@[i].1 <= chars@.len() by {
                if i < old_line.len() {
                    assert(current_line_words@[i] == old_line[i]);
                }
            }
        }
        let l1 = line_text(chars@, current_line_words@);
        assert(l1 =~= line_text(chars@, old_line).push(w));
        if old_line.len() == 0 {
            assert(l1 =~= seq![w]);
            assert(min_len(seq![w]) == byte_len(w));
        } else {
            assert(l1.drop_last() =~= line_text(chars@, old_line));
            assert(l1.last() == w);
        }
        if !joins_line(l0, w, line_width as int) {
            assert(current_line_words@ =~= seq![word]);
        }
    }
}

/// Wraps `input` into lines of exactly `line_width` bytes (UTF-8): the words
/// of the input (runs of characters other than a space) are packed greedily,
/// and each line is justified by spreading its free space over the gaps
/// between its words, leftmost gaps first; a one-word line is padded on the
/// right. Lines are separated by a line break. Fails with the first word
/// longer than `line_width` bytes.
pub fn transform(input: &str, line_width: usize) -> (r: Result<String, WordTooLongError>)
    ensures
        match r {
            Ok(out) => first_long_word(words(input@), line_width as int) is None && out@ == wrap(
                input@,
                line_width as int,
            ),
            Err(e) => first_long_word(words(input@), line_width as int) == Some(e.0@) && e.1
                == line_width,
        },
        input@.len() == 0 ==> (r matches Ok(out) && out@.len() == 0),
{
    let ghost width = line_width as int;
    if input.is_empty() {
        proof {
            lemma_words_of_run(input@);
            assert(words(input@) =~= Seq::<Seq<char>>::empty());
            assert(render_all(pack(words(input@), width), width) =~= Seq::<Seq<char>>::empty());
        }
        return Ok(String::new());
    }
    let chars = to_chars(input);
    let n = chars.len();
    let mut result = String::new();
    let mut current_line_words: Vec<(usize, usize)> = Vec::new();
    let mut current_line_min_length: usize = 0;
    let mut pos: usize = 0;
    let ghost mut ws: Seq<Seq<char>> = Seq::empty();
    proof {
        lemma_words_of_run(Seq::<char>::empty());
        assert(chars@.subrange(0, 0) =~= Seq::<char>::empty());
    }
    while pos < n
        invariant
            chars@ == input@,
            n == chars@.len(),
            pos <= n,
            0 < pos < n ==> chars@[pos - 1] == ' ',
            width == line_width,
            ws == words(chars@.subrange(0, pos as int)),
            fitting(ws, width),
            packed_state(
                chars@,
                ws,
                width,
                result@,
                current_line_words@,
                current_line_min_length as int,
            ),
        decreases n - pos,
    {
        let end = get_next_word(&chars, pos);
        let next = if end < n {
            end + 1
        } else {
            end
        };
        let ghost run = chars@.subrange(pos as int, end as int);
        proof {
            lemma_words_step(chars@, pos as int, end as int);
            lemma_words_of_run(run);
        }
        if end > pos {
            let word_len = match word_byte_len(&chars, (pos, end), line_width) {
                Some(len) => len,
                None => {
                    let mut word = String::new();
                    add_word(&chars, (pos, end), &mut word);
                    proof {
                        let ws2 = ws.push(run);
                        assert(ws2.drop_last() =~= ws);
                        lemma_first_long_word_none(ws, width);
                        assert(first_long_word(ws2, width) == Some(run));
                        assert(words(chars@.subrange(0, next as int)) =~= ws2);
                        lemma_first_long_word_add(
                            ws2,
                            words(chars@.subrange(next as int, n as int)),
                            width,
                        );
                        assert(word@ =~= run);
                    }
                    return Err(WordTooLongError(word, line_width));
                },
            };
            let ghost result0 = result@;
            let ghost line0 = current_line_words@;
            let ghost min0 = current_line_min_length as int;
            proof {
                let ws2 = ws.push(run);
                assert(words(chars@.subrange(0, next as int)) =~= ws2);
                assert forall|i: int| 0 <= i < ws2.len() implies 0 < #[trigger] ws2[i].len()
                    && byte_len(ws2[i]) <= width by {
                    if i < ws.len() {
                        assert(ws2[i] == ws[i]);
                    }
                }
                lemma_pack_shape(ws, width);
                if ws.len() > 0 {
                    let p = pack(ws, width);
                    assert(p[p.len() - 1] == p.last());
                }
            }
            handle_word(
                &mut current_line_words,
                &mut current_line_min_length,
                line_width,
                &mut result,
                &chars,
                (pos, end),
                word_len,
            );
            proof {
                let ws2 = ws.push(run);
                if joins_line(line_text(chars@, line0), run, width) {
                    assert(line_text(chars@, current_line_words@) =~= line_text(chars@, line0).push(
                        run,
                    ));
                } else {
                    assert(line_text(chars@, current_line_words@) =~= seq![run]);
                }
                lemma_pack_step(
                    chars@,
                    ws,
                    width,
                    result0,
                    line0,
                    min0,
                    result@,
                    current_line_words@,
                    current_line_min_length as int,
                    run,
                );
                ws = ws2;
            }
        } else {
            proof {
                assert(words(chars@.subrange(0, next as int)) =~= ws);
            }
        }
        pos = next;
    }
    proof {
        assert(chars@.subrange(0, n as int) =~= chars@);
        lemma_pack_shape(ws, width);
        lemma_first_long_word_none(ws, width);
    }
    if current_line_words.len() > 0 {
        proof {
            let p = pack(ws, width);
            assert(p[p.len() - 1] == p.last());
            lemma_close_last(p, width);
        }
        add_line_to_result(
            line_width,
            &mut current_line_min_length,
            &mut current_line_words,
            &mut result,
            &chars,
        );
    } else {
        proof {
            assert(render_all(pack(ws, width), width) =~= Seq::<Seq<char>>::empty());
        }
    }
    Ok(result)
}

} // verus!
