//! Writing a closed line, justified, into the output.
use vstd::prelude::*;
use crate::layout::{
    base_gap, free_space, gap, leftover, lemma_leftover_bounds, lemma_min_len_bounds, min_len, render_line,
    render_prefix, trailing,
};
use crate::layout::lemma_render_line_len;
use crate::tokens::{byte_len, char_bytes, lemma_byte_len_add, spaces};

verus! {

/// The characters of `chars` from `sp.0` up to `sp.1`.
pub open spec fn span_text(chars: Seq<char>, sp: (usize, usize)) -> Seq<char> {
    chars.subrange(sp.0 as int, sp.1 as int)
}

/// Every span lies within `chars`.
pub open spec fn spans_ok(chars: Seq<char>, line: Seq<(usize, usize)>) -> bool {
    forall|i: int| 0 <= i < line.len() ==> #[trigger] line[i].0 <= line[i].1 <= chars.len()
}

/// The words that the spans of a line stand for.
pub open spec fn line_text(chars: Seq<char>, line: Seq<(usize, usize)>) -> Seq<Seq<char>> {
    Seq::new(line.len(), |i: int| span_text(chars, line[i]))
}

/// Relies on `String::push`: appends the character at the end of the string.
#[verifier::external_body]
fn push_char(s: &mut String, c: char)
    ensures
        final(s)@ == old(s)@.push(c),
{
    s.push(c)
}

/// Appends `separator_len` spaces to `result`.
fn add_separator(separator_len: usize, result: &mut String)
    ensures
        final(result)@ == old(result)@ + spaces(separator_len as nat),
{
    let mut i: usize = 0;
    while i < separator_len
        invariant
            i <= separator_len,
            result@ == old(result)@ + spaces(i as nat),
        decreases separator_len - i,
    {
        push_char(result, ' ');
        assert(result@ =~= old(result)@ + spaces((i + 1) as nat));
        i = i + 1;
    }
}

/// Appends the word that `sp` marks in `chars` to `result`.
pub(crate) fn add_word(chars: &Vec<char>, sp: (usize, usize), result: &mut String)
    requires
        sp.0 <= sp.1 <= chars@.len(),
    ensures
        final(result)@ == old(result)@ + span_text(chars@, sp),
{
    let mut i = sp.0;
    while i < sp.1
        invariant
            sp.0 <= i <= sp.1 <= chars@.len(),
            result@ == old(result)@ + chars@.subrange(sp.0 as int, i as int),
        decreases sp.1 - i,
    {
        push_char(result, chars[i]);
        assert(chars@.subrange(sp.0 as int, i + 1) =~= chars@.subrange(sp.0 as int, i as int).push(
            chars@[i as int],
        ));
        i = i + 1;
    }
}

/// Closes the line: appends it to `result`, justified to `line_width`, after
/// a line break unless `result` is empty, and empties the line.
pub fn add_line_to_result(
    line_width: usize,
    current_line_min_length: &mut usize,
    current_line_words: &mut Vec<(usize, usize)>,
    result: &mut String,
    chars: &Vec<char>,
)
    requires
        spans_ok(chars@, old(current_line_words)@),
        old(current_line_words)@.len() >= 1,
        *old(current_line_min_length) == min_len(line_text(chars@, old(current_line_words)@)),
        *old(current_line_min_length) <= line_width,
    ensures
        final(result)@ == old(result)@ + (if old(result)@.len() > 0 {
            seq!['\n']
        } else {
            Seq::<char>::empty()
        }) + render_line(line_text(chars@, old(current_line_words)@), line_width as int),
        byte_len(final(result)@) == byte_len(old(result)@) + (if old(result)@.len() > 0 {
            1int
        } else {
            0
        }) + line_width,
        final(current_line_words)@.len() == 0,
        *final(current_line_min_length) == 0,
{
    let ghost start = result@;
    let ghost line = line_text(chars@, current_line_words@);
    let ghost w = line_width as int;
    if !result.as_str().is_empty() {
        result.append("\n");
        proof { reveal_strlit("\n"); }
    }
    let ghost head = result@;
    let n = current_line_words.len();
    let free_space_len = line_width - *current_line_min_length;
    let separators_number = n - 1;
    let separator_min_len = if separators_number == 0 {
        0
    } else {
        free_space_len / separators_number
    };
    proof {
        lemma_leftover_bounds(line, w);
        lemma_min_len_bounds(line);
        assert(free_space_len == free_space(line, w));
        assert(separator_min_len == base_gap(line, w));
        assert(separators_number * separator_min_len <= free_space_len) by (nonlinear_arith)
            requires
                separators_number * separator_min_len + leftover(line, w) == free_space_len,
                leftover(line, w) >= 0,
        ;
    }
    let mut extra_spaces = free_space_len - separators_number * separator_min_len;
    let ghost extra0 = extra_spaces as int;
    assert(extra0 == leftover(line, w));
    let mut index: usize = 0;
    while index < n
        invariant
            n == current_line_words@.len(),
            line == line_text(chars@, current_line_words@),
            spans_ok(chars@, current_line_words@),
            n >= 1,
            0 <= index <= n,
            w == line_width,
            extra0 == leftover(line, w),
            separator_min_len == base_gap(line, w),
            0 <= base_gap(line, w) <= free_space(line, w),
            free_space(line, w) <= line_width,
            n > 1 ==> free_space(line, w) < line_width,
            leftover(line, w) > 0 ==> base_gap(line, w) < free_space(line, w),
            result@ == head + render_prefix(line, w, index as int),
            extra_spaces == (if index == 0 || extra0 <= index - 1 {
                if index == 0 {
                    extra0
                } else {
                    0
                }
            } else {
                extra0 - (index - 1)
            }),
        decreases n - index,
    {
        let ghost before = result@;
        if index > 0 {
            let curr_separator_extra_len: usize = if extra_spaces > 0 {
                extra_spaces = extra_spaces - 1;
                1
            } else {
                0
            };
            let separator_len = separator_min_len + 1 + curr_separator_extra_len;
            assert(separator_len == gap(line, w, index - 1));
            add_separator(separator_len, result);
        }
        let sp = current_line_words[index];
        add_word(chars, sp, result);
        proof {
            assert(span_text(chars@, sp) == line[index as int]);
            if index == 0 {
                assert(result@ =~= head + render_prefix(line, w, 1));
            } else {
                assert(result@ =~= head + render_prefix(line, w, index + 1));
            }
        }
        index = index + 1;
    }
    proof {
        if n > 1 {
            assert(extra_spaces == 0);
        }
    }
    if extra_spaces > 0 {
        add_separator(extra_spaces, result);
    }
    proof {
        assert(extra_spaces as nat == trailing(line, w));
        assert(result@ =~= start + (if start.len() > 0 {
            seq!['\n']
        } else {
            Seq::<char>::empty()
        }) + render_line(line, w));
        lemma_render_line_len(line, w);
        let nl = if start.len() > 0 {
            seq!['\n']
        } else {
            Seq::<char>::empty()
        };
        lemma_byte_len_add(start + nl, render_line(line, w));
        lemma_byte_len_add(start, nl);
        assert(byte_len(seq!['\n']) == 1) by {
            assert(seq!['\n'].drop_last() =~= Seq::<char>::empty());
            assert(seq!['\n'].last() == '\n');
            assert(('\n' as u32) == 10u32);
            assert(byte_len(Seq::<char>::empty()) == 0);
            assert(char_bytes('\n') == 1);
        }
    }
    current_line_words.clear();
    *current_line_min_length = 0;
}

} // verus!
