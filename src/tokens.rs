//! Splitting text into words at single spaces.
use vstd::prelude::*;
use vstd::std_specs::iter::IteratorSpec;

verus! {

/// No element of `w` is `c`.
pub open spec fn lacks(w: Seq<char>, c: char) -> bool {
    forall|j: int| 0 <= j < w.len() ==> w[j] != c
}

/// The pieces of `s` between single spaces, in order; two adjacent spaces
/// give an empty piece between them.
pub open spec fn pieces(s: Seq<char>) -> Seq<Seq<char>>
    decreases s.len(),
{
    if s.len() == 0 {
        seq![Seq::<char>::empty()]
    } else {
        let p = pieces(s.drop_last());
        if s.last() == ' ' {
            p.push(Seq::<char>::empty())
        } else {
            p.update(p.len() - 1, p.last().push(s.last()))
        }
    }
}

/// The non-empty elements of `ps`, in order.
pub open spec fn nonempty_only(ps: Seq<Seq<char>>) -> Seq<Seq<char>>
    decreases ps.len(),
{
    if ps.len() == 0 {
        Seq::empty()
    } else {
        let r = nonempty_only(ps.drop_last());
        if ps.last().len() == 0 {
            r
        } else {
            r.push(ps.last())
        }
    }
}

/// The words of `s`: its maximal runs of characters other than a space.
pub open spec fn words(s: Seq<char>) -> Seq<Seq<char>> {
    nonempty_only(pieces(s))
}

/// `n` space characters.
pub open spec fn spaces(n: nat) -> Seq<char> {
    Seq::new(n, |_i: int| ' ')
}

pub proof fn lemma_pieces_shape(s: Seq<char>, c: char)
    ensures
        pieces(s).len() >= 1,
        forall|i: int| 0 <= i < pieces(s).len() ==> lacks(#[trigger] pieces(s)[i], ' '),
        c != ' ' && lacks(s, c) ==> forall|i: int|
            0 <= i < pieces(s).len() ==> lacks(#[trigger] pieces(s)[i], c),
    decreases s.len(),
{
    if s.len() > 0 {
        let t = s.drop_last();
        lemma_pieces_shape(t, c);
        let p = pieces(t);
        if s.last() != ' ' {
            let q = pieces(s);
            assert forall|i: int| 0 <= i < q.len() implies lacks(#[trigger] q[i], ' ') by {
                if i < p.len() - 1 {
                    assert(q[i] == p[i]);
                }
            }
            if c != ' ' && lacks(s, c) {
                assert(lacks(t, c));
                assert forall|i: int| 0 <= i < q.len() implies lacks(#[trigger] q[i], c) by {
                    if i < p.len() - 1 {
                        assert(q[i] == p[i]);
                    }
                }
            }
        } else {
            if c != ' ' && lacks(s, c) {
                assert(lacks(t, c));
            }
        }
    }
}

pub proof fn lemma_nonempty_only_shape(ps: Seq<Seq<char>>, c: char)
    ensures
        forall|i: int|
            0 <= i < nonempty_only(ps).len() ==> #[trigger] nonempty_only(ps)[i].len() > 0,
        (forall|j: int| 0 <= j < ps.len() ==> lacks(#[trigger] ps[j], c)) ==> forall|i: int|
            0 <= i < nonempty_only(ps).len() ==> lacks(#[trigger] nonempty_only(ps)[i], c),
    decreases ps.len(),
{
    if ps.len() > 0 {
        let t = ps.drop_last();
        lemma_nonempty_only_shape(t, c);
        let r = nonempty_only(t);
        assert forall|i: int| 0 <= i < r.len() implies nonempty_only(ps)[i] == r[i] by {
            if ps.last().len() != 0 {
                assert(r.push(ps.last())[i] == r[i]);
            }
        }
        if forall|j: int| 0 <= j < ps.len() ==> lacks(#[trigger] ps[j], c) {
            assert forall|j: int| 0 <= j < t.len() implies lacks(#[trigger] t[j], c) by {
                assert(t[j] == ps[j]);
            }
        }
    }
}

/// Every word is non-empty and holds no space; when `s` lacks a character
/// `c`, so does every word.
pub proof fn lemma_words_shape(s: Seq<char>, c: char)
    ensures
        forall|i: int| 0 <= i < words(s).len() ==> #[trigger] words(s)[i].len() > 0,
        forall|i: int| 0 <= i < words(s).len() ==> lacks(#[trigger] words(s)[i], ' '),
        lacks(s, c) ==> forall|i: int|
            0 <= i < words(s).len() ==> lacks(#[trigger] words(s)[i], c),
{
    lemma_pieces_shape(s, c);
    lemma_nonempty_only_shape(pieces(s), ' ');
    if lacks(s, c) && c != ' ' {
        lemma_nonempty_only_shape(pieces(s), c);
    }
}

pub proof fn lemma_nonempty_only_add(a: Seq<Seq<char>>, b: Seq<Seq<char>>)
    ensures
        nonempty_only(a + b) == nonempty_only(a) + nonempty_only(b),
    decreases b.len(),
{
    if b.len() == 0 {
        assert(a + b =~= a);
        assert(nonempty_only(a) + nonempty_only(b) =~= nonempty_only(a));
    } else {
        lemma_nonempty_only_add(a, b.drop_last());
        assert((a + b).drop_last() =~= a + b.drop_last());
        if b.last().len() != 0 {
            assert(nonempty_only(a) + nonempty_only(b.drop_last()).push(b.last()) =~= (
            nonempty_only(a) + nonempty_only(b.drop_last())).push(b.last()));
        }
    }
}

proof fn lemma_pieces_after_space(a: Seq<char>, y: Seq<char>)
    ensures
        pieces(a.push(' ') + y) == pieces(a) + pieces(y),
    decreases y.len(),
{
    lemma_pieces_shape(y, ' ');
    lemma_pieces_shape(a, ' ');
    if y.len() == 0 {
        assert(a.push(' ') + y =~= a.push(' '));
        assert(a.push(' ').drop_last() =~= a);
        assert(pieces(a).push(Seq::<char>::empty()) =~= pieces(a) + pieces(y));
    } else {
        let z = a.push(' ') + y;
        lemma_pieces_after_space(a, y.drop_last());
        lemma_pieces_shape(y.drop_last(), ' ');
        assert(z.drop_last() =~= a.push(' ') + y.drop_last());
        let p = pieces(a);
        let q = pieces(y.drop_last());
        if y.last() == ' ' {
            assert((p + q).push(Seq::<char>::empty()) =~= p + q.push(Seq::<char>::empty()));
        } else {
            let pq = p + q;
            assert(pq.update(pq.len() - 1, pq.last().push(y.last())) =~= p + q.update(
                q.len() - 1,
                q.last().push(y.last()),
            ));
        }
    }
}

/// A space splits the words: those before it, then those after it.
pub proof fn lemma_words_after_space(a: Seq<char>, y: Seq<char>)
    ensures
        words(a.push(' ') + y) == words(a) + words(y),
{
    lemma_pieces_after_space(a, y);
    lemma_nonempty_only_add(pieces(a), pieces(y));
}

/// A run without spaces is one word, or none when it is empty.
pub proof fn lemma_words_of_run(w: Seq<char>)
    requires
        lacks(w, ' '),
    ensures
        pieces(w) == seq![w],
        words(w) == (if w.len() == 0 {
            Seq::<Seq<char>>::empty()
        } else {
            seq![w]
        }),
    decreases w.len(),
{
    if w.len() > 0 {
        let t = w.drop_last();
        assert(lacks(t, ' '));
        lemma_words_of_run(t);
        assert(t.push(w.last()) =~= w);
        assert(seq![t].update(0, t.push(w.last())) =~= seq![w]);
        assert(seq![w].drop_last() =~= Seq::<Seq<char>>::empty());
        assert(Seq::<Seq<char>>::empty().push(w) =~= seq![w]);
        assert(nonempty_only(Seq::<Seq<char>>::empty()) == Seq::<Seq<char>>::empty());
        assert(nonempty_only(seq![w]) == seq![w]);
    } else {
        assert(w =~= Seq::<char>::empty());
        assert(seq![w].drop_last() =~= Seq::<Seq<char>>::empty());
        assert(nonempty_only(Seq::<Seq<char>>::empty()) == Seq::<Seq<char>>::empty());
        assert(nonempty_only(seq![w]) == Seq::<Seq<char>>::empty());
    }
}

/// A run of spaces holds no word.
pub proof fn lemma_words_of_spaces(n: nat)
    ensures
        words(spaces(n)) == Seq::<Seq<char>>::empty(),
    decreases n,
{
    if n == 0 {
        lemma_words_of_run(spaces(0));
    } else {
        lemma_words_of_spaces((n - 1) as nat);
        lemma_words_of_run(Seq::<char>::empty());
        lemma_words_after_space(spaces((n - 1) as nat), Seq::<char>::empty());
        assert(spaces((n - 1) as nat).push(' ') + Seq::<char>::empty() =~= spaces(n));
    }
}

/// Taking the word that starts at `pos` and ends at `end` (at a space or at
/// the end of `s`) extends the words read so far by the words of that run,
/// and the words of `s` are those read so far followed by the rest.
pub proof fn lemma_words_step(s: Seq<char>, pos: int, end: int)
    requires
        0 <= pos <= end <= s.len(),
        pos == 0 || s[pos - 1] == ' ',
        lacks(s.subrange(pos, end), ' '),
        end < s.len() ==> s[end] == ' ',
    ensures
        ({
            let next = if end < s.len() {
                end + 1
            } else {
                end
            };
            &&& words(s.subrange(0, next)) == words(s.subrange(0, pos)) + words(
                s.subrange(pos, end),
            )
            &&& words(s) == words(s.subrange(0, next)) + words(s.subrange(next, s.len() as int))
        }),
{
    let e = Seq::<char>::empty();
    lemma_words_of_run(e);
    let run = s.subrange(pos, end);
    if pos == 0 {
        assert(s.subrange(0, pos) =~= e);
        assert(s.subrange(0, end) =~= run);
    } else {
        let a = s.subrange(0, pos - 1);
        lemma_words_after_space(a, run);
        assert(s.subrange(0, end) =~= a.push(' ') + run);
        lemma_words_after_space(a, e);
        assert(s.subrange(0, pos) =~= a.push(' ') + e);
    }
    if end < s.len() {
        let b = s.subrange(0, end);
        lemma_words_after_space(b, e);
        assert(s.subrange(0, end + 1) =~= b.push(' ') + e);
        lemma_words_after_space(b, s.subrange(end + 1, s.len() as int));
        assert(s =~= b.push(' ') + s.subrange(end + 1, s.len() as int));
    } else {
        assert(s.subrange(0, end) =~= s);
        assert(s.subrange(end, s.len() as int) =~= e);
    }
}

/// The number of bytes of `c` in UTF-8.
pub open spec fn char_bytes(c: char) -> int {
    let v = c as u32;
    if v < 0x80 {
        1
    } else if v < 0x800 {
        2
    } else if v < 0x10000 {
        3
    } else {
        4
    }
}

/// The number of bytes of `w` in UTF-8: the unit in which words and lines
/// are measured.
pub open spec fn byte_len(w: Seq<char>) -> int
    decreases w.len(),
{
    if w.len() == 0 {
        0
    } else {
        byte_len(w.drop_last()) + char_bytes(w.last())
    }
}

/// Byte lengths add up over concatenation.
pub proof fn lemma_byte_len_add(a: Seq<char>, b: Seq<char>)
    ensures
        byte_len(a + b) == byte_len(a) + byte_len(b),
    decreases b.len(),
{
    if b.len() == 0 {
        assert(a + b =~= a);
    } else {
        lemma_byte_len_add(a, b.drop_last());
        assert((a + b).drop_last() =~= a + b.drop_last());
    }
}

/// Every character takes at least one byte.
pub proof fn lemma_byte_len_at_least_len(w: Seq<char>)
    ensures
        byte_len(w) >= w.len(),
    decreases w.len(),
{
    if w.len() > 0 {
        lemma_byte_len_at_least_len(w.drop_last());
    }
}

/// A space is one byte.
pub proof fn lemma_byte_len_spaces(n: nat)
    ensures
        byte_len(spaces(n)) == n,
    decreases n,
{
    if n > 0 {
        lemma_byte_len_spaces((n - 1) as nat);
        assert(spaces(n).drop_last() =~= spaces((n - 1) as nat));
    }
}

/// The number of bytes of `c` in UTF-8.
pub fn char_len_utf8(c: char) -> (n: usize)
    ensures
        n == char_bytes(c),
{
    let v = c as u32;
    if v < 0x80 {
        1
    } else if v < 0x800 {
        2
    } else if v < 0x10000 {
        3
    } else {
        4
    }
}

/// The byte length of the word that `sp` marks in `chars`, when it is at most
/// `limit`; `None` when the word is longer.
pub fn word_byte_len(chars: &Vec<char>, sp: (usize, usize), limit: usize) -> (r: Option<usize>)
    requires
        sp.0 <= sp.1 <= chars@.len(),
    ensures
        match r {
            Some(n) => n == byte_len(chars@.subrange(sp.0 as int, sp.1 as int)) && n <= limit,
            None => byte_len(chars@.subrange(sp.0 as int, sp.1 as int)) > limit,
        },
{
    let mut acc: usize = 0;
    let mut i = sp.0;
    while i < sp.1
        invariant
            sp.0 <= i <= sp.1 <= chars@.len(),
            acc == byte_len(chars@.subrange(sp.0 as int, i as int)),
            acc <= limit,
        decreases sp.1 - i,
    {
        let cb = char_len_utf8(chars[i]);
        proof {
            let a = chars@.subrange(sp.0 as int, i as int);
            let b = chars@.subrange(sp.0 as int, i + 1);
            assert(b.drop_last() =~= a);
            lemma_byte_len_add(b, chars@.subrange(i + 1, sp.1 as int));
            lemma_byte_len_at_least_len(chars@.subrange(i + 1, sp.1 as int));
            assert(b + chars@.subrange(i + 1, sp.1 as int) =~= chars@.subrange(
                sp.0 as int,
                sp.1 as int,
            ));
        }
        if cb > limit - acc {
            return None;
        }
        acc = acc + cb;
        i = i + 1;
    }
    Some(acc)
}

/// Copies the characters of `s` into a vector.
pub fn to_chars(s: &str) -> (v: Vec<char>)
    ensures
        v@ == s@,
{
    let mut it = s.chars();
    let mut v: Vec<char> = Vec::new();
    loop
        invariant
            v@ + it.remaining() == s@,
            it.decrease() is Some,
        ensures
            v@ == s@,
        decreases it.decrease()->0,
    {
        match it.next() {
            Some(c) => {
                v.push(c);
            },
            None => {
                assert(it.remaining().len() == 0);
                assert(v@ =~= s@);
                break ;
            },
        }
    }
    v
}

/// The end of the word that starts at `from`: the index of the first space at
/// or after `from`, or the length of `chars` when there is none.
pub fn get_next_word(chars: &Vec<char>, from: usize) -> (end: usize)
    requires
        from <= chars@.len(),
    ensures
        from <= end <= chars@.len(),
        lacks(chars@.subrange(from as int, end as int), ' '),
        end < chars@.len() ==> chars@[end as int] == ' ',
{
    let mut end = from;
    while end < chars.len() && chars[end] != ' '
        invariant
            from <= end <= chars@.len(),
            lacks(chars@.subrange(from as int, end as int), ' '),
        decreases chars@.len() - end,
    {
        end = end + 1;
    }
    end
}

} // verus!
