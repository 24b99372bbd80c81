//! The pre-tokenizer: cuts text into the chunks that the merge engine
//! encodes one at a time.
//!
//! At each position the first of these that matches a non-empty prefix of
//! what is left is taken:
//! a contraction (`'s`, `'t`, `'re`, `'ve`, `'m`, `'ll`, `'d`), a run of
//! letters, a run of digits, or a run of characters that are none of letter,
//! digit and whitespace, each with an optional leading ASCII space; else a run
//! of whitespace.

use vstd::prelude::*;
use crate::classes::{
    alphabetic_of,
    numeric_of,
    is_white_space,
    is_letter,
    is_digit,
    is_letter_or_digit,
    is_space,
};
use crate::text::{chars_of, push_char, views};

verus! {

/// The classes of characters whose runs make chunks.
#[derive(Clone, Copy, PartialEq, Eq, Structural)]
pub enum Class {
    Letter,
    Digit,
    Other,
    Space,
}

pub open spec fn in_class(k: Class, c: char) -> bool {
    match k {
        Class::Letter => alphabetic_of(c),
        Class::Digit => numeric_of(c),
        Class::Other => !(alphabetic_of(c) || numeric_of(c) || is_white_space(c)),
        Class::Space => is_white_space(c),
    }
}

/// Length of the contraction that starts at `i`, or 0.
pub open spec fn contraction_len(s: Seq<char>, i: int) -> int {
    if 0 <= i && i + 1 < s.len() && s[i] == '\'' {
        let c = s[i + 1];
        if c == 's' || c == 't' || c == 'm' || c == 'd' {
            2
        } else if i + 2 < s.len() && ((c == 'r' && s[i + 2] == 'e') || (c == 'v' && s[i + 2]
            == 'e') || (c == 'l' && s[i + 2] == 'l')) {
            3
        } else {
            0
        }
    } else {
        0
    }
}

/// Length of the run of class `k` that starts at `i`.
pub open spec fn run_len(s: Seq<char>, i: int, k: Class) -> int
    decreases s.len() - i,
{
    if 0 <= i < s.len() && in_class(k, s[i]) {
        1 + run_len(s, i + 1, k)
    } else {
        0
    }
}

/// Length of the part that an alternative matches at `i`: `None` stands for
/// a contraction, `Some(k)` for a run of class `k`.
pub open spec fn part_len(s: Seq<char>, i: int, part: Option<Class>) -> int {
    match part {
        None => contraction_len(s, i),
        Some(k) => run_len(s, i, k),
    }
}

/// Length of the match of an alternative with its optional leading space:
/// the space is taken only when the part after it matches.
pub open spec fn spaced_len(s: Seq<char>, i: int, part: Option<Class>) -> int {
    if 0 <= i < s.len() && s[i] == ' ' {
        if part_len(s, i + 1, part) > 0 {
            1 + part_len(s, i + 1, part)
        } else {
            0
        }
    } else {
        part_len(s, i, part)
    }
}

/// Length of the chunk that starts at `i`.
pub open spec fn chunk_len(s: Seq<char>, i: int) -> int {
    if spaced_len(s, i, None) > 0 {
        spaced_len(s, i, None)
    } else if spaced_len(s, i, Some(Class::Letter)) > 0 {
        spaced_len(s, i, Some(Class::Letter))
    } else if spaced_len(s, i, Some(Class::Digit)) > 0 {
        spaced_len(s, i, Some(Class::Digit))
    } else if spaced_len(s, i, Some(Class::Other)) > 0 {
        spaced_len(s, i, Some(Class::Other))
    } else {
        run_len(s, i, Class::Space)
    }
}

/// The chunks of `s` from position `i` on.
pub open spec fn chunks_from(s: Seq<char>, i: int) -> Seq<Seq<char>>
    decreases s.len() - i,
    via chunks_from_decreases
{
    if 0 <= i < s.len() {
        let e = i + chunk_len(s, i);
        seq![s.subrange(i, e)] + chunks_from(s, e)
    } else {
        Seq::empty()
    }
}

/// The chunks of `s`, in order.
pub open spec fn chunks(s: Seq<char>) -> Seq<Seq<char>> {
    chunks_from(s, 0)
}

#[via_fn]
proof fn chunks_from_decreases(s: Seq<char>, i: int) {
    if 0 <= i < s.len() {
        lemma_chunk_len(s, i);
    }
}

proof fn lemma_run_len(s: Seq<char>, i: int, k: Class)
    ensures
        0 <= run_len(s, i, k),
        0 <= i <= s.len() ==> i + run_len(s, i, k) <= s.len(),
        0 <= i < s.len() && in_class(k, s[i]) ==> run_len(s, i, k) >= 1,
    decreases s.len() - i,
{
    if 0 <= i < s.len() && in_class(k, s[i]) {
        lemma_run_len(s, i + 1, k);
    }
}

proof fn lemma_spaced_len(s: Seq<char>, i: int, part: Option<Class>)
    requires
        0 <= i < s.len(),
    ensures
        0 <= spaced_len(s, i, part),
        i + spaced_len(s, i, part) <= s.len(),
{
    match part {
        None => {},
        Some(k) => {
            lemma_run_len(s, i, k);
            lemma_run_len(s, i + 1, k);
        },
    }
}

/// Every position starts a chunk of at least one character that fits in
/// what is left: the grammar never gets stuck.
pub proof fn lemma_chunk_len(s: Seq<char>, i: int)
    requires
        0 <= i < s.len(),
    ensures
        1 <= chunk_len(s, i),
        i + chunk_len(s, i) <= s.len(),
{
    lemma_spaced_len(s, i, None);
    lemma_spaced_len(s, i, Some(Class::Letter));
    lemma_spaced_len(s, i, Some(Class::Digit));
    lemma_spaced_len(s, i, Some(Class::Other));
    lemma_run_len(s, i, Class::Space);
    lemma_run_len(s, i, Class::Letter);
    lemma_run_len(s, i, Class::Digit);
    lemma_run_len(s, i, Class::Other);
}

/// Joining the chunks from `i` on gives back the text from `i` on.
proof fn lemma_chunks_from_flatten(s: Seq<char>, i: int)
    requires
        0 <= i <= s.len(),
    ensures
        chunks_from(s, i).flatten() == s.subrange(i, s.len() as int),
        forall|j: int| 0 <= j < chunks_from(s, i).len() ==> #[trigger] chunks_from(s, i)[j].len() > 0,
    decreases s.len() - i,
{
    if i < s.len() {
        lemma_chunk_len(s, i);
        let e = i + chunk_len(s, i);
        lemma_chunks_from_flatten(s, e);
        let head = seq![s.subrange(i, e)];
        let tail = chunks_from(s, e);
        vstd::seq_lib::lemma_flatten_concat(head, tail);
        head.lemma_flatten_one_element();
        assert(s.subrange(i, e) + s.subrange(e, s.len() as int) =~= s.subrange(i, s.len() as int));
        assert forall|j: int| 0 <= j < chunks_from(s, i).len() implies #[trigger] chunks_from(
            s,
            i,
        )[j].len() > 0 by {
            if j > 0 {
                assert(chunks_from(s, i)[j] == tail[j - 1]);
            }
        }
    } else {
        assert(s.subrange(i, s.len() as int) =~= Seq::<char>::empty());
    }
}

/// The chunks of a text are non-empty and join back into the text.
pub proof fn lemma_chunks_reassemble(s: Seq<char>)
    ensures
        chunks(s).flatten() == s,
        forall|j: int| 0 <= j < chunks(s).len() ==> #[trigger] chunks(s)[j].len() > 0,
{
    lemma_chunks_from_flatten(s, 0);
    assert(s.subrange(0, s.len() as int) =~= s);
}

} // verus!
verus! {

/// Whether `c` is none of letter, digit and whitespace.
fn is_non_unicode_space_alphanumeric(c: char) -> (r: bool)
    ensures
        r == in_class(Class::Other, c),
{
    !(is_letter_or_digit(c) || is_space(c))
}

fn is_in_class(k: Class, c: char) -> (r: bool)
    ensures
        r == in_class(k, c),
{
    match k {
        Class::Letter => is_letter(c),
        Class::Digit => is_digit(c),
        Class::Other => is_non_unicode_space_alphanumeric(c),
        Class::Space => is_space(c),
    }
}

proof fn lemma_run_len_step(s: Seq<char>, i: int, j: int, k: Class)
    requires
        0 <= i <= j < s.len(),
        in_class(k, s[j]),
        run_len(s, i, k) == (j - i) + run_len(s, j, k),
    ensures
        run_len(s, i, k) == (j + 1 - i) + run_len(s, j + 1, k),
{
}

fn run_length(s: &Vec<char>, i: usize, k: Class) -> (r: usize)
    requires
        i <= s@.len(),
    ensures
        r == run_len(s@, i as int, k),
{
    let mut j = i;
    while j < s.len() && is_in_class(k, s[j])
        invariant
            i <= j <= s@.len(),
            run_len(s@, i as int, k) == (j - i) + run_len(s@, j as int, k),
        decreases s@.len() - j,
    {
        proof {
            lemma_run_len_step(s@, i as int, j as int, k);
        }
        j = j + 1;
    }
    j - i
}

fn contraction(s: &Vec<char>, i: usize) -> (r: usize)
    requires
        i <= s@.len(),
    ensures
        r == contraction_len(s@, i as int),
{
    let n = s.len();
    if n - i >= 2 && s[i] == '\'' {
        let c = s[i + 1];
        if c == 's' || c == 't' || c == 'm' || c == 'd' {
            2
        } else if n - i >= 3 && ((c == 'r' && s[i + 2] == 'e') || (c == 'v' && s[i + 2] == 'e') || (
        c == 'l' && s[i + 2] == 'l')) {
            3
        } else {
            0
        }
    } else {
        0
    }
}

fn part_length(s: &Vec<char>, i: usize, part: Option<Class>) -> (r: usize)
    requires
        i <= s@.len(),
    ensures
        r == part_len(s@, i as int, part),
{
    match part {
        None => contraction(s, i),
        Some(k) => run_length(s, i, k),
    }
}

fn opt_preceding_space(s: &Vec<char>, i: usize, part: Option<Class>) -> (r: usize)
    requires
        i < s@.len(),
    ensures
        r == spaced_len(s@, i as int, part),
{
    let n = s.len();
    proof {
        lemma_spaced_len(s@, i as int, part);
        if let Some(k) = part {
            lemma_run_len(s@, i + 1, k);
        }
    }
    if s[i] == ' ' {
        let l = part_length(s, i + 1, part);
        if l > 0 {
            1 + l
        } else {
            0
        }
    } else {
        part_length(s, i, part)
    }
}

fn chunk_length(s: &Vec<char>, i: usize) -> (r: usize)
    requires
        i < s@.len(),
    ensures
        r == chunk_len(s@, i as int),
{
    let a = opt_preceding_space(s, i, None);
    if a > 0 {
        return a;
    }
    let b = opt_preceding_space(s, i, Some(Class::Letter));
    if b > 0 {
        return b;
    }
    let c = opt_preceding_space(s, i, Some(Class::Digit));
    if c > 0 {
        return c;
    }
    let d = opt_preceding_space(s, i, Some(Class::Other));
    if d > 0 {
        return d;
    }
    run_length(s, i, Class::Space)
}

/// The characters `s[from..to]` as a string.
pub(crate) fn string_of_range(s: &Vec<char>, from: usize, to: usize) -> (r: String)
    requires
        from <= to <= s@.len(),
    ensures
        r@ == s@.subrange(from as int, to as int),
{
    let mut out = String::new();
    let mut j = from;
    while j < to
        invariant
            from <= j <= to <= s@.len(),
            out@ == s@.subrange(from as int, j as int),
        decreases to - j,
    {
        push_char(&mut out, s[j]);
        j = j + 1;
        assert(out@ =~= s@.subrange(from as int, j as int));
    }
    out
}

/// Cuts `input` into its chunks, in order.
pub fn pat(input: &str) -> (r: Vec<String>)
    ensures
        views(r@) == chunks(input@),
{
    let s = chars_of(input);
    let mut out: Vec<String> = Vec::new();
    let mut i: usize = 0;
    while i < s.len()
        invariant
            s@ == input@,
            i <= s@.len(),
            views(out@) + chunks_from(s@, i as int) == chunks(s@),
        decreases s@.len() - i,
    {
        proof {
            lemma_chunk_len(s@, i as int);
        }
        let e = i + chunk_length(&s, i);
        let chunk = string_of_range(&s, i, e);
        let ghost before = views(out@);
        out.push(chunk);
        proof {
            assert(views(out@) =~= before.push(s@.subrange(i as int, e as int)));
            assert(chunks_from(s@, i as int) == seq![s@.subrange(i as int, e as int)]
                + chunks_from(s@, e as int));
            assert(views(out@) + chunks_from(s@, e as int) =~= before + chunks_from(s@, i as int));
        }
        i = e;
    }
    assert(views(out@) + chunks_from(s@, i as int) =~= views(out@));
    out
}

} // verus!
