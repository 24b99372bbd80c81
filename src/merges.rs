//! The merge file: a header line, then one merge per line, written as two
//! whitespace-separated symbols; the k-th merge line has rank k.

use vstd::prelude::*;
use crate::bpe::{BpeRanks, Pair, Ranks, spaceless};
use crate::classes::{is_white_space, is_space};
use crate::error::LoadError;
use crate::pat::string_of_range;
use crate::text::chars_of;

verus! {

/// The end of the line that starts at `i`: the next `'\n'`, or the end of `s`.
pub open spec fn line_end(s: Seq<char>, i: int) -> int
    decreases s.len() - i,
{
    if 0 <= i < s.len() && s[i] != '\n' {
        line_end(s, i + 1)
    } else {
        i
    }
}

/// The end of the field that starts at `i`, within `s[..e]`.
pub open spec fn field_end(s: Seq<char>, i: int, e: int) -> int
    decreases e - i,
{
    if 0 <= i < e && !is_white_space(s[i]) {
        field_end(s, i + 1, e)
    } else {
        i
    }
}

/// The whitespace-separated fields of `s[i..e]`.
pub open spec fn fields_in(s: Seq<char>, i: int, e: int) -> Seq<Seq<char>>
    decreases e - i, 1int,
{
    if i < 0 || e <= i {
        Seq::empty()
    } else if is_white_space(s[i]) {
        fields_in(s, i + 1, e)
    } else {
        fields_after(s, i, e)
    }
}

proof fn lemma_field_end_ge(s: Seq<char>, i: int, e: int)
    ensures
        field_end(s, i, e) >= i,
        i <= e ==> field_end(s, i, e) <= e,
    decreases e - i,
{
    if 0 <= i < e && !is_white_space(s[i]) {
        lemma_field_end_ge(s, i + 1, e);
    }
}

proof fn lemma_line_end_ge(s: Seq<char>, i: int)
    ensures
        line_end(s, i) >= i,
    decreases s.len() - i,
{
    if 0 <= i < s.len() && s[i] != '\n' {
        lemma_line_end_ge(s, i + 1);
    }
}

#[via_fn]
proof fn fields_decreases(s: Seq<char>, i: int, e: int) {
    lemma_field_end_ge(s, i + 1, e);
}

#[via_fn]
proof fn merges_decreases(s: Seq<char>, i: int, line: nat) {
    lemma_line_end_ge(s, i);
}

/// The fields of `s[i..e]` where `s[i]` starts one.
pub open spec fn fields_after(s: Seq<char>, i: int, e: int) -> Seq<Seq<char>>
    decreases e - i, 0int,
    via fields_decreases
{
    if 0 <= i < e && !is_white_space(s[i]) {
        let f = field_end(s, i + 1, e);
        seq![s.subrange(i, f)] + fields_in(s, f, e)
    } else {
        Seq::empty()
    }
}

/// The merges of the lines from position `i` on, where that line has index
/// `line` in the file (the header has index 0): lines without a field are
/// passed over, a line with a single field is an error that gives its number
/// counted from 1, and a line with more gives a merge of its first two.
pub open spec fn merges_from(s: Seq<char>, i: int, line: nat) -> Result<Seq<Pair>, nat>
    decreases s.len() - i,
    via merges_decreases
{
    if i < 0 || i > s.len() {
        Ok(Seq::empty())
    } else {
        let e = line_end(s, i);
        let f = fields_in(s, i, e);
        let rest = if e < s.len() {
            merges_from(s, e + 1, line + 1)
        } else {
            Ok(Seq::empty())
        };
        if f.len() == 0 {
            rest
        } else if f.len() == 1 {
            Err(line + 1)
        } else {
            match rest {
                Ok(ps) => Ok(seq![(f[0], f[1])] + ps),
                Err(n) => Err(n),
            }
        }
    }
}

/// The merges of the merge file `s`, after its header line.
pub open spec fn merge_pairs(s: Seq<char>) -> Result<Seq<Pair>, nat> {
    let e = line_end(s, 0);
    if e < s.len() {
        merges_from(s, e + 1, 1)
    } else {
        Ok(Seq::empty())
    }
}

/// The ranks of a merge list: the index of each pair, a later copy of a
/// pair replacing an earlier one.
pub open spec fn ranks_of(ps: Seq<Pair>) -> Ranks
    decreases ps.len(),
{
    if ps.len() == 0 {
        Map::empty()
    } else {
        ranks_of(ps.drop_last()).insert(ps.last(), (ps.len() - 1) as nat)
    }
}

proof fn lemma_line_end(s: Seq<char>, i: int)
    requires
        0 <= i <= s.len(),
    ensures
        i <= line_end(s, i) <= s.len(),
        line_end(s, i) < s.len() ==> s[line_end(s, i)] == '\n',
    decreases s.len() - i,
{
    if i < s.len() && s[i] != '\n' {
        lemma_line_end(s, i + 1);
    }
}

proof fn lemma_field_end(s: Seq<char>, i: int, e: int)
    requires
        0 <= i <= e <= s.len(),
    ensures
        i <= field_end(s, i, e) <= e,
        forall|k: int| i <= k < field_end(s, i, e) ==> !is_white_space(#[trigger] s[k]),
        field_end(s, i, e) < e ==> is_white_space(s[field_end(s, i, e)]),
    decreases e - i,
{
    if i < e && !is_white_space(s[i]) {
        lemma_field_end(s, i + 1, e);
    }
}

fn line_end_at(s: &Vec<char>, i: usize) -> (r: usize)
    requires
        i <= s@.len(),
    ensures
        r == line_end(s@, i as int),
{
    let mut j = i;
    while j < s.len() && s[j] != '\n'
        invariant
            i <= j <= s@.len(),
            line_end(s@, i as int) == line_end(s@, j as int),
        decreases s@.len() - j,
    {
        j = j + 1;
    }
    j
}

fn field_end_at(s: &Vec<char>, i: usize, e: usize) -> (r: usize)
    requires
        i <= e <= s@.len(),
    ensures
        r == field_end(s@, i as int, e as int),
{
    let mut j = i;
    while j < e && !is_space(s[j])
        invariant
            i <= j <= e,
            e <= s@.len(),
            field_end(s@, i as int, e as int) == field_end(s@, j as int, e as int),
        decreases e - j,
    {
        j = j + 1;
    }
    j
}

/// Passes over whitespace: the fields do not change.
fn skip_space(s: &Vec<char>, i: usize, e: usize) -> (r: usize)
    requires
        i <= e <= s@.len(),
    ensures
        i <= r <= e,
        r < e ==> !is_white_space(s@[r as int]),
        fields_in(s@, i as int, e as int) == fields_in(s@, r as int, e as int),
{
    let mut j = i;
    while j < e && is_space(s[j])
        invariant
            i <= j <= e,
            e <= s@.len(),
            fields_in(s@, i as int, e as int) == fields_in(s@, j as int, e as int),
        decreases e - j,
    {
        j = j + 1;
    }
    j
}

/// What one line holds: nothing, a single field, or a merge.
enum LineFields {
    Blank,
    Single,
    Merge(String, String),
}

fn line_fields(s: &Vec<char>, i: usize, e: usize) -> (r: LineFields)
    requires
        i <= e <= s@.len(),
    ensures
        ({
            let f = fields_in(s@, i as int, e as int);
            match r {
                LineFields::Blank => f.len() == 0,
                LineFields::Single => f.len() == 1,
                LineFields::Merge(a, b) => f.len() >= 2 && a@ == f[0] && b@ == f[1] && spaceless(a@),
            }
        }),
{
    let ghost g = s@;
    let a0 = skip_space(s, i, e);
    if a0 == e {
        return LineFields::Blank;
    }
    let a1 = field_end_at(s, a0 + 1, e);
    proof {
        lemma_field_end(g, a0 + 1, e as int);
        assert(fields_in(g, a0 as int, e as int) == fields_after(g, a0 as int, e as int));
    }
    let b0 = skip_space(s, a1, e);
    if b0 == e {
        proof {
            assert(fields_in(g, a1 as int, e as int).len() == 0);
        }
        return LineFields::Single;
    }
    let b1 = field_end_at(s, b0 + 1, e);
    proof {
        lemma_field_end(g, b0 + 1, e as int);
        assert(fields_in(g, b0 as int, e as int) == fields_after(g, b0 as int, e as int));
    }
    let a = string_of_range(s, a0, a1);
    let b = string_of_range(s, b0, b1);
    proof {
        assert(!is_white_space(g[a0 as int]));
        assert forall|k: int| 0 <= k < a@.len() implies a@[k] != ' ' by {
            assert(a@[k] == g[a0 + k]);
            assert(!is_white_space(g[a0 + k]));
        }
    }
    LineFields::Merge(a, b)
}

} // verus!
verus! {

/// The views of a list of string pairs.
pub open spec fn pair_views(v: Seq<(String, String)>) -> Seq<Pair> {
    v.map_values(|p: (String, String)| (p.0@, p.1@))
}

/// `acc` put in front of the merges of a parse.
pub open spec fn prepend(acc: Seq<Pair>, r: Result<Seq<Pair>, nat>) -> Result<Seq<Pair>, nat> {
    match r {
        Ok(ps) => Ok(acc + ps),
        Err(n) => Err(n),
    }
}

/// Reads the merges of the merge file `text`, in file order.
pub fn parse_merges(text: &str) -> (r: Result<Vec<(String, String)>, LoadError>)
    ensures
        match merge_pairs(text@) {
            Ok(ps) => r matches Ok(v) && pair_views(v@) == ps,
            Err(n) => r matches Err(LoadError::MalformedMerge(k)) && k as nat == n,
        },
        r matches Ok(v) ==> forall|k: int| 0 <= k < v@.len() ==> spaceless(#[trigger] v@[k].0@),
{
    let s = chars_of(text);
    let ghost g = s@;
    let mut out: Vec<(String, String)> = Vec::new();
    let n = s.len();
    proof {
        lemma_line_end(g, 0);
    }
    let e0 = line_end_at(&s, 0);
    if e0 >= n {
        assert(pair_views(out@) =~= Seq::<Pair>::empty());
        return Ok(out);
    }
    let mut i = e0 + 1;
    let mut line: usize = 1;
    assert(prepend(pair_views(out@), merges_from(g, i as int, line as nat)) =~= merges_from(g, i as int, line as nat)) by {
        assert(pair_views(out@) =~= Seq::<Pair>::empty());
        if let Ok(ps) = merges_from(g, i as int, line as nat) {
            assert(Seq::<Pair>::empty() + ps =~= ps);
        }
    }
    loop
        invariant_except_break
            merge_pairs(g) == prepend(pair_views(out@), merges_from(g, i as int, line as nat)),
        invariant
            g == s@,
            g == text@,
            n == g.len(),
            1 <= line <= i <= n,
            forall|k: int| 0 <= k < out@.len() ==> spaceless(#[trigger] out@[k].0@),
        ensures
            merge_pairs(g) == Ok::<Seq<Pair>, nat>(pair_views(out@)),
            forall|k: int| 0 <= k < out@.len() ==> spaceless(#[trigger] out@[k].0@),
        decreases n - i,
    {
        proof {
            lemma_line_end(g, i as int);
        }
        let e = line_end_at(&s, i);
        let ghost before = pair_views(out@);
        let ghost rest = if (e as int) < g.len() {
            merges_from(g, e + 1, (line + 1) as nat)
        } else {
            Ok(Seq::<Pair>::empty())
        };
        match line_fields(&s, i, e) {
            LineFields::Blank => {},
            LineFields::Single => {
                return Err(LoadError::MalformedMerge(line + 1));
            },
            LineFields::Merge(a, b) => {
                out.push((a, b));
                proof {
                    assert(pair_views(out@) =~= before.push((a@, b@)));
                    if let Ok(ps) = rest {
                        assert(before + (seq![(a@, b@)] + ps) =~= pair_views(out@) + ps);
                    }
                }
            },
        }
        if e >= n {
            proof {
                assert(pair_views(out@) + Seq::<Pair>::empty() =~= pair_views(out@));
            }
            break ;
        }
        i = e + 1;
        line = line + 1;
    }
    Ok(out)
}

/// The ranks of the first `k` merges of `v`, held in a table.
fn insert_ranks(v: &Vec<(String, String)>) -> (r: BpeRanks)
    requires
        forall|k: int| 0 <= k < v@.len() ==> spaceless(#[trigger] v@[k].0@),
    ensures
        r.wf(),
        r@ == ranks_of(pair_views(v@)),
{
    let mut ranks = BpeRanks::new();
    let mut i: usize = 0;
    while i < v.len()
        invariant
            i <= v@.len(),
            forall|k: int| 0 <= k < v@.len() ==> spaceless(#[trigger] v@[k].0@),
            ranks.wf(),
            ranks.ranks_below(i as nat),
            ranks@ == ranks_of(pair_views(v@).take(i as int)),
        decreases v@.len() - i,
    {
        assert(spaceless(v@[i as int].0@));
        ranks.insert(&v[i].0, &v[i].1, i);
        proof {
            let t = pair_views(v@).take(i + 1);
            assert(t.drop_last() =~= pair_views(v@).take(i as int));
        }
        i = i + 1;
    }
    assert(pair_views(v@).take(i as int) =~= pair_views(v@));
    ranks
}

/// Reads the merge file `text` into its rank table.
pub fn create_bpe_ranks(text: &str) -> (r: Result<BpeRanks, LoadError>)
    ensures
        match merge_pairs(text@) {
            Ok(ps) => r matches Ok(t) && t.wf() && t@ == ranks_of(ps),
            Err(n) => r matches Err(LoadError::MalformedMerge(k)) && k as nat == n,
        },
{
    match parse_merges(text) {
        Ok(v) => Ok(insert_ranks(&v)),
        Err(e) => Err(e),
    }
}

} // verus!
