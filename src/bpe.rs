//! The merge engine: joins adjacent symbols of a word, most highly ranked
//! pair first, until no ranked pair is left.

use vstd::prelude::*;
use vstd::hash_map::StringHashMap;
use crate::text::{chars_of, push_char, views};

verus! {

/// A word: the list of symbol strings of one chunk.
pub type Word = Seq<Seq<char>>;

/// A symbol pair.
pub type Pair = (Seq<char>, Seq<char>);

/// The merge ranks: lower ranks are merged first.
pub type Ranks = Map<Pair, nat>;

/// No two pairs share a rank.
pub open spec fn ranks_injective(ranks: Ranks) -> bool {
    forall|p: Pair, q: Pair|
        #![trigger ranks[p], ranks[q]]
        ranks.contains_key(p) && ranks.contains_key(q) && ranks[p] == ranks[q] ==> p == q
}

/// The pair at positions `i` and `i + 1`.
pub open spec fn pair_at(w: Word, i: int) -> Pair {
    (w[i], w[i + 1])
}

/// Whether `p` stands at some adjacent positions of `w`.
pub open spec fn has_pair(w: Word, p: Pair) -> bool {
    exists|i: int| 0 <= i < w.len() - 1 && #[trigger] pair_at(w, i) == p
}

/// Whether `p` stands in `w` with a rank no other ranked pair of `w` beats.
pub open spec fn is_best(ranks: Ranks, w: Word, p: Pair) -> bool {
    &&& has_pair(w, p)
    &&& ranks.contains_key(p)
    &&& forall|q: Pair| has_pair(w, q) && ranks.contains_key(q) ==> ranks[p] <= #[trigger] ranks[q]
}

/// The ranked pair of `w` with the lowest rank, if `w` holds a ranked pair.
pub open spec fn best_pair(ranks: Ranks, w: Word) -> Option<Pair> {
    if exists|p: Pair| is_best(ranks, w, p) {
        Some(choose|p: Pair| is_best(ranks, w, p))
    } else {
        None
    }
}

/// One left-to-right sweep that joins every non-overlapping occurrence of
/// the pair `(a, b)`.
pub open spec fn merge_pass(w: Word, a: Seq<char>, b: Seq<char>) -> Word
    decreases w.len(),
{
    if w.len() == 0 {
        Seq::empty()
    } else if w.len() >= 2 && w[0] == a && w[1] == b {
        seq![a + b] + merge_pass(w.skip(2), a, b)
    } else {
        seq![w[0]] + merge_pass(w.skip(1), a, b)
    }
}

/// One round of the merge loop: the sweep with the best pair of `w`.
pub open spec fn merge_best(ranks: Ranks, w: Word) -> Word {
    match best_pair(ranks, w) {
        Some(p) => merge_pass(w, p.0, p.1),
        None => w,
    }
}

/// Merges the best pair of `w` while there is one and more than one symbol
/// is left.
pub open spec fn bpe_word(ranks: Ranks, w: Word) -> Word
    decreases w.len(),
    via bpe_word_decreases
{
    match best_pair(ranks, w) {
        None => w,
        Some(p) => {
            let next = merge_pass(w, p.0, p.1);
            if next.len() == 1 {
                next
            } else {
                bpe_word(ranks, next)
            }
        },
    }
}

/// The word of a symbol string: one element per character.
pub open spec fn initial_word(s: Seq<char>) -> Word {
    Seq::new(s.len(), |i: int| seq![s[i]])
}

#[via_fn]
proof fn bpe_word_decreases(ranks: Ranks, w: Word) {
    if let Some(p) = best_pair(ranks, w) {
        lemma_merge_shrinks(ranks, w);
    }
}

proof fn lemma_merge_pass_len(w: Word, a: Seq<char>, b: Seq<char>)
    ensures
        merge_pass(w, a, b).len() <= w.len(),
        has_pair(w, (a, b)) ==> merge_pass(w, a, b).len() < w.len(),
    decreases w.len(),
{
    if w.len() == 0 {
    } else if w.len() >= 2 && w[0] == a && w[1] == b {
        lemma_merge_pass_len(w.skip(2), a, b);
    } else {
        let t = w.skip(1);
        lemma_merge_pass_len(t, a, b);
        if has_pair(w, (a, b)) {
            let i = choose|i: int| 0 <= i < w.len() - 1 && #[trigger] pair_at(w, i) == (a, b);
            assert(i != 0);
            assert(pair_at(t, i - 1) == pair_at(w, i));
        }
    }
}

/// A sweep over a word that holds its best pair leaves fewer symbols: the
/// merge loop shrinks the word on every round that does not stop it.
pub proof fn lemma_merge_shrinks(ranks: Ranks, w: Word)
    requires
        best_pair(ranks, w) is Some,
    ensures
        merge_best(ranks, w).len() < w.len(),
{
    let p = best_pair(ranks, w)->0;
    lemma_merge_pass_len(w, p.0, p.1);
}

/// A sweep keeps what the word spells.
pub proof fn lemma_merge_pass_flatten(w: Word, a: Seq<char>, b: Seq<char>)
    ensures
        merge_pass(w, a, b).flatten() == w.flatten(),
    decreases w.len(),
{
    if w.len() == 0 {
    } else if w.len() >= 2 && w[0] == a && w[1] == b {
        let t = w.skip(2);
        lemma_merge_pass_flatten(t, a, b);
        vstd::seq_lib::lemma_flatten_concat(seq![a + b], merge_pass(t, a, b));
        seq![a + b].lemma_flatten_one_element();
        assert(w.drop_first().drop_first() =~= t);
        assert(w.flatten() == w[0] + w.drop_first().flatten());
        assert(w.drop_first().flatten() == w[1] + t.flatten());
        assert((a + b) + t.flatten() =~= a + (b + t.flatten()));
    } else {
        let t = w.skip(1);
        lemma_merge_pass_flatten(t, a, b);
        vstd::seq_lib::lemma_flatten_concat(seq![w[0]], merge_pass(t, a, b));
        seq![w[0]].lemma_flatten_one_element();
        assert(w.drop_first() =~= t);
    }
}

/// The merge engine keeps what the word spells.
pub proof fn lemma_bpe_word_flatten(ranks: Ranks, w: Word)
    ensures
        bpe_word(ranks, w).flatten() == w.flatten(),
    decreases w.len(),
{
    if let Some(p) = best_pair(ranks, w) {
        let next = merge_pass(w, p.0, p.1);
        lemma_merge_shrinks(ranks, w);
        lemma_merge_pass_flatten(w, p.0, p.1);
        if next.len() != 1 {
            lemma_bpe_word_flatten(ranks, next);
        }
    }
}

/// The initial word of a symbol string spells that string.
pub proof fn lemma_initial_word_flatten(s: Seq<char>)
    ensures
        initial_word(s).flatten() == s,
    decreases s.len(),
{
    if s.len() > 0 {
        lemma_initial_word_flatten(s.drop_first());
        assert(initial_word(s).drop_first() =~= initial_word(s.drop_first()));
        assert(seq![s[0]] + s.drop_first() =~= s);
    } else {
        assert(s =~= Seq::<char>::empty());
    }
}

} // verus!
verus! {

/// A symbol without an ASCII space.
pub open spec fn spaceless(a: Seq<char>) -> bool {
    forall|i: int| 0 <= i < a.len() ==> a[i] != ' '
}

/// The key under which the rank of a pair is kept: left, space, right.
pub open spec fn join_pair(a: Seq<char>, b: Seq<char>) -> Seq<char> {
    a + seq![' '] + b
}

/// Pairs with spaceless left symbols have distinct keys.
proof fn lemma_join_injective(a1: Seq<char>, b1: Seq<char>, a2: Seq<char>, b2: Seq<char>)
    requires
        spaceless(a1),
        spaceless(a2),
        join_pair(a1, b1) == join_pair(a2, b2),
    ensures
        a1 == a2,
        b1 == b2,
{
    let j = join_pair(a1, b1);
    if a1.len() < a2.len() {
        assert(j[a1.len() as int] == ' ');
        assert(join_pair(a2, b2)[a1.len() as int] == a2[a1.len() as int]);
    } else if a2.len() < a1.len() {
        assert(j[a2.len() as int] == a1[a2.len() as int]);
        assert(join_pair(a2, b2)[a2.len() as int] == ' ');
    } else {
        assert(a1 =~= j.subrange(0, a1.len() as int));
        assert(a2 =~= join_pair(a2, b2).subrange(0, a2.len() as int));
        assert(b1 =~= j.subrange(a1.len() as int + 1, j.len() as int));
        assert(b2 =~= join_pair(a2, b2).subrange(a2.len() as int + 1, j.len() as int));
    }
}

/// The merge ranks, kept in a hash table under the joined pair.
pub struct BpeRanks {
    table: StringHashMap<usize>,
}

impl View for BpeRanks {
    type V = Ranks;

    closed spec fn view(&self) -> Ranks {
        Map::new(
            |p: Pair| spaceless(p.0) && self.table@.contains_key(join_pair(p.0, p.1)),
            |p: Pair| self.table@[join_pair(p.0, p.1)] as nat,
        )
    }
}

impl BpeRanks {
    /// No two keys of the table share a rank.
    pub closed spec fn wf(&self) -> bool {
        forall|k1: Seq<char>, k2: Seq<char>|
            #![trigger self.table@[k1], self.table@[k2]]
            self.table@.contains_key(k1) && self.table@.contains_key(k2) && self.table@[k1]
                == self.table@[k2] ==> k1 == k2
    }

    /// Every rank held is below `n`.
    pub closed spec fn ranks_below(&self, n: nat) -> bool {
        forall|k: Seq<char>| #[trigger] self.table@.contains_key(k) ==> self.table@[k] < n
    }

    pub fn new() -> (r: BpeRanks)
        ensures
            r@ == Map::<Pair, nat>::empty(),
            r.wf(),
            r.ranks_below(0),
    {
        let r = BpeRanks { table: StringHashMap::new() };
        assert(r@ =~= Map::<Pair, nat>::empty());
        r
    }

    /// Distinct pairs have distinct ranks.
    pub proof fn lemma_injective(&self)
        requires
            self.wf(),
        ensures
            ranks_injective(self@),
    {
        assert forall|p: Pair, q: Pair|
            #![trigger self@[p], self@[q]]
            self@.contains_key(p) && self@.contains_key(q) && self@[p] == self@[q] implies p
            == q by {
            let kp = join_pair(p.0, p.1);
            let kq = join_pair(q.0, q.1);
            assert(self.table@[kp] == self.table@[kq]);
            lemma_join_injective(p.0, p.1, q.0, q.1);
        }
    }

    /// Gives the pair `(a, b)` a rank above every rank held so far.
    pub fn insert(&mut self, a: &String, b: &String, rank: usize)
        requires
            old(self).wf(),
            old(self).ranks_below(rank as nat),
            spaceless(a@),
        ensures
            final(self).wf(),
            final(self).ranks_below(rank as nat + 1),
            final(self)@ == old(self)@.insert((a@, b@), rank as nat),
    {
        let key = join(a, b);
        self.table.insert(key, rank);
        proof {
            let ghost new_view = old(self)@.insert((a@, b@), rank as nat);
            assert forall|p: Pair| #[trigger] self@.contains_key(p) == new_view.contains_key(p)
                && (self@.contains_key(p) ==> self@[p] == new_view[p]) by {
                if spaceless(p.0) && join_pair(p.0, p.1) == join_pair(a@, b@) {
                    lemma_join_injective(p.0, p.1, a@, b@);
                }
            }
            assert(self@ =~= new_view);
        }
    }

    /// The rank of the pair `(a, b)`, if it has one.
    pub fn rank(&self, a: &String, b: &String) -> (r: Option<usize>)
        requires
            spaceless(a@),
        ensures
            r matches Some(x) ==> self@.contains_key((a@, b@)) && self@[(a@, b@)] == x as nat,
            r is None ==> !self@.contains_key((a@, b@)),
    {
        let key = join(a, b);
        match self.table.get(key.as_str()) {
            Some(x) => Some(*x),
            None => None,
        }
    }
}

/// The key of a pair.
fn join(a: &String, b: &String) -> (r: String)
    ensures
        r@ == join_pair(a@, b@),
{
    let mut key = a.clone();
    key.append(" ");
    key.append(b.as_str());
    proof {
        reveal_strlit(" ");
    }
    key
}

} // verus!
verus! {

/// Every symbol of the word is spaceless.
pub open spec fn spaceless_word(w: Word) -> bool {
    forall|i: int| 0 <= i < w.len() ==> spaceless(#[trigger] w[i])
}

proof fn lemma_best_unique(ranks: Ranks, w: Word, p: Pair)
    requires
        ranks_injective(ranks),
        is_best(ranks, w, p),
    ensures
        best_pair(ranks, w) == Some(p),
{
    let q = choose|q: Pair| is_best(ranks, w, q);
    assert(ranks[p] <= ranks[q]);
    assert(ranks[q] <= ranks[p]);
}

/// The position of the best pair of `word`, if it holds a ranked pair.
fn best_bigram(ranks: &BpeRanks, word: &Vec<String>) -> (r: Option<usize>)
    requires
        ranks.wf(),
        spaceless_word(views(word@)),
    ensures
        r is None ==> best_pair(ranks@, views(word@)) is None,
        r matches Some(j) ==> j + 1 < word@.len() && best_pair(ranks@, views(word@)) == Some(
            pair_at(views(word@), j as int),
        ),
{
    let ghost w = views(word@);
    let n = word.len();
    if n < 2 {
        proof {
            assert(!exists|p: Pair| is_best(ranks@, w, p));
        }
        return None;
    }
    let mut best: Option<(usize, usize)> = None;
    let mut i: usize = 0;
    while i + 1 < n
        invariant
            n == word@.len(),
            n >= 2,
            i + 1 <= n,
            w == views(word@),
            spaceless_word(w),
            best is None ==> forall|k: int|
                0 <= k < i ==> !ranks@.contains_key(#[trigger] pair_at(w, k)),
            best matches Some(b) ==> {
                &&& b.1 < i
                &&& ranks@.contains_key(pair_at(w, b.1 as int))
                &&& ranks@[pair_at(w, b.1 as int)] == b.0 as nat
                &&& forall|k: int|
                    0 <= k < i && ranks@.contains_key(#[trigger] pair_at(w, k)) ==> b.0 as nat
                        <= ranks@[pair_at(w, k)]
            },
        decreases n - i,
    {
        proof {
            assert(spaceless(w[i as int]));
        }
        let r = ranks.rank(&word[i], &word[i + 1]);
        match r {
            Some(x) => {
                let better = match best {
                    None => true,
                    Some(b) => x < b.0,
                };
                if better {
                    best = Some((x, i));
                }
            },
            None => {},
        }
        i = i + 1;
    }
    proof {
        ranks.lemma_injective();
    }
    match best {
        None => {
            proof {
                assert forall|p: Pair| !is_best(ranks@, w, p) by {
                    if has_pair(w, p) {
                        let k = choose|k: int| 0 <= k < w.len() - 1 && #[trigger] pair_at(w, k) == p;
                        assert(!ranks@.contains_key(pair_at(w, k)));
                    }
                }
            }
            None
        },
        Some(b) => {
            proof {
                let p = pair_at(w, b.1 as int);
                assert(has_pair(w, p));
                assert forall|q: Pair| has_pair(w, q) && ranks@.contains_key(q) implies ranks@[p]
                    <= #[trigger] ranks@[q] by {
                    let k = choose|k: int| 0 <= k < w.len() - 1 && #[trigger] pair_at(w, k) == q;
                    assert(ranks@.contains_key(pair_at(w, k)));
                }
                lemma_best_unique(ranks@, w, p);
            }
            Some(b.1)
        },
    }
}

/// One sweep: joins every non-overlapping occurrence of `(first, second)`,
/// left to right.
fn merge_word(word: &Vec<String>, first: &String, second: &String) -> (r: Vec<String>)
    ensures
        views(r@) == merge_pass(views(word@), first@, second@),
{
    let ghost w = views(word@);
    let n = word.len();
    let mut out: Vec<String> = Vec::new();
    let mut i: usize = 0;
    assert(w.skip(0) =~= w);
    assert(views(out@) + merge_pass(w, first@, second@) =~= merge_pass(w, first@, second@));
    while i < n
        invariant
            n == word@.len(),
            i <= n,
            w == views(word@),
            views(out@) + merge_pass(w.skip(i as int), first@, second@) == merge_pass(
                w,
                first@,
                second@,
            ),
        decreases n - i,
    {
        let ghost rest = w.skip(i as int);
        let ghost before = views(out@);
        if i + 1 < n && word[i] == *first && word[i + 1] == *second {
            let joined = word[i].clone().concat(second.as_str());
            out.push(joined);
            proof {
                assert(rest[0] == first@ && rest[1] == second@);
                assert(rest.skip(2) =~= w.skip(i + 2));
                assert(views(out@) =~= before.push(first@ + second@));
                assert(views(out@) + merge_pass(w.skip(i + 2), first@, second@) =~= before + (seq![
                    first@ + second@,
                ] + merge_pass(rest.skip(2), first@, second@)));
            }
            i = i + 2;
        } else {
            out.push(word[i].clone());
            proof {
                assert(rest[0] == w[i as int]);
                assert(rest.skip(1) =~= w.skip(i + 1));
                assert(views(out@) =~= before.push(w[i as int]));
                assert(views(out@) + merge_pass(w.skip(i + 1), first@, second@) =~= before + (seq![
                    w[i as int],
                ] + merge_pass(rest.skip(1), first@, second@)));
            }
            i = i + 1;
        }
    }
    assert(w.skip(i as int) =~= Seq::<Seq<char>>::empty());
    assert(views(out@) + merge_pass(w.skip(i as int), first@, second@) =~= views(out@));
    out
}

} // verus!
verus! {

/// Every symbol after a sweep is the joined pair or a symbol of the word.
pub proof fn lemma_merge_pass_elements(w: Word, a: Seq<char>, b: Seq<char>)
    ensures
        forall|k: int|
            0 <= k < merge_pass(w, a, b).len() ==> #[trigger] merge_pass(w, a, b)[k] == a + b
                || exists|j: int| 0 <= j < w.len() && merge_pass(w, a, b)[k] == w[j],
    decreases w.len(),
{
    let r = merge_pass(w, a, b);
    if w.len() == 0 {
    } else {
        let d: int = if w.len() >= 2 && w[0] == a && w[1] == b {
            2
        } else {
            1
        };
        let t = w.skip(d);
        lemma_merge_pass_elements(t, a, b);
        assert forall|k: int| 0 <= k < r.len() implies #[trigger] r[k] == a + b || exists|j: int|
            0 <= j < w.len() && r[k] == w[j] by {
            if k > 0 {
                let x = merge_pass(t, a, b)[k - 1];
                assert(r[k] == x);
                if x != a + b {
                    let j = choose|j: int| 0 <= j < t.len() && x == t[j];
                    assert(t[j] == w[j + d]);
                }
            } else if d == 1 {
                assert(r[0] == w[0]);
            }
        }
    }
}

proof fn lemma_merge_pass_spaceless(w: Word, a: Seq<char>, b: Seq<char>)
    requires
        spaceless_word(w),
        spaceless(a),
        spaceless(b),
    ensures
        spaceless_word(merge_pass(w, a, b)),
{
    lemma_merge_pass_elements(w, a, b);
    let r = merge_pass(w, a, b);
    assert forall|k: int| 0 <= k < r.len() implies spaceless(#[trigger] r[k]) by {
        if r[k] == a + b {
            assert forall|i: int| 0 <= i < (a + b).len() implies (a + b)[i] != ' ' by {
                if i >= a.len() {
                    assert((a + b)[i] == b[i - a.len()]);
                }
            }
        } else {
            let j = choose|j: int| 0 <= j < w.len() && r[k] == w[j];
            assert(spaceless(w[j]));
        }
    }
}

/// The initial word of `s`: one single-character string per character.
pub fn bpe_word_from_string(s: &String) -> (r: Vec<String>)
    ensures
        views(r@) == initial_word(s@),
{
    let chars = chars_of(s.as_str());
    let mut out: Vec<String> = Vec::new();
    let mut i: usize = 0;
    while i < chars.len()
        invariant
            chars@ == s@,
            i <= chars@.len(),
            views(out@) =~= initial_word(s@).take(i as int),
        decreases chars@.len() - i,
    {
        let mut one = String::new();
        push_char(&mut one, chars[i]);
        assert(one@ =~= seq![chars@[i as int]]);
        let ghost before = views(out@);
        out.push(one);
        assert(views(out@) =~= before.push(seq![chars@[i as int]]));
        i = i + 1;
        assert(views(out@) =~= initial_word(s@).take(i as int));
    }
    assert(initial_word(s@).take(i as int) =~= initial_word(s@));
    out
}

/// Runs the merge engine on the symbol string `token`: the merged symbols,
/// in order.
pub fn bpe(ranks: &BpeRanks, token: &String) -> (r: Vec<String>)
    requires
        ranks.wf(),
        spaceless(token@),
    ensures
        views(r@) == bpe_word(ranks@, initial_word(token@)),
        r@.len() <= token@.len(),
        r@.len() < token@.len() <==> has_ranked_pair(ranks@, initial_word(token@)),
{
    proof {
        lemma_bpe_word_len(ranks@, initial_word(token@));
    }
    let ghost target = bpe_word(ranks@, initial_word(token@));
    let mut word = bpe_word_from_string(token);
    assert(spaceless_word(views(word@))) by {
        assert forall|i: int| 0 <= i < views(word@).len() implies spaceless(
            #[trigger] views(word@)[i],
        ) by {
            assert(views(word@)[i] == seq![token@[i]]);
        }
    }
    loop
        invariant
            ranks.wf(),
            spaceless_word(views(word@)),
            bpe_word(ranks@, views(word@)) == target,
        ensures
            views(word@) == target,
        decreases word@.len(),
    {
        let ghost w = views(word@);
        match best_bigram(ranks, &word) {
            None => {
                break ;
            },
            Some(j) => {
                let first = word[j].clone();
                let second = word[j + 1].clone();
                let next = merge_word(&word, &first, &second);
                proof {
                    assert(spaceless(w[j as int]));
                    assert(spaceless(w[j + 1]));
                    lemma_merge_pass_spaceless(w, first@, second@);
                    lemma_merge_shrinks(ranks@, w);
                }
                word = next;
                if word.len() == 1 {
                    break ;
                }
            },
        }
    }
    word
}

} // verus!
verus! {

/// Some adjacent pair of `w` has a rank.
pub open spec fn has_ranked_pair(ranks: Ranks, w: Word) -> bool {
    exists|i: int| 0 <= i < w.len() - 1 && ranks.contains_key(#[trigger] pair_at(w, i))
}

/// The position below `n` whose pair has the lowest rank, or -1 when no
/// pair below `n` is ranked.
spec fn lowest_pos(ranks: Ranks, w: Word, n: int) -> int
    decreases n,
{
    if n <= 0 {
        -1
    } else {
        let j = lowest_pos(ranks, w, n - 1);
        let p = pair_at(w, n - 1);
        if ranks.contains_key(p) && (j < 0 || ranks[p] < ranks[pair_at(w, j)]) {
            n - 1
        } else {
            j
        }
    }
}

proof fn lemma_lowest_pos(ranks: Ranks, w: Word, n: int)
    requires
        0 <= n,
    ensures
        lowest_pos(ranks, w, n) < n,
        lowest_pos(ranks, w, n) < 0 ==> forall|k: int|
            0 <= k < n ==> !ranks.contains_key(#[trigger] pair_at(w, k)),
        lowest_pos(ranks, w, n) >= 0 ==> {
            let j = lowest_pos(ranks, w, n);
            &&& ranks.contains_key(pair_at(w, j))
            &&& forall|k: int|
                0 <= k < n && ranks.contains_key(#[trigger] pair_at(w, k)) ==> ranks[pair_at(w, j)]
                    <= ranks[pair_at(w, k)]
        },
    decreases n,
{
    if n > 0 {
        lemma_lowest_pos(ranks, w, n - 1);
    }
}

/// A word with a ranked pair has a best pair.
proof fn lemma_best_exists(ranks: Ranks, w: Word)
    requires
        has_ranked_pair(ranks, w),
    ensures
        best_pair(ranks, w) is Some,
{
    let n = w.len() - 1;
    lemma_lowest_pos(ranks, w, n);
    let i = choose|i: int| 0 <= i < w.len() - 1 && ranks.contains_key(#[trigger] pair_at(w, i));
    assert(ranks.contains_key(pair_at(w, i)));
    let j = lowest_pos(ranks, w, n);
    assert(j >= 0);
    let p = pair_at(w, j);
    assert(has_pair(w, p));
    assert forall|q: Pair| has_pair(w, q) && ranks.contains_key(q) implies ranks[p] <= #[trigger] ranks[q] by {
        let k = choose|k: int| 0 <= k < w.len() - 1 && #[trigger] pair_at(w, k) == q;
        assert(ranks.contains_key(pair_at(w, k)));
    }
    assert(is_best(ranks, w, p));
}

/// The merge engine never lengthens a word, and shortens it exactly when
/// some adjacent pair of the word has a rank.
pub proof fn lemma_bpe_word_len(ranks: Ranks, w: Word)
    ensures
        bpe_word(ranks, w).len() <= w.len(),
        bpe_word(ranks, w).len() < w.len() <==> has_ranked_pair(ranks, w),
    decreases w.len(),
{
    match best_pair(ranks, w) {
        Some(p) => {
            lemma_merge_shrinks(ranks, w);
            let next = merge_pass(w, p.0, p.1);
            assert(is_best(ranks, w, p));
            let i = choose|i: int| 0 <= i < w.len() - 1 && #[trigger] pair_at(w, i) == p;
            assert(ranks.contains_key(pair_at(w, i)));
            if next.len() != 1 {
                lemma_bpe_word_len(ranks, next);
                assert(bpe_word(ranks, w) == bpe_word(ranks, next));
            } else {
                assert(bpe_word(ranks, w) == next);
            }
        },
        None => {
            assert(bpe_word(ranks, w) == w);
            if has_ranked_pair(ranks, w) {
                lemma_best_exists(ranks, w);
            }
        },
    }
}

} // verus!
