//! The symmetric-delete index: dictionary entries keyed by normalized
//! form, plus a map from delete variants to the keys that produce them.

use vstd::prelude::*;
use vstd::string::*;
use crate::store::DeleteMap;
use crate::store::WordMap;
use crate::store::word_map_of;
use crate::store::delete_map_of;
use crate::store::empty_word_map;
use crate::store::empty_delete_map;
use crate::unicode::normal_of;
use crate::unicode::normalize_chars;
use crate::unicode::string_of_chars;
use crate::text::chars_of;
use crate::text::copy_chars;
use crate::text::chars_eq;
use crate::edit::lev;
use crate::edit::checked_distance;
use crate::edit::lemma_lev_zero_iff_eq;
use crate::edit::lemma_lev_len_diff;

verus! {

/// A dictionary entry: the original-cased form as loaded, and its count.
#[derive(Debug, Clone)]
pub struct WordEntry {
    pub canonical: String,
    pub frequency: u64,
}

/// A ranked correction candidate.
#[derive(Debug, Clone, PartialEq, Eq)]
pub struct Suggestion {
    pub term: String,
    pub distance: usize,
    pub frequency: u64,
}

impl Suggestion {
    pub fn new(term: String, distance: usize, frequency: u64) -> (r: Self)
        ensures
            r.term == term,
            r.distance == distance,
            r.frequency == frequency,
    {
        Self { term, distance, frequency }
    }
}

/// Lexicographic order on code-point sequences.
pub open spec fn lex_le(s: Seq<char>, t: Seq<char>) -> bool
    decreases s.len(),
{
    if s.len() == 0 {
        true
    } else if t.len() == 0 {
        false
    } else if (s[0] as u32) < (t[0] as u32) {
        true
    } else if (s[0] as u32) > (t[0] as u32) {
        false
    } else {
        lex_le(s.drop_first(), t.drop_first())
    }
}

pub proof fn lemma_lex_le_total(s: Seq<char>, t: Seq<char>)
    ensures
        lex_le(s, t) || lex_le(t, s),
    decreases s.len(),
{
    if s.len() == 0 || t.len() == 0 {
    } else if (s[0] as u32) == (t[0] as u32) {
        lemma_lex_le_total(s.drop_first(), t.drop_first());
    }
}

pub proof fn lemma_lex_le_trans(a: Seq<char>, b: Seq<char>, c: Seq<char>)
    requires
        lex_le(a, b),
        lex_le(b, c),
    ensures
        lex_le(a, c),
    decreases a.len(),
{
    if a.len() == 0 {
    } else if b.len() == 0 {
    } else if c.len() == 0 {
    } else {
        if (a[0] as u32) == (b[0] as u32) && (b[0] as u32) == (c[0] as u32) {
            lemma_lex_le_trans(a.drop_first(), b.drop_first(), c.drop_first());
        }
    }
}

pub proof fn lemma_lex_le_refl(s: Seq<char>)
    ensures
        lex_le(s, s),
    decreases s.len(),
{
    if s.len() > 0 {
        lemma_lex_le_refl(s.drop_first());
    }
}

proof fn lemma_char_eq_from_u32(c1: char, c2: char)
    requires
        (c1 as u32) == (c2 as u32),
    ensures
        c1 == c2,
{
    assert(((c1 as u32) as char) == c1);
    assert(((c2 as u32) as char) == c2);
}

pub proof fn lemma_lex_le_antisym(s: Seq<char>, t: Seq<char>)
    requires
        lex_le(s, t),
        lex_le(t, s),
    ensures
        s == t,
    decreases s.len(),
{
    if s.len() == 0 {
        assert(t.len() == 0);
        assert(s =~= t);
    } else {
        assert((s[0] as u32) == (t[0] as u32));
        lemma_char_eq_from_u32(s[0], t[0]);
        lemma_lex_le_antisym(s.drop_first(), t.drop_first());
        assert(s =~= t) by {
            assert(forall|i: int| 1 <= i < s.len() ==> s[i] == s.drop_first()[i - 1]);
            assert(forall|i: int| 1 <= i < t.len() ==> t[i] == t.drop_first()[i - 1]);
        }
    }
}

/// The ranking order on (distance, frequency, term) triples: distance
/// ascending, then frequency descending, then term ascending.
pub open spec fn rank_le(d1: int, f1: u64, t1: Seq<char>, d2: int, f2: u64, t2: Seq<char>) -> bool {
    ||| d1 < d2
    ||| (d1 == d2 && f1 > f2)
    ||| (d1 == d2 && f1 == f2 && lex_le(t1, t2))
}

pub proof fn lemma_rank_le_trans(
    d1: int,
    f1: u64,
    t1: Seq<char>,
    d2: int,
    f2: u64,
    t2: Seq<char>,
    d3: int,
    f3: u64,
    t3: Seq<char>,
)
    requires
        rank_le(d1, f1, t1, d2, f2, t2),
        rank_le(d2, f2, t2, d3, f3, t3),
    ensures
        rank_le(d1, f1, t1, d3, f3, t3),
{
    if d1 == d2 && d2 == d3 && f1 == f2 && f2 == f3 {
        lemma_lex_le_trans(t1, t2, t3);
    }
}

/// The ranking order on suggestions.
pub open spec fn sugg_le(a: Suggestion, b: Suggestion) -> bool {
    rank_le(a.distance as int, a.frequency, a.term@, b.distance as int, b.frequency, b.term@)
}

pub proof fn lemma_sugg_le_total(a: Suggestion, b: Suggestion)
    ensures
        sugg_le(a, b) || sugg_le(b, a),
{
    lemma_lex_le_total(a.term@, b.term@);
}

pub proof fn lemma_sugg_le_trans(a: Suggestion, b: Suggestion, c: Suggestion)
    requires
        sugg_le(a, b),
        sugg_le(b, c),
    ensures
        sugg_le(a, c),
{
    if a.distance == b.distance && b.distance == c.distance && a.frequency == b.frequency
        && b.frequency == c.frequency {
        lemma_lex_le_trans(a.term@, b.term@, c.term@);
    }
}

/// The sequence with the code point at `i` deleted.
pub open spec fn delete_at(w: Seq<char>, i: int) -> Seq<char> {
    w.subrange(0, i) + w.subrange(i + 1, w.len() as int)
}

/// All single-deletion variants of `w`.
pub open spec fn dels1(w: Seq<char>) -> Set<Seq<char>> {
    Set::new(|s: Seq<char>| exists|i: int| 0 <= i < w.len() && s == delete_at(w, i))
}

/// All two-deletion variants of `w` that pass through a non-empty
/// intermediate.
pub open spec fn dels2(w: Seq<char>) -> Set<Seq<char>> {
    Set::new(
        |s: Seq<char>|
            exists|t: Seq<char>| #[trigger]
                dels1(w).contains(t) && t.len() > 0 && dels1(t).contains(s),
    )
}

/// The delete variants of `w` for a maximum edit distance of `d`.
pub open spec fn delete_variants(w: Seq<char>, d: int) -> Set<Seq<char>> {
    if d == 2 {
        dels1(w).union(dels2(w))
    } else {
        dels1(w)
    }
}

/// Some element of `vs` has view `x`.
pub open spec fn has_view(vs: Seq<Vec<char>>, x: Seq<char>) -> bool {
    exists|i: int| 0 <= i < vs.len() && #[trigger] vs[i]@ == x
}

/// The views of the elements of `vs` are pairwise distinct.
pub open spec fn distinct_views(vs: Seq<Vec<char>>) -> bool {
    forall|i: int, j: int| 0 <= i < j < vs.len() ==> vs[i]@ != vs[j]@
}

pub open spec fn views_set(vs: Seq<Vec<char>>) -> Set<Seq<char>> {
    Set::new(|x: Seq<char>| has_view(vs, x))
}

/// Push `x` unless an element with the same view is present.
fn push_if_absent(out: &mut Vec<Vec<char>>, x: Vec<char>)
    requires
        distinct_views(old(out)@),
    ensures
        distinct_views(final(out)@),
        forall|y: Seq<char>| #![auto]
            has_view(final(out)@, y) <==> (has_view(old(out)@, y) || y == x@),
{
    let mut i: usize = 0;
    while i < out.len()
        invariant
            i <= out@.len(),
            forall|j: int| 0 <= j < i ==> out@[j]@ != x@,
            distinct_views(out@),
            out@ == old(out)@,
        decreases out@.len() - i,
    {
        if chars_eq(&out[i], &x) {
            proof {
                assert(has_view(out@, x@));
            }
            return ;
        }
        i = i + 1;
    }
    out.push(x);
    proof {
        assert(forall|j: int| 0 <= j < old(out)@.len() ==> final(out)@[j] == old(out)@[j]);
        assert(final(out)@[old(out)@.len() as int]@ == x@);
        assert forall|y: Seq<char>| has_view(final(out)@, y) implies (has_view(old(out)@, y) || y
            == x@) by {
            let i = choose|i: int| 0 <= i < final(out)@.len() && #[trigger] final(out)@[i]@ == y;
            if i < old(out)@.len() {
                assert(has_view(old(out)@, y));
            }
        }
        assert forall|y: Seq<char>| (has_view(old(out)@, y) || y == x@) implies has_view(
            final(out)@,
            y,
        ) by {
            if has_view(old(out)@, y) {
                let i = choose|i: int| 0 <= i < old(out)@.len() && #[trigger] old(out)@[i]@ == y;
                assert(final(out)@[i]@ == y);
            } else {
                assert(final(out)@[old(out)@.len() as int]@ == y);
            }
        }
    }
}

/// The symmetric-delete index.
pub struct SymSpell {
    pub deletes: DeleteMap,
    pub words: WordMap,
    pub max_edit_distance: usize,
}

impl SymSpell {
    /// Well-formedness: the configured distance is 1 or 2; every key is
    /// the normalization of its entry's canonical form; every delete
    /// variant of every key points back to the key; every stored member
    /// of a delete bucket is a dictionary key.
    pub open spec fn wf(self) -> bool {
        &&& 1 <= self.max_edit_distance <= 2
        &&& forall|k: Seq<char>| #[trigger]
            word_map_of(self.words).contains_key(k) ==> k == normal_of(
                word_map_of(self.words)[k].0,
            )
        &&& forall|k: Seq<char>, d: Seq<char>|
            word_map_of(self.words).contains_key(k) && #[trigger] delete_variants(
                k,
                self.max_edit_distance as int,
            ).contains(d) ==> delete_map_of(self.deletes).contains_key(d) && delete_map_of(
                self.deletes,
            )[d].contains(k)
        &&& forall|d: Seq<char>, k: Seq<char>|
            delete_map_of(self.deletes).contains_key(d) && #[trigger] delete_map_of(
                self.deletes,
            )[d].contains(k) ==> word_map_of(self.words).contains_key(k)
    }

    pub fn new(max_edit_distance: usize) -> (r: Self)
        requires
            1 <= max_edit_distance <= 2,
        ensures
            r.wf(),
            r.max_edit_distance == max_edit_distance,
            word_map_of(r.words) == empty_word_map(),
            delete_map_of(r.deletes) == empty_delete_map(),
    {
        Self { deletes: DeleteMap::new(), words: WordMap::new(), max_edit_distance }
    }

    /// The canonical lookup key of a word.
    pub fn normalize_word(word: &str) -> (r: String)
        ensures
            r@ == normal_of(word@),
    {
        let cs = chars_of(word);
        let n = normalize_chars(&cs);
        string_of_chars(&n)
    }

    /// Every single-deletion variant of `word`, in position order.
    fn generate_deletes(&self, word: &Vec<char>) -> (r: Vec<Vec<char>>)
        ensures
            r@.len() == word@.len(),
            forall|i: int| 0 <= i < r@.len() ==> #[trigger] r@[i]@ == delete_at(word@, i),
    {
        let n = word.len();
        let mut r: Vec<Vec<char>> = Vec::new();
        let mut i: usize = 0;
        while i < n
            invariant
                i <= n,
                n == word@.len(),
                r@.len() == i,
                forall|t: int| 0 <= t < i ==> #[trigger] r@[t]@ == delete_at(word@, t),
            decreases n - i,
        {
            let mut new_word: Vec<char> = Vec::new();
            let mut j: usize = 0;
            while j < n
                invariant
                    j <= n,
                    i < n,
                    n == word@.len(),
                    new_word@ == (if j <= i {
                        word@.take(j as int)
                    } else {
                        word@.take(i as int) + word@.subrange(i + 1, j as int)
                    }),
                decreases n - j,
            {
                if j != i {
                    new_word.push(word[j]);
                }
                j = j + 1;
                proof {
                    if j <= i {
                        assert(new_word@ =~= word@.take(j as int));
                    } else {
                        assert(new_word@ =~= word@.take(i as int) + word@.subrange(
                            i + 1,
                            j as int,
                        ));
                    }
                }
            }
            proof {
                assert(new_word@ =~= delete_at(word@, i as int));
            }
            r.push(new_word);
            i = i + 1;
        }
        r
    }

    /// Every delete variant of `word` up to `edit_distance` deletions,
    /// without duplicates.
    fn get_deletes(&self, word: &Vec<char>, edit_distance: usize) -> (r: Vec<Vec<char>>)
        requires
            1 <= edit_distance <= 2,
        ensures
            distinct_views(r@),
            forall|x: Seq<char>| #![auto]
                has_view(r@, x) <==> delete_variants(word@, edit_distance as int).contains(x),
    {
        let lvl1 = self.generate_deletes(word);
        let mut out: Vec<Vec<char>> = Vec::new();
        let mut t: usize = 0;
        while t < lvl1.len()
            invariant
                t <= lvl1@.len(),
                lvl1@.len() == word@.len(),
                forall|i: int| 0 <= i < lvl1@.len() ==> #[trigger] lvl1@[i]@ == delete_at(word@, i),
                distinct_views(out@),
                forall|x: Seq<char>| #![auto]
                    has_view(out@, x) <==> exists|i: int|
                        0 <= i < t && x == delete_at(word@, i),
            decreases lvl1@.len() - t,
        {
            let c = copy_chars(&lvl1[t]);
            push_if_absent(&mut out, c);
            t = t + 1;
        }
        proof {
            assert forall|x: Seq<char>| has_view(out@, x) <==> dels1(word@).contains(x) by {}
        }
        if edit_distance == 2 {
            let mut t: usize = 0;
            while t < lvl1.len()
                invariant
                    t <= lvl1@.len(),
                    lvl1@.len() == word@.len(),
                    forall|i: int|
                        0 <= i < lvl1@.len() ==> #[trigger] lvl1@[i]@ == delete_at(word@, i),
                    distinct_views(out@),
                    forall|x: Seq<char>| #![auto]
                        has_view(out@, x) <==> (dels1(word@).contains(x) || exists|i: int|
                            0 <= i < t && lvl1@[i]@.len() > 0 && dels1(lvl1@[i]@).contains(x)),
                decreases lvl1@.len() - t,
            {
                if lvl1[t].len() > 0 {
                    let lvl2 = self.generate_deletes(&lvl1[t]);
                    let mut u: usize = 0;
                    while u < lvl2.len()
                        invariant
                            u <= lvl2@.len(),
                            t < lvl1@.len(),
                            lvl1@.len() == word@.len(),
                            lvl1@[t as int]@.len() > 0,
                            lvl2@.len() == lvl1@[t as int]@.len(),
                            forall|i: int|
                                0 <= i < lvl1@.len() ==> #[trigger] lvl1@[i]@ == delete_at(
                                    word@,
                                    i,
                                ),
                            forall|i: int|
                                0 <= i < lvl2@.len() ==> #[trigger] lvl2@[i]@ == delete_at(
                                    lvl1@[t as int]@,
                                    i,
                                ),
                            distinct_views(out@),
                            forall|x: Seq<char>| #![auto]
                                has_view(out@, x) <==> (dels1(word@).contains(x) || (exists|i: int|
                                    0 <= i < t && lvl1@[i]@.len() > 0 && dels1(
                                        lvl1@[i]@,
                                    ).contains(x)) || exists|i: int|
                                    0 <= i < u && x == delete_at(lvl1@[t as int]@, i)),
                        decreases lvl2@.len() - u,
                    {
                        let c = copy_chars(&lvl2[u]);
                        push_if_absent(&mut out, c);
                        u = u + 1;
                    }
                    proof {
                        assert forall|x: Seq<char>|
                            (exists|i: int|
                                0 <= i < lvl2@.len() && x == delete_at(
                                    lvl1@[t as int]@,
                                    i,
                                )) <==> dels1(lvl1@[t as int]@).contains(x) by {}
                    }
                }
                t = t + 1;
            }
            proof {
                assert forall|x: Seq<char>| has_view(out@, x) implies delete_variants(
                    word@,
                    2,
                ).contains(x) by {
                    if !dels1(word@).contains(x) {
                        let i = choose|i: int|
                            0 <= i < lvl1@.len() && lvl1@[i]@.len() > 0 && dels1(
                                lvl1@[i]@,
                            ).contains(x);
                        assert(dels1(word@).contains(lvl1@[i]@));
                        assert(dels2(word@).contains(x));
                    }
                }
                assert forall|x: Seq<char>| delete_variants(word@, 2).contains(x) implies has_view(
                    out@,
                    x,
                ) by {
                    if dels2(word@).contains(x) && !dels1(word@).contains(x) {
                        let tt = choose|tt: Seq<char>| #[trigger]
                            dels1(word@).contains(tt) && tt.len() > 0 && dels1(tt).contains(x);
                        let i = choose|i: int| 0 <= i < word@.len() && tt == delete_at(word@, i);
                        assert(lvl1@[i]@ == tt);
                    }
                }
            }
        }
        out
    }

    /// Record `(normalized, canonical, frequency)` in the index. When the
    /// key is present, the entry with the higher frequency is kept, the
    /// earlier one on ties.
    pub fn add_word(&mut self, normalized: &str, canonical: &str, frequency: u64)
        requires
            old(self).wf(),
            normalized@ == normal_of(canonical@),
        ensures
            final(self).wf(),
            final(self).max_edit_distance == old(self).max_edit_distance,
            word_map_of(final(self).words) == added_word(
                word_map_of(old(self).words),
                normalized@,
                canonical@,
                frequency,
            ),
            delete_map_of(final(self).deletes) == added_deletes(
                delete_map_of(old(self).deletes),
                normalized@,
                delete_variants(normalized@, old(self).max_edit_distance as int),
            ),
    {
        let k = chars_of(normalized);
        let keep = match self.words.get(&k) {
            Some(e) => e.frequency >= frequency,
            None => false,
        };
        if !keep {
            self.words.insert(&k, String::from_str(canonical), frequency);
        }
        proof {
            if keep {
                assert(word_map_of(self.words) =~= added_word(
                    word_map_of(old(self).words),
                    normalized@,
                    canonical@,
                    frequency,
                ));
            }
        }
        let dels = self.get_deletes(&k, self.max_edit_distance);
        let ghost dm0 = delete_map_of(self.deletes);
        let ghost vars = delete_variants(normalized@, self.max_edit_distance as int);
        let mut idx: usize = 0;
        proof {
            assert(delete_map_of(self.deletes) =~~= added_deletes(
                dm0,
                normalized@,
                views_set(dels@.take(0)),
            ));
        }
        while idx < dels.len()
            invariant
                idx <= dels@.len(),
                k@ == normalized@,
                vars == delete_variants(normalized@, old(self).max_edit_distance as int),
                self.max_edit_distance == old(self).max_edit_distance,
                word_map_of(self.words) == added_word(
                    word_map_of(old(self).words),
                    normalized@,
                    canonical@,
                    frequency,
                ),
                distinct_views(dels@),
                forall|x: Seq<char>| #![auto] has_view(dels@, x) <==> vars.contains(x),
                delete_map_of(self.deletes) == added_deletes(
                    dm0,
                    normalized@,
                    views_set(dels@.take(idx as int)),
                ),
            decreases dels@.len() - idx,
        {
            self.deletes.add(&dels[idx], &k);
            proof {
                let pre_take = dels@.take(idx as int);
                let post_take = dels@.take(idx + 1);
                assert forall|y: Seq<char>| has_view(post_take, y) implies (has_view(pre_take, y)
                    || y == dels@[idx as int]@) by {
                    let i = choose|i: int|
                        0 <= i < post_take.len() && #[trigger] post_take[i]@ == y;
                    if i < idx {
                        assert(pre_take[i]@ == y);
                    }
                }
                assert forall|y: Seq<char>| (has_view(pre_take, y) || y
                    == dels@[idx as int]@) implies has_view(post_take, y) by {
                    if has_view(pre_take, y) {
                        let i = choose|i: int|
                            0 <= i < pre_take.len() && #[trigger] pre_take[i]@ == y;
                        assert(post_take[i]@ == y);
                    } else {
                        assert(post_take[idx as int]@ == y);
                    }
                }
                assert(views_set(post_take) =~= views_set(pre_take).insert(dels@[idx as int]@));
                assert(delete_map_of(self.deletes) =~~= added_deletes(
                    dm0,
                    normalized@,
                    views_set(post_take),
                ));
            }
            idx = idx + 1;
        }
        proof {
            assert(dels@.take(dels@.len() as int) =~= dels@);
            assert(views_set(dels@) =~= vars);
            assert(delete_map_of(self.deletes) =~~= added_deletes(dm0, normalized@, vars));
            lemma_added_word_wf(*old(self), *self, normalized@, canonical@, frequency);
        }
    }

    /// Whether the normalization of `word` is a dictionary key.
    pub fn contains(&self, word: &str) -> (r: bool)
        ensures
            r == word_map_of(self.words).contains_key(normal_of(word@)),
    {
        let cs = chars_of(word);
        let n = normalize_chars(&cs);
        self.words.contains_key(&n)
    }

    /// Record `candidate` as a suggestion when it is new, is a dictionary
    /// key, and lies within the distance bound of the query.
    fn consider_candidate(&self, cands: &mut Vec<Cand>, q_vec: &Vec<char>, candidate: &Vec<char>)
        requires
            self.wf(),
            forall|j: int|
                0 <= j < old(cands)@.len() ==> cand_ok(*self, q_vec@, #[trigger] old(cands)@[j]),
            distinct_keys(old(cands)@),
        ensures
            final(cands)@.len() >= old(cands)@.len(),
            forall|j: int| 0 <= j < old(cands)@.len() ==> final(cands)@[j] == old(cands)@[j],
            forall|j: int|
                0 <= j < final(cands)@.len() ==> cand_ok(*self, q_vec@, #[trigger] final(cands)@[j]),
            distinct_keys(final(cands)@),
            forall|x: Seq<char>| #![auto] has_key(old(cands)@, x) ==> has_key(final(cands)@, x),
            word_map_of(self.words).contains_key(candidate@) && lev(q_vec@, candidate@)
                <= self.max_edit_distance && candidate@.len() < usize::MAX && q_vec@.len()
                < usize::MAX ==> has_key(final(cands)@, candidate@),
    {
        if has_key_exec(cands, candidate) {
            return ;
        }
        let dist = match checked_distance(q_vec, candidate) {
            Some(d) => d,
            None => {
                return ;
            },
        };
        if dist > self.max_edit_distance {
            return ;
        }
        let entry = match self.words.get(candidate) {
            Some(e) => e,
            None => {
                return ;
            },
        };
        let term_chars = chars_of(entry.canonical.as_str());
        let key = copy_chars(candidate);
        let sug = Suggestion::new(entry.canonical, dist, entry.frequency);
        let c = Cand { key, term_chars, sug };
        proof {
            assert(cand_ok(*self, q_vec@, c));
        }
        cands.push(c);
        proof {
            let now = cands@;
            assert(now[now.len() - 1].key@ == candidate@);
            assert(has_key(now, candidate@));
            assert forall|x: Seq<char>| has_key(old(cands)@, x) implies has_key(now, x) by {
                let i = choose|i: int|
                    0 <= i < old(cands)@.len() && #[trigger] old(cands)@[i].key@ == x;
                assert(now[i].key@ == x);
            }
            assert forall|i: int, j: int| 0 <= i < j < now.len() implies now[i].key@
                != now[j].key@ by {
                if j == now.len() - 1 {
                    assert(now[i] == old(cands)@[i]);
                    assert(old(cands)@[i].key@ != candidate@);
                }
            }
        }
    }

    /// Sort candidates by the ranking order, keeping exactly the same
    /// candidates.
    fn sort_cands(&self, cands: Vec<Cand>, Ghost(q): Ghost<Seq<char>>) -> (r: Vec<Cand>)
        requires
            forall|j: int| 0 <= j < cands@.len() ==> cand_ok(*self, q, #[trigger] cands@[j]),
            distinct_keys(cands@),
        ensures
            r@.len() == cands@.len(),
            forall|j: int| 0 <= j < r@.len() ==> cand_ok(*self, q, #[trigger] r@[j]),
            distinct_keys(r@),
            forall|j1: int, j2: int|
                #![trigger r@[j1], r@[j2]]
                0 <= j1 < j2 < r@.len() ==> sugg_le(r@[j1].sug, r@[j2].sug),
            forall|x: Seq<char>| #![auto] has_key(r@, x) <==> has_key(cands@, x),
    {
        let ghost orig = cands@;
        let mut rest = cands;
        let mut out: Vec<Cand> = Vec::new();
        proof {
            assert(rest@ =~= orig.take(rest@.len() as int));
        }
        while rest.len() > 0
            invariant
                rest@ == orig.take(rest@.len() as int),
                out@.len() + rest@.len() == orig.len(),
                forall|j: int| 0 <= j < orig.len() ==> cand_ok(*self, q, #[trigger] orig[j]),
                distinct_keys(orig),
                forall|j: int| 0 <= j < out@.len() ==> cand_ok(*self, q, #[trigger] out@[j]),
                distinct_keys(out@),
                forall|j1: int, j2: int|
                    #![trigger out@[j1], out@[j2]]
                    0 <= j1 < j2 < out@.len() ==> sugg_le(out@[j1].sug, out@[j2].sug),
                forall|x: Seq<char>| #![auto]
                    has_key(out@, x) <==> exists|i: int|
                        rest@.len() <= i < orig.len() && #[trigger] orig[i].key@ == x,
            decreases rest@.len(),
        {
            let ghost n: int = rest@.len() as int;
            let c = match rest.pop() {
                Some(c) => c,
                None => {
                    proof {
                        assert(false);
                    }
                    return out;
                },
            };
            proof {
                assert(c == orig.take(n)[n - 1]);
                assert(c == orig[n - 1]);
                assert(rest@ =~= orig.take(rest@.len() as int));
                assert(!has_key(out@, c.key@));
            }
            let mut pos: usize = 0;
            while pos < out.len() && cand_le(&out[pos], &c)
                invariant
                    pos <= out@.len(),
                    cand_ok(*self, q, c),
                    forall|j: int| 0 <= j < out@.len() ==> cand_ok(*self, q, #[trigger] out@[j]),
                    forall|j: int| 0 <= j < pos ==> sugg_le(#[trigger] out@[j].sug, c.sug),
                decreases out@.len() - pos,
            {
                pos = pos + 1;
            }
            let ghost out0 = out@;
            proof {
                if pos < out0.len() {
                    lemma_sugg_le_total(out0[pos as int].sug, c.sug);
                }
                assert forall|j: int| pos <= j < out0.len() implies sugg_le(
                    c.sug,
                    #[trigger] out0[j].sug,
                ) by {
                    if j != pos {
                        lemma_sugg_le_trans(c.sug, out0[pos as int].sug, out0[j].sug);
                    }
                }
                assert(forall|j: int| 0 <= j < pos ==> sugg_le(#[trigger] out0[j].sug, c.sug));
                assert(!has_key(out0, c.key@));
                assert(forall|j: int| 0 <= j < out0.len() ==> #[trigger] out0[j].key@ != c.key@);
            }
            out.insert(pos, c);
            proof {
                assert(out@.len() == out0.len() + 1);
                assert(forall|j: int| 0 <= j < pos ==> out@[j] == out0[j]);
                assert(out@[pos as int] == c);
                assert(forall|j: int| pos < j < out@.len() ==> out@[j] == out0[j - 1]);
                assert forall|j: int| 0 <= j < out@.len() implies cand_ok(
                    *self,
                    q,
                    #[trigger] out@[j],
                ) by {
                    if j < pos {
                        assert(out@[j] == out0[j]);
                    } else if j > pos {
                        assert(out@[j] == out0[j - 1]);
                    }
                }
                assert forall|j1: int, j2: int|
                    #![trigger out@[j1], out@[j2]]
                    0 <= j1 < j2 < out@.len() implies sugg_le(out@[j1].sug, out@[j2].sug) by {
                    if j2 < pos {
                    } else if j1 == pos {
                        assert(out@[j2] == out0[j2 - 1]);
                        assert(sugg_le(c.sug, out0[j2 - 1].sug));
                    } else if j2 == pos {
                        assert(out@[j1] == out0[j1]);
                        assert(sugg_le(out0[j1].sug, c.sug));
                    } else if j1 < pos {
                        assert(out@[j1] == out0[j1] && out@[j2] == out0[j2 - 1]);
                    } else {
                        assert(out@[j1] == out0[j1 - 1] && out@[j2] == out0[j2 - 1]);
                    }
                }
                assert forall|j1: int, j2: int| 0 <= j1 < j2 < out@.len() implies out@[j1].key@
                    != out@[j2].key@ by {
                    if j1 == pos {
                        assert(out@[j2] == out0[j2 - 1]);
                        assert(out0[j2 - 1].key@ != c.key@);
                    } else if j2 == pos {
                        assert(out@[j1] == out0[j1]);
                        assert(out0[j1].key@ != c.key@);
                    } else {
                        let i1: int = if j1 < pos {
                            j1
                        } else {
                            j1 - 1
                        };
                        let i2: int = if j2 < pos {
                            j2
                        } else {
                            j2 - 1
                        };
                        assert(out@[j1] == out0[i1] && out@[j2] == out0[i2]);
                        assert(0 <= i1 < i2 < out0.len());
                    }
                }
                assert forall|x: Seq<char>| has_key(out@, x) implies exists|i: int|
                    rest@.len() <= i < orig.len() && #[trigger] orig[i].key@ == x by {
                    let i = choose|i: int| 0 <= i < out@.len() && #[trigger] out@[i].key@ == x;
                    if i < pos {
                        assert(out0[i].key@ == x);
                        assert(has_key(out0, x));
                    } else if i > pos {
                        assert(out0[i - 1].key@ == x);
                        assert(has_key(out0, x));
                    } else {
                        assert(orig[n - 1].key@ == x);
                    }
                }
                assert forall|x: Seq<char>|
                    (exists|i: int|
                        rest@.len() <= i < orig.len() && #[trigger] orig[i].key@ == x) implies
                    has_key(out@, x) by {
                    let i = choose|i: int|
                        rest@.len() <= i < orig.len() && #[trigger] orig[i].key@ == x;
                    if i >= n {
                        assert(has_key(out0, x));
                        let i2 = choose|i2: int|
                            0 <= i2 < out0.len() && #[trigger] out0[i2].key@ == x;
                        if i2 < pos {
                            assert(out@[i2].key@ == x);
                        } else {
                            assert(out@[i2 + 1].key@ == x);
                        }
                    } else {
                        assert(out@[pos as int].key@ == x);
                    }
                }
            }
        }
        proof {
            assert(orig.take(0) =~= Seq::<Cand>::empty());
            assert(orig.take(orig.len() as int) =~= orig);
            assert forall|x: Seq<char>| has_key(out@, x) <==> has_key(orig, x) by {}
        }
        out
    }

    /// Ranked corrections for `word`: candidates generated from the
    /// delete variants of the normalized query, verified by true edit
    /// distance, ranked, and truncated to `max_suggestions`.
    pub fn suggestions(&self, word: &str, max_suggestions: usize) -> (r: Vec<Suggestion>)
        requires
            self.wf(),
        ensures
            suggestions_post(*self, normal_of(word@), max_suggestions as int, r@),
    {
        let cs = chars_of(word);
        let normalized = normalize_chars(&cs);
        let ghost q = normal_of(word@);
        if normalized.len() == 0 {
            let r: Vec<Suggestion> = Vec::new();
            return r;
        }
        let mut cands: Vec<Cand> = Vec::new();
        match self.words.get(&normalized) {
            Some(e) => {
                let term_chars = chars_of(e.canonical.as_str());
                let key = copy_chars(&normalized);
                proof {
                    lemma_lev_zero_iff_eq(q, q);
                }
                let sug = Suggestion::new(e.canonical, 0, e.frequency);
                let c = Cand { key, term_chars, sug };
                proof {
                    assert(cand_ok(*self, q, c));
                }
                cands.push(c);
            },
            None => {},
        }
        let input_deletes = self.get_deletes(&normalized, self.max_edit_distance);
        let mut di: usize = 0;
        proof {
            assert forall|k: Seq<char>|
                word_map_of(self.words).contains_key(k) && lev(q, k) <= self.max_edit_distance
                    && covered_by_probes(*self, q, input_deletes@, 0, k) implies has_key(
                cands@,
                k,
            ) by {
                assert(k == q);
                assert(cands@[0].key@ == q);
            }
        }
        while di < input_deletes.len()
            invariant
                self.wf(),
                normalized@ == q,
                di <= input_deletes@.len(),
                forall|j: int| 0 <= j < cands@.len() ==> cand_ok(*self, q, #[trigger] cands@[j]),
                distinct_keys(cands@),
                word_map_of(self.words).contains_key(q) ==> cands@.len() >= 1 && cands@[0].key@
                    == q,
                q.len() + 2 < usize::MAX ==> completeness_inv(
                    *self,
                    q,
                    input_deletes@,
                    di as int,
                    cands@,
                ),
            decreases input_deletes@.len() - di,
        {
            let ghost dv = input_deletes@[di as int]@;
            self.consider_candidate(&mut cands, &normalized, &input_deletes[di]);
            proof {
                if q.len() + 2 < usize::MAX && word_map_of(self.words).contains_key(dv) && lev(
                    q,
                    dv,
                ) <= self.max_edit_distance {
                    lemma_lev_len_diff(q, dv);
                    assert(has_key(cands@, dv));
                }
            }
            match self.deletes.get_members(&input_deletes[di]) {
                Some(members) => {
                    let mut ci: usize = 0;
                    while ci < members.len()
                        invariant
                            self.wf(),
                            normalized@ == q,
                            di < input_deletes@.len(),
                            dv == input_deletes@[di as int]@,
                            ci <= members@.len(),
                            forall|j: int|
                                0 <= j < cands@.len() ==> cand_ok(*self, q, #[trigger] cands@[j]),
                            distinct_keys(cands@),
                            word_map_of(self.words).contains_key(q) ==> cands@.len() >= 1
                                && cands@[0].key@ == q,
                            q.len() + 2 < usize::MAX ==> completeness_inv(
                                *self,
                                q,
                                input_deletes@,
                                di as int,
                                cands@,
                            ),
                            q.len() + 2 < usize::MAX && word_map_of(self.words).contains_key(dv)
                                && lev(q, dv) <= self.max_edit_distance ==> has_key(cands@, dv),
                            q.len() + 2 < usize::MAX ==> forall|k: Seq<char>| #![auto]
                                word_map_of(self.words).contains_key(k) && lev(q, k)
                                    <= self.max_edit_distance && (exists|x: int|
                                    0 <= x < ci && #[trigger] members@[x]@ == k) ==> has_key(
                                    cands@,
                                    k,
                                ),
                        decreases members@.len() - ci,
                    {
                        let ghost mv = members@[ci as int]@;
                        self.consider_candidate(&mut cands, &normalized, &members[ci]);
                        proof {
                            if q.len() + 2 < usize::MAX && word_map_of(
                                self.words,
                            ).contains_key(mv) && lev(q, mv) <= self.max_edit_distance {
                                lemma_lev_len_diff(q, mv);
                                assert(has_key(cands@, mv));
                            }
                        }
                        ci = ci + 1;
                    }
                    proof {
                        if q.len() + 2 < usize::MAX {
                            assert forall|k: Seq<char>|
                                word_map_of(self.words).contains_key(k) && lev(q, k)
                                    <= self.max_edit_distance && covered_by_probes(
                                    *self,
                                    q,
                                    input_deletes@,
                                    di + 1,
                                    k,
                                ) implies has_key(cands@, k) by {
                                if !covered_by_probes(*self, q, input_deletes@, di as int, k) {
                                    if exists|x: int|
                                        0 <= x < di + 1 && #[trigger] input_deletes@[x]@ == k {
                                        let x = choose|x: int|
                                            0 <= x < di + 1 && #[trigger] input_deletes@[x]@ == k;
                                        assert(x == di && k == dv);
                                    } else {
                                        let x = choose|x: int|
                                            0 <= x < di + 1 && delete_map_of(
                                                self.deletes,
                                            ).contains_key(#[trigger] input_deletes@[x]@)
                                                && delete_map_of(
                                                self.deletes,
                                            )[input_deletes@[x]@].contains(k);
                                        assert(x == di);
                                        assert(exists|x2: int|
                                            0 <= x2 < members@.len() && #[trigger] members@[x2]@
                                                == k);
                                    }
                                }
                            }
                        }
                    }
                },
                None => {
                    proof {
                        if q.len() + 2 < usize::MAX {
                            assert forall|k: Seq<char>|
                                word_map_of(self.words).contains_key(k) && lev(q, k)
                                    <= self.max_edit_distance && covered_by_probes(
                                    *self,
                                    q,
                                    input_deletes@,
                                    di + 1,
                                    k,
                                ) implies has_key(cands@, k) by {
                                if !covered_by_probes(*self, q, input_deletes@, di as int, k) {
                                    if exists|x: int|
                                        0 <= x < di + 1 && #[trigger] input_deletes@[x]@ == k {
                                        let x = choose|x: int|
                                            0 <= x < di + 1 && #[trigger] input_deletes@[x]@ == k;
                                        assert(x == di && k == dv);
                                    } else {
                                        let x = choose|x: int|
                                            0 <= x < di + 1 && delete_map_of(
                                                self.deletes,
                                            ).contains_key(#[trigger] input_deletes@[x]@)
                                                && delete_map_of(
                                                self.deletes,
                                            )[input_deletes@[x]@].contains(k);
                                        assert(x == di);
                                        assert(false);
                                    }
                                }
                            }
                        }
                    }
                },
            }
            di = di + 1;
        }
        match self.deletes.get_members(&normalized) {
            Some(members) => {
                let mut ci: usize = 0;
                while ci < members.len()
                    invariant
                        self.wf(),
                        normalized@ == q,
                        ci <= members@.len(),
                        forall|j: int|
                            0 <= j < cands@.len() ==> cand_ok(*self, q, #[trigger] cands@[j]),
                        distinct_keys(cands@),
                        word_map_of(self.words).contains_key(q) ==> cands@.len() >= 1
                            && cands@[0].key@ == q,
                        q.len() + 2 < usize::MAX ==> completeness_inv(
                            *self,
                            q,
                            input_deletes@,
                            input_deletes@.len() as int,
                            cands@,
                        ),
                        q.len() + 2 < usize::MAX ==> forall|k: Seq<char>| #![auto]
                            word_map_of(self.words).contains_key(k) && lev(q, k)
                                <= self.max_edit_distance && (exists|x: int|
                                0 <= x < ci && #[trigger] members@[x]@ == k) ==> has_key(
                                cands@,
                                k,
                            ),
                    decreases members@.len() - ci,
                {
                    let ghost mv = members@[ci as int]@;
                    self.consider_candidate(&mut cands, &normalized, &members[ci]);
                    proof {
                        if q.len() + 2 < usize::MAX && word_map_of(self.words).contains_key(mv)
                            && lev(q, mv) <= self.max_edit_distance {
                            lemma_lev_len_diff(q, mv);
                            assert(has_key(cands@, mv));
                        }
                    }
                    ci = ci + 1;
                }
                proof {
                    if q.len() + 2 < usize::MAX {
                        assert forall|k: Seq<char>|
                            word_map_of(self.words).contains_key(k) && probed_key(*self, q, k)
                                && lev(q, k) <= self.max_edit_distance implies has_key(
                            cands@,
                            k,
                        ) by {
                            if delete_variants(q, self.max_edit_distance as int).contains(k) {
                                assert(has_view(input_deletes@, k));
                            } else if delete_map_of(self.deletes).contains_key(q)
                                && delete_map_of(self.deletes)[q].contains(k) {
                                assert(exists|x2: int|
                                    0 <= x2 < members@.len() && #[trigger] members@[x2]@ == k);
                            } else if k != q {
                                let d = choose|d: Seq<char>| #![auto]
                                    delete_variants(q, self.max_edit_distance as int).contains(d)
                                        && delete_map_of(self.deletes).contains_key(d)
                                        && delete_map_of(self.deletes)[d].contains(k);
                                assert(has_view(input_deletes@, d));
                            }
                        }
                    }
                }
            },
            None => {
                proof {
                    if q.len() + 2 < usize::MAX {
                        assert forall|k: Seq<char>|
                            word_map_of(self.words).contains_key(k) && probed_key(*self, q, k)
                                && lev(q, k) <= self.max_edit_distance implies has_key(
                            cands@,
                            k,
                        ) by {
                            if delete_variants(q, self.max_edit_distance as int).contains(k) {
                                assert(has_view(input_deletes@, k));
                            } else if delete_map_of(self.deletes).contains_key(q)
                                && delete_map_of(self.deletes)[q].contains(k) {
                                assert(false);
                            } else if k != q {
                                let d = choose|d: Seq<char>| #![auto]
                                    delete_variants(q, self.max_edit_distance as int).contains(d)
                                        && delete_map_of(self.deletes).contains_key(d)
                                        && delete_map_of(self.deletes)[d].contains(k);
                                assert(has_view(input_deletes@, d));
                            }
                        }
                    }
                }
            },
        }
        proof {
            if word_map_of(self.words).contains_key(q) {
                assert(cands@[0].key@ == q);
                assert(has_key(cands@, q));
            }
        }
        let ghost collected = cands@;
        let sorted = self.sort_cands(cands, Ghost(q));
        let mut r: Vec<Suggestion> = Vec::new();
        let mut i: usize = 0;
        while i < sorted.len()
            invariant
                i <= sorted@.len(),
                r@.len() == i,
                forall|j: int| 0 <= j < i ==> r@[j] == #[trigger] sorted@[j].sug,
            decreases sorted@.len() - i,
        {
            let term = sorted[i].sug.term.clone();
            r.push(Suggestion::new(term, sorted[i].sug.distance, sorted[i].sug.frequency));
            i = i + 1;
        }
        let ghost pre = r@;
        r.truncate(max_suggestions);
        proof {
            let wm = word_map_of(self.words);
            if q.len() > 0 && q.len() + 2 < usize::MAX && r@.len() < max_suggestions {
                assert(pre.len() < max_suggestions);
                assert(r@ =~= pre);
                assert forall|k: Seq<char>|
                    wm.contains_key(k) && probed_key(*self, q, k) && lev(q, k)
                        <= self.max_edit_distance implies exists|j: int|
                    0 <= j < r@.len() && r@[j].term@ == wm[k].0 by {
                    assert(has_key(collected, k));
                    assert(has_key(sorted@, k));
                    let j = choose|j: int| 0 <= j < sorted@.len() && #[trigger] sorted@[j].key@
                        == k;
                    assert(cand_ok(*self, q, sorted@[j]));
                    assert(r@[j].term@ == wm[k].0);
                }
            }
            if q.len() > 0 && q.len() + 2 < usize::MAX && max_suggestions >= 1 {
                assert forall|k: Seq<char>|
                    wm.contains_key(k) && probed_key(*self, q, k) && lev(q, k)
                        <= self.max_edit_distance implies ((exists|j: int|
                    0 <= j < r@.len() && r@[j].term@ == wm[k].0) || (r@.len() >= 1 && rank_le(
                    r@[r@.len() - 1].distance as int,
                    r@[r@.len() - 1].frequency,
                    r@[r@.len() - 1].term@,
                    lev(q, k) as int,
                    wm[k].1,
                    wm[k].0,
                ))) by {
                    assert(has_key(collected, k));
                    assert(has_key(sorted@, k));
                    let j = choose|j: int| 0 <= j < sorted@.len() && #[trigger] sorted@[j].key@
                        == k;
                    assert(cand_ok(*self, q, sorted@[j]));
                    if j < r@.len() {
                        assert(r@[j].term@ == wm[k].0);
                    } else {
                        assert(r@.len() == max_suggestions);
                        let li = r@.len() - 1;
                        assert(r@[li] == sorted@[li].sug);
                        assert(sugg_le(sorted@[li].sug, sorted@[j].sug));
                        assert(sorted@[j].sug.distance == lev(q, k));
                        assert(sorted@[j].sug.frequency == wm[k].1);
                        assert(sorted@[j].sug.term@ == wm[k].0);
                    }
                }
            }
            assert forall|j: int| 0 <= j < r@.len() implies sugg_valid(
                *self,
                q,
                #[trigger] r@[j],
            ) by {
                assert(r@[j] == sorted@[j].sug);
                assert(cand_ok(*self, q, sorted@[j]));
                assert(wm.contains_key(sorted@[j].key@));
                assert(sugg_valid(*self, q, r@[j]));
            }
            assert forall|j1: int, j2: int|
                #![trigger r@[j1], r@[j2]]
                0 <= j1 < j2 < r@.len() implies sugg_le(r@[j1], r@[j2]) && r@[j1].term@
                != r@[j2].term@ by {
                assert(r@[j1] == sorted@[j1].sug);
                assert(r@[j2] == sorted@[j2].sug);
                assert(sugg_le(sorted@[j1].sug, sorted@[j2].sug));
                let k1 = sorted@[j1].key@;
                let k2 = sorted@[j2].key@;
                assert(wm.contains_key(k1) && wm.contains_key(k2));
                assert(k1 == normal_of(wm[k1].0));
                assert(k2 == normal_of(wm[k2].0));
                if sorted@[j1].sug.term@ == sorted@[j2].sug.term@ {
                    assert(k1 == k2);
                    assert(false);
                }
            }
            if wm.contains_key(q) && max_suggestions >= 1 {
                assert(has_key(sorted@, q));
                let j = choose|j: int| 0 <= j < sorted@.len() && #[trigger] sorted@[j].key@ == q;
                lemma_lev_zero_iff_eq(q, q);
                assert(sorted@[j].sug.distance == 0);
                if j != 0 {
                    assert(sugg_le(sorted@[0].sug, sorted@[j].sug));
                    assert(sorted@[0].sug.distance == 0);
                    lemma_lev_zero_iff_eq(q, sorted@[0].key@);
                    assert(sorted@[0].key@ == q);
                    assert(false);
                }
                assert(r@[0] == sorted@[0].sug);
                assert(r@.len() >= 1);
            }
        }
        r
    }

    /// The Levenshtein distance between two words, over code points.
    pub fn edit_distance(&self, s1: &str, s2: &str) -> (r: usize)
        requires
            s1@.len() < usize::MAX,
            s2@.len() < usize::MAX,
        ensures
            r == lev(s1@, s2@),
    {
        let a = chars_of(s1);
        let b = chars_of(s2);
        match checked_distance(&a, &b) {
            Some(d) => d,
            None => {
                proof {
                    assert(false);
                }
                0
            },
        }
    }

    /// The stored frequency of `word`'s normalization, if present.
    pub fn get_frequency(&self, word: &str) -> (r: Option<u64>)
        ensures
            match r {
                Some(f) => word_map_of(self.words).contains_key(normal_of(word@)) && f
                    == word_map_of(self.words)[normal_of(word@)].1,
                None => !word_map_of(self.words).contains_key(normal_of(word@)),
            },
    {
        let cs = chars_of(word);
        let n = normalize_chars(&cs);
        match self.words.get(&n) {
            Some(e) => Some(e.frequency),
            None => None,
        }
    }
}

/// A correction candidate paired with its dictionary key and the
/// characters of its term, for ordering.
struct Cand {
    key: Vec<char>,
    term_chars: Vec<char>,
    sug: Suggestion,
}

/// A candidate drawn from the index: its key is a dictionary key, its
/// suggestion carries that entry's canonical form and frequency, and its
/// distance is the true distance from the query within the bound.
spec fn cand_ok(s: SymSpell, q: Seq<char>, c: Cand) -> bool {
    &&& word_map_of(s.words).contains_key(c.key@)
    &&& c.sug.term@ == word_map_of(s.words)[c.key@].0
    &&& c.sug.frequency == word_map_of(s.words)[c.key@].1
    &&& c.sug.distance == lev(q, c.key@)
    &&& c.sug.distance <= s.max_edit_distance
    &&& c.term_chars@ == c.sug.term@
}

spec fn has_key(vs: Seq<Cand>, x: Seq<char>) -> bool {
    exists|i: int| 0 <= i < vs.len() && #[trigger] vs[i].key@ == x
}

spec fn distinct_keys(vs: Seq<Cand>) -> bool {
    forall|i: int, j: int| 0 <= i < j < vs.len() ==> vs[i].key@ != vs[j].key@
}

/// A suggestion that names a dictionary entry at its true distance from
/// the query, within the configured bound.
pub open spec fn sugg_valid(s: SymSpell, q: Seq<char>, g: Suggestion) -> bool {
    exists|k: Seq<char>|
        {
            &&& #[trigger] word_map_of(s.words).contains_key(k)
            &&& g.term@ == word_map_of(s.words)[k].0
            &&& g.frequency == word_map_of(s.words)[k].1
            &&& g.distance == lev(q, k)
            &&& g.distance <= s.max_edit_distance
        }
}

/// A key the candidate search probes: the query itself, one of its
/// delete variants, or a key stored in the bucket of one of those.
pub open spec fn probed_key(s: SymSpell, q: Seq<char>, k: Seq<char>) -> bool {
    ||| k == q
    ||| delete_variants(q, s.max_edit_distance as int).contains(k)
    ||| (delete_map_of(s.deletes).contains_key(q) && delete_map_of(s.deletes)[q].contains(k))
    ||| exists|d: Seq<char>| #![auto]
        delete_variants(q, s.max_edit_distance as int).contains(d) && delete_map_of(
            s.deletes,
        ).contains_key(d) && delete_map_of(s.deletes)[d].contains(k)
}

/// What `suggestions` returns for normalized query `q` and limit `max`:
/// at most `max` suggestions, each naming a dictionary entry at its true
/// distance within the bound, ranked, without repeated terms; nothing for
/// an empty query; and the exact entry first when the query is a key.
pub open spec fn suggestions_post(s: SymSpell, q: Seq<char>, max: int, r: Seq<Suggestion>) -> bool {
    &&& r.len() <= max
    &&& forall|j: int| 0 <= j < r.len() ==> sugg_valid(s, q, #[trigger] r[j])
    &&& forall|j1: int, j2: int|
        #![trigger r[j1], r[j2]]
        0 <= j1 < j2 < r.len() ==> sugg_le(r[j1], r[j2]) && r[j1].term@ != r[j2].term@
    &&& (q.len() == 0 ==> r.len() == 0)
    &&& (word_map_of(s.words).contains_key(q) && max >= 1 && q.len() > 0 ==> r.len() >= 1
        && r[0].term@ == word_map_of(s.words)[q].0 && r[0].distance == 0 && r[0].frequency
        == word_map_of(s.words)[q].1)
    &&& (q.len() > 0 && q.len() + 2 < usize::MAX && r.len() < max ==> forall|k: Seq<char>|
        #![auto]
        word_map_of(s.words).contains_key(k) && probed_key(s, q, k) && lev(q, k)
            <= s.max_edit_distance ==> exists|j: int|
            0 <= j < r.len() && r[j].term@ == word_map_of(s.words)[k].0)
    &&& (q.len() > 0 && q.len() + 2 < usize::MAX && max >= 1 ==> forall|k: Seq<char>|
        #![auto]
        word_map_of(s.words).contains_key(k) && probed_key(s, q, k) && lev(q, k)
            <= s.max_edit_distance ==> ((exists|j: int|
            0 <= j < r.len() && r[j].term@ == word_map_of(s.words)[k].0) || (r.len() >= 1
            && rank_le(
            r[r.len() - 1].distance as int,
            r[r.len() - 1].frequency,
            r[r.len() - 1].term@,
            lev(q, k) as int,
            word_map_of(s.words)[k].1,
            word_map_of(s.words)[k].0,
        ))))
}

/// `k` is reachable through the first `n` probes: it is the query, one
/// of those probe strings, or stored in one of their buckets.
spec fn covered_by_probes(
    s: SymSpell,
    q: Seq<char>,
    probes: Seq<Vec<char>>,
    n: int,
    k: Seq<char>,
) -> bool {
    ||| k == q
    ||| (exists|x: int| 0 <= x < n && #[trigger] probes[x]@ == k)
    ||| (exists|x: int|
        0 <= x < n && delete_map_of(s.deletes).contains_key(#[trigger] probes[x]@)
            && delete_map_of(s.deletes)[probes[x]@].contains(k))
}

/// Every dictionary key within the distance bound that the first `n`
/// probes reach is already among the candidates.
spec fn completeness_inv(
    s: SymSpell,
    q: Seq<char>,
    probes: Seq<Vec<char>>,
    n: int,
    vs: Seq<Cand>,
) -> bool {
    forall|k: Seq<char>| #![auto]
        word_map_of(s.words).contains_key(k) && lev(q, k) <= s.max_edit_distance
            && covered_by_probes(s, q, probes, n, k) ==> has_key(vs, k)
}

fn has_key_exec(cands: &Vec<Cand>, x: &Vec<char>) -> (r: bool)
    ensures
        r == has_key(cands@, x@),
{
    let mut i: usize = 0;
    while i < cands.len()
        invariant
            i <= cands@.len(),
            forall|j: int| 0 <= j < i ==> cands@[j].key@ != x@,
        decreases cands@.len() - i,
    {
        if chars_eq(&cands[i].key, x) {
            proof {
                assert(cands@[i as int].key@ == x@);
            }
            return true;
        }
        i = i + 1;
    }
    false
}

proof fn lemma_lex_le_shift(s: Seq<char>, t: Seq<char>)
    requires
        s.len() > 0,
        t.len() > 0,
        (s[0] as u32) == (t[0] as u32),
    ensures
        lex_le(s, t) == lex_le(s.drop_first(), t.drop_first()),
{
}

fn lex_le_chars(a: &Vec<char>, b: &Vec<char>) -> (r: bool)
    ensures
        r == lex_le(a@, b@),
{
    let mut i: usize = 0;
    proof {
        assert(a@.skip(0) =~= a@);
        assert(b@.skip(0) =~= b@);
    }
    while i < a.len() && i < b.len()
        invariant
            i <= a@.len(),
            i <= b@.len(),
            lex_le(a@, b@) == lex_le(a@.skip(i as int), b@.skip(i as int)),
        decreases a@.len() - i,
    {
        let ca = a[i];
        let cb = b[i];
        proof {
            assert(a@.skip(i as int)[0] == a@[i as int]);
            assert(b@.skip(i as int)[0] == b@[i as int]);
        }
        if (ca as u32) < (cb as u32) {
            return true;
        }
        if (ca as u32) > (cb as u32) {
            return false;
        }
        proof {
            lemma_lex_le_shift(a@.skip(i as int), b@.skip(i as int));
            assert(a@.skip(i as int).drop_first() =~= a@.skip(i + 1));
            assert(b@.skip(i as int).drop_first() =~= b@.skip(i + 1));
        }
        i = i + 1;
    }
    proof {
        if i == a@.len() {
            assert(a@.skip(i as int).len() == 0);
        } else {
            assert(b@.skip(i as int).len() == 0);
            assert(a@.skip(i as int).len() > 0);
        }
    }
    i == a.len()
}

fn cand_le(a: &Cand, b: &Cand) -> (r: bool)
    requires
        a.term_chars@ == a.sug.term@,
        b.term_chars@ == b.sug.term@,
    ensures
        r == sugg_le(a.sug, b.sug),
{
    if a.sug.distance < b.sug.distance {
        true
    } else if a.sug.distance > b.sug.distance {
        false
    } else if a.sug.frequency > b.sug.frequency {
        true
    } else if a.sug.frequency < b.sug.frequency {
        false
    } else {
        lex_le_chars(&a.term_chars, &b.term_chars)
    }
}

/// The word map after one record is added under the keep-higher rule.
pub open spec fn added_word(
    m: Map<Seq<char>, (Seq<char>, u64)>,
    k: Seq<char>,
    c: Seq<char>,
    f: u64,
) -> Map<Seq<char>, (Seq<char>, u64)> {
    if m.contains_key(k) && m[k].1 >= f {
        m
    } else {
        m.insert(k, (c, f))
    }
}

/// The set stored under `x`, or empty when absent.
pub open spec fn bucket(dm: Map<Seq<char>, Set<Seq<char>>>, x: Seq<char>) -> Set<Seq<char>> {
    if dm.contains_key(x) {
        dm[x]
    } else {
        Set::empty()
    }
}

/// The delete map after `k` is recorded under every variant in `vars`.
pub open spec fn added_deletes(
    dm: Map<Seq<char>, Set<Seq<char>>>,
    k: Seq<char>,
    vars: Set<Seq<char>>,
) -> Map<Seq<char>, Set<Seq<char>>> {
    Map::new(
        |x: Seq<char>| dm.contains_key(x) || vars.contains(x),
        |x: Seq<char>|
            if vars.contains(x) {
                bucket(dm, x).insert(k)
            } else {
                bucket(dm, x)
            },
    )
}

/// Every dictionary entry suggests itself: when the query normalizes to
/// an entry's key, that entry is returned first, at distance zero, with
/// its stored frequency; and its canonical form is itself known. Entries
/// whose key is empty are excepted, since an empty query returns nothing.
pub proof fn lemma_entry_suggests_itself(s: SymSpell, k: Seq<char>, max: int, r: Seq<Suggestion>)
    requires
        s.wf(),
        word_map_of(s.words).contains_key(k),
        k.len() > 0,
        max >= 1,
        suggestions_post(s, k, max, r),
    ensures
        word_map_of(s.words).contains_key(normal_of(word_map_of(s.words)[k].0)),
        r.len() >= 1,
        r[0].term@ == word_map_of(s.words)[k].0,
        r[0].distance == 0,
        r[0].frequency == word_map_of(s.words)[k].1,
{
    assert(k == normal_of(word_map_of(s.words)[k].0));
}

/// Every returned suggestion lies within the configured bound, and its
/// recorded distance is the true Levenshtein distance between the
/// normalized query and the normalization of the suggested term.
pub proof fn lemma_suggestion_distance(
    s: SymSpell,
    q: Seq<char>,
    max: int,
    r: Seq<Suggestion>,
    j: int,
)
    requires
        s.wf(),
        suggestions_post(s, q, max, r),
        0 <= j < r.len(),
    ensures
        r[j].distance <= s.max_edit_distance,
        r[j].distance == lev(q, normal_of(r[j].term@)),
{
    assert(sugg_valid(s, q, r[j]));
    let k = choose|k: Seq<char>|
        {
            &&& #[trigger] word_map_of(s.words).contains_key(k)
            &&& r[j].term@ == word_map_of(s.words)[k].0
            &&& r[j].frequency == word_map_of(s.words)[k].1
            &&& r[j].distance == lev(q, k)
            &&& r[j].distance <= s.max_edit_distance
        };
    assert(k == normal_of(word_map_of(s.words)[k].0));
}

/// Suggestions come ranked by distance ascending, then frequency
/// descending, then term ascending, and no term repeats.
pub proof fn lemma_suggestions_ranked(
    s: SymSpell,
    q: Seq<char>,
    max: int,
    r: Seq<Suggestion>,
    j1: int,
    j2: int,
)
    requires
        suggestions_post(s, q, max, r),
        0 <= j1 < j2 < r.len(),
    ensures
        sugg_le(r[j1], r[j2]),
        r[j1].term@ != r[j2].term@,
{
}

proof fn lemma_delete_at_push(x: Seq<char>, c: char, i: int)
    requires
        0 <= i < x.len(),
    ensures
        delete_at(x.push(c), i) == delete_at(x, i).push(c),
{
    assert(delete_at(x.push(c), i) =~= delete_at(x, i).push(c));
}

/// Two sequences one edit apart are a single deletion of one another or
/// share a single-deletion variant (deleting the substituted position).
proof fn lemma_lev_one_shares_deletion(a: Seq<char>, b: Seq<char>)
    requires
        lev(a, b) == 1,
    ensures
        dels1(a).contains(b) || dels1(b).contains(a) || exists|d: Seq<char>| #![auto]
            dels1(a).contains(d) && dels1(b).contains(d),
    decreases a.len() + b.len(),
{
    if a.len() == 0 {
        assert(b.len() == 1);
        assert(a =~= delete_at(b, 0));
        assert(dels1(b).contains(a));
    } else if b.len() == 0 {
        assert(a.len() == 1);
        assert(b =~= delete_at(a, 0));
        assert(dels1(a).contains(b));
    } else if lev(a.drop_last(), b) == 0 {
        lemma_lev_zero_iff_eq(a.drop_last(), b);
        assert(b =~= delete_at(a, a.len() - 1));
        assert(dels1(a).contains(b));
    } else if lev(a, b.drop_last()) == 0 {
        lemma_lev_zero_iff_eq(a, b.drop_last());
        assert(a =~= delete_at(b, b.len() - 1));
        assert(dels1(b).contains(a));
    } else if a.last() == b.last() {
        assert(lev(a.drop_last(), b.drop_last()) == 1);
        lemma_lev_one_shares_deletion(a.drop_last(), b.drop_last());
        let c = a.last();
        assert(a =~= a.drop_last().push(c));
        assert(b =~= b.drop_last().push(c));
        if dels1(a.drop_last()).contains(b.drop_last()) {
            let i = choose|i: int|
                0 <= i < a.drop_last().len() && b.drop_last() == delete_at(a.drop_last(), i);
            lemma_delete_at_push(a.drop_last(), c, i);
            assert(b == delete_at(a, i));
            assert(dels1(a).contains(b));
        } else if dels1(b.drop_last()).contains(a.drop_last()) {
            let i = choose|i: int|
                0 <= i < b.drop_last().len() && a.drop_last() == delete_at(b.drop_last(), i);
            lemma_delete_at_push(b.drop_last(), c, i);
            assert(a == delete_at(b, i));
            assert(dels1(b).contains(a));
        } else {
            let d0 = choose|d0: Seq<char>| #![auto]
                dels1(a.drop_last()).contains(d0) && dels1(b.drop_last()).contains(d0);
            let i1 = choose|i1: int|
                0 <= i1 < a.drop_last().len() && d0 == delete_at(a.drop_last(), i1);
            let i2 = choose|i2: int|
                0 <= i2 < b.drop_last().len() && d0 == delete_at(b.drop_last(), i2);
            lemma_delete_at_push(a.drop_last(), c, i1);
            lemma_delete_at_push(b.drop_last(), c, i2);
            let d = d0.push(c);
            assert(d == delete_at(a, i1));
            assert(d == delete_at(b, i2));
            assert(dels1(a).contains(d) && dels1(b).contains(d));
        }
    } else {
        assert(lev(a.drop_last(), b.drop_last()) == 0);
        lemma_lev_zero_iff_eq(a.drop_last(), b.drop_last());
        let d = a.drop_last();
        assert(d =~= delete_at(a, a.len() - 1));
        assert(d =~= delete_at(b, b.len() - 1));
        assert(dels1(a).contains(d) && dels1(b).contains(d));
    }
}

/// Any dictionary key exactly one edit from the query is probed: the
/// symmetric-delete guarantee at distance one, from the index invariant.
pub proof fn lemma_distance_one_probed(s: SymSpell, q: Seq<char>, k: Seq<char>)
    requires
        s.wf(),
        word_map_of(s.words).contains_key(k),
        lev(q, k) == 1,
    ensures
        probed_key(s, q, k),
{
    lemma_lev_one_shares_deletion(q, k);
    if dels1(q).contains(k) {
        assert(delete_variants(q, s.max_edit_distance as int).contains(k));
    } else if dels1(k).contains(q) {
        assert(delete_variants(k, s.max_edit_distance as int).contains(q));
        assert(delete_map_of(s.deletes).contains_key(q) && delete_map_of(s.deletes)[q].contains(
            k,
        ));
    } else {
        let d = choose|d: Seq<char>| #![auto] dels1(q).contains(d) && dels1(k).contains(d);
        assert(delete_variants(k, s.max_edit_distance as int).contains(d));
        assert(delete_map_of(s.deletes).contains_key(d) && delete_map_of(s.deletes)[d].contains(
            k,
        ));
        assert(delete_variants(q, s.max_edit_distance as int).contains(d));
    }
}

/// The index reaches every related dictionary key: a key is probed for
/// query `q` whenever `q` is one of its delete variants (a longer word,
/// found through `q`'s bucket), whenever it is itself a delete variant
/// of `q` (a shorter word), and whenever the two share a delete variant.
/// Together with the completeness clause of `suggestions_post`, such a
/// key appears in the returned list when the list is not full.
pub proof fn lemma_index_reaches(s: SymSpell, q: Seq<char>, k: Seq<char>)
    requires
        s.wf(),
        word_map_of(s.words).contains_key(k),
    ensures
        delete_variants(k, s.max_edit_distance as int).contains(q) ==> probed_key(s, q, k),
        delete_variants(q, s.max_edit_distance as int).contains(k) ==> probed_key(s, q, k),
        forall|d: Seq<char>| #![auto]
            delete_variants(q, s.max_edit_distance as int).contains(d) && delete_variants(
                k,
                s.max_edit_distance as int,
            ).contains(d) ==> probed_key(s, q, k),
{
    if delete_variants(k, s.max_edit_distance as int).contains(q) {
        assert(delete_map_of(s.deletes).contains_key(q) && delete_map_of(s.deletes)[q].contains(
            k,
        ));
    }
    assert forall|d: Seq<char>| #![auto]
        delete_variants(q, s.max_edit_distance as int).contains(d) && delete_variants(
            k,
            s.max_edit_distance as int,
        ).contains(d) implies probed_key(s, q, k) by {
        assert(delete_map_of(s.deletes).contains_key(d) && delete_map_of(s.deletes)[d].contains(
            k,
        ));
    }
}

/// Lookup is insensitive to ASCII case: uppercasing an all-ASCII word
/// does not change whether it is known.
pub proof fn lemma_is_known_ascii_case(s: SymSpell, w: Seq<char>)
    requires
        crate::text::all_ascii(w),
    ensures
        word_map_of(s.words).contains_key(normal_of(crate::unicode::ascii_upper_seq(w)))
            == word_map_of(s.words).contains_key(normal_of(w)),
{
    crate::unicode::lemma_normal_of_ascii_upper(w);
}

proof fn lemma_added_word_wf(
    pre: SymSpell,
    post: SymSpell,
    k: Seq<char>,
    c: Seq<char>,
    f: u64,
)
    requires
        pre.wf(),
        k == normal_of(c),
        post.max_edit_distance == pre.max_edit_distance,
        word_map_of(post.words) == added_word(word_map_of(pre.words), k, c, f),
        delete_map_of(post.deletes) == added_deletes(
            delete_map_of(pre.deletes),
            k,
            delete_variants(k, pre.max_edit_distance as int),
        ),
    ensures
        post.wf(),
{
    let wm0 = word_map_of(pre.words);
    let wm1 = word_map_of(post.words);
    let dm0 = delete_map_of(pre.deletes);
    let dm1 = delete_map_of(post.deletes);
    let vars = delete_variants(k, pre.max_edit_distance as int);
    assert(wm1.contains_key(k));
    assert forall|k2: Seq<char>, d: Seq<char>|
        wm1.contains_key(k2) && #[trigger] delete_variants(
            k2,
            post.max_edit_distance as int,
        ).contains(d) implies dm1.contains_key(d) && dm1[d].contains(k2) by {
        if k2 == k {
            assert(vars.contains(d));
            assert(dm1[d] == bucket(dm0, d).insert(k));
        } else {
            assert(wm0.contains_key(k2));
            assert(dm0.contains_key(d) && dm0[d].contains(k2));
            if vars.contains(d) {
                assert(dm1[d] == bucket(dm0, d).insert(k));
            } else {
                assert(dm1[d] == bucket(dm0, d));
            }
        }
    }
    assert forall|d: Seq<char>, k2: Seq<char>|
        dm1.contains_key(d) && #[trigger] dm1[d].contains(k2) implies wm1.contains_key(k2) by {
        if k2 != k {
            if vars.contains(d) {
                assert(dm1[d] == bucket(dm0, d).insert(k));
            } else {
                assert(dm1[d] == bucket(dm0, d));
            }
            assert(bucket(dm0, d).contains(k2));
            assert(dm0.contains_key(d) && dm0[d].contains(k2));
            assert(wm0.contains_key(k2));
        }
    }
}

} // verus!
