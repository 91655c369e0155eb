//! Term counts of a document: how many times each token occurs in it.

use vstd::prelude::*;
use vstd::hash_map::StringHashMap;
use crate::lex::{lemma_tokens_len, tokens, Lexer};
use crate::text::{chars_of, string_from_chars, string_views};

verus! {

/// How many times `t` occurs in `ts`.
pub open spec fn occurrences(ts: Seq<Seq<char>>, t: Seq<char>) -> nat
    decreases ts.len(),
{
    if ts.len() == 0 {
        0
    } else {
        occurrences(ts.drop_last(), t) + if ts.last() == t {
            1nat
        } else {
            0nat
        }
    }
}

/// A token that does not occur in `ts` is counted 0 times there.
pub proof fn lemma_occurrences_absent(ts: Seq<Seq<char>>, t: Seq<char>)
    requires
        !ts.contains(t),
    ensures
        occurrences(ts, t) == 0,
    decreases ts.len(),
{
    if ts.len() > 0 {
        assert(ts.last() == ts[ts.len() - 1]);
        assert(!ts.drop_last().contains(t)) by {
            if ts.drop_last().contains(t) {
                let j = choose|j: int| 0 <= j < ts.drop_last().len() && ts.drop_last()[j] == t;
                assert(ts[j] == t);
            }
        }
        lemma_occurrences_absent(ts.drop_last(), t);
    }
}

/// A token occurs in `ts` at most as many times as `ts` has tokens.
pub proof fn lemma_occurrences_bound(ts: Seq<Seq<char>>, t: Seq<char>)
    ensures
        occurrences(ts, t) <= ts.len(),
    decreases ts.len(),
{
    if ts.len() > 0 {
        lemma_occurrences_bound(ts.drop_last(), t);
    }
}

/// The term counts of a token sequence: each token that occurs, with the
/// number of times it occurs.
pub open spec fn token_counts(ts: Seq<Seq<char>>) -> Map<Seq<char>, u32> {
    Map::new(|t: Seq<char>| ts.contains(t), |t: Seq<char>| occurrences(ts, t) as u32)
}

/// A token that occurs in `ts` is counted at least once there.
pub proof fn lemma_occurrences_present(ts: Seq<Seq<char>>, t: Seq<char>)
    requires
        ts.contains(t),
    ensures
        occurrences(ts, t) >= 1,
    decreases ts.len(),
{
    if ts.last() != t {
        let j = choose|j: int| 0 <= j < ts.len() && ts[j] == t;
        assert(j != ts.len() - 1);
        assert(ts.drop_last()[j] == t);
        lemma_occurrences_present(ts.drop_last(), t);
    }
}

/// The term counts of a token sequence hold exactly its tokens, each counted
/// at least once and at most as often as there are tokens.
pub proof fn lemma_token_counts(ts: Seq<Seq<char>>)
    ensures
        forall|t: Seq<char>| #[trigger] token_counts(ts).contains_key(t) <==> ts.contains(t),
        ts.len() <= u32::MAX ==> forall|t: Seq<char>|
            #[trigger] token_counts(ts).contains_key(t) ==> 1 <= token_counts(ts)[t] <= ts.len(),
{
    assert forall|t: Seq<char>| #[trigger] token_counts(ts).contains_key(t) && ts.len() <= u32::MAX
        implies 1 <= token_counts(ts)[t] <= ts.len() by {
        lemma_occurrences_present(ts, t);
        lemma_occurrences_bound(ts, t);
    }
}

/// `m` holds exactly the tokens of `ts`, each with the number of times it occurs.
pub open spec fn counts_tokens(m: Map<Seq<char>, u32>, ts: Seq<Seq<char>>) -> bool {
    &&& forall|t: Seq<char>| m.contains_key(t) <==> ts.contains(t)
    &&& forall|t: Seq<char>| #[trigger] m.contains_key(t) ==> m[t] == occurrences(ts, t)
}

/// The sum of the values that `m` gives the keys of `keys`.
pub open spec fn sum_over(keys: Seq<Seq<char>>, m: Map<Seq<char>, u32>) -> int
    decreases keys.len(),
{
    if keys.len() == 0 {
        0
    } else {
        sum_over(keys.drop_last(), m) + m[keys.last()]
    }
}

proof fn lemma_sum_over_other_key(keys: Seq<Seq<char>>, m: Map<Seq<char>, u32>, k: Seq<char>, v: u32)
    requires
        !keys.contains(k),
    ensures
        sum_over(keys, m.insert(k, v)) == sum_over(keys, m),
    decreases keys.len(),
{
    if keys.len() > 0 {
        assert(!keys.drop_last().contains(k)) by {
            if keys.drop_last().contains(k) {
                let j = choose|j: int| 0 <= j < keys.drop_last().len() && keys.drop_last()[j] == k;
                assert(keys[j] == k);
            }
        }
        assert(keys.last() != k) by {
            assert(keys[keys.len() - 1] == keys.last());
        }
        lemma_sum_over_other_key(keys.drop_last(), m, k, v);
    }
}

proof fn lemma_sum_over_bump(keys: Seq<Seq<char>>, m: Map<Seq<char>, u32>, k: Seq<char>, v: u32)
    requires
        keys.no_duplicates(),
        keys.contains(k),
        v == m[k] + 1,
    ensures
        sum_over(keys, m.insert(k, v)) == sum_over(keys, m) + 1,
    decreases keys.len(),
{
    let init = keys.drop_last();
    if keys.last() == k {
        assert(!init.contains(k)) by {
            if init.contains(k) {
                let j = choose|j: int| 0 <= j < init.len() && init[j] == k;
                assert(keys[j] == keys[keys.len() - 1]);
            }
        }
        lemma_sum_over_other_key(init, m, k, v);
    } else {
        assert(init.contains(k)) by {
            let j = choose|j: int| 0 <= j < keys.len() && keys[j] == k;
            assert(j != keys.len() - 1);
            assert(init[j] == k);
        }
        assert(init.no_duplicates()) by {
            assert forall|a: int, b: int| 0 <= a < init.len() && 0 <= b < init.len() && a != b
                implies init[a] != init[b] by {
                assert(keys[a] == init[a] && keys[b] == init[b]);
            }
        }
        lemma_sum_over_bump(init, m, k, v);
    }
}

proof fn lemma_sum_over_bounds(keys: Seq<Seq<char>>, m: Map<Seq<char>, u32>, k: Seq<char>)
    requires
        keys.contains(k),
    ensures
        m[k] <= sum_over(keys, m),
    decreases keys.len(),
{
    lemma_sum_over_nonneg(keys.drop_last(), m);
    if keys.last() != k {
        let j = choose|j: int| 0 <= j < keys.len() && keys[j] == k;
        assert(j != keys.len() - 1);
        assert(keys.drop_last()[j] == k);
        lemma_sum_over_bounds(keys.drop_last(), m, k);
    }
}

proof fn lemma_sum_over_nonneg(keys: Seq<Seq<char>>, m: Map<Seq<char>, u32>)
    ensures
        0 <= sum_over(keys, m),
    decreases keys.len(),
{
    if keys.len() > 0 {
        lemma_sum_over_nonneg(keys.drop_last(), m);
    }
}

/// The term counts of one document.
pub struct TermCounts {
    counts: StringHashMap<u32>,
    terms: Vec<String>,
    total: u32,
}

impl View for TermCounts {
    type V = Map<Seq<char>, u32>;

    closed spec fn view(&self) -> Map<Seq<char>, u32> {
        self.counts@
    }
}

impl TermCounts {
    /// Every term is listed once, every listed term is counted at least once,
    /// and the total is the sum of the counts.
    pub closed spec fn wf(&self) -> bool {
        let keys = string_views(self.terms@);
        &&& keys.no_duplicates()
        &&& forall|t: Seq<char>| self.counts@.contains_key(t) <==> keys.contains(t)
        &&& forall|t: Seq<char>| #[trigger] self.counts@.contains_key(t) ==> self.counts@[t] >= 1
        &&& sum_over(keys, self.counts@) == self.total
    }

    /// The number of tokens counted, all terms together.
    pub closed spec fn total_spec(&self) -> nat {
        self.total as nat
    }

    /// The counted terms, each once, in the order they were first counted.
    pub closed spec fn terms_spec(&self) -> Seq<Seq<char>> {
        string_views(self.terms@)
    }

    /// The total is the sum of the counts, taken over the counted terms,
    /// which are exactly the keys of the counts, each listed once.
    pub proof fn lemma_total_is_sum_of_counts(&self)
        requires
            self.wf(),
        ensures
            self.terms_spec().no_duplicates(),
            forall|t: Seq<char>| #[trigger] self@.contains_key(t) <==> self.terms_spec().contains(t),
            self.total_spec() == sum_over(self.terms_spec(), self@),
    {
    }

    /// No term counted yet.
    pub fn new() -> (res: Self)
        ensures
            res.wf(),
            res@ == Map::<Seq<char>, u32>::empty(),
            res.total_spec() == 0,
    {
        let res = TermCounts { counts: StringHashMap::new(), terms: Vec::new(), total: 0 };
        assert(string_views(res.terms@) =~= Seq::<Seq<char>>::empty());
        res
    }

    /// Counts one more occurrence of `term`.
    pub fn add(&mut self, term: String)
        requires
            old(self).wf(),
            old(self).total_spec() < u32::MAX,
        ensures
            final(self).wf(),
            final(self)@ == old(self)@.insert(term@, final(self)@[term@]),
            final(self)@[term@] == if old(self)@.contains_key(term@) {
                old(self)@[term@] + 1
            } else {
                1
            },
            final(self).total_spec() == old(self).total_spec() + 1,
    {
        let ghost keys = string_views(self.terms@);
        let ghost m = self.counts@;
        match self.counts.get(term.as_str()) {
            Some(c) => {
                let c = *c;
                proof {
                    lemma_sum_over_bounds(keys, m, term@);
                    lemma_sum_over_bump(keys, m, term@, (c + 1) as u32);
                }
                self.counts.insert(term, c + 1);
            },
            None => {
                let ghost k = term@;
                self.terms.push(term.clone());
                self.counts.insert(term, 1);
                proof {
                    let nkeys = string_views(self.terms@);
                    assert(nkeys == keys.push(k));
                    assert(nkeys.drop_last() == keys);
                    lemma_sum_over_other_key(keys, m, k, 1u32);
                    assert forall|a: int, b: int| 0 <= a < nkeys.len() && 0 <= b < nkeys.len()
                        && a != b implies nkeys[a] != nkeys[b] by {
                        if a == nkeys.len() - 1 {
                            assert(keys.contains(nkeys[b]) ==> m.contains_key(nkeys[b]));
                            assert(nkeys[b] == keys[b]);
                        } else if b == nkeys.len() - 1 {
                            assert(nkeys[a] == keys[a]);
                        } else {
                            assert(nkeys[a] == keys[a] && nkeys[b] == keys[b]);
                        }
                    }
                    assert forall|t: Seq<char>| self.counts@.contains_key(t) <==> nkeys.contains(t) by {
                        if t == k {
                            assert(nkeys[nkeys.len() - 1] == k);
                        } else if keys.contains(t) {
                            assert(self.counts@.contains_key(t));
                assert(keys.contains(t));
                let j = choose|j: int| 0 <= j < keys.len() && keys[j] == t;
                            assert(nkeys[j] == t);
                        } else if nkeys.contains(t) {
                            let j = choose|j: int| 0 <= j < nkeys.len() && nkeys[j] == t;
                            assert(keys[j] == t);
                        }
                    }
                }
            },
        }
        self.total = self.total + 1;
    }

    /// How many times `term` was counted (0 when never).
    pub fn count(&self, term: &str) -> (res: u32)
        ensures
            res == (if self@.contains_key(term@) {
                self@[term@]
            } else {
                0u32
            }),
    {
        match self.counts.get(term) {
            Some(c) => *c,
            None => 0,
        }
    }

    /// Whether `term` was counted at least once.
    pub fn contains(&self, term: &str) -> (res: bool)
        ensures
            res == self@.contains_key(term@),
    {
        self.counts.contains_key(term)
    }

    /// The number of tokens counted, all terms together.
    pub fn total_words(&self) -> (res: u32)
        ensures
            res == self.total_spec(),
    {
        self.total
    }

    /// Each term with its count, each term once.
    pub fn entries(&self) -> (res: Vec<(String, u32)>)
        requires
            self.wf(),
        ensures
            lists_counts(entry_views(res@), self@),
    {
        let ghost keys = string_views(self.terms@);
        let mut res: Vec<(String, u32)> = Vec::new();
        let n = self.terms.len();
        for i in 0..n
            invariant
                self.wf(),
                keys == string_views(self.terms@),
                n == keys.len(),
                entry_views(res@).len() == i,
                forall|k: int| 0 <= k < i ==> (#[trigger] entry_views(res@)[k]) == (keys[k], self@[keys[k]]),
        {
            assert(keys.contains(keys[i as int]));
            let ghost prev = res@;
            let c = self.count(self.terms[i].as_str());
            res.push((self.terms[i].clone(), c));
            assert(entry_views(res@) =~= entry_views(prev).push((keys[i as int], self@[keys[i as int]])));
        }
        proof {
            let v = entry_views(res@);
            assert forall|i: int| 0 <= i < v.len() implies self@.contains_key((#[trigger] v[i]).0)
                && self@[v[i].0] == v[i].1 by {
                assert(v[i] == (keys[i], self@[keys[i]]));
                assert(keys.contains(keys[i]));
            }
            assert forall|t: Seq<char>| #[trigger] self@.contains_key(t) implies exists|i: int|
                0 <= i < v.len() && (#[trigger] v[i]).0 == t by {
                assert(self.counts@.contains_key(t));
                assert(keys.contains(t));
                let j = choose|j: int| 0 <= j < keys.len() && keys[j] == t;
                assert(v[j] == (keys[j], self@[keys[j]]));
            }
            assert forall|i: int, j: int| 0 <= i < v.len() && 0 <= j < v.len() && i != j implies (
            #[trigger] v[i]).0 != (#[trigger] v[j]).0 by {
                assert(v[i] == (keys[i], self@[keys[i]]));
                assert(v[j] == (keys[j], self@[keys[j]]));
            }
        }
        res
    }

    /// The number of distinct terms.
    pub fn len(&self) -> (res: usize)
        requires
            self.wf(),
        ensures
            res == self@.dom().len(),
    {
        proof {
            let keys = string_views(self.terms@);
            keys.unique_seq_to_set();
            assert(keys.to_set() =~= self@.dom());
        }
        self.terms.len()
    }
}

/// The views of `(term, count)` pairs.
pub open spec fn entry_views(v: Seq<(String, u32)>) -> Seq<(Seq<char>, u32)> {
    v.map_values(|e: (String, u32)| (e.0@, e.1))
}

/// The counts never grow from one entry to the next.
pub open spec fn by_count_descending(v: Seq<(Seq<char>, u32)>) -> bool {
    forall|i: int, j: int| 0 <= i < j < v.len() ==> (#[trigger] v[i]).1 >= (#[trigger] v[j]).1
}

/// `v` lists the terms of `m`, each once, with its count.
pub open spec fn lists_counts(v: Seq<(Seq<char>, u32)>, m: Map<Seq<char>, u32>) -> bool {
    &&& forall|i: int| 0 <= i < v.len() ==> m.contains_key((#[trigger] v[i]).0) && m[v[i].0] == v[i].1
    &&& forall|t: Seq<char>| #[trigger] m.contains_key(t) ==> exists|i: int| 0 <= i < v.len() && (#[trigger] v[i]).0 == t
    &&& forall|i: int, j: int| 0 <= i < v.len() && 0 <= j < v.len() && i != j ==> (#[trigger] v[i]).0 != (#[trigger] v[j]).0
}

/// The same entries, the most frequent terms first.
pub fn sort_by_count_descending(entries: &Vec<(String, u32)>) -> (res: Vec<(String, u32)>)
    ensures
        entry_views(res@).to_multiset() == entry_views(entries@).to_multiset(),
        by_count_descending(entry_views(res@)),
{
    let mut out: Vec<(String, u32)> = Vec::new();
    let n = entries.len();
    assert(entry_views(out@) =~= entry_views(entries@.take(0)));
    for i in 0..n
        invariant
            n == entries@.len(),
            entry_views(out@).to_multiset() == entry_views(entries@.take(i as int)).to_multiset(),
            by_count_descending(entry_views(out@)),
    {
        let c = entries[i].1;
        let e = (entries[i].0.clone(), c);
        let mut p: usize = 0;
        while p < out.len() && out[p].1 > c
            invariant
                p <= out@.len(),
                forall|k: int| 0 <= k < p ==> (#[trigger] out@[k]).1 > c,
            decreases out@.len() - p,
        {
            p += 1;
        }
        let ghost before = entry_views(out@);
        let ghost ev = (e.0@, e.1);
        out.insert(p, e);
        proof {
            assert(entry_views(out@) =~= before.insert(p as int, ev));
            assert(entries@.take(i + 1) == entries@.take(i as int).push(entries@[i as int]));
            assert(entry_views(entries@.take(i + 1)) =~= entry_views(entries@.take(i as int)).push(
                ev,
            ));
            vstd::seq_lib::to_multiset_insert(before, p as int, ev);
            vstd::seq_lib::to_multiset_build(entry_views(entries@.take(i as int)), ev);
            let v = entry_views(out@);
            assert forall|a: int, b: int| 0 <= a < b < v.len() implies (#[trigger] v[a]).1 >= (
            #[trigger] v[b]).1 by {
                if a < p && b < p {
                    assert(v[a] == before[a] && v[b] == before[b]);
                } else if a < p && b == p {
                    assert(v[a] == before[a]);
                    assert(out@[a].1 > c);
                } else if a < p {
                    assert(v[a] == before[a] && v[b] == before[b - 1]);
                } else if a == p {
                    assert(v[b] == before[b - 1]);
                    assert(before[p as int].1 <= c);
                    assert(before[p as int].1 >= before[b - 1].1 || b - 1 == p);
                } else {
                    assert(v[a] == before[a - 1] && v[b] == before[b - 1]);
                }
            }
        }
    }
    assert(entries@.take(n as int) == entries@);
    out
}

/// The term counts of `content`: each of its tokens with the number of times
/// it occurs.
pub fn hash_document(content: &str) -> (res: TermCounts)
    requires
        content@.len() <= u32::MAX,
    ensures
        res.wf(),
        res@ == token_counts(tokens(content@)),
        res.total_spec() == tokens(content@).len(),
{
    let chars = chars_of(content);
    let mut lexer = Lexer::new(chars.as_slice());
    let mut hashed_document = TermCounts::new();
    let ghost mut seen: Seq<Seq<char>> = Seq::empty();
    proof {
        lemma_tokens_len(content@);
    }
    loop
        invariant
            hashed_document.wf(),
            seen + tokens(lexer@) == tokens(content@),
            tokens(content@).len() <= u32::MAX,
            counts_tokens(hashed_document@, seen),
            hashed_document.total_spec() == seen.len(),
        ensures
            hashed_document.wf(),
            seen == tokens(content@),
            counts_tokens(hashed_document@, seen),
            hashed_document.total_spec() == seen.len(),
        decreases lexer@.len(),
    {
        let ghost before = lexer@;
        match lexer.next_token() {
            None => {
                assert(tokens(before) == Seq::<Seq<char>>::empty());
                assert(seen + tokens(before) == seen);
                break ;
            },
            Some(token) => {
                let word = string_from_chars(token);
                assert(tokens(before) == seq![word@] + tokens(lexer@));
                assert(seen + tokens(before) == seen.push(word@) + tokens(lexer@));
                let ghost old_m = hashed_document@;
                hashed_document.add(word);
                proof {
                    let ns = seen.push(word@);
                    assert(ns.drop_last() == seen);
                    assert forall|t: Seq<char>| hashed_document@.contains_key(t) <==> ns.contains(t) by {
                        if seen.contains(t) {
                            let j = choose|j: int| 0 <= j < seen.len() && seen[j] == t;
                            assert(ns[j] == t);
                        }
                        if ns.contains(t) && t != word@ {
                            let j = choose|j: int| 0 <= j < ns.len() && ns[j] == t;
                            assert(seen[j] == t);
                        }
                        if t == word@ {
                            assert(ns[ns.len() - 1] == t);
                        }
                    }
                    assert forall|t: Seq<char>| #[trigger] hashed_document@.contains_key(t)
                        implies hashed_document@[t] == occurrences(ns, t) by {
                        assert(ns.last() == word@);
                        assert(occurrences(ns, t) == occurrences(seen, t) + if word@ == t {
                            1nat
                        } else {
                            0nat
                        });
                        if t == word@ {
                            if old_m.contains_key(t) {
                                assert(old_m[t] == occurrences(seen, t));
                            } else {
                                lemma_occurrences_absent(seen, t);
                            }
                        } else {
                            assert(old_m.contains_key(t));
                            assert(old_m[t] == occurrences(seen, t));
                        }
                    }
                    seen = ns;
                }
            },
        }
    }
    proof {
        assert forall|t: Seq<char>| #[trigger] hashed_document@.contains_key(t) implies
            hashed_document@[t] == token_counts(seen)[t] by {
            lemma_occurrences_bound(seen, t);
        }
        assert(hashed_document@ =~= token_counts(seen));
    }
    hashed_document
}

} // verus!
