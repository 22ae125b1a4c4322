//! MDBList search results: the matches a title search returns, and how
//! they are pruned and ranked.

use crate::text::utf8;
use crate::web::{url_append_pair, header_bytes, HeaderError, RapidApiHeaders, rapidapi_headers, valid_header_value, pair_views, quoted, url_with_query, with_query};
use vstd::prelude::*;

verus! {

/// One search result of the MDBList API.
#[derive(Debug)]
pub struct Match {
    pub id: String,
    pub title: String,
    pub year: Option<u16>,
    pub score: i16,
    /// The `type` of the result ("movie", "show").
    pub kind: String,
    pub imdbid: Option<String>,
    pub traktid: u64,
}

/// The value of a `Match`, with its strings as character sequences.
pub struct MatchView {
    pub id: Seq<char>,
    pub title: Seq<char>,
    pub year: Option<u16>,
    pub score: i16,
    pub kind: Seq<char>,
    pub imdbid: Option<Seq<char>>,
    pub traktid: u64,
}

/// An optional string as an optional character sequence.
pub open spec fn opt_str_view(o: Option<String>) -> Option<Seq<char>> {
    match o {
        Some(s) => Some(s@),
        None => None,
    }
}

impl View for Match {
    type V = MatchView;

    open spec fn view(&self) -> MatchView {
        MatchView {
            id: self.id@,
            title: self.title@,
            year: self.year,
            score: self.score,
            kind: self.kind@,
            imdbid: opt_str_view(self.imdbid),
            traktid: self.traktid,
        }
    }
}

fn clone_opt_string(o: &Option<String>) -> (r: Option<String>)
    ensures
        opt_str_view(r) == opt_str_view(*o),
{
    match o {
        Some(s) => Some(s.clone()),
        None => None,
    }
}

impl Match {
    /// A copy of this match.
    pub fn duplicate(&self) -> (m: Match)
        ensures
            m@ == self@,
    {
        Match {
            id: self.id.clone(),
            title: self.title.clone(),
            year: self.year,
            score: self.score,
            kind: self.kind.clone(),
            imdbid: clone_opt_string(&self.imdbid),
            traktid: self.traktid,
        }
    }
}

/// A match that `prune` keeps: it has a year, an IMDb id and a positive score.
pub open spec fn worth_keeping(m: MatchView) -> bool {
    m.year is Some && m.imdbid is Some && m.score > 0
}

/// `worth_keeping` as a predicate value.
pub open spec fn keep_pred() -> spec_fn(MatchView) -> bool {
    |m: MatchView| worth_keeping(m)
}

/// The predicate "has score `k`".
pub open spec fn score_is(k: i16) -> spec_fn(MatchView) -> bool {
    |m: MatchView| m.score == k
}

/// The matches of `s` with score `k`, in the order of `s`.
pub open spec fn with_score(s: Seq<MatchView>, k: i16) -> Seq<MatchView> {
    s.filter(score_is(k))
}

/// Scores never increase along `s`.
pub open spec fn descending_by_score(s: Seq<MatchView>) -> bool {
    forall|i: int, j: int| 0 <= i < j < s.len() ==> #[trigger] s[i].score >= #[trigger] s[j].score
}

/// `r` is `s` stably sorted by descending score: scores never increase
/// along `r`, and for every score the matches with that score are those of
/// `s`, in the order of `s`.
pub open spec fn stably_ranked(r: Seq<MatchView>, s: Seq<MatchView>) -> bool {
    &&& descending_by_score(r)
    &&& forall|k: i16| #[trigger] with_score(r, k) == with_score(s, k)
}

/// `with_score` of a concatenation.
proof fn lemma_with_score_add(a: Seq<MatchView>, b: Seq<MatchView>, k: i16)
    ensures
        with_score(a + b, k) == with_score(a, k) + with_score(b, k),
{
    Seq::filter_distributes_over_add(a, b, score_is(k));
}

/// No match of `s` has score `k`.
proof fn lemma_with_score_none(s: Seq<MatchView>, k: i16)
    requires
        forall|i: int| 0 <= i < s.len() ==> #[trigger] s[i].score != k,
    ensures
        with_score(s, k) == Seq::<MatchView>::empty(),
    decreases s.len(),
{
    reveal(Seq::filter);
    if s.len() > 0 {
        lemma_with_score_none(s.drop_last(), k);
    }
}

/// `with_score` of a sequence that starts with `x`.
proof fn lemma_with_score_cons(x: MatchView, rest: Seq<MatchView>, k: i16)
    ensures
        with_score(seq![x] + rest, k) == if x.score == k {
            seq![x] + with_score(rest, k)
        } else {
            with_score(rest, k)
        },
{
    lemma_with_score_add(seq![x], rest, k);
    reveal(Seq::filter);
    assert(seq![x].drop_last() =~= Seq::<MatchView>::empty());
    assert(Seq::<MatchView>::empty().filter(score_is(k)) =~= Seq::<MatchView>::empty());
    if x.score == k {
        assert(with_score(seq![x], k) =~= seq![x]);
    } else {
        assert(with_score(seq![x], k) =~= Seq::<MatchView>::empty());
        assert(Seq::<MatchView>::empty() + with_score(rest, k) =~= with_score(rest, k));
    }
}

/// Two sequences sorted by descending score that have, for every score,
/// the same matches with that score in the same order, are equal.
proof fn lemma_same_groups_equal(r1: Seq<MatchView>, r2: Seq<MatchView>)
    requires
        descending_by_score(r1),
        descending_by_score(r2),
        forall|k: i16| #[trigger] with_score(r1, k) == with_score(r2, k),
    ensures
        r1 == r2,
    decreases r1.len(),
{
    if r1.len() == 0 || r2.len() == 0 {
        if r1.len() != r2.len() {
            let (full, empty) = if r1.len() == 0 { (r2, r1) } else { (r1, r2) };
            let k = full[0].score;
            assert(full =~= seq![full[0]] + full.drop_first());
            lemma_with_score_cons(full[0], full.drop_first(), k);
            lemma_with_score_none(empty, k);
            assert(with_score(full, k).len() > 0);
            assert(with_score(r1, k) == with_score(r2, k));
        } else {
            assert(r1 =~= r2);
        }
    } else {
        let a = r1[0];
        let b = r2[0];
        let t1 = r1.drop_first();
        let t2 = r2.drop_first();
        assert(r1 =~= seq![a] + t1);
        assert(r2 =~= seq![b] + t2);
        lemma_with_score_cons(a, t1, a.score);
        lemma_with_score_cons(b, t2, b.score);
        if a.score > b.score {
            lemma_with_score_none(r2, a.score);
            assert(with_score(r1, a.score) == with_score(r2, a.score));
            assert(false);
        }
        if b.score > a.score {
            lemma_with_score_none(r1, b.score);
            assert(with_score(r1, b.score) == with_score(r2, b.score));
            assert(false);
        }
        let k = a.score;
        assert(with_score(r1, k)[0] == a);
        assert(with_score(r1, k) == with_score(r2, k));
        assert(with_score(r2, k)[0] == b);
        assert forall|j: i16| #[trigger] with_score(t1, j) == with_score(t2, j) by {
            lemma_with_score_cons(a, t1, j);
            lemma_with_score_cons(b, t2, j);
            assert(with_score(r1, j) == with_score(r2, j));
            if j == k {
                assert(with_score(t1, j) =~= with_score(r1, j).drop_first());
                assert(with_score(t2, j) =~= with_score(r2, j).drop_first());
            }
        };
        assert(descending_by_score(t1)) by {
            assert forall|x: int, y: int| 0 <= x < y < t1.len() implies #[trigger] t1[x].score >= #[trigger] t1[y].score by {
                assert(r1[x + 1].score >= r1[y + 1].score);
            };
        };
        assert(descending_by_score(t2)) by {
            assert forall|x: int, y: int| 0 <= x < y < t2.len() implies #[trigger] t2[x].score >= #[trigger] t2[y].score by {
                assert(r2[x + 1].score >= r2[y + 1].score);
            };
        };
        lemma_same_groups_equal(t1, t2);
    }
}

/// The ranking that `prune` promises is one sequence: two stable rankings
/// by descending score of the same matches are equal.
pub proof fn lemma_stably_ranked_unique(r1: Seq<MatchView>, r2: Seq<MatchView>, s: Seq<MatchView>)
    requires
        stably_ranked(r1, s),
        stably_ranked(r2, s),
    ensures
        r1 == r2,
{
    assert forall|k: i16| #[trigger] with_score(r1, k) == with_score(r2, k) by {
        assert(with_score(r1, k) == with_score(s, k));
        assert(with_score(r2, k) == with_score(s, k));
    };
    lemma_same_groups_equal(r1, r2);
}

/// How often `x` occurs in `s` is how often it occurs among the matches of
/// `s` with its score.
proof fn lemma_count_in_group(s: Seq<MatchView>, x: MatchView)
    ensures
        s.to_multiset().count(x) == with_score(s, x.score).to_multiset().count(x),
    decreases s.len(),
{
    broadcast use vstd::seq_lib::group_to_multiset_ensures;

    reveal(Seq::filter);
    if s.len() == 0 {
        assert(with_score(s, x.score) =~= Seq::<MatchView>::empty());
    } else {
        let init = s.drop_last();
        lemma_count_in_group(init, x);
        assert(s =~= init.push(s.last()));
        init.lemma_filter_push(s.last(), score_is(x.score));
    }
}

/// A stable ranking of matches holds the same matches, each as often.
pub proof fn lemma_stably_ranked_permutation(r: Seq<MatchView>, s: Seq<MatchView>)
    requires
        stably_ranked(r, s),
    ensures
        r.to_multiset() == s.to_multiset(),
{
    assert forall|x: MatchView| #[trigger] r.to_multiset().count(x) == s.to_multiset().count(x) by {
        lemma_count_in_group(r, x);
        lemma_count_in_group(s, x);
        assert(with_score(r, x.score) == with_score(s, x.score));
    };
    assert(r.to_multiset() =~= s.to_multiset());
}

/// Each match that `prune` gives is one worth keeping.
pub proof fn lemma_pruned_worth_keeping(r: Seq<MatchView>, input: Seq<MatchView>)
    requires
        stably_ranked(r, input.filter(keep_pred())),
    ensures
        forall|i: int| 0 <= i < r.len() ==> worth_keeping(#[trigger] r[i]),
{
    broadcast use vstd::seq_lib::group_to_multiset_ensures;

    lemma_stably_ranked_permutation(r, input.filter(keep_pred()));
    assert forall|i: int| 0 <= i < r.len() implies worth_keeping(#[trigger] r[i]) by {
        assert(r.contains(r[i]));
        assert(r.to_multiset().count(r[i]) > 0);
        assert(input.filter(keep_pred()).to_multiset().count(r[i]) > 0);
        assert(input.filter(keep_pred()).contains(r[i]));
        let j = choose|j: int| 0 <= j < input.filter(keep_pred()).len() && input.filter(keep_pred())[j] == r[i];
        input.lemma_filter_pred(keep_pred(), j);
    };
}

/// Filtering a sequence by a predicate that all its elements meet leaves it
/// as it is.
proof fn lemma_filter_all(s: Seq<MatchView>)
    requires
        forall|i: int| 0 <= i < s.len() ==> worth_keeping(#[trigger] s[i]),
    ensures
        s.filter(keep_pred()) == s,
    decreases s.len(),
{
    reveal(Seq::filter);
    if s.len() > 0 {
        let init = s.drop_last();
        assert forall|i: int| 0 <= i < init.len() implies worth_keeping(#[trigger] init[i]) by {
            assert(init[i] == s[i]);
        };
        lemma_filter_all(init);
        assert(worth_keeping(s[s.len() - 1]));
        assert(s =~= init.push(s.last()));
    }
}

/// Pruning what `prune` gave gives it back unchanged.
pub proof fn lemma_prune_idempotent(r: Seq<MatchView>, input: Seq<MatchView>)
    requires
        stably_ranked(r, input.filter(keep_pred())),
    ensures
        stably_ranked(r, r.filter(keep_pred())),
{
    lemma_pruned_worth_keeping(r, input);
    lemma_filter_all(r);
}

/// Two sequences sorted by descending score that have, for every score,
/// as many matches with that score, have the same scores in the same order.
proof fn lemma_same_score_counts(r1: Seq<MatchView>, r2: Seq<MatchView>)
    requires
        descending_by_score(r1),
        descending_by_score(r2),
        forall|k: i16| #[trigger] with_score(r1, k).len() == with_score(r2, k).len(),
    ensures
        r1.len() == r2.len(),
        forall|i: int| 0 <= i < r1.len() ==> #[trigger] r1[i].score == r2[i].score,
    decreases r1.len(),
{
    if r1.len() == 0 || r2.len() == 0 {
        if r1.len() != r2.len() {
            let (full, empty) = if r1.len() == 0 { (r2, r1) } else { (r1, r2) };
            let k = full[0].score;
            assert(full =~= seq![full[0]] + full.drop_first());
            lemma_with_score_cons(full[0], full.drop_first(), k);
            lemma_with_score_none(empty, k);
            assert(with_score(r1, k).len() == with_score(r2, k).len());
        }
    } else {
        let a = r1[0];
        let b = r2[0];
        let t1 = r1.drop_first();
        let t2 = r2.drop_first();
        assert(r1 =~= seq![a] + t1);
        assert(r2 =~= seq![b] + t2);
        lemma_with_score_cons(a, t1, a.score);
        lemma_with_score_cons(b, t2, b.score);
        if a.score > b.score {
            lemma_with_score_none(r2, a.score);
            assert(with_score(r1, a.score).len() == with_score(r2, a.score).len());
            assert(false);
        }
        if b.score > a.score {
            lemma_with_score_none(r1, b.score);
            assert(with_score(r1, b.score).len() == with_score(r2, b.score).len());
            assert(false);
        }
        assert forall|j: i16| #[trigger] with_score(t1, j).len() == with_score(t2, j).len() by {
            lemma_with_score_cons(a, t1, j);
            lemma_with_score_cons(b, t2, j);
            assert(with_score(r1, j).len() == with_score(r2, j).len());
        };
        assert(descending_by_score(t1)) by {
            assert forall|x: int, y: int| 0 <= x < y < t1.len() implies #[trigger] t1[x].score >= #[trigger] t1[y].score by {
                assert(r1[x + 1].score >= r1[y + 1].score);
            };
        };
        assert(descending_by_score(t2)) by {
            assert forall|x: int, y: int| 0 <= x < y < t2.len() implies #[trigger] t2[x].score >= #[trigger] t2[y].score by {
                assert(r2[x + 1].score >= r2[y + 1].score);
            };
        };
        lemma_same_score_counts(t1, t2);
        assert forall|i: int| 0 <= i < r1.len() implies #[trigger] r1[i].score == r2[i].score by {
            if i > 0 {
                assert(r1[i] == t1[i - 1]);
                assert(r2[i] == t2[i - 1]);
            }
        };
    }
}

/// How often an element occurs in a filtered sequence: as often as in the
/// sequence where it meets the predicate, else never.
proof fn lemma_filter_count(s: Seq<MatchView>, p: spec_fn(MatchView) -> bool, x: MatchView)
    ensures
        s.filter(p).to_multiset().count(x) == if p(x) {
            s.to_multiset().count(x)
        } else {
            0
        },
    decreases s.len(),
{
    broadcast use vstd::seq_lib::group_to_multiset_ensures;

    reveal(Seq::filter);
    if s.len() == 0 {
        assert(s.filter(p) =~= Seq::<MatchView>::empty());
    } else {
        let init = s.drop_last();
        lemma_filter_count(init, p, x);
        assert(s =~= init.push(s.last()));
        init.lemma_filter_push(s.last(), p);
    }
}

/// Filtering sequences that hold the same elements as often gives
/// sequences that hold the same elements as often.
proof fn lemma_filter_permutation(s1: Seq<MatchView>, s2: Seq<MatchView>, p: spec_fn(MatchView) -> bool)
    requires
        s1.to_multiset() == s2.to_multiset(),
    ensures
        s1.filter(p).to_multiset() == s2.filter(p).to_multiset(),
{
    assert forall|x: MatchView| #[trigger] s1.filter(p).to_multiset().count(x) == s2.filter(p).to_multiset().count(x) by {
        lemma_filter_count(s1, p, x);
        lemma_filter_count(s2, p, x);
    };
    assert(s1.filter(p).to_multiset() =~= s2.filter(p).to_multiset());
}

/// Pruning a permutation of the results gives a permutation of what
/// pruning the results gives, with the same scores in the same order: the
/// order of the input only decides the order among equal scores.
pub proof fn lemma_prune_permuted_input(
    input1: Seq<MatchView>,
    input2: Seq<MatchView>,
    r1: Seq<MatchView>,
    r2: Seq<MatchView>,
)
    requires
        input1.to_multiset() == input2.to_multiset(),
        stably_ranked(r1, input1.filter(keep_pred())),
        stably_ranked(r2, input2.filter(keep_pred())),
    ensures
        r1.to_multiset() == r2.to_multiset(),
        r1.len() == r2.len(),
        forall|i: int| 0 <= i < r1.len() ==> #[trigger] r1[i].score == r2[i].score,
{
    broadcast use vstd::seq_lib::group_to_multiset_ensures;

    lemma_filter_permutation(input1, input2, keep_pred());
    lemma_stably_ranked_permutation(r1, input1.filter(keep_pred()));
    lemma_stably_ranked_permutation(r2, input2.filter(keep_pred()));
    assert forall|k: i16| #[trigger] with_score(r1, k).len() == with_score(r2, k).len() by {
        lemma_filter_permutation(r1, r2, score_is(k));
        assert(with_score(r1, k).to_multiset().len() == with_score(r2, k).to_multiset().len());
    };
    lemma_same_score_counts(r1, r2);
}

/// What `prune` keeps, said of the match's fields: a match is among the
/// results exactly when it is among the input and has a year (any year), an
/// IMDb id and a positive score; and the scores of the results never
/// increase.
pub proof fn lemma_prune_keeps_exactly(r: Seq<MatchView>, input: Seq<MatchView>)
    requires
        stably_ranked(r, input.filter(keep_pred())),
    ensures
        forall|x: MatchView| #[trigger] r.contains(x) <==> (input.contains(x) && x.year is Some && x.imdbid is Some && x.score > 0),
        forall|i: int, j: int| 0 <= i < j < r.len() ==> #[trigger] r[i].score >= #[trigger] r[j].score,
{
    broadcast use vstd::seq_lib::group_to_multiset_ensures;

    let kept = input.filter(keep_pred());
    lemma_stably_ranked_permutation(r, kept);
    assert forall|x: MatchView| #[trigger] r.contains(x) <==> (input.contains(x) && x.year is Some && x.imdbid is Some && x.score > 0) by {
        assert(r.contains(x) <==> r.to_multiset().count(x) > 0);
        assert(kept.contains(x) <==> kept.to_multiset().count(x) > 0);
        if kept.contains(x) {
            input.lemma_filter_contains_rev(keep_pred(), x);
            let j = choose|j: int| 0 <= j < kept.len() && kept[j] == x;
            input.lemma_filter_pred(keep_pred(), j);
        }
        if input.contains(x) && x.year is Some && x.imdbid is Some && x.score > 0 {
            let i = choose|i: int| 0 <= i < input.len() && input[i] == x;
            input.lemma_filter_contains(keep_pred(), i);
        }
    };
}

/// The values of a sequence of matches.
pub open spec fn match_views(s: Seq<Match>) -> Seq<MatchView> {
    s.map_values(|m: Match| m@)
}

/// Keeps the matches that have a year, an IMDb id and a positive score,
/// ranked by descending score; matches with equal scores keep their order.
pub fn prune(results: &[Match]) -> (rv: Vec<Match>)
    ensures
        stably_ranked(rv@.map_values(|m: Match| m@), results@.map_values(|m: Match| m@).filter(keep_pred())),
        // kept exactly: present year (any year), present IMDb id, positive score
        forall|x: MatchView| #[trigger] match_views(rv@).contains(x) <==> (match_views(results@).contains(x)
            && x.year is Some && x.imdbid is Some && x.score > 0),
        forall|i: int, j: int| 0 <= i < j < rv@.len() ==> #[trigger] rv@[i].score >= #[trigger] rv@[j].score,
{
    let ghost input = results@.map_values(|m: Match| m@);
    let mut rv: Vec<Match> = Vec::new();
    let n = results.len();
    let mut i: usize = 0;
    proof {
        reveal(Seq::filter);
        assert(input.take(0).filter(keep_pred()) =~= Seq::<MatchView>::empty());
        assert(rv@.map_values(|m: Match| m@) =~= Seq::<MatchView>::empty());
    }
    while i < n
        invariant
            n == results@.len(),
            input == results@.map_values(|m: Match| m@),
            i <= n,
            stably_ranked(rv@.map_values(|m: Match| m@), input.take(i as int).filter(keep_pred())),
        decreases n - i,
    {
        let ghost before = rv@.map_values(|m: Match| m@);
        let ghost kept_before = input.take(i as int).filter(keep_pred());
        proof {
            assert(input.take(i + 1) =~= input.take(i as int).push(input[i as int]));
            input.take(i as int).lemma_filter_push(input[i as int], keep_pred());
        }
        let m = &results[i];
        if m.year.is_some() && m.imdbid.is_some() && m.score > 0 {
            // the place after every kept match with a score at least this one's
            let mut p: usize = rv.len();
            while p > 0 && rv[p - 1].score < m.score
                invariant
                    p <= rv@.len(),
                    before == rv@.map_values(|m: Match| m@),
                    forall|j: int| p <= j < rv@.len() ==> #[trigger] before[j].score < m.score,
                decreases p,
            {
                p = p - 1;
            }
            let ghost mv = m@;
            rv.insert(p, m.duplicate());
            proof {
                let after = rv@.map_values(|m: Match| m@);
                let left = before.take(p as int);
                let right = before.skip(p as int);
                assert(after =~= left + seq![mv] + right);
                assert(before =~= left + right);
                assert(forall|j: int| 0 <= j < p ==> #[trigger] before[j].score >= mv.score) by {
                    if p > 0 {
                        assert(before[p - 1].score >= mv.score);
                    }
                };
                assert forall|x: int, y: int| 0 <= x < y < after.len() implies
                    #[trigger] after[x].score >= #[trigger] after[y].score by {
                    if x < p && y > p {
                        assert(after[x] == before[x]);
                        assert(after[y] == before[y - 1]);
                    } else if x > p {
                        assert(after[x] == before[x - 1]);
                        assert(after[y] == before[y - 1]);
                    } else if y < p {
                        assert(after[x] == before[x]);
                    } else if x == p {
                        assert(after[y] == before[y - 1]);
                    } else {
                        assert(after[x] == before[x]);
                    }
                };
                assert forall|k: i16| #[trigger] with_score(after, k) == with_score(
                    input.take(i + 1).filter(keep_pred()),
                    k,
                ) by {
                    lemma_with_score_add(left + seq![mv], right, k);
                    lemma_with_score_add(left, seq![mv], k);
                    lemma_with_score_add(left, right, k);
                    lemma_with_score_add(kept_before, seq![mv], k);
                    assert(kept_before.push(mv) =~= kept_before + seq![mv]);
                    if k == mv.score {
                        lemma_with_score_none(right, k);
                        assert(right + Seq::<MatchView>::empty() =~= right);
                    } else {
                        lemma_with_score_none(seq![mv], k);
                    }
                    assert(with_score(left, k) + Seq::<MatchView>::empty() =~= with_score(left, k));
                    assert(with_score(kept_before, k) + Seq::<MatchView>::empty() =~= with_score(kept_before, k));
                };
            }
        }
        i = i + 1;
    }
    proof {
        assert(input.take(n as int) =~= input);
        lemma_prune_keeps_exactly(rv@.map_values(|m: Match| m@), input);
        assert(match_views(rv@) == rv@.map_values(|m: Match| m@));
        assert(match_views(results@) == input);
        assert forall|i: int, j: int| 0 <= i < j < rv@.len() implies #[trigger] rv@[i].score >= #[trigger] rv@[j].score by {
            assert(rv@.map_values(|m: Match| m@)[i].score == rv@[i].score);
            assert(rv@.map_values(|m: Match| m@)[j].score == rv@[j].score);
        };
    }
    rv
}

/// The host of the MDBList API on RapidAPI.
pub fn api_host() -> (host: &'static str)
    ensures
        host@ == "mdblist.p.rapidapi.com"@,
{
    "mdblist.p.rapidapi.com"
}

/// The query of a search for movies titled `title`: the title in double
/// quotes as `s`, and `m=movie`.
pub open spec fn search_query(title: Seq<char>) -> Seq<(Seq<char>, Seq<char>)> {
    seq![("s"@, seq!['"'] + title + seq!['"']), ("m"@, "movie"@)]
}

/// The search URL of every title sends the title between double quotes as
/// `s`, then `m=movie`: the query of a title is its two pairs, the second
/// the same for any two titles, and the URL is the base with those two
/// pairs appended in that order.
pub proof fn lemma_search_url_query(title: Seq<char>)
    ensures
        forall|other: Seq<char>| #[trigger] search_query(other).drop_first() == search_query(title).drop_first(),
        search_query(title).len() == 2,
        search_query(title)[0] == ("s"@, seq!['"'] + title + seq!['"']),
        search_query(title)[1] == ("m"@, "movie"@),
        url_with_query("https://mdblist.p.rapidapi.com/"@, search_query(title)) == match url_append_pair("https://mdblist.p.rapidapi.com/"@, "s"@, seq!['"'] + title + seq!['"']) {
            Some(u1) => url_append_pair(u1, "m"@, "movie"@),
            None => None,
        },
{
    assert forall|other: Seq<char>| #[trigger] search_query(other).drop_first() == search_query(title).drop_first() by {
        assert(search_query(other).drop_first() =~= search_query(title).drop_first());
    };
    let base = "https://mdblist.p.rapidapi.com/"@;
    let q = search_query(title);
    assert(q.drop_last().drop_last() =~= Seq::<(Seq<char>, Seq<char>)>::empty());
    assert(q.drop_last() =~= seq![("s"@, seq!['"'] + title + seq!['"'])]);
    assert(url_with_query(base, q.drop_last().drop_last()) == Some(base));
    assert(url_with_query(base, q.drop_last()) == url_append_pair(base, "s"@, seq!['"'] + title + seq!['"']));
}

/// The URL of a search for movies titled `title`:
/// `https://mdblist.p.rapidapi.com/` with the search query appended;
/// nothing where the URL does not parse.
pub fn search_url(title: &str) -> (r: Option<String>)
    ensures
        r is Some <==> url_with_query("https://mdblist.p.rapidapi.com/"@, search_query(title@)) is Some,
        r matches Some(u) ==> url_with_query("https://mdblist.p.rapidapi.com/"@, search_query(title@)) == Some(u@),
        // the query is `s` = the title in double quotes, then `m=movie`, for every title
        r matches Some(u) ==> match url_append_pair("https://mdblist.p.rapidapi.com/"@, "s"@, seq!['"'] + title@ + seq!['"']) {
            Some(u1) => url_append_pair(u1, "m"@, "movie"@) == Some(u@),
            None => false,
        },
        r is None ==> match url_append_pair("https://mdblist.p.rapidapi.com/"@, "s"@, seq!['"'] + title@ + seq!['"']) {
            Some(u1) => url_append_pair(u1, "m"@, "movie"@) is None,
            None => true,
        },
{
    proof {
        lemma_search_url_query(title@);
    }
    let base = "https://mdblist.p.rapidapi.com/";
    let q = quoted(title);
    let pairs = vec![("s", q.as_str()), ("m", "movie")];
    proof {
        assert(pair_views(pairs@) =~= search_query(title@));
    }
    with_query(base, pairs.as_slice())
}

/// The headers a MDBList client sends with each request:
/// `x-rapidapi-host: mdblist.p.rapidapi.com` and `x-rapidapi-key: api_key`; an
/// error where a value has a byte not allowed in a header value.
pub fn client_headers(api_key: &str) -> (r: Result<RapidApiHeaders, HeaderError>)
    ensures
        r is Ok <==> valid_header_value("mdblist.p.rapidapi.com"@) && valid_header_value(api_key@),
        r matches Ok(h) ==> header_bytes(h.host) == utf8("mdblist.p.rapidapi.com"@) && header_bytes(h.key) == utf8(api_key@),
        r == Err::<RapidApiHeaders, HeaderError>(HeaderError::InvalidHost) <==> !valid_header_value("mdblist.p.rapidapi.com"@),
        r == Err::<RapidApiHeaders, HeaderError>(HeaderError::InvalidApiKey) <==> valid_header_value("mdblist.p.rapidapi.com"@) && !valid_header_value(api_key@),
{
    rapidapi_headers(api_host(), api_key)
}

} // verus!
