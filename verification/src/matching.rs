//! Ranking candidate strings against a query.
//!
//! Every candidate is scored against the query; `find_matches` keeps those
//! at or above a threshold and orders them by descending similarity with a
//! stable insertion sort, so candidates with equal scores keep their input
//! order; `find_best_match` returns the single best candidate, the earliest
//! one in input order on a tie.

use vstd::prelude::*;

use crate::distance::edit_dist;
use crate::distance::levenshtein_distance;
use crate::scoring::frac_eq;
use crate::scoring::frac_ge;
use crate::scoring::frac_gt;
use crate::scoring::lemma_similarity_range;
use crate::scoring::sim_den;
use crate::scoring::sim_num;
use crate::scoring::similarity_score;
use crate::scoring::Score;

verus! {

/// One ranked candidate: the word, its edit distance from the query, and the
/// similarity score derived from that distance.
#[derive(Debug)]
pub struct MatchResult {
    pub word: String,
    pub distance: usize,
    pub similarity: Score,
}

/// The mathematical content of a `MatchResult`.
pub ghost struct MatchView {
    pub word: Seq<char>,
    pub distance: nat,
    pub sim_num: int,
    pub sim_den: int,
}

impl View for MatchResult {
    type V = MatchView;

    open spec fn view(&self) -> MatchView {
        MatchView {
            word: self.word@,
            distance: self.distance as nat,
            sim_num: self.similarity.num as int,
            sim_den: self.similarity.den as int,
        }
    }
}

/// The record computed for candidate `w` against query `q`.
pub open spec fn match_of(q: Seq<char>, w: Seq<char>) -> MatchView {
    MatchView {
        word: w,
        distance: edit_dist(q, w),
        sim_num: sim_num(q, w),
        sim_den: sim_den(q, w),
    }
}

/// The records of all candidates, in input order.
pub open spec fn all_matches(q: Seq<char>, ws: Seq<Seq<char>>) -> Seq<MatchView> {
    ws.map_values(|w: Seq<char>| match_of(q, w))
}

/// Whether a record's score is at least the threshold `tn / td`.
pub open spec fn meets(m: MatchView, tn: int, td: int) -> bool {
    frac_ge(m.sim_num, m.sim_den, tn, td)
}

/// The predicate of [`meets`], as a value for filtering.
pub open spec fn meets_pred(tn: int, td: int) -> spec_fn(MatchView) -> bool {
    |m: MatchView| meets(m, tn, td)
}

/// The records that meet the threshold, still in input order.
pub open spec fn kept_matches(q: Seq<char>, ws: Seq<Seq<char>>, tn: int, td: int) -> Seq<
    MatchView,
> {
    all_matches(q, ws).filter(meets_pred(tn, td))
}

/// `x` scores at least `y`.
pub open spec fn score_ge(x: MatchView, y: MatchView) -> bool {
    frac_ge(x.sim_num, x.sim_den, y.sim_num, y.sim_den)
}

/// `x` scores strictly above `y`.
pub open spec fn score_gt(x: MatchView, y: MatchView) -> bool {
    frac_gt(x.sim_num, x.sim_den, y.sim_num, y.sim_den)
}

/// Sorted by descending score.
pub open spec fn sorted_desc(s: Seq<MatchView>) -> bool {
    forall|i: int, j: int| 0 <= i < j < s.len() ==> score_ge(#[trigger] s[i], #[trigger] s[j])
}

/// Every record of `s` has a positive score denominator.
pub open spec fn wf_scores(s: Seq<MatchView>) -> bool {
    forall|i: int| 0 <= i < s.len() ==> (#[trigger] s[i]).sim_den >= 1
}

/// `x` placed into `s` behind every record scoring at least `x`, ahead of
/// the rest.
pub open spec fn insert_desc(s: Seq<MatchView>, x: MatchView) -> Seq<MatchView>
    decreases s.len(),
{
    if s.len() == 0 {
        seq![x]
    } else if score_ge(s.last(), x) {
        s.push(x)
    } else {
        insert_desc(s.drop_last(), x).push(s.last())
    }
}

/// Stable insertion sort by score, descending: records with equal scores
/// keep their relative order.
pub open spec fn sort_desc(s: Seq<MatchView>) -> Seq<MatchView>
    decreases s.len(),
{
    if s.len() == 0 {
        Seq::empty()
    } else {
        insert_desc(sort_desc(s.drop_last()), s.last())
    }
}

/// What `find_matches` returns: the qualifying records, ranked.
pub open spec fn ranked_matches(q: Seq<char>, ws: Seq<Seq<char>>, tn: int, td: int) -> Seq<
    MatchView,
> {
    sort_desc(kept_matches(q, ws, tn, td))
}

/// The first record of `s` with the maximum score.
pub open spec fn best_of(s: Seq<MatchView>) -> MatchView
    recommends
        s.len() > 0,
    decreases s.len(),
{
    if s.len() <= 1 {
        s[0]
    } else if score_gt(s.last(), best_of(s.drop_last())) {
        s.last()
    } else {
        best_of(s.drop_last())
    }
}

/// Everything in `insert_desc(s, x)` is `x` or an element of `s`, and the
/// length grows by one.
proof fn lemma_insert_desc_elems(s: Seq<MatchView>, x: MatchView)
    ensures
        insert_desc(s, x).len() == s.len() + 1,
        forall|k: int|
            #![auto]
            0 <= k < insert_desc(s, x).len() ==> (insert_desc(s, x)[k] == x || s.contains(
                insert_desc(s, x)[k],
            )),
    decreases s.len(),
{
    let t = insert_desc(s, x);
    if s.len() == 0 {
    } else if score_ge(s.last(), x) {
        assert forall|k: int| #![auto] 0 <= k < t.len() implies (t[k] == x || s.contains(
            t[k],
        )) by {
            if k < s.len() {
                assert(t[k] == s[k]);
                assert(s.contains(s[k]));
            }
        }
    } else {
        lemma_insert_desc_elems(s.drop_last(), x);
        let t1 = insert_desc(s.drop_last(), x);
        assert forall|k: int| #![auto] 0 <= k < t.len() implies (t[k] == x || s.contains(
            t[k],
        )) by {
            if k < t1.len() {
                assert(t[k] == t1[k]);
                if t1[k] != x {
                    let kk = choose|kk: int|
                        0 <= kk < s.drop_last().len() && s.drop_last()[kk] == t1[k];
                    assert(s[kk] == t1[k]);
                    assert(s.contains(s[kk]));
                }
            } else {
                assert(t[k] == s.last());
                assert(s.contains(s[s.len() - 1]));
            }
        }
    }
}

/// Inserting into a sorted sequence keeps it sorted and well-formed.
proof fn lemma_insert_desc_sorted(s: Seq<MatchView>, x: MatchView)
    requires
        sorted_desc(s),
        wf_scores(s),
        x.sim_den >= 1,
    ensures
        sorted_desc(insert_desc(s, x)),
        wf_scores(insert_desc(s, x)),
    decreases s.len(),
{
    let t = insert_desc(s, x);
    if s.len() == 0 {
        assert(t[0] == x);
        assert(sorted_desc(t));
        assert(wf_scores(t));
    } else if score_ge(s.last(), x) {
        assert forall|i: int, j: int| 0 <= i < j < t.len() implies score_ge(
            #[trigger] t[i],
            #[trigger] t[j],
        ) by {
            if j < s.len() {
                assert(t[i] == s[i] && t[j] == s[j]);
            } else {
                assert(t[j] == x && t[i] == s[i]);
                if i < s.len() - 1 {
                    assert(score_ge(s[i], s[s.len() - 1]));
                    lemma_similarity_trans_helper(s[i], s[s.len() - 1], x);
                } else {
                    assert(s[i] == s.last());
                }
            }
        }
        assert(wf_scores(t)) by {
            assert forall|k: int| 0 <= k < t.len() implies (#[trigger] t[k]).sim_den >= 1 by {
                if k < s.len() {
                    assert(t[k] == s[k]);
                }
            }
        }
    } else {
        assert(sorted_desc(s.drop_last())) by {
            assert forall|i: int, j: int| 0 <= i < j < s.drop_last().len() implies score_ge(
                #[trigger] s.drop_last()[i],
                #[trigger] s.drop_last()[j],
            ) by {
                assert(s.drop_last()[i] == s[i] && s.drop_last()[j] == s[j]);
            }
        }
        assert(wf_scores(s.drop_last())) by {
            assert forall|k: int| 0 <= k < s.drop_last().len() implies (#[trigger] s.drop_last()[k]).sim_den
                >= 1 by {
                assert(s.drop_last()[k] == s[k]);
            }
        }
        lemma_insert_desc_sorted(s.drop_last(), x);
        lemma_insert_desc_elems(s.drop_last(), x);
        let t1 = insert_desc(s.drop_last(), x);
        assert forall|i: int, j: int| 0 <= i < j < t.len() implies score_ge(
            #[trigger] t[i],
            #[trigger] t[j],
        ) by {
            if j < t1.len() {
                assert(t[i] == t1[i] && t[j] == t1[j]);
            } else {
                assert(t[j] == s.last() && t[i] == t1[i]);
                if t1[i] == x {
                    assert(score_gt(x, s.last()));
                } else {
                    let kk = choose|kk: int|
                        0 <= kk < s.drop_last().len() && s.drop_last()[kk] == t1[i];
                    assert(s[kk] == t1[i]);
                    if kk < s.len() - 1 {
                        assert(score_ge(s[kk], s[s.len() - 1]));
                    }
                    assert(s.last() == s[s.len() - 1]);
                }
            }
        }
        assert(wf_scores(t)) by {
            assert forall|k: int| 0 <= k < t.len() implies (#[trigger] t[k]).sim_den >= 1 by {
                if k < t1.len() {
                    assert(t[k] == t1[k]);
                } else {
                    assert(t[k] == s.last());
                    assert(s.last() == s[s.len() - 1]);
                }
            }
        }
    }
}

/// Transitivity of the score order, lifted to records.
proof fn lemma_similarity_trans_helper(a: MatchView, b: MatchView, c: MatchView)
    requires
        a.sim_den >= 1,
        b.sim_den >= 1,
        c.sim_den >= 1,
        score_ge(a, b),
        score_ge(b, c),
    ensures
        score_ge(a, c),
{
    crate::scoring::lemma_frac_ge_trans(
        a.sim_num,
        a.sim_den,
        b.sim_num,
        b.sim_den,
        c.sim_num,
        c.sim_den,
    );
}

/// Sorting sorts: the result of `sort_desc` has the same length, is sorted
/// by descending score, and stays well-formed.
pub proof fn lemma_sort_desc_sorted(s: Seq<MatchView>)
    requires
        wf_scores(s),
    ensures
        sort_desc(s).len() == s.len(),
        sorted_desc(sort_desc(s)),
        wf_scores(sort_desc(s)),
    decreases s.len(),
{
    if s.len() > 0 {
        assert(wf_scores(s.drop_last())) by {
            assert forall|k: int| 0 <= k < s.drop_last().len() implies (#[trigger] s.drop_last()[k]).sim_den
                >= 1 by {
                assert(s.drop_last()[k] == s[k]);
            }
        }
        lemma_sort_desc_sorted(s.drop_last());
        assert(s.last() == s[s.len() - 1]);
        lemma_insert_desc_sorted(sort_desc(s.drop_last()), s.last());
        lemma_insert_desc_elems(sort_desc(s.drop_last()), s.last());
    }
}

/// Where the scan of the executable sort stops is exactly where
/// `insert_desc` places the new record.
proof fn lemma_insert_desc_at(s: Seq<MatchView>, x: MatchView, j: int)
    requires
        0 <= j <= s.len(),
        forall|k: int| 0 <= k < j ==> score_ge(#[trigger] s[k], x),
        forall|k: int| j <= k < s.len() ==> !score_ge(#[trigger] s[k], x),
    ensures
        insert_desc(s, x) == s.insert(j, x),
    decreases s.len(),
{
    if s.len() == 0 {
        assert(insert_desc(s, x) =~= s.insert(0, x));
    } else if j == s.len() {
        assert(score_ge(s[s.len() - 1], x));
        assert(s.last() == s[s.len() - 1]);
        assert(insert_desc(s, x) =~= s.insert(j, x));
    } else {
        assert(!score_ge(s[s.len() - 1], x));
        assert(s.last() == s[s.len() - 1]);
        assert forall|k: int| 0 <= k < j implies score_ge(#[trigger] s.drop_last()[k], x) by {
            assert(s.drop_last()[k] == s[k]);
        }
        assert forall|k: int| j <= k < s.drop_last().len() implies !score_ge(
            #[trigger] s.drop_last()[k],
            x,
        ) by {
            assert(s.drop_last()[k] == s[k]);
        }
        lemma_insert_desc_at(s.drop_last(), x, j);
        assert(insert_desc(s, x) == s.drop_last().insert(j, x).push(s.last()));
        assert(s.drop_last().insert(j, x).push(s.last()) =~= s.insert(j, x));
    }
}

/// The filter keeping records whose score equals the fraction `n / d`.
pub open spec fn eq_pred(n: int, d: int) -> spec_fn(MatchView) -> bool {
    |m: MatchView| frac_eq(m.sim_num, m.sim_den, n, d)
}

/// Filtering keeps records well-formed.
proof fn lemma_filter_wf(s: Seq<MatchView>, p: spec_fn(MatchView) -> bool)
    requires
        wf_scores(s),
    ensures
        wf_scores(s.filter(p)),
    decreases s.len(),
{
    reveal(Seq::filter);
    if s.len() > 0 {
        assert(wf_scores(s.drop_last())) by {
            assert forall|k: int| 0 <= k < s.drop_last().len() implies (#[trigger] s.drop_last()[k]).sim_den
                >= 1 by {
                assert(s.drop_last()[k] == s[k]);
            }
        }
        lemma_filter_wf(s.drop_last(), p);
        let sub = s.drop_last().filter(p);
        assert forall|k: int| 0 <= k < s.filter(p).len() implies (#[trigger] s.filter(p)[k]).sim_den
            >= 1 by {
            if k < sub.len() {
                assert(s.filter(p)[k] == sub[k]);
            } else {
                assert(s.filter(p)[k] == s.last());
                assert(s.last() == s[s.len() - 1]);
            }
        }
    }
}

/// A filter that keeps every element keeps the whole sequence.
proof fn lemma_filter_keeps_all(s: Seq<MatchView>, p: spec_fn(MatchView) -> bool)
    requires
        forall|i: int| 0 <= i < s.len() ==> p(#[trigger] s[i]),
    ensures
        s.filter(p) == s,
    decreases s.len(),
{
    reveal(Seq::filter);
    if s.len() > 0 {
        assert forall|i: int| 0 <= i < s.drop_last().len() implies p(#[trigger] s.drop_last()[i]) by {
            assert(s.drop_last()[i] == s[i]);
        }
        lemma_filter_keeps_all(s.drop_last(), p);
        assert(p(s[s.len() - 1]));
        assert(s.drop_last().push(s.last()) =~= s);
    }
}

/// A filter that keeps no element gives the empty sequence.
proof fn lemma_filter_drops_all(s: Seq<MatchView>, p: spec_fn(MatchView) -> bool)
    requires
        forall|i: int| 0 <= i < s.len() ==> !p(#[trigger] s[i]),
    ensures
        s.filter(p) == Seq::<MatchView>::empty(),
    decreases s.len(),
{
    reveal(Seq::filter);
    if s.len() == 0 {
        assert(s =~= Seq::<MatchView>::empty());
    } else {
        assert forall|i: int| 0 <= i < s.drop_last().len() implies !p(
            #[trigger] s.drop_last()[i],
        ) by {
            assert(s.drop_last()[i] == s[i]);
        }
        lemma_filter_drops_all(s.drop_last(), p);
        assert(!p(s[s.len() - 1]));
    }
}

/// Inserting a record appends it to the filtered records of its own score
/// value and leaves every other value's records untouched.
proof fn lemma_insert_desc_filter(s: Seq<MatchView>, x: MatchView, n: int, d: int)
    requires
        wf_scores(s),
        x.sim_den >= 1,
        d >= 1,
    ensures
        insert_desc(s, x).filter(eq_pred(n, d)) == (if frac_eq(x.sim_num, x.sim_den, n, d) {
            s.filter(eq_pred(n, d)).push(x)
        } else {
            s.filter(eq_pred(n, d))
        }),
    decreases s.len(),
{
    reveal(Seq::filter);
    let p = eq_pred(n, d);
    let t = insert_desc(s, x);
    if s.len() == 0 {
        assert(t.drop_last() =~= s);
        assert(t.last() == x);
    } else if score_ge(s.last(), x) {
        assert(t.drop_last() =~= s);
        assert(t.last() == x);
    } else {
        assert(wf_scores(s.drop_last())) by {
            assert forall|k: int| 0 <= k < s.drop_last().len() implies (#[trigger] s.drop_last()[k]).sim_den
                >= 1 by {
                assert(s.drop_last()[k] == s[k]);
            }
        }
        lemma_insert_desc_filter(s.drop_last(), x, n, d);
        let t1 = insert_desc(s.drop_last(), x);
        assert(t.drop_last() =~= t1);
        assert(t.last() == s.last());
        assert(s.last() == s[s.len() - 1]);
        if frac_eq(x.sim_num, x.sim_den, n, d) {
            if p(s.last()) {
                crate::scoring::lemma_frac_eq_joint(
                    x.sim_num,
                    x.sim_den,
                    s.last().sim_num,
                    s.last().sim_den,
                    n,
                    d,
                );
                assert(false);
            }
        }
    }
}

/// Stability: sorting does not reorder records of equal score. Filtering
/// the sorted sequence for any one score value gives exactly the records of
/// that value from the input, in input order.
pub proof fn lemma_sort_desc_stable(s: Seq<MatchView>, n: int, d: int)
    requires
        wf_scores(s),
        d >= 1,
    ensures
        sort_desc(s).filter(eq_pred(n, d)) == s.filter(eq_pred(n, d)),
    decreases s.len(),
{
    reveal(Seq::filter);
    if s.len() == 0 {
        assert(s =~= Seq::<MatchView>::empty());
    } else {
        assert(wf_scores(s.drop_last())) by {
            assert forall|k: int| 0 <= k < s.drop_last().len() implies (#[trigger] s.drop_last()[k]).sim_den
                >= 1 by {
                assert(s.drop_last()[k] == s[k]);
            }
        }
        lemma_sort_desc_stable(s.drop_last(), n, d);
        lemma_sort_desc_sorted(s.drop_last());
        assert(s.last() == s[s.len() - 1]);
        lemma_insert_desc_filter(sort_desc(s.drop_last()), s.last(), n, d);
    }
}

/// The views of a vector of results.
pub open spec fn views_of(s: Seq<MatchResult>) -> Seq<MatchView> {
    s.map_values(|m: MatchResult| m@)
}

/// Every candidate's record is well-formed: its score denominator is positive.
pub proof fn lemma_all_matches_wf(q: Seq<char>, ws: Seq<Seq<char>>)
    ensures
        all_matches(q, ws).len() == ws.len(),
        forall|i: int| 0 <= i < ws.len() ==> all_matches(q, ws)[i] == match_of(q, #[trigger] ws[i]),
        wf_scores(all_matches(q, ws)),
{
    assert forall|i: int| 0 <= i < all_matches(q, ws).len() implies (#[trigger] all_matches(
        q,
        ws,
    )[i]).sim_den >= 1 by {
        lemma_similarity_range(q, ws[i]);
    }
}

/// The kept records are well-formed and no more numerous than the candidates.
pub proof fn lemma_kept_matches_wf(q: Seq<char>, ws: Seq<Seq<char>>, tn: int, td: int)
    ensures
        wf_scores(kept_matches(q, ws, tn, td)),
        kept_matches(q, ws, tn, td).len() <= ws.len(),
{
    lemma_all_matches_wf(q, ws);
    lemma_filter_wf(all_matches(q, ws), meets_pred(tn, td));
    all_matches(q, ws).lemma_filter_len(meets_pred(tn, td));
}

/// The matches for `query` among `words` whose similarity is at least
/// `threshold_num / threshold_den`, ordered by descending similarity;
/// candidates with equal scores keep their input order.
pub fn find_matches(
    query: &str,
    words: &Vec<String>,
    threshold_num: u64,
    threshold_den: u64,
) -> (r: Vec<MatchResult>)
    requires
        threshold_den >= 1,
    ensures
        views_of(r@) == ranked_matches(
            query@,
            words.deep_view(),
            threshold_num as int,
            threshold_den as int,
        ),
        r@.len() <= words@.len(),
{
    let ghost wsv: Seq<Seq<char>> = words.deep_view();
    let ghost all: Seq<MatchView> = all_matches(query@, wsv);
    let ghost p = meets_pred(threshold_num as int, threshold_den as int);
    let mut kept: Vec<MatchResult> = Vec::new();
    let n: usize = words.len();
    proof {
        reveal(Seq::filter);
        assert(views_of(kept@) =~= Seq::<MatchView>::empty());
        assert(all.take(0) =~= Seq::<MatchView>::empty());
        assert(all.take(0).filter(p) == all.take(0));
    }
    for idx in 0..n
        invariant
            n == words@.len(),
            threshold_den >= 1,
            wsv == words.deep_view(),
            all == all_matches(query@, wsv),
            p == meets_pred(threshold_num as int, threshold_den as int),
            views_of(kept@) == all.take(idx as int).filter(p),
            kept@.len() <= idx,
            forall|k: int| 0 <= k < kept@.len() ==> (#[trigger] kept@[k]).similarity.wf(),
    {
        let w: &String = &words[idx];
        proof {
            assert(wsv[idx as int] == words@[idx as int]@);
        }
        let d: usize = levenshtein_distance(query, w.as_str());
        let sc: Score = similarity_score(query, w.as_str());
        let keep: bool = sc.meets_threshold(threshold_num, threshold_den);
        let ghost before: Seq<MatchView> = views_of(kept@);
        let m: MatchResult = MatchResult { word: w.clone(), distance: d, similarity: sc };
        proof {
            assert(m@ == all[idx as int]);
        }
        if keep {
            kept.push(m);
        }
        proof {
            reveal(Seq::filter);
            assert(all.take(idx as int + 1).drop_last() =~= all.take(idx as int));
            assert(all.take(idx as int + 1).last() == all[idx as int]);
            if keep {
                assert(views_of(kept@) =~= before.push(all[idx as int]));
            }
            assert(views_of(kept@) == all.take(idx as int + 1).filter(p));
        }
    }
    let ghost keptv: Seq<MatchView> = views_of(kept@);
    proof {
        assert(all.take(n as int) =~= all);
        assert(keptv == kept_matches(query@, wsv, threshold_num as int, threshold_den as int));
        lemma_kept_matches_wf(query@, wsv, threshold_num as int, threshold_den as int);
    }
    let mut rest: Vec<MatchResult> = kept;
    let mut sorted: Vec<MatchResult> = Vec::new();
    let ghost mut done: Seq<MatchView> = Seq::empty();
    proof {
        assert(done + views_of(rest@) =~= keptv);
        assert(views_of(sorted@) =~= sort_desc(done));
    }
    while rest.len() > 0
        invariant
            keptv == kept_matches(
                query@,
                words.deep_view(),
                threshold_num as int,
                threshold_den as int,
            ),
            keptv.len() <= words@.len(),
            wf_scores(keptv),
            done + views_of(rest@) == keptv,
            views_of(sorted@) == sort_desc(done),
            wf_scores(done),
            sorted@.len() == done.len(),
        decreases rest@.len(),
    {
        let ghost restv0: Seq<MatchView> = views_of(rest@);
        let x: MatchResult = rest.remove(0);
        let ghost xv: MatchView = x@;
        let ghost done0: Seq<MatchView> = done;
        proof {
            assert(restv0[0] == xv);
            assert(views_of(rest@) =~= restv0.subrange(1, restv0.len() as int));
            assert(keptv[done0.len() as int] == xv);
            assert(xv.sim_den >= 1);
            lemma_sort_desc_sorted(done0);
        }
        let mut j: usize = sorted.len();
        while j > 0 && x.similarity.gt(&sorted[j - 1].similarity)
            invariant
                j <= sorted@.len(),
                xv == x@,
                views_of(sorted@) == sort_desc(done0),
                sorted_desc(views_of(sorted@)),
                wf_scores(views_of(sorted@)),
                xv.sim_den >= 1,
                forall|k: int|
                    #![auto]
                    j <= k < sorted@.len() ==> !score_ge(views_of(sorted@)[k], xv),
            decreases j,
        {
            j = j - 1;
        }
        proof {
            let sortedv = views_of(sorted@);
            assert forall|k: int| 0 <= k < j implies score_ge(#[trigger] sortedv[k], xv) by {
                assert(score_ge(sortedv[j - 1], xv));
                if k < j - 1 {
                    assert(score_ge(sortedv[k], sortedv[j - 1]));
                    lemma_similarity_trans_helper(sortedv[k], sortedv[j - 1], xv);
                }
            }
            lemma_insert_desc_at(sortedv, xv, j as int);
        }
        let ghost sorted0: Seq<MatchView> = views_of(sorted@);
        sorted.insert(j, x);
        proof {
            done = done0.push(xv);
            assert(done.drop_last() =~= done0);
            assert(done.last() == xv);
            assert(views_of(sorted@) =~= sorted0.insert(j as int, xv));
            assert(views_of(sorted@) == sort_desc(done));
            assert(done + views_of(rest@) =~= keptv);
            assert(wf_scores(done)) by {
                assert forall|k: int| 0 <= k < done.len() implies (#[trigger] done[k]).sim_den
                    >= 1 by {
                    if k < done0.len() {
                        assert(done[k] == done0[k]);
                    } else {
                        assert(done[k] == xv);
                    }
                }
            }
        }
    }
    proof {
        assert(views_of(rest@).len() == 0);
        assert(done =~= keptv);
        assert(views_of(sorted@) == sort_desc(keptv));
    }
    sorted
}

/// The ranked output of `find_matches` is sorted by descending similarity
/// and has one record per qualifying candidate.
pub proof fn lemma_ranked_matches_sorted(q: Seq<char>, ws: Seq<Seq<char>>, tn: int, td: int)
    ensures
        sorted_desc(ranked_matches(q, ws, tn, td)),
        ranked_matches(q, ws, tn, td).len() == kept_matches(q, ws, tn, td).len(),
{
    lemma_kept_matches_wf(q, ws, tn, td);
    lemma_sort_desc_sorted(kept_matches(q, ws, tn, td));
}

/// Ties are stable: for any one score value `n / d`, the ranked output holds
/// exactly the qualifying records of that value, in input order.
pub proof fn lemma_ranked_matches_stable(
    q: Seq<char>,
    ws: Seq<Seq<char>>,
    tn: int,
    td: int,
    n: int,
    d: int,
)
    requires
        d >= 1,
    ensures
        ranked_matches(q, ws, tn, td).filter(eq_pred(n, d)) == kept_matches(
            q,
            ws,
            tn,
            td,
        ).filter(eq_pred(n, d)),
{
    lemma_kept_matches_wf(q, ws, tn, td);
    lemma_sort_desc_stable(kept_matches(q, ws, tn, td), n, d);
}

/// A zero threshold keeps every candidate: the ranked output has one record
/// per candidate.
pub proof fn lemma_ranked_matches_zero_threshold(q: Seq<char>, ws: Seq<Seq<char>>, td: int)
    requires
        td >= 1,
    ensures
        kept_matches(q, ws, 0, td) == all_matches(q, ws),
        ranked_matches(q, ws, 0, td).len() == ws.len(),
{
    lemma_all_matches_wf(q, ws);
    let all = all_matches(q, ws);
    assert forall|i: int| 0 <= i < all.len() implies meets(#[trigger] all[i], 0, td) by {
        lemma_similarity_range(q, ws[i]);
        let m = all[i];
        assert(m.sim_num * td >= 0) by (nonlinear_arith)
            requires
                m.sim_num >= 0,
                td >= 1,
        ;
    }
    lemma_filter_keeps_all(all, meets_pred(0, td));
    lemma_sort_desc_sorted(all);
}

/// A threshold above one keeps no candidate: the ranked output is empty.
pub proof fn lemma_ranked_matches_high_threshold(q: Seq<char>, ws: Seq<Seq<char>>, tn: int, td: int)
    requires
        td >= 1,
        tn > td,
    ensures
        ranked_matches(q, ws, tn, td) == Seq::<MatchView>::empty(),
{
    lemma_all_matches_wf(q, ws);
    let all = all_matches(q, ws);
    assert forall|i: int| 0 <= i < all.len() implies !meets(#[trigger] all[i], tn, td) by {
        lemma_similarity_range(q, ws[i]);
        let m = all[i];
        assert(m.sim_num * td < tn * m.sim_den) by (nonlinear_arith)
            requires
                m.sim_num <= m.sim_den,
                m.sim_den >= 1,
                td >= 1,
                tn > td,
        ;
    }
    lemma_filter_drops_all(all, meets_pred(tn, td));
}

/// A strict step down the score order stays strict.
proof fn lemma_score_gt_ge(a: MatchView, b: MatchView, c: MatchView)
    requires
        a.sim_den >= 1,
        b.sim_den >= 1,
        c.sim_den >= 1,
        score_gt(a, b),
        score_ge(b, c),
    ensures
        score_gt(a, c),
{
    crate::scoring::lemma_frac_gt_ge_trans(
        a.sim_num,
        a.sim_den,
        b.sim_num,
        b.sim_den,
        c.sim_num,
        c.sim_den,
    );
}

/// The best record scores at least every record of the sequence and strictly
/// above every record before it: `best_of` picks the first maximum.
pub proof fn lemma_best_of_props(s: Seq<MatchView>) -> (i: int)
    requires
        s.len() > 0,
        wf_scores(s),
    ensures
        0 <= i < s.len(),
        best_of(s) == s[i],
        forall|k: int| 0 <= k < s.len() ==> score_ge(best_of(s), #[trigger] s[k]),
        forall|k: int| 0 <= k < i ==> score_gt(best_of(s), #[trigger] s[k]),
    decreases s.len(),
{
    if s.len() == 1 {
        assert(score_ge(s[0], s[0]));
        0
    } else {
        let s1 = s.drop_last();
        assert(wf_scores(s1)) by {
            assert forall|k: int| 0 <= k < s1.len() implies (#[trigger] s1[k]).sim_den >= 1 by {
                assert(s1[k] == s[k]);
            }
        }
        let i0 = lemma_best_of_props(s1);
        let prev = best_of(s1);
        assert(prev == s1[i0] && s1[i0] == s[i0]);
        assert(s.last() == s[s.len() - 1]);
        if score_gt(s.last(), prev) {
            assert(best_of(s) == s.last());
            assert forall|k: int| 0 <= k < s.len() - 1 implies score_gt(
                best_of(s),
                #[trigger] s[k],
            ) by {
                assert(s1[k] == s[k]);
                assert(score_ge(prev, s1[k]));
                lemma_score_gt_ge(s.last(), prev, s[k]);
            }
            assert forall|k: int| 0 <= k < s.len() implies score_ge(
                best_of(s),
                #[trigger] s[k],
            ) by {
                if k == s.len() - 1 {
                    assert(score_ge(s[k], s[k]));
                }
            }
            s.len() - 1
        } else {
            assert(best_of(s) == prev);
            assert forall|k: int| 0 <= k < s.len() implies score_ge(
                best_of(s),
                #[trigger] s[k],
            ) by {
                if k < s.len() - 1 {
                    assert(s1[k] == s[k]);
                    assert(score_ge(prev, s1[k]));
                }
            }
            assert forall|k: int| 0 <= k < i0 implies score_gt(best_of(s), #[trigger] s[k]) by {
                assert(s1[k] == s[k]);
                assert(score_gt(prev, s1[k]));
            }
            i0
        }
    }
}

/// The best match for `query` among `words`: the record with the highest
/// similarity; on a tie, the earliest candidate in input order. Absent
/// exactly when `words` is empty.
pub fn find_best_match(query: &str, words: &Vec<String>) -> (r: Option<MatchResult>)
    ensures
        r is Some <==> words@.len() > 0,
        words@.len() > 0 ==> (r->0)@ == best_of(all_matches(query@, words.deep_view())),
{
    let ghost wsv: Seq<Seq<char>> = words.deep_view();
    let ghost all: Seq<MatchView> = all_matches(query@, wsv);
    let mut best: Option<MatchResult> = None;
    let n: usize = words.len();
    for idx in 0..n
        invariant
            n == words@.len(),
            wsv == words.deep_view(),
            all == all_matches(query@, wsv),
            idx == 0 ==> best is None,
            idx > 0 ==> best is Some && (best->0)@ == best_of(all.take(idx as int)),
    {
        let w: &String = &words[idx];
        proof {
            assert(wsv[idx as int] == words@[idx as int]@);
        }
        let d: usize = levenshtein_distance(query, w.as_str());
        let sc: Score = similarity_score(query, w.as_str());
        let m: MatchResult = MatchResult { word: w.clone(), distance: d, similarity: sc };
        proof {
            assert(m@ == all[idx as int]);
            assert(all.take(idx as int + 1).drop_last() =~= all.take(idx as int));
            assert(all.take(idx as int + 1).last() == all[idx as int]);
        }
        match best {
            None => {
                best = Some(m);
            },
            Some(b) => {
                if m.similarity.gt(&b.similarity) {
                    best = Some(m);
                } else {
                    best = Some(b);
                }
            },
        }
    }
    proof {
        assert(all.take(n as int) =~= all);
    }
    best
}

} // verus!
