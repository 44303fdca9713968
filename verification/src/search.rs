//! The search engine: matching, ordering and pagination over scores.

use vstd::prelude::*;

use crate::model::{Score, ScoreV, PageNumber, PageNumberV, ScoreSearchParameter};
use crate::model::{pn_cmp, lemma_pn_cmp_flip, lemma_pn_cmp_trans, lemma_pn_cmp_eq};
use crate::order::{str_cmp, id_cmp, flip_cmp, str_compare, Cmp};
use crate::order::{lemma_str_cmp_eq, lemma_str_cmp_flip, lemma_str_cmp_trans};

verus! {

/// Results are served in pages of at most this many scores.
pub const MAX_PAGE_SIZE: usize = 100;

/// One sequence of character sequences holds a value.
pub open spec fn strs_contain(v: Seq<Seq<char>>, x: Seq<char>) -> bool {
    exists|i: int| 0 <= i < v.len() && v[i] == x
}

/// The views of a sequence of scores.
pub open spec fn views_of(s: Seq<Score>) -> Seq<ScoreV> {
    s.map_values(|x: Score| x@)
}

/// A single attribute of a score holds the searched value exactly.
/// Matching is by exact equality, consistently over every field.
pub open spec fn field_matches(s: ScoreV, f: ScoreSearchParameter, x: Seq<char>) -> bool {
    match f {
        ScoreSearchParameter::Title => s.title == x,
        ScoreSearchParameter::Genre => strs_contain(s.genres, x),
        ScoreSearchParameter::SubTitle => strs_contain(s.sub_titles, x),
        ScoreSearchParameter::Arranger => strs_contain(s.arrangers, x),
        ScoreSearchParameter::Composer => strs_contain(s.composers, x),
        ScoreSearchParameter::Annotation => s.annotation is Some && s.annotation->0 == x,
        ScoreSearchParameter::Alias => strs_contain(s.alias, x),
        ScoreSearchParameter::Publisher => strs_contain(s.publishers, x),
    }
}

/// A score matches when any of the requested fields holds the value; an
/// empty field list matches nothing.
pub open spec fn score_matches(s: ScoreV, fields: Seq<ScoreSearchParameter>, x: Seq<char>) -> bool {
    exists|i: int| 0 <= i < fields.len() && field_matches(s, fields[i], x)
}

/// Whether one of the strings equals the searched value.
pub fn strings_contain(v: &Vec<String>, x: &String) -> (r: bool)
    ensures
        r == strs_contain(crate::model::seq_views(v@), x@),
{
    let ghost m = crate::model::seq_views(v@);
    let mut i: usize = 0;
    while i < v.len()
        invariant
            i <= v@.len(),
            m == crate::model::seq_views(v@),
            forall|j: int| 0 <= j < i ==> m[j] != x@,
        decreases v@.len() - i,
    {
        if v[i].eq(x) {
            assert(m[i as int] == x@);
            return true;
        }
        i = i + 1;
    }
    false
}

/// Whether a single attribute of the score holds the value.
pub fn field_matches_exec(s: &Score, f: ScoreSearchParameter, x: &String) -> (r: bool)
    ensures
        r == field_matches(s@, f, x@),
{
    match f {
        ScoreSearchParameter::Title => s.title.eq(x),
        ScoreSearchParameter::Genre => strings_contain(&s.genres, x),
        ScoreSearchParameter::SubTitle => strings_contain(&s.sub_titles, x),
        ScoreSearchParameter::Arranger => strings_contain(&s.arrangers, x),
        ScoreSearchParameter::Composer => strings_contain(&s.composers, x),
        ScoreSearchParameter::Annotation => match &s.annotation {
            Option::Some(a) => a.eq(x),
            Option::None => false,
        },
        ScoreSearchParameter::Alias => strings_contain(&s.alias, x),
        ScoreSearchParameter::Publisher => strings_contain(&s.publishers, x),
    }
}

/// Whether the score matches any of the requested fields.
pub fn score_matches_exec(s: &Score, fields: &Vec<ScoreSearchParameter>, x: &String) -> (r: bool)
    ensures
        r == score_matches(s@, fields@, x@),
{
    let mut i: usize = 0;
    while i < fields.len()
        invariant
            i <= fields@.len(),
            forall|j: int| 0 <= j < i ==> !field_matches(s@, fields@[j], x@),
        decreases fields@.len() - i,
    {
        if field_matches_exec(s, fields[i], x) {
            return true;
        }
        i = i + 1;
    }
    false
}

/// Which key the scores are ordered by.
#[derive(Clone, Copy, Debug, PartialEq, Eq, Structural)]
pub enum SortKey {
    /// Order by title, ties broken by id.
    ByTitle,
    /// Order by the begin of the location, ties broken by id.
    ByLocation,
}

/// The page at which a score's location begins; a score without a location
/// sorts as an unprefixed page zero.
pub open spec fn begin_of(s: ScoreV) -> PageNumberV {
    match s.location {
        Option::Some(p) => p.begin,
        Option::None => PageNumberV { prefix: Option::None, number: 0, suffix: Option::None },
    }
}

/// Three-way comparison of two scores under a sort key, ties broken by id
/// (an absent id sorts first).
pub open spec fn key_cmp(k: SortKey, a: ScoreV, b: ScoreV) -> Cmp {
    let c = match k {
        SortKey::ByTitle => str_cmp(a.title, b.title),
        SortKey::ByLocation => pn_cmp(begin_of(a), begin_of(b)),
    };
    if c != Cmp::Eq {
        c
    } else {
        id_cmp(a.id, b.id)
    }
}

/// `a` sorts no later than `b` under the key.
pub open spec fn score_le(k: SortKey, a: ScoreV, b: ScoreV) -> bool {
    key_cmp(k, a, b) != Cmp::Gt
}

/// The order is total: one of the two directions always holds.
pub proof fn lemma_score_le_total(k: SortKey, a: ScoreV, b: ScoreV)
    ensures
        score_le(k, a, b) || score_le(k, b, a),
{
    match k {
        SortKey::ByTitle => lemma_str_cmp_flip(a.title, b.title),
        SortKey::ByLocation => lemma_pn_cmp_flip(begin_of(a), begin_of(b)),
    }
}

/// The order is transitive.
pub proof fn lemma_score_le_trans(k: SortKey, a: ScoreV, b: ScoreV, c: ScoreV)
    requires
        score_le(k, a, b),
        score_le(k, b, c),
    ensures
        score_le(k, a, c),
{
    match k {
        SortKey::ByTitle => {
            lemma_str_cmp_eq(a.title, b.title);
            lemma_str_cmp_eq(b.title, c.title);
            lemma_str_cmp_trans(a.title, b.title, c.title);
        },
        SortKey::ByLocation => {
            lemma_pn_cmp_eq(begin_of(a), begin_of(b));
            lemma_pn_cmp_eq(begin_of(b), begin_of(c));
            lemma_pn_cmp_trans(begin_of(a), begin_of(b), begin_of(c));
        },
    }
}

/// Insert a score into an already ordered sequence, before the first entry
/// it sorts no later than.
pub open spec fn insert_sorted_v(k: SortKey, r: Seq<ScoreV>, x: ScoreV) -> Seq<ScoreV>
    decreases r.len(),
{
    if r.len() == 0 {
        seq![x]
    } else if score_le(k, x, r[0]) {
        seq![x] + r
    } else {
        seq![r[0]] + insert_sorted_v(k, r.drop_first(), x)
    }
}

/// Order a sequence of scores by repeated insertion; the outcome is a
/// function of the input alone, so equal queries are answered identically.
pub open spec fn sort_scores_v(k: SortKey, s: Seq<ScoreV>) -> Seq<ScoreV>
    decreases s.len(),
{
    if s.len() == 0 {
        s
    } else {
        insert_sorted_v(k, sort_scores_v(k, s.drop_last()), s.last())
    }
}

/// The sequence is ordered under the key.
pub open spec fn sorted_by(k: SortKey, r: Seq<ScoreV>) -> bool {
    forall|i: int, j: int| 0 <= i < j < r.len() ==> score_le(k, r[i], r[j])
}

/// The position at which the insertion places its argument.
pub open spec fn insert_position(k: SortKey, r: Seq<ScoreV>, x: ScoreV) -> int
    decreases r.len(),
{
    if r.len() == 0 {
        0
    } else if score_le(k, x, r[0]) {
        0
    } else {
        1 + insert_position(k, r.drop_first(), x)
    }
}

/// Inserting places the argument at its position and shifts the rest.
pub proof fn lemma_insert_sorted_v_shape(k: SortKey, r: Seq<ScoreV>, x: ScoreV)
    ensures
        0 <= insert_position(k, r, x) <= r.len(),
        insert_sorted_v(k, r, x) == r.insert(insert_position(k, r, x), x),
        forall|q: int| 0 <= q < insert_position(k, r, x) ==> !score_le(k, x, r[q]),
        insert_position(k, r, x) < r.len() ==> score_le(k, x, r[insert_position(k, r, x)]),
    decreases r.len(),
{
    let p = insert_position(k, r, x);
    if r.len() == 0 {
        assert(insert_sorted_v(k, r, x) =~= r.insert(0, x));
    } else if score_le(k, x, r[0]) {
        assert(insert_sorted_v(k, r, x) =~= r.insert(0, x));
    } else {
        lemma_insert_sorted_v_shape(k, r.drop_first(), x);
        let tail = r.drop_first();
        let pt = insert_position(k, tail, x);
        assert(insert_sorted_v(k, r, x) =~= r.insert(p, x)) by {
            assert(insert_sorted_v(k, tail, x) == tail.insert(pt, x));
        }
        assert(forall|q: int| 0 <= q < pt ==> !score_le(k, x, tail[q]));
        assert(forall|q: int| 1 <= q < p ==> r[q] == tail[q - 1]);
    }
}

/// Inserting into an ordered sequence keeps it ordered.
pub proof fn lemma_insert_sorted_v_sorted(k: SortKey, r: Seq<ScoreV>, x: ScoreV)
    requires
        sorted_by(k, r),
    ensures
        sorted_by(k, insert_sorted_v(k, r, x)),
{
    lemma_insert_sorted_v_shape(k, r, x);
    let p = insert_position(k, r, x);
    let out = insert_sorted_v(k, r, x);
    r.insert_ensures(p, x);
    assert forall|i: int, j: int| 0 <= i < j < out.len() implies score_le(k, out[i], out[j]) by {
        if i < p && j < p {
            assert(score_le(k, r[i], r[j]));
        } else if i < p && j == p {
            // out[j] is x; every entry before the insertion point sorts
            // strictly before x.
            assert(!score_le(k, x, r[i]));
            lemma_score_le_total(k, x, r[i]);
        } else if i < p && j > p {
            assert(out[j] == r[j - 1]);
            assert(score_le(k, r[i], r[j - 1]));
        } else if i == p && j > p {
            // out[i] is x, which sorts no later than the entry at the position.
            assert(out[j] == r[j - 1]);
            assert(score_le(k, x, r[p]));
            if j - 1 > p {
                assert(score_le(k, r[p], r[j - 1]));
                lemma_score_le_trans(k, x, r[p], r[j - 1]);
            }
        } else {
            assert(out[i] == r[i - 1]);
            assert(out[j] == r[j - 1]);
            assert(score_le(k, r[i - 1], r[j - 1]));
        }
    }
}

/// Inserting adds exactly the argument to the sequence's contents.
pub proof fn lemma_insert_sorted_v_multiset(k: SortKey, r: Seq<ScoreV>, x: ScoreV)
    ensures
        insert_sorted_v(k, r, x).to_multiset() == r.to_multiset().insert(x),
{
    lemma_insert_sorted_v_shape(k, r, x);
    let p = insert_position(k, r, x);
    let out = insert_sorted_v(k, r, x);
    r.insert_ensures(p, x);
    out.to_multiset_ensures();
    assert(out.remove(p) =~= r);
    assert(out.to_multiset().remove(x) =~= r.to_multiset());
    assert(out[p] == x);
    assert(out.contains(x));
    assert(out.to_multiset().count(x) > 0);
    assert(out.to_multiset() =~= r.to_multiset().insert(x));
}

/// The ordering function returns an ordered permutation of its input.
pub proof fn lemma_sort_scores_v_ensures(k: SortKey, s: Seq<ScoreV>)
    ensures
        sorted_by(k, sort_scores_v(k, s)),
        sort_scores_v(k, s).to_multiset() == s.to_multiset(),
        sort_scores_v(k, s).len() == s.len(),
    decreases s.len(),
{
    s.to_multiset_ensures();
    if s.len() > 0 {
        let head = sort_scores_v(k, s.drop_last());
        lemma_sort_scores_v_ensures(k, s.drop_last());
        lemma_insert_sorted_v_sorted(k, head, s.last());
        lemma_insert_sorted_v_multiset(k, head, s.last());
        s.drop_last().to_multiset_ensures();
        assert(s.drop_last().push(s.last()) =~= s);
        assert(s.drop_last().push(s.last()).to_multiset() == s.drop_last().to_multiset().insert(
            s.last(),
        ));
        sort_scores_v(k, s).to_multiset_ensures();
        head.to_multiset_ensures();
    }
}

/// Whether `a` sorts no later than `b` under the key.
pub fn score_le_exec(k: SortKey, a: &Score, b: &Score) -> (r: bool)
    ensures
        r == score_le(k, a@, b@),
{
    let c = match k {
        SortKey::ByTitle => str_compare(a.title.as_str(), b.title.as_str()),
        SortKey::ByLocation => {
            let pa = begin_of_exec(a);
            let pb = begin_of_exec(b);
            pa.compare(&pb)
        },
    };
    match c {
        Cmp::Lt => true,
        Cmp::Gt => false,
        Cmp::Eq => match (a.id, b.id) {
            (Option::None, _) => true,
            (Option::Some(_), Option::None) => false,
            (Option::Some(x), Option::Some(y)) => x <= y,
        },
    }
}

/// The page at which the score's location begins; an unprefixed page zero
/// when it has no location.
pub fn begin_of_exec(s: &Score) -> (r: PageNumber)
    ensures
        r@ == begin_of(s@),
{
    match &s.location {
        Option::Some(p) => p.begin.duplicate(),
        Option::None => PageNumber { prefix: Option::None, number: 0, suffix: Option::None },
    }
}

/// Insert a score into an ordered vector.
pub fn insert_sorted(k: SortKey, out: &mut Vec<Score>, x: Score)
    ensures
        views_of(final(out)@) == insert_sorted_v(k, views_of(old(out)@), x@),
{
    let ghost m = views_of(out@);
    let mut p: usize = 0;
    loop
        invariant
            p <= out@.len(),
            out@ == old(out)@,
            m == views_of(out@),
            forall|q: int| 0 <= q < p ==> !score_le(k, x@, m[q]),
        ensures
            p <= out@.len(),
            out@ == old(out)@,
            forall|q: int| 0 <= q < p ==> !score_le(k, x@, m[q]),
            p < out@.len() ==> score_le(k, x@, m[p as int]),
        decreases out@.len() - p,
    {
        if p == out.len() {
            break ;
        }
        if score_le_exec(k, &x, &out[p]) {
            break ;
        }
        p = p + 1;
    }
    out.insert(p, x);
    proof {
        lemma_insert_sorted_v_shape(k, m, x@);
        let ip = insert_position(k, m, x@);
        // The scan stopped exactly at the insertion position.
        if ip < p as int {
            assert(score_le(k, x@, m[ip]));
        }
        if (p as int) < ip {
            assert(!score_le(k, x@, m[p as int]));
        }
        assert(ip == p as int);
        m.insert_ensures(ip, x@);
        old(out)@.insert_ensures(p as int, x);
        assert(views_of(final(out)@) =~= m.insert(ip, x@));
    }
}

/// Order the scores under the key.
pub fn sort_scores(k: SortKey, v: Vec<Score>) -> (r: Vec<Score>)
    ensures
        views_of(r@) == sort_scores_v(k, views_of(v@)),
{
    let ghost orig = views_of(v@);
    let mut rest = v;
    let mut out: Vec<Score> = Vec::new();
    let ghost mut i: int = 0;
    while rest.len() > 0
        invariant
            0 <= i <= orig.len(),
            rest@.len() == orig.len() - i,
            views_of(rest@) == orig.skip(i),
            views_of(out@) == sort_scores_v(k, orig.take(i)),
        decreases orig.len() - i,
    {
        let ghost prev = rest@;
        let x = rest.remove(0);
        proof {
            assert(x@ == views_of(prev)[0]);
            assert(x@ == orig[i]);
            assert(views_of(rest@) =~= orig.skip(i + 1)) by {
                assert forall|j: int| 0 <= j < rest@.len() implies views_of(rest@)[j] == orig.skip(
                    i + 1,
                )[j] by {
                    assert(rest@[j] == prev.remove(0)[j]);
                    assert(prev.remove(0)[j] == prev[j + 1]);
                    assert(views_of(prev)[j + 1] == orig.skip(i)[j + 1]);
                }
            }
            assert(orig.take(i + 1).drop_last() =~= orig.take(i));
            assert(orig.take(i + 1).last() == orig[i]);
        }
        insert_sorted(k, &mut out, x);
        proof {
            i = i + 1;
        }
    }
    proof {
        assert(i == orig.len());
        assert(orig.take(i) =~= orig);
    }
    out
}

/// Reverse the order of the scores.
pub fn reverse_scores(v: Vec<Score>) -> (r: Vec<Score>)
    ensures
        views_of(r@) == views_of(v@).reverse(),
{
    let ghost orig = views_of(v@);
    let mut rest = v;
    let mut out: Vec<Score> = Vec::new();
    while rest.len() > 0
        invariant
            rest@.len() + out@.len() == orig.len(),
            views_of(rest@) == orig.take(rest@.len() as int),
            forall|j: int| 0 <= j < out@.len() ==> views_of(out@)[j] == orig[orig.len() - 1 - j],
        decreases rest@.len(),
    {
        let n = rest.len();
        let ghost prev = rest@;
        let ghost prev_out = out@;
        let x = rest.remove(n - 1);
        proof {
            assert(x@ == views_of(prev)[n - 1]);
            assert(x@ == orig[n - 1]);
            assert(views_of(rest@) =~= orig.take(n as int - 1)) by {
                assert forall|j: int| 0 <= j < rest@.len() implies views_of(rest@)[j] == orig.take(
                    n as int - 1,
                )[j] by {
                    assert(rest@[j] == prev.remove(n as int - 1)[j]);
                    assert(prev.remove(n as int - 1)[j] == prev[j]);
                    assert(views_of(prev)[j] == orig.take(n as int)[j]);
                }
            }
        }
        out.push(x);
        proof {
            assert forall|j: int| 0 <= j < out@.len() implies views_of(out@)[j] == orig[orig.len()
                - 1 - j] by {
                if j < out@.len() - 1 {
                    assert(out@[j] == prev_out[j]);
                    assert(views_of(prev_out)[j] == orig[orig.len() - 1 - j]);
                } else {
                    assert(out@[j] == x);
                }
            }
        }
    }
    proof {
        assert(views_of(out@) =~= orig.reverse());
    }
    out
}

/// Copy the scores in a half-open index range.
pub fn slice_scores(v: &Vec<Score>, start: usize, end: usize) -> (r: Vec<Score>)
    requires
        start <= end <= v@.len(),
    ensures
        views_of(r@) == views_of(v@).subrange(start as int, end as int),
{
    let mut out: Vec<Score> = Vec::new();
    let mut j: usize = start;
    while j < end
        invariant
            start <= j <= end <= v@.len(),
            views_of(out@) == views_of(v@).subrange(start as int, j as int),
        decreases end - j,
    {
        let ghost prev_out = out@;
        let x = v[j].duplicate();
        proof {
            assert(views_of(prev_out).len() == prev_out.len());
            assert(prev_out.len() == j - start);
        }
        out.push(x);
        proof {
            assert(views_of(out@) =~= views_of(v@).subrange(start as int, j as int + 1)) by {
                assert forall|q: int| 0 <= q < out@.len() implies views_of(out@)[q] == views_of(
                    v@,
                ).subrange(start as int, j as int + 1)[q] by {
                    if q < out@.len() - 1 {
                        assert(out@[q] == prev_out[q]);
                        assert(views_of(prev_out)[q] == views_of(v@).subrange(
                            start as int,
                            j as int,
                        )[q]);
                    } else {
                        assert(out@[q] == x);
                        assert(x@ == v@[j as int]@);
                    }
                }
            }
        }
        j = j + 1;
    }
    out
}

/// The scores that match a query, in their stored order.
pub open spec fn matching_scores(
    scores: Seq<ScoreV>,
    fields: Seq<ScoreSearchParameter>,
    value: Seq<char>,
) -> Seq<ScoreV>
    decreases scores.len(),
{
    if scores.len() == 0 {
        scores
    } else {
        let head = matching_scores(scores.drop_last(), fields, value);
        if score_matches(scores.last(), fields, value) {
            head.push(scores.last())
        } else {
            head
        }
    }
}

/// The matching scores are exactly the scores that match.
pub proof fn lemma_matching_scores_elems(
    scores: Seq<ScoreV>,
    fields: Seq<ScoreSearchParameter>,
    value: Seq<char>,
)
    ensures
        forall|j: int|
            0 <= j < matching_scores(scores, fields, value).len() ==> scores.contains(
                #[trigger] matching_scores(scores, fields, value)[j],
            ) && score_matches(matching_scores(scores, fields, value)[j], fields, value),
        forall|i: int|
            0 <= i < scores.len() && score_matches(#[trigger] scores[i], fields, value)
                ==> matching_scores(scores, fields, value).contains(scores[i]),
    decreases scores.len(),
{
    if scores.len() > 0 {
        lemma_matching_scores_elems(scores.drop_last(), fields, value);
        let head = matching_scores(scores.drop_last(), fields, value);
        let out = matching_scores(scores, fields, value);
        assert forall|j: int| 0 <= j < out.len() implies scores.contains(out[j]) && score_matches(
            out[j],
            fields,
            value,
        ) by {
            if j < head.len() {
                assert(scores.drop_last().contains(head[j]));
                let w = choose|w: int|
                    0 <= w < scores.drop_last().len() && scores.drop_last()[w] == head[j];
                assert(scores[w] == head[j]);
            } else {
                assert(out[j] == scores.last());
                assert(scores[scores.len() - 1] == scores.last());
            }
        }
        assert forall|i: int|
            0 <= i < scores.len() && score_matches(scores[i], fields, value) implies out.contains(
            scores[i],
        ) by {
            if i < scores.len() - 1 {
                assert(scores.drop_last()[i] == scores[i]);
                assert(head.contains(scores[i]));
                let w = choose|w: int| 0 <= w < head.len() && head[w] == scores[i];
                assert(out[w] == scores[i]);
            } else {
                assert(out[out.len() - 1] == scores.last());
            }
        }
    }
}

/// Collect the scores that match the query, keeping their stored order.
pub fn filter_matching(
    scores: &Vec<Score>,
    fields: &Vec<ScoreSearchParameter>,
    value: &String,
) -> (r: Vec<Score>)
    ensures
        views_of(r@) == matching_scores(views_of(scores@), fields@, value@),
{
    let ghost m = views_of(scores@);
    let mut out: Vec<Score> = Vec::new();
    let mut i: usize = 0;
    while i < scores.len()
        invariant
            i <= scores@.len(),
            m == views_of(scores@),
            views_of(out@) == matching_scores(m.take(i as int), fields@, value@),
        decreases scores@.len() - i,
    {
        proof {
            assert(m.take(i as int + 1).drop_last() =~= m.take(i as int));
            assert(m.take(i as int + 1).last() == m[i as int]);
        }
        if score_matches_exec(&scores[i], fields, value) {
            let ghost prev_out = out@;
            let x = scores[i].duplicate();
            out.push(x);
            proof {
                assert(views_of(out@) =~= views_of(prev_out).push(x@)) by {
                    assert(views_of(out@).len() == prev_out.len() + 1);
                    assert(forall|q: int|
                        0 <= q < prev_out.len() ==> out@[q] == prev_out[q]);
                }
                assert(x@ == m[i as int]);
            }
        }
        i = i + 1;
    }
    proof {
        assert(m.take(i as int) =~= m);
    }
    out
}

/// The scores located in one book, in their stored order.
pub open spec fn located_scores(scores: Seq<ScoreV>, book: int) -> Seq<ScoreV>
    decreases scores.len(),
{
    if scores.len() == 0 {
        scores
    } else {
        let head = located_scores(scores.drop_last(), book);
        let s = scores.last();
        if s.location is Some && s.location->0.book == book {
            head.push(s)
        } else {
            head
        }
    }
}

/// The pages of a book: its scores ordered by where their location begins,
/// ties broken by id.
pub open spec fn book_pages_v(scores: Seq<ScoreV>, book: int) -> Seq<ScoreV> {
    sort_scores_v(SortKey::ByLocation, located_scores(scores, book))
}

/// Collect the scores located in the book, keeping their stored order.
pub fn filter_located(scores: &Vec<Score>, book: i64) -> (r: Vec<Score>)
    ensures
        views_of(r@) == located_scores(views_of(scores@), book as int),
{
    let ghost m = views_of(scores@);
    let mut out: Vec<Score> = Vec::new();
    let mut i: usize = 0;
    while i < scores.len()
        invariant
            i <= scores@.len(),
            m == views_of(scores@),
            views_of(out@) == located_scores(m.take(i as int), book as int),
        decreases scores@.len() - i,
    {
        proof {
            assert(m.take(i as int + 1).drop_last() =~= m.take(i as int));
            assert(m.take(i as int + 1).last() == m[i as int]);
        }
        let here = match &scores[i].location {
            Option::Some(p) => p.book == book,
            Option::None => false,
        };
        if here {
            let ghost prev_out = out@;
            let x = scores[i].duplicate();
            out.push(x);
            proof {
                assert(views_of(out@) =~= views_of(prev_out).push(x@)) by {
                    assert(views_of(out@).len() == prev_out.len() + 1);
                    assert(forall|q: int| 0 <= q < prev_out.len() ==> out@[q] == prev_out[q]);
                }
                assert(x@ == m[i as int]);
            }
        }
        i = i + 1;
    }
    proof {
        assert(m.take(i as int) =~= m);
    }
    out
}

/// One page of search results, with the total number of matches.
pub struct ResultPage {
    /// The scores of the requested page, in result order.
    pub items: Vec<Score>,
    /// How many scores match the query in all.
    pub total: usize,
}

/// The full ordered result of a query, before pagination: the matching
/// scores ordered by title (ties broken by id), reversed when descending.
pub open spec fn search_order(
    scores: Seq<ScoreV>,
    fields: Seq<ScoreSearchParameter>,
    value: Seq<char>,
    descending: bool,
) -> Seq<ScoreV> {
    let sorted = sort_scores_v(SortKey::ByTitle, matching_scores(scores, fields, value));
    if descending {
        sorted.reverse()
    } else {
        sorted
    }
}

/// The page size actually served: the requested limit, bounded by the
/// ceiling.
pub open spec fn effective_limit(limit: int) -> int {
    if limit > MAX_PAGE_SIZE as int {
        MAX_PAGE_SIZE as int
    } else {
        limit
    }
}

/// The slice of the full result that one zero-indexed page holds.
pub open spec fn page_slice(full: Seq<ScoreV>, page: int, limit: int) -> Seq<ScoreV> {
    let eff = effective_limit(limit);
    let lo = if page * eff > full.len() {
        full.len() as int
    } else {
        page * eff
    };
    let hi = if lo + eff > full.len() {
        full.len() as int
    } else {
        lo + eff
    };
    full.subrange(lo, hi)
}

/// Select the scores of one page out of the full ordered result.
pub fn paginate(full: &Vec<Score>, page: usize, limit: usize) -> (r: Vec<Score>)
    ensures
        views_of(r@) == page_slice(views_of(full@), page as int, limit as int),
{
    let eff: usize = if limit > MAX_PAGE_SIZE {
        MAX_PAGE_SIZE
    } else {
        limit
    };
    let n = full.len();
    let lo: usize = match page.checked_mul(eff) {
        Option::Some(p) => {
            if p > n {
                n
            } else {
                p
            }
        },
        Option::None => {
            proof {
                assert(page * eff > usize::MAX);
                assert(n <= usize::MAX);
            }
            n
        },
    };
    let hi: usize = if n - lo > eff {
        lo + eff
    } else {
        n
    };
    slice_scores(full, lo, hi)
}

} // verus!
