//! Laws of the catalog: properties that relate several operations, stated
//! and proved over the operations' mathematical models.

use vstd::prelude::*;

use crate::error::ArchiveError;
use crate::model::{ScoreV, PageV, PageNumberV, ScoreSearchParameter};
use crate::model::{pn_le, pn_cmp, pn_ok, validate_page_v, lemma_pn_cmp_flip};
use crate::order::Cmp;
use crate::catalog::{CatalogV, has_score, score_at, score_index, validate_location_v};
use crate::catalog::{stored_score_v, delete_score_v, clear_back};
use crate::registry::{distinct_strs, lemma_dedup_v_ensures};
use crate::search::{SortKey, sorted_by, search_order, matching_scores, located_scores};
use crate::search::{book_pages_v, lemma_sort_scores_v_ensures};
use crate::catalog::lemma_delete_score_v_elems;

verus! {

/// A locator over a valid pair whose end does not lie before its begin is
/// accepted when its book exists; swapping a strictly ordered pair is
/// rejected with `InvalidRange`.
pub proof fn lemma_locator_range(book: int, a: PageNumberV, b: PageNumberV)
    requires
        pn_le(a, b),
        pn_ok(a),
        pn_ok(b),
    ensures
        validate_page_v((PageV { book, begin: a, end: Some(b) }), true) == Result::<
            (),
            ArchiveError,
        >::Ok(()),
        pn_cmp(a, b) == Cmp::Lt ==> validate_page_v((PageV { book, begin: b, end: Some(a) }), true)
            == Result::<(), ArchiveError>::Err(ArchiveError::InvalidRange),
{
    lemma_pn_cmp_flip(a, b);
}

/// Round trip: creating a score from an accepted payload and fetching it by
/// the id it received yields the stored score, which is equal to the payload
/// in every field but the id, provided the payload's set-valued fields hold
/// no repetitions.
pub proof fn lemma_create_then_get(c: CatalogV, p: ScoreV)
    requires
        c.wf(),
        c.next_score_id < i64::MAX,
        p.id is None,
        p.title.len() != 0,
        validate_location_v(c.books, p.location) is Ok,
        distinct_strs(p.genres),
        distinct_strs(p.composers),
        distinct_strs(p.arrangers),
        distinct_strs(p.publishers),
        distinct_strs(p.alias),
    ensures
        ({
            let st = stored_score_v(p, c.next_score_id);
            let stored_scores = c.scores.push(st);
            &&& has_score(stored_scores, c.next_score_id)
            &&& score_at(stored_scores, c.next_score_id) == st
            &&& st.id == Some(c.next_score_id)
            &&& st.title == p.title
            &&& st.genres == p.genres
            &&& st.composers == p.composers
            &&& st.arrangers == p.arrangers
            &&& st.publishers == p.publishers
            &&& st.grade == p.grade
            &&& st.alias == p.alias
            &&& st.sub_titles == p.sub_titles
            &&& st.annotation == p.annotation
            &&& st.back_of == p.back_of
            &&& st.location == p.location
        }),
{
    lemma_dedup_v_ensures(p.genres);
    lemma_dedup_v_ensures(p.composers);
    lemma_dedup_v_ensures(p.arrangers);
    lemma_dedup_v_ensures(p.publishers);
    lemma_dedup_v_ensures(p.alias);
    let st = stored_score_v(p, c.next_score_id);
    let stored_scores = c.scores.push(st);
    let n = c.scores.len() as int;
    assert(stored_scores[n] == st);
    assert(has_score(stored_scores, c.next_score_id));
    let k = score_index(stored_scores, c.next_score_id);
    assert(0 <= k < stored_scores.len() && stored_scores[k].id == Some(c.next_score_id));
    if k < n {
        // Every previously stored score carries a smaller id.
        assert(c.scores[k].id is Some && c.scores[k].id->0 < c.next_score_id);
        assert(stored_scores[k] == c.scores[k]);
    }
    assert(k == n);
}

/// Deleting a score id is idempotent: a second deletion of the same id
/// changes nothing, so deleting an already-deleted id is the same no-op
/// success both times.
pub proof fn lemma_delete_score_idempotent(scores: Seq<ScoreV>, id: int)
    ensures
        delete_score_v(delete_score_v(scores, id), id) == delete_score_v(scores, id),
{
    lemma_delete_score_v_elems(scores, id);
    lemma_delete_score_v_noop(delete_score_v(scores, id), id);
}

/// Deleting an id that no score carries or refers to changes nothing.
pub proof fn lemma_delete_score_v_noop(scores: Seq<ScoreV>, id: int)
    requires
        forall|j: int|
            0 <= j < scores.len() ==> (#[trigger] scores[j]).id != Some(id as int)
                && scores[j].back_of != Some(id as int),
    ensures
        delete_score_v(scores, id) == scores,
    decreases scores.len(),
{
    if scores.len() > 0 {
        assert(forall|j: int|
            0 <= j < scores.drop_last().len() ==> #[trigger] scores.drop_last()[j] == scores[j]);
        lemma_delete_score_v_noop(scores.drop_last(), id);
        assert(scores[scores.len() - 1] == scores.last());
        assert(clear_back(scores.last(), id) == scores.last());
        assert(delete_score_v(scores, id) =~= scores);
    }
}

/// Search ordering: the ascending result is ordered by title with ties
/// broken by id; the descending result is its exact reverse; and both hold
/// exactly the matching scores. The result being a function of the stored
/// scores and the query alone, repeating a query repeats its order.
pub proof fn lemma_search_ordering(
    scores: Seq<ScoreV>,
    fields: Seq<ScoreSearchParameter>,
    value: Seq<char>,
)
    ensures
        sorted_by(SortKey::ByTitle, search_order(scores, fields, value, false)),
        search_order(scores, fields, value, true) == search_order(
            scores,
            fields,
            value,
            false,
        ).reverse(),
        search_order(scores, fields, value, false).to_multiset() == matching_scores(
            scores,
            fields,
            value,
        ).to_multiset(),
{
    lemma_sort_scores_v_ensures(SortKey::ByTitle, matching_scores(scores, fields, value));
}

/// The pages of a book are ordered by where their locations begin, ties
/// broken by id, and hold exactly the scores located in the book.
pub proof fn lemma_book_pages_ordering(scores: Seq<ScoreV>, book: int)
    ensures
        sorted_by(SortKey::ByLocation, book_pages_v(scores, book)),
        book_pages_v(scores, book).to_multiset() == located_scores(scores, book).to_multiset(),
{
    lemma_sort_scores_v_ensures(SortKey::ByLocation, located_scores(scores, book));
}

} // verus!
