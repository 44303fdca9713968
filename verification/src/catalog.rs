//! The catalog service: create, read, update and delete over scores and
//! books, with the catalog-wide invariants.
//!
//! Documented policy choices:
//! - ids are assigned by the service from a counter; a client-supplied id on
//!   create fails with `IdNotAllowed`;
//! - a score's title is required: an empty title fails with `InvalidTitle`;
//! - a locator with a negative page number fails with `InvalidRange`, like
//!   one whose end lies before its begin;
//! - deleting a score is idempotent: deleting it again changes nothing.
//!   Every `back_of` reference naming the deleted id is cleared, even a
//!   dangling one whose target was never stored (a stored score may name a
//!   nonexistent score as its front side); with that clearing done, deleting
//!   an absent id is a no-op success;
//! - deleting a book is likewise a no-op success, and clears the location of
//!   every score it bound;
//! - overlapping placements within one book are not rejected;
//! - an update takes the id from its first argument and ignores any id in
//!   the payload.

use vstd::prelude::*;

use crate::error::ArchiveError;
use crate::model::{Score, Book, ScoreV, BookV, PageV, ScoreSearchParameters};
use crate::model::{validate_page_v, seq_views};
use crate::search::{views_of, ResultPage, SortKey, search_order, page_slice, book_pages_v};
use crate::search::{filter_matching, filter_located, sort_scores, reverse_scores, paginate};
use crate::registry::{distinct_strs, dedup_v, intern_all, dedup_strings, intern_names};
use crate::registry::{lemma_dedup_v_ensures, lemma_intern_all_ensures};

verus! {

/// The catalog: the stored scores and books, the id counters, and the
/// registry of contributor names.
pub struct Catalog {
    /// The stored scores, each carrying an assigned id.
    pub scores: Vec<Score>,
    /// The stored books, each carrying an assigned id.
    pub books: Vec<Book>,
    /// The id the next created score receives.
    pub next_score_id: i64,
    /// The id the next created book receives.
    pub next_book_id: i64,
    /// Every contributor name of every stored score, each name once.
    pub contributors: Vec<String>,
}

/// Mathematical model of the catalog.
#[verifier::ext_equal]
pub ghost struct CatalogV {
    pub scores: Seq<ScoreV>,
    pub books: Seq<BookV>,
    pub next_score_id: int,
    pub next_book_id: int,
    pub contributors: Seq<Seq<char>>,
}

/// The views of a sequence of books.
pub open spec fn book_views_of(s: Seq<Book>) -> Seq<BookV> {
    s.map_values(|b: Book| b@)
}

impl View for Catalog {
    type V = CatalogV;

    open spec fn view(&self) -> CatalogV {
        CatalogV {
            scores: views_of(self.scores@),
            books: book_views_of(self.books@),
            next_score_id: self.next_score_id as int,
            next_book_id: self.next_book_id as int,
            contributors: seq_views(self.contributors@),
        }
    }
}

/// Some stored score carries the id.
pub open spec fn has_score(scores: Seq<ScoreV>, id: int) -> bool {
    exists|i: int| 0 <= i < scores.len() && scores[i].id == Some(id as int)
}

/// The index of the score carrying the id; meaningful under uniqueness.
pub open spec fn score_index(scores: Seq<ScoreV>, id: int) -> int {
    choose|i: int| 0 <= i < scores.len() && scores[i].id == Some(id as int)
}

/// The score carrying the id.
pub open spec fn score_at(scores: Seq<ScoreV>, id: int) -> ScoreV {
    scores[score_index(scores, id)]
}

/// Some stored book carries the id.
pub open spec fn has_book(books: Seq<BookV>, id: int) -> bool {
    exists|i: int| 0 <= i < books.len() && books[i].id == Some(id as int)
}

/// The index of the book carrying the id; meaningful under uniqueness.
pub open spec fn book_index(books: Seq<BookV>, id: int) -> int {
    choose|i: int| 0 <= i < books.len() && books[i].id == Some(id as int)
}

/// The book carrying the id.
pub open spec fn book_at(books: Seq<BookV>, id: int) -> BookV {
    books[book_index(books, id)]
}

/// What validating a score's location returns: nothing to check when it is
/// absent, else the locator's own validation against the stored books.
pub open spec fn validate_location_v(books: Seq<BookV>, loc: Option<PageV>) -> Result<
    (),
    ArchiveError,
> {
    match loc {
        Option::None => Result::Ok(()),
        Option::Some(p) => validate_page_v(p, has_book(books, p.book)),
    }
}

/// The contributor names a score carries.
pub open spec fn contributor_names(s: ScoreV) -> Seq<Seq<char>> {
    s.composers + s.arrangers + s.publishers
}

impl CatalogV {
    /// Every score carries an assigned id below the counter.
    pub open spec fn score_ids_ok(self) -> bool {
        forall|i: int|
            0 <= i < self.scores.len() ==> (#[trigger] self.scores[i]).id is Some && 0
                <= self.scores[i].id->0 < self.next_score_id
    }

    /// No two scores share an id.
    pub open spec fn score_ids_unique(self) -> bool {
        forall|i: int, j: int|
            0 <= i < j < self.scores.len() ==> (#[trigger] self.scores[i]).id != (
            #[trigger] self.scores[j]).id
    }

    /// Every book carries an assigned id below the counter.
    pub open spec fn book_ids_ok(self) -> bool {
        forall|i: int|
            0 <= i < self.books.len() ==> (#[trigger] self.books[i]).id is Some && 0
                <= self.books[i].id->0 < self.next_book_id
    }

    /// No two books share an id.
    pub open spec fn book_ids_unique(self) -> bool {
        forall|i: int, j: int|
            0 <= i < j < self.books.len() ==> (#[trigger] self.books[i]).id != (
            #[trigger] self.books[j]).id
    }

    /// Every set location names an existing book and spans a consistent
    /// range.
    pub open spec fn locations_ok(self) -> bool {
        forall|i: int|
            0 <= i < self.scores.len() ==> validate_location_v(
                self.books,
                (#[trigger] self.scores[i]).location,
            ) is Ok
    }

    /// Every score carries a non-empty title.
    pub open spec fn titles_ok(self) -> bool {
        forall|i: int| 0 <= i < self.scores.len() ==> (#[trigger] self.scores[i]).title.len() > 0
    }

    /// The registry holds every contributor name of every score, and each
    /// name at most once.
    pub open spec fn registry_ok(self) -> bool {
        &&& distinct_strs(self.contributors)
        &&& forall|i: int, j: int|
            0 <= i < self.scores.len() && 0 <= j < contributor_names(self.scores[i]).len()
                ==> self.contributors.contains(#[trigger] contributor_names(self.scores[i])[j])
    }

    /// The catalog-wide invariant.
    pub open spec fn wf(self) -> bool {
        &&& self.score_ids_ok()
        &&& self.score_ids_unique()
        &&& self.book_ids_ok()
        &&& self.book_ids_unique()
        &&& self.locations_ok()
        &&& self.titles_ok()
        &&& self.registry_ok()
        &&& 0 <= self.next_score_id <= i64::MAX
        &&& 0 <= self.next_book_id <= i64::MAX
    }
}

/// The score as the catalog stores it under an assigned id: the set-valued
/// fields deduplicated, everything else as given.
pub open spec fn stored_score_v(p: ScoreV, id: int) -> ScoreV {
    ScoreV {
        id: Some(id as int),
        title: p.title,
        genres: dedup_v(p.genres),
        composers: dedup_v(p.composers),
        arrangers: dedup_v(p.arrangers),
        publishers: dedup_v(p.publishers),
        grade: p.grade,
        alias: dedup_v(p.alias),
        sub_titles: p.sub_titles,
        annotation: p.annotation,
        back_of: p.back_of,
        location: p.location,
    }
}

/// The book as the catalog stores it under an assigned id.
pub open spec fn stored_book_v(p: BookV, id: int) -> BookV {
    BookV { id: Some(id as int), name: p.name, annotation: p.annotation }
}

/// The registry after registering a score's contributors, in field order.
pub open spec fn intern_contribs(regs: Seq<Seq<char>>, p: ScoreV) -> Seq<Seq<char>> {
    intern_all(intern_all(intern_all(regs, p.composers), p.arrangers), p.publishers)
}

/// A score with its `back_of` reference cleared when it points at the id.
pub open spec fn clear_back(s: ScoreV, id: int) -> ScoreV {
    if s.back_of == Some(id as int) {
        ScoreV { back_of: Option::None, ..s }
    } else {
        s
    }
}

/// A score with its location cleared when it lies in the book.
pub open spec fn clear_location(s: ScoreV, book: int) -> ScoreV {
    if s.location is Some && s.location->0.book == book {
        ScoreV { location: Option::None, ..s }
    } else {
        s
    }
}

/// The scores after a deletion: the carrier of the id dropped, and every
/// `back_of` reference to it cleared, order kept.
pub open spec fn delete_score_v(scores: Seq<ScoreV>, id: int) -> Seq<ScoreV>
    decreases scores.len(),
{
    if scores.len() == 0 {
        scores
    } else {
        let head = delete_score_v(scores.drop_last(), id);
        let x = scores.last();
        if x.id == Some(id as int) {
            head
        } else {
            head.push(clear_back(x, id))
        }
    }
}

/// The books after a deletion: the carrier of the id dropped, order kept.
pub open spec fn delete_book_v(books: Seq<BookV>, id: int) -> Seq<BookV>
    decreases books.len(),
{
    if books.len() == 0 {
        books
    } else {
        let head = delete_book_v(books.drop_last(), id);
        let x = books.last();
        if x.id == Some(id as int) {
            head
        } else {
            head.push(x)
        }
    }
}

/// After a score deletion, every entry stems from a kept stored score, no
/// entry carries the deleted id, and no entry refers to it.
pub proof fn lemma_delete_score_v_elems(scores: Seq<ScoreV>, id: int)
    ensures
        forall|j: int|
            0 <= j < delete_score_v(scores, id).len() ==> exists|w: int|
                0 <= w < scores.len() && #[trigger] delete_score_v(scores, id)[j] == clear_back(
                    scores[w],
                    id,
                ) && scores[w].id != Some(id as int),
        forall|j: int|
            0 <= j < delete_score_v(scores, id).len() ==> (#[trigger] delete_score_v(scores, id)[j]).id
                != Some(id as int),
        forall|j: int|
            0 <= j < delete_score_v(scores, id).len() ==> (#[trigger] delete_score_v(scores, id)[j]).back_of
                != Some(id as int),
    decreases scores.len(),
{
    if scores.len() > 0 {
        lemma_delete_score_v_elems(scores.drop_last(), id);
        let head = delete_score_v(scores.drop_last(), id);
        let out = delete_score_v(scores, id);
        assert forall|j: int| 0 <= j < out.len() implies exists|w: int|
            0 <= w < scores.len() && #[trigger] out[j] == clear_back(scores[w], id)
                && scores[w].id != Some(id as int) by {
            if j < head.len() {
                assert(out[j] == head[j]);
                let w = choose|w: int|
                    0 <= w < scores.drop_last().len() && head[j] == clear_back(
                        scores.drop_last()[w],
                        id,
                    ) && scores.drop_last()[w].id != Some(id as int);
                assert(scores[w] == scores.drop_last()[w]);
                assert(out[j] == clear_back(scores[w], id) && scores[w].id != Some(id as int));
            } else {
                assert(out[j] == clear_back(scores.last(), id));
                assert(scores[scores.len() - 1] == scores.last());
            }
        }
        assert forall|j: int| 0 <= j < out.len() implies (#[trigger] out[j]).id != Some(
            id as int,
        ) && out[j].back_of != Some(id as int) by {
            let w = choose|w: int|
                0 <= w < scores.len() && out[j] == clear_back(scores[w], id) && scores[w].id
                    != Some(id as int);
            assert(clear_back(scores[w], id).id == scores[w].id);
        }
    }
}

/// A score deletion keeps the ids pairwise distinct.
pub proof fn lemma_delete_score_v_unique(scores: Seq<ScoreV>, id: int)
    requires
        forall|i: int, j: int|
            0 <= i < j < scores.len() ==> (#[trigger] scores[i]).id != (#[trigger] scores[j]).id,
    ensures
        forall|i: int, j: int|
            0 <= i < j < delete_score_v(scores, id).len() ==> (#[trigger] delete_score_v(
                scores,
                id,
            )[i]).id != (#[trigger] delete_score_v(scores, id)[j]).id,
    decreases scores.len(),
{
    if scores.len() > 0 {
        lemma_delete_score_v_unique(scores.drop_last(), id);
        lemma_delete_score_v_elems(scores.drop_last(), id);
        let head = delete_score_v(scores.drop_last(), id);
        let out = delete_score_v(scores, id);
        if scores.last().id != Some(id as int) {
            assert forall|i: int, j: int| 0 <= i < j < out.len() implies (#[trigger] out[i]).id
                != (#[trigger] out[j]).id by {
                if j == out.len() - 1 {
                    assert(out[i] == head[i]);
                    let w = choose|w: int|
                        0 <= w < scores.drop_last().len() && head[i] == clear_back(
                            scores.drop_last()[w],
                            id,
                        ) && scores.drop_last()[w].id != Some(id as int);
                    assert(head[i].id == scores[w].id);
                    assert(out[j].id == scores.last().id);
                    assert(scores[w].id != scores[scores.len() - 1].id);
                } else {
                    assert(out[i] == head[i] && out[j] == head[j]);
                }
            }
        }
    }
}

/// After a book deletion, every entry stems from a kept stored book, and
/// every other stored book is kept.
pub proof fn lemma_delete_book_v_elems(books: Seq<BookV>, id: int)
    ensures
        forall|j: int|
            0 <= j < delete_book_v(books, id).len() ==> exists|w: int|
                0 <= w < books.len() && #[trigger] delete_book_v(books, id)[j] == books[w]
                    && books[w].id != Some(id as int),
        forall|w: int|
            0 <= w < books.len() && (#[trigger] books[w]).id != Some(id as int) ==> delete_book_v(
                books,
                id,
            ).contains(books[w]),
    decreases books.len(),
{
    if books.len() > 0 {
        lemma_delete_book_v_elems(books.drop_last(), id);
        let head = delete_book_v(books.drop_last(), id);
        let out = delete_book_v(books, id);
        assert forall|j: int| 0 <= j < out.len() implies exists|w: int|
            0 <= w < books.len() && #[trigger] out[j] == books[w] && books[w].id != Some(
                id as int,
            ) by {
            if j < head.len() {
                assert(out[j] == head[j]);
                let w = choose|w: int|
                    0 <= w < books.drop_last().len() && head[j] == books.drop_last()[w]
                        && books.drop_last()[w].id != Some(id as int);
                assert(books[w] == books.drop_last()[w]);
            } else {
                assert(out[j] == books.last());
                assert(books[books.len() - 1] == books.last());
            }
        }
        assert forall|w: int|
            0 <= w < books.len() && (#[trigger] books[w]).id != Some(id as int) implies out.contains(
            books[w],
        ) by {
            if w < books.len() - 1 {
                assert(books.drop_last()[w] == books[w]);
                assert(head.contains(books[w]));
                let v = choose|v: int| 0 <= v < head.len() && head[v] == books[w];
                assert(out[v] == books[w]);
            } else {
                assert(out[out.len() - 1] == books.last());
            }
        }
    }
}

/// A book deletion keeps the ids pairwise distinct.
pub proof fn lemma_delete_book_v_unique(books: Seq<BookV>, id: int)
    requires
        forall|i: int, j: int|
            0 <= i < j < books.len() ==> (#[trigger] books[i]).id != (#[trigger] books[j]).id,
    ensures
        forall|i: int, j: int|
            0 <= i < j < delete_book_v(books, id).len() ==> (#[trigger] delete_book_v(
                books,
                id,
            )[i]).id != (#[trigger] delete_book_v(books, id)[j]).id,
    decreases books.len(),
{
    if books.len() > 0 {
        lemma_delete_book_v_unique(books.drop_last(), id);
        lemma_delete_book_v_elems(books.drop_last(), id);
        let head = delete_book_v(books.drop_last(), id);
        let out = delete_book_v(books, id);
        if books.last().id != Some(id as int) {
            assert forall|i: int, j: int| 0 <= i < j < out.len() implies (#[trigger] out[i]).id
                != (#[trigger] out[j]).id by {
                if j == out.len() - 1 {
                    assert(out[i] == head[i]);
                    let w = choose|w: int|
                        0 <= w < books.drop_last().len() && head[i] == books.drop_last()[w]
                            && books.drop_last()[w].id != Some(id as int);
                    assert(head[i].id == books[w].id);
                    assert(books[w].id != books[books.len() - 1].id);
                } else {
                    assert(out[i] == head[i] && out[j] == head[j]);
                }
            }
        }
    }
}

/// Registering a score's contributors keeps the registry distinct, keeps
/// every registered name, and covers every contributor name the stored score
/// carries.
pub proof fn lemma_intern_contribs(regs: Seq<Seq<char>>, pv: ScoreV, id: int)
    ensures
        distinct_strs(regs) ==> distinct_strs(intern_contribs(regs, pv)),
        forall|x: Seq<char>| regs.contains(x) ==> #[trigger] intern_contribs(regs, pv).contains(x),
        forall|j: int|
            0 <= j < contributor_names(stored_score_v(pv, id)).len() ==> intern_contribs(
                regs,
                pv,
            ).contains(#[trigger] contributor_names(stored_score_v(pv, id))[j]),
{
    lemma_intern_all_ensures(regs, pv.composers);
    lemma_intern_all_ensures(intern_all(regs, pv.composers), pv.arrangers);
    lemma_intern_all_ensures(intern_all(intern_all(regs, pv.composers), pv.arrangers), pv.publishers);
    lemma_dedup_v_ensures(pv.composers);
    lemma_dedup_v_ensures(pv.arrangers);
    lemma_dedup_v_ensures(pv.publishers);
    let st = stored_score_v(pv, id);
    let out = intern_contribs(regs, pv);
    assert forall|j: int| 0 <= j < contributor_names(st).len() implies out.contains(
        #[trigger] contributor_names(st)[j],
    ) by {
        let x = contributor_names(st)[j];
        let nc = dedup_v(pv.composers).len() as int;
        let na = dedup_v(pv.arrangers).len() as int;
        if j < nc {
            assert(x == dedup_v(pv.composers)[j]);
            assert(dedup_v(pv.composers).contains(x));
            assert(pv.composers.contains(x));
            let w = choose|w: int| 0 <= w < pv.composers.len() && pv.composers[w] == x;
            assert(intern_all(regs, pv.composers).contains(pv.composers[w]));
        } else if j < nc + na {
            assert(x == dedup_v(pv.arrangers)[j - nc]);
            assert(dedup_v(pv.arrangers).contains(x));
            assert(pv.arrangers.contains(x));
            let w = choose|w: int| 0 <= w < pv.arrangers.len() && pv.arrangers[w] == x;
            assert(intern_all(intern_all(regs, pv.composers), pv.arrangers).contains(
                pv.arrangers[w],
            ));
        } else {
            assert(x == dedup_v(pv.publishers)[j - nc - na]);
            assert(dedup_v(pv.publishers).contains(x));
            assert(pv.publishers.contains(x));
            let w = choose|w: int| 0 <= w < pv.publishers.len() && pv.publishers[w] == x;
            assert(out.contains(pv.publishers[w]));
        }
    }
}

impl Catalog {
    /// An empty catalog.
    pub fn new() -> (r: Catalog)
        ensures
            r@.wf(),
            r@.scores == Seq::<ScoreV>::empty(),
            r@.books == Seq::<BookV>::empty(),
            r@.contributors == Seq::<Seq<char>>::empty(),
            r@.next_score_id == 0,
            r@.next_book_id == 0,
    {
        let r = Catalog {
            scores: Vec::new(),
            books: Vec::new(),
            next_score_id: 0,
            next_book_id: 0,
            contributors: Vec::new(),
        };
        proof {
            assert(r@.scores =~= Seq::<ScoreV>::empty());
            assert(r@.books =~= Seq::<BookV>::empty());
            assert(r@.contributors =~= Seq::<Seq<char>>::empty());
        }
        r
    }

    /// Whether a stored book carries the id.
    pub fn book_exists(&self, id: i64) -> (r: bool)
        ensures
            r == has_book(self@.books, id as int),
    {
        let mut i: usize = 0;
        while i < self.books.len()
            invariant
                i <= self.books@.len(),
                forall|j: int| 0 <= j < i ==> book_views_of(self.books@)[j].id != Some(id as int),
            decreases self.books@.len() - i,
        {
            if let Option::Some(b) = self.books[i].id {
                if b == id {
                    assert(book_views_of(self.books@)[i as int].id == Some(id as int));
                    return true;
                }
            }
            i = i + 1;
        }
        false
    }

    /// Create a score from a client payload: reject a client-supplied id,
    /// then an empty title, then validate the location against the stored
    /// books; deduplicate the set-valued fields, register the contributors,
    /// assign the next id, and return the stored score. The id counter not
    /// having run out is a machine limit on the caller.
    pub fn create_score(&mut self, payload: Score) -> (r: Result<Score, ArchiveError>)
        requires
            old(self)@.wf(),
            old(self)@.next_score_id < i64::MAX,
        ensures
            final(self)@.wf(),
            match r {
                Result::Err(e) => {
                    &&& final(self)@ == old(self)@
                    &&& (e == ArchiveError::IdNotAllowed <==> payload@.id is Some)
                    &&& payload@.id is None ==> (e == ArchiveError::InvalidTitle <==> payload@.title.len() == 0)
                    &&& (payload@.id is None && payload@.title.len() != 0) ==> Result::<
                        (),
                        ArchiveError,
                    >::Err(e) == validate_location_v(old(self)@.books, payload@.location)
                },
                Result::Ok(s) => {
                    &&& payload@.id is None
                    &&& payload@.title.len() != 0
                    &&& validate_location_v(old(self)@.books, payload@.location) is Ok
                    &&& s@ == stored_score_v(payload@, old(self)@.next_score_id)
                    &&& final(self)@.scores == old(self)@.scores.push(s@)
                    &&& final(self)@.books == old(self)@.books
                    &&& final(self)@.next_score_id == old(self)@.next_score_id + 1
                    &&& final(self)@.next_book_id == old(self)@.next_book_id
                    &&& final(self)@.contributors == intern_contribs(old(self)@.contributors, payload@)
                },
            },
    {
        let ghost c0 = old(self)@;
        let ghost pv = payload@;
        let Score {
            id: pid,
            title,
            genres,
            composers,
            arrangers,
            publishers,
            grade,
            alias,
            sub_titles,
            annotation,
            back_of,
            location,
        } = payload;
        if pid.is_some() {
            return Result::Err(ArchiveError::IdNotAllowed);
        }
        if title.as_str().is_empty() {
            return Result::Err(ArchiveError::InvalidTitle);
        }
        match &location {
            Option::Some(p) => {
                let be = self.book_exists(p.book);
                match p.validate(be) {
                    Result::Err(e) => {
                        return Result::Err(e);
                    },
                    Result::Ok(_) => {},
                }
            },
            Option::None => {},
        }
        assert(validate_location_v(c0.books, pv.location) is Ok);
        let id = self.next_score_id;
        self.next_score_id = id + 1;
        intern_names(&mut self.contributors, &composers);
        intern_names(&mut self.contributors, &arrangers);
        intern_names(&mut self.contributors, &publishers);
        let stored = Score {
            id: Option::Some(id),
            title,
            genres: dedup_strings(&genres),
            composers: dedup_strings(&composers),
            arrangers: dedup_strings(&arrangers),
            publishers: dedup_strings(&publishers),
            grade,
            alias: dedup_strings(&alias),
            sub_titles,
            annotation,
            back_of,
            location,
        };
        let ghost st = stored_score_v(pv, c0.next_score_id);
        proof {
            assert(stored@ =~= st);
            assert(self@.contributors == intern_contribs(c0.contributors, pv));
        }
        let out = stored.duplicate();
        let ghost before_push = self@;
        self.scores.push(stored);
        proof {
            assert(self@.scores =~= c0.scores.push(st)) by {
                assert(self@.scores.len() == c0.scores.len() + 1);
                assert(forall|q: int|
                    0 <= q < c0.scores.len() ==> self.scores@[q] == old(self).scores@[q]);
            }
            assert(self@.books == c0.books);
            lemma_intern_contribs(c0.contributors, pv, c0.next_score_id);
            let c1 = self@;
            assert(c1.score_ids_ok()) by {
                assert(forall|i: int|
                    0 <= i < c0.scores.len() ==> c1.scores[i] == c0.scores[i]);
                assert(c1.scores[c0.scores.len() as int] == st);
            }
            assert(c1.score_ids_unique()) by {
                assert(forall|i: int|
                    0 <= i < c0.scores.len() ==> c1.scores[i] == c0.scores[i]);
                assert(forall|i: int|
                    0 <= i < c0.scores.len() ==> (#[trigger] c0.scores[i]).id is Some
                        && c0.scores[i].id->0 < c0.next_score_id);
            }
            assert(c1.locations_ok()) by {
                assert(forall|i: int|
                    0 <= i < c0.scores.len() ==> c1.scores[i] == c0.scores[i]);
                assert(st.location == pv.location);
            }
            assert(c1.titles_ok()) by {
                assert(forall|i: int|
                    0 <= i < c0.scores.len() ==> c1.scores[i] == c0.scores[i]);
                assert(st.title == pv.title);
            }
            assert(c1.registry_ok()) by {
                assert(distinct_strs(c1.contributors));
                assert forall|i: int, j: int|
                    0 <= i < c1.scores.len() && 0 <= j < contributor_names(c1.scores[i]).len()
                    implies c1.contributors.contains(
                    contributor_names(c1.scores[i])[j],
                ) by {
                    if i < c0.scores.len() {
                        assert(c1.scores[i] == c0.scores[i]);
                        assert(c0.contributors.contains(contributor_names(c0.scores[i])[j]));
                    } else {
                        assert(c1.scores[i] == st);
                    }
                }
            }
        }
        Result::Ok(out)
    }

    /// Replace the score carrying the id with the payload: fail with
    /// `NotFound` when no score carries it, with `SelfReference` when the
    /// payload marks the score as printed on its own back, then with
    /// `InvalidTitle` on an empty title, and re-validate the location as on
    /// create. The payload's own id is ignored; the stored score keeps the
    /// addressed id.
    pub fn put_score(&mut self, id: i64, payload: Score) -> (r: Result<Score, ArchiveError>)
        requires
            old(self)@.wf(),
        ensures
            final(self)@.wf(),
            match r {
                Result::Err(e) => {
                    &&& final(self)@ == old(self)@
                    &&& (e == ArchiveError::NotFound <==> !has_score(
                        old(self)@.scores,
                        id as int,
                    ))
                    &&& has_score(old(self)@.scores, id as int) ==> (e
                        == ArchiveError::SelfReference <==> payload@.back_of == Some(id as int))
                    &&& (has_score(old(self)@.scores, id as int) && payload@.back_of != Some(
                        id as int,
                    )) ==> (e == ArchiveError::InvalidTitle <==> payload@.title.len() == 0)
                    &&& (has_score(old(self)@.scores, id as int) && payload@.back_of != Some(
                        id as int,
                    ) && payload@.title.len() != 0) ==> Result::<(), ArchiveError>::Err(e)
                        == validate_location_v(old(self)@.books, payload@.location)
                },
                Result::Ok(s) => {
                    &&& has_score(old(self)@.scores, id as int)
                    &&& payload@.back_of != Some(id as int)
                    &&& payload@.title.len() != 0
                    &&& validate_location_v(old(self)@.books, payload@.location) is Ok
                    &&& s@ == stored_score_v(payload@, id as int)
                    &&& final(self)@.scores == old(self)@.scores.update(
                        score_index(old(self)@.scores, id as int),
                        s@,
                    )
                    &&& final(self)@.books == old(self)@.books
                    &&& final(self)@.next_score_id == old(self)@.next_score_id
                    &&& final(self)@.next_book_id == old(self)@.next_book_id
                    &&& final(self)@.contributors == intern_contribs(
                        old(self)@.contributors,
                        payload@,
                    )
                },
            },
    {
        let ghost c0 = old(self)@;
        let ghost pv = payload@;
        let n = self.scores.len();
        let mut i: usize = 0;
        let mut at: usize = n;
        while i < n
            invariant
                i <= n,
                at <= n,
                n == self.scores@.len(),
                *self == *old(self),
                at == n ==> forall|j: int| 0 <= j < i ==> c0.scores[j].id != Some(id as int),
                at < n ==> c0.scores[at as int].id == Some(id as int),
                c0 == self@,
            decreases n - i,
        {
            if at == n {
                if let Option::Some(s) = self.scores[i].id {
                    if s == id {
                        at = i;
                    }
                }
            }
            i = i + 1;
        }
        if at == n {
            proof {
                if has_score(c0.scores, id as int) {
                    let w = choose|w: int|
                        0 <= w < c0.scores.len() && c0.scores[w].id == Some(id as int);
                    assert(c0.scores[w].id != Some(id as int));
                }
            }
            return Result::Err(ArchiveError::NotFound);
        }
        assert(c0.scores[at as int].id == Some(id as int));
        assert(has_score(c0.scores, id as int));
        let Score {
            id: _,
            title,
            genres,
            composers,
            arrangers,
            publishers,
            grade,
            alias,
            sub_titles,
            annotation,
            back_of,
            location,
        } = payload;
        if let Option::Some(b) = back_of {
            if b == id {
                return Result::Err(ArchiveError::SelfReference);
            }
        }
        if title.as_str().is_empty() {
            return Result::Err(ArchiveError::InvalidTitle);
        }
        match &location {
            Option::Some(p) => {
                let be = self.book_exists(p.book);
                match p.validate(be) {
                    Result::Err(e) => {
                        return Result::Err(e);
                    },
                    Result::Ok(_) => {},
                }
            },
            Option::None => {},
        }
        assert(validate_location_v(c0.books, pv.location) is Ok);
        intern_names(&mut self.contributors, &composers);
        intern_names(&mut self.contributors, &arrangers);
        intern_names(&mut self.contributors, &publishers);
        let stored = Score {
            id: Option::Some(id),
            title,
            genres: dedup_strings(&genres),
            composers: dedup_strings(&composers),
            arrangers: dedup_strings(&arrangers),
            publishers: dedup_strings(&publishers),
            grade,
            alias: dedup_strings(&alias),
            sub_titles,
            annotation,
            back_of,
            location,
        };
        let ghost st = stored_score_v(pv, id as int);
        proof {
            assert(stored@ =~= st);
            assert(self@.contributors == intern_contribs(c0.contributors, pv));
        }
        let out = stored.duplicate();
        let ghost before = self.scores@;
        let _ = self.scores.remove(at);
        self.scores.insert(at, stored);
        proof {
            // The removal and insertion together replace the entry in place.
            assert(self.scores@ =~= before.update(at as int, stored)) by {
                before.remove_ensures(at as int);
                before.remove(at as int).insert_ensures(at as int, stored);
            }
            let k = score_index(c0.scores, id as int);
            assert(0 <= k < c0.scores.len() && c0.scores[k].id == Some(id as int));
            if k != at as int {
                assert(c0.scores[k].id != c0.scores[at as int].id);
            }
            assert(k == at as int);
            assert(self@.scores =~= c0.scores.update(k, st)) by {
                assert(forall|q: int|
                    0 <= q < before.len() && q != at as int ==> self.scores@[q] == before[q]);
                assert(self.scores@[at as int] == stored);
            }
            lemma_intern_contribs(c0.contributors, pv, id as int);
            let c1 = self@;
            assert(forall|q: int|
                0 <= q < c0.scores.len() && q != k ==> c1.scores[q] == c0.scores[q]);
            assert(c1.scores[k] == st);
            assert(c1.score_ids_ok()) by {
                assert(c0.scores[k].id == Some(id as int));
                assert(0 <= id < c0.next_score_id);
            }
            assert(c1.score_ids_unique()) by {
                assert(st.id == c0.scores[k].id);
            }
            assert(c1.locations_ok()) by {
                assert(st.location == pv.location);
            }
            assert(c1.titles_ok()) by {
                assert(st.title == pv.title);
            }
            assert(c1.registry_ok()) by {
                assert(distinct_strs(c1.contributors));
                assert forall|i2: int, j: int|
                    0 <= i2 < c1.scores.len() && 0 <= j < contributor_names(c1.scores[i2]).len()
                    implies c1.contributors.contains(
                    contributor_names(c1.scores[i2])[j],
                ) by {
                    if i2 != k {
                        assert(c1.scores[i2] == c0.scores[i2]);
                        assert(c0.contributors.contains(contributor_names(c0.scores[i2])[j]));
                    } else {
                        assert(c1.scores[i2] == st);
                    }
                }
            }
        }
        Result::Ok(out)
    }

    /// Replace the book carrying the payload's id: fail with `NotFound` when
    /// the payload carries no id or no book carries it.
    pub fn put_book(&mut self, payload: Book) -> (r: Result<Book, ArchiveError>)
        requires
            old(self)@.wf(),
        ensures
            final(self)@.wf(),
            match r {
                Result::Err(e) => {
                    &&& final(self)@ == old(self)@
                    &&& e == ArchiveError::NotFound
                    &&& (payload@.id is None || !has_book(old(self)@.books, payload@.id->0))
                },
                Result::Ok(b) => {
                    &&& payload@.id is Some
                    &&& has_book(old(self)@.books, payload@.id->0)
                    &&& b@ == payload@
                    &&& final(self)@.books == old(self)@.books.update(
                        book_index(old(self)@.books, payload@.id->0),
                        payload@,
                    )
                    &&& final(self)@.scores == old(self)@.scores
                    &&& final(self)@.next_score_id == old(self)@.next_score_id
                    &&& final(self)@.next_book_id == old(self)@.next_book_id
                    &&& final(self)@.contributors == old(self)@.contributors
                },
            },
    {
        let ghost c0 = old(self)@;
        let ghost pv = payload@;
        let id = match payload.id {
            Option::Some(b) => b,
            Option::None => {
                return Result::Err(ArchiveError::NotFound);
            },
        };
        let n = self.books.len();
        let mut i: usize = 0;
        let mut at: usize = n;
        while i < n
            invariant
                i <= n,
                at <= n,
                n == self.books@.len(),
                *self == *old(self),
                at == n ==> forall|j: int| 0 <= j < i ==> c0.books[j].id != Some(id as int),
                at < n ==> c0.books[at as int].id == Some(id as int),
                c0 == self@,
            decreases n - i,
        {
            if at == n {
                if let Option::Some(b) = self.books[i].id {
                    if b == id {
                        at = i;
                    }
                }
            }
            i = i + 1;
        }
        if at == n {
            proof {
                if has_book(c0.books, id as int) {
                    let w = choose|w: int|
                        0 <= w < c0.books.len() && c0.books[w].id == Some(id as int);
                    assert(c0.books[w].id != Some(id as int));
                }
            }
            return Result::Err(ArchiveError::NotFound);
        }
        assert(c0.books[at as int].id == Some(id as int));
        assert(has_book(c0.books, id as int));
        let out = payload.duplicate();
        let ghost before = self.books@;
        let _ = self.books.remove(at);
        self.books.insert(at, payload);
        proof {
            assert(self.books@ =~= before.update(at as int, payload)) by {
                before.remove_ensures(at as int);
                before.remove(at as int).insert_ensures(at as int, payload);
            }
            let k = book_index(c0.books, id as int);
            assert(0 <= k < c0.books.len() && c0.books[k].id == Some(id as int));
            if k != at as int {
                assert(c0.books[k].id != c0.books[at as int].id);
            }
            assert(k == at as int);
            assert(self@.books =~= c0.books.update(k, pv)) by {
                assert(forall|q: int|
                    0 <= q < before.len() && q != at as int ==> self.books@[q] == before[q]);
                assert(self.books@[at as int] == payload);
            }
            let c1 = self@;
            assert(forall|q: int|
                0 <= q < c0.books.len() && q != k ==> c1.books[q] == c0.books[q]);
            assert(c1.books[k] == pv);
            assert(c1.book_ids_ok()) by {
                assert(pv.id == c0.books[k].id);
            }
            assert(c1.book_ids_unique()) by {
                assert(pv.id == c0.books[k].id);
            }
            assert(c1.locations_ok()) by {
                assert forall|i2: int| 0 <= i2 < c1.scores.len() implies validate_location_v(
                    c1.books,
                    (#[trigger] c1.scores[i2]).location,
                ) is Ok by {
                    assert(validate_location_v(c0.books, c1.scores[i2].location) is Ok);
                    match c1.scores[i2].location {
                        Option::Some(p) => {
                            assert(has_book(c0.books, p.book));
                            let w = choose|w: int|
                                0 <= w < c0.books.len() && c0.books[w].id == Some(p.book);
                            assert(c1.books[w].id == Some(p.book));
                            assert(has_book(c1.books, p.book));
                        },
                        Option::None => {},
                    }
                }
            }
        }
        Result::Ok(out)
    }

    /// Create a book from a client payload: reject a client-supplied id,
    /// assign the next id, and return the stored book. The id counter not
    /// having run out is a machine limit on the caller.
    pub fn post_book(&mut self, payload: Book) -> (r: Result<Book, ArchiveError>)
        requires
            old(self)@.wf(),
            old(self)@.next_book_id < i64::MAX,
        ensures
            final(self)@.wf(),
            match r {
                Result::Err(e) => {
                    &&& final(self)@ == old(self)@
                    &&& e == ArchiveError::IdNotAllowed
                    &&& payload@.id is Some
                },
                Result::Ok(b) => {
                    &&& payload@.id is None
                    &&& b@ == stored_book_v(payload@, old(self)@.next_book_id)
                    &&& final(self)@.books == old(self)@.books.push(b@)
                    &&& final(self)@.scores == old(self)@.scores
                    &&& final(self)@.next_book_id == old(self)@.next_book_id + 1
                    &&& final(self)@.next_score_id == old(self)@.next_score_id
                    &&& final(self)@.contributors == old(self)@.contributors
                },
            },
    {
        let ghost c0 = old(self)@;
        let ghost pv = payload@;
        let Book { id: pid, name, annotation } = payload;
        if pid.is_some() {
            return Result::Err(ArchiveError::IdNotAllowed);
        }
        let id = self.next_book_id;
        self.next_book_id = id + 1;
        let stored = Book { id: Option::Some(id), name, annotation };
        let ghost st = stored_book_v(pv, c0.next_book_id);
        proof {
            assert(stored@ =~= st);
        }
        let out = stored.duplicate();
        self.books.push(stored);
        proof {
            assert(self@.books =~= c0.books.push(st)) by {
                assert(self@.books.len() == c0.books.len() + 1);
                assert(forall|q: int|
                    0 <= q < c0.books.len() ==> self.books@[q] == old(self).books@[q]);
            }
            let c1 = self@;
            assert(forall|i: int| 0 <= i < c0.books.len() ==> c1.books[i] == c0.books[i]);
            assert(c1.books[c0.books.len() as int] == st);
            assert(c1.locations_ok()) by {
                assert forall|i: int| 0 <= i < c1.scores.len() implies validate_location_v(
                    c1.books,
                    (#[trigger] c1.scores[i]).location,
                ) is Ok by {
                    assert(validate_location_v(c0.books, c1.scores[i].location) is Ok);
                    match c1.scores[i].location {
                        Option::Some(p) => {
                            assert(has_book(c0.books, p.book));
                            let w = choose|w: int|
                                0 <= w < c0.books.len() && c0.books[w].id == Some(p.book);
                            assert(c1.books[w].id == Some(p.book));
                            assert(has_book(c1.books, p.book));
                        },
                        Option::None => {},
                    }
                }
            }
        }
        Result::Ok(out)
    }

    /// Delete the score carrying the id. Every `back_of` reference naming
    /// the id is cleared, even a dangling one whose target was never stored;
    /// with that clearing done, deleting an absent id is a no-op success,
    /// and the operation is idempotent: deleting the same id again changes
    /// nothing.
    pub fn delete_score(&mut self, id: i64)
        requires
            old(self)@.wf(),
        ensures
            final(self)@.wf(),
            final(self)@.scores == delete_score_v(old(self)@.scores, id as int),
            final(self)@.books == old(self)@.books,
            final(self)@.next_score_id == old(self)@.next_score_id,
            final(self)@.next_book_id == old(self)@.next_book_id,
            final(self)@.contributors == old(self)@.contributors,
    {
        let ghost c0 = old(self)@;
        let ghost m = c0.scores;
        let mut out: Vec<Score> = Vec::new();
        let ghost mut i: int = 0;
        while self.scores.len() > 0
            invariant
                0 <= i <= m.len(),
                self.scores@.len() == m.len() - i,
                views_of(self.scores@) == m.skip(i),
                views_of(out@) == delete_score_v(m.take(i), id as int),
                self.books@ == old(self).books@,
                self.next_score_id == old(self).next_score_id,
                self.next_book_id == old(self).next_book_id,
                self.contributors@ == old(self).contributors@,
            decreases self.scores@.len(),
        {
            let ghost prev = self.scores@;
            let s = self.scores.remove(0);
            proof {
                assert(s@ == views_of(prev)[0]);
                assert(s@ == m[i]);
                assert(views_of(self.scores@) =~= m.skip(i + 1)) by {
                    assert forall|j: int|
                        0 <= j < self.scores@.len() implies views_of(self.scores@)[j] == m.skip(
                        i + 1,
                    )[j] by {
                        assert(self.scores@[j] == prev.remove(0)[j]);
                        assert(prev.remove(0)[j] == prev[j + 1]);
                        assert(views_of(prev)[j + 1] == m.skip(i)[j + 1]);
                    }
                }
                assert(m.take(i + 1).drop_last() =~= m.take(i));
                assert(m.take(i + 1).last() == m[i]);
            }
            let keep = match s.id {
                Option::Some(x) => x != id,
                Option::None => true,
            };
            if keep {
                let mut kept = s;
                let clear = match kept.back_of {
                    Option::Some(b) => b == id,
                    Option::None => false,
                };
                if clear {
                    kept.back_of = Option::None;
                }
                proof {
                    assert(kept@ =~= clear_back(m[i], id as int));
                }
                let ghost prev_out = out@;
                out.push(kept);
                proof {
                    assert(views_of(out@) =~= views_of(prev_out).push(
                        clear_back(m[i], id as int),
                    )) by {
                        assert(views_of(out@).len() == prev_out.len() + 1);
                        assert(forall|q: int|
                            0 <= q < prev_out.len() ==> out@[q] == prev_out[q]);
                    }
                }
            }
            proof {
                i = i + 1;
            }
        }
        proof {
            assert(m.take(i) =~= m);
        }
        self.scores = out;
        proof {
            let c1 = self@;
            assert(c1.scores == delete_score_v(m, id as int));
            lemma_delete_score_v_elems(m, id as int);
            lemma_delete_score_v_unique(m, id as int);
            assert(c1.score_ids_ok()) by {
                assert forall|q: int| 0 <= q < c1.scores.len() implies (
                #[trigger] c1.scores[q]).id is Some && 0 <= c1.scores[q].id->0
                    < c1.next_score_id by {
                    let w = choose|w: int|
                        0 <= w < m.len() && c1.scores[q] == clear_back(m[w], id as int)
                            && m[w].id != Some(id as int);
                    assert(m[w].id is Some && 0 <= m[w].id->0 < c0.next_score_id);
                }
            }
            assert(c1.locations_ok()) by {
                assert forall|q: int| 0 <= q < c1.scores.len() implies validate_location_v(
                    c1.books,
                    (#[trigger] c1.scores[q]).location,
                ) is Ok by {
                    let w = choose|w: int|
                        0 <= w < m.len() && c1.scores[q] == clear_back(m[w], id as int)
                            && m[w].id != Some(id as int);
                    assert(validate_location_v(c0.books, m[w].location) is Ok);
                    assert(c1.scores[q].location == m[w].location);
                }
            }
            assert(c1.registry_ok()) by {
                assert forall|q: int, j: int|
                    0 <= q < c1.scores.len() && 0 <= j < contributor_names(c1.scores[q]).len()
                    implies c1.contributors.contains(
                    contributor_names(c1.scores[q])[j],
                ) by {
                    let w = choose|w: int|
                        0 <= w < m.len() && c1.scores[q] == clear_back(m[w], id as int)
                            && m[w].id != Some(id as int);
                    assert(contributor_names(c1.scores[q]) == contributor_names(m[w]));
                    assert(c0.contributors.contains(contributor_names(m[w])[j]));
                }
            }
        }
    }

    /// Delete the book carrying the id. The operation is idempotent: when no
    /// book carries the id it is a no-op success. The location of every
    /// score the book bound is cleared.
    pub fn delete_book(&mut self, id: i64)
        requires
            old(self)@.wf(),
        ensures
            final(self)@.wf(),
            final(self)@.books == delete_book_v(old(self)@.books, id as int),
            final(self)@.scores == old(self)@.scores.map_values(
                |s: ScoreV| clear_location(s, id as int),
            ),
            final(self)@.next_score_id == old(self)@.next_score_id,
            final(self)@.next_book_id == old(self)@.next_book_id,
            final(self)@.contributors == old(self)@.contributors,
    {
        let ghost c0 = old(self)@;
        let ghost mb = c0.books;
        let ghost ms = c0.scores;
        let mut out_books: Vec<Book> = Vec::new();
        let ghost mut i: int = 0;
        while self.books.len() > 0
            invariant
                0 <= i <= mb.len(),
                self.books@.len() == mb.len() - i,
                book_views_of(self.books@) == mb.skip(i),
                book_views_of(out_books@) == delete_book_v(mb.take(i), id as int),
                self.scores@ == old(self).scores@,
                self.next_score_id == old(self).next_score_id,
                self.next_book_id == old(self).next_book_id,
                self.contributors@ == old(self).contributors@,
            decreases self.books@.len(),
        {
            let ghost prev = self.books@;
            let b = self.books.remove(0);
            proof {
                assert(b@ == book_views_of(prev)[0]);
                assert(b@ == mb[i]);
                assert(book_views_of(self.books@) =~= mb.skip(i + 1)) by {
                    assert forall|j: int|
                        0 <= j < self.books@.len() implies book_views_of(self.books@)[j]
                        == mb.skip(i + 1)[j] by {
                        assert(self.books@[j] == prev.remove(0)[j]);
                        assert(prev.remove(0)[j] == prev[j + 1]);
                        assert(book_views_of(prev)[j + 1] == mb.skip(i)[j + 1]);
                    }
                }
                assert(mb.take(i + 1).drop_last() =~= mb.take(i));
                assert(mb.take(i + 1).last() == mb[i]);
            }
            let keep = match b.id {
                Option::Some(x) => x != id,
                Option::None => true,
            };
            if keep {
                let ghost prev_out = out_books@;
                out_books.push(b);
                proof {
                    assert(book_views_of(out_books@) =~= book_views_of(prev_out).push(mb[i])) by {
                        assert(book_views_of(out_books@).len() == prev_out.len() + 1);
                        assert(forall|q: int|
                            0 <= q < prev_out.len() ==> out_books@[q] == prev_out[q]);
                    }
                }
            }
            proof {
                i = i + 1;
            }
        }
        proof {
            assert(mb.take(i) =~= mb);
        }
        self.books = out_books;
        let mut out_scores: Vec<Score> = Vec::new();
        let ghost mut p: int = 0;
        while self.scores.len() > 0
            invariant
                0 <= p <= ms.len(),
                self.scores@.len() == ms.len() - p,
                views_of(self.scores@) == ms.skip(p),
                views_of(out_scores@) == ms.take(p).map_values(
                    |s: ScoreV| clear_location(s, id as int),
                ),
                book_views_of(self.books@) == delete_book_v(mb, id as int),
                self.next_score_id == old(self).next_score_id,
                self.next_book_id == old(self).next_book_id,
                self.contributors@ == old(self).contributors@,
            decreases self.scores@.len(),
        {
            let ghost prev = self.scores@;
            let s = self.scores.remove(0);
            proof {
                assert(s@ == views_of(prev)[0]);
                assert(s@ == ms[p]);
                assert(views_of(self.scores@) =~= ms.skip(p + 1)) by {
                    assert forall|j: int|
                        0 <= j < self.scores@.len() implies views_of(self.scores@)[j] == ms.skip(
                        p + 1,
                    )[j] by {
                        assert(self.scores@[j] == prev.remove(0)[j]);
                        assert(prev.remove(0)[j] == prev[j + 1]);
                        assert(views_of(prev)[j + 1] == ms.skip(p)[j + 1]);
                    }
                }
            }
            let mut kept = s;
            let clear = match &kept.location {
                Option::Some(loc) => loc.book == id,
                Option::None => false,
            };
            if clear {
                kept.location = Option::None;
            }
            proof {
                assert(kept@ =~= clear_location(ms[p], id as int));
            }
            let ghost prev_out = out_scores@;
            out_scores.push(kept);
            proof {
                assert(views_of(out_scores@) =~= ms.take(p + 1).map_values(
                    |s2: ScoreV| clear_location(s2, id as int),
                )) by {
                    let f = |s2: ScoreV| clear_location(s2, id as int);
                    assert(views_of(out_scores@).len() == prev_out.len() + 1);
                    assert(views_of(prev_out).len() == prev_out.len());
                    assert(ms.take(p).map_values(f).len() == p);
                    assert forall|q: int| 0 <= q < views_of(out_scores@).len() implies views_of(
                        out_scores@,
                    )[q] == ms.take(p + 1).map_values(f)[q] by {
                        assert(ms.take(p + 1)[q] == ms[q]);
                        if q < prev_out.len() {
                            assert(out_scores@[q] == prev_out[q]);
                            assert(views_of(prev_out)[q] == ms.take(p).map_values(f)[q]);
                            assert(ms.take(p).map_values(f)[q] == f(ms.take(p)[q]));
                            assert(ms.take(p)[q] == ms[q]);
                        } else {
                            assert(out_scores@[q] == kept);
                            assert(kept@ == f(ms[p]));
                        }
                    }
                }
                p = p + 1;
            }
        }
        proof {
            assert(ms.take(p) =~= ms);
        }
        self.scores = out_scores;
        proof {
            let c1 = self@;
            let f = |s2: ScoreV| clear_location(s2, id as int);
            assert(c1.scores == ms.map_values(f));
            assert(c1.scores.len() == ms.len());
            assert(forall|q: int| 0 <= q < ms.len() ==> c1.scores[q] == f(ms[q]));
            lemma_delete_book_v_elems(mb, id as int);
            lemma_delete_book_v_unique(mb, id as int);
            assert(c1.score_ids_ok());
            assert(c1.score_ids_unique());
            assert(c1.book_ids_ok()) by {
                assert forall|q: int| 0 <= q < c1.books.len() implies (
                #[trigger] c1.books[q]).id is Some && 0 <= c1.books[q].id->0
                    < c1.next_book_id by {
                    let w = choose|w: int|
                        0 <= w < mb.len() && c1.books[q] == mb[w] && mb[w].id != Some(id as int);
                    assert(mb[w].id is Some && 0 <= mb[w].id->0 < c0.next_book_id);
                }
            }
            assert(c1.locations_ok()) by {
                assert forall|q: int| 0 <= q < c1.scores.len() implies validate_location_v(
                    c1.books,
                    (#[trigger] c1.scores[q]).location,
                ) is Ok by {
                    assert(validate_location_v(c0.books, ms[q].location) is Ok);
                    match c1.scores[q].location {
                        Option::Some(pg) => {
                            assert(ms[q].location == Some(pg));
                            assert(pg.book != id as int);
                            assert(has_book(mb, pg.book));
                            let w = choose|w: int|
                                0 <= w < mb.len() && mb[w].id == Some(pg.book);
                            assert(mb[w].id != Some(id as int));
                            assert(delete_book_v(mb, id as int).contains(mb[w]));
                            let v = choose|v: int|
                                0 <= v < c1.books.len() && c1.books[v] == mb[w];
                            assert(c1.books[v].id == Some(pg.book));
                            assert(has_book(c1.books, pg.book));
                        },
                        Option::None => {},
                    }
                }
            }
            assert(c1.registry_ok()) by {
                assert forall|q: int, j: int|
                    0 <= q < c1.scores.len() && 0 <= j < contributor_names(c1.scores[q]).len()
                    implies c1.contributors.contains(
                    contributor_names(c1.scores[q])[j],
                ) by {
                    assert(contributor_names(c1.scores[q]) == contributor_names(ms[q]));
                    assert(c0.contributors.contains(contributor_names(ms[q])[j]));
                }
            }
        }
    }

    /// Search the scores: a score matches when any requested field holds the
    /// value exactly; the matches are ordered by title, ties broken by id,
    /// reversed when descending; one zero-indexed page of at most the
    /// bounded limit is returned together with the total number of matches.
    pub fn search_scores(
        &self,
        params: &ScoreSearchParameters,
        page: usize,
        limit: usize,
    ) -> (r: ResultPage)
        ensures
            r.total == search_order(
                self@.scores,
                params.fields@,
                params.value@,
                params.descending,
            ).len(),
            views_of(r.items@) == page_slice(
                search_order(self@.scores, params.fields@, params.value@, params.descending),
                page as int,
                limit as int,
            ),
    {
        let matched = filter_matching(&self.scores, &params.fields, &params.value);
        let sorted = sort_scores(SortKey::ByTitle, matched);
        let full = if params.descending {
            reverse_scores(sorted)
        } else {
            sorted
        };
        let total = full.len();
        proof {
            assert(views_of(full@).len() == full@.len());
        }
        let items = paginate(&full, page, limit);
        ResultPage { items, total }
    }

    /// Return the scores located in the book, ordered by where their
    /// location begins, ties broken by id.
    pub fn get_book_pages(&self, id: i64) -> (r: Vec<Score>)
        ensures
            views_of(r@) == book_pages_v(self@.scores, id as int),
    {
        let located = filter_located(&self.scores, id);
        sort_scores(SortKey::ByLocation, located)
    }

    /// Return the score carrying the id, or `NotFound` when no score does.
    pub fn get_score(&self, id: i64) -> (r: Result<Score, ArchiveError>)
        requires
            self@.wf(),
        ensures
            match r {
                Result::Ok(s) => has_score(self@.scores, id as int) && s@ == score_at(
                    self@.scores,
                    id as int,
                ),
                Result::Err(e) => e == ArchiveError::NotFound && !has_score(
                    self@.scores,
                    id as int,
                ),
            },
    {
        let ghost m = self@.scores;
        let mut i: usize = 0;
        while i < self.scores.len()
            invariant
                self@.wf(),
                i <= self.scores@.len(),
                m == self@.scores,
                forall|j: int| 0 <= j < i ==> m[j].id != Some(id as int),
            decreases self.scores@.len() - i,
        {
            if let Option::Some(s) = self.scores[i].id {
                if s == id {
                    proof {
                        assert(m[i as int].id == Some(id as int));
                        assert(has_score(m, id as int));
                        let k = score_index(m, id as int);
                        assert(0 <= k < m.len() && m[k].id == Some(id as int));
                        if k != i as int {
                            assert(self@.score_ids_unique());
                            assert(m[k].id != m[i as int].id);
                        }
                    }
                    return Result::Ok(self.scores[i].duplicate());
                }
            }
            i = i + 1;
        }
        Result::Err(ArchiveError::NotFound)
    }

    /// Return the book carrying the id, or `NotFound` when no book does.
    pub fn get_book(&self, id: i64) -> (r: Result<Book, ArchiveError>)
        requires
            self@.wf(),
        ensures
            match r {
                Result::Ok(b) => has_book(self@.books, id as int) && b@ == book_at(
                    self@.books,
                    id as int,
                ),
                Result::Err(e) => e == ArchiveError::NotFound && !has_book(self@.books, id as int),
            },
    {
        let ghost m = self@.books;
        let mut i: usize = 0;
        while i < self.books.len()
            invariant
                self@.wf(),
                i <= self.books@.len(),
                m == self@.books,
                forall|j: int| 0 <= j < i ==> m[j].id != Some(id as int),
            decreases self.books@.len() - i,
        {
            if let Option::Some(b) = self.books[i].id {
                if b == id {
                    proof {
                        assert(m[i as int].id == Some(id as int));
                        assert(has_book(m, id as int));
                        let k = book_index(m, id as int);
                        assert(0 <= k < m.len() && m[k].id == Some(id as int));
                        if k != i as int {
                            assert(self@.book_ids_unique());
                            assert(m[k].id != m[i as int].id);
                        }
                    }
                    return Result::Ok(self.books[i].duplicate());
                }
            }
            i = i + 1;
        }
        Result::Err(ArchiveError::NotFound)
    }
}

} // verus!
