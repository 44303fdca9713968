//! The data model: scores, books, page numbers and page locators.

use vstd::prelude::*;

use crate::error::ArchiveError;
use crate::order::{str_cmp, opt_str_cmp, flip_cmp, str_compare, Cmp};
use crate::order::{lemma_opt_str_cmp_eq, lemma_opt_str_cmp_flip, lemma_opt_str_cmp_trans};
use crate::order::lemma_str_cmp_eq;

verus! {

/// Representation of a score considering the intellectual property, not a
/// specific copy.
pub struct Score {
    /// The id of the score; assigned by the service, absent before creation.
    pub id: Option<i64>,
    /// The main title of this score.
    pub title: String,
    /// The genres of the score; order irrelevant, kept free of duplicates.
    pub genres: Vec<String>,
    /// All composers of the score; order irrelevant, kept free of duplicates
    /// and registered once in the catalog's contributor registry.
    pub composers: Vec<String>,
    /// All arrangers of the score; treated like the composers.
    pub arrangers: Vec<String>,
    /// All publishers of the score; treated like the composers.
    pub publishers: Vec<String>,
    /// The grade of this score.
    pub grade: Option<String>,
    /// Other known titles for the score; order irrelevant, kept free of
    /// duplicates.
    pub alias: Vec<String>,
    /// The subtitles of the score, marking medleys and potpourris; the order
    /// is meaningful and duplicates are permitted.
    pub sub_titles: Vec<String>,
    /// The annotation of this score.
    pub annotation: Option<String>,
    /// The score on whose back this one is printed; never the score itself.
    pub back_of: Option<i64>,
    /// Where the score currently is located.
    pub location: Option<Page>,
}

/// A physical book binding the printed pages of scores.
pub struct Book {
    /// The id of the book; assigned by the service, absent before creation.
    pub id: Option<i64>,
    /// Full name of the book.
    pub name: String,
    /// Annotation of the book.
    pub annotation: Option<String>,
}

/// A page locator: where a particular score is located in a book.
pub struct Page {
    /// The id of the book where this page is located.
    pub book: i64,
    /// The number where the page begins.
    pub begin: PageNumber,
    /// The number where the page ends; the page ends at `begin` if absent.
    pub end: Option<PageNumber>,
}

/// A page number with an optional alphanumeric prefix and suffix.
pub struct PageNumber {
    /// The prefix of the page.
    pub prefix: Option<String>,
    /// The actual number of the page.
    pub number: i64,
    /// The suffix of the page.
    pub suffix: Option<String>,
}

/// A search request over the score collection.
pub struct ScoreSearchParameters {
    /// Which score attributes participate in the match.
    pub fields: Vec<ScoreSearchParameter>,
    /// Whether the result order is reversed.
    pub descending: bool,
    /// The value searched for.
    pub value: String,
}

/// A searchable attribute of a score.
#[derive(Clone, Copy, Debug, PartialEq, Eq, Structural)]
pub enum ScoreSearchParameter {
    Title,
    Genre,
    SubTitle,
    Arranger,
    Composer,
    Annotation,
    Alias,
    Publisher,
}

/// Mathematical model of a page number.
#[verifier::ext_equal]
pub ghost struct PageNumberV {
    pub prefix: Option<Seq<char>>,
    pub number: int,
    pub suffix: Option<Seq<char>>,
}

/// Mathematical model of a page locator.
#[verifier::ext_equal]
pub ghost struct PageV {
    pub book: int,
    pub begin: PageNumberV,
    pub end: Option<PageNumberV>,
}

/// Mathematical model of a score.
#[verifier::ext_equal]
pub ghost struct ScoreV {
    pub id: Option<int>,
    pub title: Seq<char>,
    pub genres: Seq<Seq<char>>,
    pub composers: Seq<Seq<char>>,
    pub arrangers: Seq<Seq<char>>,
    pub publishers: Seq<Seq<char>>,
    pub grade: Option<Seq<char>>,
    pub alias: Seq<Seq<char>>,
    pub sub_titles: Seq<Seq<char>>,
    pub annotation: Option<Seq<char>>,
    pub back_of: Option<int>,
    pub location: Option<PageV>,
}

/// Mathematical model of a book.
#[verifier::ext_equal]
pub ghost struct BookV {
    pub id: Option<int>,
    pub name: Seq<char>,
    pub annotation: Option<Seq<char>>,
}

/// The view of an optional string.
pub open spec fn view_opt_string(o: Option<String>) -> Option<Seq<char>> {
    match o {
        Option::Some(s) => Option::Some(s@),
        Option::None => Option::None,
    }
}

/// The view of an optional id.
pub open spec fn view_opt_i64(o: Option<i64>) -> Option<int> {
    match o {
        Option::Some(n) => Option::Some(n as int),
        Option::None => Option::None,
    }
}

/// The views of a sequence of strings.
pub open spec fn seq_views(s: Seq<String>) -> Seq<Seq<char>> {
    s.map_values(|x: String| x@)
}

impl View for PageNumber {
    type V = PageNumberV;

    open spec fn view(&self) -> PageNumberV {
        PageNumberV {
            prefix: view_opt_string(self.prefix),
            number: self.number as int,
            suffix: view_opt_string(self.suffix),
        }
    }
}

impl View for Page {
    type V = PageV;

    open spec fn view(&self) -> PageV {
        PageV {
            book: self.book as int,
            begin: self.begin@,
            end: match self.end {
                Option::Some(e) => Option::Some(e@),
                Option::None => Option::None,
            },
        }
    }
}

impl View for Score {
    type V = ScoreV;

    open spec fn view(&self) -> ScoreV {
        ScoreV {
            id: view_opt_i64(self.id),
            title: self.title@,
            genres: seq_views(self.genres@),
            composers: seq_views(self.composers@),
            arrangers: seq_views(self.arrangers@),
            publishers: seq_views(self.publishers@),
            grade: view_opt_string(self.grade),
            alias: seq_views(self.alias@),
            sub_titles: seq_views(self.sub_titles@),
            annotation: view_opt_string(self.annotation),
            back_of: view_opt_i64(self.back_of),
            location: match self.location {
                Option::Some(p) => Option::Some(p@),
                Option::None => Option::None,
            },
        }
    }
}

impl View for Book {
    type V = BookV;

    open spec fn view(&self) -> BookV {
        BookV {
            id: view_opt_i64(self.id),
            name: self.name@,
            annotation: view_opt_string(self.annotation),
        }
    }
}

/// Ordering of page numbers: the prefix decides first (an absent prefix sorts
/// before any present one), then the number, then the suffix in the same way.
pub open spec fn pn_cmp(a: PageNumberV, b: PageNumberV) -> Cmp {
    let p = opt_str_cmp(a.prefix, b.prefix);
    if p != Cmp::Eq {
        p
    } else if a.number < b.number {
        Cmp::Lt
    } else if b.number < a.number {
        Cmp::Gt
    } else {
        opt_str_cmp(a.suffix, b.suffix)
    }
}

/// `a` is no later a page than `b`.
pub open spec fn pn_le(a: PageNumberV, b: PageNumberV) -> bool {
    pn_cmp(a, b) != Cmp::Gt
}

/// Two page numbers compare equal exactly when they are the same.
pub proof fn lemma_pn_cmp_eq(a: PageNumberV, b: PageNumberV)
    ensures
        (pn_cmp(a, b) == Cmp::Eq) <==> (a == b),
{
    lemma_opt_str_cmp_eq(a.prefix, b.prefix);
    lemma_opt_str_cmp_eq(a.suffix, b.suffix);
    if pn_cmp(a, b) == Cmp::Eq {
        assert(a =~= b);
    }
}

/// Swapping the arguments mirrors the outcome.
pub proof fn lemma_pn_cmp_flip(a: PageNumberV, b: PageNumberV)
    ensures
        pn_cmp(b, a) == flip_cmp(pn_cmp(a, b)),
{
    lemma_opt_str_cmp_flip(a.prefix, b.prefix);
    lemma_opt_str_cmp_flip(a.suffix, b.suffix);
}

/// Transitivity of the page order, keeping strict steps strict.
pub proof fn lemma_pn_cmp_trans(a: PageNumberV, b: PageNumberV, c: PageNumberV)
    requires
        pn_le(a, b),
        pn_le(b, c),
    ensures
        pn_le(a, c),
        (pn_cmp(a, b) == Cmp::Lt || pn_cmp(b, c) == Cmp::Lt) ==> pn_cmp(a, c) == Cmp::Lt,
{
    lemma_opt_str_cmp_eq(a.prefix, b.prefix);
    lemma_opt_str_cmp_eq(b.prefix, c.prefix);
    lemma_opt_str_cmp_trans(a.prefix, b.prefix, c.prefix);
    if opt_str_cmp(a.prefix, b.prefix) == Cmp::Eq && opt_str_cmp(b.prefix, c.prefix) == Cmp::Eq
        && a.number == b.number && b.number == c.number {
        lemma_opt_str_cmp_trans(a.suffix, b.suffix, c.suffix);
    }
}

/// Compare two optional strings; an absent value sorts before any present one.
pub fn opt_string_compare(a: &Option<String>, b: &Option<String>) -> (r: Cmp)
    ensures
        r == opt_str_cmp(view_opt_string(*a), view_opt_string(*b)),
{
    match (a, b) {
        (Option::None, Option::None) => Cmp::Eq,
        (Option::None, Option::Some(_)) => Cmp::Lt,
        (Option::Some(_), Option::None) => Cmp::Gt,
        (Option::Some(x), Option::Some(y)) => str_compare(x.as_str(), y.as_str()),
    }
}

impl PageNumber {
    /// Compare this page number with another one: prefix first, then number,
    /// then suffix.
    pub fn compare(&self, other: &PageNumber) -> (r: Cmp)
        ensures
            r == pn_cmp(self@, other@),
    {
        let p = opt_string_compare(&self.prefix, &other.prefix);
        match p {
            Cmp::Eq => {},
            _ => {
                return p;
            },
        }
        if self.number < other.number {
            return Cmp::Lt;
        }
        if other.number < self.number {
            return Cmp::Gt;
        }
        opt_string_compare(&self.suffix, &other.suffix)
    }
}

/// A page number is valid: its number is not negative.
pub open spec fn pn_ok(n: PageNumberV) -> bool {
    n.number >= 0
}

/// Every page number a locator carries is valid.
pub open spec fn page_numbers_ok(p: PageV) -> bool {
    pn_ok(p.begin) && match p.end {
        Option::Some(e) => pn_ok(e),
        Option::None => true,
    }
}

/// A page range is internally consistent: it does not end before it begins.
pub open spec fn range_ok(p: PageV) -> bool {
    match p.end {
        Option::Some(e) => pn_le(p.begin, e),
        Option::None => true,
    }
}

/// What validating a locator returns, given whether the referenced book
/// exists: the book reference is checked first, then the page numbers (a
/// negative number is rejected), then the range order.
pub open spec fn validate_page_v(p: PageV, book_exists: bool) -> Result<(), ArchiveError> {
    if !book_exists {
        Result::Err(ArchiveError::InvalidLocation)
    } else if !page_numbers_ok(p) {
        Result::Err(ArchiveError::InvalidRange)
    } else if !range_ok(p) {
        Result::Err(ArchiveError::InvalidRange)
    } else {
        Result::Ok(())
    }
}

/// The page numbers a locator spans: the closed range from `begin` to `end`,
/// or the single page `begin` when `end` is absent.
pub open spec fn page_span_contains(p: PageV, n: PageNumberV) -> bool {
    pn_le(p.begin, n) && pn_le(
        n,
        match p.end {
            Option::Some(e) => e,
            Option::None => p.begin,
        },
    )
}

impl Page {
    /// Validate this locator. The caller says whether the referenced book
    /// exists; an unknown book fails with `InvalidLocation`, a negative page
    /// number or a range whose end lies before its begin fails with
    /// `InvalidRange`.
    pub fn validate(&self, book_exists: bool) -> (r: Result<(), ArchiveError>)
        ensures
            r == validate_page_v(self@, book_exists),
    {
        if !book_exists {
            return Result::Err(ArchiveError::InvalidLocation);
        }
        if self.begin.number < 0 {
            return Result::Err(ArchiveError::InvalidRange);
        }
        match &self.end {
            Option::None => Result::Ok(()),
            Option::Some(e) => {
                if e.number < 0 {
                    return Result::Err(ArchiveError::InvalidRange);
                }
                match self.begin.compare(e) {
                    Cmp::Gt => Result::Err(ArchiveError::InvalidRange),
                    _ => Result::Ok(()),
                }
            },
        }
    }

    /// Whether a candidate page number falls within this locator's span.
    /// Overlapping placements within one book are not rejected by the catalog;
    /// this predicate is what a caller uses to detect them.
    pub fn contains(&self, n: &PageNumber) -> (r: bool)
        ensures
            r == page_span_contains(self@, n@),
    {
        let lower = match self.begin.compare(n) {
            Cmp::Gt => false,
            _ => true,
        };
        if !lower {
            return false;
        }
        let upper_bound = match &self.end {
            Option::Some(e) => n.compare(e),
            Option::None => n.compare(&self.begin),
        };
        match upper_bound {
            Cmp::Gt => false,
            _ => true,
        }
    }
}

/// The database attribute each searchable field maps to; the mapping is
/// total and one-to-one.
pub open spec fn db_field_name(f: ScoreSearchParameter) -> Seq<char> {
    match f {
        ScoreSearchParameter::Title => "title"@,
        ScoreSearchParameter::SubTitle => "subtitle"@,
        ScoreSearchParameter::Alias => "alias"@,
        ScoreSearchParameter::Publisher => "publisher"@,
        ScoreSearchParameter::Annotation => "annotation"@,
        ScoreSearchParameter::Composer => "composer"@,
        ScoreSearchParameter::Arranger => "arranger"@,
        ScoreSearchParameter::Genre => "genre"@,
    }
}

/// The request-level name of each searchable field.
pub open spec fn form_field_name(f: ScoreSearchParameter) -> Seq<char> {
    match f {
        ScoreSearchParameter::Title => "title"@,
        ScoreSearchParameter::Genre => "genre"@,
        ScoreSearchParameter::SubTitle => "subTitle"@,
        ScoreSearchParameter::Arranger => "arranger"@,
        ScoreSearchParameter::Composer => "composer"@,
        ScoreSearchParameter::Annotation => "annotation"@,
        ScoreSearchParameter::Alias => "alias"@,
        ScoreSearchParameter::Publisher => "publisher"@,
    }
}

impl ScoreSearchParameter {
    /// The name of the queryable attribute this field maps to.
    pub fn to_database_field(&self) -> (r: String)
        ensures
            r@ == db_field_name(*self),
    {
        match self {
            ScoreSearchParameter::Title => "title",
            ScoreSearchParameter::SubTitle => "subtitle",
            ScoreSearchParameter::Alias => "alias",
            ScoreSearchParameter::Publisher => "publisher",
            ScoreSearchParameter::Annotation => "annotation",
            ScoreSearchParameter::Composer => "composer",
            ScoreSearchParameter::Arranger => "arranger",
            ScoreSearchParameter::Genre => "genre",
        }.to_owned()
    }
}

/// Parse a request-level field name. An unknown name fails with
/// `InvalidSearchField`, before any data access.
pub fn parse_search_field(name: &str) -> (r: Result<ScoreSearchParameter, ArchiveError>)
    ensures
        match r {
            Result::Ok(f) => name@ == form_field_name(f),
            Result::Err(e) => {
                &&& e == ArchiveError::InvalidSearchField
                &&& forall|f: ScoreSearchParameter| name@ != form_field_name(f)
            },
        },
{
    proof {
        lemma_str_cmp_eq(name@, "title"@);
        lemma_str_cmp_eq(name@, "genre"@);
        lemma_str_cmp_eq(name@, "subTitle"@);
        lemma_str_cmp_eq(name@, "arranger"@);
        lemma_str_cmp_eq(name@, "composer"@);
        lemma_str_cmp_eq(name@, "annotation"@);
        lemma_str_cmp_eq(name@, "alias"@);
        lemma_str_cmp_eq(name@, "publisher"@);
    }
    if matches!(str_compare(name, "title"), Cmp::Eq) {
        return Result::Ok(ScoreSearchParameter::Title);
    }
    if matches!(str_compare(name, "genre"), Cmp::Eq) {
        return Result::Ok(ScoreSearchParameter::Genre);
    }
    if matches!(str_compare(name, "subTitle"), Cmp::Eq) {
        return Result::Ok(ScoreSearchParameter::SubTitle);
    }
    if matches!(str_compare(name, "arranger"), Cmp::Eq) {
        return Result::Ok(ScoreSearchParameter::Arranger);
    }
    if matches!(str_compare(name, "composer"), Cmp::Eq) {
        return Result::Ok(ScoreSearchParameter::Composer);
    }
    if matches!(str_compare(name, "annotation"), Cmp::Eq) {
        return Result::Ok(ScoreSearchParameter::Annotation);
    }
    if matches!(str_compare(name, "alias"), Cmp::Eq) {
        return Result::Ok(ScoreSearchParameter::Alias);
    }
    if matches!(str_compare(name, "publisher"), Cmp::Eq) {
        return Result::Ok(ScoreSearchParameter::Publisher);
    }
    Result::Err(ArchiveError::InvalidSearchField)
}

/// Clone an optional string.
pub fn clone_opt_string(o: &Option<String>) -> (r: Option<String>)
    ensures
        r == *o,
{
    match o {
        Option::Some(s) => Option::Some(s.clone()),
        Option::None => Option::None,
    }
}

/// Clone a vector of strings.
pub fn clone_string_vec(v: &Vec<String>) -> (r: Vec<String>)
    ensures
        r@ == v@,
{
    let mut out: Vec<String> = Vec::new();
    let mut i: usize = 0;
    while i < v.len()
        invariant
            i <= v@.len(),
            out@ =~= v@.take(i as int),
        decreases v@.len() - i,
    {
        out.push(v[i].clone());
        i = i + 1;
    }
    proof {
        assert(out@ =~= v@);
    }
    out
}

impl PageNumber {
    /// Clone this page number.
    pub fn duplicate(&self) -> (r: PageNumber)
        ensures
            r@ == self@,
    {
        PageNumber {
            prefix: clone_opt_string(&self.prefix),
            number: self.number,
            suffix: clone_opt_string(&self.suffix),
        }
    }
}

impl Page {
    /// Clone this locator.
    pub fn duplicate(&self) -> (r: Page)
        ensures
            r@ == self@,
    {
        let r = Page {
            book: self.book,
            begin: self.begin.duplicate(),
            end: match &self.end {
                Option::Some(e) => Option::Some(e.duplicate()),
                Option::None => Option::None,
            },
        };
        proof {
            assert(r@ =~= self@);
        }
        r
    }
}

impl Score {
    /// Clone this score.
    pub fn duplicate(&self) -> (r: Score)
        ensures
            r@ == self@,
    {
        let r = Score {
            id: self.id,
            title: self.title.clone(),
            genres: clone_string_vec(&self.genres),
            composers: clone_string_vec(&self.composers),
            arrangers: clone_string_vec(&self.arrangers),
            publishers: clone_string_vec(&self.publishers),
            grade: clone_opt_string(&self.grade),
            alias: clone_string_vec(&self.alias),
            sub_titles: clone_string_vec(&self.sub_titles),
            annotation: clone_opt_string(&self.annotation),
            back_of: self.back_of,
            location: match &self.location {
                Option::Some(p) => Option::Some(p.duplicate()),
                Option::None => Option::None,
            },
        };
        proof {
            assert(r@ =~= self@);
        }
        r
    }
}

impl Book {
    /// Clone this book.
    pub fn duplicate(&self) -> (r: Book)
        ensures
            r@ == self@,
    {
        let r = Book {
            id: self.id,
            name: self.name.clone(),
            annotation: clone_opt_string(&self.annotation),
        };
        proof {
            assert(r@ =~= self@);
        }
        r
    }
}

} // verus!
