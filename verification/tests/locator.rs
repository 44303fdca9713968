use keg::error::ArchiveError;
use keg::model::{Page, PageNumber, ScoreSearchParameter, parse_search_field};
use keg::order::Cmp;

fn pn(prefix: Option<&str>, number: i64, suffix: Option<&str>) -> PageNumber {
    PageNumber { prefix: prefix.map(|s| s.to_string()), number, suffix: suffix.map(|s| s.to_string()) }
}

#[test]
fn ordered_range_is_accepted() {
    let a = pn(Some("A"), 1, None);
    let b = pn(Some("A"), 4, None);
    let page = Page { book: 1, begin: a, end: Some(b) };
    assert!(page.validate(true).is_ok());
}

#[test]
fn equal_range_is_accepted() {
    let a = pn(None, 3, None);
    let b = pn(None, 3, None);
    let page = Page { book: 1, begin: a, end: Some(b) };
    assert!(page.validate(true).is_ok());
}

#[test]
fn swapped_range_is_rejected() {
    let a = pn(Some("A"), 1, None);
    let b = pn(Some("A"), 4, None);
    let page = Page { book: 1, begin: b, end: Some(a) };
    assert_eq!(page.validate(true), Err(ArchiveError::InvalidRange));
}

#[test]
fn negative_numbers_are_rejected() {
    // A negative begin fails even as a single page.
    let single = Page { book: 1, begin: pn(None, -1, None), end: None };
    assert_eq!(single.validate(true), Err(ArchiveError::InvalidRange));
    // A negative end fails even though the order is fine.
    let ranged = Page { book: 1, begin: pn(None, -4, None), end: Some(pn(None, -2, None)) };
    assert_eq!(ranged.validate(true), Err(ArchiveError::InvalidRange));
    // The book reference is still checked first.
    let unknown = Page { book: 1, begin: pn(None, -1, None), end: None };
    assert_eq!(unknown.validate(false), Err(ArchiveError::InvalidLocation));
    // Page zero is valid.
    let zero = Page { book: 1, begin: pn(None, 0, None), end: None };
    assert!(zero.validate(true).is_ok());
}

#[test]
fn unknown_book_is_rejected_first() {
    let a = pn(None, 1, None);
    let b = pn(None, 0, None);
    let page = Page { book: 9, begin: a, end: Some(b) };
    assert_eq!(page.validate(false), Err(ArchiveError::InvalidLocation));
}

#[test]
fn page_number_order_prefix_number_suffix() {
    // Absent prefix sorts before any present prefix.
    assert_eq!(pn(None, 9, None).compare(&pn(Some("A"), 1, None)), Cmp::Lt);
    // Prefix decides before the number.
    assert_eq!(pn(Some("A"), 9, None).compare(&pn(Some("B"), 1, None)), Cmp::Lt);
    // Then the number decides.
    assert_eq!(pn(Some("A"), 1, None).compare(&pn(Some("A"), 2, None)), Cmp::Lt);
    // Then the suffix, absent first.
    assert_eq!(pn(Some("A"), 1, None).compare(&pn(Some("A"), 1, Some("b"))), Cmp::Lt);
    assert_eq!(pn(Some("A"), 1, Some("a")).compare(&pn(Some("A"), 1, Some("b"))), Cmp::Lt);
    assert_eq!(pn(Some("A"), 1, Some("a")).compare(&pn(Some("A"), 1, Some("a"))), Cmp::Eq);
    assert_eq!(pn(Some("B"), 1, None).compare(&pn(Some("A"), 9, Some("z"))), Cmp::Gt);
}

#[test]
fn page_contains_span() {
    let page = Page { book: 1, begin: pn(Some("A"), 2, None), end: Some(pn(Some("A"), 5, None)) };
    assert!(page.contains(&pn(Some("A"), 2, None)));
    assert!(page.contains(&pn(Some("A"), 4, None)));
    assert!(page.contains(&pn(Some("A"), 5, None)));
    assert!(!page.contains(&pn(Some("A"), 1, None)));
    assert!(!page.contains(&pn(Some("A"), 6, None)));
    assert!(!page.contains(&pn(None, 3, None)));
    let single = Page { book: 1, begin: pn(None, 7, None), end: None };
    assert!(single.contains(&pn(None, 7, None)));
    assert!(!single.contains(&pn(None, 8, None)));
}

#[test]
fn database_field_mapping_is_fixed() {
    assert_eq!(ScoreSearchParameter::Title.to_database_field(), "title");
    assert_eq!(ScoreSearchParameter::SubTitle.to_database_field(), "subtitle");
    assert_eq!(ScoreSearchParameter::Alias.to_database_field(), "alias");
    assert_eq!(ScoreSearchParameter::Publisher.to_database_field(), "publisher");
    assert_eq!(ScoreSearchParameter::Annotation.to_database_field(), "annotation");
    assert_eq!(ScoreSearchParameter::Composer.to_database_field(), "composer");
    assert_eq!(ScoreSearchParameter::Arranger.to_database_field(), "arranger");
    assert_eq!(ScoreSearchParameter::Genre.to_database_field(), "genre");
}

#[test]
fn parse_search_field_accepts_known_names() {
    assert_eq!(parse_search_field("title"), Ok(ScoreSearchParameter::Title));
    assert_eq!(parse_search_field("genre"), Ok(ScoreSearchParameter::Genre));
    assert_eq!(parse_search_field("subTitle"), Ok(ScoreSearchParameter::SubTitle));
    assert_eq!(parse_search_field("arranger"), Ok(ScoreSearchParameter::Arranger));
    assert_eq!(parse_search_field("composer"), Ok(ScoreSearchParameter::Composer));
    assert_eq!(parse_search_field("annotation"), Ok(ScoreSearchParameter::Annotation));
    assert_eq!(parse_search_field("alias"), Ok(ScoreSearchParameter::Alias));
    assert_eq!(parse_search_field("publisher"), Ok(ScoreSearchParameter::Publisher));
}

#[test]
fn parse_search_field_rejects_unknown_names() {
    assert_eq!(parse_search_field("Title"), Err(ArchiveError::InvalidSearchField));
    assert_eq!(parse_search_field(""), Err(ArchiveError::InvalidSearchField));
    assert_eq!(parse_search_field("subtitle"), Err(ArchiveError::InvalidSearchField));
}
