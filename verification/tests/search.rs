use keg::catalog::Catalog;
use keg::model::{Book, Page, PageNumber, Score, ScoreSearchParameter, ScoreSearchParameters};

fn pn(prefix: Option<&str>, number: i64, suffix: Option<&str>) -> PageNumber {
    PageNumber { prefix: prefix.map(|s| s.to_string()), number, suffix: suffix.map(|s| s.to_string()) }
}

fn score(title: &str) -> Score {
    Score {
        id: None,
        title: title.to_string(),
        genres: vec![],
        composers: vec![],
        arrangers: vec![],
        publishers: vec![],
        grade: None,
        alias: vec![],
        sub_titles: vec![],
        annotation: None,
        back_of: None,
        location: None,
    }
}

fn params(fields: Vec<ScoreSearchParameter>, value: &str, descending: bool) -> ScoreSearchParameters {
    ScoreSearchParameters { fields, descending, value: value.to_string() }
}

fn titles(items: &[Score]) -> Vec<String> {
    items.iter().map(|s| s.title.clone()).collect()
}

#[test]
fn title_field_matches_exactly() {
    let mut c = Catalog::new();
    c.create_score(score("baum")).unwrap_or_else(|_| panic!("create failed"));
    let mut other = score("strauch");
    other.alias = vec!["baum".to_string()];
    c.create_score(other).unwrap_or_else(|_| panic!("create failed"));
    let r = c.search_scores(&params(vec![ScoreSearchParameter::Title], "baum", false), 0, 10);
    assert_eq!(r.total, 1);
    assert_eq!(titles(&r.items), vec!["baum".to_string()]);
}

#[test]
fn alias_is_searched_only_when_requested() {
    let mut c = Catalog::new();
    c.create_score(score("baum")).unwrap_or_else(|_| panic!("create failed"));
    let mut other = score("strauch");
    other.alias = vec!["baum".to_string()];
    c.create_score(other).unwrap_or_else(|_| panic!("create failed"));
    let r = c.search_scores(
        &params(vec![ScoreSearchParameter::Title, ScoreSearchParameter::Alias], "baum", false),
        0,
        10,
    );
    assert_eq!(r.total, 2);
    assert_eq!(titles(&r.items), vec!["baum".to_string(), "strauch".to_string()]);
}

#[test]
fn empty_field_list_matches_nothing() {
    let mut c = Catalog::new();
    c.create_score(score("baum")).unwrap_or_else(|_| panic!("create failed"));
    let r = c.search_scores(&params(vec![], "baum", false), 0, 10);
    assert_eq!(r.total, 0);
    assert!(r.items.is_empty());
}

#[test]
fn other_fields_match_their_attribute() {
    let mut c = Catalog::new();
    let mut p = score("werk");
    p.genres = vec!["polka".to_string()];
    p.composers = vec!["komponist".to_string()];
    p.arrangers = vec!["arrangeur".to_string()];
    p.publishers = vec!["verlag".to_string()];
    p.sub_titles = vec!["teil".to_string()];
    p.annotation = Some("notiz".to_string());
    c.create_score(p).unwrap_or_else(|_| panic!("create failed"));
    for (field, value) in [
        (ScoreSearchParameter::Genre, "polka"),
        (ScoreSearchParameter::Composer, "komponist"),
        (ScoreSearchParameter::Arranger, "arrangeur"),
        (ScoreSearchParameter::Publisher, "verlag"),
        (ScoreSearchParameter::SubTitle, "teil"),
        (ScoreSearchParameter::Annotation, "notiz"),
    ] {
        let r = c.search_scores(&params(vec![field], value, false), 0, 10);
        assert_eq!(r.total, 1);
    }
    let miss = c.search_scores(&params(vec![ScoreSearchParameter::Genre], "walzer", false), 0, 10);
    assert_eq!(miss.total, 0);
}

#[test]
fn ascending_and_descending_order() {
    let mut c = Catalog::new();
    let mut with_genre = |t: &str| {
        let mut p = score(t);
        p.genres = vec!["polka".to_string()];
        c.create_score(p).unwrap_or_else(|_| panic!("create failed"));
    };
    with_genre("cis");
    with_genre("ahorn");
    with_genre("birke");
    let q = params(vec![ScoreSearchParameter::Genre], "polka", false);
    let asc = c.search_scores(&q, 0, 10);
    assert_eq!(
        titles(&asc.items),
        vec!["ahorn".to_string(), "birke".to_string(), "cis".to_string()]
    );
    let q2 = params(vec![ScoreSearchParameter::Genre], "polka", true);
    let desc = c.search_scores(&q2, 0, 10);
    assert_eq!(
        titles(&desc.items),
        vec!["cis".to_string(), "birke".to_string(), "ahorn".to_string()]
    );
    // Repeating the query repeats the order.
    let again = c.search_scores(&q, 0, 10);
    assert_eq!(titles(&asc.items), titles(&again.items));
}

#[test]
fn equal_titles_are_ordered_by_id() {
    let mut c = Catalog::new();
    let first = c.create_score(score("gleich")).unwrap_or_else(|_| panic!("create failed"));
    let second = c.create_score(score("gleich")).unwrap_or_else(|_| panic!("create failed"));
    let q = params(vec![ScoreSearchParameter::Title], "gleich", false);
    let r = c.search_scores(&q, 0, 10);
    assert_eq!(r.total, 2);
    assert_eq!(r.items[0].id, first.id);
    assert_eq!(r.items[1].id, second.id);
    let q2 = params(vec![ScoreSearchParameter::Title], "gleich", true);
    let rev = c.search_scores(&q2, 0, 10);
    assert_eq!(rev.items[0].id, second.id);
    assert_eq!(rev.items[1].id, first.id);
}

#[test]
fn pagination_is_zero_indexed_with_total() {
    let mut c = Catalog::new();
    for t in ["a", "b", "c", "d", "e"] {
        let mut p = score(t);
        p.genres = vec!["polka".to_string()];
        c.create_score(p).unwrap_or_else(|_| panic!("create failed"));
    }
    let q = params(vec![ScoreSearchParameter::Genre], "polka", false);
    let page0 = c.search_scores(&q, 0, 2);
    assert_eq!(page0.total, 5);
    assert_eq!(titles(&page0.items), vec!["a".to_string(), "b".to_string()]);
    let page1 = c.search_scores(&q, 1, 2);
    assert_eq!(titles(&page1.items), vec!["c".to_string(), "d".to_string()]);
    let page2 = c.search_scores(&q, 2, 2);
    assert_eq!(titles(&page2.items), vec!["e".to_string()]);
    let beyond = c.search_scores(&q, 3, 2);
    assert_eq!(beyond.total, 5);
    assert!(beyond.items.is_empty());
    let nothing = c.search_scores(&q, 0, 0);
    assert_eq!(nothing.total, 5);
    assert!(nothing.items.is_empty());
}

#[test]
fn no_match_yields_empty_result() {
    let mut c = Catalog::new();
    c.create_score(score("baum")).unwrap_or_else(|_| panic!("create failed"));
    let r = c.search_scores(&params(vec![ScoreSearchParameter::Title], "eiche", false), 0, 10);
    assert_eq!(r.total, 0);
    assert!(r.items.is_empty());
}

#[test]
fn page_size_is_bounded_by_the_ceiling() {
    let mut c = Catalog::new();
    for i in 0..120 {
        let mut p = score(&format!("werk{:03}", i));
        p.genres = vec!["polka".to_string()];
        c.create_score(p).unwrap_or_else(|_| panic!("create failed"));
    }
    let q = params(vec![ScoreSearchParameter::Genre], "polka", false);
    let r = c.search_scores(&q, 0, 1000);
    assert_eq!(r.total, 120);
    // The requested limit is capped at one hundred scores per page.
    assert_eq!(r.items.len(), 100);
    let rest = c.search_scores(&q, 1, 1000);
    assert_eq!(rest.items.len(), 20);
}

#[test]
fn book_pages_are_ordered_by_page_number() {
    let mut c = Catalog::new();
    let b = c
        .post_book(Book { id: None, name: "Rot".to_string(), annotation: None })
        .unwrap_or_else(|_| panic!("post failed"));
    let bid = b.id.unwrap_or_else(|| panic!("no id assigned"));
    let mut locate = |t: &str, p: PageNumber| {
        let mut s = score(t);
        s.location = Some(Page { book: bid, begin: p, end: None });
        c.create_score(s).unwrap_or_else(|_| panic!("create failed"));
    };
    // Insert out of order: B1 first, then A2, then A1.
    locate("b-eins", pn(Some("B"), 1, None));
    locate("a-zwei", pn(Some("A"), 2, None));
    locate("a-eins", pn(Some("A"), 1, None));
    let pages = c.get_book_pages(bid);
    assert_eq!(
        titles(&pages),
        vec!["a-eins".to_string(), "a-zwei".to_string(), "b-eins".to_string()]
    );
    // A score in another book does not appear.
    let other = c.get_book_pages(bid + 1);
    assert!(other.is_empty());
}
