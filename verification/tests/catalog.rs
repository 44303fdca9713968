use keg::catalog::Catalog;
use keg::error::ArchiveError;
use keg::model::{Book, Page, PageNumber, Score};

fn pn(prefix: Option<&str>, number: i64, suffix: Option<&str>) -> PageNumber {
    PageNumber { prefix: prefix.map(|s| s.to_string()), number, suffix: suffix.map(|s| s.to_string()) }
}

fn score(title: &str) -> Score {
    Score {
        id: None,
        title: title.to_string(),
        genres: vec![],
        composers: vec![],
        arrangers: vec![],
        publishers: vec![],
        grade: None,
        alias: vec![],
        sub_titles: vec![],
        annotation: None,
        back_of: None,
        location: None,
    }
}

fn book(name: &str) -> Book {
    Book { id: None, name: name.to_string(), annotation: None }
}

#[test]
fn create_then_get_round_trip() {
    let mut c = Catalog::new();
    let mut p = score("baum");
    p.genres = vec!["polka".to_string(), "marsch".to_string()];
    p.composers = vec!["komponist".to_string()];
    p.arrangers = vec!["arrangeur".to_string()];
    p.publishers = vec!["verlag".to_string()];
    p.grade = Some("B".to_string());
    p.alias = vec!["strauch".to_string(), "teller".to_string()];
    p.sub_titles = vec!["erster".to_string(), "erster".to_string(), "zweiter".to_string()];
    p.annotation = Some("notiz".to_string());
    let created = c.create_score(p).unwrap_or_else(|_| panic!("create failed"));
    let id = created.id.unwrap_or_else(|| panic!("no id assigned"));
    let fetched = c.get_score(id).unwrap_or_else(|_| panic!("get failed"));
    assert_eq!(fetched.id, Some(id));
    assert_eq!(fetched.title, "baum");
    assert_eq!(fetched.genres, vec!["polka".to_string(), "marsch".to_string()]);
    assert_eq!(fetched.composers, vec!["komponist".to_string()]);
    assert_eq!(fetched.arrangers, vec!["arrangeur".to_string()]);
    assert_eq!(fetched.publishers, vec!["verlag".to_string()]);
    assert_eq!(fetched.grade, Some("B".to_string()));
    assert_eq!(fetched.alias, vec!["strauch".to_string(), "teller".to_string()]);
    assert_eq!(
        fetched.sub_titles,
        vec!["erster".to_string(), "erster".to_string(), "zweiter".to_string()]
    );
    assert_eq!(fetched.annotation, Some("notiz".to_string()));
    assert_eq!(fetched.back_of, None);
    assert!(fetched.location.is_none());
}

#[test]
fn create_rejects_client_supplied_id() {
    let mut c = Catalog::new();
    let mut p = score("baum");
    p.id = Some(3);
    match c.create_score(p) {
        Err(e) => assert_eq!(e, ArchiveError::IdNotAllowed),
        Ok(_) => panic!("client id must be rejected"),
    }
}

#[test]
fn create_deduplicates_set_fields() {
    let mut c = Catalog::new();
    let mut p = score("baum");
    p.genres = vec!["polka".to_string(), "walzer".to_string(), "polka".to_string()];
    p.composers = vec!["a".to_string(), "a".to_string()];
    let created = c.create_score(p).unwrap_or_else(|_| panic!("create failed"));
    assert_eq!(created.genres, vec!["polka".to_string(), "walzer".to_string()]);
    assert_eq!(created.composers, vec!["a".to_string()]);
}

#[test]
fn contributor_registry_holds_each_name_once() {
    let mut c = Catalog::new();
    let mut p1 = score("eins");
    p1.composers = vec!["gemeinsam".to_string()];
    let mut p2 = score("zwei");
    p2.composers = vec!["gemeinsam".to_string()];
    p2.publishers = vec!["verlag".to_string()];
    c.create_score(p1).unwrap_or_else(|_| panic!("create failed"));
    c.create_score(p2).unwrap_or_else(|_| panic!("create failed"));
    let hits = c.contributors.iter().filter(|n| n.as_str() == "gemeinsam").count();
    assert_eq!(hits, 1);
    assert!(c.contributors.iter().any(|n| n.as_str() == "verlag"));
}

#[test]
fn create_rejects_empty_title() {
    let mut c = Catalog::new();
    match c.create_score(score("")) {
        Err(e) => assert_eq!(e, ArchiveError::InvalidTitle),
        Ok(_) => panic!("empty title must be rejected"),
    }
    match c.get_score(0) {
        Err(e) => assert_eq!(e, ArchiveError::NotFound),
        Ok(_) => panic!("nothing may be stored on a rejected create"),
    }
}

#[test]
fn update_rejects_empty_title() {
    let mut c = Catalog::new();
    let created = c.create_score(score("baum")).unwrap_or_else(|_| panic!("create failed"));
    let id = created.id.unwrap_or_else(|| panic!("no id assigned"));
    match c.put_score(id, score("")) {
        Err(e) => assert_eq!(e, ArchiveError::InvalidTitle),
        Ok(_) => panic!("empty title must be rejected"),
    }
    let fetched = c.get_score(id).unwrap_or_else(|_| panic!("get failed"));
    assert_eq!(fetched.title, "baum");
}

#[test]
fn negative_page_numbers_are_rejected() {
    let mut c = Catalog::new();
    let b = c.post_book(book("Rot")).unwrap_or_else(|_| panic!("post failed"));
    let bid = b.id.unwrap_or_else(|| panic!("no id assigned"));
    // A negative begin is rejected even without an end.
    let mut p = score("baum");
    p.location = Some(Page { book: bid, begin: pn(None, -1, None), end: None });
    match c.create_score(p) {
        Err(e) => assert_eq!(e, ArchiveError::InvalidRange),
        Ok(_) => panic!("negative begin must be rejected"),
    }
    // A negative end is rejected even though the order would be fine.
    let mut q = score("baum");
    q.location = Some(Page { book: bid, begin: pn(None, -5, None), end: Some(pn(None, -2, None)) });
    match c.create_score(q) {
        Err(e) => assert_eq!(e, ArchiveError::InvalidRange),
        Ok(_) => panic!("negative end must be rejected"),
    }
    // The same holds on update, with the store unchanged.
    let created = c.create_score(score("baum")).unwrap_or_else(|_| panic!("create failed"));
    let id = created.id.unwrap_or_else(|| panic!("no id assigned"));
    let mut up = score("baum");
    up.location = Some(Page { book: bid, begin: pn(None, -3, None), end: None });
    match c.put_score(id, up) {
        Err(e) => assert_eq!(e, ArchiveError::InvalidRange),
        Ok(_) => panic!("negative begin must be rejected on update"),
    }
    let fetched = c.get_score(id).unwrap_or_else(|_| panic!("get failed"));
    assert!(fetched.location.is_none());
    // Page zero itself is valid.
    let mut ok = score("baum");
    ok.location = Some(Page { book: bid, begin: pn(None, 0, None), end: Some(pn(None, 0, None)) });
    assert!(c.create_score(ok).is_ok());
}

#[test]
fn update_rejects_reversed_range() {
    let mut c = Catalog::new();
    let b = c.post_book(book("Rot")).unwrap_or_else(|_| panic!("post failed"));
    let bid = b.id.unwrap_or_else(|| panic!("no id assigned"));
    let created = c.create_score(score("baum")).unwrap_or_else(|_| panic!("create failed"));
    let id = created.id.unwrap_or_else(|| panic!("no id assigned"));
    let mut up = score("baum");
    up.back_of = None;
    up.location = Some(Page { book: bid, begin: pn(None, 4, None), end: Some(pn(None, 2, None)) });
    match c.put_score(id, up) {
        Err(e) => assert_eq!(e, ArchiveError::InvalidRange),
        Ok(_) => panic!("reversed range must be rejected on update"),
    }
    let fetched = c.get_score(id).unwrap_or_else(|_| panic!("get failed"));
    assert!(fetched.location.is_none());
}

#[test]
fn deleting_a_dangling_back_reference_target() {
    let mut c = Catalog::new();
    // A stored score may name a never-assigned score as its front side.
    let mut p = score("hinten");
    p.back_of = Some(99);
    let created = c.create_score(p).unwrap_or_else(|_| panic!("create failed"));
    let sid = created.id.unwrap_or_else(|| panic!("no id assigned"));
    // Deleting the absent id clears the dangling reference.
    c.delete_score(99);
    let fetched = c.get_score(sid).unwrap_or_else(|_| panic!("get failed"));
    assert_eq!(fetched.back_of, None);
    // With the clearing done, deleting again changes nothing.
    c.delete_score(99);
    let again = c.get_score(sid).unwrap_or_else(|_| panic!("get failed"));
    assert_eq!(again.back_of, None);
    assert_eq!(again.title, "hinten");
}

#[test]
fn get_absent_score_is_not_found() {
    let c = Catalog::new();
    match c.get_score(5) {
        Err(e) => assert_eq!(e, ArchiveError::NotFound),
        Ok(_) => panic!("absent id must not be found"),
    }
}

#[test]
fn create_validates_location() {
    let mut c = Catalog::new();
    let mut p = score("baum");
    p.location = Some(Page { book: 0, begin: pn(None, 1, None), end: None });
    match c.create_score(p) {
        Err(e) => assert_eq!(e, ArchiveError::InvalidLocation),
        Ok(_) => panic!("unknown book must be rejected"),
    }
    let b = c.post_book(book("Rot")).unwrap_or_else(|_| panic!("post failed"));
    let bid = b.id.unwrap_or_else(|| panic!("no id assigned"));
    let mut q = score("baum");
    q.location = Some(Page { book: bid, begin: pn(None, 4, None), end: Some(pn(None, 2, None)) });
    match c.create_score(q) {
        Err(e) => assert_eq!(e, ArchiveError::InvalidRange),
        Ok(_) => panic!("reversed range must be rejected"),
    }
    let mut r = score("baum");
    r.location = Some(Page { book: bid, begin: pn(None, 2, None), end: Some(pn(None, 4, None)) });
    assert!(c.create_score(r).is_ok());
}

#[test]
fn update_self_reference_fails() {
    let mut c = Catalog::new();
    // Create eight scores so that id 7 exists.
    for i in 0..8 {
        let p = score(&format!("werk{}", i));
        c.create_score(p).unwrap_or_else(|_| panic!("create failed"));
    }
    let mut p = score("werk7");
    p.back_of = Some(7);
    match c.put_score(7, p) {
        Err(e) => assert_eq!(e, ArchiveError::SelfReference),
        Ok(_) => panic!("self reference must be rejected"),
    }
    // A reference to another score is accepted.
    let mut q = score("werk7");
    q.back_of = Some(3);
    assert!(c.put_score(7, q).is_ok());
}

#[test]
fn update_absent_score_is_not_found() {
    let mut c = Catalog::new();
    match c.put_score(1, score("baum")) {
        Err(e) => assert_eq!(e, ArchiveError::NotFound),
        Ok(_) => panic!("absent id must not be updated"),
    }
}

#[test]
fn update_replaces_in_full() {
    let mut c = Catalog::new();
    let mut p = score("alt");
    p.annotation = Some("bleibt nicht".to_string());
    let created = c.create_score(p).unwrap_or_else(|_| panic!("create failed"));
    let id = created.id.unwrap_or_else(|| panic!("no id assigned"));
    let updated = c.put_score(id, score("neu")).unwrap_or_else(|_| panic!("update failed"));
    assert_eq!(updated.id, Some(id));
    assert_eq!(updated.title, "neu");
    let fetched = c.get_score(id).unwrap_or_else(|_| panic!("get failed"));
    assert_eq!(fetched.title, "neu");
    assert_eq!(fetched.annotation, None);
}

#[test]
fn delete_twice_yields_the_same_outcome() {
    let mut c = Catalog::new();
    let created = c.create_score(score("baum")).unwrap_or_else(|_| panic!("create failed"));
    let id = created.id.unwrap_or_else(|| panic!("no id assigned"));
    c.delete_score(id);
    match c.get_score(id) {
        Err(e) => assert_eq!(e, ArchiveError::NotFound),
        Ok(_) => panic!("deleted id must be gone"),
    }
    // Deleting the already-deleted id is the same no-op success.
    c.delete_score(id);
    match c.get_score(id) {
        Err(e) => assert_eq!(e, ArchiveError::NotFound),
        Ok(_) => panic!("deleted id must stay gone"),
    }
}

#[test]
fn delete_clears_back_references() {
    let mut c = Catalog::new();
    let first = c.create_score(score("vorn")).unwrap_or_else(|_| panic!("create failed"));
    let fid = first.id.unwrap_or_else(|| panic!("no id assigned"));
    let mut p = score("hinten");
    p.back_of = Some(fid);
    let second = c.create_score(p).unwrap_or_else(|_| panic!("create failed"));
    let sid = second.id.unwrap_or_else(|| panic!("no id assigned"));
    c.delete_score(fid);
    let fetched = c.get_score(sid).unwrap_or_else(|_| panic!("get failed"));
    assert_eq!(fetched.back_of, None);
}

#[test]
fn book_crud_and_not_found() {
    let mut c = Catalog::new();
    let b = c.post_book(book("Rot")).unwrap_or_else(|_| panic!("post failed"));
    let bid = b.id.unwrap_or_else(|| panic!("no id assigned"));
    let fetched = c.get_book(bid).unwrap_or_else(|_| panic!("get failed"));
    assert_eq!(fetched.name, "Rot");
    match c.get_book(bid + 1) {
        Err(e) => assert_eq!(e, ArchiveError::NotFound),
        Ok(_) => panic!("absent book must not be found"),
    }
    let mut up = book("Blau");
    up.id = Some(bid);
    let updated = c.put_book(up).unwrap_or_else(|_| panic!("update failed"));
    assert_eq!(updated.name, "Blau");
    let fetched2 = c.get_book(bid).unwrap_or_else(|_| panic!("get failed"));
    assert_eq!(fetched2.name, "Blau");
    // An update without an id names no book.
    match c.put_book(book("Ohne")) {
        Err(e) => assert_eq!(e, ArchiveError::NotFound),
        Ok(_) => panic!("payload without id must not update"),
    }
    let mut bad = book("Weg");
    bad.id = Some(99);
    match c.put_book(bad) {
        Err(e) => assert_eq!(e, ArchiveError::NotFound),
        Ok(_) => panic!("absent book must not be updated"),
    }
}

#[test]
fn post_book_rejects_client_supplied_id() {
    let mut c = Catalog::new();
    let mut b = book("Rot");
    b.id = Some(1);
    match c.post_book(b) {
        Err(e) => assert_eq!(e, ArchiveError::IdNotAllowed),
        Ok(_) => panic!("client id must be rejected"),
    }
}

#[test]
fn delete_book_clears_locations() {
    let mut c = Catalog::new();
    let b = c.post_book(book("Rot")).unwrap_or_else(|_| panic!("post failed"));
    let bid = b.id.unwrap_or_else(|| panic!("no id assigned"));
    let mut p = score("baum");
    p.location = Some(Page { book: bid, begin: pn(None, 1, None), end: None });
    let created = c.create_score(p).unwrap_or_else(|_| panic!("create failed"));
    let sid = created.id.unwrap_or_else(|| panic!("no id assigned"));
    c.delete_book(bid);
    match c.get_book(bid) {
        Err(e) => assert_eq!(e, ArchiveError::NotFound),
        Ok(_) => panic!("deleted book must be gone"),
    }
    let fetched = c.get_score(sid).unwrap_or_else(|_| panic!("get failed"));
    assert!(fetched.location.is_none());
    // Deleting again is the same no-op success.
    c.delete_book(bid);
}
