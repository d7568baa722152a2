use twitch_chat_logger::discovery::{
    stream_params, top_connections, user_params, ChannelPages, PageRequest, Search, MAX_PER_PAGE,
};

fn names(v: &[&str]) -> Vec<String> {
    v.iter().map(|s| s.to_string()).collect()
}

#[test]
fn nothing_is_asked_for_nothing() {
    let p = ChannelPages::new(0);
    assert!(p.request().is_none());
    assert!(p.pages(Some(("c".to_string(), 5))).is_none());
}

#[test]
fn pages_are_capped_at_one_hundred() {
    assert_eq!(MAX_PER_PAGE, 100);
    let p = ChannelPages::new(250);
    let r = p.request().unwrap();
    assert_eq!(r.first, 100);
    assert_eq!(r.after, None);
    let p = p.pages(Some(("c1".to_string(), 100))).unwrap();
    assert_eq!(p.number, 150);
    assert_eq!(p.page, Some("c1".to_string()));
    let r = p.request().unwrap();
    assert_eq!(r.first, 100);
    assert_eq!(r.after, Some("c1".to_string()));
    let p = p.pages(Some(("c2".to_string(), 97))).unwrap();
    assert_eq!(p.number, 50);
    let r = p.request().unwrap();
    assert_eq!(r.first, 50);
    assert_eq!(r.after, Some("c2".to_string()));
    let p = p.pages(Some(("c3".to_string(), 50))).unwrap();
    assert_eq!(p.number, 0);
    assert!(p.request().is_none());
}

#[test]
fn a_failed_or_empty_page_ends_the_paging() {
    assert!(ChannelPages::new(10).pages(None).is_none());
    assert!(ChannelPages::new(10).pages(Some(("c".to_string(), 0))).is_none());
    let p = ChannelPages::new(100).pages(Some(("c".to_string(), 1))).unwrap();
    assert_eq!(p.number, 0);
}

#[test]
fn stream_parameters_name_size_and_cursor() {
    let first = stream_params(&PageRequest { first: 100, after: None });
    assert_eq!(first, vec![("first".to_string(), "100".to_string())]);
    let next = stream_params(&PageRequest { first: 7, after: Some("abc".to_string()) });
    assert_eq!(
        next,
        vec![("first".to_string(), "7".to_string()), ("after".to_string(), "abc".to_string())]
    );
}

#[test]
fn user_parameters_name_every_id() {
    assert!(user_params(&Vec::new()).is_empty());
    let p = user_params(&names(&["23161357", "5"]));
    assert_eq!(
        p,
        vec![("id".to_string(), "23161357".to_string()), ("id".to_string(), "5".to_string())]
    );
}

#[test]
fn logins_are_gathered_page_by_page() {
    let pages = vec![names(&["a", "b", "a"]), Vec::new(), names(&["c", "a"])];
    assert_eq!(top_connections(pages.clone(), 10), names(&["a", "b", "c", "a"]));
    assert_eq!(top_connections(pages.clone(), 4), names(&["a", "b", "c", "a"]));
    assert_eq!(top_connections(pages.clone(), 3), names(&["a", "b", "c"]));
    assert_eq!(top_connections(pages.clone(), 1), names(&["a"]));
    assert!(top_connections(pages, 0).is_empty());
    assert!(top_connections(Vec::new(), 5).is_empty());
}

#[test]
fn a_search_asks_resolves_and_gathers() {
    let mut s = Search::new(150);
    let r = s.request().unwrap();
    assert_eq!((r.first, r.after), (100, None));
    assert!(s.page_fetched(Some(("c1".to_string(), 100))));
    s.users_resolved(Some(names(&["a", "b", "a"])));
    let r = s.request().unwrap();
    assert_eq!((r.first, r.after), (50, Some("c1".to_string())));
    assert!(s.page_fetched(Some(("c2".to_string(), 50))));
    s.users_resolved(Some(names(&["c", "a"])));
    assert!(s.request().is_none());
    assert_eq!(s.finish(), names(&["a", "b", "c", "a"]));
}

#[test]
fn a_failed_page_ends_the_search_with_what_was_found() {
    let mut s = Search::new(300);
    assert!(s.page_fetched(Some(("c1".to_string(), 100))));
    s.users_resolved(Some(names(&["a", "b"])));
    assert!(!s.page_fetched(None));
    assert!(s.request().is_none());
    assert!(!s.page_fetched(Some(("c2".to_string(), 100))));
    assert_eq!(s.finish(), names(&["a", "b"]));
}

#[test]
fn a_failed_lookup_ends_the_search_with_what_was_found() {
    let mut s = Search::new(300);
    assert!(s.page_fetched(Some(("c1".to_string(), 100))));
    s.users_resolved(Some(names(&["a", "b"])));
    assert!(s.page_fetched(Some(("c2".to_string(), 100))));
    s.users_resolved(None);
    assert!(s.request().is_none());
    assert_eq!(s.finish(), names(&["a", "b"]));
}

#[test]
fn an_empty_page_is_not_looked_up() {
    let mut s = Search::new(10);
    assert!(!s.page_fetched(Some(("c1".to_string(), 0))));
    assert!(s.request().is_none());
    assert!(s.finish().is_empty());
    let mut none = Search::new(0);
    assert!(none.request().is_none());
    assert!(!none.page_fetched(Some(("c".to_string(), 3))));
}
