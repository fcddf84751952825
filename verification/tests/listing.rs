use reftable::branch::{decimal, list, Kind, ListError, Options, OutputFormat, MAX_RESULTS};
use reftable::fuzzy::{
    find_in_repo, is_blank_query, normalize, select_best, sort_by_name, Match, NamedRef, Scored, MAX_QUERY_CHARS,
};

fn named(full: &str, short: &str) -> NamedRef {
    NamedRef { full: full.as_bytes().to_vec(), short: short.as_bytes().to_vec() }
}

fn repo() -> Vec<NamedRef> {
    vec![
        named("HEAD", "HEAD"),
        named("refs/heads/main", "main"),
        named("refs/heads/feature", "feature"),
        named("refs/remotes/origin/main", "origin/main"),
        named("refs/tags/v1", "v1"),
    ]
}

fn options(kind: Kind, prefix: Option<&str>, fuzzy: Option<&str>, sort: bool) -> Options {
    Options { kind, prefix: prefix.map(|p| p.to_string()), fuzzy: fuzzy.map(|q| q.to_string()), sort }
}

fn lines(r: Vec<Vec<u8>>) -> Vec<String> {
    r.into_iter().map(|l| String::from_utf8(l).expect("utf-8")).collect()
}

#[test]
fn normalize_drops_whitespace_and_case() {
    assert_eq!(b"foobar".to_vec(), normalize(b" Foo\tBar \n"));
    assert_eq!(Vec::<u8>::new(), normalize(b" \t\r\n\x0c"));
    assert_eq!(b"refs/heads/x".to_vec(), normalize(b"refs/heads/X"));
    let once = normalize(b"A b C");
    assert_eq!(once, normalize(&once));
}

#[test]
fn select_best_keeps_the_top_scores() {
    let c = vec![
        Scored { score: 1, name: b"a".to_vec() },
        Scored { score: 5, name: b"b".to_vec() },
        Scored { score: 3, name: b"c".to_vec() },
    ];
    let best = select_best(&c, 2);
    assert_eq!(2, best.len());
    assert_eq!((b"b".as_slice(), 5), (best[0].name(), best[0].score()));
    assert_eq!((b"c".as_slice(), 3), (best[1].name(), best[1].score()));
    assert_eq!(3, select_best(&c, 10).len());
    assert!(select_best(&c, 0).is_empty());
}

#[test]
fn sort_by_name_orders_hits() {
    let c = vec![
        Scored { score: 1, name: b"refs/heads/b".to_vec() },
        Scored { score: 5, name: b"refs/heads/a".to_vec() },
    ];
    let mut hits: Vec<Match> = select_best(&c, 2);
    sort_by_name(&mut hits);
    assert_eq!(b"refs/heads/a", hits[0].name());
    assert_eq!(b"refs/heads/b", hits[1].name());
}

#[test]
fn fuzzy_search_finds_matching_names_best_first() {
    let refs = repo();
    let hits = find_in_repo(&refs, "main", 10);
    let names: Vec<&[u8]> = hits.iter().map(|h| h.name()).collect();
    assert!(names.contains(&b"refs/heads/main".as_slice()));
    assert!(names.contains(&b"refs/remotes/origin/main".as_slice()));
    assert!(!names.contains(&b"refs/heads/feature".as_slice()));
    for w in hits.windows(2) {
        assert!(w[0].score() >= w[1].score());
    }
    assert!(hits.iter().all(|h| h.score() > 0));
    assert_eq!(1, find_in_repo(&refs, "main", 1).len());
}

#[test]
fn fuzzy_search_without_a_query_finds_nothing() {
    let refs = repo();
    assert!(find_in_repo(&refs, "main", 0).is_empty());
    assert!(find_in_repo(&refs, "", 10).is_empty());
    assert!(find_in_repo(&refs, " \t ", 10).is_empty());
    assert!(find_in_repo(&refs, "zzzz", 10).is_empty());
}

#[test]
fn json_is_refused() {
    let r = list(&repo(), OutputFormat::Json, &options(Kind::All, None, None, false));
    assert_eq!(Err(ListError::JsonUnsupported), r);
}

#[test]
fn plain_listing_local_then_remote() {
    let mut refs = repo();
    refs.push(named("refs/heads/alpha", "alpha"));
    let r = list(&refs, OutputFormat::Human, &options(Kind::All, None, None, false)).expect("listing");
    assert_eq!(vec!["main", "feature", "alpha", "origin/main"], lines(r));

    let r = list(&refs, OutputFormat::Human, &options(Kind::All, None, None, true)).expect("listing");
    assert_eq!(vec!["alpha", "feature", "main", "origin/main"], lines(r));

    let r = list(&refs, OutputFormat::Human, &options(Kind::Local, None, None, true)).expect("listing");
    assert_eq!(vec!["alpha", "feature", "main"], lines(r));
}

#[test]
fn plain_listing_under_a_prefix() {
    let refs = repo();
    let r = list(&refs, OutputFormat::Human, &options(Kind::All, Some("refs/remotes/"), None, false))
        .expect("listing");
    assert_eq!(vec!["origin/main"], lines(r));

    let r = list(&refs, OutputFormat::Human, &options(Kind::Local, Some("refs/remotes/"), None, false))
        .expect("listing");
    assert!(r.is_empty());

    let r = list(&refs, OutputFormat::Human, &options(Kind::All, Some("refs/heads/m"), None, false))
        .expect("listing");
    assert_eq!(vec!["main"], lines(r));
}

#[test]
fn fuzzy_listing_prints_short_names_and_scores() {
    let refs = repo();
    let hits = find_in_repo(&refs, "main", MAX_RESULTS);
    let r = list(&refs, OutputFormat::Human, &options(Kind::Local, None, Some("main"), false)).expect("listing");
    let main = hits.iter().find(|h| h.name() == b"refs/heads/main").expect("hit");
    assert_eq!(vec![format!("main\t{}", main.score())], lines(r));

    let r = list(&refs, OutputFormat::Human, &options(Kind::All, None, Some("main"), true)).expect("listing");
    let l = lines(r);
    assert_eq!(2, l.len());
    assert!(l[0].starts_with("main\t"));
    assert!(l[1].starts_with("origin/main\t"));

    let r = list(&refs, OutputFormat::Human, &options(Kind::All, Some("refs/remotes/"), Some("main"), false))
        .expect("listing");
    let l = lines(r);
    assert_eq!(1, l.len());
    assert!(l[0].starts_with("origin/main\t"));
}

#[test]
fn listing_replaces_invalid_utf8() {
    let refs = vec![NamedRef { full: b"refs/heads/\xffx".to_vec(), short: b"\xffx".to_vec() }];
    let r = list(&refs, OutputFormat::Human, &options(Kind::Local, None, None, false)).expect("listing");
    assert_eq!(vec!["\u{fffd}x"], lines(r));
}

#[test]
fn decimal_digits() {
    assert_eq!(b"0".to_vec(), decimal(0));
    assert_eq!(b"7".to_vec(), decimal(7));
    assert_eq!(b"1234".to_vec(), decimal(1234));
}

#[test]
fn a_long_blank_query_finds_nothing() {
    let refs = repo();
    let blank = " ".repeat(3 * MAX_QUERY_CHARS);
    assert!(is_blank_query(&blank));
    assert!(find_in_repo(&refs, &blank, 10).is_empty());
    let r = list(&refs, OutputFormat::Human, &options(Kind::All, None, Some(blank.as_str()), false)).expect("listing");
    assert!(r.is_empty());
}

#[test]
fn blank_queries_are_recognised() {
    assert!(is_blank_query(""));
    assert!(is_blank_query(" \t\r\n"));
    assert!(!is_blank_query(" a "));
    assert!(!is_blank_query("!"));
}

#[test]
fn a_query_of_the_longest_scored_length_is_scored() {
    let long_name = "a/".repeat(MAX_QUERY_CHARS);
    let refs = vec![named(&format!("refs/heads/{}", long_name), &long_name)];
    let query = "a/".repeat(MAX_QUERY_CHARS / 2);
    assert_eq!(MAX_QUERY_CHARS, query.chars().count());
    let hits = find_in_repo(&refs, &query, 5);
    assert_eq!(1, hits.len());
    assert!(hits[0].score() > 0);
}
