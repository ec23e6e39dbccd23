use crawlsched::interleave::{schedule, schedule_with_domains, UrlEntry};

fn entry(url: &str, domain: Option<&str>) -> UrlEntry {
    UrlEntry { url: url.to_string(), domain: domain.map(|d| d.to_string()) }
}

fn svec(items: &[&str]) -> Vec<String> {
    items.iter().map(|s| s.to_string()).collect()
}

#[test]
fn filtering() {
    let out = schedule(svec(&["", "/relative", "not a url", "https://a.example/x"]));
    assert_eq!(out, svec(&["https://a.example/x"]));
}

#[test]
fn filtering_core_drops_bad_entries() {
    let out = schedule_with_domains(vec![
        entry("", Some("a.example")),
        entry("/relative", Some("a.example")),
        entry("not a url", Some("not a url")),
        entry("https://nohost", None),
        entry("https://a.example/x", Some("a.example")),
    ]);
    assert_eq!(out, svec(&["https://a.example/x"]));
}

#[test]
fn stability() {
    let input = svec(&[
        "https://a.com/1",
        "https://b.org/x",
        "https://a.com/2",
        "https://c.net/y",
    ]);
    let first = schedule(input.clone());
    let second = schedule(input);
    assert_eq!(first, second);
}

#[test]
fn domain_separation_two_domains() {
    // a.com owns two URLs, b.org one: the a.com URLs must come out
    // first and last, never adjacent.
    let out = schedule(svec(&["https://a.com/1", "https://a.com/2", "https://b.org/x"]));
    assert_eq!(
        out,
        svec(&["https://a.com/1", "https://b.org/x", "https://a.com/2"])
    );
}

#[test]
fn solo_fairness_distinct_domains_keep_order() {
    let input = svec(&[
        "https://d.com/4",
        "https://a.com/1",
        "https://c.com/3",
        "https://b.com/2",
    ]);
    let out = schedule(input.clone());
    assert_eq!(out, input);
}

#[test]
fn multi_bucket_spreads_across_batch() {
    // One domain with three URLs plus one solo: the solo's score
    // (1/10000 + 1/100) falls between the multi scores 0 and 1/2.
    let out = schedule_with_domains(vec![
        entry("https://m.com/1", Some("m")),
        entry("https://m.com/2", Some("m")),
        entry("https://m.com/3", Some("m")),
        entry("https://s.com/x", Some("s")),
    ]);
    assert_eq!(
        out,
        svec(&[
            "https://m.com/1",
            "https://s.com/x",
            "https://m.com/2",
            "https://m.com/3",
        ])
    );
}

#[test]
fn end_to_end_batch_order() {
    // The a.example entries must not be adjacent in the schedule.
    let out = schedule(svec(&[
        "https://a.example/1",
        "https://b.example/1",
        "https://a.example/2",
    ]));
    assert_eq!(out.len(), 3);
    let first = out.iter().position(|u| u == "https://a.example/1").unwrap();
    let second = out.iter().position(|u| u == "https://a.example/2").unwrap();
    assert!(first < second);
    assert_ne!(second - first, 1);
}

#[test]
fn doubled_domain_brackets_the_solos() {
    // One domain doubled among three solos: its two URLs come out first
    // and last, the solos between them in bucket-enumeration order.
    let out = schedule_with_domains(vec![
        entry("https://s1.com/a", Some("s1")),
        entry("https://m.com/1", Some("m")),
        entry("https://s2.com/b", Some("s2")),
        entry("https://m.com/2", Some("m")),
        entry("https://s3.com/c", Some("s3")),
    ]);
    assert_eq!(
        out,
        svec(&[
            "https://m.com/1",
            "https://s1.com/a",
            "https://s2.com/b",
            "https://s3.com/c",
            "https://m.com/2",
        ])
    );
}

#[test]
fn empty_batch_schedules_empty() {
    let out = schedule(Vec::new());
    assert!(out.is_empty());
}

#[test]
fn same_domain_urls_keep_insertion_order_inside_bucket() {
    let out = schedule_with_domains(vec![
        entry("https://m.com/1", Some("m")),
        entry("https://m.com/2", Some("m")),
    ]);
    assert_eq!(out, svec(&["https://m.com/1", "https://m.com/2"]));
}
