use crawlsched::harvest::{decode_record, harvest_chunk, HarvestFailure};

fn svec(items: &[&str]) -> Vec<String> {
    items.iter().map(|s| s.to_string()).collect()
}

#[test]
fn decode_with_text() {
    let rec = decode_record("{\"url\":\"https://a.com/1\",\"text\":\"hello world\",\"status\":200}")
        .unwrap();
    assert_eq!(rec.url, "https://a.com/1");
    assert_eq!(rec.text.as_deref(), Some("hello world"));
    assert_eq!(rec.status, 200);
}

#[test]
fn decode_without_text() {
    let rec = decode_record("{\"url\":\"https://a.com/2\",\"status\":404}").unwrap();
    assert_eq!(rec.url, "https://a.com/2");
    assert!(rec.text.is_none());
    assert_eq!(rec.status, 404);
}

#[test]
fn decode_rejects_malformed_lines() {
    assert!(decode_record("").is_none());
    assert!(decode_record("garbage").is_none());
    assert!(decode_record("{\"url\":\"u\",\"status\":}").is_none());
    assert!(decode_record("{\"url\":\"u\",\"status\":12").is_none());
    assert!(decode_record("{\"url\":\"u\",\"text\":\"t\"}").is_none());
    assert!(decode_record("{\"url\":\"u\\\"esc\",\"status\":1}").is_none());
    assert!(decode_record("{\"url\":\"u\",\"status\":9x}").is_none());
}

#[test]
fn partial_failure_containment() {
    // one malformed line among nine well-formed ones: nine documents,
    // exactly one failure entry, no abort
    let mut lines = vec!["header summary line".to_string()];
    for i in 0..10 {
        if i == 4 {
            lines.push("{\"url\":\"broken".to_string());
        } else {
            lines.push(format!(
                "{{\"url\":\"https://a.com/{}\",\"text\":\"doc {}\",\"status\":200}}",
                i, i
            ));
        }
    }
    let outcome = harvest_chunk(7, Some(&lines));
    assert_eq!(outcome.docs.len(), 9);
    assert_eq!(outcome.failures.len(), 1);
    assert_eq!(
        outcome.failures[0],
        HarvestFailure::DecodeFailure { chunk: 7, position: 4 }
    );
    let positions: Vec<u64> = outcome.docs.iter().map(|d| d.position).collect();
    assert_eq!(positions, vec![0, 1, 2, 3, 5, 6, 7, 8, 9]);
    assert_eq!(outcome.docs[0].text, "doc 0");
    assert_eq!(outcome.docs[4].text, "doc 5");
}

#[test]
fn missing_result_file_is_one_logged_failure() {
    let outcome = harvest_chunk(3, None);
    assert!(outcome.docs.is_empty());
    assert_eq!(outcome.failures, vec![HarvestFailure::NoResults { chunk: 3 }]);
}

#[test]
fn records_without_text_are_not_persisted() {
    let lines = svec(&[
        "header",
        "{\"url\":\"https://a.com/1\",\"status\":200}",
        "{\"url\":\"https://a.com/2\",\"text\":\"kept\",\"status\":200}",
    ]);
    let outcome = harvest_chunk(1, Some(&lines));
    assert_eq!(outcome.docs.len(), 1);
    assert_eq!(outcome.docs[0].position, 1);
    assert_eq!(outcome.docs[0].text, "kept");
    assert!(outcome.failures.is_empty());
}

#[test]
fn blank_lines_are_skipped_and_header_ignored() {
    let lines = svec(&[
        "{\"url\":\"https://h.com/\",\"text\":\"header is skipped\",\"status\":200}",
        "",
        "{\"url\":\"https://a.com/1\",\"text\":\"first\",\"status\":200}",
        "",
        "{\"url\":\"https://a.com/2\",\"text\":\"second\",\"status\":200}",
    ]);
    let outcome = harvest_chunk(2, Some(&lines));
    assert_eq!(outcome.docs.len(), 2);
    assert_eq!(outcome.docs[0].position, 0);
    assert_eq!(outcome.docs[0].text, "first");
    assert_eq!(outcome.docs[1].position, 1);
    assert_eq!(outcome.docs[1].text, "second");
    assert!(outcome.failures.is_empty());
}

#[test]
fn empty_file_harvests_nothing() {
    let outcome = harvest_chunk(1, Some(&Vec::new()));
    assert!(outcome.docs.is_empty());
    assert!(outcome.failures.is_empty());
}
