use crawlsched::orchestrate::{advance, init_state, resume_skip_lines, StepAction};
use crawlsched::planner::{next_resume_index, parse_u64_digits, take_chunk, LINES_PER_CHUNK};

fn svec(items: &[&str]) -> Vec<String> {
    items.iter().map(|s| s.to_string()).collect()
}

#[test]
fn resume_idempotence() {
    // Chunk artifacts 1, 2, 3 on disk: skip count 2, so the counter
    // resumes at the highest materialized index and earlier chunks are
    // never reprocessed.
    let names = svec(&["1.txt", "2.txt", "3.txt"]);
    let skip = next_resume_index(None, &names);
    assert_eq!(skip, 2);
    let mut st = init_state(skip);
    let action = advance(&mut st, LINES_PER_CHUNK, 2);
    assert_eq!(action, StepAction::Crawl { chunk_index: 3 });
    assert_eq!(resume_skip_lines(skip), 2 * LINES_PER_CHUNK as u64);
}

#[test]
fn resume_explicit_chunk_wins() {
    let names = svec(&["9.txt"]);
    assert_eq!(next_resume_index(Some(5), &names), 4);
    assert_eq!(next_resume_index(Some(1), &names), 0);
    assert_eq!(next_resume_index(Some(0), &names), 0);
}

#[test]
fn resume_ignores_unparseable_names() {
    let names = svec(&["archive.tar.gz", "notes", "7.txt", ".hidden", "12.txt"]);
    assert_eq!(next_resume_index(None, &names), 11);
}

#[test]
fn resume_fresh_without_artifacts() {
    assert_eq!(next_resume_index(None, &Vec::new()), 0);
    let names = svec(&["readme.md"]);
    assert_eq!(next_resume_index(None, &names), 0);
}

#[test]
fn parse_digits() {
    assert_eq!(parse_u64_digits("0"), Some(0));
    assert_eq!(parse_u64_digits("007"), Some(7));
    assert_eq!(parse_u64_digits("1234567890"), Some(1234567890));
    assert_eq!(parse_u64_digits("18446744073709551615"), Some(u64::MAX));
    assert_eq!(parse_u64_digits("18446744073709551616"), None);
    assert_eq!(parse_u64_digits(""), None);
    assert_eq!(parse_u64_digits("12a"), None);
    assert_eq!(parse_u64_digits("-3"), None);
}

#[test]
fn take_chunk_slices() {
    let lines = svec(&["a", "b", "c", "d", "e"]);
    assert_eq!(take_chunk(&lines, 0, 2), svec(&["a", "b"]));
    assert_eq!(take_chunk(&lines, 2, 2), svec(&["c", "d"]));
    // a partial batch at end of input
    assert_eq!(take_chunk(&lines, 4, 2), svec(&["e"]));
    // end of input signals completion with an empty batch
    assert_eq!(take_chunk(&lines, 5, 2), Vec::<String>::new());
    assert_eq!(take_chunk(&lines, 99, 2), Vec::<String>::new());
}

#[test]
fn loop_counts_chunks_and_urls() {
    let mut st = init_state(0);
    assert_eq!(advance(&mut st, 2, 1), StepAction::Crawl { chunk_index: 1 });
    assert_eq!(advance(&mut st, 2, 2), StepAction::Crawl { chunk_index: 2 });
    // the counter advances once per batch however many lines survived
    assert_eq!(advance(&mut st, 1, 0), StepAction::Crawl { chunk_index: 3 });
    assert_eq!(st.chunk_index, 3);
    assert_eq!(st.urls_attempted, 3);
    let before = st.chunk_index;
    assert_eq!(advance(&mut st, 0, 0), StepAction::Finish);
    assert_eq!(st.chunk_index, before);
}
