use crawlsched::counter::count_text_markers;
use crawlsched::dispatch::{
    assess_launch, assess_wait, chunk_file_contents, crawl_args, trim_ascii, u64_to_string,
    CrawlConfig, CrawlFailure, ProcResult,
};

fn svec(items: &[&str]) -> Vec<String> {
    items.iter().map(|s| s.to_string()).collect()
}

fn proc(exit_code: Option<i32>, stdout: &str, stderr: &str) -> ProcResult {
    ProcResult { exit_code, stdout: stdout.to_string(), stderr: stderr.to_string() }
}

#[test]
fn launch_success_captures_trimmed_container_id() {
    let r = assess_launch(&proc(Some(0), "  abc123def\n", ""));
    assert_eq!(r.unwrap(), "abc123def");
}

#[test]
fn launch_failures_are_fatal() {
    assert_eq!(
        assess_launch(&proc(None, "", "")).unwrap_err(),
        CrawlFailure::MissingStatus
    );
    assert_eq!(
        assess_launch(&proc(Some(125), "", "boom")).unwrap_err(),
        CrawlFailure::NonzeroExit { code: 125 }
    );
    assert_eq!(
        assess_launch(&proc(Some(0), "id", "warning: broken")).unwrap_err(),
        CrawlFailure::ErrorStream
    );
}

#[test]
fn wait_requires_clean_zero_exit() {
    assert!(assess_wait(&proc(Some(0), "0", "")).is_ok());
    assert_eq!(
        assess_wait(&proc(None, "", "")).unwrap_err(),
        CrawlFailure::MissingStatus
    );
    assert_eq!(
        assess_wait(&proc(Some(1), "", "")).unwrap_err(),
        CrawlFailure::NonzeroExit { code: 1 }
    );
    assert_eq!(
        assess_wait(&proc(Some(0), "", "err")).unwrap_err(),
        CrawlFailure::ErrorStream
    );
}

#[test]
fn render_decimal() {
    assert_eq!(u64_to_string(0), "0");
    assert_eq!(u64_to_string(10), "10");
    assert_eq!(u64_to_string(1234567890), "1234567890");
    assert_eq!(u64_to_string(u64::MAX), "18446744073709551615");
}

#[test]
fn trim_surrounding_whitespace() {
    assert_eq!(trim_ascii(" \t\nid-42 \r\n"), "id-42");
    assert_eq!(trim_ascii(""), "");
    assert_eq!(trim_ascii("   "), "");
    assert_eq!(trim_ascii("no-trim"), "no-trim");
}

#[test]
fn chunk_file_joins_urls_with_newlines() {
    assert_eq!(
        chunk_file_contents(&svec(&["https://a.com/1", "https://b.org/x"])),
        "https://a.com/1\nhttps://b.org/x"
    );
    assert_eq!(chunk_file_contents(&svec(&["only"])), "only");
    assert_eq!(chunk_file_contents(&Vec::new()), "");
}

#[test]
fn crawl_args_single_page_mode() {
    let config = CrawlConfig { workers: 2, descend_urls: false, uid: None };
    let args = crawl_args(
        &config,
        &"/url_chunks/5.txt".to_string(),
        &"5".to_string(),
    );
    let expected = svec(&[
        "run",
        "-e",
        "CHROME_FLAGS=\"--disable-extensions-except=/ext/uBlock0.chromium/,/ext/bypass-paywalls-chrome-clean-v3.6.1.0/\"",
        "-v",
        "./crawls:/crawls/",
        "-v",
        "./chrome_plugins/:/ext/",
        "-v",
        "./chrome_profile/:/chrome_profile/",
        "-v",
        "./url_chunks/:/url_chunks/",
        "-d",
        "webrecorder/browsertrix-crawler",
        "crawl",
        "--profile",
        "\"/chrome_profile/profile.tar.gz\"",
        "--depth",
        "0",
        "--workers",
        "2",
        "--urlFile",
        "/url_chunks/5.txt",
        "--text",
        "to-pages",
        "--behaviors",
        "autoscroll",
        "--timeout",
        "10",
        "--collection",
        "5",
    ]);
    assert_eq!(args, expected);
}

#[test]
fn crawl_args_descend_mode_drops_depth_flag() {
    let config = CrawlConfig { workers: 1, descend_urls: true, uid: Some(1000) };
    let args = crawl_args(
        &config,
        &"/url_chunks/1.txt".to_string(),
        &"1".to_string(),
    );
    assert!(!args.iter().any(|a| a == "--depth"));
    assert!(args.iter().any(|a| a == "--workers"));
}

#[test]
fn counts_text_markers() {
    assert_eq!(count_text_markers(""), 0);
    assert_eq!(count_text_markers("\"text\":"), 1);
    assert_eq!(
        count_text_markers("{\"url\":\"u\",\"text\":\"a\"}\n{\"url\":\"v\",\"text\":\"b\"}"),
        2
    );
    assert_eq!(count_text_markers("text: \"text\" :"), 0);
    assert_eq!(count_text_markers("\"text\":\"text\":\"text\":"), 3);
}
