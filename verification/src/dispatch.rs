//! The crawl dispatcher's decision logic: the exact argument list handed
//! to the external crawl container, the chunk hand-off artifact's name
//! and contents, and the fatal-versus-success classification of the
//! two-phase launch/wait protocol.
//!
//! The process launch itself is I/O and lives outside the library; it
//! hands back plain exit codes and captured streams, which are assessed
//! here.

use vstd::prelude::*;

use crate::interleave::str_views;

verus! {

/// Per-request timeout, in seconds, passed to the external crawler.
pub const TIMEOUT_SECONDS: u64 = 10;

/// Configuration the dispatcher derives its flags from.
pub struct CrawlConfig {
    pub workers: u16,
    pub descend_urls: bool,
    pub uid: Option<u32>,
}

/// What one external process invocation came back with, as plain values.
pub struct ProcResult {
    pub exit_code: Option<i32>,
    pub stdout: String,
    pub stderr: String,
}

/// Why a crawl invocation is fatal: no exit status at all, a nonzero
/// exit code, or output on the error stream despite a zero exit.
#[derive(PartialEq, Eq, Structural, Clone, Copy, Debug)]
pub enum CrawlFailure {
    MissingStatus,
    NonzeroExit { code: i32 },
    ErrorStream,
}

pub open spec fn digit_char(d: int) -> char {
    if d == 0 {
        '0'
    } else if d == 1 {
        '1'
    } else if d == 2 {
        '2'
    } else if d == 3 {
        '3'
    } else if d == 4 {
        '4'
    } else if d == 5 {
        '5'
    } else if d == 6 {
        '6'
    } else if d == 7 {
        '7'
    } else if d == 8 {
        '8'
    } else {
        '9'
    }
}

/// The decimal rendering of a nonnegative integer, most significant
/// digit first.
pub open spec fn spec_u64_digits(n: int) -> Seq<char>
    decreases n,
{
    if n < 10 {
        seq![digit_char(n)]
    } else {
        spec_u64_digits(n / 10).push(digit_char(n % 10))
    }
}

fn push_digit(s: &mut String, d: u64)
    requires
        d < 10,
    ensures
        final(s)@ == old(s)@.push(digit_char(d as int)),
{
    proof {
        reveal_strlit("0");
        reveal_strlit("1");
        reveal_strlit("2");
        reveal_strlit("3");
        reveal_strlit("4");
        reveal_strlit("5");
        reveal_strlit("6");
        reveal_strlit("7");
        reveal_strlit("8");
        reveal_strlit("9");
    }
    if d == 0 {
        s.append("0");
    } else if d == 1 {
        s.append("1");
    } else if d == 2 {
        s.append("2");
    } else if d == 3 {
        s.append("3");
    } else if d == 4 {
        s.append("4");
    } else if d == 5 {
        s.append("5");
    } else if d == 6 {
        s.append("6");
    } else if d == 7 {
        s.append("7");
    } else if d == 8 {
        s.append("8");
    } else {
        s.append("9");
    }
    proof {
        assert(s@ =~= old(s)@.push(digit_char(d as int)));
    }
}

/// Renders a `u64` in decimal.
pub fn u64_to_string(n: u64) -> (s: String)
    ensures
        s@ == spec_u64_digits(n as int),
    decreases n,
{
    if n < 10 {
        let mut s = String::new();
        push_digit(&mut s, n);
        proof {
            assert(s@ =~= seq![digit_char(n as int)]);
        }
        s
    } else {
        let mut s = u64_to_string(n / 10);
        push_digit(&mut s, n % 10);
        s
    }
}

/// The newline-joined contents of a chunk's URL-list hand-off file.
pub open spec fn spec_joined_lines(us: Seq<Seq<char>>) -> Seq<char>
    decreases us.len(),
{
    if us.len() == 0 {
        Seq::empty()
    } else if us.len() == 1 {
        us[0]
    } else {
        spec_joined_lines(us.drop_last()) + seq!['\n'] + us.last()
    }
}

/// Materializes the batch as the chunk file's contents: the URLs joined
/// by single newlines, with no trailing newline.
pub fn chunk_file_contents(urls: &Vec<String>) -> (s: String)
    ensures
        s@ == spec_joined_lines(str_views(urls@)),
{
    let ghost uv = str_views(urls@);
    proof {
        reveal_strlit("\n");
    }
    let mut s = String::new();
    let mut i: usize = 0;
    while i < urls.len()
        invariant
            uv == str_views(urls@),
            uv.len() == urls@.len(),
            0 <= i <= urls@.len(),
            s@ == spec_joined_lines(uv.take(i as int)),
            "\n"@ == seq!['\n'],
        decreases urls@.len() - i,
    {
        if i > 0 {
            s.append("\n");
        }
        s.append(urls[i].as_str());
        proof {
            assert(uv.take(i as int + 1).drop_last() =~= uv.take(i as int));
            assert(uv.take(i as int + 1).last() == uv[i as int]);
            assert(uv[i as int] == urls@[i as int]@);
            if i == 0 {
                assert(s@ =~= spec_joined_lines(uv.take(1)));
            } else {
                assert(s@ =~= spec_joined_lines(uv.take(i as int)) + seq!['\n'] + uv[i as int]);
            }
        }
        i += 1;
    }
    proof {
        assert(uv.take(urls@.len() as int) =~= uv);
    }
    s
}

/// The exact argument list handed to the container runtime for one
/// chunk's crawl: the fixed mount points and extension flags, the
/// single-page toggle, and the configuration-derived worker count,
/// URL-file path, per-request timeout and collection name.
pub open spec fn spec_crawl_args(
    descend_urls: bool,
    workers: int,
    url_file: Seq<char>,
    collection: Seq<char>,
) -> Seq<Seq<char>> {
    seq![
        "run"@,
        "-e"@,
        "CHROME_FLAGS=\"--disable-extensions-except=/ext/uBlock0.chromium/,/ext/bypass-paywalls-chrome-clean-v3.6.1.0/\""@,
        "-v"@,
        "./crawls:/crawls/"@,
        "-v"@,
        "./chrome_plugins/:/ext/"@,
        "-v"@,
        "./chrome_profile/:/chrome_profile/"@,
        "-v"@,
        "./url_chunks/:/url_chunks/"@,
        "-d"@,
        "webrecorder/browsertrix-crawler"@,
        "crawl"@,
        "--profile"@,
        "\"/chrome_profile/profile.tar.gz\""@,
    ] + (if descend_urls {
        Seq::<Seq<char>>::empty()
    } else {
        seq!["--depth"@, "0"@]
    }) + seq![
        "--workers"@,
        spec_u64_digits(workers),
        "--urlFile"@,
        url_file,
        "--text"@,
        "to-pages"@,
        "--behaviors"@,
        "autoscroll"@,
        "--timeout"@,
        spec_u64_digits(TIMEOUT_SECONDS as int),
        "--collection"@,
        collection,
    ]
}

/// Builds the crawl container's argument list for one chunk.
pub fn crawl_args(config: &CrawlConfig, url_file: &String, collection: &String) -> (r: Vec<
    String,
>)
    ensures
        str_views(r@) == spec_crawl_args(
            config.descend_urls,
            config.workers as int,
            url_file@,
            collection@,
        ),
{
    let mut a: Vec<String> = Vec::new();
    a.push(String::from_str("run"));
    a.push(String::from_str("-e"));
    a.push(
        String::from_str(
            "CHROME_FLAGS=\"--disable-extensions-except=/ext/uBlock0.chromium/,/ext/bypass-paywalls-chrome-clean-v3.6.1.0/\"",
        ),
    );
    a.push(String::from_str("-v"));
    a.push(String::from_str("./crawls:/crawls/"));
    a.push(String::from_str("-v"));
    a.push(String::from_str("./chrome_plugins/:/ext/"));
    a.push(String::from_str("-v"));
    a.push(String::from_str("./chrome_profile/:/chrome_profile/"));
    a.push(String::from_str("-v"));
    a.push(String::from_str("./url_chunks/:/url_chunks/"));
    a.push(String::from_str("-d"));
    a.push(String::from_str("webrecorder/browsertrix-crawler"));
    a.push(String::from_str("crawl"));
    a.push(String::from_str("--profile"));
    a.push(String::from_str("\"/chrome_profile/profile.tar.gz\""));
    if !config.descend_urls {
        a.push(String::from_str("--depth"));
        a.push(String::from_str("0"));
    }
    a.push(String::from_str("--workers"));
    a.push(u64_to_string(config.workers as u64));
    a.push(String::from_str("--urlFile"));
    a.push(url_file.clone());
    a.push(String::from_str("--text"));
    a.push(String::from_str("to-pages"));
    a.push(String::from_str("--behaviors"));
    a.push(String::from_str("autoscroll"));
    a.push(String::from_str("--timeout"));
    a.push(u64_to_string(TIMEOUT_SECONDS));
    a.push(String::from_str("--collection"));
    a.push(collection.clone());
    proof {
        assert(str_views(a@) =~= spec_crawl_args(
            config.descend_urls,
            config.workers as int,
            url_file@,
            collection@,
        ));
    }
    a
}

/// An ASCII whitespace character, as trimmed from the launch output.
pub open spec fn is_space_char(c: char) -> bool {
    c == ' ' || c == '\t' || c == '\n' || c == '\r'
}

/// Leading whitespace removed.
pub open spec fn spec_trim_start(s: Seq<char>) -> Seq<char>
    decreases s.len(),
{
    if s.len() == 0 {
        s
    } else if is_space_char(s.first()) {
        spec_trim_start(s.drop_first())
    } else {
        s
    }
}

/// Trailing whitespace removed.
pub open spec fn spec_trim_end(s: Seq<char>) -> Seq<char>
    decreases s.len(),
{
    if s.len() == 0 {
        s
    } else if is_space_char(s.last()) {
        spec_trim_end(s.drop_last())
    } else {
        s
    }
}

/// Surrounding ASCII whitespace removed: the shape of the container
/// identifier captured from the launch call's output stream.
pub open spec fn spec_trim(s: Seq<char>) -> Seq<char> {
    spec_trim_end(spec_trim_start(s))
}

proof fn lemma_trim_start_skip(s: Seq<char>, a: int)
    requires
        0 <= a <= s.len(),
        forall|j: int| 0 <= j < a ==> is_space_char(s[j]),
        a < s.len() ==> !is_space_char(s[a]),
    ensures
        spec_trim_start(s) == s.skip(a),
    decreases a,
{
    if a == 0 {
        if s.len() > 0 {
            assert(!is_space_char(s.first()));
        }
        assert(s.skip(0) =~= s);
    } else {
        assert(is_space_char(s.first()));
        lemma_trim_start_skip(s.drop_first(), a - 1);
        assert(s.drop_first().skip(a - 1) =~= s.skip(a));
        assert forall|j: int| 0 <= j < a - 1 implies is_space_char(s.drop_first()[j]) by {
            assert(s.drop_first()[j] == s[j + 1]);
        }
    }
}

proof fn lemma_trim_end_take(s: Seq<char>, b: int)
    requires
        0 <= b <= s.len(),
        forall|j: int| b <= j < s.len() ==> is_space_char(s[j]),
        b > 0 ==> !is_space_char(s[b - 1]),
    ensures
        spec_trim_end(s) == s.take(b),
    decreases s.len() - b,
{
    if b == s.len() {
        if s.len() > 0 {
            assert(!is_space_char(s.last()));
        }
        assert(s.take(s.len() as int) =~= s);
    } else {
        assert(is_space_char(s.last()));
        lemma_trim_end_take(s.drop_last(), b);
        assert(s.drop_last().take(b) =~= s.take(b));
    }
}

/// Trims surrounding ASCII whitespace, as applied to the captured
/// container identifier.
pub fn trim_ascii(s: &str) -> (r: String)
    ensures
        r@ == spec_trim(s@),
{
    let n = s.unicode_len();
    let mut a: usize = 0;
    while a < n && char_is_space(s.get_char(a))
        invariant
            n == s@.len(),
            0 <= a <= n,
            forall|j: int| 0 <= j < a ==> is_space_char(s@[j]),
        decreases n - a,
    {
        a += 1;
    }
    proof {
        lemma_trim_start_skip(s@, a as int);
    }
    let mut b: usize = n;
    while b > a && char_is_space(s.get_char(b - 1))
        invariant
            n == s@.len(),
            0 <= a <= b <= n,
            forall|j: int| b <= j < n ==> is_space_char(s@[j]),
        decreases b,
    {
        b -= 1;
    }
    let sub = s.substring_char(a, b);
    proof {
        let t = s@.skip(a as int);
        assert forall|j: int| (b - a) <= j < t.len() implies is_space_char(t[j]) by {
            assert(t[j] == s@[j + a]);
        }
        if b > a {
            assert(t[b - a - 1] == s@[b as int - 1]);
            assert(!is_space_char(t[b - a - 1]));
        }
        lemma_trim_end_take(t, b - a as int);
        assert(t.take(b - a as int) =~= s@.subrange(a as int, b as int));
    }
    String::from_str(sub)
}

/// Whether a character is ASCII whitespace.
fn char_is_space(c: char) -> (r: bool)
    ensures
        r == is_space_char(c),
{
    c == ' ' || c == '\t' || c == '\n' || c == '\r'
}

/// The fatal classification of a failed invocation: which of the three
/// conditions struck.
pub open spec fn spec_crawl_failure(code: Option<i32>, err: Seq<char>) -> CrawlFailure {
    match code {
        None => CrawlFailure::MissingStatus,
        Some(c) => if c != 0 {
            CrawlFailure::NonzeroExit { code: c }
        } else {
            CrawlFailure::ErrorStream
        },
    }
}

/// Success of an invocation: an exit status is present, it is exactly
/// zero, and the error stream is empty.
pub open spec fn spec_invocation_ok(p: ProcResult) -> bool {
    p.exit_code == Some(0i32) && p.stderr@.len() == 0
}

/// Assesses the detached launch call: on success the trimmed output
/// stream is the container identifier to wait on; anything else is
/// fatal.
pub fn assess_launch(p: &ProcResult) -> (r: Result<String, CrawlFailure>)
    ensures
        r is Ok <==> spec_invocation_ok(*p),
        r matches Ok(id) ==> id@ == spec_trim(p.stdout@),
        r matches Err(f) ==> f == spec_crawl_failure(p.exit_code, p.stderr@),
{
    match p.exit_code {
        None => Err(CrawlFailure::MissingStatus),
        Some(code) => {
            if code != 0 {
                Err(CrawlFailure::NonzeroExit { code })
            } else if !p.stderr.as_str().is_empty() {
                Err(CrawlFailure::ErrorStream)
            } else {
                Ok(trim_ascii(p.stdout.as_str()))
            }
        },
    }
}

/// Assesses the blocking wait call: success needs a present, zero exit
/// status and an empty error stream; anything else is fatal.
pub fn assess_wait(p: &ProcResult) -> (r: Result<(), CrawlFailure>)
    ensures
        r is Ok <==> spec_invocation_ok(*p),
        r matches Err(f) ==> f == spec_crawl_failure(p.exit_code, p.stderr@),
{
    match p.exit_code {
        None => Err(CrawlFailure::MissingStatus),
        Some(code) => {
            if code != 0 {
                Err(CrawlFailure::NonzeroExit { code })
            } else if !p.stderr.as_str().is_empty() {
                Err(CrawlFailure::ErrorStream)
            } else {
                Ok(())
            }
        },
    }
}

} // verus!
