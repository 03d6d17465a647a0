//! Compress build / test / install / CI output for AI agents.
//!
//! Progress noise is stripped, warnings are grouped and successful CI steps
//! collapse, so that the actual failure stands out.
use vstd::prelude::*;

use crate::pattern::{
    any_is_match, any_match, compile_all, pattern_views, regex_captures, regex_is_match,
    regex_replace_all, sources, Pattern,
};
use crate::text::{
    append, append_str, chars_to_string, contains, contains_str, count_note, count_note_exec,
    count_where, ends_with, filter_map, join, join_lines_trimmed, last_some, lines, lines_exec,
    starts_with, str_to_chars, trim, trim_chars, trim_end, trim_end_chars, views,
};

verus! {

/// The tools whose output `digest` knows how to compress.
#[derive(Debug, Clone, Copy, PartialEq, Eq, Structural)]
pub enum Format {
    Cargo,
    Pnpm,
    Tsc,
    Pytest,
    Ci,
    GoTest,
    Gradle,
    Ruff,
    Mypy,
    /// clang / gcc / make / cmake / swiftc, which share the file:line:col error format.
    Compiler,
    Unknown,
}

/// The format that a (lower-cased) format name or alias stands for.
pub open spec fn format_named(name: Seq<char>) -> Option<Format> {
    if name == "cargo"@ || name == "rust"@ {
        Some(Format::Cargo)
    } else if name == "pnpm"@ || name == "npm"@ || name == "yarn"@ || name == "node"@ || name
        == "bun"@ {
        Some(Format::Pnpm)
    } else if name == "tsc"@ || name == "typescript"@ {
        Some(Format::Tsc)
    } else if name == "pytest"@ || name == "python"@ {
        Some(Format::Pytest)
    } else if name == "ci"@ || name == "gha"@ || name == "github-actions"@ || name == "actions"@ {
        Some(Format::Ci)
    } else if name == "go"@ || name == "gotest"@ || name == "go-test"@ {
        Some(Format::GoTest)
    } else if name == "gradle"@ {
        Some(Format::Gradle)
    } else if name == "ruff"@ {
        Some(Format::Ruff)
    } else if name == "mypy"@ {
        Some(Format::Mypy)
    } else if name == "compiler"@ || name == "clang"@ || name == "gcc"@ || name == "cmake"@ || name
        == "make"@ || name == "swift"@ || name == "swiftc"@ {
        Some(Format::Compiler)
    } else {
        None
    }
}

/// The canonical name of a format.
pub open spec fn format_name(f: Format) -> Seq<char> {
    match f {
        Format::Cargo => "cargo"@,
        Format::Pnpm => "pnpm"@,
        Format::Tsc => "tsc"@,
        Format::Pytest => "pytest"@,
        Format::Ci => "ci"@,
        Format::GoTest => "go"@,
        Format::Gradle => "gradle"@,
        Format::Ruff => "ruff"@,
        Format::Mypy => "mypy"@,
        Format::Compiler => "compiler"@,
        Format::Unknown => "unknown"@,
    }
}

impl Format {
    /// Parses a format name or alias, ignoring case.
    pub fn parse(s: &str) -> (r: Option<Format>)
        ensures
            r == format_named(crate::pattern::lowercase(s@)),
            r == format_named(crate::pattern::lowercase(crate::pattern::ascii_lower(s@))),
            vstd::utf8::is_ascii_chars(s@) ==> r == format_named(crate::pattern::ascii_lower(s@)),
    {
        let lower = crate::pattern::to_lowercase(s);
        let l = str_to_chars(lower.as_str());
        if crate::text::eq_str(&l, "cargo") || crate::text::eq_str(&l, "rust") {
            Some(Format::Cargo)
        } else if crate::text::eq_str(&l, "pnpm") || crate::text::eq_str(&l, "npm")
            || crate::text::eq_str(&l, "yarn") || crate::text::eq_str(&l, "node")
            || crate::text::eq_str(&l, "bun") {
            Some(Format::Pnpm)
        } else if crate::text::eq_str(&l, "tsc") || crate::text::eq_str(&l, "typescript") {
            Some(Format::Tsc)
        } else if crate::text::eq_str(&l, "pytest") || crate::text::eq_str(&l, "python") {
            Some(Format::Pytest)
        } else if crate::text::eq_str(&l, "ci") || crate::text::eq_str(&l, "gha")
            || crate::text::eq_str(&l, "github-actions") || crate::text::eq_str(&l, "actions") {
            Some(Format::Ci)
        } else if crate::text::eq_str(&l, "go") || crate::text::eq_str(&l, "gotest")
            || crate::text::eq_str(&l, "go-test") {
            Some(Format::GoTest)
        } else if crate::text::eq_str(&l, "gradle") {
            Some(Format::Gradle)
        } else if crate::text::eq_str(&l, "ruff") {
            Some(Format::Ruff)
        } else if crate::text::eq_str(&l, "mypy") {
            Some(Format::Mypy)
        } else if crate::text::eq_str(&l, "compiler") || crate::text::eq_str(&l, "clang")
            || crate::text::eq_str(&l, "gcc") || crate::text::eq_str(&l, "cmake")
            || crate::text::eq_str(&l, "make") || crate::text::eq_str(&l, "swift")
            || crate::text::eq_str(&l, "swiftc") {
            Some(Format::Compiler)
        } else {
            None
        }
    }

    /// The canonical name of this format.
    pub fn as_str(&self) -> (r: &'static str)
        ensures
            r@ == format_name(*self),
    {
        match self {
            Format::Cargo => "cargo",
            Format::Pnpm => "pnpm",
            Format::Tsc => "tsc",
            Format::Pytest => "pytest",
            Format::Ci => "ci",
            Format::GoTest => "go",
            Format::Gradle => "gradle",
            Format::Ruff => "ruff",
            Format::Mypy => "mypy",
            Format::Compiler => "compiler",
            Format::Unknown => "unknown",
        }
    }
}

// ---------- shared ----------

pub const ANSI_RE: &'static str = r"\x1b\[[0-9;]*[a-zA-Z]";

/// `text` without ANSI escape sequences.
pub open spec fn strip_ansi(text: Seq<char>) -> Seq<char> {
    regex_replace_all(ANSI_RE@, text, ""@)
}

fn strip_ansi_exec(text: &str) -> (out: String)
    ensures
        out@ == strip_ansi(text@),
{
    let p = Pattern::new(ANSI_RE);
    p.replace_all(text, "")
}

/// The lines of `text` once ANSI escapes are gone, each as characters.
fn plain_lines(text: &str) -> (out: Vec<Vec<char>>)
    ensures
        views(out@) == lines(strip_ansi(text@)),
{
    let plain = strip_ansi_exec(text);
    let chars = str_to_chars(plain.as_str());
    let out = lines_exec(&chars);
    assert(views(out@) =~= lines(strip_ansi(text@)));
    out
}

// ---------- detection ----------

pub const GHA_PREFIX: &'static str =
    r"^[^\t\n]+\t[^\t\n]+\t\u{feff}?\d{4}-\d{2}-\d{2}T\d{2}:\d{2}:\d{2}\.\d+Z\s?";
pub const CARGO_COMPILE: &'static str = r"(?m)^\s*Compiling \S+ v[\d.]+";
pub const CARGO_TEST_RUN: &'static str = r"(?m)^running \d+ tests?$";
pub const TSC_PAREN: &'static str = r"(?m)^.+\.[jt]sx?\(\d+,\d+\): error TS\d+";
pub const TSC_COLON: &'static str = r"(?m)^.+\.[jt]sx?:\d+:\d+ - error TS\d+";
pub const PNPM_RESOLVED: &'static str = r"(?m)^Progress: resolved \d+";
pub const GO_TEST_RUN: &'static str = r"(?m)^=== RUN\s+Test";
pub const GO_TEST_RESULT: &'static str = r"(?m)^---\s+(PASS|FAIL):";
pub const GRADLE_TASK: &'static str = r"(?m)^> Task :";
pub const GRADLE_BUILD_LINE: &'static str = r"(?m)^BUILD (SUCCESSFUL|FAILED)";
pub const RUFF_LINE: &'static str = r"(?m)^[^:\s]+\.py:\d+:\d+:\s+[A-Z]+\d+\b";
pub const MYPY_ERROR: &'static str = r"(?m)^\S+\.py(?::\d+)?:\s+(error|note):";
pub const COMPILER_DIAG: &'static str =
    r"(?m)^/?[^:\n]+\.(?:c|cpp|cc|cxx|h|hpp|m|mm|swift|rs|go|java|kt):\d+:\d+:\s+(?:error|warning|note|fatal error):";
pub const CMAKE_BUILDING: &'static str = r"(?m)^\[\s*\d+%\]\s+(Building|Linking|Generating)";
pub const SWIFT_BUILD_STEP: &'static str = r"(?m)^\[\d+/\d+\]\s+\S+";

/// Which tool produced `text`; checks run in a fixed order and the first
/// that fits decides.
pub open spec fn detect_spec(text: Seq<char>) -> Format {
    let plain = strip_ansi(text);
    if regex_is_match(GHA_PREFIX@, plain) || contains(plain, "##[group]"@) || contains(
        plain,
        "##[error]"@,
    ) || contains(plain, "##[section]"@) {
        Format::Ci
    } else if regex_is_match(CARGO_COMPILE@, plain) {
        Format::Cargo
    } else if regex_is_match(CARGO_TEST_RUN@, plain) && contains(plain, "test result:"@) {
        Format::Cargo
    } else if regex_is_match(GO_TEST_RUN@, plain) && regex_is_match(GO_TEST_RESULT@, plain) {
        Format::GoTest
    } else if regex_is_match(GRADLE_TASK@, plain) || regex_is_match(GRADLE_BUILD_LINE@, plain) {
        Format::Gradle
    } else if regex_is_match(TSC_PAREN@, plain) || regex_is_match(TSC_COLON@, plain) {
        Format::Tsc
    } else if (contains(plain, "test session starts"@) || contains(plain, "=== FAILURES ==="@)
        || contains(plain, ".py::test"@) || contains(plain, "pytest"@)) && (contains(
        plain,
        "FAILED"@,
    ) || contains(plain, "PASSED"@) || contains(plain, "passed in"@)) {
        Format::Pytest
    } else if regex_is_match(RUFF_LINE@, plain) {
        Format::Ruff
    } else if regex_is_match(MYPY_ERROR@, plain) {
        Format::Mypy
    } else if regex_is_match(COMPILER_DIAG@, plain) || regex_is_match(CMAKE_BUILDING@, plain)
        || regex_is_match(SWIFT_BUILD_STEP@, plain) {
        Format::Compiler
    } else if contains(plain, "pnpm v"@) || regex_is_match(PNPM_RESOLVED@, plain) || contains(
        plain,
        "npm warn"@,
    ) || contains(plain, "bun install"@) {
        Format::Pnpm
    } else {
        Format::Unknown
    }
}

fn re(source: &str, haystack: &str) -> (b: bool)
    ensures
        b == regex_is_match(source@, haystack@),
{
    Pattern::new(source).is_match(haystack)
}

/// Guesses which tool produced `text`.
pub fn detect(text: &str) -> (f: Format)
    ensures
        f == detect_spec(text@),
{
    let plain = strip_ansi_exec(text);
    let p = plain.as_str();
    let c = str_to_chars(p);
    if re(GHA_PREFIX, p) || contains_str(&c, "##[group]") || contains_str(&c, "##[error]")
        || contains_str(&c, "##[section]") {
        return Format::Ci;
    }
    if re(CARGO_COMPILE, p) {
        return Format::Cargo;
    }
    if re(CARGO_TEST_RUN, p) && contains_str(&c, "test result:") {
        return Format::Cargo;
    }
    if re(GO_TEST_RUN, p) && re(GO_TEST_RESULT, p) {
        return Format::GoTest;
    }
    if re(GRADLE_TASK, p) || re(GRADLE_BUILD_LINE, p) {
        return Format::Gradle;
    }
    if re(TSC_PAREN, p) || re(TSC_COLON, p) {
        return Format::Tsc;
    }
    let looks_like_pytest = contains_str(&c, "test session starts") || contains_str(
        &c,
        "=== FAILURES ===",
    ) || contains_str(&c, ".py::test") || contains_str(&c, "pytest");
    if looks_like_pytest && (contains_str(&c, "FAILED") || contains_str(&c, "PASSED")
        || contains_str(&c, "passed in")) {
        return Format::Pytest;
    }
    if re(RUFF_LINE, p) {
        return Format::Ruff;
    }
    if re(MYPY_ERROR, p) {
        return Format::Mypy;
    }
    if re(COMPILER_DIAG, p) || re(CMAKE_BUILDING, p) || re(SWIFT_BUILD_STEP, p) {
        return Format::Compiler;
    }
    if contains_str(&c, "pnpm v") || re(PNPM_RESOLVED, p) || contains_str(&c, "npm warn")
        || contains_str(&c, "bun install") {
        return Format::Pnpm;
    }
    Format::Unknown
}

// ---------- cargo build / test ----------

pub const CARGO_PROGRESS: [&'static str; 12] = [
    r"^\s*Compiling\s",
    r"^\s*Downloaded\s",
    r"^\s*Downloading",
    r"^\s*Updating\s",
    r"^\s*Fetching",
    r"^\s*Adding\s",
    r"^\s*Documenting",
    r"^\s*Generated\s",
    r"^\s*Checking\s",
    r"^\s*Locking\s",
    r"^\s*Blocking",
    r"^\s*Finished\s",
];
pub const CARGO_TEST_PASS: &'static str = r"^test \S+ \.\.\. ok$";
pub const CARGO_TEST_RUN_LINE: &'static str = r"^running \d+ tests?$";
pub const CARGO_DOCTEST: &'static str = r"^\s*Doc-tests\s";
pub const CARGO_RUNNING_BIN: &'static str = r"^\s+Running\s";

/// A cargo line (trailing whitespace removed) that is progress chatter.
pub open spec fn cargo_progress(line: Seq<char>) -> bool {
    any_match(sources(CARGO_PROGRESS@), line)
}

/// The `Finished` summary a raw cargo line carries, trimmed.
pub open spec fn cargo_finished(raw: Seq<char>) -> Option<Seq<char>> {
    let line = trim_end(raw);
    if line.len() > 0 && cargo_progress(line) && contains(line, "Finished"@) {
        Some(trim(line))
    } else {
        None
    }
}

/// A raw cargo line that reports a passing test.
pub open spec fn cargo_pass(raw: Seq<char>) -> bool {
    let line = trim_end(raw);
    line.len() > 0 && !cargo_progress(line) && regex_is_match(CARGO_TEST_PASS@, trim(line))
}

/// The text a raw cargo line keeps in the digest, if any.
pub open spec fn cargo_kept(raw: Seq<char>) -> Option<Seq<char>> {
    let line = trim_end(raw);
    if line.len() == 0 || cargo_progress(line) || regex_is_match(CARGO_TEST_PASS@, trim(line))
        || regex_is_match(CARGO_TEST_RUN_LINE@, trim(line)) || regex_is_match(
        CARGO_DOCTEST@,
        line,
    ) || regex_is_match(CARGO_RUNNING_BIN@, line) {
        None
    } else {
        Some(line)
    }
}

/// The cargo digest: the last `Finished` line, the number of passing tests,
/// then every other non-chatter line in order.
pub open spec fn digest_cargo_spec(text: Seq<char>) -> Seq<char> {
    let ls = lines(strip_ansi(text));
    let fin = last_some(ls, |r: Seq<char>| cargo_finished(r));
    let n = count_where(ls, |r: Seq<char>| cargo_pass(r));
    let head = (if fin is Some {
        seq![fin->0]
    } else {
        Seq::<Seq<char>>::empty()
    }) + (if n > 0 {
        seq![count_note(n, " passing tests stripped)"@)]
    } else {
        Seq::<Seq<char>>::empty()
    });
    trim(join(head + filter_map(ls, |r: Seq<char>| cargo_kept(r)), seq!['\n']))
}

struct CargoPatterns {
    progress: Vec<Pattern>,
    test_pass: Pattern,
    test_run: Pattern,
    doctest: Pattern,
    running_bin: Pattern,
}

impl CargoPatterns {
    spec fn wf(&self) -> bool {
        &&& pattern_views(self.progress@) == sources(CARGO_PROGRESS@)
        &&& self.test_pass@ == CARGO_TEST_PASS@
        &&& self.test_run@ == CARGO_TEST_RUN_LINE@
        &&& self.doctest@ == CARGO_DOCTEST@
        &&& self.running_bin@ == CARGO_RUNNING_BIN@
    }

    fn new() -> (p: Self)
        ensures
            p.wf(),
    {
        CargoPatterns {
            progress: compile_all(&CARGO_PROGRESS),
            test_pass: Pattern::new(CARGO_TEST_PASS),
            test_run: Pattern::new(CARGO_TEST_RUN_LINE),
            doctest: Pattern::new(CARGO_DOCTEST),
            running_bin: Pattern::new(CARGO_RUNNING_BIN),
        }
    }
}

/// What one raw cargo line contributes: (finished line, passing test, kept text).
fn cargo_line(p: &CargoPatterns, raw: &[char]) -> (r: (Option<Vec<char>>, bool, Option<Vec<char>>))
    requires
        p.wf(),
    ensures
        r.0 matches Some(f) ==> cargo_finished(raw@) == Some(f@),
        r.0 is None ==> cargo_finished(raw@) is None,
        r.1 == cargo_pass(raw@),
        r.2 matches Some(k) ==> cargo_kept(raw@) == Some(k@),
        r.2 is None ==> cargo_kept(raw@) is None,
{
    let line = trim_end_chars(raw);
    if line.len() == 0 {
        return (None, false, None);
    }
    let ls = chars_to_string(&line);
    if any_is_match(&p.progress, ls.as_str()) {
        if contains_str(&line, "Finished") {
            return (Some(trim_chars(&line)), false, None);
        }
        return (None, false, None);
    }
    let t = trim_chars(&line);
    let ts = chars_to_string(&t);
    if p.test_pass.is_match(ts.as_str()) {
        return (None, true, None);
    }
    if p.test_run.is_match(ts.as_str()) || p.doctest.is_match(ls.as_str())
        || p.running_bin.is_match(ls.as_str()) {
        return (None, false, None);
    }
    (None, false, Some(line))
}

/// Strips cargo build progress and passing tests, keeping the summary and
/// everything else.
pub fn digest_cargo(text: &str) -> (out: String)
    ensures
        out@ == digest_cargo_spec(text@),
{
    let ghost ls = lines(strip_ansi(text@));
    let ghost fk = |r: Seq<char>| cargo_finished(r);
    let ghost pk = |r: Seq<char>| cargo_pass(r);
    let ghost kk = |r: Seq<char>| cargo_kept(r);
    let all = plain_lines(text);
    let p = CargoPatterns::new();
    let mut kept: Vec<Vec<char>> = Vec::new();
    let mut n_pass: usize = 0;
    let mut finished: Option<Vec<char>> = None;
    let mut i: usize = 0;
    while i < all.len()
        invariant
            p.wf(),
            i <= all@.len(),
            views(all@) == ls,
            kk == (|r: Seq<char>| cargo_kept(r)),
            pk == (|r: Seq<char>| cargo_pass(r)),
            fk == (|r: Seq<char>| cargo_finished(r)),
            views(kept@) == filter_map(ls.take(i as int), kk),
            n_pass == count_where(ls.take(i as int), pk),
            n_pass <= i,
            finished matches Some(f) ==> last_some(ls.take(i as int), fk) == Some(f@),
            finished is None ==> last_some(ls.take(i as int), fk) is None,
        decreases all@.len() - i,
    {
        assert(ls.take(i + 1).drop_last() =~= ls.take(i as int));
        assert(ls.take(i + 1).last() == all@[i as int]@);
        let ghost cur = all@[i as int]@;
        let (f, pass, k) = cargo_line(&p, &all[i]);
        assert(pk(cur) == cargo_pass(cur));
        assert(count_where(ls.take(i + 1), pk) == count_where(ls.take(i as int), pk) + if pk(cur) {
            1nat
        } else {
            0nat
        });
        assert(kk(cur) == cargo_kept(cur));
        let ghost before = views(kept@);
        if f.is_some() {
            finished = f;
        }
        if pass {
            n_pass = n_pass + 1;
        }
        match k {
            Some(k) => {
                kept.push(k);
            },
            None => {},
        }
        i = i + 1;
        assert(views(kept@) =~= filter_map(ls.take(i as int), kk)) by {
            assert(filter_map(ls.take(i as int), kk) == match kk(cur) {
                Some(x) => before.push(x),
                None => before,
            });
        }
    }
    assert(ls.take(i as int) =~= ls);
    let mut head: Vec<Vec<char>> = Vec::new();
    match finished {
        Some(f) => {
            head.push(f);
        },
        None => {},
    }
    if n_pass > 0 {
        head.push(count_note_exec(n_pass, " passing tests stripped)"));
    }
    let ghost h = views(head@);
    head.append(&mut kept);
    assert(views(head@) =~= h + filter_map(ls, kk));
    proof {
        let fin = last_some(ls, |r: Seq<char>| cargo_finished(r));
        let n = count_where(ls, |r: Seq<char>| cargo_pass(r));
        let sh = (if fin is Some {
            seq![fin->0]
        } else {
            Seq::<Seq<char>>::empty()
        }) + (if n > 0 {
            seq![count_note(n, " passing tests stripped)"@)]
        } else {
            Seq::<Seq<char>>::empty()
        });
        assert(h =~= sh);
    }
    join_lines_trimmed(&head)
}

// ---------- pytest ----------

pub const PYTEST_PROGRESS: [&'static str; 6] = [
    r"^cachedir:",
    r"^plugins:",
    r"^collecting",
    r"^platform ",
    r"^rootdir:",
    r"^Installed \d+ packages",
];
pub const PYTEST_PASS: &'static str = r"^\S+\.py::\S+\s+PASSED";

/// A raw pytest line that reports a passing test.
pub open spec fn pytest_pass(raw: Seq<char>) -> bool {
    let line = trim_end(raw);
    !any_match(sources(PYTEST_PROGRESS@), line) && regex_is_match(PYTEST_PASS@, line)
}

/// The text a raw pytest line keeps in the digest, if any.
pub open spec fn pytest_kept(raw: Seq<char>) -> Option<Seq<char>> {
    let line = trim_end(raw);
    if any_match(sources(PYTEST_PROGRESS@), line) || regex_is_match(PYTEST_PASS@, line) {
        None
    } else {
        Some(line)
    }
}

/// The pytest digest: the number of passing tests, then every line that is
/// neither session chatter nor a passing test.
pub open spec fn digest_pytest_spec(text: Seq<char>) -> Seq<char> {
    let ls = lines(strip_ansi(text));
    let n = count_where(ls, |r: Seq<char>| pytest_pass(r));
    let head = if n > 0 {
        seq![count_note(n, " passing tests stripped)"@)]
    } else {
        Seq::<Seq<char>>::empty()
    };
    trim(join(head + filter_map(ls, |r: Seq<char>| pytest_kept(r)), seq!['\n']))
}

/// Strips pytest session chatter and passing tests.
pub fn digest_pytest(text: &str) -> (out: String)
    ensures
        out@ == digest_pytest_spec(text@),
{
    let ghost ls = lines(strip_ansi(text@));
    let all = plain_lines(text);
    let progress = compile_all(&PYTEST_PROGRESS);
    let pass = Pattern::new(PYTEST_PASS);
    let mut kept: Vec<Vec<char>> = Vec::new();
    let mut n_pass: usize = 0;
    let mut i: usize = 0;
    while i < all.len()
        invariant
            pattern_views(progress@) == sources(PYTEST_PROGRESS@),
            pass@ == PYTEST_PASS@,
            i <= all@.len(),
            views(all@) == ls,
            views(kept@) == filter_map(ls.take(i as int), |r: Seq<char>| pytest_kept(r)),
            n_pass == count_where(ls.take(i as int), |r: Seq<char>| pytest_pass(r)),
            n_pass <= i,
        decreases all@.len() - i,
    {
        assert(ls.take(i + 1).drop_last() =~= ls.take(i as int));
        assert(ls.take(i + 1).last() == all@[i as int]@);
        let ghost before = views(kept@);
        let line = trim_end_chars(&all[i]);
        let ls_ = chars_to_string(&line);
        if any_is_match(&progress, ls_.as_str()) {
        } else if pass.is_match(ls_.as_str()) {
            n_pass = n_pass + 1;
        } else {
            kept.push(line);
        }
        i = i + 1;
        assert(views(kept@) =~= filter_map(ls.take(i as int), |r: Seq<char>| pytest_kept(r)));
    }
    assert(ls.take(i as int) =~= ls);
    if n_pass > 0 {
        let ghost before = views(kept@);
        kept.insert(0, count_note_exec(n_pass, " passing tests stripped)"));
        assert(views(kept@) =~= seq![count_note(n_pass as nat, " passing tests stripped)"@)]
            + before);
    } else {
        assert(views(kept@) =~= Seq::<Seq<char>>::empty() + views(kept@));
    }
    join_lines_trimmed(&kept)
}

// ---------- mypy ----------

pub const MYPY_INSTALL_PROGRESS: [&'static str; 4] = [
    "Downloading",
    "Downloaded",
    "Installed",
    "Resolved",
];

/// `line` starts with one of the literal `words`.
pub open spec fn starts_with_any(line: Seq<char>, words: Seq<&str>) -> bool {
    exists|i: int| 0 <= i < words.len() && starts_with(line, #[trigger] words[i]@)
}

fn starts_with_any_exec(line: &[char], words: &[&str]) -> (b: bool)
    ensures
        b == starts_with_any(line@, words@),
{
    for i in 0..words.len()
        invariant
            forall|j: int| 0 <= j < i ==> !starts_with(line@, #[trigger] words@[j]@),
    {
        if crate::text::starts_with_str(line, words[i]) {
            return true;
        }
    }
    false
}

/// A raw mypy line that is package install progress.
pub open spec fn mypy_install(raw: Seq<char>) -> bool {
    let line = trim_end(raw);
    line.len() > 0 && starts_with_any(crate::text::trim_start(line), MYPY_INSTALL_PROGRESS@)
}

/// The text a raw mypy line keeps in the digest, if any.
pub open spec fn mypy_kept(raw: Seq<char>) -> Option<Seq<char>> {
    let line = trim_end(raw);
    if line.len() == 0 || starts_with_any(crate::text::trim_start(line), MYPY_INSTALL_PROGRESS@) {
        None
    } else {
        Some(line)
    }
}

/// The mypy digest: the number of install lines, then every other non-empty line.
pub open spec fn digest_mypy_spec(text: Seq<char>) -> Seq<char> {
    let ls = lines(strip_ansi(text));
    let n = count_where(ls, |r: Seq<char>| mypy_install(r));
    let head = if n > 0 {
        seq![count_note(n, " install/progress lines stripped)"@)]
    } else {
        Seq::<Seq<char>>::empty()
    };
    trim(join(head + filter_map(ls, |r: Seq<char>| mypy_kept(r)), seq!['\n']))
}

/// Strips the install progress that precedes mypy diagnostics.
pub fn digest_mypy(text: &str) -> (out: String)
    ensures
        out@ == digest_mypy_spec(text@),
{
    let ghost ls = lines(strip_ansi(text@));
    let all = plain_lines(text);
    let mut kept: Vec<Vec<char>> = Vec::new();
    let mut n_install: usize = 0;
    let mut i: usize = 0;
    while i < all.len()
        invariant
            i <= all@.len(),
            views(all@) == ls,
            views(kept@) == filter_map(ls.take(i as int), |r: Seq<char>| mypy_kept(r)),
            n_install == count_where(ls.take(i as int), |r: Seq<char>| mypy_install(r)),
            n_install <= i,
        decreases all@.len() - i,
    {
        assert(ls.take(i + 1).drop_last() =~= ls.take(i as int));
        assert(ls.take(i + 1).last() == all@[i as int]@);
        let line = trim_end_chars(&all[i]);
        if line.len() > 0 {
            let t = crate::text::trim_start_chars(&line);
            if starts_with_any_exec(&t, &MYPY_INSTALL_PROGRESS) {
                n_install = n_install + 1;
            } else {
                kept.push(line);
            }
        }
        i = i + 1;
        assert(views(kept@) =~= filter_map(ls.take(i as int), |r: Seq<char>| mypy_kept(r)));
    }
    assert(ls.take(i as int) =~= ls);
    if n_install > 0 {
        let ghost before = views(kept@);
        kept.insert(0, count_note_exec(n_install, " install/progress lines stripped)"));
        assert(views(kept@) =~= seq![
            count_note(n_install as nat, " install/progress lines stripped)"@),
        ] + before);
    } else {
        assert(views(kept@) =~= Seq::<Seq<char>>::empty() + views(kept@));
    }
    join_lines_trimmed(&kept)
}

// ---------- go test ----------

pub const GO_RUN_LINE: &'static str = r"^=== RUN\s+\S+";
pub const GO_PASS_LINE: &'static str = r"^---\s+PASS:\s+\S+\s+\(\S+\)";
pub const GO_SKIP_LINE: &'static str = r"^---\s+SKIP:\s+\S+\s+\(\S+\)";
pub const GO_FRAMEWORK_FRAME: &'static str = r"^\s*(?:testing\.|runtime\.|created by testing\.)";
pub const GO_FRAMEWORK_PATH: &'static str = r"^\s*/\S*/(?:src/(?:testing|runtime)/)\S+\.go:\d+";

/// How a go test line (trailing whitespace removed) is treated: 0 dropped,
/// 1 passing test, 2 skipped test, 3 framework frame, 4 kept.
pub open spec fn go_kind(line: Seq<char>) -> int {
    if line.len() == 0 || regex_is_match(GO_RUN_LINE@, line) {
        0
    } else if regex_is_match(GO_PASS_LINE@, line) {
        1
    } else if regex_is_match(GO_SKIP_LINE@, line) {
        2
    } else if regex_is_match(GO_FRAMEWORK_FRAME@, line) || regex_is_match(GO_FRAMEWORK_PATH@, line) {
        3
    } else {
        4
    }
}

/// The go test digest: counts of passing tests, skipped tests and
/// testing/runtime stack frames, then the remaining lines.
pub open spec fn digest_go_test_spec(text: Seq<char>) -> Seq<char> {
    let ls = lines(strip_ansi(text));
    let n_pass = count_where(ls, |r: Seq<char>| go_kind(trim_end(r)) == 1);
    let n_skip = count_where(ls, |r: Seq<char>| go_kind(trim_end(r)) == 2);
    let n_frame = count_where(ls, |r: Seq<char>| go_kind(trim_end(r)) == 3);
    let head = (if n_pass > 0 {
        seq![count_note(n_pass, " passing tests stripped)"@)]
    } else {
        Seq::<Seq<char>>::empty()
    }) + (if n_skip > 0 {
        seq![count_note(n_skip, " skipped tests stripped)"@)]
    } else {
        Seq::<Seq<char>>::empty()
    }) + (if n_frame > 0 {
        seq![count_note(n_frame, " testing/runtime framework frames stripped)"@)]
    } else {
        Seq::<Seq<char>>::empty()
    });
    let kept = filter_map(
        ls,
        |r: Seq<char>|
            if go_kind(trim_end(r)) == 4 {
                Some(trim_end(r))
            } else {
                None
            },
    );
    trim(join(head + kept, seq!['\n']))
}

/// Strips `=== RUN` lines, passing and skipped tests and framework stack frames.
pub fn digest_go_test(text: &str) -> (out: String)
    ensures
        out@ == digest_go_test_spec(text@),
{
    let ghost ls = lines(strip_ansi(text@));
    let all = plain_lines(text);
    let run = Pattern::new(GO_RUN_LINE);
    let pass = Pattern::new(GO_PASS_LINE);
    let skip = Pattern::new(GO_SKIP_LINE);
    let frame = Pattern::new(GO_FRAMEWORK_FRAME);
    let fpath = Pattern::new(GO_FRAMEWORK_PATH);
    let mut kept: Vec<Vec<char>> = Vec::new();
    let mut n_pass: usize = 0;
    let mut n_skip: usize = 0;
    let mut n_frame: usize = 0;
    let mut i: usize = 0;
    while i < all.len()
        invariant
            run@ == GO_RUN_LINE@,
            pass@ == GO_PASS_LINE@,
            skip@ == GO_SKIP_LINE@,
            frame@ == GO_FRAMEWORK_FRAME@,
            fpath@ == GO_FRAMEWORK_PATH@,
            i <= all@.len(),
            views(all@) == ls,
            views(kept@) == filter_map(
                ls.take(i as int),
                |r: Seq<char>|
                    if go_kind(trim_end(r)) == 4 {
                        Some(trim_end(r))
                    } else {
                        None
                    },
            ),
            n_pass == count_where(ls.take(i as int), |r: Seq<char>| go_kind(trim_end(r)) == 1),
            n_skip == count_where(ls.take(i as int), |r: Seq<char>| go_kind(trim_end(r)) == 2),
            n_frame == count_where(ls.take(i as int), |r: Seq<char>| go_kind(trim_end(r)) == 3),
            n_pass + n_skip + n_frame <= i,
        decreases all@.len() - i,
    {
        assert(ls.take(i + 1).drop_last() =~= ls.take(i as int));
        assert(ls.take(i + 1).last() == all@[i as int]@);
        let line = trim_end_chars(&all[i]);
        let s = chars_to_string(&line);
        let st = s.as_str();
        if line.len() == 0 || run.is_match(st) {
        } else if pass.is_match(st) {
            n_pass = n_pass + 1;
        } else if skip.is_match(st) {
            n_skip = n_skip + 1;
        } else if frame.is_match(st) || fpath.is_match(st) {
            n_frame = n_frame + 1;
        } else {
            kept.push(line);
        }
        i = i + 1;
        assert(views(kept@) =~= filter_map(
            ls.take(i as int),
            |r: Seq<char>|
                if go_kind(trim_end(r)) == 4 {
                    Some(trim_end(r))
                } else {
                    None
                },
        ));
    }
    assert(ls.take(i as int) =~= ls);
    let mut head: Vec<Vec<char>> = Vec::new();
    if n_pass > 0 {
        head.push(count_note_exec(n_pass, " passing tests stripped)"));
    }
    if n_skip > 0 {
        head.push(count_note_exec(n_skip, " skipped tests stripped)"));
    }
    if n_frame > 0 {
        head.push(count_note_exec(n_frame, " testing/runtime framework frames stripped)"));
    }
    let ghost h = views(head@);
    head.append(&mut kept);
    proof {
        let sh = (if n_pass > 0 {
            seq![count_note(n_pass as nat, " passing tests stripped)"@)]
        } else {
            Seq::<Seq<char>>::empty()
        }) + (if n_skip > 0 {
            seq![count_note(n_skip as nat, " skipped tests stripped)"@)]
        } else {
            Seq::<Seq<char>>::empty()
        }) + (if n_frame > 0 {
            seq![count_note(n_frame as nat, " testing/runtime framework frames stripped)"@)]
        } else {
            Seq::<Seq<char>>::empty()
        });
        assert(h =~= sh);
    }
    assert(views(head@) =~= h + filter_map(
        ls,
        |r: Seq<char>|
            if go_kind(trim_end(r)) == 4 {
                Some(trim_end(r))
            } else {
                None
            },
    ));
    join_lines_trimmed(&head)
}

// ---------- gradle ----------

pub const GRADLE_BANNER_KEYWORDS: [&'static str; 7] = [
    "Welcome to Gradle",
    "Here are the highlights",
    " - ",
    "For more details see",
    "To honour the JVM",
    "Daemon will be stopped",
    "actionable task",
];
pub const GRADLE_TASK_PROGRESS: &'static str =
    r"^>\s+Task\s+:\S+\s*(?:UP-TO-DATE|NO-SOURCE|FROM-CACHE)?\s*$";
pub const GRADLE_TASK_FAILED: &'static str = r"^>\s+Task\s+:\S+\s+FAILED";

/// `line` contains one of the literal `words`.
pub open spec fn contains_any(line: Seq<char>, words: Seq<&str>) -> bool {
    exists|i: int| 0 <= i < words.len() && contains(line, #[trigger] words[i]@)
}

fn contains_any_exec(line: &[char], words: &[&str]) -> (b: bool)
    ensures
        b == contains_any(line@, words@),
{
    for i in 0..words.len()
        invariant
            forall|j: int| 0 <= j < i ==> !contains(line@, #[trigger] words@[j]@),
    {
        if contains_str(line, words[i]) {
            return true;
        }
    }
    false
}

/// Where the gradle digest stands after some lines.
pub struct GradleState {
    pub in_banner: bool,
    pub n_task_ok: nat,
    pub kept: Seq<Seq<char>>,
}

/// One raw gradle line: banner text (and the `- ` bullets under it) is
/// dropped, tasks that ran fine are counted, everything else is kept.
pub open spec fn gradle_step(s: GradleState, raw: Seq<char>) -> GradleState {
    let line = trim_end(raw);
    if line.len() == 0 {
        s
    } else if contains_any(line, GRADLE_BANNER_KEYWORDS@) {
        GradleState { in_banner: true, ..s }
    } else if s.in_banner && starts_with(line, "- "@) {
        s
    } else if regex_is_match(GRADLE_TASK_FAILED@, line) {
        GradleState { in_banner: false, n_task_ok: s.n_task_ok, kept: s.kept.push(line) }
    } else if regex_is_match(GRADLE_TASK_PROGRESS@, line) {
        GradleState { in_banner: false, n_task_ok: s.n_task_ok + 1, kept: s.kept }
    } else {
        GradleState { in_banner: false, n_task_ok: s.n_task_ok, kept: s.kept.push(line) }
    }
}

/// The gradle digest: the number of tasks that ran fine, then the kept lines.
pub open spec fn digest_gradle_spec(text: Seq<char>) -> Seq<char> {
    let ls = lines(strip_ansi(text));
    let st = crate::text::fold_lines(
        ls,
        GradleState { in_banner: false, n_task_ok: 0, kept: Seq::empty() },
        |s: GradleState, r: Seq<char>| gradle_step(s, r),
    );
    let head = if st.n_task_ok > 0 {
        seq![count_note(st.n_task_ok, " gradle tasks ok, stripped)"@)]
    } else {
        Seq::<Seq<char>>::empty()
    };
    trim(join(head + st.kept, seq!['\n']))
}

/// Strips the gradle welcome banner and the tasks that ran fine.
pub fn digest_gradle(text: &str) -> (out: String)
    ensures
        out@ == digest_gradle_spec(text@),
{
    let ghost ls = lines(strip_ansi(text@));
    let ghost init = GradleState { in_banner: false, n_task_ok: 0, kept: Seq::empty() };
    let all = plain_lines(text);
    let progress = Pattern::new(GRADLE_TASK_PROGRESS);
    let failed = Pattern::new(GRADLE_TASK_FAILED);
    let mut kept: Vec<Vec<char>> = Vec::new();
    let mut n_task_ok: usize = 0;
    let mut in_banner = false;
    let mut i: usize = 0;
    assert(views(kept@) =~= Seq::<Seq<char>>::empty());
    while i < all.len()
        invariant
            progress@ == GRADLE_TASK_PROGRESS@,
            failed@ == GRADLE_TASK_FAILED@,
            i <= all@.len(),
            views(all@) == ls,
            init == (GradleState { in_banner: false, n_task_ok: 0, kept: Seq::empty() }),
            (GradleState { in_banner, n_task_ok: n_task_ok as nat, kept: views(kept@) })
                == crate::text::fold_lines(
                ls.take(i as int),
                init,
                |s: GradleState, r: Seq<char>| gradle_step(s, r),
            ),
            n_task_ok <= i,
        decreases all@.len() - i,
    {
        assert(ls.take(i + 1).drop_last() =~= ls.take(i as int));
        assert(ls.take(i + 1).last() == all@[i as int]@);
        let line = trim_end_chars(&all[i]);
        if line.len() > 0 {
            if contains_any_exec(&line, &GRADLE_BANNER_KEYWORDS) {
                in_banner = true;
            } else if in_banner && crate::text::starts_with_str(&line, "- ") {
            } else {
                in_banner = false;
                let s = chars_to_string(&line);
                if failed.is_match(s.as_str()) {
                    kept.push(line);
                } else if progress.is_match(s.as_str()) {
                    n_task_ok = n_task_ok + 1;
                } else {
                    kept.push(line);
                }
            }
        }
        i = i + 1;
        assert(views(kept@) =~= crate::text::fold_lines(
            ls.take(i as int),
            init,
            |s: GradleState, r: Seq<char>| gradle_step(s, r),
        ).kept);
    }
    assert(ls.take(i as int) =~= ls);
    if n_task_ok > 0 {
        let ghost before = views(kept@);
        kept.insert(0, count_note_exec(n_task_ok, " gradle tasks ok, stripped)"));
        assert(views(kept@) =~= seq![count_note(n_task_ok as nat, " gradle tasks ok, stripped)"@)]
            + before);
    } else {
        assert(views(kept@) =~= Seq::<Seq<char>>::empty() + views(kept@));
    }
    join_lines_trimmed(&kept)
}

// ---------- compiler (clang / gcc / cmake / make / swiftc) ----------

pub const COMPILER_PROGRESS: [&'static str; 7] = [
    r"^\[\s*\d+%\]\s+(Built target|Building|Linking|Generating)",
    r"^\[\d+/\d+\]\s+\S+",
    r"^make\[\d+\]: Entering directory",
    r"^make\[\d+\]: Leaving directory",
    r"^make\[\d+\]: Nothing to be done",
    r"^Building for debugging",
    r"^Build complete!",
];
pub const COMPILER_CONTEXT_LINE: &'static str = r"^\s*\d+\s*\|";
pub const COMPILER_CARET_LINE: &'static str = r"^\s+\|.*[\^~]";

/// Where the compiler digest stands after some lines.
pub struct CompilerState {
    pub last_was_diag: bool,
    pub context_seen: nat,
    pub n_progress: nat,
    pub kept: Seq<Seq<char>>,
}

/// One raw compiler line: progress is counted and dropped, diagnostics are
/// kept with at most two source-context lines under each, the rest is kept.
pub open spec fn compiler_step(s: CompilerState, raw: Seq<char>) -> CompilerState {
    let line = trim_end(raw);
    if line.len() == 0 {
        CompilerState { last_was_diag: false, context_seen: 0, ..s }
    } else if any_match(sources(COMPILER_PROGRESS@), line) {
        CompilerState { n_progress: s.n_progress + 1, ..s }
    } else if regex_is_match(COMPILER_DIAG@, line) {
        CompilerState { last_was_diag: true, context_seen: 0, n_progress: s.n_progress, kept: s.kept.push(line) }
    } else if s.last_was_diag && (regex_is_match(COMPILER_CONTEXT_LINE@, line) || regex_is_match(
        COMPILER_CARET_LINE@,
        line,
    )) {
        if s.context_seen < 2 {
            CompilerState { context_seen: s.context_seen + 1, kept: s.kept.push(line), ..s }
        } else {
            s
        }
    } else {
        CompilerState { last_was_diag: false, context_seen: 0, n_progress: s.n_progress, kept: s.kept.push(line) }
    }
}

/// The compiler digest: the number of progress lines, then the kept lines.
pub open spec fn digest_compiler_spec(text: Seq<char>) -> Seq<char> {
    let ls = lines(strip_ansi(text));
    let st = crate::text::fold_lines(
        ls,
        CompilerState { last_was_diag: false, context_seen: 0, n_progress: 0, kept: Seq::empty() },
        |s: CompilerState, r: Seq<char>| compiler_step(s, r),
    );
    let head = if st.n_progress > 0 {
        seq![count_note(st.n_progress, " compile/link progress lines stripped)"@)]
    } else {
        Seq::<Seq<char>>::empty()
    };
    trim(join(head + st.kept, seq!['\n']))
}

/// Strips compile / link progress and caps the source context under each diagnostic.
pub fn digest_compiler(text: &str) -> (out: String)
    ensures
        out@ == digest_compiler_spec(text@),
{
    let ghost ls = lines(strip_ansi(text@));
    let ghost init = CompilerState {
        last_was_diag: false,
        context_seen: 0,
        n_progress: 0,
        kept: Seq::empty(),
    };
    let all = plain_lines(text);
    let progress = compile_all(&COMPILER_PROGRESS);
    let diag = Pattern::new(COMPILER_DIAG);
    let context = Pattern::new(COMPILER_CONTEXT_LINE);
    let caret = Pattern::new(COMPILER_CARET_LINE);
    let mut kept: Vec<Vec<char>> = Vec::new();
    let mut n_progress: usize = 0;
    let mut context_seen: usize = 0;
    let mut last_was_diag = false;
    let mut i: usize = 0;
    assert(views(kept@) =~= Seq::<Seq<char>>::empty());
    while i < all.len()
        invariant
            pattern_views(progress@) == sources(COMPILER_PROGRESS@),
            diag@ == COMPILER_DIAG@,
            context@ == COMPILER_CONTEXT_LINE@,
            caret@ == COMPILER_CARET_LINE@,
            i <= all@.len(),
            views(all@) == ls,
            init == (CompilerState {
                last_was_diag: false,
                context_seen: 0,
                n_progress: 0,
                kept: Seq::empty(),
            }),
            (CompilerState {
                last_was_diag,
                context_seen: context_seen as nat,
                n_progress: n_progress as nat,
                kept: views(kept@),
            }) == crate::text::fold_lines(
                ls.take(i as int),
                init,
                |s: CompilerState, r: Seq<char>| compiler_step(s, r),
            ),
            n_progress <= i,
            context_seen <= 2,
        decreases all@.len() - i,
    {
        assert(ls.take(i + 1).drop_last() =~= ls.take(i as int));
        assert(ls.take(i + 1).last() == all@[i as int]@);
        let line = trim_end_chars(&all[i]);
        if line.len() == 0 {
            last_was_diag = false;
            context_seen = 0;
        } else {
            let s = chars_to_string(&line);
            let st = s.as_str();
            if any_is_match(&progress, st) {
                n_progress = n_progress + 1;
            } else if diag.is_match(st) {
                kept.push(line);
                last_was_diag = true;
                context_seen = 0;
            } else if last_was_diag && (context.is_match(st) || caret.is_match(st)) {
                if context_seen < 2 {
                    kept.push(line);
                    context_seen = context_seen + 1;
                }
            } else {
                kept.push(line);
                last_was_diag = false;
                context_seen = 0;
            }
        }
        i = i + 1;
        assert(views(kept@) =~= crate::text::fold_lines(
            ls.take(i as int),
            init,
            |s: CompilerState, r: Seq<char>| compiler_step(s, r),
        ).kept);
    }
    assert(ls.take(i as int) =~= ls);
    if n_progress > 0 {
        let ghost before = views(kept@);
        kept.insert(0, count_note_exec(n_progress, " compile/link progress lines stripped)"));
        assert(views(kept@) =~= seq![
            count_note(n_progress as nat, " compile/link progress lines stripped)"@),
        ] + before);
    } else {
        assert(views(kept@) =~= Seq::<Seq<char>>::empty() + views(kept@));
    }
    join_lines_trimmed(&kept)
}

// ---------- GitHub Actions / CI ----------

pub const GHA_BARE_TS: &'static str = r"^\u{feff}?\d{4}-\d{2}-\d{2}T\d{2}:\d{2}:\d{2}\.\d+Z\s?";
pub const GHA_GROUP_START: &'static str = r"##\[group\](.*)$";
pub const GHA_GROUP_END: &'static str = r"##\[endgroup\]";
pub const GHA_ERROR_MARK: &'static str = r"##\[error\]";
pub const GHA_WARNING_MARK: &'static str = r"##\[warning\]";
pub const GHA_DEBUG_MARK: &'static str = r"##\[debug\]";
pub const GHA_SECTION: &'static str = r"^##\[section\]";
pub const CI_ERROR_KEYWORDS: &'static str =
    r"(?i)\b(error|FAIL|failed|panic|fatal|cannot find|undefined reference|exit code [1-9])\b";
/// How many lines of a failed group are kept.
pub const CI_FAILED_GROUP_TAIL: usize = 80;

/// Length of the match of `pattern` in `h` when that match starts `h`.
pub open spec fn prefix_match(pattern: Seq<char>, h: Seq<char>) -> Option<nat> {
    match regex_captures(pattern, h) {
        Some(g) => if g.len() > 0 && g[0] is Some && starts_with(h, g[0]->0) {
            Some(g[0]->0.len())
        } else {
            None
        },
        None => None,
    }
}

fn prefix_match_exec(p: &Pattern, h: &str, hc: &[char]) -> (r: Option<usize>)
    requires
        hc@ == h@,
    ensures
        r matches Some(n) ==> prefix_match(p@, h@) == Some(n as nat),
        r is None ==> prefix_match(p@, h@) is None,
{
    match p.captures(h) {
        Some(groups) => {
            if groups.len() > 0 {
                match &groups[0] {
                    Some(m) => {
                        let mc = str_to_chars(m.as_str());
                        if crate::text::starts_with_exec(hc, &mc) {
                            Some(mc.len())
                        } else {
                            None
                        }
                    },
                    None => None,
                }
            } else {
                None
            }
        },
        None => None,
    }
}

/// A log line without the `job<TAB>step<TAB>timestamp ` prefix of
/// `gh run view --log`, or without a bare leading timestamp.
pub open spec fn strip_gha_prefix(line: Seq<char>) -> Seq<char> {
    match prefix_match(GHA_PREFIX@, line) {
        Some(n) => line.skip(n as int),
        None => match prefix_match(GHA_BARE_TS@, line) {
            Some(n) => line.skip(n as int),
            None => line,
        },
    }
}

fn strip_gha_prefix_exec(gha: &Pattern, bare: &Pattern, line: &[char]) -> (out: Vec<char>)
    requires
        gha@ == GHA_PREFIX@,
        bare@ == GHA_BARE_TS@,
    ensures
        out@ == strip_gha_prefix(line@),
{
    let s = chars_to_string(line);
    match prefix_match_exec(gha, s.as_str(), line) {
        Some(n) => {
            let out = crate::text::slice(line, n, line.len());
            assert(out@ =~= line@.skip(n as int));
            out
        },
        None => match prefix_match_exec(bare, s.as_str(), line) {
            Some(n) => {
                let out = crate::text::slice(line, n, line.len());
                assert(out@ =~= line@.skip(n as int));
                out
            },
            None => crate::text::slice(line, 0, line.len()),
        },
    }
}

/// The lines among the first `n` of `group` that are marked as errors, in
/// order.
pub open spec fn marked_lines(group: Seq<Seq<char>>, marks: Seq<bool>, n: int) -> Seq<Seq<char>>
    decreases n,
{
    if n <= 0 {
        Seq::empty()
    } else {
        marked_lines(group, marks, n - 1) + if marks[n - 1] {
            seq![group[n - 1]]
        } else {
            Seq::<Seq<char>>::empty()
        }
    }
}

/// How many lines of a failed group are shown in full at its end.
pub open spec fn ci_tail_len(group: Seq<Seq<char>>) -> nat {
    if group.len() < CI_FAILED_GROUP_TAIL {
        group.len()
    } else {
        CI_FAILED_GROUP_TAIL as nat
    }
}

/// The lines that stand for a closed (or, at the end, still open) group:
/// a failed group keeps every error line (`marks`) before its tail, then
/// the tail in full.
pub open spec fn ci_flush(
    name: Seq<char>,
    group: Seq<Seq<char>>,
    marks: Seq<bool>,
    has_error: bool,
    still_open: bool,
) -> Seq<Seq<char>> {
    if has_error {
        let tail_n = ci_tail_len(group);
        let header = if still_open {
            "━━━ FAILED GROUP: "@ + name + " (still open, tail "@ + crate::text::decimal(tail_n)
                + ") ━━━"@
        } else {
            "━━━ FAILED GROUP: "@ + name + " ("@ + crate::text::decimal(group.len()) + " lines, tail "@
                + crate::text::decimal(tail_n) + ") ━━━"@
        };
        seq![header] + marked_lines(group, marks, group.len() - tail_n) + group.skip(
            group.len() - tail_n,
        ) + if still_open {
            Seq::<Seq<char>>::empty()
        } else {
            seq!["━━━ END "@ + name + " ━━━"@]
        }
    } else {
        seq!["[ok] "@ + name + " ("@ + crate::text::decimal(group.len()) + " lines)"@]
    }
}

/// Every error line of a failed group is in what stands for it.
pub proof fn lemma_failed_group_keeps_errors(
    name: Seq<char>,
    group: Seq<Seq<char>>,
    marks: Seq<bool>,
    still_open: bool,
    i: int,
)
    requires
        0 <= i < group.len(),
        marks.len() == group.len(),
        marks[i],
    ensures
        ci_flush(name, group, marks, true, still_open).contains(group[i]),
{
    let start = group.len() - ci_tail_len(group);
    let f = ci_flush(name, group, marks, true, still_open);
    let m = marked_lines(group, marks, start);
    if i < start {
        lemma_marked_lines_has(group, marks, start, i);
        let k = choose|k: int| 0 <= k < m.len() && m[k] == group[i];
        assert(f[1 + k] == group[i]);
    } else {
        assert(f[1 + m.len() + (i - start)] == group[i]);
    }
}

proof fn lemma_marked_lines_has(group: Seq<Seq<char>>, marks: Seq<bool>, n: int, i: int)
    requires
        0 <= i < n,
        marks[i],
    ensures
        marked_lines(group, marks, n).contains(group[i]),
    decreases n,
{
    let m = marked_lines(group, marks, n);
    let p = marked_lines(group, marks, n - 1);
    if i == n - 1 {
        assert(m[p.len() as int] == group[i]);
    } else {
        lemma_marked_lines_has(group, marks, n - 1, i);
        let k = choose|k: int| 0 <= k < p.len() && p[k] == group[i];
        assert(m[k] == group[i]);
    }
}

fn ci_flush_exec(
    out: &mut Vec<Vec<char>>,
    name: &[char],
    group: &Vec<Vec<char>>,
    marks: &Vec<bool>,
    has_error: bool,
    still_open: bool,
)
    requires
        marks@.len() == group@.len(),
    ensures
        views(final(out)@) == views(old(out)@) + ci_flush(
            name@,
            views(group@),
            marks@,
            has_error,
            still_open,
        ),
{
    let ghost g = views(group@);
    let ghost start_out = views(out@);
    let len = group.len();
    if has_error {
        let tail_n = if len < CI_FAILED_GROUP_TAIL {
            len
        } else {
            CI_FAILED_GROUP_TAIL
        };
        let start = len - tail_n;
        let mut header: Vec<char> = Vec::new();
        append_str(&mut header, "━━━ FAILED GROUP: ");
        append(&mut header, name);
        if still_open {
            append_str(&mut header, " (still open, tail ");
            let d = crate::text::decimal_exec(tail_n);
            append(&mut header, &d);
            append_str(&mut header, ") ━━━");
        } else {
            append_str(&mut header, " (");
            let d = crate::text::decimal_exec(len);
            append(&mut header, &d);
            append_str(&mut header, " lines, tail ");
            let d2 = crate::text::decimal_exec(tail_n);
            append(&mut header, &d2);
            append_str(&mut header, ") ━━━");
        }
        let ghost tn = ci_tail_len(g);
        assert(tn == tail_n);
        let ghost hdr = if still_open {
            "━━━ FAILED GROUP: "@ + name@ + " (still open, tail "@ + crate::text::decimal(tn)
                + ") ━━━"@
        } else {
            "━━━ FAILED GROUP: "@ + name@ + " ("@ + crate::text::decimal(g.len()) + " lines, tail "@
                + crate::text::decimal(tn) + ") ━━━"@
        };
        assert(header@ =~= hdr);
        out.push(header);
        let ghost head = views(out@);
        let mut k: usize = 0;
        assert(head =~= head + marked_lines(g, marks@, 0));
        while k < start
            invariant
                k <= start <= len,
                len == group@.len(),
                marks@.len() == len,
                g == views(group@),
                views(out@) == head + marked_lines(g, marks@, k as int),
            decreases start - k,
        {
            let ghost before = views(out@);
            if marks[k] {
                let copy = crate::text::slice(&group[k], 0, group[k].len());
                assert(copy@ =~= g[k as int]);
                out.push(copy);
                assert(views(out@) =~= before.push(g[k as int]));
            }
            k = k + 1;
            assert(views(out@) =~= head + marked_lines(g, marks@, k as int));
        }
        let ghost mid = views(out@);
        let mut j = start;
        while j < len
            invariant
                start <= j <= len,
                len == group@.len(),
                g == views(group@),
                views(out@) == mid + g.subrange(start as int, j as int),
            decreases len - j,
        {
            let copy = crate::text::slice(&group[j], 0, group[j].len());
            assert(copy@ =~= g[j as int]);
            let ghost before = views(out@);
            out.push(copy);
            assert(views(out@) =~= before.push(g[j as int]));
            assert(g.subrange(start as int, j + 1) =~= g.subrange(start as int, j as int).push(
                g[j as int],
            ));
            j = j + 1;
            assert(views(out@) =~= mid + g.subrange(start as int, j as int));
        }
        assert(g.subrange(start as int, len as int) =~= g.skip(g.len() - tn));
        let ghost body = views(out@);
        assert(body =~= start_out + (seq![hdr] + marked_lines(g, marks@, g.len() - tn) + g.skip(
            g.len() - tn,
        )));
        if !still_open {
            let mut end: Vec<char> = Vec::new();
            append_str(&mut end, "━━━ END ");
            append(&mut end, name);
            append_str(&mut end, " ━━━");
            assert(end@ =~= "━━━ END "@ + name@ + " ━━━"@);
            out.push(end);
            assert(views(out@) =~= body.push("━━━ END "@ + name@ + " ━━━"@));
        }
        assert(views(out@) =~= start_out + ci_flush(name@, g, marks@, has_error, still_open));
    } else {
        let mut line: Vec<char> = Vec::new();
        append_str(&mut line, "[ok] ");
        append(&mut line, name);
        append_str(&mut line, " (");
        let d = crate::text::decimal_exec(len);
        append(&mut line, &d);
        append_str(&mut line, " lines)");
        out.push(line);
        assert(views(out@) =~= start_out + ci_flush(name@, g, marks@, has_error, still_open));
    }
}

/// Where the CI digest stands after some lines.
pub struct CiState {
    pub out: Seq<Seq<char>>,
    pub in_group: bool,
    pub name: Seq<char>,
    pub group: Seq<Seq<char>>,
    /// Which lines of the open group are error lines.
    pub marks: Seq<bool>,
    pub has_error: bool,
}

/// `line` goes into the open group, marked as an error line or not, or
/// straight to the output.
pub open spec fn ci_push(s: CiState, line: Seq<char>, error: bool) -> CiState {
    if s.in_group {
        CiState { group: s.group.push(line), marks: s.marks.push(error), ..s }
    } else {
        CiState { out: s.out.push(line), ..s }
    }
}

/// The name of a group from the captures of its `##[group]` line.
pub open spec fn ci_group_name(caps: Seq<Option<Seq<char>>>) -> Seq<char> {
    let n = if caps.len() > 1 && caps[1] is Some {
        trim(caps[1]->0)
    } else {
        Seq::<char>::empty()
    };
    if n.len() == 0 {
        "(unnamed)"@
    } else {
        n
    }
}

/// One raw CI log line.
pub open spec fn ci_step(s: CiState, raw: Seq<char>) -> CiState {
    let line = trim_end(strip_gha_prefix(raw));
    if line.len() == 0 || regex_is_match(GHA_DEBUG_MARK@, line) {
        s
    } else if regex_is_match(GHA_SECTION@, line) {
        ci_push(s, line, false)
    } else if regex_captures(GHA_GROUP_START@, line) is Some {
        CiState {
            in_group: true,
            name: ci_group_name(regex_captures(GHA_GROUP_START@, line)->0),
            group: Seq::empty(),
            marks: Seq::empty(),
            has_error: false,
            ..s
        }
    } else if regex_is_match(GHA_GROUP_END@, line) {
        if s.in_group {
            CiState {
                out: s.out + ci_flush(s.name, s.group, s.marks, s.has_error, false),
                in_group: false,
                group: Seq::empty(),
                marks: Seq::empty(),
                ..s
            }
        } else {
            s
        }
    } else if regex_is_match(GHA_ERROR_MARK@, line) {
        ci_push(CiState { has_error: true, ..s }, line, true)
    } else if regex_is_match(GHA_WARNING_MARK@, line) {
        ci_push(s, line, false)
    } else {
        let kw = regex_is_match(CI_ERROR_KEYWORDS@, line);
        ci_push(CiState { has_error: s.has_error || kw, ..s }, line, kw)
    }
}

pub open spec fn ci_init() -> CiState {
    CiState {
        out: Seq::empty(),
        in_group: false,
        name: Seq::empty(),
        group: Seq::empty(),
        marks: Seq::empty(),
        has_error: false,
    }
}

/// The CI digest: groups without errors become one `[ok]` line, failed
/// groups keep their error lines and their last lines, everything outside
/// groups is kept.
pub open spec fn digest_ci_spec(text: Seq<char>) -> Seq<char> {
    let st = crate::text::fold_lines(
        lines(strip_ansi(text)),
        ci_init(),
        |s: CiState, r: Seq<char>| ci_step(s, r),
    );
    let out = if st.in_group && st.group.len() > 0 {
        st.out + ci_flush(st.name, st.group, st.marks, st.has_error, true)
    } else {
        st.out
    };
    trim(join(out, seq!['\n']))
}

struct CiPatterns {
    gha: Pattern,
    bare: Pattern,
    start: Pattern,
    end: Pattern,
    error: Pattern,
    warning: Pattern,
    debug: Pattern,
    section: Pattern,
    keywords: Pattern,
}

impl CiPatterns {
    spec fn wf(&self) -> bool {
        &&& self.gha@ == GHA_PREFIX@
        &&& self.bare@ == GHA_BARE_TS@
        &&& self.start@ == GHA_GROUP_START@
        &&& self.end@ == GHA_GROUP_END@
        &&& self.error@ == GHA_ERROR_MARK@
        &&& self.warning@ == GHA_WARNING_MARK@
        &&& self.debug@ == GHA_DEBUG_MARK@
        &&& self.section@ == GHA_SECTION@
        &&& self.keywords@ == CI_ERROR_KEYWORDS@
    }

    fn new() -> (p: Self)
        ensures
            p.wf(),
    {
        CiPatterns {
            gha: Pattern::new(GHA_PREFIX),
            bare: Pattern::new(GHA_BARE_TS),
            start: Pattern::new(GHA_GROUP_START),
            end: Pattern::new(GHA_GROUP_END),
            error: Pattern::new(GHA_ERROR_MARK),
            warning: Pattern::new(GHA_WARNING_MARK),
            debug: Pattern::new(GHA_DEBUG_MARK),
            section: Pattern::new(GHA_SECTION),
            keywords: Pattern::new(CI_ERROR_KEYWORDS),
        }
    }
}

fn group_name_exec(groups: &Vec<Option<String>>) -> (n: Vec<char>)
    ensures
        forall|caps: Seq<Option<Seq<char>>>|
            caps.len() == groups@.len() && (forall|i: int|
                0 <= i < caps.len() ==> match (#[trigger] groups@[i], caps[i]) {
                    (Some(g), Some(c)) => g@ == c,
                    (None, None) => true,
                    _ => false,
                }) ==> n@ == ci_group_name(caps),
{
    let mut n: Vec<char> = Vec::new();
    if groups.len() > 1 {
        match &groups[1] {
            Some(g) => {
                let c = str_to_chars(g.as_str());
                n = trim_chars(&c);
            },
            None => {},
        }
    }
    if n.len() == 0 {
        n = str_to_chars("(unnamed)");
    }
    n
}

/// Collapses CI groups that passed, keeps the error lines and the tail of
/// failed ones, and drops timestamps and debug lines.
pub fn digest_ci(text: &str) -> (out: String)
    ensures
        out@ == digest_ci_spec(text@),
{
    let ghost ls = lines(strip_ansi(text@));
    let all = plain_lines(text);
    let p = CiPatterns::new();
    let mut out: Vec<Vec<char>> = Vec::new();
    let mut in_group = false;
    let mut group_name: Vec<char> = Vec::new();
    let mut group_lines: Vec<Vec<char>> = Vec::new();
    let mut group_marks: Vec<bool> = Vec::new();
    let mut group_has_error = false;
    let mut i: usize = 0;
    assert(views(out@) =~= Seq::<Seq<char>>::empty());
    assert(views(group_lines@) =~= Seq::<Seq<char>>::empty());
    while i < all.len()
        invariant
            p.wf(),
            i <= all@.len(),
            views(all@) == ls,
            group_marks@.len() == group_lines@.len(),
            (CiState {
                out: views(out@),
                in_group,
                name: group_name@,
                group: views(group_lines@),
                marks: group_marks@,
                has_error: group_has_error,
            }) == crate::text::fold_lines(
                ls.take(i as int),
                ci_init(),
                |s: CiState, r: Seq<char>| ci_step(s, r),
            ),
        decreases all@.len() - i,
    {
        assert(ls.take(i + 1).drop_last() =~= ls.take(i as int));
        assert(ls.take(i + 1).last() == all@[i as int]@);
        let ghost prev = CiState {
            out: views(out@),
            in_group,
            name: group_name@,
            group: views(group_lines@),
            marks: group_marks@,
            has_error: group_has_error,
        };
        let stripped = strip_gha_prefix_exec(&p.gha, &p.bare, &all[i]);
        let line = trim_end_chars(&stripped);
        let s = chars_to_string(&line);
        let st = s.as_str();
        if line.len() == 0 || p.debug.is_match(st) {
        } else if p.section.is_match(st) {
            if in_group {
                group_lines.push(line);
                group_marks.push(false);
            } else {
                out.push(line);
            }
        } else {
            match p.start.captures(st) {
                Some(groups) => {
                    in_group = true;
                    group_name = group_name_exec(&groups);
                    group_lines = Vec::new();
                    group_marks = Vec::new();
                    group_has_error = false;
                    assert(views(group_lines@) =~= Seq::<Seq<char>>::empty());
                },
                None => {
                    if p.end.is_match(st) {
                        if in_group {
                            ci_flush_exec(
                                &mut out,
                                &group_name,
                                &group_lines,
                                &group_marks,
                                group_has_error,
                                false,
                            );
                            in_group = false;
                            group_lines = Vec::new();
                            group_marks = Vec::new();
                            assert(views(group_lines@) =~= Seq::<Seq<char>>::empty());
                        }
                    } else if p.error.is_match(st) {
                        group_has_error = true;
                        if in_group {
                            group_lines.push(line);
                            group_marks.push(true);
                        } else {
                            out.push(line);
                        }
                    } else if p.warning.is_match(st) {
                        if in_group {
                            group_lines.push(line);
                            group_marks.push(false);
                        } else {
                            out.push(line);
                        }
                    } else {
                        let kw = p.keywords.is_match(st);
                        if kw {
                            group_has_error = true;
                        }
                        if in_group {
                            group_lines.push(line);
                            group_marks.push(kw);
                        } else {
                            out.push(line);
                        }
                    }
                },
            }
        }
        i = i + 1;
        proof {
            let now = CiState {
                out: views(out@),
                in_group,
                name: group_name@,
                group: views(group_lines@),
                marks: group_marks@,
                has_error: group_has_error,
            };
            let spec_now = ci_step(prev, all@[i - 1]@);
            assert(now.out =~= spec_now.out);
            assert(now.group =~= spec_now.group);
            assert(now.marks =~= spec_now.marks);
            assert(now == spec_now);
        }
    }
    assert(ls.take(i as int) =~= ls);
    if in_group && group_lines.len() > 0 {
        ci_flush_exec(&mut out, &group_name, &group_lines, &group_marks, group_has_error, true);
    }
    join_lines_trimmed(&out)
}

// ---------- grouping diagnostics by code (tsc, ruff) ----------

/// The views of parsed diagnostics: (code, rendered item line).
pub open spec fn entry_views(v: Seq<(Vec<char>, Vec<char>)>) -> Seq<(Seq<char>, Seq<char>)> {
    v.map_values(|e: (Vec<char>, Vec<char>)| (e.0@, e.1@))
}

/// The distinct codes of `es`, in order of first appearance.
pub open spec fn distinct_codes(es: Seq<(Seq<char>, Seq<char>)>) -> Seq<Seq<char>>
    decreases es.len(),
{
    if es.len() == 0 {
        Seq::<Seq<char>>::empty()
    } else {
        let p = distinct_codes(es.drop_last());
        if p.contains(es.last().0) {
            p
        } else {
            p.push(es.last().0)
        }
    }
}

/// The item lines of `es` whose code is `code`, in order.
pub open spec fn items_of(es: Seq<(Seq<char>, Seq<char>)>, code: Seq<char>) -> Seq<Seq<char>>
    decreases es.len(),
{
    if es.len() == 0 {
        Seq::<Seq<char>>::empty()
    } else {
        let p = items_of(es.drop_last(), code);
        if es.last().0 == code {
            p.push(es.last().1)
        } else {
            p
        }
    }
}

/// How many of `codes` have at least `n` items.
pub open spec fn count_ge(codes: Seq<Seq<char>>, es: Seq<(Seq<char>, Seq<char>)>, n: nat) -> nat
    decreases codes.len(),
{
    if codes.len() == 0 {
        0
    } else {
        count_ge(codes.drop_last(), es, n) + if items_of(es, codes.last()).len() >= n {
            1nat
        } else {
            0nat
        }
    }
}

/// `codes` sorted by number of items, most first; codes with as many items
/// keep their order (a stable insertion sort).
pub open spec fn by_count(codes: Seq<Seq<char>>, es: Seq<(Seq<char>, Seq<char>)>) -> Seq<
    Seq<char>,
>
    decreases codes.len(),
{
    if codes.len() == 0 {
        Seq::<Seq<char>>::empty()
    } else {
        let p = by_count(codes.drop_last(), es);
        p.insert(count_ge(p, es, items_of(es, codes.last()).len()) as int, codes.last())
    }
}

/// `[code] N word:`, the first three items, and how many more there are.
pub open spec fn render_group(code: Seq<char>, es: Seq<(Seq<char>, Seq<char>)>, word: Seq<char>) -> Seq<
    Seq<char>,
> {
    let items = items_of(es, code);
    let n = items.len();
    seq!["["@ + code + "] "@ + crate::text::decimal(n) + " "@ + word + ":"@] + items.take(
        if n < 3 {
            n as int
        } else {
            3
        },
    ) + if n > 3 {
        seq!["  ... +"@ + crate::text::decimal((n - 3) as nat) + " more"@]
    } else {
        Seq::<Seq<char>>::empty()
    }
}

/// The rendered groups of `codes`, one after the other.
pub open spec fn render_groups(
    codes: Seq<Seq<char>>,
    es: Seq<(Seq<char>, Seq<char>)>,
    word: Seq<char>,
) -> Seq<Seq<char>>
    decreases codes.len(),
{
    if codes.len() == 0 {
        Seq::<Seq<char>>::empty()
    } else {
        render_groups(codes.drop_last(), es, word) + render_group(codes.last(), es, word)
    }
}

pub proof fn lemma_items_of_len(es: Seq<(Seq<char>, Seq<char>)>, code: Seq<char>)
    ensures
        items_of(es, code).len() <= es.len(),
    decreases es.len(),
{
    if es.len() > 0 {
        lemma_items_of_len(es.drop_last(), code);
    }
}

pub proof fn lemma_count_ge_le(codes: Seq<Seq<char>>, es: Seq<(Seq<char>, Seq<char>)>, n: nat)
    ensures
        count_ge(codes, es, n) <= codes.len(),
    decreases codes.len(),
{
    if codes.len() > 0 {
        lemma_count_ge_le(codes.drop_last(), es, n);
    }
}

pub proof fn lemma_by_count_len(codes: Seq<Seq<char>>, es: Seq<(Seq<char>, Seq<char>)>)
    ensures
        by_count(codes, es).len() == codes.len(),
    decreases codes.len(),
{
    if codes.len() > 0 {
        lemma_by_count_len(codes.drop_last(), es);
        lemma_count_ge_le(by_count(codes.drop_last(), es), es, items_of(es, codes.last()).len());
    }
}

/// The distinct codes of `es` with their numbers of items.
fn distinct_codes_exec(es: &Vec<(Vec<char>, Vec<char>)>) -> (r: (Vec<Vec<char>>, Vec<usize>))
    ensures
        views(r.0@) == distinct_codes(entry_views(es@)),
        r.1@.len() == r.0@.len(),
        forall|k: int|
            0 <= k < r.1@.len() ==> #[trigger] r.1@[k] == items_of(entry_views(es@), r.0@[k]@).len(),
{
    let ghost ev = entry_views(es@);
    let mut codes: Vec<Vec<char>> = Vec::new();
    let mut counts: Vec<usize> = Vec::new();
    let mut i: usize = 0;
    assert(views(codes@) =~= Seq::<Seq<char>>::empty());
    while i < es.len()
        invariant
            i <= es@.len(),
            ev == entry_views(es@),
            views(codes@) == distinct_codes(ev.take(i as int)),
            counts@.len() == codes@.len(),
            forall|k: int|
                0 <= k < counts@.len() ==> #[trigger] counts@[k] == items_of(
                    ev.take(i as int),
                    codes@[k]@,
                ).len(),
            forall|k: int| 0 <= k < counts@.len() ==> #[trigger] counts@[k] <= i,
        decreases es@.len() - i,
    {
        let ghost prev = ev.take(i as int);
        assert(ev.take(i + 1).drop_last() =~= prev);
        assert(ev.take(i + 1).last() == ev[i as int]);
        let code = &es[i].0;
        let mut k: usize = 0;
        while k < codes.len() && !crate::text::chars_eq(&codes[k], code)
            invariant
                k <= codes@.len(),
                forall|j: int| 0 <= j < k ==> codes@[j]@ != code@,
            decreases codes@.len() - k,
        {
            k = k + 1;
        }
        let ghost dc = distinct_codes(prev);
        if k < codes.len() {
            assert(dc[k as int] == code@);
            assert(dc.contains(code@));
            let c = counts[k];
            counts.set(k, c + 1);
            assert forall|j: int| 0 <= j < counts@.len() implies #[trigger] counts@[j]
                == items_of(ev.take(i + 1), codes@[j]@).len() by {
                assert(items_of(ev.take(i + 1), codes@[j]@) == if ev[i as int].0 == codes@[j]@ {
                    items_of(prev, codes@[j]@).push(ev[i as int].1)
                } else {
                    items_of(prev, codes@[j]@)
                });
                if j != k {
                    assert(codes@[j]@ != code@) by {
                        assert(views(codes@)[j] == dc[j]);
                        assert(views(codes@)[k as int] == dc[k as int]);
                        lemma_distinct_codes_distinct(prev);
                    }
                }
            }
        } else {
            assert(!dc.contains(code@)) by {
                if dc.contains(code@) {
                    let j = choose|j: int| 0 <= j < dc.len() && dc[j] == code@;
                    assert(views(codes@)[j] == codes@[j]@);
                }
            }
            let copy = crate::text::slice(code, 0, code.len());
            assert(copy@ =~= code@);
            codes.push(copy);
            counts.push(1);
            assert(views(codes@) =~= dc.push(code@));
            assert forall|j: int| 0 <= j < counts@.len() implies #[trigger] counts@[j]
                == items_of(ev.take(i + 1), codes@[j]@).len() by {
                if j < counts@.len() - 1 {
                    assert(codes@[j]@ != code@);
                } else {
                    assert(items_of(prev, code@).len() == 0) by {
                        lemma_items_of_absent(prev, code@);
                    }
                }
            }
        }
        i = i + 1;
    }
    assert(ev.take(i as int) =~= ev);
    (codes, counts)
}

proof fn lemma_distinct_codes_distinct(es: Seq<(Seq<char>, Seq<char>)>)
    ensures
        forall|a: int, b: int|
            0 <= a < b < distinct_codes(es).len() ==> distinct_codes(es)[a] != distinct_codes(
                es,
            )[b],
    decreases es.len(),
{
    if es.len() > 0 {
        let p = distinct_codes(es.drop_last());
        lemma_distinct_codes_distinct(es.drop_last());
        if !p.contains(es.last().0) {
            assert forall|a: int| 0 <= a < p.len() implies p[a] != es.last().0 by {
                if p[a] == es.last().0 {
                    assert(p.contains(es.last().0));
                }
            }
        }
    }
}

proof fn lemma_items_of_absent(es: Seq<(Seq<char>, Seq<char>)>, code: Seq<char>)
    requires
        !distinct_codes(es).contains(code),
    ensures
        items_of(es, code).len() == 0,
    decreases es.len(),
{
    if es.len() > 0 {
        let p = distinct_codes(es.drop_last());
        if p.contains(code) {
            let j = choose|j: int| 0 <= j < p.len() && p[j] == code;
            if !p.contains(es.last().0) {
                assert(distinct_codes(es)[j] == code);
            } else {
                assert(distinct_codes(es)[j] == code);
            }
        }
        if es.last().0 == code {
            if p.contains(es.last().0) {
            } else {
                assert(distinct_codes(es)[p.len() as int] == code);
            }
        }
        lemma_items_of_absent(es.drop_last(), code);
    }
}

/// `codes` sorted as `by_count` sorts them, with their numbers of items.
fn by_count_exec(
    es: &Vec<(Vec<char>, Vec<char>)>,
    codes: &Vec<Vec<char>>,
    counts: &Vec<usize>,
) -> (r: (Vec<Vec<char>>, Vec<usize>))
    requires
        counts@.len() == codes@.len(),
        forall|k: int|
            0 <= k < counts@.len() ==> #[trigger] counts@[k] == items_of(
                entry_views(es@),
                codes@[k]@,
            ).len(),
    ensures
        views(r.0@) == by_count(views(codes@), entry_views(es@)),
        r.1@.len() == r.0@.len(),
        forall|k: int|
            0 <= k < r.1@.len() ==> #[trigger] r.1@[k] == items_of(entry_views(es@), r.0@[k]@).len(),
{
    let ghost ev = entry_views(es@);
    let ghost cv = views(codes@);
    let mut sorted: Vec<Vec<char>> = Vec::new();
    let mut scounts: Vec<usize> = Vec::new();
    let mut j: usize = 0;
    assert(views(sorted@) =~= Seq::<Seq<char>>::empty());
    while j < codes.len()
        invariant
            j <= codes@.len(),
            counts@.len() == codes@.len(),
            ev == entry_views(es@),
            cv == views(codes@),
            forall|k: int|
                0 <= k < counts@.len() ==> #[trigger] counts@[k] == items_of(ev, codes@[k]@).len(),
            views(sorted@) == by_count(cv.take(j as int), ev),
            scounts@.len() == sorted@.len(),
            sorted@.len() == j,
            forall|k: int|
                0 <= k < scounts@.len() ==> #[trigger] scounts@[k] == items_of(ev, sorted@[k]@).len(),
        decreases codes@.len() - j,
    {
        let ghost p = views(sorted@);
        assert(cv.take(j + 1).drop_last() =~= cv.take(j as int));
        assert(cv.take(j + 1).last() == codes@[j as int]@);
        let n = counts[j];
        let mut pos: usize = 0;
        let mut k: usize = 0;
        while k < scounts.len()
            invariant
                k <= scounts@.len(),
                scounts@.len() == sorted@.len(),
                p == views(sorted@),
                pos <= k,
                pos == count_ge(p.take(k as int), ev, n as nat),
                forall|q: int|
                    0 <= q < scounts@.len() ==> #[trigger] scounts@[q] == items_of(
                        ev,
                        sorted@[q]@,
                    ).len(),
            decreases scounts@.len() - k,
        {
            assert(p.take(k + 1).drop_last() =~= p.take(k as int));
            assert(p.take(k + 1).last() == sorted@[k as int]@);
            if scounts[k] >= n {
                pos = pos + 1;
            }
            k = k + 1;
        }
        assert(p.take(k as int) =~= p);
        let copy = crate::text::slice(&codes[j], 0, codes[j].len());
        assert(copy@ =~= codes@[j as int]@);
        sorted.insert(pos, copy);
        scounts.insert(pos, n);
        assert(views(sorted@) =~= p.insert(pos as int, codes@[j as int]@));
        j = j + 1;
        assert forall|q: int| 0 <= q < scounts@.len() implies #[trigger] scounts@[q] == items_of(
            ev,
            sorted@[q]@,
        ).len() by {
            if q < pos {
            } else if q == pos {
            } else {
                assert(sorted@[q] == old_sorted_at(q - 1, sorted@, pos as int));
            }
        }
    }
    assert(cv.take(j as int) =~= cv);
    (sorted, scounts)
}

spec fn old_sorted_at(q: int, s: Seq<Vec<char>>, pos: int) -> Vec<char> {
    s[q + 1]
}

/// Appends the rendering of the group of `code` (which has `n` items) to `out`.
fn render_group_exec(
    es: &Vec<(Vec<char>, Vec<char>)>,
    code: &Vec<char>,
    n: usize,
    word: &str,
    out: &mut Vec<Vec<char>>,
)
    requires
        n == items_of(entry_views(es@), code@).len(),
    ensures
        views(final(out)@) == views(old(out)@) + render_group(code@, entry_views(es@), word@),
{
    let ghost ev = entry_views(es@);
    let ghost base = views(out@);
    let mut header: Vec<char> = Vec::new();
    append_str(&mut header, "[");
    append(&mut header, code);
    append_str(&mut header, "] ");
    let d = crate::text::decimal_exec(n);
    append(&mut header, &d);
    append_str(&mut header, " ");
    append_str(&mut header, word);
    append_str(&mut header, ":");
    let ghost hdr = "["@ + code@ + "] "@ + crate::text::decimal(n as nat) + " "@ + word@ + ":"@;
    assert(header@ =~= hdr);
    out.push(header);
    let mut taken: usize = 0;
    let mut i: usize = 0;
    while i < es.len()
        invariant
            i <= es@.len(),
            ev == entry_views(es@),
            taken <= 3,
            taken as int == (if items_of(ev.take(i as int), code@).len() < 3 {
                items_of(ev.take(i as int), code@).len() as int
            } else {
                3
            }),
            views(out@) == base.push(hdr) + items_of(ev.take(i as int), code@).take(taken as int),
        decreases es@.len() - i,
    {
        let ghost prev = items_of(ev.take(i as int), code@);
        assert(ev.take(i + 1).drop_last() =~= ev.take(i as int));
        assert(ev.take(i + 1).last() == ev[i as int]);
        assert(items_of(ev.take(i + 1), code@) == if ev[i as int].0 == code@ {
            prev.push(ev[i as int].1)
        } else {
            prev
        });
        let ghost before = views(out@);
        if crate::text::chars_eq(&es[i].0, code) {
            if taken < 3 {
                let copy = crate::text::slice(&es[i].1, 0, es[i].1.len());
                assert(copy@ =~= ev[i as int].1);
                out.push(copy);
                assert(views(out@) =~= before.push(ev[i as int].1));
                taken = taken + 1;
                assert(prev.push(ev[i as int].1).take(taken as int) =~= prev.take(
                    taken - 1,
                ).push(ev[i as int].1));
            } else {
                assert(prev.push(ev[i as int].1).take(3) =~= prev.take(3));
            }
        }
        i = i + 1;
        assert(views(out@) =~= base.push(hdr) + items_of(ev.take(i as int), code@).take(
            taken as int,
        ));
    }
    assert(ev.take(i as int) =~= ev);
    if n > 3 {
        let mut more: Vec<char> = Vec::new();
        append_str(&mut more, "  ... +");
        let d = crate::text::decimal_exec(n - 3);
        append(&mut more, &d);
        append_str(&mut more, " more");
        assert(more@ =~= "  ... +"@ + crate::text::decimal((n - 3) as nat) + " more"@);
        out.push(more);
    }
    proof {
        let items = items_of(ev, code@);
        let m: int = if items.len() < 3 {
            items.len() as int
        } else {
            3
        };
        assert(taken == m);
        let tail = if n > 3 {
            seq!["  ... +"@ + crate::text::decimal((n - 3) as nat) + " more"@]
        } else {
            Seq::<Seq<char>>::empty()
        };
        assert(views(out@) =~= base.push(hdr) + items.take(m) + tail);
        assert(render_group(code@, ev, word@) =~= seq![hdr] + items.take(m) + tail);
    }
    assert(views(out@) =~= base + render_group(code@, ev, word@));
}

/// Appends the groups of diagnostics, most frequent code first.
fn group_report(
    es: &Vec<(Vec<char>, Vec<char>)>,
    codes: &Vec<Vec<char>>,
    counts: &Vec<usize>,
    word: &str,
    out: &mut Vec<Vec<char>>,
)
    requires
        views(codes@) == distinct_codes(entry_views(es@)),
        counts@.len() == codes@.len(),
        forall|k: int|
            0 <= k < counts@.len() ==> #[trigger] counts@[k] == items_of(
                entry_views(es@),
                codes@[k]@,
            ).len(),
    ensures
        views(final(out)@) == views(old(out)@) + render_groups(
            by_count(distinct_codes(entry_views(es@)), entry_views(es@)),
            entry_views(es@),
            word@,
        ),
{
    let ghost ev = entry_views(es@);
    let (sorted, scounts) = by_count_exec(es, codes, counts);
    let ghost sv = views(sorted@);
    let ghost base = views(out@);
    let mut g: usize = 0;
    while g < sorted.len()
        invariant
            g <= sorted@.len(),
            ev == entry_views(es@),
            sv == views(sorted@),
            scounts@.len() == sorted@.len(),
            forall|k: int|
                0 <= k < scounts@.len() ==> #[trigger] scounts@[k] == items_of(ev, sorted@[k]@).len(),
            views(out@) == base + render_groups(sv.take(g as int), ev, word@),
        decreases sorted@.len() - g,
    {
        assert(sv.take(g + 1).drop_last() =~= sv.take(g as int));
        assert(sv.take(g + 1).last() == sorted@[g as int]@);
        render_group_exec(es, &sorted[g], scounts[g], word, out);
        g = g + 1;
        assert(views(out@) =~= base + render_groups(sv.take(g as int), ev, word@));
    }
    assert(sv.take(g as int) =~= sv);
}

/// The text of capture group `i`, or nothing when the group did not take part.
pub open spec fn group_text(caps: Seq<Option<Seq<char>>>, i: int) -> Seq<char> {
    if 0 <= i < caps.len() && caps[i] is Some {
        caps[i]->0
    } else {
        Seq::<char>::empty()
    }
}

/// The views of captured groups.
pub open spec fn caps_view(v: Seq<Option<Vec<char>>>) -> Seq<Option<Seq<char>>> {
    v.map_values(
        |g: Option<Vec<char>>|
            match g {
                Some(x) => Some(x@),
                None => None,
            },
    )
}

/// The capture groups of `p` in `h`, as characters.
fn captures_chars(p: &Pattern, h: &str) -> (r: Option<Vec<Option<Vec<char>>>>)
    ensures
        r matches Some(c) ==> regex_captures(p@, h@) == Some(caps_view(c@)),
        r is None ==> regex_captures(p@, h@) is None,
{
    match p.captures(h) {
        Some(groups) => {
            let ghost sg = regex_captures(p@, h@)->0;
            let mut out: Vec<Option<Vec<char>>> = Vec::new();
            let mut i: usize = 0;
            while i < groups.len()
                invariant
                    i <= groups@.len(),
                    groups@.len() == sg.len(),
                    forall|k: int|
                        0 <= k < groups@.len() ==> match (#[trigger] groups@[k], sg[k]) {
                            (Some(g), Some(x)) => g@ == x,
                            (None, None) => true,
                            _ => false,
                        },
                    caps_view(out@) == sg.take(i as int),
                decreases groups@.len() - i,
            {
                let ghost gk = groups@[i as int];
                let ghost before = caps_view(out@);
                assert(match (groups@[i as int], sg[i as int]) {
                    (Some(g), Some(x)) => g@ == x,
                    (None, None) => true,
                    _ => false,
                });
                match &groups[i] {
                    Some(g) => {
                        let c = str_to_chars(g.as_str());
                        out.push(Some(c));
                    },
                    None => {
                        out.push(None);
                    },
                }
                assert(caps_view(out@) =~= before.push(sg[i as int]));
                assert(sg.take(i + 1) =~= sg.take(i as int).push(sg[i as int]));
                i = i + 1;
                assert(caps_view(out@) =~= sg.take(i as int));
            }
            assert(sg.take(i as int) =~= sg);
            Some(out)
        },
        None => None,
    }
}

fn group_text_exec(caps: &Vec<Option<Vec<char>>>, i: usize) -> (t: Vec<char>)
    ensures
        t@ == group_text(caps_view(caps@), i as int),
{
    if i < caps.len() {
        match &caps[i] {
            Some(g) => crate::text::slice(g, 0, g.len()),
            None => Vec::new(),
        }
    } else {
        Vec::new()
    }
}

/// A line number as printed: the parsed number, or 0 when it does not parse.
pub open spec fn line_number(s: Seq<char>) -> nat {
    match crate::text::parse_usize(s) {
        Some(v) => v,
        None => 0,
    }
}

/// `  file:line: message` from the groups (file 1, line 2, message 5) of a diagnostic.
pub open spec fn diag_item(caps: Seq<Option<Seq<char>>>) -> Seq<char> {
    "  "@ + group_text(caps, 1) + ":"@ + crate::text::decimal(line_number(group_text(caps, 2)))
        + ": "@ + trim(group_text(caps, 5))
}

fn diag_item_exec(caps: &Vec<Option<Vec<char>>>) -> (t: Vec<char>)
    ensures
        t@ == diag_item(caps_view(caps@)),
{
    let mut t: Vec<char> = Vec::new();
    append_str(&mut t, "  ");
    let f = group_text_exec(caps, 1);
    append(&mut t, &f);
    append_str(&mut t, ":");
    let l = group_text_exec(caps, 2);
    let n = match crate::text::parse_usize_exec(&l) {
        Some(v) => v,
        None => 0,
    };
    let d = crate::text::decimal_exec(n);
    append(&mut t, &d);
    append_str(&mut t, ": ");
    let m = group_text_exec(caps, 5);
    let mt = trim_chars(&m);
    append(&mut t, &mt);
    assert(t@ =~= diag_item(caps_view(caps@)));
    t
}

// ---------- tsc ----------

pub const TSC_PAREN_PARSE: &'static str = r"^(.+\.[jt]sx?)\((\d+),(\d+)\): error (TS\d+): (.+)$";
pub const TSC_COLON_PARSE: &'static str = r"^(.+\.[jt]sx?):(\d+):(\d+) - error (TS\d+): (.+)$";

/// The captures of a tsc error line, in either of its two shapes.
pub open spec fn tsc_caps(line: Seq<char>) -> Option<Seq<Option<Seq<char>>>> {
    match regex_captures(TSC_PAREN_PARSE@, line) {
        Some(c) => Some(c),
        None => regex_captures(TSC_COLON_PARSE@, line),
    }
}

/// The (code, item) of a raw tsc error line.
pub open spec fn tsc_entry(raw: Seq<char>) -> Option<(Seq<char>, Seq<char>)> {
    let line = trim_end(raw);
    if trim(line).len() == 0 {
        None
    } else {
        match tsc_caps(line) {
            Some(c) => Some((group_text(c, 4), diag_item(c))),
            None => None,
        }
    }
}

/// A raw tsc line that is not an error line, kept as it is.
pub open spec fn tsc_other(raw: Seq<char>) -> Option<Seq<char>> {
    let line = trim_end(raw);
    if trim(line).len() == 0 || tsc_caps(line) is Some {
        None
    } else {
        Some(line)
    }
}

/// The tsc digest: the other lines, then the errors grouped by code.
pub open spec fn digest_tsc_spec(text: Seq<char>) -> Seq<char> {
    let ls = lines(strip_ansi(text));
    let es = filter_map(ls, |r: Seq<char>| tsc_entry(r));
    let other = filter_map(ls, |r: Seq<char>| tsc_other(r));
    let out = if es.len() > 0 {
        let codes = distinct_codes(es);
        (if other.len() > 0 {
            other.push(Seq::<char>::empty())
        } else {
            other
        }).push(
            "=== TypeScript errors: "@ + crate::text::decimal(es.len()) + " total, "@
                + crate::text::decimal(codes.len()) + " unique codes ==="@,
        ) + render_groups(by_count(codes, es), es, "errors"@)
    } else {
        other
    };
    trim(join(out, seq!['\n']))
}

/// Groups TypeScript compiler errors by code.
pub fn digest_tsc(text: &str) -> (out: String)
    ensures
        out@ == digest_tsc_spec(text@),
{
    let ghost ls = lines(strip_ansi(text@));
    let all = plain_lines(text);
    let paren = Pattern::new(TSC_PAREN_PARSE);
    let colon = Pattern::new(TSC_COLON_PARSE);
    let mut es: Vec<(Vec<char>, Vec<char>)> = Vec::new();
    let mut other: Vec<Vec<char>> = Vec::new();
    let mut i: usize = 0;
    assert(views(other@) =~= Seq::<Seq<char>>::empty());
    assert(entry_views(es@) =~= Seq::<(Seq<char>, Seq<char>)>::empty());
    while i < all.len()
        invariant
            paren@ == TSC_PAREN_PARSE@,
            colon@ == TSC_COLON_PARSE@,
            i <= all@.len(),
            views(all@) == ls,
            entry_views(es@) == filter_map(ls.take(i as int), |r: Seq<char>| tsc_entry(r)),
            views(other@) == filter_map(ls.take(i as int), |r: Seq<char>| tsc_other(r)),
            es@.len() <= i,
        decreases all@.len() - i,
    {
        assert(ls.take(i + 1).drop_last() =~= ls.take(i as int));
        assert(ls.take(i + 1).last() == all@[i as int]@);
        let line = trim_end_chars(&all[i]);
        let t = trim_chars(&line);
        if t.len() > 0 {
            let s = chars_to_string(&line);
            let caps = match captures_chars(&paren, s.as_str()) {
                Some(c) => Some(c),
                None => captures_chars(&colon, s.as_str()),
            };
            match caps {
                Some(c) => {
                    let code = group_text_exec(&c, 4);
                    let item = diag_item_exec(&c);
                    es.push((code, item));
                },
                None => {
                    other.push(line);
                },
            }
        }
        i = i + 1;
        assert(entry_views(es@) =~= filter_map(ls.take(i as int), |r: Seq<char>| tsc_entry(r)));
        assert(views(other@) =~= filter_map(ls.take(i as int), |r: Seq<char>| tsc_other(r)));
    }
    assert(ls.take(i as int) =~= ls);
    let ghost ev = entry_views(es@);
    let ghost ov = views(other@);
    let mut out = other;
    if es.len() > 0 {
        let (codes, counts) = distinct_codes_exec(&es);
        if out.len() > 0 {
            out.push(Vec::new());
        }
        let mut header: Vec<char> = Vec::new();
        append_str(&mut header, "=== TypeScript errors: ");
        let d = crate::text::decimal_exec(es.len());
        append(&mut header, &d);
        append_str(&mut header, " total, ");
        let d2 = crate::text::decimal_exec(codes.len());
        append(&mut header, &d2);
        append_str(&mut header, " unique codes ===");
        out.push(header);
        let ghost mid = views(out@);
        proof {
            let h = "=== TypeScript errors: "@ + crate::text::decimal(ev.len()) + " total, "@
                + crate::text::decimal(distinct_codes(ev).len()) + " unique codes ==="@;
            assert(mid =~= (if ov.len() > 0 {
                ov.push(Seq::<char>::empty())
            } else {
                ov
            }).push(h));
        }
        group_report(&es, &codes, &counts, "errors", &mut out);
    }
    join_lines_trimmed(&out)
}

// ---------- ruff ----------

pub const RUFF_LINE_PARSE: &'static str = r"^([^:\s]+\.py):(\d+):(\d+):\s+([A-Z]+\d+)\s+(.+)$";

/// The (code, item) of a raw ruff violation line.
pub open spec fn ruff_entry(raw: Seq<char>) -> Option<(Seq<char>, Seq<char>)> {
    let line = trim_end(raw);
    if line.len() == 0 {
        None
    } else {
        match regex_captures(RUFF_LINE_PARSE@, line) {
            Some(c) => Some((group_text(c, 4), diag_item(c))),
            None => None,
        }
    }
}

/// A raw ruff line that is not a violation, kept as it is.
pub open spec fn ruff_other(raw: Seq<char>) -> Option<Seq<char>> {
    let line = trim_end(raw);
    if line.len() == 0 || regex_captures(RUFF_LINE_PARSE@, line) is Some {
        None
    } else {
        Some(line)
    }
}

/// The ruff digest: the violations grouped by rule, then the other lines.
pub open spec fn digest_ruff_spec(text: Seq<char>) -> Seq<char> {
    let ls = lines(strip_ansi(text));
    let es = filter_map(ls, |r: Seq<char>| ruff_entry(r));
    let other = filter_map(ls, |r: Seq<char>| ruff_other(r));
    let head = if es.len() > 0 {
        let codes = distinct_codes(es);
        seq![
            "=== ruff: "@ + crate::text::decimal(es.len()) + " violations, "@
                + crate::text::decimal(codes.len()) + " unique rules ==="@,
        ] + render_groups(by_count(codes, es), es, "violations"@)
    } else {
        Seq::<Seq<char>>::empty()
    };
    trim(join(head + other, seq!['\n']))
}

/// Groups ruff violations by rule code.
pub fn digest_ruff(text: &str) -> (out: String)
    ensures
        out@ == digest_ruff_spec(text@),
{
    let ghost ls = lines(strip_ansi(text@));
    let all = plain_lines(text);
    let parse = Pattern::new(RUFF_LINE_PARSE);
    let mut es: Vec<(Vec<char>, Vec<char>)> = Vec::new();
    let mut other: Vec<Vec<char>> = Vec::new();
    let mut i: usize = 0;
    assert(views(other@) =~= Seq::<Seq<char>>::empty());
    assert(entry_views(es@) =~= Seq::<(Seq<char>, Seq<char>)>::empty());
    while i < all.len()
        invariant
            parse@ == RUFF_LINE_PARSE@,
            i <= all@.len(),
            views(all@) == ls,
            entry_views(es@) == filter_map(ls.take(i as int), |r: Seq<char>| ruff_entry(r)),
            views(other@) == filter_map(ls.take(i as int), |r: Seq<char>| ruff_other(r)),
            es@.len() <= i,
        decreases all@.len() - i,
    {
        assert(ls.take(i + 1).drop_last() =~= ls.take(i as int));
        assert(ls.take(i + 1).last() == all@[i as int]@);
        let line = trim_end_chars(&all[i]);
        if line.len() > 0 {
            let s = chars_to_string(&line);
            match captures_chars(&parse, s.as_str()) {
                Some(c) => {
                    let code = group_text_exec(&c, 4);
                    let item = diag_item_exec(&c);
                    es.push((code, item));
                },
                None => {
                    other.push(line);
                },
            }
        }
        i = i + 1;
        assert(entry_views(es@) =~= filter_map(ls.take(i as int), |r: Seq<char>| ruff_entry(r)));
        assert(views(other@) =~= filter_map(ls.take(i as int), |r: Seq<char>| ruff_other(r)));
    }
    assert(ls.take(i as int) =~= ls);
    let ghost ev = entry_views(es@);
    let ghost ov = views(other@);
    let mut out: Vec<Vec<char>> = Vec::new();
    if es.len() > 0 {
        let (codes, counts) = distinct_codes_exec(&es);
        let mut header: Vec<char> = Vec::new();
        append_str(&mut header, "=== ruff: ");
        let d = crate::text::decimal_exec(es.len());
        append(&mut header, &d);
        append_str(&mut header, " violations, ");
        let d2 = crate::text::decimal_exec(codes.len());
        append(&mut header, &d2);
        append_str(&mut header, " unique rules ===");
        out.push(header);
        group_report(&es, &codes, &counts, "violations", &mut out);
    }
    let ghost h = views(out@);
    out.append(&mut other);
    assert(views(out@) =~= h + ov);
    proof {
        let head = if ev.len() > 0 {
            let codes = distinct_codes(ev);
            seq![
                "=== ruff: "@ + crate::text::decimal(ev.len()) + " violations, "@
                    + crate::text::decimal(codes.len()) + " unique rules ==="@,
            ] + render_groups(by_count(codes, ev), ev, "violations"@)
        } else {
            Seq::<Seq<char>>::empty()
        };
        assert(h =~= head);
    }
    join_lines_trimmed(&out)
}

// ---------- pnpm / npm / yarn ----------

pub const PNPM_PROGRESS: [&'static str; 8] = [
    r"^Progress:",
    r"^Already up to date",
    r"^Lockfile is up to date",
    r"^Packages: ",
    r"^[\+\-]{2,}\s*$",
    r"^node_modules/\.pnpm",
    r"^Resolving:",
    r"^Fetched\s",
];
pub const PNPM_BANNER: [&'static str; 3] = [r"^\s*╭", r"^\s*│", r"^\s*╰"];
pub const PNPM_DEPRECATED: &'static str = r"^(?:npm\s+)?warn\s+deprecated\s+(\S+)";

/// A pnpm line (trailing whitespace removed) that is dropped outright.
pub open spec fn pnpm_noise(line: Seq<char>) -> bool {
    trim(line).len() == 0 || any_match(sources(PNPM_BANNER@), line) || any_match(
        sources(PNPM_PROGRESS@),
        line,
    )
}

/// The deprecated package a raw pnpm line warns about, as a (name, "") entry.
pub open spec fn pnpm_dep(raw: Seq<char>) -> Option<(Seq<char>, Seq<char>)> {
    let line = trim_end(raw);
    if pnpm_noise(line) {
        None
    } else {
        match regex_captures(PNPM_DEPRECATED@, line) {
            Some(c) => Some((group_text(c, 1), Seq::<char>::empty())),
            None => None,
        }
    }
}

/// The text a raw pnpm line keeps in the digest, if any.
pub open spec fn pnpm_kept(raw: Seq<char>) -> Option<Seq<char>> {
    let line = trim_end(raw);
    if pnpm_noise(line) || regex_captures(PNPM_DEPRECATED@, line) is Some {
        None
    } else {
        Some(line)
    }
}

/// How many of `names` sort before `x`.
pub open spec fn count_lt(names: Seq<Seq<char>>, x: Seq<char>) -> nat
    decreases names.len(),
{
    if names.len() == 0 {
        0
    } else {
        count_lt(names.drop_last(), x) + if crate::text::lex_lt(names.last(), x) {
            1nat
        } else {
            0nat
        }
    }
}

/// `names` in string order (an insertion sort; `names` has no duplicates).
pub open spec fn lex_sorted(names: Seq<Seq<char>>) -> Seq<Seq<char>>
    decreases names.len(),
{
    if names.len() == 0 {
        Seq::<Seq<char>>::empty()
    } else {
        let p = lex_sorted(names.drop_last());
        p.insert(count_lt(p, names.last()) as int, names.last())
    }
}

pub proof fn lemma_count_lt_le(names: Seq<Seq<char>>, x: Seq<char>)
    ensures
        count_lt(names, x) <= names.len(),
    decreases names.len(),
{
    if names.len() > 0 {
        lemma_count_lt_le(names.drop_last(), x);
    }
}

/// One listed deprecation: the name, and `xN` when it was seen more than once.
pub open spec fn pnpm_item(name: Seq<char>, n: nat) -> Seq<char> {
    if n > 1 {
        "  "@ + name + " x"@ + crate::text::decimal(n)
    } else {
        "  "@ + name
    }
}

/// The listed deprecations of the first `k` sorted names.
pub open spec fn pnpm_items(sorted: Seq<Seq<char>>, es: Seq<(Seq<char>, Seq<char>)>) -> Seq<
    Seq<char>,
>
    decreases sorted.len(),
{
    if sorted.len() == 0 {
        Seq::<Seq<char>>::empty()
    } else {
        pnpm_items(sorted.drop_last(), es).push(
            pnpm_item(sorted.last(), items_of(es, sorted.last()).len()),
        )
    }
}

/// The pnpm digest: the kept lines, then a summary of the deprecated
/// packages (at most five listed, in name order).
pub open spec fn digest_pnpm_spec(text: Seq<char>) -> Seq<char> {
    let ls = lines(strip_ansi(text));
    let kept = filter_map(ls, |r: Seq<char>| pnpm_kept(r));
    let es = filter_map(ls, |r: Seq<char>| pnpm_dep(r));
    let out = if es.len() > 0 {
        let names = distinct_codes(es);
        let sorted = lex_sorted(names);
        kept + seq![
            Seq::<char>::empty(),
            "-- deprecated packages: "@ + crate::text::decimal(names.len()) + " unique --"@,
        ] + pnpm_items(sorted.take(if sorted.len() < 5 { sorted.len() as int } else { 5 }), es)
            + if sorted.len() > 5 {
            seq!["  ... +"@ + crate::text::decimal((sorted.len() - 5) as nat) + " more"@]
        } else {
            Seq::<Seq<char>>::empty()
        }
    } else {
        kept
    };
    trim(join(out, seq!['\n']))
}

/// `names` in string order, each with its count.
fn lex_sorted_exec(
    es: &Vec<(Vec<char>, Vec<char>)>,
    names: &Vec<Vec<char>>,
    counts: &Vec<usize>,
) -> (r: (Vec<Vec<char>>, Vec<usize>))
    requires
        counts@.len() == names@.len(),
        forall|k: int|
            0 <= k < counts@.len() ==> #[trigger] counts@[k] == items_of(
                entry_views(es@),
                names@[k]@,
            ).len(),
    ensures
        views(r.0@) == lex_sorted(views(names@)),
        r.1@.len() == r.0@.len(),
        forall|k: int|
            0 <= k < r.1@.len() ==> #[trigger] r.1@[k] == items_of(entry_views(es@), r.0@[k]@).len(),
{
    let ghost ev = entry_views(es@);
    let ghost nv = views(names@);
    let mut sorted: Vec<Vec<char>> = Vec::new();
    let mut scounts: Vec<usize> = Vec::new();
    let mut j: usize = 0;
    assert(views(sorted@) =~= Seq::<Seq<char>>::empty());
    while j < names.len()
        invariant
            j <= names@.len(),
            counts@.len() == names@.len(),
            ev == entry_views(es@),
            nv == views(names@),
            forall|k: int|
                0 <= k < counts@.len() ==> #[trigger] counts@[k] == items_of(ev, names@[k]@).len(),
            views(sorted@) == lex_sorted(nv.take(j as int)),
            scounts@.len() == sorted@.len(),
            forall|k: int|
                0 <= k < scounts@.len() ==> #[trigger] scounts@[k] == items_of(ev, sorted@[k]@).len(),
        decreases names@.len() - j,
    {
        let ghost p = views(sorted@);
        assert(nv.take(j + 1).drop_last() =~= nv.take(j as int));
        assert(nv.take(j + 1).last() == names@[j as int]@);
        let mut pos: usize = 0;
        let mut k: usize = 0;
        while k < sorted.len()
            invariant
                j < names@.len(),
                k <= sorted@.len(),
                p == views(sorted@),
                pos <= k,
                pos == count_lt(p.take(k as int), names@[j as int]@),
            decreases sorted@.len() - k,
        {
            assert(p.take(k + 1).drop_last() =~= p.take(k as int));
            assert(p.take(k + 1).last() == sorted@[k as int]@);
            if crate::text::lex_lt_exec(&sorted[k], &names[j]) {
                pos = pos + 1;
            }
            k = k + 1;
        }
        assert(p.take(k as int) =~= p);
        let copy = crate::text::slice(&names[j], 0, names[j].len());
        assert(copy@ =~= names@[j as int]@);
        let ghost old_sorted = sorted@;
        let ghost old_counts = scounts@;
        sorted.insert(pos, copy);
        scounts.insert(pos, counts[j]);
        assert(views(sorted@) =~= p.insert(pos as int, names@[j as int]@));
        assert forall|q: int| 0 <= q < scounts@.len() implies #[trigger] scounts@[q] == items_of(
            ev,
            sorted@[q]@,
        ).len() by {
            if q < pos {
                assert(scounts@[q] == old_counts[q] && sorted@[q] == old_sorted[q]);
            } else if q == pos {
                assert(scounts@[q] == counts@[j as int] && sorted@[q]@ == names@[j as int]@);
            } else {
                assert(scounts@[q] == old_counts[q - 1] && sorted@[q] == old_sorted[q - 1]);
            }
        }
        j = j + 1;
    }
    assert(nv.take(j as int) =~= nv);
    (sorted, scounts)
}

/// Collapses install progress and summarises deprecation warnings.
pub fn digest_pnpm(text: &str) -> (out: String)
    ensures
        out@ == digest_pnpm_spec(text@),
{
    let ghost ls = lines(strip_ansi(text@));
    let all = plain_lines(text);
    let progress = compile_all(&PNPM_PROGRESS);
    let banner = compile_all(&PNPM_BANNER);
    let dep = Pattern::new(PNPM_DEPRECATED);
    let mut es: Vec<(Vec<char>, Vec<char>)> = Vec::new();
    let mut kept: Vec<Vec<char>> = Vec::new();
    let mut i: usize = 0;
    assert(views(kept@) =~= Seq::<Seq<char>>::empty());
    assert(entry_views(es@) =~= Seq::<(Seq<char>, Seq<char>)>::empty());
    while i < all.len()
        invariant
            pattern_views(progress@) == sources(PNPM_PROGRESS@),
            pattern_views(banner@) == sources(PNPM_BANNER@),
            dep@ == PNPM_DEPRECATED@,
            i <= all@.len(),
            views(all@) == ls,
            entry_views(es@) == filter_map(ls.take(i as int), |r: Seq<char>| pnpm_dep(r)),
            views(kept@) == filter_map(ls.take(i as int), |r: Seq<char>| pnpm_kept(r)),
            es@.len() <= i,
        decreases all@.len() - i,
    {
        assert(ls.take(i + 1).drop_last() =~= ls.take(i as int));
        assert(ls.take(i + 1).last() == all@[i as int]@);
        let line = trim_end_chars(&all[i]);
        let t = trim_chars(&line);
        let s = chars_to_string(&line);
        if t.len() == 0 || any_is_match(&banner, s.as_str()) || any_is_match(&progress, s.as_str()) {
        } else {
            match captures_chars(&dep, s.as_str()) {
                Some(c) => {
                    let name = group_text_exec(&c, 1);
                    es.push((name, Vec::new()));
                },
                None => {
                    kept.push(line);
                },
            }
        }
        i = i + 1;
        assert(entry_views(es@) =~= filter_map(ls.take(i as int), |r: Seq<char>| pnpm_dep(r)));
        assert(views(kept@) =~= filter_map(ls.take(i as int), |r: Seq<char>| pnpm_kept(r)));
    }
    assert(ls.take(i as int) =~= ls);
    let ghost ev = entry_views(es@);
    let ghost kv = views(kept@);
    let mut out = kept;
    if es.len() > 0 {
        let (names, counts) = distinct_codes_exec(&es);
        let (sorted, scounts) = lex_sorted_exec(&es, &names, &counts);
        let ghost sv = views(sorted@);
        out.push(Vec::new());
        let mut header: Vec<char> = Vec::new();
        append_str(&mut header, "-- deprecated packages: ");
        let d = crate::text::decimal_exec(names.len());
        append(&mut header, &d);
        append_str(&mut header, " unique --");
        out.push(header);
        let ghost mid = views(out@);
        proof {
            lemma_lex_sorted_len(views(names@));
        }
        let shown = if sorted.len() < 5 {
            sorted.len()
        } else {
            5
        };
        let mut k: usize = 0;
        while k < shown
            invariant
                k <= shown <= sorted@.len(),
                sv == views(sorted@),
                scounts@.len() == sorted@.len(),
                forall|q: int|
                    0 <= q < scounts@.len() ==> #[trigger] scounts@[q] == items_of(
                        ev,
                        sorted@[q]@,
                    ).len(),
                views(out@) == mid + pnpm_items(sv.take(k as int), ev),
            decreases shown - k,
        {
            assert(sv.take(k + 1).drop_last() =~= sv.take(k as int));
            assert(sv.take(k + 1).last() == sorted@[k as int]@);
            let mut item: Vec<char> = Vec::new();
            append_str(&mut item, "  ");
            append(&mut item, &sorted[k]);
            if scounts[k] > 1 {
                append_str(&mut item, " x");
                let d = crate::text::decimal_exec(scounts[k]);
                append(&mut item, &d);
            }
            assert(item@ =~= pnpm_item(sv[k as int], items_of(ev, sv[k as int]).len()));
            let ghost before = views(out@);
            out.push(item);
            assert(views(out@) =~= before.push(
                pnpm_item(sv[k as int], items_of(ev, sv[k as int]).len()),
            ));
            k = k + 1;
            assert(views(out@) =~= mid + pnpm_items(sv.take(k as int), ev));
        }
        let ghost body = views(out@);
        if sorted.len() > 5 {
            let mut more: Vec<char> = Vec::new();
            append_str(&mut more, "  ... +");
            let d = crate::text::decimal_exec(sorted.len() - 5);
            append(&mut more, &d);
            append_str(&mut more, " more");
            assert(more@ =~= "  ... +"@ + crate::text::decimal((sv.len() - 5) as nat) + " more"@);
            out.push(more);
        }
        proof {
            let tail = if sv.len() > 5 {
                seq!["  ... +"@ + crate::text::decimal((sv.len() - 5) as nat) + " more"@]
            } else {
                Seq::<Seq<char>>::empty()
            };
            assert(views(out@) =~= body + tail);
            assert(sv == lex_sorted(distinct_codes(ev)));
            let names_v = distinct_codes(ev);
            assert(mid =~= kv + seq![
                Seq::<char>::empty(),
                "-- deprecated packages: "@ + crate::text::decimal(names_v.len()) + " unique --"@,
            ]);
        }
    }
    join_lines_trimmed(&out)
}

proof fn lemma_lex_sorted_len(names: Seq<Seq<char>>)
    ensures
        lex_sorted(names).len() == names.len(),
    decreases names.len(),
{
    if names.len() > 0 {
        lemma_lex_sorted_len(names.drop_last());
        lemma_count_lt_le(lex_sorted(names.drop_last()), names.last());
    }
}

// ---------- dispatch ----------

/// The digest of `text` read as output of `fmt`; unknown output only loses
/// its trailing whitespace.
pub open spec fn digest_spec(text: Seq<char>, fmt: Format) -> Seq<char> {
    match fmt {
        Format::Cargo => digest_cargo_spec(text),
        Format::Pnpm => digest_pnpm_spec(text),
        Format::Tsc => digest_tsc_spec(text),
        Format::Pytest => digest_pytest_spec(text),
        Format::Ci => digest_ci_spec(text),
        Format::GoTest => digest_go_test_spec(text),
        Format::Gradle => digest_gradle_spec(text),
        Format::Ruff => digest_ruff_spec(text),
        Format::Mypy => digest_mypy_spec(text),
        Format::Compiler => digest_compiler_spec(text),
        Format::Unknown => trim_end(text),
    }
}

/// Compresses `text` with the handler of `fmt`.
pub fn digest(text: &str, fmt: Format) -> (out: String)
    ensures
        out@ == digest_spec(text@, fmt),
{
    match fmt {
        Format::Cargo => digest_cargo(text),
        Format::Pnpm => digest_pnpm(text),
        Format::Tsc => digest_tsc(text),
        Format::Pytest => digest_pytest(text),
        Format::Ci => digest_ci(text),
        Format::GoTest => digest_go_test(text),
        Format::Gradle => digest_gradle(text),
        Format::Ruff => digest_ruff(text),
        Format::Mypy => digest_mypy(text),
        Format::Compiler => digest_compiler(text),
        Format::Unknown => {
            let c = str_to_chars(text);
            let t = trim_end_chars(&c);
            chars_to_string(&t)
        },
    }
}

/// Every format but `Unknown` is among the formats its own canonical name
/// (`as_str`) names, so parsing the lower-case canonical name gives it back.
pub proof fn lemma_canonical_name_names_format(f: Format)
    requires
        f != Format::Unknown,
    ensures
        format_named(format_name(f)) == Some(f),
{
    match f {
        Format::Cargo => {

        },
        Format::Pnpm => {
            reveal_strlit("pnpm");
            reveal_strlit("cargo");
            assert("pnpm"@.len() == 4);
            assert("cargo"@.len() == 5);
            assert("pnpm"@ != "cargo"@);
            reveal_strlit("pnpm");
            reveal_strlit("rust");
            assert("pnpm"@[0] == 'p');
            assert("rust"@[0] == 'r');
            assert("pnpm"@ != "rust"@);
        },
        Format::Tsc => {
            reveal_strlit("tsc");
            reveal_strlit("cargo");
            assert("tsc"@.len() == 3);
            assert("cargo"@.len() == 5);
            assert("tsc"@ != "cargo"@);
            reveal_strlit("tsc");
            reveal_strlit("rust");
            assert("tsc"@.len() == 3);
            assert("rust"@.len() == 4);
            assert("tsc"@ != "rust"@);
            reveal_strlit("tsc");
            reveal_strlit("pnpm");
            assert("tsc"@.len() == 3);
            assert("pnpm"@.len() == 4);
            assert("tsc"@ != "pnpm"@);
            reveal_strlit("tsc");
            reveal_strlit("npm");
            assert("tsc"@[0] == 't');
            assert("npm"@[0] == 'n');
            assert("tsc"@ != "npm"@);
            reveal_strlit("tsc");
            reveal_strlit("yarn");
            assert("tsc"@.len() == 3);
            assert("yarn"@.len() == 4);
            assert("tsc"@ != "yarn"@);
            reveal_strlit("tsc");
            reveal_strlit("node");
            assert("tsc"@.len() == 3);
            assert("node"@.len() == 4);
            assert("tsc"@ != "node"@);
            reveal_strlit("tsc");
            reveal_strlit("bun");
            assert("tsc"@[0] == 't');
            assert("bun"@[0] == 'b');
            assert("tsc"@ != "bun"@);
        },
        Format::Pytest => {
            reveal_strlit("pytest");
            reveal_strlit("cargo");
            assert("pytest"@.len() == 6);
            assert("cargo"@.len() == 5);
            assert("pytest"@ != "cargo"@);
            reveal_strlit("pytest");
            reveal_strlit("rust");
            assert("pytest"@.len() == 6);
            assert("rust"@.len() == 4);
            assert("pytest"@ != "rust"@);
            reveal_strlit("pytest");
            reveal_strlit("pnpm");
            assert("pytest"@.len() == 6);
            assert("pnpm"@.len() == 4);
            assert("pytest"@ != "pnpm"@);
            reveal_strlit("pytest");
            reveal_strlit("npm");
            assert("pytest"@.len() == 6);
            assert("npm"@.len() == 3);
            assert("pytest"@ != "npm"@);
            reveal_strlit("pytest");
            reveal_strlit("yarn");
            assert("pytest"@.len() == 6);
            assert("yarn"@.len() == 4);
            assert("pytest"@ != "yarn"@);
            reveal_strlit("pytest");
            reveal_strlit("node");
            assert("pytest"@.len() == 6);
            assert("node"@.len() == 4);
            assert("pytest"@ != "node"@);
            reveal_strlit("pytest");
            reveal_strlit("bun");
            assert("pytest"@.len() == 6);
            assert("bun"@.len() == 3);
            assert("pytest"@ != "bun"@);
            reveal_strlit("pytest");
            reveal_strlit("tsc");
            assert("pytest"@.len() == 6);
            assert("tsc"@.len() == 3);
            assert("pytest"@ != "tsc"@);
            reveal_strlit("pytest");
            reveal_strlit("typescript");
            assert("pytest"@.len() == 6);
            assert("typescript"@.len() == 10);
            assert("pytest"@ != "typescript"@);
        },
        Format::Ci => {
            reveal_strlit("ci");
            reveal_strlit("cargo");
            assert("ci"@.len() == 2);
            assert("cargo"@.len() == 5);
            assert("ci"@ != "cargo"@);
            reveal_strlit("ci");
            reveal_strlit("rust");
            assert("ci"@.len() == 2);
            assert("rust"@.len() == 4);
            assert("ci"@ != "rust"@);
            reveal_strlit("ci");
            reveal_strlit("pnpm");
            assert("ci"@.len() == 2);
            assert("pnpm"@.len() == 4);
            assert("ci"@ != "pnpm"@);
            reveal_strlit("ci");
            reveal_strlit("npm");
            assert("ci"@.len() == 2);
            assert("npm"@.len() == 3);
            assert("ci"@ != "npm"@);
            reveal_strlit("ci");
            reveal_strlit("yarn");
            assert("ci"@.len() == 2);
            assert("yarn"@.len() == 4);
            assert("ci"@ != "yarn"@);
            reveal_strlit("ci");
            reveal_strlit("node");
            assert("ci"@.len() == 2);
            assert("node"@.len() == 4);
            assert("ci"@ != "node"@);
            reveal_strlit("ci");
            reveal_strlit("bun");
            assert("ci"@.len() == 2);
            assert("bun"@.len() == 3);
            assert("ci"@ != "bun"@);
            reveal_strlit("ci");
            reveal_strlit("tsc");
            assert("ci"@.len() == 2);
            assert("tsc"@.len() == 3);
            assert("ci"@ != "tsc"@);
            reveal_strlit("ci");
            reveal_strlit("typescript");
            assert("ci"@.len() == 2);
            assert("typescript"@.len() == 10);
            assert("ci"@ != "typescript"@);
            reveal_strlit("ci");
            reveal_strlit("pytest");
            assert("ci"@.len() == 2);
            assert("pytest"@.len() == 6);
            assert("ci"@ != "pytest"@);
            reveal_strlit("ci");
            reveal_strlit("python");
            assert("ci"@.len() == 2);
            assert("python"@.len() == 6);
            assert("ci"@ != "python"@);
        },
        Format::GoTest => {
            reveal_strlit("go");
            reveal_strlit("cargo");
            assert("go"@.len() == 2);
            assert("cargo"@.len() == 5);
            assert("go"@ != "cargo"@);
            reveal_strlit("go");
            reveal_strlit("rust");
            assert("go"@.len() == 2);
            assert("rust"@.len() == 4);
            assert("go"@ != "rust"@);
            reveal_strlit("go");
            reveal_strlit("pnpm");
            assert("go"@.len() == 2);
            assert("pnpm"@.len() == 4);
            assert("go"@ != "pnpm"@);
            reveal_strlit("go");
            reveal_strlit("npm");
            assert("go"@.len() == 2);
            assert("npm"@.len() == 3);
            assert("go"@ != "npm"@);
            reveal_strlit("go");
            reveal_strlit("yarn");
            assert("go"@.len() == 2);
            assert("yarn"@.len() == 4);
            assert("go"@ != "yarn"@);
            reveal_strlit("go");
            reveal_strlit("node");
            assert("go"@.len() == 2);
            assert("node"@.len() == 4);
            assert("go"@ != "node"@);
            reveal_strlit("go");
            reveal_strlit("bun");
            assert("go"@.len() == 2);
            assert("bun"@.len() == 3);
            assert("go"@ != "bun"@);
            reveal_strlit("go");
            reveal_strlit("tsc");
            assert("go"@.len() == 2);
            assert("tsc"@.len() == 3);
            assert("go"@ != "tsc"@);
            reveal_strlit("go");
            reveal_strlit("typescript");
            assert("go"@.len() == 2);
            assert("typescript"@.len() == 10);
            assert("go"@ != "typescript"@);
            reveal_strlit("go");
            reveal_strlit("pytest");
            assert("go"@.len() == 2);
            assert("pytest"@.len() == 6);
            assert("go"@ != "pytest"@);
            reveal_strlit("go");
            reveal_strlit("python");
            assert("go"@.len() == 2);
            assert("python"@.len() == 6);
            assert("go"@ != "python"@);
            reveal_strlit("go");
            reveal_strlit("ci");
            assert("go"@[0] == 'g');
            assert("ci"@[0] == 'c');
            assert("go"@ != "ci"@);
            reveal_strlit("go");
            reveal_strlit("gha");
            assert("go"@.len() == 2);
            assert("gha"@.len() == 3);
            assert("go"@ != "gha"@);
            reveal_strlit("go");
            reveal_strlit("github-actions");
            assert("go"@.len() == 2);
            assert("github-actions"@.len() == 14);
            assert("go"@ != "github-actions"@);
            reveal_strlit("go");
            reveal_strlit("actions");
            assert("go"@.len() == 2);
            assert("actions"@.len() == 7);
            assert("go"@ != "actions"@);
        },
        Format::Gradle => {
            reveal_strlit("gradle");
            reveal_strlit("cargo");
            assert("gradle"@.len() == 6);
            assert("cargo"@.len() == 5);
            assert("gradle"@ != "cargo"@);
            reveal_strlit("gradle");
            reveal_strlit("rust");
            assert("gradle"@.len() == 6);
            assert("rust"@.len() == 4);
            assert("gradle"@ != "rust"@);
            reveal_strlit("gradle");
            reveal_strlit("pnpm");
            assert("gradle"@.len() == 6);
            assert("pnpm"@.len() == 4);
            assert("gradle"@ != "pnpm"@);
            reveal_strlit("gradle");
            reveal_strlit("npm");
            assert("gradle"@.len() == 6);
            assert("npm"@.len() == 3);
            assert("gradle"@ != "npm"@);
            reveal_strlit("gradle");
            reveal_strlit("yarn");
            assert("gradle"@.len() == 6);
            assert("yarn"@.len() == 4);
            assert("gradle"@ != "yarn"@);
            reveal_strlit("gradle");
            reveal_strlit("node");
            assert("gradle"@.len() == 6);
            assert("node"@.len() == 4);
            assert("gradle"@ != "node"@);
            reveal_strlit("gradle");
            reveal_strlit("bun");
            assert("gradle"@.len() == 6);
            assert("bun"@.len() == 3);
            assert("gradle"@ != "bun"@);
            reveal_strlit("gradle");
            reveal_strlit("tsc");
            assert("gradle"@.len() == 6);
            assert("tsc"@.len() == 3);
            assert("gradle"@ != "tsc"@);
            reveal_strlit("gradle");
            reveal_strlit("typescript");
            assert("gradle"@.len() == 6);
            assert("typescript"@.len() == 10);
            assert("gradle"@ != "typescript"@);
            reveal_strlit("gradle");
            reveal_strlit("pytest");
            assert("gradle"@[0] == 'g');
            assert("pytest"@[0] == 'p');
            assert("gradle"@ != "pytest"@);
            reveal_strlit("gradle");
            reveal_strlit("python");
            assert("gradle"@[0] == 'g');
            assert("python"@[0] == 'p');
            assert("gradle"@ != "python"@);
            reveal_strlit("gradle");
            reveal_strlit("ci");
            assert("gradle"@.len() == 6);
            assert("ci"@.len() == 2);
            assert("gradle"@ != "ci"@);
            reveal_strlit("gradle");
            reveal_strlit("gha");
            assert("gradle"@.len() == 6);
            assert("gha"@.len() == 3);
            assert("gradle"@ != "gha"@);
            reveal_strlit("gradle");
            reveal_strlit("github-actions");
            assert("gradle"@.len() == 6);
            assert("github-actions"@.len() == 14);
            assert("gradle"@ != "github-actions"@);
            reveal_strlit("gradle");
            reveal_strlit("actions");
            assert("gradle"@.len() == 6);
            assert("actions"@.len() == 7);
            assert("gradle"@ != "actions"@);
            reveal_strlit("gradle");
            reveal_strlit("go");
            assert("gradle"@.len() == 6);
            assert("go"@.len() == 2);
            assert("gradle"@ != "go"@);
            reveal_strlit("gradle");
            reveal_strlit("gotest");
            assert("gradle"@[1] == 'r');
            assert("gotest"@[1] == 'o');
            assert("gradle"@ != "gotest"@);
            reveal_strlit("gradle");
            reveal_strlit("go-test");
            assert("gradle"@.len() == 6);
            assert("go-test"@.len() == 7);
            assert("gradle"@ != "go-test"@);
        },
        Format::Ruff => {
            reveal_strlit("ruff");
            reveal_strlit("cargo");
            assert("ruff"@.len() == 4);
            assert("cargo"@.len() == 5);
            assert("ruff"@ != "cargo"@);
            reveal_strlit("ruff");
            reveal_strlit("rust");
            assert("ruff"@[2] == 'f');
            assert("rust"@[2] == 's');
            assert("ruff"@ != "rust"@);
            reveal_strlit("ruff");
            reveal_strlit("pnpm");
            assert("ruff"@[0] == 'r');
            assert("pnpm"@[0] == 'p');
            assert("ruff"@ != "pnpm"@);
            reveal_strlit("ruff");
            reveal_strlit("npm");
            assert("ruff"@.len() == 4);
            assert("npm"@.len() == 3);
            assert("ruff"@ != "npm"@);
            reveal_strlit("ruff");
            reveal_strlit("yarn");
            assert("ruff"@[0] == 'r');
            assert("yarn"@[0] == 'y');
            assert("ruff"@ != "yarn"@);
            reveal_strlit("ruff");
            reveal_strlit("node");
            assert("ruff"@[0] == 'r');
            assert("node"@[0] == 'n');
            assert("ruff"@ != "node"@);
            reveal_strlit("ruff");
            reveal_strlit("bun");
            assert("ruff"@.len() == 4);
            assert("bun"@.len() == 3);
            assert("ruff"@ != "bun"@);
            reveal_strlit("ruff");
            reveal_strlit("tsc");
            assert("ruff"@.len() == 4);
            assert("tsc"@.len() == 3);
            assert("ruff"@ != "tsc"@);
            reveal_strlit("ruff");
            reveal_strlit("typescript");
            assert("ruff"@.len() == 4);
            assert("typescript"@.len() == 10);
            assert("ruff"@ != "typescript"@);
            reveal_strlit("ruff");
            reveal_strlit("pytest");
            assert("ruff"@.len() == 4);
            assert("pytest"@.len() == 6);
            assert("ruff"@ != "pytest"@);
            reveal_strlit("ruff");
            reveal_strlit("python");
            assert("ruff"@.len() == 4);
            assert("python"@.len() == 6);
            assert("ruff"@ != "python"@);
            reveal_strlit("ruff");
            reveal_strlit("ci");
            assert("ruff"@.len() == 4);
            assert("ci"@.len() == 2);
            assert("ruff"@ != "ci"@);
            reveal_strlit("ruff");
            reveal_strlit("gha");
            assert("ruff"@.len() == 4);
            assert("gha"@.len() == 3);
            assert("ruff"@ != "gha"@);
            reveal_strlit("ruff");
            reveal_strlit("github-actions");
            assert("ruff"@.len() == 4);
            assert("github-actions"@.len() == 14);
            assert("ruff"@ != "github-actions"@);
            reveal_strlit("ruff");
            reveal_strlit("actions");
            assert("ruff"@.len() == 4);
            assert("actions"@.len() == 7);
            assert("ruff"@ != "actions"@);
            reveal_strlit("ruff");
            reveal_strlit("go");
            assert("ruff"@.len() == 4);
            assert("go"@.len() == 2);
            assert("ruff"@ != "go"@);
            reveal_strlit("ruff");
            reveal_strlit("gotest");
            assert("ruff"@.len() == 4);
            assert("gotest"@.len() == 6);
            assert("ruff"@ != "gotest"@);
            reveal_strlit("ruff");
            reveal_strlit("go-test");
            assert("ruff"@.len() == 4);
            assert("go-test"@.len() == 7);
            assert("ruff"@ != "go-test"@);
            reveal_strlit("ruff");
            reveal_strlit("gradle");
            assert("ruff"@.len() == 4);
            assert("gradle"@.len() == 6);
            assert("ruff"@ != "gradle"@);
        },
        Format::Mypy => {
            reveal_strlit("mypy");
            reveal_strlit("cargo");
            assert("mypy"@.len() == 4);
            assert("cargo"@.len() == 5);
            assert("mypy"@ != "cargo"@);
            reveal_strlit("mypy");
            reveal_strlit("rust");
            assert("mypy"@[0] == 'm');
            assert("rust"@[0] == 'r');
            assert("mypy"@ != "rust"@);
            reveal_strlit("mypy");
            reveal_strlit("pnpm");
            assert("mypy"@[0] == 'm');
            assert("pnpm"@[0] == 'p');
            assert("mypy"@ != "pnpm"@);
            reveal_strlit("mypy");
            reveal_strlit("npm");
            assert("mypy"@.len() == 4);
            assert("npm"@.len() == 3);
            assert("mypy"@ != "npm"@);
            reveal_strlit("mypy");
            reveal_strlit("yarn");
            assert("mypy"@[0] == 'm');
            assert("yarn"@[0] == 'y');
            assert("mypy"@ != "yarn"@);
            reveal_strlit("mypy");
            reveal_strlit("node");
            assert("mypy"@[0] == 'm');
            assert("node"@[0] == 'n');
            assert("mypy"@ != "node"@);
            reveal_strlit("mypy");
            reveal_strlit("bun");
            assert("mypy"@.len() == 4);
            assert("bun"@.len() == 3);
            assert("mypy"@ != "bun"@);
            reveal_strlit("mypy");
            reveal_strlit("tsc");
            assert("mypy"@.len() == 4);
            assert("tsc"@.len() == 3);
            assert("mypy"@ != "tsc"@);
            reveal_strlit("mypy");
            reveal_strlit("typescript");
            assert("mypy"@.len() == 4);
            assert("typescript"@.len() == 10);
            assert("mypy"@ != "typescript"@);
            reveal_strlit("mypy");
            reveal_strlit("pytest");
            assert("mypy"@.len() == 4);
            assert("pytest"@.len() == 6);
            assert("mypy"@ != "pytest"@);
            reveal_strlit("mypy");
            reveal_strlit("python");
            assert("mypy"@.len() == 4);
            assert("python"@.len() == 6);
            assert("mypy"@ != "python"@);
            reveal_strlit("mypy");
            reveal_strlit("ci");
            assert("mypy"@.len() == 4);
            assert("ci"@.len() == 2);
            assert("mypy"@ != "ci"@);
            reveal_strlit("mypy");
            reveal_strlit("gha");
            assert("mypy"@.len() == 4);
            assert("gha"@.len() == 3);
            assert("mypy"@ != "gha"@);
            reveal_strlit("mypy");
            reveal_strlit("github-actions");
            assert("mypy"@.len() == 4);
            assert("github-actions"@.len() == 14);
            assert("mypy"@ != "github-actions"@);
            reveal_strlit("mypy");
            reveal_strlit("actions");
            assert("mypy"@.len() == 4);
            assert("actions"@.len() == 7);
            assert("mypy"@ != "actions"@);
            reveal_strlit("mypy");
            reveal_strlit("go");
            assert("mypy"@.len() == 4);
            assert("go"@.len() == 2);
            assert("mypy"@ != "go"@);
            reveal_strlit("mypy");
            reveal_strlit("gotest");
            assert("mypy"@.len() == 4);
            assert("gotest"@.len() == 6);
            assert("mypy"@ != "gotest"@);
            reveal_strlit("mypy");
            reveal_strlit("go-test");
            assert("mypy"@.len() == 4);
            assert("go-test"@.len() == 7);
            assert("mypy"@ != "go-test"@);
            reveal_strlit("mypy");
            reveal_strlit("gradle");
            assert("mypy"@.len() == 4);
            assert("gradle"@.len() == 6);
            assert("mypy"@ != "gradle"@);
            reveal_strlit("mypy");
            reveal_strlit("ruff");
            assert("mypy"@[0] == 'm');
            assert("ruff"@[0] == 'r');
            assert("mypy"@ != "ruff"@);
        },
        Format::Compiler => {
            reveal_strlit("compiler");
            reveal_strlit("cargo");
            assert("compiler"@.len() == 8);
            assert("cargo"@.len() == 5);
            assert("compiler"@ != "cargo"@);
            reveal_strlit("compiler");
            reveal_strlit("rust");
            assert("compiler"@.len() == 8);
            assert("rust"@.len() == 4);
            assert("compiler"@ != "rust"@);
            reveal_strlit("compiler");
            reveal_strlit("pnpm");
            assert("compiler"@.len() == 8);
            assert("pnpm"@.len() == 4);
            assert("compiler"@ != "pnpm"@);
            reveal_strlit("compiler");
            reveal_strlit("npm");
            assert("compiler"@.len() == 8);
            assert("npm"@.len() == 3);
            assert("compiler"@ != "npm"@);
            reveal_strlit("compiler");
            reveal_strlit("yarn");
            assert("compiler"@.len() == 8);
            assert("yarn"@.len() == 4);
            assert("compiler"@ != "yarn"@);
            reveal_strlit("compiler");
            reveal_strlit("node");
            assert("compiler"@.len() == 8);
            assert("node"@.len() == 4);
            assert("compiler"@ != "node"@);
            reveal_strlit("compiler");
            reveal_strlit("bun");
            assert("compiler"@.len() == 8);
            assert("bun"@.len() == 3);
            assert("compiler"@ != "bun"@);
            reveal_strlit("compiler");
            reveal_strlit("tsc");
            assert("compiler"@.len() == 8);
            assert("tsc"@.len() == 3);
            assert("compiler"@ != "tsc"@);
            reveal_strlit("compiler");
            reveal_strlit("typescript");
            assert("compiler"@.len() == 8);
            assert("typescript"@.len() == 10);
            assert("compiler"@ != "typescript"@);
            reveal_strlit("compiler");
            reveal_strlit("pytest");
            assert("compiler"@.len() == 8);
            assert("pytest"@.len() == 6);
            assert("compiler"@ != "pytest"@);
            reveal_strlit("compiler");
            reveal_strlit("python");
            assert("compiler"@.len() == 8);
            assert("python"@.len() == 6);
            assert("compiler"@ != "python"@);
            reveal_strlit("compiler");
            reveal_strlit("ci");
            assert("compiler"@.len() == 8);
            assert("ci"@.len() == 2);
            assert("compiler"@ != "ci"@);
            reveal_strlit("compiler");
            reveal_strlit("gha");
            assert("compiler"@.len() == 8);
            assert("gha"@.len() == 3);
            assert("compiler"@ != "gha"@);
            reveal_strlit("compiler");
            reveal_strlit("github-actions");
            assert("compiler"@.len() == 8);
            assert("github-actions"@.len() == 14);
            assert("compiler"@ != "github-actions"@);
            reveal_strlit("compiler");
            reveal_strlit("actions");
            assert("compiler"@.len() == 8);
            assert("actions"@.len() == 7);
            assert("compiler"@ != "actions"@);
            reveal_strlit("compiler");
            reveal_strlit("go");
            assert("compiler"@.len() == 8);
            assert("go"@.len() == 2);
            assert("compiler"@ != "go"@);
            reveal_strlit("compiler");
            reveal_strlit("gotest");
            assert("compiler"@.len() == 8);
            assert("gotest"@.len() == 6);
            assert("compiler"@ != "gotest"@);
            reveal_strlit("compiler");
            reveal_strlit("go-test");
            assert("compiler"@.len() == 8);
            assert("go-test"@.len() == 7);
            assert("compiler"@ != "go-test"@);
            reveal_strlit("compiler");
            reveal_strlit("gradle");
            assert("compiler"@.len() == 8);
            assert("gradle"@.len() == 6);
            assert("compiler"@ != "gradle"@);
            reveal_strlit("compiler");
            reveal_strlit("ruff");
            assert("compiler"@.len() == 8);
            assert("ruff"@.len() == 4);
            assert("compiler"@ != "ruff"@);
            reveal_strlit("compiler");
            reveal_strlit("mypy");
            assert("compiler"@.len() == 8);
            assert("mypy"@.len() == 4);
            assert("compiler"@ != "mypy"@);
        },
        Format::Unknown => {},
    }
}

/// The name `unknown` names no format.
pub proof fn lemma_unknown_is_not_a_name()
    ensures
        format_named(format_name(Format::Unknown)) is None,
{
    reveal_strlit("unknown");
    reveal_strlit("cargo");
    assert("unknown"@.len() == 7);
    assert("cargo"@.len() == 5);
    assert("unknown"@ != "cargo"@);
    reveal_strlit("unknown");
    reveal_strlit("rust");
    assert("unknown"@.len() == 7);
    assert("rust"@.len() == 4);
    assert("unknown"@ != "rust"@);
    reveal_strlit("unknown");
    reveal_strlit("pnpm");
    assert("unknown"@.len() == 7);
    assert("pnpm"@.len() == 4);
    assert("unknown"@ != "pnpm"@);
    reveal_strlit("unknown");
    reveal_strlit("npm");
    assert("unknown"@.len() == 7);
    assert("npm"@.len() == 3);
    assert("unknown"@ != "npm"@);
    reveal_strlit("unknown");
    reveal_strlit("yarn");
    assert("unknown"@.len() == 7);
    assert("yarn"@.len() == 4);
    assert("unknown"@ != "yarn"@);
    reveal_strlit("unknown");
    reveal_strlit("node");
    assert("unknown"@.len() == 7);
    assert("node"@.len() == 4);
    assert("unknown"@ != "node"@);
    reveal_strlit("unknown");
    reveal_strlit("bun");
    assert("unknown"@.len() == 7);
    assert("bun"@.len() == 3);
    assert("unknown"@ != "bun"@);
    reveal_strlit("unknown");
    reveal_strlit("tsc");
    assert("unknown"@.len() == 7);
    assert("tsc"@.len() == 3);
    assert("unknown"@ != "tsc"@);
    reveal_strlit("unknown");
    reveal_strlit("typescript");
    assert("unknown"@.len() == 7);
    assert("typescript"@.len() == 10);
    assert("unknown"@ != "typescript"@);
    reveal_strlit("unknown");
    reveal_strlit("pytest");
    assert("unknown"@.len() == 7);
    assert("pytest"@.len() == 6);
    assert("unknown"@ != "pytest"@);
    reveal_strlit("unknown");
    reveal_strlit("python");
    assert("unknown"@.len() == 7);
    assert("python"@.len() == 6);
    assert("unknown"@ != "python"@);
    reveal_strlit("unknown");
    reveal_strlit("ci");
    assert("unknown"@.len() == 7);
    assert("ci"@.len() == 2);
    assert("unknown"@ != "ci"@);
    reveal_strlit("unknown");
    reveal_strlit("gha");
    assert("unknown"@.len() == 7);
    assert("gha"@.len() == 3);
    assert("unknown"@ != "gha"@);
    reveal_strlit("unknown");
    reveal_strlit("github-actions");
    assert("unknown"@.len() == 7);
    assert("github-actions"@.len() == 14);
    assert("unknown"@ != "github-actions"@);
    reveal_strlit("unknown");
    reveal_strlit("actions");
    assert("unknown"@[0] == 'u');
    assert("actions"@[0] == 'a');
    assert("unknown"@ != "actions"@);
    reveal_strlit("unknown");
    reveal_strlit("go");
    assert("unknown"@.len() == 7);
    assert("go"@.len() == 2);
    assert("unknown"@ != "go"@);
    reveal_strlit("unknown");
    reveal_strlit("gotest");
    assert("unknown"@.len() == 7);
    assert("gotest"@.len() == 6);
    assert("unknown"@ != "gotest"@);
    reveal_strlit("unknown");
    reveal_strlit("go-test");
    assert("unknown"@[0] == 'u');
    assert("go-test"@[0] == 'g');
    assert("unknown"@ != "go-test"@);
    reveal_strlit("unknown");
    reveal_strlit("gradle");
    assert("unknown"@.len() == 7);
    assert("gradle"@.len() == 6);
    assert("unknown"@ != "gradle"@);
    reveal_strlit("unknown");
    reveal_strlit("ruff");
    assert("unknown"@.len() == 7);
    assert("ruff"@.len() == 4);
    assert("unknown"@ != "ruff"@);
    reveal_strlit("unknown");
    reveal_strlit("mypy");
    assert("unknown"@.len() == 7);
    assert("mypy"@.len() == 4);
    assert("unknown"@ != "mypy"@);
    reveal_strlit("unknown");
    reveal_strlit("compiler");
    assert("unknown"@.len() == 7);
    assert("compiler"@.len() == 8);
    assert("unknown"@ != "compiler"@);
    reveal_strlit("unknown");
    reveal_strlit("clang");
    assert("unknown"@.len() == 7);
    assert("clang"@.len() == 5);
    assert("unknown"@ != "clang"@);
    reveal_strlit("unknown");
    reveal_strlit("gcc");
    assert("unknown"@.len() == 7);
    assert("gcc"@.len() == 3);
    assert("unknown"@ != "gcc"@);
    reveal_strlit("unknown");
    reveal_strlit("cmake");
    assert("unknown"@.len() == 7);
    assert("cmake"@.len() == 5);
    assert("unknown"@ != "cmake"@);
    reveal_strlit("unknown");
    reveal_strlit("make");
    assert("unknown"@.len() == 7);
    assert("make"@.len() == 4);
    assert("unknown"@ != "make"@);
    reveal_strlit("unknown");
    reveal_strlit("swift");
    assert("unknown"@.len() == 7);
    assert("swift"@.len() == 5);
    assert("unknown"@ != "swift"@);
    reveal_strlit("unknown");
    reveal_strlit("swiftc");
    assert("unknown"@.len() == 7);
    assert("swiftc"@.len() == 6);
    assert("unknown"@ != "swiftc"@);
}

proof fn lemma_trimmed(s: Seq<char>, x: Seq<char>)
    requires
        s == trim(x),
    ensures
        trim(s) == s,
{
    crate::text::lemma_trim_idempotent(x);
}

/// Format names are matched regardless of ASCII case: a text and its ASCII
/// upper case name the same format (`Format::parse` gives
/// `format_named(lowercase(ascii_lower(s)))`).
pub proof fn lemma_parse_ignores_ascii_case(s: Seq<char>)
    ensures
        crate::pattern::ascii_lower(crate::pattern::ascii_upper(s)) == crate::pattern::ascii_lower(
            s,
        ),
        format_named(
            crate::pattern::lowercase(crate::pattern::ascii_lower(crate::pattern::ascii_upper(s))),
        ) == format_named(crate::pattern::lowercase(crate::pattern::ascii_lower(s))),
{
    let u = crate::pattern::ascii_upper(s);
    assert(crate::pattern::ascii_lower(u) =~= crate::pattern::ascii_lower(s)) by {
        assert forall|i: int| 0 <= i < s.len() implies crate::pattern::ascii_lower(u)[i]
            == crate::pattern::ascii_lower(s)[i] by {
            let c = s[i];
            assert(u[i] == crate::pattern::ascii_upper_char(c));
        }
    }
}

/// Every handler's digest has no leading or trailing whitespace; only
/// unknown text keeps its leading whitespace.
pub proof fn lemma_digest_trimmed(text: Seq<char>, fmt: Format)
    requires
        fmt != Format::Unknown,
    ensures
        trim(digest_spec(text, fmt)) == digest_spec(text, fmt),
{
    let d = digest_spec(text, fmt);
    assert(exists|x: Seq<char>| d == #[trigger] trim(x));
    let x = choose|x: Seq<char>| d == #[trigger] trim(x);
    lemma_trimmed(d, x);
}

/// A line that a handler keeps shows up, trimmed, in the trimmed join of
/// the digest's lines.
proof fn lemma_kept_line_shows(
    head: Seq<Seq<char>>,
    ls: Seq<Seq<char>>,
    f: spec_fn(Seq<char>) -> Option<Seq<char>>,
    i: int,
)
    requires
        0 <= i < ls.len(),
        f(ls[i]) is Some,
        trim(f(ls[i])->0).len() > 0,
    ensures
        contains(trim(join(head + filter_map(ls, f), seq!['\n'])), trim(f(ls[i])->0)),
{
    let k = f(ls[i])->0;
    let fm = filter_map(ls, f);
    crate::text::lemma_filter_map_has(ls, f, i);
    let j = choose|j: int| 0 <= j < fm.len() && #[trigger] fm[j] == k;
    let all = head + fm;
    assert(all[head.len() + j] == k);
    crate::text::lemma_join_has_piece(all, seq!['\n'], head.len() + j);
    let p = choose|p: int| #[trigger] crate::text::occurs_at(join(all, seq!['\n']), all[head.len() + j], p);
    crate::text::lemma_trim_keeps_piece(join(all, seq!['\n']), k, p);
}

/// Every cargo line that is not progress chatter, a passing test or a test
/// runner banner (so every error and warning line) appears in the digest.
pub proof fn lemma_cargo_keeps_diagnostics(text: Seq<char>, i: int)
    requires
        0 <= i < lines(strip_ansi(text)).len(),
        cargo_kept(lines(strip_ansi(text))[i]) is Some,
        trim(cargo_kept(lines(strip_ansi(text))[i])->0).len() > 0,
    ensures
        contains(
            digest_cargo_spec(text),
            trim(cargo_kept(lines(strip_ansi(text))[i])->0),
        ),
{
    let ls = lines(strip_ansi(text));
    let fin = last_some(ls, |r: Seq<char>| cargo_finished(r));
    let n = count_where(ls, |r: Seq<char>| cargo_pass(r));
    let head = (if fin is Some {
        seq![fin->0]
    } else {
        Seq::<Seq<char>>::empty()
    }) + (if n > 0 {
        seq![count_note(n, " passing tests stripped)"@)]
    } else {
        Seq::<Seq<char>>::empty()
    });
    lemma_kept_line_shows(head, ls, |r: Seq<char>| cargo_kept(r), i);
}

/// Every pytest line that is neither session chatter nor a passing test
/// (so every failure and error line) appears in the digest.
pub proof fn lemma_pytest_keeps_failures(text: Seq<char>, i: int)
    requires
        0 <= i < lines(strip_ansi(text)).len(),
        pytest_kept(lines(strip_ansi(text))[i]) is Some,
        trim(pytest_kept(lines(strip_ansi(text))[i])->0).len() > 0,
    ensures
        contains(
            digest_pytest_spec(text),
            trim(pytest_kept(lines(strip_ansi(text))[i])->0),
        ),
{
    let ls = lines(strip_ansi(text));
    let n = count_where(ls, |r: Seq<char>| pytest_pass(r));
    let head = if n > 0 {
        seq![count_note(n, " passing tests stripped)"@)]
    } else {
        Seq::<Seq<char>>::empty()
    };
    lemma_kept_line_shows(head, ls, |r: Seq<char>| pytest_kept(r), i);
}

/// Every mypy line that is not install progress (so every diagnostic)
/// appears in the digest.
pub proof fn lemma_mypy_keeps_diagnostics(text: Seq<char>, i: int)
    requires
        0 <= i < lines(strip_ansi(text)).len(),
        mypy_kept(lines(strip_ansi(text))[i]) is Some,
        trim(mypy_kept(lines(strip_ansi(text))[i])->0).len() > 0,
    ensures
        contains(
            digest_mypy_spec(text),
            trim(mypy_kept(lines(strip_ansi(text))[i])->0),
        ),
{
    let ls = lines(strip_ansi(text));
    let n = count_where(ls, |r: Seq<char>| mypy_install(r));
    let head = if n > 0 {
        seq![count_note(n, " install/progress lines stripped)"@)]
    } else {
        Seq::<Seq<char>>::empty()
    };
    lemma_kept_line_shows(head, ls, |r: Seq<char>| mypy_kept(r), i);
}

/// A piece of the digest's lines shows up, trimmed, in their trimmed join.
proof fn lemma_piece_shows(head: Seq<Seq<char>>, kept: Seq<Seq<char>>, j: int)
    requires
        0 <= j < kept.len(),
        trim(kept[j]).len() > 0,
    ensures
        contains(trim(join(head + kept, seq!['\n'])), trim(kept[j])),
{
    let all = head + kept;
    assert(all[head.len() + j] == kept[j]);
    crate::text::lemma_join_has_piece(all, seq!['\n'], head.len() + j);
    let p = choose|p: int| #[trigger] crate::text::occurs_at(join(all, seq!['\n']), all[head.len() + j], p);
    crate::text::lemma_trim_keeps_piece(join(all, seq!['\n']), kept[j], p);
}

/// Every go test line that is not a `=== RUN` line, a passing or skipped
/// test or a testing/runtime frame (so every failure, panic and user frame)
/// appears in the digest.
pub proof fn lemma_go_test_keeps_failures(text: Seq<char>, i: int)
    requires
        0 <= i < lines(strip_ansi(text)).len(),
        go_kind(trim_end(lines(strip_ansi(text))[i])) == 4,
        trim(trim_end(lines(strip_ansi(text))[i])).len() > 0,
    ensures
        contains(digest_go_test_spec(text), trim(trim_end(lines(strip_ansi(text))[i]))),
{
    let ls = lines(strip_ansi(text));
    let n_pass = count_where(ls, |r: Seq<char>| go_kind(trim_end(r)) == 1);
    let n_skip = count_where(ls, |r: Seq<char>| go_kind(trim_end(r)) == 2);
    let n_frame = count_where(ls, |r: Seq<char>| go_kind(trim_end(r)) == 3);
    let head = (if n_pass > 0 {
        seq![count_note(n_pass, " passing tests stripped)"@)]
    } else {
        Seq::<Seq<char>>::empty()
    }) + (if n_skip > 0 {
        seq![count_note(n_skip, " skipped tests stripped)"@)]
    } else {
        Seq::<Seq<char>>::empty()
    }) + (if n_frame > 0 {
        seq![count_note(n_frame, " testing/runtime framework frames stripped)"@)]
    } else {
        Seq::<Seq<char>>::empty()
    });
    let f = |r: Seq<char>|
        if go_kind(trim_end(r)) == 4 {
            Some(trim_end(r))
        } else {
            None
        };
    lemma_kept_line_shows(head, ls, f, i);
}

/// A gradle line that is kept whatever came before it: not empty, no
/// banner text, not a `- ` bullet, and a failed task or no finished task.
pub open spec fn gradle_always_kept(line: Seq<char>) -> bool {
    &&& line.len() > 0
    &&& !contains_any(line, GRADLE_BANNER_KEYWORDS@)
    &&& !starts_with(line, "- "@)
    &&& (regex_is_match(GRADLE_TASK_FAILED@, line) || !regex_is_match(GRADLE_TASK_PROGRESS@, line))
}

/// Where the gradle digest stands after the lines `ls`.
pub open spec fn gradle_fold(ls: Seq<Seq<char>>) -> GradleState {
    crate::text::fold_lines(
        ls,
        GradleState { in_banner: false, n_task_ok: 0, kept: Seq::empty() },
        |s: GradleState, r: Seq<char>| gradle_step(s, r),
    )
}

proof fn lemma_gradle_kept_grows(ls: Seq<Seq<char>>, k: int, m: int)
    requires
        0 <= k <= m <= ls.len(),
    ensures
        gradle_fold(ls.take(k)).kept.len() <= gradle_fold(ls.take(m)).kept.len(),
        forall|j: int|
            0 <= j < gradle_fold(ls.take(k)).kept.len() ==> #[trigger] gradle_fold(ls.take(m)).kept[j]
                == gradle_fold(ls.take(k)).kept[j],
    decreases m - k,
{
    if k < m {
        lemma_gradle_kept_grows(ls, k, m - 1);
        assert(ls.take(m).drop_last() =~= ls.take(m - 1));
    }
}

/// Every gradle line that is kept whatever came before it (so every failed
/// task and every error line outside the welcome banner) appears in the
/// digest.
pub proof fn lemma_gradle_keeps_failures(text: Seq<char>, i: int)
    requires
        0 <= i < lines(strip_ansi(text)).len(),
        gradle_always_kept(trim_end(lines(strip_ansi(text))[i])),
        trim(trim_end(lines(strip_ansi(text))[i])).len() > 0,
    ensures
        contains(digest_gradle_spec(text), trim(trim_end(lines(strip_ansi(text))[i]))),
{
    let ls = lines(strip_ansi(text));
    let before = gradle_fold(ls.take(i));
    assert(ls.take(i + 1).drop_last() =~= ls.take(i));
    assert(ls.take(i + 1).last() == ls[i]);
    let after = gradle_fold(ls.take(i + 1));
    let line = trim_end(ls[i]);
    assert(after.kept == before.kept.push(line));
    lemma_gradle_kept_grows(ls, i + 1, ls.len() as int);
    assert(ls.take(ls.len() as int) =~= ls);
    let st = gradle_fold(ls);
    let j = before.kept.len() as int;
    assert(st.kept[j] == line);
    let head = if st.n_task_ok > 0 {
        seq![count_note(st.n_task_ok, " gradle tasks ok, stripped)"@)]
    } else {
        Seq::<Seq<char>>::empty()
    };
    lemma_piece_shows(head, st.kept, j);
}

/// A compiler line that is kept whatever came before it: not empty, not
/// progress, and a diagnostic or no source-context line.
pub open spec fn compiler_always_kept(line: Seq<char>) -> bool {
    &&& line.len() > 0
    &&& !any_match(sources(COMPILER_PROGRESS@), line)
    &&& (regex_is_match(COMPILER_DIAG@, line) || !(regex_is_match(COMPILER_CONTEXT_LINE@, line)
        || regex_is_match(COMPILER_CARET_LINE@, line)))
}

/// Where the compiler digest stands after the lines `ls`.
pub open spec fn compiler_fold(ls: Seq<Seq<char>>) -> CompilerState {
    crate::text::fold_lines(
        ls,
        CompilerState { last_was_diag: false, context_seen: 0, n_progress: 0, kept: Seq::empty() },
        |s: CompilerState, r: Seq<char>| compiler_step(s, r),
    )
}

proof fn lemma_compiler_kept_grows(ls: Seq<Seq<char>>, k: int, m: int)
    requires
        0 <= k <= m <= ls.len(),
    ensures
        compiler_fold(ls.take(k)).kept.len() <= compiler_fold(ls.take(m)).kept.len(),
        forall|j: int|
            0 <= j < compiler_fold(ls.take(k)).kept.len() ==> #[trigger] compiler_fold(
                ls.take(m),
            ).kept[j] == compiler_fold(ls.take(k)).kept[j],
    decreases m - k,
{
    if k < m {
        lemma_compiler_kept_grows(ls, k, m - 1);
        assert(ls.take(m).drop_last() =~= ls.take(m - 1));
    }
}

/// Every compiler line that is kept whatever came before it (so every
/// `file:line:col` diagnostic) appears in the digest.
pub proof fn lemma_compiler_keeps_diagnostics(text: Seq<char>, i: int)
    requires
        0 <= i < lines(strip_ansi(text)).len(),
        compiler_always_kept(trim_end(lines(strip_ansi(text))[i])),
        trim(trim_end(lines(strip_ansi(text))[i])).len() > 0,
    ensures
        contains(digest_compiler_spec(text), trim(trim_end(lines(strip_ansi(text))[i]))),
{
    let ls = lines(strip_ansi(text));
    let before = compiler_fold(ls.take(i));
    assert(ls.take(i + 1).drop_last() =~= ls.take(i));
    assert(ls.take(i + 1).last() == ls[i]);
    let after = compiler_fold(ls.take(i + 1));
    let line = trim_end(ls[i]);
    assert(after.kept == before.kept.push(line));
    lemma_compiler_kept_grows(ls, i + 1, ls.len() as int);
    assert(ls.take(ls.len() as int) =~= ls);
    let st = compiler_fold(ls);
    let j = before.kept.len() as int;
    assert(st.kept[j] == line);
    let head = if st.n_progress > 0 {
        seq![count_note(st.n_progress, " compile/link progress lines stripped)"@)]
    } else {
        Seq::<Seq<char>>::empty()
    };
    lemma_piece_shows(head, st.kept, j);
}

/// The text (ANSI escapes removed) carries a GitHub Actions marker.
pub open spec fn has_ci_marker(plain: Seq<char>) -> bool {
    regex_is_match(GHA_PREFIX@, plain) || contains(plain, "##[group]"@) || contains(
        plain,
        "##[error]"@,
    ) || contains(plain, "##[section]"@)
}

/// CI markers decide first: text with one is CI output.
pub proof fn lemma_detect_ci_markers_win(text: Seq<char>)
    requires
        has_ci_marker(strip_ansi(text)),
    ensures
        detect_spec(text) == Format::Ci,
{
}

/// Without CI markers, cargo output is recognised by its `Compiling`
/// lines, or by a `running N tests` line together with a `test result:`
/// summary.
pub proof fn lemma_detect_cargo(text: Seq<char>)
    requires
        !has_ci_marker(strip_ansi(text)),
        regex_is_match(CARGO_COMPILE@, strip_ansi(text)) || (regex_is_match(
            CARGO_TEST_RUN@,
            strip_ansi(text),
        ) && contains(strip_ansi(text), "test result:"@)),
    ensures
        detect_spec(text) == Format::Cargo,
{
}

/// Cargo is detected only from its own marks: `Cargo` comes back only for
/// text without CI markers that has a `Compiling` line, or a `running N
/// tests` line with a `test result:` summary.
pub proof fn lemma_detect_cargo_only_from_cargo_marks(text: Seq<char>)
    requires
        detect_spec(text) == Format::Cargo,
    ensures
        !has_ci_marker(strip_ansi(text)),
        regex_is_match(CARGO_COMPILE@, strip_ansi(text)) || (regex_is_match(
            CARGO_TEST_RUN@,
            strip_ansi(text),
        ) && contains(strip_ansi(text), "test result:"@)),
{
}

/// The marks by which `detect` recognises a tool in text without ANSI
/// escapes (none for `Unknown`).
pub open spec fn format_marks(f: Format, plain: Seq<char>) -> bool {
    match f {
        Format::Ci => has_ci_marker(plain),
        Format::Cargo => regex_is_match(CARGO_COMPILE@, plain) || (regex_is_match(
            CARGO_TEST_RUN@,
            plain,
        ) && contains(plain, "test result:"@)),
        Format::GoTest => regex_is_match(GO_TEST_RUN@, plain) && regex_is_match(
            GO_TEST_RESULT@,
            plain,
        ),
        Format::Gradle => regex_is_match(GRADLE_TASK@, plain) || regex_is_match(
            GRADLE_BUILD_LINE@,
            plain,
        ),
        Format::Tsc => regex_is_match(TSC_PAREN@, plain) || regex_is_match(TSC_COLON@, plain),
        Format::Pytest => (contains(plain, "test session starts"@) || contains(
            plain,
            "=== FAILURES ==="@,
        ) || contains(plain, ".py::test"@) || contains(plain, "pytest"@)) && (contains(
            plain,
            "FAILED"@,
        ) || contains(plain, "PASSED"@) || contains(plain, "passed in"@)),
        Format::Ruff => regex_is_match(RUFF_LINE@, plain),
        Format::Mypy => regex_is_match(MYPY_ERROR@, plain),
        Format::Compiler => regex_is_match(COMPILER_DIAG@, plain) || regex_is_match(
            CMAKE_BUILDING@,
            plain,
        ) || regex_is_match(SWIFT_BUILD_STEP@, plain),
        Format::Pnpm => contains(plain, "pnpm v"@) || regex_is_match(PNPM_RESOLVED@, plain)
            || contains(plain, "npm warn"@) || contains(plain, "bun install"@),
        Format::Unknown => false,
    }
}

/// The order in which `detect` tries the tools.
pub open spec fn detect_rank(f: Format) -> nat {
    match f {
        Format::Ci => 0,
        Format::Cargo => 1,
        Format::GoTest => 2,
        Format::Gradle => 3,
        Format::Tsc => 4,
        Format::Pytest => 5,
        Format::Ruff => 6,
        Format::Mypy => 7,
        Format::Compiler => 8,
        Format::Pnpm => 9,
        Format::Unknown => 10,
    }
}

/// `detect` names the first tool, in its fixed order, whose marks the text
/// carries, and `Unknown` when it carries none.
pub proof fn lemma_detect_first_marked(text: Seq<char>, f: Format)
    ensures
        f != Format::Unknown ==> (detect_spec(text) == f <==> format_marks(f, strip_ansi(text))
            && forall|g: Format|
            detect_rank(g) < detect_rank(f) ==> !#[trigger] format_marks(g, strip_ansi(text))),
        detect_spec(text) == Format::Unknown <==> forall|g: Format| !#[trigger] format_marks(
            g,
            strip_ansi(text),
        ),
{
    let plain = strip_ansi(text);
    let d = detect_spec(text);
    assert forall|g: Format| detect_rank(g) < detect_rank(d) implies !#[trigger] format_marks(
        g,
        plain,
    ) by {
        match g {
            Format::Ci => {},
            Format::Cargo => {},
            Format::GoTest => {},
            Format::Gradle => {},
            Format::Tsc => {},
            Format::Pytest => {},
            Format::Ruff => {},
            Format::Mypy => {},
            Format::Compiler => {},
            Format::Pnpm => {},
            Format::Unknown => {},
        }
    }
    assert(d != Format::Unknown ==> format_marks(d, plain));
    let marks = seq![
        format_marks(Format::Ci, plain),
        format_marks(Format::Cargo, plain),
        format_marks(Format::GoTest, plain),
        format_marks(Format::Gradle, plain),
        format_marks(Format::Tsc, plain),
        format_marks(Format::Pytest, plain),
        format_marks(Format::Ruff, plain),
        format_marks(Format::Mypy, plain),
        format_marks(Format::Compiler, plain),
        format_marks(Format::Pnpm, plain),
    ];
    assert(marks.len() == 10);
    assert(!format_marks(Format::Unknown, plain));
}

} // verus!
