use vstd::prelude::*;
use vstd::string::StringExecFns;
use crate::json::text_eq;
use vstd::string::StrSliceExecFns;
use crate::text::{decimal, decimal_text, lower_of, starts_with, to_lowercase, trim, trimmed};

verus! {

/// How to start a language server.
#[derive(Clone, Debug)]
pub struct LspServerConfig {
    pub command: String,
    pub args: Vec<String>,
    pub extensions: Vec<String>,
}

/// The answer to a request to start a language server.
#[derive(Clone, Debug)]
pub struct LspStartResponse {
    pub server_id: String,
    pub success: bool,
    pub error: Option<String>,
}

/// One running language server.
#[derive(Clone, Debug)]
pub struct LspServerInfo {
    pub server_id: String,
    pub language: String,
    pub root_path: String,
    pub is_initialized: bool,
}

/// A message from a language server.
#[derive(Clone, Debug)]
pub struct LspMessageEvent {
    pub server_id: String,
    pub message: String,
}

/// Whether a language server can be used, and how to get it.
#[derive(Clone, Debug)]
pub struct LspServerStatus {
    pub available: bool,
    pub installed: bool,
    pub install_path: Option<String>,
    pub can_download: bool,
    pub download_url: Option<String>,
}

/// The id of a server started for `language` at `timestamp_millis`.
pub fn generate_server_id(language: &str, timestamp_millis: u64) -> (r: String)
    ensures
        r@ == "lsp_"@ + language@ + "_"@ + decimal(timestamp_millis as nat),
{
    let mut id = String::from_str("lsp_");
    id.append(language);
    id.append("_");
    let t = decimal_text(timestamp_millis);
    id.append(t.as_str());
    id
}

/// The release asset of rust-analyzer for a platform.
pub open spec fn rust_analyzer_asset(os: Seq<char>, arch: Seq<char>) -> Option<Seq<char>> {
    if os == "macos"@ && arch == "x86_64"@ {
        Some("x86_64-apple-darwin.gz"@)
    } else if os == "macos"@ && arch == "aarch64"@ {
        Some("aarch64-apple-darwin.gz"@)
    } else if os == "linux"@ && arch == "x86_64"@ {
        Some("x86_64-unknown-linux-gnu.gz"@)
    } else if os == "linux"@ && arch == "aarch64"@ {
        Some("aarch64-unknown-linux-gnu.gz"@)
    } else if os == "windows"@ && arch == "x86_64"@ {
        Some("x86_64-pc-windows-msvc.zip"@)
    } else {
        None
    }
}

/// The download URL of rust-analyzer for a platform, where a build exists.
pub fn get_rust_analyzer_download_url(os: &str, arch: &str) -> (r: Option<String>)
    ensures
        match rust_analyzer_asset(os@, arch@) {
            Some(a) => r matches Some(u) && u@ == "https://github.com/rust-lang/rust-analyzer/releases/latest/download/rust-analyzer-"@ + a,
            None => r is None,
        },
{
    let suffix = if text_eq(os, "macos") && text_eq(arch, "x86_64") {
        "x86_64-apple-darwin.gz"
    } else if text_eq(os, "macos") && text_eq(arch, "aarch64") {
        "aarch64-apple-darwin.gz"
    } else if text_eq(os, "linux") && text_eq(arch, "x86_64") {
        "x86_64-unknown-linux-gnu.gz"
    } else if text_eq(os, "linux") && text_eq(arch, "aarch64") {
        "aarch64-unknown-linux-gnu.gz"
    } else if text_eq(os, "windows") && text_eq(arch, "x86_64") {
        "x86_64-pc-windows-msvc.zip"
    } else {
        return None;
    };
    let mut url = String::from_str("https://github.com/rust-lang/rust-analyzer/releases/latest/download/rust-analyzer-");
    url.append(suffix);
    Some(url)
}


/// The index of the first `c` in `s`, or the length of `s`.
pub open spec fn first_index_of(s: Seq<char>, c: char) -> int
    decreases s.len(),
{
    if s.len() == 0 {
        0
    } else if s[0] == c {
        0
    } else {
        1 + first_index_of(s.drop_first(), c)
    }
}

pub proof fn lemma_first_index_range(s: Seq<char>, c: char)
    ensures
        0 <= first_index_of(s, c) <= s.len(),
    decreases s.len(),
{
    if s.len() > 0 && s[0] != c {
        lemma_first_index_range(s.drop_first(), c);
    }
}

/// The value of a decimal digit character.
pub open spec fn digit_value(c: char) -> nat {
    (c as u32 - '0' as u32) as nat
}

pub open spec fn all_digits(t: Seq<char>) -> bool {
    forall|i: int| 0 <= i < t.len() ==> '0' <= #[trigger] t[i] && t[i] <= '9'
}

/// The number that the digits `t` write.
pub open spec fn digits_value(t: Seq<char>) -> nat
    decreases t.len(),
{
    if t.len() == 0 {
        0
    } else {
        digits_value(t.drop_last()) * 10 + digit_value(t.last())
    }
}

/// What `str::parse::<usize>` reads: an optional `+`, then at least one digit, and a
/// value that fits.
pub open spec fn parse_usize_text(t: Seq<char>) -> Option<usize> {
    let d = if t.len() > 0 && t[0] == '+' { t.drop_first() } else { t };
    if d.len() > 0 && all_digits(d) && digits_value(d) <= usize::MAX {
        Some(digits_value(d) as usize)
    } else {
        None
    }
}

/// The text between the first and the second `:` of a line (or its end).
pub open spec fn second_field(l: Seq<char>) -> Option<Seq<char>> {
    let c = first_index_of(l, ':');
    if 0 <= c && c < l.len() {
        let rest = l.subrange(c + 1, l.len() as int);
        let d = first_index_of(rest, ':');
        if 0 <= d && d <= rest.len() { Some(rest.subrange(0, d)) } else { None }
    } else {
        None
    }
}

pub open spec fn strip_cr(l: Seq<char>) -> Seq<char> {
    if l.len() > 0 && l.last() == '\r' { l.drop_last() } else { l }
}

/// The length that a block of message headers announces: the value of the first line
/// whose lower-cased text begins with `content-length:`.
pub open spec fn content_length_in(s: Seq<char>) -> Option<usize>
    decreases s.len(),
{
    if s.len() == 0 {
        None
    } else {
        let e = first_index_of(s, '\n');
        let line = if 0 <= e && e < s.len() { strip_cr(s.subrange(0, e)) } else { s };
        let lowered = lower_of(line);
        if "content-length:"@.len() <= lowered.len() && lowered.subrange(0, "content-length:"@.len() as int) == "content-length:"@ {
            match second_field(line) {
                Some(f) => parse_usize_text(trimmed(f)),
                None => None,
            }
        } else if 0 <= e && e < s.len() {
            content_length_in(s.subrange(e + 1, s.len() as int))
        } else {
            None
        }
    }
}

fn find_char(s: &str, from: usize, c: char) -> (r: usize)
    requires
        from <= s@.len(),
    ensures
        from <= r <= s@.len(),
        r - from == first_index_of(s@.subrange(from as int, s@.len() as int), c),
{
    let n = s.unicode_len();
    let mut j = from;
    while j < n && s.get_char(j) != c
        invariant
            n == s@.len(),
            from <= j <= n,
            first_index_of(s@.subrange(from as int, n as int), c) == (j - from) + first_index_of(s@.subrange(j as int, n as int), c),
        decreases n - j,
    {
        assert(s@.subrange(j as int, n as int).drop_first() =~= s@.subrange(j + 1, n as int));
        j = j + 1;
    }
    j
}

fn is_digit(c: char) -> (r: bool)
    ensures
        r == ('0' <= c && c <= '9'),
{
    '0' <= c && c <= '9'
}

proof fn lemma_digits_step(d: Seq<char>, k: int)
    requires
        0 <= k < d.len(),
        all_digits(d.subrange(0, k)),
        '0' <= d[k] && d[k] <= '9',
    ensures
        all_digits(d.subrange(0, k + 1)),
        digits_value(d.subrange(0, k + 1)) == digits_value(d.subrange(0, k)) * 10 + digit_value(d[k]),
{
    let pre = d.subrange(0, k);
    let next = d.subrange(0, k + 1);
    assert(next.drop_last() =~= pre);
    assert forall|i: int| 0 <= i < next.len() implies '0' <= #[trigger] next[i] && next[i] <= '9' by {
        if i < k {
            assert(next[i] == pre[i]);
        }
    }
}

proof fn lemma_overflow(v: nat, dv: nat)
    requires
        v > (usize::MAX - dv) / 10,
        dv <= 9,
    ensures
        v * 10 + dv > usize::MAX,
{
    assert(v * 10 + dv > usize::MAX) by (nonlinear_arith)
        requires v > (usize::MAX - dv) / 10, dv <= 9;
}

proof fn lemma_no_overflow(v: nat, dv: nat)
    requires
        v <= (usize::MAX - dv) / 10,
        dv <= 9,
    ensures
        v * 10 + dv <= usize::MAX,
{
    assert(v * 10 + dv <= usize::MAX) by (nonlinear_arith)
        requires v <= (usize::MAX - dv) / 10, dv <= 9;
}

fn parse_usize(t: &str) -> (r: Option<usize>)
    ensures
        r == parse_usize_text(t@),
{
    let n = t.unicode_len();
    let start: usize = if n > 0 && t.get_char(0) == '+' { 1 } else { 0 };
    let ghost d = if t@.len() > 0 && t@[0] == '+' { t@.drop_first() } else { t@ };
    assert(d =~= t@.subrange(start as int, n as int));
    if start >= n {
        return None;
    }
    let mut v: usize = 0;
    let mut i = start;
    assert(d.subrange(0, 0) =~= Seq::<char>::empty());
    while i < n
        invariant
            n == t@.len(),
            start < n,
            start <= i <= n,
            d == t@.subrange(start as int, n as int),
            d == (if t@.len() > 0 && t@[0] == '+' { t@.drop_first() } else { t@ }),
            all_digits(d.subrange(0, i - start)),
            v as nat == digits_value(d.subrange(0, i - start)),
        decreases n - i,
    {
        let c = t.get_char(i);
        assert(d[i - start] == c);
        if !is_digit(c) {
            assert(!all_digits(d)) by {
                assert(!('0' <= d[i - start] && d[i - start] <= '9'));
            }
            return None;
        }
        let dv = (c as u32 - '0' as u32) as usize;
        assert(dv as nat == digit_value(c));
        proof {
            lemma_digits_step(d, i - start);
        }
        if v > (usize::MAX - dv) / 10 {
            proof {
                lemma_overflow(v as nat, dv as nat);
                lemma_digits_grow(d, i - start + 1);
                assert(digits_value(d.subrange(0, i - start + 1)) > usize::MAX);
            }
            return None;
        }
        proof {
            lemma_no_overflow(v as nat, dv as nat);
        }
        v = v * 10 + dv;
        i = i + 1;
    }
    assert(d.subrange(0, n - start) =~= d);
    Some(v)
}

/// The value of a digit string does not shrink when digits are added.
pub proof fn lemma_digits_grow(d: Seq<char>, k: int)
    requires
        0 <= k <= d.len(),
    ensures
        all_digits(d) ==> digits_value(d) >= digits_value(d.subrange(0, k)),
    decreases d.len() - k,
{
    if k < d.len() {
        lemma_digits_grow(d, k + 1);
        let a = d.subrange(0, k + 1);
        assert(a.drop_last() =~= d.subrange(0, k));
        assert(digits_value(a) == digits_value(d.subrange(0, k)) * 10 + digit_value(a.last()));
    } else {
        assert(d.subrange(0, k) =~= d);
    }
}

/// The length that LSP message headers announce in their `Content-Length` line; `None`
/// when there is none or its value is no number.
pub fn parse_content_length(headers: &str) -> (r: Option<usize>)
    ensures
        r == content_length_in(headers@),
{
    let n = headers.unicode_len();
    let mut i: usize = 0;
    assert(headers@.subrange(0, n as int) =~= headers@);
    while i < n
        invariant
            n == headers@.len(),
            i <= n,
            content_length_in(headers@) == content_length_in(headers@.subrange(i as int, n as int)),
        decreases n - i,
    {
        let ghost rest = headers@.subrange(i as int, n as int);
        let e = find_char(headers, i, '\n');
        proof { lemma_first_index_range(rest, '\n'); }
        let raw = headers.substring_char(i, e);
        assert(raw@ =~= rest.subrange(0, e - i));
        let line = if e < n && raw.unicode_len() > 0 && raw.get_char(raw.unicode_len() - 1) == '\r' {
            raw.substring_char(0, raw.unicode_len() - 1)
        } else {
            raw
        };
        proof {
            if e < n {
                assert(line@ =~= strip_cr(rest.subrange(0, e - i)));
            } else {
                assert(rest.subrange(0, e - i) =~= rest);
            }
        }
        let lowered = to_lowercase(line);
        if starts_with(lowered.as_str(), "content-length:") {
            return field_number(line);
        }
        if e >= n {
            return None;
        }
        assert(rest.subrange(e - i + 1, rest.len() as int) =~= headers@.subrange(e + 1, n as int));
        i = e + 1;
    }
    None
}

fn field_number(line: &str) -> (r: Option<usize>)
    ensures
        r == match second_field(line@) {
            Some(f) => parse_usize_text(trimmed(f)),
            None => None,
        },
{
    let n = line.unicode_len();
    let c = find_char(line, 0, ':');
    assert(line@.subrange(0, n as int) =~= line@);
    if c >= n {
        return None;
    }
    let d = find_char(line, c + 1, ':');
    let field = line.substring_char(c + 1, d);
    proof {
        let rest = line@.subrange(c + 1, n as int);
        lemma_first_index_range(rest, ':');
        assert(field@ =~= rest.subrange(0, d - c - 1));
    }
    parse_usize(trim(field))
}


/// What the filesystem says about a root path: whether it exists, whether it is a
/// directory, and its canonical form or the error from resolving it.
#[derive(Debug)]
pub struct RootPathFacts {
    pub exists: bool,
    pub is_dir: bool,
    pub canonical: Result<String, String>,
}

/// Whether a path could be absolute on some platform: it starts with `/` or `\`, or holds
/// a drive colon.
pub open spec fn may_be_absolute(p: Seq<char>) -> bool {
    (p.len() > 0 && (p[0] == '/' || p[0] == '\\')) || crate::text::has_sub(p, ":"@)
}

/// Relies on std's `Path::is_absolute`: a path without a root (`/` on Unix) and without a
/// prefix (a drive or `\\` share on Windows) is not absolute.
#[verifier::external_body]
fn path_is_absolute(p: &str) -> (r: bool)
    ensures
        r ==> may_be_absolute(p@),
{
    std::path::Path::new(p).is_absolute()
}

/// The outcome of checking a root path, given whether it is absolute and what the
/// filesystem says of it.
pub open spec fn root_path_outcome(p: Seq<char>, absolute: bool, facts: RootPathFacts) -> Result<Seq<char>, Seq<char>> {
    if !absolute {
        Err("root_path must be absolute: "@ + p)
    } else if !facts.exists {
        Err("root_path does not exist: "@ + p)
    } else if !facts.is_dir {
        Err("root_path is not a directory: "@ + p)
    } else {
        match facts.canonical {
            Ok(c) => Ok(c@),
            Err(e) => Err("Failed to resolve root_path: "@ + e@),
        }
    }
}

pub open spec fn result_view(r: Result<String, String>) -> Result<Seq<char>, Seq<char>> {
    match r {
        Ok(c) => Ok(c@),
        Err(e) => Err(e@),
    }
}

fn prefixed(prefix: &str, p: &str) -> (r: String)
    ensures
        r@ == prefix@ + p@,
{
    let mut s = String::from_str(prefix);
    s.append(p);
    s
}

/// Decides on a root path: it must be absolute, exist and be a directory, and then its
/// canonical form is the answer.
pub fn decide_root_path(root_path: &str, absolute: bool, facts: RootPathFacts) -> (r: Result<String, String>)
    ensures
        result_view(r) == root_path_outcome(root_path@, absolute, facts),
{
    if !absolute {
        return Err(prefixed("root_path must be absolute: ", root_path));
    }
    if !facts.exists {
        return Err(prefixed("root_path does not exist: ", root_path));
    }
    if !facts.is_dir {
        return Err(prefixed("root_path is not a directory: ", root_path));
    }
    match facts.canonical {
        Ok(c) => Ok(c),
        Err(e) => Err(prefixed("Failed to resolve root_path: ", e.as_str())),
    }
}

/// Checks a root path for a language server. A path that cannot be absolute on any
/// platform is refused as relative, whatever the filesystem says.
pub fn validate_root_path(root_path: &str, facts: RootPathFacts) -> (r: Result<String, String>)
    ensures
        exists|absolute: bool| (absolute ==> may_be_absolute(root_path@))
            && result_view(r) == #[trigger] root_path_outcome(root_path@, absolute, facts),
        !may_be_absolute(root_path@) ==> result_view(r) == Err::<Seq<char>, Seq<char>>("root_path must be absolute: "@ + root_path@),
{
    let absolute = path_is_absolute(root_path);
    let ghost f = facts;
    let r = decide_root_path(root_path, absolute, facts);
    assert(result_view(r) == root_path_outcome(root_path@, absolute, f));
    r
}

} // verus!
