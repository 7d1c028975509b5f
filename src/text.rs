use vstd::prelude::*;
use vstd::string::{StrSliceExecFns, StringExecFns};

verus! {

broadcast use vstd::seq::group_seq_axioms;

/// Whether `c` has the Unicode `White_Space` property, as `char::is_whitespace` tests:
/// U+0009 to U+000D, U+0020, U+0085, U+00A0, U+1680, U+2000 to U+200A, U+2028, U+2029,
/// U+202F, U+205F and U+3000.
pub open spec fn is_ws(c: char) -> bool {
    let u = c as u32;
    (0x9 <= u && u <= 0xd) || u == 0x20 || u == 0x85 || u == 0xa0 || u == 0x1680
        || (0x2000 <= u && u <= 0x200a) || u == 0x2028 || u == 0x2029 || u == 0x202f
        || u == 0x205f || u == 0x3000
}

fn char_is_whitespace(c: char) -> (r: bool)
    ensures
        r == is_ws(c),
{
    let u = c as u32;
    (0x9 <= u && u <= 0xd) || u == 0x20 || u == 0x85 || u == 0xa0 || u == 0x1680
        || (0x2000 <= u && u <= 0x200a) || u == 0x2028 || u == 0x2029 || u == 0x202f
        || u == 0x205f || u == 0x3000
}

/// Every character of `s` is white space (so `s` trims to nothing).
pub open spec fn blank(s: Seq<char>) -> bool {
    forall|i: int| 0 <= i < s.len() ==> is_ws(#[trigger] s[i])
}

pub open spec fn trim_start(s: Seq<char>) -> Seq<char>
    decreases s.len(),
{
    if s.len() > 0 && is_ws(s[0]) {
        trim_start(s.drop_first())
    } else {
        s
    }
}

pub open spec fn trim_end(s: Seq<char>) -> Seq<char>
    decreases s.len(),
{
    if s.len() > 0 && is_ws(s.last()) {
        trim_end(s.drop_last())
    } else {
        s
    }
}

/// `s` without leading and trailing white space.
pub open spec fn trimmed(s: Seq<char>) -> Seq<char> {
    trim_end(trim_start(s))
}

/// Whether `s` is empty or white space only.
pub fn is_blank(s: &str) -> (r: bool)
    ensures
        r == blank(s@),
{
    let n = s.unicode_len();
    let mut i: usize = 0;
    while i < n
        invariant
            n == s@.len(),
            i <= n,
            forall|k: int| 0 <= k < i ==> is_ws(#[trigger] s@[k]),
        decreases n - i,
    {
        if !char_is_whitespace(s.get_char(i)) {
            return false;
        }
        i = i + 1;
    }
    true
}

/// `s` without leading and trailing white space.
pub fn trim(s: &str) -> (r: &str)
    ensures
        r@ == trimmed(s@),
{
    let n = s.unicode_len();
    let mut i: usize = 0;
    assert(s@.subrange(0, n as int) =~= s@);
    while i < n && char_is_whitespace(s.get_char(i))
        invariant
            n == s@.len(),
            i <= n,
            trim_start(s@) == trim_start(s@.subrange(i as int, n as int)),
        decreases n - i,
    {
        assert(s@.subrange(i as int, n as int).drop_first() =~= s@.subrange(i + 1, n as int));
        i = i + 1;
    }
    assert(trim_start(s@.subrange(i as int, n as int)) == s@.subrange(i as int, n as int));
    let mut j: usize = n;
    while j > i && char_is_whitespace(s.get_char(j - 1))
        invariant
            n == s@.len(),
            i <= j <= n,
            trimmed(s@) == trim_end(s@.subrange(i as int, j as int)),
        decreases j,
    {
        assert(s@.subrange(i as int, j as int).drop_last() =~= s@.subrange(i as int, j - 1));
        j = j - 1;
    }
    s.substring_char(i, j)
}

pub open spec fn digit_char(d: nat) -> char {
    if d == 0 { '0' }
    else if d == 1 { '1' }
    else if d == 2 { '2' }
    else if d == 3 { '3' }
    else if d == 4 { '4' }
    else if d == 5 { '5' }
    else if d == 6 { '6' }
    else if d == 7 { '7' }
    else if d == 8 { '8' }
    else { '9' }
}

/// The decimal digits of `n`, without sign or leading zeros.
pub open spec fn decimal(n: nat) -> Seq<char>
    decreases n,
{
    if n < 10 {
        seq![digit_char(n)]
    } else {
        decimal(n / 10).push(digit_char(n % 10))
    }
}

fn digit_text(d: u64) -> (r: &'static str)
    requires
        d < 10,
    ensures
        r@ == seq![digit_char(d as nat)],
{
    proof {
        reveal_strlit("0");
        reveal_strlit("1");
        reveal_strlit("2");
        reveal_strlit("3");
        reveal_strlit("4");
        reveal_strlit("5");
        reveal_strlit("6");
        reveal_strlit("7");
        reveal_strlit("8");
        reveal_strlit("9");
    }
    let r = if d == 0 { "0" }
    else if d == 1 { "1" }
    else if d == 2 { "2" }
    else if d == 3 { "3" }
    else if d == 4 { "4" }
    else if d == 5 { "5" }
    else if d == 6 { "6" }
    else if d == 7 { "7" }
    else if d == 8 { "8" }
    else { "9" };
    assert(r@ =~= seq![digit_char(d as nat)]);
    r
}

/// The decimal text of `n`.
pub fn decimal_text(n: u64) -> (r: String)
    ensures
        r@ == decimal(n as nat),
    decreases n,
{
    if n < 10 {
        String::from_str(digit_text(n))
    } else {
        let mut head = decimal_text(n / 10);
        head.append(digit_text(n % 10));
        head
    }
}

/// Whether `s` begins with `p`.
pub fn starts_with(s: &str, p: &str) -> (r: bool)
    ensures
        r == (p@.len() <= s@.len() && s@.subrange(0, p@.len() as int) == p@),
{
    let n = s.unicode_len();
    let m = p.unicode_len();
    if m > n {
        return false;
    }
    let mut i: usize = 0;
    while i < m
        invariant
            n == s@.len(),
            m == p@.len(),
            m <= n,
            i <= m,
            s@.subrange(0, i as int) == p@.subrange(0, i as int),
        decreases m - i,
    {
        if s.get_char(i) != p.get_char(i) {
            assert(s@.subrange(0, m as int)[i as int] != p@[i as int]);
            return false;
        }
        assert(s@.subrange(0, i + 1) =~= s@.subrange(0, i as int).push(s@[i as int]));
        assert(p@.subrange(0, i + 1) =~= p@.subrange(0, i as int).push(p@[i as int]));
        i = i + 1;
    }
    assert(p@ =~= p@.subrange(0, m as int));
    true
}


/// Whether `needle` occurs in `s`.
pub open spec fn has_sub(s: Seq<char>, needle: Seq<char>) -> bool {
    exists|i: int| 0 <= i && i + needle.len() <= s.len() && #[trigger] s.subrange(i, i + needle.len()) == needle
}

/// Whether `needle` occurs in `s`.
pub fn contains_str(s: &str, needle: &str) -> (r: bool)
    ensures
        r == has_sub(s@, needle@),
{
    let n = s.unicode_len();
    let m = needle.unicode_len();
    if m > n {
        proof {
            assert forall|i: int| 0 <= i && i + needle@.len() <= s@.len() implies #[trigger] s@.subrange(i, i + needle@.len()) != needle@ by {}
        }
        return false;
    }
    let last = n - m;
    let mut i: usize = 0;
    loop
        invariant
            n == s@.len(),
            m == needle@.len(),
            m <= n,
            last == n - m,
            i <= last,
            forall|k: int| 0 <= k < i ==> #[trigger] s@.subrange(k, k + m) != needle@,
        ensures
            forall|k: int| 0 <= k <= last ==> #[trigger] s@.subrange(k, k + m) != needle@,
        decreases last - i,
    {
        let part = s.substring_char(i, i + m);
        if crate::json::text_eq(part, needle) {
            return true;
        }
        if i == last {
            break;
        }
        i = i + 1;
    }
    proof {
        assert forall|k: int| 0 <= k && k + needle@.len() <= s@.len() implies #[trigger] s@.subrange(k, k + needle@.len()) != needle@ by {
            assert(k <= last);
        }
    }
    false
}

/// The lower-case form that Rust's `to_lowercase` gives.
pub uninterp spec fn lower_of(s: Seq<char>) -> Seq<char>;

/// Relies on str::to_lowercase: the result depends on the characters of `s` alone.
#[verifier::external_body]
pub(crate) fn to_lowercase(s: &str) -> (r: String)
    ensures
        r@ == lower_of(s@),
{
    s.to_lowercase()
}


/// Whether `s` ends with `p`.
pub open spec fn has_suffix(s: Seq<char>, p: Seq<char>) -> bool {
    p.len() <= s.len() && s.subrange(s.len() - p.len(), s.len() as int) == p
}

/// Whether `s` ends with `p`.
pub fn ends_with(s: &str, p: &str) -> (r: bool)
    ensures
        r == has_suffix(s@, p@),
{
    let n = s.unicode_len();
    let m = p.unicode_len();
    if m > n {
        return false;
    }
    let tail = s.substring_char(n - m, n);
    crate::json::text_eq(tail, p)
}

} // verus!
