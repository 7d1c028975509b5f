use vstd::prelude::*;
use vstd::string::{StrSliceExecFns, StringExecFns};

verus! {

broadcast use vstd::seq::group_seq_axioms;

/// A lower-case hexadecimal digit.
pub open spec fn is_lower_hex(c: char) -> bool {
    ('0' <= c && c <= '9') || ('a' <= c && c <= 'f')
}

pub open spec fn all_lower_hex(s: Seq<char>) -> bool {
    forall|i: int| 0 <= i < s.len() ==> is_lower_hex(#[trigger] s[i])
}

/// The text of a version-4 UUID in its hyphenated form.
pub open spec fn uuid_shaped(s: Seq<char>) -> bool {
    &&& s.len() == 36
    &&& forall|i: int| 0 <= i < 36 ==> (s[i] == '-' <==> (i == 8 || i == 13 || i == 18 || i == 23))
    &&& forall|i: int| 0 <= i < 36 && s[i] != '-' ==> is_lower_hex(#[trigger] s[i])
}

/// Relies on uuid's `Uuid::new_v4` and its `Display`, which writes the hyphenated form:
/// 32 lower-case hex digits with hyphens after the 8th, 12th, 16th and 20th.
#[verifier::external_body]
pub(crate) fn new_uuid_text() -> (r: String)
    ensures
        uuid_shaped(r@),
{
    uuid::Uuid::new_v4().to_string()
}

/// Relies on chrono's `Utc::now` and its `format`: the current UTC time as year (at least
/// four digits, `%Y`), month, day, hours, minutes, seconds (two digits each) and
/// milliseconds (three, `%3f`), so at least 17 characters.
#[verifier::external_body]
fn utc_timestamp_text() -> (r: String)
    ensures
        r@.len() >= 17,
{
    chrono::Utc::now().format("%Y%m%d%H%M%S%3f").to_string()
}

/// Relies on rand's `thread_rng` and `Rng::gen`: eight random bytes.
#[verifier::external_body]
fn random_bytes() -> (r: [u8; 8]) {
    rand::Rng::gen::<[u8; 8]>(&mut rand::thread_rng())
}

pub open spec fn hex_char(n: nat) -> char {
    if n < 10 {
        ('0' as u32 + n) as char
    } else {
        ('a' as u32 + (n - 10)) as char
    }
}

/// Two lower-case hex digits per byte, high nibble first.
pub open spec fn hex_of(b: Seq<u8>) -> Seq<char>
    decreases b.len(),
{
    if b.len() == 0 {
        Seq::empty()
    } else {
        hex_of(b.drop_last()) + seq![hex_char(b.last() as nat / 16), hex_char(b.last() as nat % 16)]
    }
}

fn hex_digit_text(n: u8) -> (r: &'static str)
    requires
        n < 16,
    ensures
        r@ == seq![hex_char(n as nat)],
{
    proof {
        reveal_strlit("0"); reveal_strlit("1"); reveal_strlit("2"); reveal_strlit("3");
        reveal_strlit("4"); reveal_strlit("5"); reveal_strlit("6"); reveal_strlit("7");
        reveal_strlit("8"); reveal_strlit("9"); reveal_strlit("a"); reveal_strlit("b");
        reveal_strlit("c"); reveal_strlit("d"); reveal_strlit("e"); reveal_strlit("f");
    }
    let r = if n == 0 { "0" } else if n == 1 { "1" } else if n == 2 { "2" } else if n == 3 { "3" }
    else if n == 4 { "4" } else if n == 5 { "5" } else if n == 6 { "6" } else if n == 7 { "7" }
    else if n == 8 { "8" } else if n == 9 { "9" } else if n == 10 { "a" } else if n == 11 { "b" }
    else if n == 12 { "c" } else if n == 13 { "d" } else if n == 14 { "e" } else { "f" };
    assert(r@ =~= seq![hex_char(n as nat)]);
    r
}

/// The lower-case hex text of `bytes`.
pub fn hex_text(bytes: &[u8; 8]) -> (r: String)
    ensures
        r@ == hex_of(bytes@),
{
    let mut out = String::new();
    let mut i: usize = 0;
    assert(bytes@.subrange(0, 0) =~= Seq::<u8>::empty());
    while i < 8
        invariant
            i <= 8,
            bytes@.len() == 8,
            out@ == hex_of(bytes@.subrange(0, i as int)),
        decreases 8 - i,
    {
        let b = bytes[i];
        out.append(hex_digit_text(b / 16));
        out.append(hex_digit_text(b % 16));
        assert(bytes@.subrange(0, i + 1).drop_last() =~= bytes@.subrange(0, i as int));
        assert(out@ =~= hex_of(bytes@.subrange(0, i + 1)));
        i = i + 1;
    }
    assert(bytes@.subrange(0, 8) =~= bytes@);
    out
}

/// `s` without its hyphens.
pub open spec fn without_hyphens(s: Seq<char>) -> Seq<char>
    decreases s.len(),
{
    if s.len() == 0 {
        Seq::empty()
    } else {
        let r = without_hyphens(s.drop_last());
        if s.last() == '-' { r } else { r.push(s.last()) }
    }
}

/// The first `n` characters of `s`, or all of it.
pub open spec fn prefix(s: Seq<char>, n: nat) -> Seq<char> {
    if s.len() <= n { s } else { s.subrange(0, n as int) }
}

/// A trace id: the timestamp, a hyphen and the first eight characters of a UUID.
pub fn trace_id_from(timestamp: &str, uuid_text: &str) -> (r: String)
    ensures
        r@ == timestamp@ + "-"@ + prefix(uuid_text@, 8),
{
    let n = uuid_text.unicode_len();
    let cut = if n < 8 { n } else { 8 };
    let mut r = String::from_str(timestamp);
    r.append("-");
    r.append(uuid_text.substring_char(0, cut));
    proof {
        if n <= 8 {
            assert(uuid_text@.subrange(0, n as int) =~= uuid_text@);
        }
    }
    r
}

/// An event id: the first sixteen characters of a UUID's text without its hyphens.
pub fn event_id_from(uuid_text: &str) -> (r: String)
    ensures
        r@ == prefix(without_hyphens(uuid_text@), 16),
{
    let n = uuid_text.unicode_len();
    let mut digits = String::new();
    let mut i: usize = 0;
    assert(uuid_text@.subrange(0, 0) =~= Seq::<char>::empty());
    while i < n
        invariant
            n == uuid_text@.len(),
            i <= n,
            digits@ == without_hyphens(uuid_text@.subrange(0, i as int)),
        decreases n - i,
    {
        let part = uuid_text.substring_char(i, i + 1);
        assert(uuid_text@.subrange(0, i + 1).drop_last() =~= uuid_text@.subrange(0, i as int));
        if uuid_text.get_char(i) != '-' {
            digits.append(part);
            assert(digits@ =~= without_hyphens(uuid_text@.subrange(0, i + 1)));
        }
        i = i + 1;
    }
    assert(uuid_text@.subrange(0, n as int) =~= uuid_text@);
    let m = digits.as_str().unicode_len();
    let cut = if m < 16 { m } else { 16 };
    let r = String::from_str(digits.as_str().substring_char(0, cut));
    proof {
        if m <= 16 {
            assert(digits@.subrange(0, m as int) =~= digits@);
        }
    }
    r
}

/// A new trace id: `YYYYMMDDhhmmssfff-` and eight hex digits of a random UUID.
pub fn generate_trace_id() -> (r: String)
    ensures
        exists|t: Seq<char>, u: Seq<char>| t.len() >= 17 && uuid_shaped(u) && r@ == t + "-"@ + prefix(u, 8),
{
    let t = utc_timestamp_text();
    let u = new_uuid_text();
    let r = trace_id_from(t.as_str(), u.as_str());
    assert(t@.len() >= 17 && uuid_shaped(u@) && r@ == t@ + "-"@ + prefix(u@, 8));
    r
}

/// A new span id: sixteen hex digits of eight random bytes.
pub fn generate_span_id() -> (r: String)
    ensures
        exists|b: Seq<u8>| b.len() == 8 && r@ == hex_of(b),
{
    let bytes = random_bytes();
    let r = hex_text(&bytes);
    assert(bytes@.len() == 8 && r@ == hex_of(bytes@));
    r
}

/// A new event id: the first sixteen hex digits of a random UUID.
pub fn generate_event_id() -> (r: String)
    ensures
        exists|u: Seq<char>| uuid_shaped(u) && r@ == prefix(without_hyphens(u), 16),
{
    let u = new_uuid_text();
    let r = event_id_from(u.as_str());
    assert(uuid_shaped(u@) && r@ == prefix(without_hyphens(u@), 16));
    r
}

} // verus!
