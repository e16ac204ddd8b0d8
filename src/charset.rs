use crate::criteria::{criteria_allows, is_printable, PasswordCriteria};
use crate::errors::Error;
use crate::escape::push_char;
use regex::Error as PatternError;
use regex::Regex;
use vstd::prelude::*;

verus! {

/// Whether `regex::Regex::new` accepts the pattern.
pub uninterp spec fn pattern_compiles(pattern: Seq<char>) -> bool;

/// Whether the pattern, compiled by `regex::Regex::new`, matches somewhere in
/// the text, as `regex::Regex::is_match` decides.
pub uninterp spec fn pattern_matches(pattern: Seq<char>, text: Seq<char>) -> bool;

#[verifier::external_type_specification]
#[verifier::external_body]
pub struct ExRegex(Regex);

#[verifier::external_type_specification]
#[verifier::external_body]
pub struct ExPatternError(PatternError);

/// A compiled regular expression, kept together with its source text.
pub(crate) struct CharPattern {
    source: String,
    regex: Regex,
}

/// Relies on `regex::Regex::new`: it compiles exactly the patterns that its
/// syntax accepts, which depends on the pattern text alone.
#[verifier::external_body]
fn compile_pattern(pattern: &str) -> (r: Result<CharPattern, PatternError>)
    ensures
        r is Ok <==> pattern_compiles(pattern@),
        r matches Ok(p) ==> p.source@ == pattern@,
{
    match Regex::new(pattern) {
        Ok(regex) => Ok(CharPattern { source: pattern.to_string(), regex }),
        Err(e) => Err(e),
    }
}

/// Relies on `regex::Regex::is_match`: whether the pattern matches anywhere in
/// `text`, which depends on the pattern and the text alone.
#[verifier::external_body]
fn is_match(pattern: &CharPattern, text: &str) -> (r: bool)
    ensures
        r == pattern_matches(pattern.source@, text@),
{
    pattern.regex.is_match(text)
}

/// Whether the byte, read as a one-character string, is selected by the pattern.
pub open spec fn regex_selects(pattern: Seq<char>, b: u8) -> bool {
    is_printable(b) && pattern_matches(pattern, seq![b as char])
}

/// Every element is below the next: sorted, and free of duplicates.
pub open spec fn strictly_ascending(s: Seq<u8>) -> bool {
    forall|i: int, j: int| 0 <= i < j < s.len() ==> s[i] < s[j]
}

/// Whether `b` is in the alphabet of the policy (before the extra bytes are added).
pub open spec fn charset_allows(criteria: PasswordCriteria, b: u8) -> bool {
    match criteria {
        PasswordCriteria::RegexPattern(p) => regex_selects(p@, b),
        _ => criteria_allows(criteria, b),
    }
}

/// The error that a regex pattern meets before any alphabet is formed, if any.
pub open spec fn regex_failure(pattern: Seq<char>) -> Option<Error> {
    if !pattern_compiles(pattern) {
        Some(Error::InvalidRegex)
    } else if !exists|b: u8| regex_selects(pattern, b) {
        Some(Error::RegexMatchesNoChars)
    } else {
        None
    }
}

/// The error that the policy itself meets, before the extra bytes are added.
pub open spec fn policy_failure(criteria: PasswordCriteria) -> Option<Error> {
    match criteria {
        PasswordCriteria::RegexPattern(p) => regex_failure(p@),
        _ => None,
    }
}

/// Whether `b` is in the alphabet built from the policy and the extra bytes.
pub open spec fn alphabet_allows(criteria: PasswordCriteria, extra: Option<&[u8]>, b: u8) -> bool {
    charset_allows(criteria, b) || extra_contains(extra, b)
}

/// `v` is the alphabet of the policy with the extra bytes: every allowed byte
/// once, in ascending order.
pub open spec fn is_alphabet_of(criteria: PasswordCriteria, extra: Option<&[u8]>, v: Seq<u8>) -> bool {
    &&& strictly_ascending(v)
    &&& forall|b: u8| v.contains(b) <==> alphabet_allows(criteria, extra, b)
}

pub open spec fn extra_contains(extra: Option<&[u8]>, b: u8) -> bool {
    match extra {
        Some(e) => e@.contains(b),
        None => false,
    }
}

/// The printable bytes, in ascending order, that the pattern selects.
pub fn create_charset_from_regex(pattern: &str) -> (r: Result<Vec<u8>, Error>)
    ensures
        match regex_failure(pattern@) {
            Some(e) => r == Err::<Vec<u8>, Error>(e),
            None => r matches Ok(v) && strictly_ascending(v@) && forall|b: u8|
                v@.contains(b) <==> regex_selects(pattern@, b),
        },
{
    let compiled = match compile_pattern(pattern) {
        Ok(p) => p,
        Err(_) => return Err(Error::InvalidRegex),
    };
    let mut charset: Vec<u8> = Vec::new();
    let mut b: u8 = 0x20;
    while b <= 0x7e
        invariant
            0x20 <= b <= 0x7f,
            compiled.source@ == pattern@,
            strictly_ascending(charset@),
            forall|i: int| 0 <= i < charset.len() ==> charset[i] < b,
            forall|c: u8| charset@.contains(c) <==> c < b && regex_selects(pattern@, c),
        decreases 0x7f - b,
    {
        let mut text = String::new();
        push_char(&mut text, b as char);
        let ghost prev = charset@;
        if is_match(&compiled, text.as_str()) {
            charset.push(b);
        }
        proof {
            assert(text@ == seq![b as char]);
            assert forall|c: u8| charset@.contains(c) <==> c < b + 1 && regex_selects(pattern@, c) by {
                if charset@.contains(c) {
                    let j = choose|j: int| 0 <= j < charset.len() && charset@[j] == c;
                    if j < prev.len() {
                        assert(prev[j] == c);
                    }
                }
                if prev.contains(c) {
                    let j = choose|j: int| 0 <= j < prev.len() && prev[j] == c;
                    assert(charset@[j] == c);
                }
                if c == b && regex_selects(pattern@, c) {
                    assert(charset@[charset.len() - 1] == c);
                }
            }
        }
        b = b + 1;
    }
    if charset.len() == 0 {
        proof {
            assert forall|c: u8| !regex_selects(pattern@, c) by {
                if regex_selects(pattern@, c) {
                    assert(charset@.contains(c));
                }
            }
        }
        return Err(Error::RegexMatchesNoChars);
    }
    assert(charset@.contains(charset@[0]));
    assert(regex_selects(pattern@, charset@[0]));
    Ok(charset)
}

/// Two strictly ascending sequences with the same members are equal.
pub proof fn lemma_ascending_same_members(a: Seq<u8>, b: Seq<u8>)
    requires
        strictly_ascending(a),
        strictly_ascending(b),
        forall|x: u8| a.contains(x) <==> b.contains(x),
    ensures
        a == b,
    decreases a.len(),
{
    if a.len() == 0 {
        if b.len() > 0 {
            assert(b.contains(b[0]));
        }
        assert(a =~= b);
    } else {
        assert(a.contains(a[0]));
        assert(b.len() > 0);
        assert(b.contains(b[0]));
        let i = choose|i: int| 0 <= i < b.len() && b[i] == a[0];
        let j = choose|j: int| 0 <= j < a.len() && a[j] == b[0];
        assert(a[0] == b[0]) by {
            if i > 0 {
                assert(b[0] < b[i]);
            }
            if j > 0 {
                assert(a[0] < a[j]);
            }
        }
        let ta = a.drop_first();
        let tb = b.drop_first();
        assert forall|x: u8| ta.contains(x) <==> tb.contains(x) by {
            if ta.contains(x) {
                let k = choose|k: int| 0 <= k < ta.len() && ta[k] == x;
                assert(a[k + 1] == x);
                assert(b.contains(x));
                let m = choose|m: int| 0 <= m < b.len() && b[m] == x;
                assert(m > 0);
                assert(tb[m - 1] == x);
            }
            if tb.contains(x) {
                let k = choose|k: int| 0 <= k < tb.len() && tb[k] == x;
                assert(b[k + 1] == x);
                assert(a.contains(x));
                let m = choose|m: int| 0 <= m < a.len() && a[m] == x;
                assert(m > 0);
                assert(ta[m - 1] == x);
            }
        }
        lemma_ascending_same_members(ta, tb);
        assert(a =~= b) by {
            assert forall|k: int| 0 <= k < a.len() implies a[k] == b[k] by {
                if k > 0 {
                    assert(ta[k - 1] == tb[k - 1]);
                }
            }
        }
    }
}

/// What `create_charset` returns on a policy and extra bytes.
pub open spec fn charset_result(
    criteria: PasswordCriteria,
    extra: Option<&[u8]>,
    r: Result<Vec<u8>, Error>,
) -> bool {
    match policy_failure(criteria) {
        Some(e) => r == Err::<Vec<u8>, Error>(e),
        None => if exists|b: u8| alphabet_allows(criteria, extra, b) {
            r matches Ok(v) && is_alphabet_of(criteria, extra, v@)
        } else {
            r == Err::<Vec<u8>, Error>(Error::NoValidChars)
        },
    }
}

/// Building an alphabet is deterministic: two calls of `create_charset` on
/// the same policy and extra bytes give the same alphabet, or the same error.
pub proof fn lemma_create_charset_deterministic(
    criteria: PasswordCriteria,
    extra: Option<&[u8]>,
    r1: Result<Vec<u8>, Error>,
    r2: Result<Vec<u8>, Error>,
)
    requires
        charset_result(criteria, extra, r1),
        charset_result(criteria, extra, r2),
    ensures
        r1 is Ok <==> r2 is Ok,
        r1 matches Ok(v1) ==> r2 matches Ok(v2) && v1@ == v2@,
        r1 is Err ==> r1 == r2,
{
    if let Ok(v1) = r1 {
        if let Ok(v2) = r2 {
            lemma_ascending_same_members(v1@, v2@);
        }
    }
}

/// Marks in `table` every byte of `bytes`.
fn mark_bytes(table: &mut Vec<bool>, bytes: &[u8])
    requires
        old(table).len() == 256,
    ensures
        final(table).len() == 256,
        forall|i: int| 0 <= i < 256 ==> final(table)[i] == (old(table)[i] || bytes@.contains(i as u8)),
{
    let mut k: usize = 0;
    while k < bytes.len()
        invariant
            k <= bytes.len(),
            table.len() == 256,
            forall|i: int|
                0 <= i < 256 ==> table[i] == (old(table)[i] || bytes@.subrange(0, k as int).contains(
                    i as u8,
                )),
        decreases bytes.len() - k,
    {
        let b = bytes[k];
        table.set(b as usize, true);
        proof {
            assert forall|i: int| 0 <= i < 256 implies table[i] == (old(table)[i] || bytes@.subrange(
                0,
                k + 1,
            ).contains(i as u8)) by {
                let prev = bytes@.subrange(0, k as int);
                let next = bytes@.subrange(0, k + 1);
                assert(next == prev.push(b));
                if prev.contains(i as u8) {
                    let j = choose|j: int| 0 <= j < prev.len() && prev[j] == i as u8;
                    assert(next[j] == i as u8);
                }
                if i == b as int {
                    assert(next[k as int] == b);
                }
                if next.contains(i as u8) {
                    let j = choose|j: int| 0 <= j < next.len() && next[j] == i as u8;
                    if j < k {
                        assert(prev[j] == i as u8);
                    }
                }
            }
        }
        k += 1;
    }
    assert(bytes@.subrange(0, bytes.len() as int) == bytes@);
}

/// The bytes marked in `table`, in ascending order.
fn collect_marked(table: &Vec<bool>) -> (r: Vec<u8>)
    requires
        table.len() == 256,
    ensures
        strictly_ascending(r@),
        forall|b: u8| r@.contains(b) <==> table[b as int],
{
    let mut r: Vec<u8> = Vec::new();
    let mut k: usize = 0;
    while k < 256
        invariant
            k <= 256,
            table.len() == 256,
            strictly_ascending(r@),
            forall|i: int| 0 <= i < r.len() ==> (r[i] as int) < k,
            forall|b: u8| r@.contains(b) <==> (b as int) < k && table[b as int],
        decreases 256 - k,
    {
        let ghost prev = r@;
        if table[k] {
            r.push(k as u8);
        }
        proof {
            assert forall|b: u8| r@.contains(b) <==> (b as int) < k + 1 && table[b as int] by {
                if r@.contains(b) {
                    let j = choose|j: int| 0 <= j < r.len() && r@[j] == b;
                    if j < prev.len() {
                        assert(prev[j] == b);
                    }
                }
                if prev.contains(b) {
                    let j = choose|j: int| 0 <= j < prev.len() && prev[j] == b;
                    assert(r@[j] == b);
                }
                if b as int == k && table[k as int] {
                    assert(r@[r.len() - 1] == b);
                }
            }
        }
        k += 1;
    }
    r
}

/// Creates the sorted, duplicate-free alphabet of a policy, together with
/// every byte of `extra_charset`.
pub fn create_charset(criteria: &PasswordCriteria, extra_charset: Option<&[u8]>) -> (r: Result<
    Vec<u8>,
    Error,
>)
    ensures
        charset_result(*criteria, extra_charset, r),
{
    let mut table: Vec<bool> = Vec::new();
    while table.len() < 256
        invariant
            table.len() <= 256,
            forall|i: int| 0 <= i < table.len() ==> !table[i],
        decreases 256 - table.len(),
    {
        table.push(false);
    }
    match criteria {
        PasswordCriteria::Alphanumeric => {
            mark_range(&mut table, 0x30, 0x39);
            mark_range(&mut table, 0x41, 0x5a);
            mark_range(&mut table, 0x61, 0x7a);
        },
        PasswordCriteria::UppercaseAndDigitsOnly => {
            mark_range(&mut table, 0x30, 0x39);
            mark_range(&mut table, 0x41, 0x5a);
        },
        PasswordCriteria::LowercaseAndDigitsOnly => {
            mark_range(&mut table, 0x30, 0x39);
            mark_range(&mut table, 0x61, 0x7a);
        },
        PasswordCriteria::DigitsOnly => {
            mark_range(&mut table, 0x30, 0x39);
        },
        PasswordCriteria::AllPrintableChars => {
            mark_range(&mut table, 0x20, 0x7e);
        },
        PasswordCriteria::BaseCharset(chars) => {
            mark_bytes(&mut table, chars);
        },
        PasswordCriteria::RegexPattern(p) => {
            let selected = match create_charset_from_regex(p) {
                Ok(selected) => selected,
                Err(e) => return Err(e),
            };
            mark_bytes(&mut table, selected.as_slice());
        },
    }
    assert forall|b: u8| table[b as int] <==> charset_allows(*criteria, b) by {}
    if let Some(extra) = extra_charset {
        mark_bytes(&mut table, extra);
    }
    assert forall|b: u8|
        table[b as int] <==> charset_allows(*criteria, b) || extra_contains(extra_charset, b) by {}
    let charset = collect_marked(&table);
    if charset.len() == 0 {
        assert forall|b: u8| !alphabet_allows(*criteria, extra_charset, b) by {
            if table[b as int] {
                assert(charset@.contains(b));
            }
        }
        return Err(Error::NoValidChars);
    }
    assert(charset@.contains(charset@[0]));
    assert(alphabet_allows(*criteria, extra_charset, charset@[0]));
    Ok(charset)
}

/// Marks in `table` every byte from `lo` to `hi`, both included.
fn mark_range(table: &mut Vec<bool>, lo: u8, hi: u8)
    requires
        old(table).len() == 256,
        lo <= hi,
    ensures
        final(table).len() == 256,
        forall|i: int| 0 <= i < 256 ==> final(table)[i] == (old(table)[i] || lo <= i <= hi),
{
    let mut b: u16 = lo as u16;
    while b <= hi as u16
        invariant
            lo <= b <= hi as u16 + 1,
            table.len() == 256,
            forall|i: int| 0 <= i < 256 ==> table[i] == (old(table)[i] || lo <= i < b),
        decreases hi as u16 + 1 - b,
    {
        table.set(b as usize, true);
        b = b + 1;
    }
}

} // verus!
