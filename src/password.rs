use crate::criteria::{is_digit, is_lower, is_printable, is_upper, PasswordCriteria};
use crate::errors::Error;
use rand::rngs::OsRng;
use rand::seq::SliceRandom;
use rand::Rng;
use vstd::prelude::*;
use vstd::utf8::*;

verus! {

broadcast use vstd::seq_lib::group_to_multiset_ensures;

/// Relies on `rand::Rng::gen_range` with `OsRng`: a value of the range
/// `0..bound`, which panics where that range is empty.
#[verifier::external_body]
fn random_index(bound: usize) -> (r: usize)
    requires
        bound > 0,
    ensures
        r < bound,
{
    OsRng.gen_range(0..bound)
}

/// Relies on `rand::seq::SliceRandom::choose` with `OsRng`: one element of a
/// non-empty slice, and `None` for an empty one.
#[verifier::external_body]
fn choose_byte(v: &Vec<u8>) -> (r: Option<u8>)
    ensures
        r is None <==> v@.len() == 0,
        r matches Some(b) ==> v@.contains(b),
{
    v.choose(&mut OsRng).copied()
}

/// Relies on `rand::seq::SliceRandom::shuffle` with `OsRng`: it only swaps
/// elements, so the result is a permutation.
#[verifier::external_body]
fn shuffle_bytes(v: &mut Vec<u8>)
    ensures
        final(v)@.to_multiset() == old(v)@.to_multiset(),
{
    v.shuffle(&mut OsRng)
}

/// Relies on `String::from_utf8`: `Ok` exactly for valid UTF-8, holding the
/// text that the bytes encode.
#[verifier::external_body]
fn string_from_utf8(bytes: Vec<u8>) -> (r: Option<String>)
    ensures
        r is Some <==> valid_utf8(bytes@),
        r matches Some(s) ==> s@ == decode_utf8(bytes@),
{
    String::from_utf8(bytes).ok()
}

/// The printable ASCII characters that are neither letters nor digits.
pub open spec fn is_symbol(b: u8) -> bool {
    is_printable(b) && !(is_digit(b) || is_upper(b) || is_lower(b))
}

pub open spec fn is_ascii_byte(b: u8) -> bool {
    b < 0x80
}

pub open spec fn extra_bytes(extra: Option<&[u8]>) -> Seq<u8> {
    match extra {
        Some(e) => e@,
        None => seq![],
    }
}

pub open spec fn option_bytes(b: Option<u8>) -> Seq<u8> {
    match b {
        Some(x) => seq![x],
        None => seq![],
    }
}

/// The number of characters placed before the random fill: the extra bytes,
/// and one symbol for the all-printable policy.
pub open spec fn forced_len(criteria: PasswordCriteria, extra: Option<&[u8]>) -> nat {
    extra_bytes(extra).len() + if criteria is AllPrintableChars {
        1nat
    } else {
        0nat
    }
}

/// The number of characters drawn from the base set.
pub open spec fn fill_len(length: nat, criteria: PasswordCriteria, extra: Option<&[u8]>) -> nat {
    if length > forced_len(criteria, extra) {
        (length - forced_len(criteria, extra)) as nat
    } else {
        0
    }
}

/// `pw` is one of the byte sequences that a password can be made of: the
/// extra bytes, one symbol for the all-printable policy, and enough bytes
/// of the base set to reach the length, in any order.
pub open spec fn is_password_draw(
    length: nat,
    base: Seq<u8>,
    criteria: PasswordCriteria,
    extra: Option<&[u8]>,
    pw: Seq<u8>,
) -> bool {
    exists|special: Seq<u8>, fill: Seq<u8>|
        {
            &&& special.len() == (if criteria is AllPrintableChars {
                1nat
            } else {
                0nat
            })
            &&& forall|i: int| 0 <= i < special.len() ==> is_symbol(#[trigger] special[i])
            &&& fill.len() == fill_len(length, criteria, extra)
            &&& forall|i: int| 0 <= i < fill.len() ==> base.contains(#[trigger] fill[i])
            &&& pw.to_multiset() == (extra_bytes(extra) + special + fill).to_multiset()
        }
}

/// A drawn password is as long as requested, or as the forced characters
/// where they need more.
pub proof fn lemma_draw_length(
    length: nat,
    base: Seq<u8>,
    criteria: PasswordCriteria,
    extra: Option<&[u8]>,
    pw: Seq<u8>,
)
    requires
        is_password_draw(length, base, criteria, extra, pw),
    ensures
        pw.len() == if length > forced_len(criteria, extra) {
            length
        } else {
            forced_len(criteria, extra)
        },
{
    let (special, fill) = choose|special: Seq<u8>, fill: Seq<u8>|
        {
            &&& special.len() == (if criteria is AllPrintableChars {
                1nat
            } else {
                0nat
            })
            &&& forall|i: int| 0 <= i < special.len() ==> is_symbol(#[trigger] special[i])
            &&& fill.len() == fill_len(length, criteria, extra)
            &&& forall|i: int| 0 <= i < fill.len() ==> base.contains(#[trigger] fill[i])
            &&& pw.to_multiset() == (extra_bytes(extra) + special + fill).to_multiset()
        };
    assert(pw.to_multiset().len() == pw.len());
    assert((extra_bytes(extra) + special + fill).to_multiset().len() == (extra_bytes(extra)
        + special + fill).len());
}

/// Every extra character appears in a drawn password, as often as it does
/// among the extra characters.
pub proof fn lemma_draw_holds_extra(
    length: nat,
    base: Seq<u8>,
    criteria: PasswordCriteria,
    extra: Option<&[u8]>,
    pw: Seq<u8>,
)
    requires
        is_password_draw(length, base, criteria, extra, pw),
    ensures
        extra_bytes(extra).to_multiset().subset_of(pw.to_multiset()),
        forall|i: int| 0 <= i < extra_bytes(extra).len() ==> pw.contains(#[trigger] extra_bytes(extra)[i]),
{
    let (special, fill) = choose|special: Seq<u8>, fill: Seq<u8>|
        {
            &&& special.len() == (if criteria is AllPrintableChars {
                1nat
            } else {
                0nat
            })
            &&& forall|i: int| 0 <= i < special.len() ==> is_symbol(#[trigger] special[i])
            &&& fill.len() == fill_len(length, criteria, extra)
            &&& forall|i: int| 0 <= i < fill.len() ==> base.contains(#[trigger] fill[i])
            &&& pw.to_multiset() == (extra_bytes(extra) + special + fill).to_multiset()
        };
    let e = extra_bytes(extra);
    vstd::seq_lib::lemma_multiset_commutative(e + special, fill);
    vstd::seq_lib::lemma_multiset_commutative(e, special);
    assert forall|i: int| 0 <= i < e.len() implies pw.contains(#[trigger] e[i]) by {
        assert(e.contains(e[i]));
        assert(e.to_multiset().count(e[i]) > 0);
        assert(pw.to_multiset().count(e[i]) > 0);
    }
}

/// Without extra characters, and under a policy that adds no symbol, a
/// drawn password has exactly the requested length and holds only bytes of
/// the base set.
pub proof fn lemma_draw_from_base(
    length: nat,
    base: Seq<u8>,
    criteria: PasswordCriteria,
    pw: Seq<u8>,
)
    requires
        is_password_draw(length, base, criteria, None, pw),
        !(criteria is AllPrintableChars),
    ensures
        pw.len() == length,
        forall|i: int| 0 <= i < pw.len() ==> base.contains(#[trigger] pw[i]),
{
    let (special, fill) = choose|special: Seq<u8>, fill: Seq<u8>|
        {
            &&& special.len() == (if criteria is AllPrintableChars {
                1nat
            } else {
                0nat
            })
            &&& forall|i: int| 0 <= i < special.len() ==> is_symbol(#[trigger] special[i])
            &&& fill.len() == fill_len(length, criteria, None)
            &&& forall|i: int| 0 <= i < fill.len() ==> base.contains(#[trigger] fill[i])
            &&& pw.to_multiset() == (extra_bytes(None) + special + fill).to_multiset()
        };
    lemma_draw_length(length, base, criteria, None, pw);
    let all = extra_bytes(None) + special + fill;
    assert(all == fill);
    assert forall|i: int| 0 <= i < pw.len() implies base.contains(#[trigger] pw[i]) by {
        assert(pw.contains(pw[i]));
        assert(pw.to_multiset().count(pw[i]) > 0);
        assert(fill.to_multiset().count(pw[i]) > 0);
        assert(fill.contains(pw[i]));
        let j = choose|j: int| 0 <= j < fill.len() && fill[j] == pw[i];
    }
}

/// The symbols, in ascending order.
fn symbols() -> (r: Vec<u8>)
    ensures
        r@.len() > 0,
        forall|b: u8| r@.contains(b) <==> is_symbol(b),
{
    let mut r: Vec<u8> = Vec::new();
    let mut b: u8 = 0x20;
    while b <= 0x7e
        invariant
            0x20 <= b <= 0x7f,
            forall|c: u8| #[trigger] r@.contains(c) <==> c < b && is_symbol(c),
        decreases 0x7f - b,
    {
        let ghost prev = r@;
        if !((0x30 <= b && b <= 0x39) || (0x41 <= b && b <= 0x5a) || (0x61 <= b && b <= 0x7a)) {
            r.push(b);
        }
        proof {
            assert forall|c: u8| #[trigger] r@.contains(c) <==> c < b + 1 && is_symbol(c) by {
                if r@.contains(c) {
                    let j = choose|j: int| 0 <= j < r.len() && r@[j] == c;
                    if j < prev.len() {
                        assert(prev[j] == c);
                    }
                }
                if prev.contains(c) {
                    let j = choose|j: int| 0 <= j < prev.len() && prev[j] == c;
                    assert(r@[j] == c);
                }
                if c == b && is_symbol(c) {
                    assert(r@[r.len() - 1] == c);
                }
            }
        }
        b = b + 1;
    }
    assert(is_symbol(0x20));
    assert(r@.contains(0x20));
    r
}

/// The bytes of a password before shuffling: the extra bytes, then the
/// special byte if any, then the base bytes at `indices`.
pub fn assemble_password(
    extra_charset: Option<&[u8]>,
    special: Option<u8>,
    base_charset: &[u8],
    indices: &[usize],
) -> (r: Vec<u8>)
    requires
        forall|i: int| 0 <= i < indices@.len() ==> indices@[i] < base_charset@.len(),
    ensures
        r@ == extra_bytes(extra_charset) + option_bytes(special) + indices@.map_values(
            |i: usize| base_charset@[i as int],
        ),
{
    let mut r: Vec<u8> = Vec::new();
    if let Some(extra) = extra_charset {
        let mut k: usize = 0;
        while k < extra.len()
            invariant
                k <= extra.len(),
                r@ == extra@.subrange(0, k as int),
            decreases extra.len() - k,
        {
            r.push(extra[k]);
            assert(r@ == extra@.subrange(0, k + 1));
            k += 1;
        }
        assert(extra@.subrange(0, extra.len() as int) == extra@);
    }
    assert(r@ == extra_bytes(extra_charset));
    if let Some(b) = special {
        r.push(b);
    }
    let ghost head = r@;
    assert(head == extra_bytes(extra_charset) + option_bytes(special));
    let mut k: usize = 0;
    while k < indices.len()
        invariant
            k <= indices.len(),
            forall|i: int| 0 <= i < indices@.len() ==> indices@[i] < base_charset@.len(),
            r@ == head + indices@.subrange(0, k as int).map_values(|i: usize| base_charset@[i as int]),
        decreases indices.len() - k,
    {
        let idx = indices[k];
        r.push(base_charset[idx]);
        assert(indices@.subrange(0, k + 1).map_values(|i: usize| base_charset@[i as int])
            == indices@.subrange(0, k as int).map_values(|i: usize| base_charset@[i as int]).push(
            base_charset@[idx as int],
        ));
        k += 1;
    }
    assert(indices@.subrange(0, k as int) == indices@);
    r
}

proof fn lemma_ascii_utf8(pw: Seq<u8>)
    requires
        forall|i: int| 0 <= i < pw.len() ==> is_ascii_byte(#[trigger] pw[i]),
    ensures
        valid_utf8(pw),
        decode_utf8(pw) == pw.map_values(|b: u8| b as char),
{
    let chars = pw.map_values(|b: u8| b as char);
    assert(is_ascii_chars(chars));
    is_ascii_chars_encode_utf8(chars);
    assert(encode_utf8(chars) == pw);
    encode_utf8_valid_utf8(chars);
    encode_utf8_decode_utf8(chars);
}

/// Creates a password of `password_length` characters, or more where the
/// forced characters need more: the extra bytes, one random symbol for the
/// all-printable policy, and random bytes of `base_charset`, shuffled.
pub fn create_password(
    password_length: usize,
    base_charset: &[u8],
    criteria: &PasswordCriteria,
    extra_charset: Option<&[u8]>,
) -> (r: Result<String, Error>)
    requires
        base_charset@.len() > 0 || fill_len(password_length as nat, *criteria, extra_charset) == 0,
    ensures
        r is Ok || r == Err::<String, Error>(Error::Default),
        (forall|i: int| 0 <= i < base_charset@.len() ==> is_ascii_byte(#[trigger] base_charset@[i]))
            && (forall|i: int|
            0 <= i < extra_bytes(extra_charset).len() ==> is_ascii_byte(
                #[trigger] extra_bytes(extra_charset)[i],
            )) ==> r is Ok,
        r matches Ok(p) ==> exists|pw: Seq<u8>|
            is_password_draw(password_length as nat, base_charset@, *criteria, extra_charset, pw)
                && valid_utf8(pw) && p@ == decode_utf8(pw),
        r is Err ==> exists|pw: Seq<u8>|
            is_password_draw(password_length as nat, base_charset@, *criteria, extra_charset, pw)
                && !valid_utf8(pw),
{
    let mut special: Option<u8> = None;
    if let PasswordCriteria::AllPrintableChars = criteria {
        let candidates = symbols();
        special = choose_byte(&candidates);
    }
    let extra_len: usize = match extra_charset {
        Some(e) => e.len(),
        None => 0,
    };
    let special_len: usize = match special {
        Some(_) => 1,
        None => 0,
    };
    let remaining = password_length.saturating_sub(extra_len).saturating_sub(special_len);
    let mut indices: Vec<usize> = Vec::new();
    while indices.len() < remaining
        invariant
            remaining == fill_len(password_length as nat, *criteria, extra_charset),
            base_charset@.len() > 0 || remaining == 0,
            indices.len() <= remaining,
            forall|i: int| 0 <= i < indices@.len() ==> indices@[i] < base_charset@.len(),
        decreases remaining - indices.len(),
    {
        let idx = random_index(base_charset.len());
        indices.push(idx);
    }
    let assembled = assemble_password(extra_charset, special, base_charset, indices.as_slice());
    let ghost fill = indices@.map_values(|i: usize| base_charset@[i as int]);
    let ghost spec_seq = option_bytes(special);
    let mut bytes = assembled;
    shuffle_bytes(&mut bytes);
    let ghost pw = bytes@;
    proof {
        assert(forall|i: int| 0 <= i < fill.len() ==> base_charset@.contains(#[trigger] fill[i]));
        assert(forall|i: int| 0 <= i < spec_seq.len() ==> is_symbol(#[trigger] spec_seq[i]));
        assert(is_password_draw(password_length as nat, base_charset@, *criteria, extra_charset, pw));
        let all = extra_bytes(extra_charset) + spec_seq + fill;
        if (forall|i: int| 0 <= i < base_charset@.len() ==> is_ascii_byte(#[trigger] base_charset@[i]))
            && (forall|i: int|
            0 <= i < extra_bytes(extra_charset).len() ==> is_ascii_byte(
                #[trigger] extra_bytes(extra_charset)[i],
            )) {
            assert forall|i: int| 0 <= i < pw.len() implies is_ascii_byte(#[trigger] pw[i]) by {
                assert(pw.contains(pw[i]));
                assert(pw.to_multiset() == all.to_multiset());
                assert(pw.to_multiset().count(pw[i]) > 0);
                assert(all.to_multiset().count(pw[i]) > 0);
                assert(all.contains(pw[i]));
                let j = choose|j: int| 0 <= j < all.len() && all[j] == pw[i];
                let el = extra_bytes(extra_charset).len();
                if j < el {
                    assert(all[j] == extra_bytes(extra_charset)[j]);
                } else if j < el + spec_seq.len() {
                    assert(all[j] == spec_seq[j - el]);
                } else {
                    assert(all[j] == fill[j - el - spec_seq.len()]);
                    let b = fill[j - el - spec_seq.len()];
                    let k = choose|k: int| 0 <= k < base_charset@.len() && base_charset@[k] == b;
                }
            }
            lemma_ascii_utf8(pw);
        }
    }
    match string_from_utf8(bytes) {
        Some(password) => Ok(password),
        None => Err(Error::Default),
    }
}

} // verus!
