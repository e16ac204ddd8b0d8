use vstd::prelude::*;
use vstd::string::*;

verus! {

/// Relies on `String::push`: appends one character.
#[verifier::external_body]
pub(crate) fn push_char(s: &mut String, c: char)
    ensures
        final(s)@ == old(s)@.push(c),
{
    s.push(c)
}

/// Unicode scalar values: the code points that a `char` can hold.
pub open spec fn is_scalar_value(v: u32) -> bool {
    v < 0xd800 || (0xe000 <= v && v <= 0x10ffff)
}

/// Relies on `char::from_u32`: `Some` exactly for Unicode scalar values.
#[verifier::external_body]
fn char_from_u32(v: u32) -> (r: Option<char>)
    ensures
        r == (if is_scalar_value(v) {
            Some(v as char)
        } else {
            None::<char>
        }),
{
    char::from_u32(v)
}

/// The character that a backslash followed by `c` stands for, for the
/// single-character escapes.
pub open spec fn simple_escape(c: char) -> Option<char> {
    if c == '0' {
        Some('\0')
    } else if c == 'a' {
        Some('\u{0007}')
    } else if c == 'b' {
        Some('\u{0008}')
    } else if c == 't' {
        Some('\t')
    } else if c == 'n' {
        Some('\n')
    } else if c == 'v' {
        Some('\u{000b}')
    } else if c == 'f' {
        Some('\u{000c}')
    } else if c == 'r' {
        Some('\r')
    } else if c == 'e' {
        Some('\u{001b}')
    } else if c == '\\' {
        Some('\\')
    } else if c == '\'' {
        Some('\'')
    } else if c == '"' {
        Some('"')
    } else {
        None
    }
}

pub open spec fn hex_digit_value(c: char) -> Option<u32> {
    if '0' <= c && c <= '9' {
        Some((c as u32 - '0' as u32) as u32)
    } else if 'a' <= c && c <= 'f' {
        Some((c as u32 - 'a' as u32 + 10) as u32)
    } else if 'A' <= c && c <= 'F' {
        Some((c as u32 - 'A' as u32 + 10) as u32)
    } else {
        None
    }
}

/// The number of hexadecimal digits at the start of `s`, at most `limit`.
pub open spec fn hex_run(s: Seq<char>, limit: nat) -> nat
    decreases limit,
{
    if limit == 0 || s.len() == 0 || hex_digit_value(s[0]) is None {
        0
    } else {
        1 + hex_run(s.drop_first(), (limit - 1) as nat)
    }
}

/// The value of a sequence of hexadecimal digits.
pub open spec fn hex_number(digits: Seq<char>) -> nat
    decreases digits.len(),
{
    if digits.len() == 0 {
        0
    } else {
        (hex_number(digits.drop_last()) * 16 + hex_digit_value(digits.last())->0) as nat
    }
}

/// `s` with its escape sequences replaced. A backslash followed by one of
/// `0 a b t n v f r e \ ' "` stands for one character; `\u` followed by one to
/// four hexadecimal digits stands for that code point, and vanishes with its
/// digits where there are none or the code point is no character. Any other
/// backslash stays as it is.
pub open spec fn unescape(s: Seq<char>) -> Seq<char>
    decreases s.len()
    via unescape_decreases
{
    if s.len() == 0 {
        seq![]
    } else if s[0] == '\\' && s.len() >= 2 && simple_escape(s[1]) is Some {
        seq![simple_escape(s[1])->0] + unescape(s.subrange(2, s.len() as int))
    } else if s[0] == '\\' && s.len() >= 2 && s[1] == 'u' {
        let d = hex_run(s.subrange(2, s.len() as int), 4) as int;
        let rest = unescape(s.subrange(2 + d, s.len() as int));
        let v = hex_number(s.subrange(2, 2 + d));
        if d > 0 && is_scalar_value(v as u32) {
            seq![(v as u32) as char] + rest
        } else {
            rest
        }
    } else {
        seq![s[0]] + unescape(s.drop_first())
    }
}

proof fn lemma_hex_run_bound(t: Seq<char>, limit: nat)
    ensures
        hex_run(t, limit) <= t.len(),
        hex_run(t, limit) <= limit,
    decreases limit,
{
    if limit > 0 && t.len() > 0 {
        lemma_hex_run_bound(t.drop_first(), (limit - 1) as nat);
    }
}

#[via_fn]
proof fn unescape_decreases(s: Seq<char>) {
    if s.len() >= 2 {
        lemma_hex_run_bound(s.subrange(2, s.len() as int), 4);
    }
}

fn escaped_char(c: char) -> (r: Option<char>)
    ensures
        r == simple_escape(c),
{
    if c == '0' {
        Some('\0')
    } else if c == 'a' {
        Some('\u{0007}')
    } else if c == 'b' {
        Some('\u{0008}')
    } else if c == 't' {
        Some('\t')
    } else if c == 'n' {
        Some('\n')
    } else if c == 'v' {
        Some('\u{000b}')
    } else if c == 'f' {
        Some('\u{000c}')
    } else if c == 'r' {
        Some('\r')
    } else if c == 'e' {
        Some('\u{001b}')
    } else if c == '\\' {
        Some('\\')
    } else if c == '\'' {
        Some('\'')
    } else if c == '"' {
        Some('"')
    } else {
        None
    }
}

fn hex_digit(c: char) -> (r: Option<u32>)
    ensures
        r == hex_digit_value(c),
{
    if '0' <= c && c <= '9' {
        Some(c as u32 - '0' as u32)
    } else if 'a' <= c && c <= 'f' {
        Some(c as u32 - 'a' as u32 + 10)
    } else if 'A' <= c && c <= 'F' {
        Some(c as u32 - 'A' as u32 + 10)
    } else {
        None
    }
}

proof fn lemma_hex_run(t: Seq<char>, limit: nat, j: nat)
    requires
        j <= limit,
        j <= t.len(),
        forall|q: int| 0 <= q < j ==> hex_digit_value(#[trigger] t[q]) is Some,
        j == limit || j == t.len() || hex_digit_value(t[j as int]) is None,
    ensures
        hex_run(t, limit) == j,
    decreases j,
{
    if j > 0 {
        assert(hex_digit_value(t[0]) is Some);
        let u = t.drop_first();
        assert forall|q: int| 0 <= q < j - 1 implies hex_digit_value(#[trigger] u[q]) is Some by {
            assert(u[q] == t[q + 1]);
        }
        if j < t.len() {
            assert(u[j - 1] == t[j as int]);
        }
        lemma_hex_run(u, (limit - 1) as nat, (j - 1) as nat);
    }
}

/// Replaces the escape sequences of `input` by the characters they stand for.
pub fn parse_escape_sequences(input: &str) -> (r: String)
    ensures
        r@ == unescape(input@),
{
    let len = input.unicode_len();
    let ghost s = input@;
    let mut result = String::new();
    let mut i: usize = 0;
    proof {
        assert(s.subrange(0, len as int) == s);
        assert(result@ + unescape(s) == unescape(s));
    }
    while i < len
        invariant
            len == s.len(),
            s == input@,
            i <= len,
            result@ + unescape(s.subrange(i as int, len as int)) == unescape(s),
        decreases len - i,
    {
        let ghost rest = s.subrange(i as int, len as int);
        let ghost before = result@;
        let c = input.get_char(i);
        if c == '\\' && i + 1 < len {
            let next = input.get_char(i + 1);
            match escaped_char(next) {
                Some(e) => {
                    push_char(&mut result, e);
                    proof {
                        assert(rest.subrange(2, rest.len() as int) == s.subrange(i + 2, len as int));
                        assert(result@ + unescape(s.subrange(i + 2, len as int)) == before + unescape(rest));
                    }
                    i = i + 2;
                },
                None => {
                    if next == 'u' {
                        let mut value: u32 = 0;
                        let mut j: usize = 0;
                        let mut stop = false;
                        let ghost t = s.subrange(i + 2, len as int);
                        while !stop && j < 4 && i + 2 + j < len
                            invariant
                                stop ==> j < t.len() && hex_digit_value(t[j as int]) is None,
                                t == s.subrange(i + 2, len as int),
                                s == input@,
                                len == s.len(),
                                i + 2 <= len,
                                j <= 4,
                                i + 2 + j <= len,
                                forall|q: int| 0 <= q < j ==> hex_digit_value(#[trigger] t[q]) is Some,
                                value == hex_number(t.subrange(0, j as int)),
                                value < 0x10000 && (j < 4 ==> value < power16(j as nat)),
                            decreases 4 - j, if stop { 0int } else { 1int },
                        {
                            match hex_digit(input.get_char(i + 2 + j)) {
                                Some(d) => {
                                    proof {
                                        assert(t[j as int] == s[i + 2 + j]);
                                        assert(t.subrange(0, j + 1).drop_last() == t.subrange(0, j as int));
                                        reveal_with_fuel(power16, 5);
                                        assert(value * 16 + d < 0x10000 && (j + 1 < 4 ==> value * 16 + d < power16((j + 1) as nat))) by (nonlinear_arith)
                                            requires
                                                d < 16,
                                                j < 4,
                                                j < 4 ==> value < power16(j as nat),
                                                power16(0) == 1, power16(1) == 16, power16(2) == 256,
                                                power16(3) == 4096, power16(4) == 65536,
                                                j == 0 || j == 1 || j == 2 || j == 3,
                                        ;
                                    }
                                    value = value * 16 + d;
                                    j += 1;
                                },
                                None => {
                                    proof {
                                        assert(t[j as int] == s[i + 2 + j]);
                                    }
                                    stop = true;
                                },
                            }
                        }
                        proof {
                            lemma_hex_run(t, 4, j as nat);
                            assert(rest.subrange(2, rest.len() as int) == t);
                            assert(rest.subrange(2, 2 + j) == t.subrange(0, j as int));
                            assert(rest.subrange(2 + j, rest.len() as int) == s.subrange(i + 2 + j, len as int));
                        }
                        if j > 0 {
                            match char_from_u32(value) {
                                Some(ch) => push_char(&mut result, ch),
                                None => {},
                            }
                        }
                        proof {
                            assert(result@ + unescape(s.subrange(i + 2 + j, len as int)) == before + unescape(rest));
                        }
                        i = i + 2 + j;
                    } else {
                        push_char(&mut result, c);
                        proof {
                            assert(rest.drop_first() == s.subrange(i + 1, len as int));
                            assert(result@ + unescape(s.subrange(i + 1, len as int)) == before + unescape(rest));
                        }
                        i = i + 1;
                    }
                },
            }
        } else {
            push_char(&mut result, c);
            proof {
                assert(rest.drop_first() == s.subrange(i + 1, len as int));
                assert(result@ + unescape(s.subrange(i + 1, len as int)) == before + unescape(rest));
            }
            i = i + 1;
        }
    }
    proof {
        assert(s.subrange(len as int, len as int) == Seq::<char>::empty());
        assert(result@ + seq![] == result@);
    }
    result
}

pub open spec fn power16(e: nat) -> nat
    decreases e,
{
    if e == 0 {
        1
    } else {
        16 * power16((e - 1) as nat)
    }
}

/// The text printed after a password: the unescaped delimiter between
/// passwords, or a newline, which `no_newline` leaves out after the last one.
pub fn get_newline(delimiter: Option<&str>, last_line: bool, no_newline: bool) -> (r: String)
    ensures
        r@ == match delimiter {
            Some(d) => if last_line {
                Seq::<char>::empty()
            } else {
                unescape(d@)
            },
            None => if last_line && no_newline {
                Seq::<char>::empty()
            } else {
                seq!['\n']
            },
        },
{
    match delimiter {
        Some(delimiter) => {
            if last_line {
                String::new()
            } else {
                parse_escape_sequences(delimiter)
            }
        },
        None => {
            let mut r = String::new();
            if !(last_line && no_newline) {
                push_char(&mut r, '\n');
            }
            r
        },
    }
}

} // verus!
