//! Character-level helpers shared by the protocol, the store and the client:
//! whitespace, decimal rendering and parsing of integers, UTF-8 decoding.
use vstd::prelude::*;
use vstd::utf8::*;

verus! {

// ---------------------------------------------------------------------------
// Characters
// ---------------------------------------------------------------------------

/// Unicode `White_Space`, the set that `char::is_whitespace` documents.
pub open spec fn is_ws(c: char) -> bool {
    let u = c as u32;
    ||| 9 <= u <= 13
    ||| u == 32
    ||| u == 0x85
    ||| u == 0xA0
    ||| u == 0x1680
    ||| 0x2000 <= u <= 0x200A
    ||| u == 0x2028
    ||| u == 0x2029
    ||| u == 0x202F
    ||| u == 0x205F
    ||| u == 0x3000
}

pub fn is_whitespace(c: char) -> (b: bool)
    ensures
        b == is_ws(c),
{
    let u = c as u32;
    (9 <= u && u <= 13) || u == 32 || u == 0x85 || u == 0xA0 || u == 0x1680 || (0x2000 <= u && u
        <= 0x200A) || u == 0x2028 || u == 0x2029 || u == 0x202F || u == 0x205F || u == 0x3000
}

pub open spec fn is_digit_char(c: char) -> bool {
    48 <= (c as u32) <= 57
}

pub open spec fn digit_value(c: char) -> int {
    (c as u32) - 48
}

pub open spec fn digit_char(d: int) -> char {
    ((48 + d) as u32) as char
}

/// ASCII upper-casing of one character, as `char::make_ascii_uppercase` does it.
pub open spec fn ascii_upper(c: char) -> char {
    if 97 <= (c as u32) <= 122 {
        ((c as u32) - 32) as char
    } else {
        c
    }
}

pub open spec fn ascii_upper_seq(s: Seq<char>) -> Seq<char> {
    Seq::new(s.len(), |i: int| ascii_upper(s[i]))
}

/// The characters of a string slice, in order.
pub fn chars_of(s: &str) -> (v: Vec<char>)
    ensures
        v@ == s@,
{
    broadcast use vstd::string::group_string_axioms;

    let mut v: Vec<char> = Vec::new();
    let mut it = s.chars();
    loop
        invariant
            v@ + vstd::std_specs::iter::IteratorSpec::remaining(&it) == s@,
            vstd::std_specs::iter::IteratorSpec::decrease(&it) is Some,
        ensures
            v@ == s@,
        decreases vstd::std_specs::iter::IteratorSpec::decrease(&it)->0,
    {
        match it.next() {
            Some(c) => {
                v.push(c);
            },
            None => {
                break ;
            },
        }
    }
    v
}

/// Appends one character to a string (`String::push`).
#[verifier::external_body]
pub(crate) fn push_char(s: &mut String, c: char)
    ensures
        final(s)@ == old(s)@.push(c),
{
    s.push(c);
}

/// Appends a string slice to a string.
pub fn push_str(s: &mut String, t: &str)
    ensures
        final(s)@ == old(s)@ + t@,
{
    let cs = chars_of(t);
    push_chars(s, &cs);
}

/// Appends characters to a string.
pub fn push_chars(s: &mut String, cs: &[char])
    ensures
        final(s)@ == old(s)@ + cs@,
{
    let mut i: usize = 0;
    while i < cs.len()
        invariant
            i <= cs@.len(),
            s@ == old(s)@ + cs@.take(i as int),
        decreases cs.len() - i,
    {
        push_char(s, cs[i]);
        i += 1;
        proof {
            assert(cs@.take(i as int) =~= cs@.take(i - 1).push(cs@[i - 1]));
        }
    }
    proof {
        assert(cs@.take(i as int) =~= cs@);
    }
}

/// A string holding the given characters.
pub fn string_from(cs: &[char]) -> (s: String)
    ensures
        s@ == cs@,
{
    let mut s = String::new();
    push_chars(&mut s, cs);
    proof {
        assert(s@ =~= cs@);
    }
    s
}

// ---------------------------------------------------------------------------
// Decimal rendering
// ---------------------------------------------------------------------------

/// The decimal digits of a natural number, most significant first.
pub open spec fn dec_nat(n: nat) -> Seq<char>
    decreases n,
{
    if n < 10 {
        seq![digit_char(n as int)]
    } else {
        dec_nat(n / 10).push(digit_char((n % 10) as int))
    }
}

/// The decimal rendering of an integer: a minus sign before negative numbers.
pub open spec fn dec_int(n: int) -> Seq<char> {
    if n < 0 {
        seq!['-'] + dec_nat((-n) as nat)
    } else {
        dec_nat(n as nat)
    }
}

/// The bytes of the decimal rendering of a natural number.
pub open spec fn dec_bytes(n: nat) -> Seq<u8> {
    dec_nat(n).map_values(|c: char| c as u8)
}

fn digit(d: u64) -> (c: char)
    requires
        d < 10,
    ensures
        c == digit_char(d as int),
{
    ((48 + d) as u8) as char
}

/// Appends the decimal digits of `n`.
pub fn push_dec_u64(out: &mut String, n: u64)
    ensures
        final(out)@ == old(out)@ + dec_nat(n as nat),
    decreases n,
{
    if n >= 10 {
        push_dec_u64(out, n / 10);
    }
    push_char(out, digit(n % 10));
    proof {
        if n >= 10 {
            assert(dec_nat(n as nat) == dec_nat((n / 10) as nat).push(digit_char((n % 10) as int)));
        }
    }
}

/// Appends the decimal rendering of `n`, with a leading `-` when negative.
pub fn push_dec_i64(out: &mut String, n: i64)
    ensures
        final(out)@ == old(out)@ + dec_int(n as int),
{
    if n < 0 {
        push_char(out, '-');
        let m: u64 = (0 - (n as i128)) as u64;
        push_dec_u64(out, m);
    } else {
        push_dec_u64(out, n as u64);
    }
}

/// Appends the decimal digits of `n` as bytes.
pub fn push_dec_bytes(out: &mut Vec<u8>, n: u64)
    ensures
        final(out)@ == old(out)@ + dec_bytes(n as nat),
    decreases n,
{
    if n >= 10 {
        push_dec_bytes(out, n / 10);
    }
    out.push((48 + n % 10) as u8);
    proof {
        let d = dec_nat(n as nat);
        if n >= 10 {
            let h = dec_nat((n / 10) as nat);
            assert(d == h.push(digit_char((n % 10) as int)));
            assert(d.map_values(|c: char| c as u8) =~= h.map_values(|c: char| c as u8).push(
                (48 + n % 10) as u8,
            ));
        } else {
            assert(d.map_values(|c: char| c as u8) =~= seq![(48 + n % 10) as u8]);
        }
    }
}

/// A decimal rendering of `n` as a string.
pub fn i64_to_string(n: i64) -> (s: String)
    ensures
        s@ == dec_int(n as int),
{
    let mut s = String::new();
    push_dec_i64(&mut s, n);
    proof {
        assert(s@ =~= dec_int(n as int));
    }
    s
}

// ---------------------------------------------------------------------------
// Decimal parsing, as `str::parse` for `u64` and `i64` does it
// ---------------------------------------------------------------------------

/// Why a string is not an integer of the target type (`std::num::IntErrorKind`).
#[derive(Debug, PartialEq, Eq, Structural, Clone, Copy)]
pub enum IntErrorKind {
    Empty,
    InvalidDigit,
    PosOverflow,
}

impl IntErrorKind {
    /// The message that `ParseIntError` displays for this kind.
    pub open spec fn message_spec(self) -> Seq<char> {
        match self {
            IntErrorKind::Empty => "cannot parse integer from empty string"@,
            IntErrorKind::InvalidDigit => "invalid digit found in string"@,
            IntErrorKind::PosOverflow => "number too large to fit in target type"@,
        }
    }

    pub fn message(&self) -> (s: String)
        ensures
            s@ == self.message_spec(),
    {
        match self {
            IntErrorKind::Empty => "cannot parse integer from empty string".to_string(),
            IntErrorKind::InvalidDigit => "invalid digit found in string".to_string(),
            IntErrorKind::PosOverflow => "number too large to fit in target type".to_string(),
        }
    }
}

/// Reads digits left to right into `acc`; the first character that is no digit,
/// or the first digit that takes the value past `u64::MAX`, decides the error.
pub open spec fn u64_digits(s: Seq<char>, acc: int) -> Result<int, IntErrorKind>
    decreases s.len(),
{
    if s.len() == 0 {
        Ok(acc)
    } else if !is_digit_char(s[0]) {
        Err(IntErrorKind::InvalidDigit)
    } else if acc * 10 + digit_value(s[0]) > u64::MAX {
        Err(IntErrorKind::PosOverflow)
    } else {
        u64_digits(s.drop_first(), acc * 10 + digit_value(s[0]))
    }
}

/// `s.parse::<u64>()`: an optional `+`, then one digit or more.
pub open spec fn parse_u64_spec(s: Seq<char>) -> Result<u64, IntErrorKind> {
    if s.len() == 0 {
        Err(IntErrorKind::Empty)
    } else if s.len() == 1 && (s[0] == '+' || s[0] == '-') {
        Err(IntErrorKind::InvalidDigit)
    } else {
        let body = if s[0] == '+' {
            s.drop_first()
        } else {
            s
        };
        match u64_digits(body, 0) {
            Ok(v) => Ok(v as u64),
            Err(e) => Err(e),
        }
    }
}

pub open spec fn all_digits(s: Seq<char>) -> bool {
    forall|i: int| 0 <= i < s.len() ==> #[trigger] is_digit_char(s[i])
}

/// The value of a run of decimal digits.
pub open spec fn digits_value(s: Seq<char>) -> nat
    decreases s.len(),
{
    if s.len() == 0 {
        0
    } else {
        (digits_value(s.drop_last()) * 10 + digit_value(s.last())) as nat
    }
}

/// `s.parse::<i64>()`, success or failure: an optional sign, then one digit or more,
/// with a value that fits in `i64`.
pub open spec fn parse_i64_spec(s: Seq<char>) -> Option<i64> {
    if s.len() == 0 || (s.len() == 1 && (s[0] == '+' || s[0] == '-')) {
        None
    } else if s[0] == '-' {
        let body = s.drop_first();
        if all_digits(body) && digits_value(body) <= 0x8000_0000_0000_0000 {
            Some((0 - digits_value(body)) as i64)
        } else {
            None
        }
    } else {
        let body = if s[0] == '+' {
            s.drop_first()
        } else {
            s
        };
        if all_digits(body) && digits_value(body) <= i64::MAX {
            Some(digits_value(body) as i64)
        } else {
            None
        }
    }
}

proof fn lemma_digits_value_take(s: Seq<char>, i: int)
    requires
        0 <= i < s.len(),
        all_digits(s),
    ensures
        digits_value(s.take(i + 1)) == digits_value(s.take(i)) * 10 + digit_value(s[i]),
{
    let t = s.take(i + 1);
    assert(t.drop_last() =~= s.take(i));
    assert(t.last() == s[i]);
    assert(digits_value(t) == (digits_value(t.drop_last()) * 10 + digit_value(t.last())) as nat);
    assert(is_digit_char(s[i]));
}

proof fn lemma_digits_value_mono(s: Seq<char>, i: int)
    requires
        0 <= i <= s.len(),
        all_digits(s),
    ensures
        digits_value(s.take(i)) <= digits_value(s),
    decreases s.len() - i,
{
    if i < s.len() {
        lemma_digits_value_take(s, i);
        lemma_digits_value_mono(s, i + 1);
        let x = digits_value(s.take(i));
        let d = digit_value(s[i]);
        assert(is_digit_char(s[i]));
        assert(x <= x * 10 + d) by (nonlinear_arith)
            requires
                x >= 0,
                d >= 0,
        ;
    } else {
        assert(s.take(i) =~= s);
    }
}

/// Reads the digits `cs[start..]` with a limit; `None` when one is no digit or the
/// value exceeds `limit`.
fn digits_upto(cs: &[char], start: usize, limit: u64) -> (r: Option<u64>)
    requires
        start <= cs@.len(),
        limit >= 9,
    ensures
        ({
            let body = cs@.subrange(start as int, cs@.len() as int);
            match r {
                Some(v) => all_digits(body) && v == digits_value(body) && v <= limit,
                None => !(all_digits(body) && digits_value(body) <= limit),
            }
        }),
{
    let ghost body = cs@.subrange(start as int, cs@.len() as int);
    let mut acc: u64 = 0;
    let mut i: usize = start;
    while i < cs.len()
        invariant
            start <= i <= cs@.len(),
            body == cs@.subrange(start as int, cs@.len() as int),
            all_digits(body.take(i - start)),
            acc == digits_value(body.take(i - start)),
            acc <= limit,
            limit >= 9,
        decreases cs.len() - i,
    {
        let c = cs[i];
        let u = c as u32;
        if !(48 <= u && u <= 57) {
            proof {
                assert(body[i - start] == c);
                assert(!is_digit_char(body[i - start]));
            }
            return None;
        }
        let d = (u - 48) as u64;
        proof {
            assert(body[i - start] == c);
            assert(all_digits(body.take(i - start + 1)));
            lemma_digits_value_take(body.take(i - start + 1), i - start);
            assert(body.take(i - start + 1).take(i - start) =~= body.take(i - start));
        }
        if acc > (limit - d) / 10 {
            proof {
                assert(acc * 10 + d > limit) by (nonlinear_arith)
                    requires
                        acc > (limit - d) / 10,
                        d <= limit || d > limit,
                ;
                let k = i - start + 1;
                if all_digits(body) {
                    lemma_digits_value_mono(body, k);
                    assert(body.take(k).take(i - start) =~= body.take(i - start));
                }
            }
            return None;
        }
        proof {
            assert(acc * 10 + d <= limit) by (nonlinear_arith)
                requires
                    acc <= (limit - d) / 10,
                    d <= 9,
            ;
        }
        acc = acc * 10 + d;
        i += 1;
    }
    proof {
        assert(body.take(i - start) =~= body);
    }
    Some(acc)
}

/// `s.parse::<i64>()` over the characters `cs`.
pub fn parse_i64_chars(cs: &[char]) -> (r: Option<i64>)
    ensures
        r == parse_i64_spec(cs@),
{
    let n = cs.len();
    if n == 0 || (n == 1 && (cs[0] == '+' || cs[0] == '-')) {
        return None;
    }
    if cs[0] == '-' {
        proof {
            assert(cs@.subrange(1, cs@.len() as int) =~= cs@.drop_first());
        }
        match digits_upto(cs, 1, 0x8000_0000_0000_0000u64) {
            Some(v) => Some((0 - (v as i128)) as i64),
            None => None,
        }
    } else {
        let start: usize = if cs[0] == '+' {
            1
        } else {
            0
        };
        proof {
            if cs[0] == '+' {
                assert(cs@.subrange(1, cs@.len() as int) =~= cs@.drop_first());
            } else {
                assert(cs@.subrange(0, cs@.len() as int) =~= cs@);
            }
        }
        match digits_upto(cs, start, 0x7FFF_FFFF_FFFF_FFFFu64) {
            Some(v) => Some(v as i64),
            None => None,
        }
    }
}

/// `s.parse::<u64>()` over the characters `cs`, with the kind of error.
pub fn parse_u64_chars(cs: &[char]) -> (r: Result<u64, IntErrorKind>)
    ensures
        r == parse_u64_spec(cs@),
{
    let n = cs.len();
    if n == 0 {
        return Err(IntErrorKind::Empty);
    }
    if n == 1 && (cs[0] == '+' || cs[0] == '-') {
        return Err(IntErrorKind::InvalidDigit);
    }
    let start: usize = if cs[0] == '+' {
        1
    } else {
        0
    };
    let ghost body = if cs@[0] == '+' {
        cs@.drop_first()
    } else {
        cs@
    };
    proof {
        assert(body =~= cs@.subrange(start as int, cs@.len() as int));
    }
    let mut acc: u64 = 0;
    let mut i: usize = start;
    while i < n
        invariant
            n == cs@.len(),
            start <= i <= n,
            body =~= cs@.subrange(start as int, n as int),
            u64_digits(body, 0) == u64_digits(cs@.subrange(i as int, n as int), acc as int),
            parse_u64_spec(cs@) == (match u64_digits(body, 0) {
                Ok(v) => Ok(v as u64),
                Err(e) => Err(e),
            }),
        decreases n - i,
    {
        let c = cs[i];
        let u = c as u32;
        let ghost rest = cs@.subrange(i as int, n as int);
        proof {
            assert(rest[0] == c);
            assert(rest.drop_first() =~= cs@.subrange(i + 1, n as int));
        }
        if !(48 <= u && u <= 57) {
            proof {
                assert(!is_digit_char(rest[0]));
                assert(u64_digits(rest, acc as int) == Err::<int, IntErrorKind>(IntErrorKind::InvalidDigit));
            }
            return Err(IntErrorKind::InvalidDigit);
        }
        let d = (u - 48) as u64;
        if acc > (u64::MAX - d) / 10 {
            proof {
                assert(acc * 10 + d > u64::MAX) by (nonlinear_arith)
                    requires
                        acc > (u64::MAX - d) / 10,
                ;
                assert(digit_value(rest[0]) == d);
                assert(u64_digits(rest, acc as int) == Err::<int, IntErrorKind>(IntErrorKind::PosOverflow));
            }
            return Err(IntErrorKind::PosOverflow);
        }
        proof {
            assert(acc * 10 + d <= u64::MAX) by (nonlinear_arith)
                requires
                    acc <= (u64::MAX - d) / 10,
                    d <= 9,
            ;
        }
        acc = acc * 10 + d;
        i += 1;
    }
    proof {
        assert(cs@.subrange(i as int, n as int).len() == 0);
    }
    Ok(acc)
}

// ---------------------------------------------------------------------------
// UTF-8
// ---------------------------------------------------------------------------

/// `std::str::from_utf8`: the bytes read as a string slice when they are valid UTF-8.
#[verifier::external_body]
pub(crate) fn str_from_utf8(b: &[u8]) -> (r: Option<&str>)
    ensures
        r is Some <==> valid_utf8(b@),
        r matches Some(s) ==> s@ == decode_utf8(b@),
{
    match std::str::from_utf8(b) {
        Ok(s) => Some(s),
        Err(_) => None,
    }
}

/// The bytes decoded as UTF-8 into an owned string, when they are valid UTF-8.
pub fn utf8_string(b: &[u8]) -> (r: Option<String>)
    ensures
        r is Some <==> valid_utf8(b@),
        r matches Some(s) ==> s@ == decode_utf8(b@),
{
    match str_from_utf8(b) {
        Some(s) => Some(s.to_owned()),
        None => None,
    }
}

} // verus!
