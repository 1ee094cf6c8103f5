//! The timestamp token: nineteen characters, `YYYY-MM-DD_HH-MM-SS`.

use crate::instant::{days_in_month, Instant};
use vstd::prelude::*;
use vstd::string::*;

verus! {

/// Why a string is not a timestamp token.
#[derive(Clone, Copy, Debug, PartialEq, Eq, Structural)]
pub enum DecodeError {
    /// The string does not have the token's length, digits or separators.
    Malformed,
    /// The shape is right, but the fields name no real second.
    OutOfRange,
}

/// The number of characters of a token.
pub const TOKEN_LEN: usize = 19;

/// The character is one of the ten decimal digits.
pub open spec fn is_digit(c: char) -> bool {
    '0' <= c <= '9'
}

/// The value of a decimal digit.
pub open spec fn digit_value(c: char) -> int {
    c as int - 48
}

/// The decimal digit of a value below ten.
pub open spec fn digit_char(n: int) -> char {
    if n == 0 {
        '0'
    } else if n == 1 {
        '1'
    } else if n == 2 {
        '2'
    } else if n == 3 {
        '3'
    } else if n == 4 {
        '4'
    } else if n == 5 {
        '5'
    } else if n == 6 {
        '6'
    } else if n == 7 {
        '7'
    } else if n == 8 {
        '8'
    } else {
        '9'
    }
}

/// The character that a token has at a position that holds no digit: a
/// hyphen inside the date and inside the time, an underscore between them.
pub open spec fn separator_at(i: int) -> char {
    if i == 10 {
        '_'
    } else {
        '-'
    }
}

/// The positions of a token that hold a separator.
pub open spec fn is_separator_position(i: int) -> bool {
    i == 4 || i == 7 || i == 10 || i == 13 || i == 16
}

/// The string has the fixed width, a separator at each separator position
/// and a decimal digit everywhere else.
pub open spec fn well_shaped(s: Seq<char>) -> bool {
    &&& s.len() == 19
    &&& forall|i: int|
        0 <= i < 19 ==> if is_separator_position(i) {
            #[trigger] s[i] == separator_at(i)
        } else {
            is_digit(s[i])
        }
}

/// The number written by the two digits at `i` and `i + 1`.
pub open spec fn two_digits(s: Seq<char>, i: int) -> int {
    digit_value(s[i]) * 10 + digit_value(s[i + 1])
}

/// The number written by the four digits from `i` on.
pub open spec fn four_digits(s: Seq<char>, i: int) -> int {
    two_digits(s, i) * 100 + two_digits(s, i + 2)
}

/// The fields that a well-shaped string writes down.
pub open spec fn fields_of(s: Seq<char>) -> Instant {
    Instant {
        year: four_digits(s, 0) as u16,
        month: two_digits(s, 5) as u8,
        day: two_digits(s, 8) as u8,
        hour: two_digits(s, 11) as u8,
        minute: two_digits(s, 14) as u8,
        second: two_digits(s, 17) as u8,
    }
}

/// The string is the token of some instant.
pub open spec fn is_token(s: Seq<char>) -> bool {
    well_shaped(s) && fields_of(s).valid()
}

/// The two decimal digits of a number below one hundred.
pub open spec fn two_digit_text(n: int) -> Seq<char> {
    seq![digit_char(n / 10), digit_char(n % 10)]
}

/// The token of an instant.
pub open spec fn token_of(t: Instant) -> Seq<char> {
    two_digit_text(t.year as int / 100) + two_digit_text(t.year as int % 100) + seq!['-']
        + two_digit_text(t.month as int) + seq!['-'] + two_digit_text(t.day as int) + seq!['_']
        + two_digit_text(t.hour as int) + seq!['-'] + two_digit_text(t.minute as int) + seq!['-']
        + two_digit_text(t.second as int)
}

/// What decoding a string gives: its instant, or the first reason why it
/// has none.
pub open spec fn decoded(s: Seq<char>) -> Result<Instant, DecodeError> {
    if !well_shaped(s) {
        Err(DecodeError::Malformed)
    } else if !fields_of(s).valid() {
        Err(DecodeError::OutOfRange)
    } else {
        Ok(fields_of(s))
    }
}

/// The digit of a value below ten, as a string of one character.
fn digit_text(n: u8) -> (r: &'static str)
    requires
        n < 10,
    ensures
        r@ == seq![digit_char(n as int)],
{
    proof {
        reveal_strlit("0");
        reveal_strlit("1");
        reveal_strlit("2");
        reveal_strlit("3");
        reveal_strlit("4");
        reveal_strlit("5");
        reveal_strlit("6");
        reveal_strlit("7");
        reveal_strlit("8");
        reveal_strlit("9");
    }
    let r = match n {
        0 => "0",
        1 => "1",
        2 => "2",
        3 => "3",
        4 => "4",
        5 => "5",
        6 => "6",
        7 => "7",
        8 => "8",
        _ => "9",
    };
    assert(r@ =~= seq![digit_char(n as int)]);
    r
}

/// Appends the two decimal digits of `n`.
fn push_two_digits(out: &mut String, n: u8)
    requires
        n < 100,
    ensures
        final(out)@ == old(out)@ + two_digit_text(n as int),
{
    out.append(digit_text(n / 10));
    out.append(digit_text(n % 10));
    assert(out@ =~= old(out)@ + two_digit_text(n as int));
}

/// Appends an underscore or a hyphen.
fn push_separator(out: &mut String, underscore: bool)
    ensures
        final(out)@ == old(out)@ + seq![if underscore { '_' } else { '-' }],
{
    proof {
        reveal_strlit("_");
        reveal_strlit("-");
    }
    let sep = if underscore { "_" } else { "-" };
    assert(sep@ =~= seq![if underscore { '_' } else { '-' }]);
    out.append(sep);
}

/// Writes an instant as its token.
pub fn encode(t: &Instant) -> (token: String)
    requires
        t.valid(),
    ensures
        token@ == token_of(*t),
{
    let mut out = String::new();
    let century: u16 = t.year / 100;
    let rest: u16 = t.year % 100;
    push_two_digits(&mut out, century as u8);
    push_two_digits(&mut out, rest as u8);
    push_separator(&mut out, false);
    push_two_digits(&mut out, t.month);
    push_separator(&mut out, false);
    push_two_digits(&mut out, t.day);
    push_separator(&mut out, true);
    push_two_digits(&mut out, t.hour);
    push_separator(&mut out, false);
    push_two_digits(&mut out, t.minute);
    push_separator(&mut out, false);
    push_two_digits(&mut out, t.second);
    assert(out@ =~= token_of(*t));
    out
}

/// A character of the ASCII range and its byte are the same number.
proof fn lemma_ascii_byte(c: char)
    requires
        c <= '\u{7f}',
    ensures
        c as u8 as int == c as int,
        is_digit(c) <==> 48 <= c as u8 <= 57,
        c == '-' <==> c as u8 == 45,
        c == '_' <==> c as u8 == 95,
{
}

/// A well-shaped string holds ASCII characters only.
proof fn lemma_shape_is_ascii(s: Seq<char>)
    requires
        well_shaped(s),
    ensures
        vstd::utf8::is_ascii_chars(s),
{
    assert forall|i: int| 0 <= i < s.len() implies '\0' <= #[trigger] s[i] <= '\u{7f}' by {
        if is_separator_position(i) {
            assert(s[i] == separator_at(i));
        } else {
            assert(is_digit(s[i]));
        }
    }
}

/// Reads the number that the two digits at `i` and `i + 1` write, from the
/// bytes of an ASCII string with the characters `s`.
fn two_digit_number(bytes: &[u8], i: usize, Ghost(s): Ghost<Seq<char>>) -> (n: u8)
    requires
        i + 1 < bytes@.len(),
        s.len() == bytes@.len(),
        is_digit(s[i as int]),
        is_digit(s[i + 1]),
        bytes@[i as int] == s[i as int] as u8,
        bytes@[i + 1] == s[i + 1] as u8,
    ensures
        n == two_digits(s, i as int),
        n <= 99,
{
    proof {
        lemma_ascii_byte(s[i as int]);
        lemma_ascii_byte(s[i + 1]);
    }
    (bytes[i] - 48) * 10 + (bytes[i + 1] - 48)
}

/// Reads a token back into its instant.
///
/// Nothing but the exact nineteen characters of a real second is accepted:
/// no sign, no blank, no shorter or longer field.
pub fn decode(token: &str) -> (r: Result<Instant, DecodeError>)
    ensures
        r == decoded(token@),
{
    if !token.is_ascii() {
        proof {
            if well_shaped(token@) {
                lemma_shape_is_ascii(token@);
            }
        }
        return Err(DecodeError::Malformed);
    }
    let bytes = token.as_bytes();
    proof {
        is_ascii_spec_bytes(token);
    }
    if bytes.len() != TOKEN_LEN {
        return Err(DecodeError::Malformed);
    }
    let mut i: usize = 0;
    while i < TOKEN_LEN
        invariant
            i <= 19,
            bytes@.len() == 19,
            token@.len() == 19,
            vstd::utf8::is_ascii_chars(token@),
            forall|j: int| 0 <= j < 19 ==> bytes@[j] == #[trigger] token@[j] as u8,
            forall|j: int|
                0 <= j < i ==> if is_separator_position(j) {
                    #[trigger] token@[j] == separator_at(j)
                } else {
                    is_digit(token@[j])
                },
        decreases 19 - i,
    {
        let b: u8 = bytes[i];
        proof {
            lemma_ascii_byte(token@[i as int]);
        }
        let fits: bool = if i == 4 || i == 7 || i == 13 || i == 16 {
            b == 45
        } else if i == 10 {
            b == 95
        } else {
            48 <= b && b <= 57
        };
        if !fits {
            return Err(DecodeError::Malformed);
        }
        i += 1;
    }
    assert(well_shaped(token@));
    let ghost s = token@;
    let century: u8 = two_digit_number(bytes, 0, Ghost(s));
    let rest: u8 = two_digit_number(bytes, 2, Ghost(s));
    let year: u16 = (century as u16) * 100 + (rest as u16);
    let t = Instant {
        year,
        month: two_digit_number(bytes, 5, Ghost(s)),
        day: two_digit_number(bytes, 8, Ghost(s)),
        hour: two_digit_number(bytes, 11, Ghost(s)),
        minute: two_digit_number(bytes, 14, Ghost(s)),
        second: two_digit_number(bytes, 17, Ghost(s)),
    };
    assert(t == fields_of(s));
    if t.is_valid() {
        Ok(t)
    } else {
        Err(DecodeError::OutOfRange)
    }
}

/// What a digit is worth is the digit that writes it, both ways round.
proof fn lemma_digits(n: int, c: char)
    ensures
        0 <= n <= 9 ==> is_digit(digit_char(n)) && digit_value(digit_char(n)) == n,
        is_digit(c) ==> 0 <= digit_value(c) <= 9 && digit_char(digit_value(c)) == c,
{
}

/// Decoding the token of a real second gives that second back.
pub proof fn lemma_decode_inverts_encode(t: Instant)
    requires
        t.valid(),
    ensures
        is_token(token_of(t)),
        decoded(token_of(t)) == Ok::<Instant, DecodeError>(t),
{
    let s = token_of(t);
    let y = t.year as int;
    let expected = seq![
        digit_char(y / 100 / 10),
        digit_char(y / 100 % 10),
        digit_char(y % 100 / 10),
        digit_char(y % 100 % 10),
        '-',
        digit_char(t.month as int / 10),
        digit_char(t.month as int % 10),
        '-',
        digit_char(t.day as int / 10),
        digit_char(t.day as int % 10),
        '_',
        digit_char(t.hour as int / 10),
        digit_char(t.hour as int % 10),
        '-',
        digit_char(t.minute as int / 10),
        digit_char(t.minute as int % 10),
        '-',
        digit_char(t.second as int / 10),
        digit_char(t.second as int % 10),
    ];
    assert(s =~= expected);
    lemma_digits(y / 100 / 10, '0');
    lemma_digits(y / 100 % 10, '0');
    lemma_digits(y % 100 / 10, '0');
    lemma_digits(y % 100 % 10, '0');
    lemma_digits(t.month as int / 10, '0');
    lemma_digits(t.month as int % 10, '0');
    lemma_digits(t.day as int / 10, '0');
    lemma_digits(t.day as int % 10, '0');
    lemma_digits(t.hour as int / 10, '0');
    lemma_digits(t.hour as int % 10, '0');
    lemma_digits(t.minute as int / 10, '0');
    lemma_digits(t.minute as int % 10, '0');
    lemma_digits(t.second as int / 10, '0');
    lemma_digits(t.second as int % 10, '0');
    assert(well_shaped(s));
    assert(fields_of(s) == t);
}

/// A token is the only string that decodes to its instant: writing the
/// decoded instant down again gives the very same characters.
pub proof fn lemma_encode_inverts_decode(s: Seq<char>)
    requires
        is_token(s),
    ensures
        token_of(fields_of(s)) == s,
{
    let t = fields_of(s);
    assert forall|i: int| 0 <= i < 19 && !is_separator_position(i) implies 0 <= digit_value(
        #[trigger] s[i],
    ) <= 9 && digit_char(digit_value(s[i])) == s[i] by {
        assert(is_digit(s[i]));
        lemma_digits(0, s[i]);
    }
    assert(s[4] == separator_at(4));
    assert(s[7] == separator_at(7));
    assert(s[10] == separator_at(10));
    assert(s[13] == separator_at(13));
    assert(s[16] == separator_at(16));
    assert(token_of(t) =~= s);
}

/// `s` comes before `t` as strings are ordered: at the first place where
/// they differ `s` has the smaller character, or `s` ends there and `t` goes
/// on.
pub open spec fn text_before(s: Seq<char>, t: Seq<char>) -> bool {
    exists|i: int|
        0 <= i <= s.len() && i <= t.len() && s.take(i) == t.take(i) && if i < s.len() {
            i < t.len() && #[trigger] s[i] < t[i]
        } else {
            i < t.len()
        }
}

/// The first place from `from` on where `s` and `t` differ, or their common
/// length where they do not.
spec fn first_difference(s: Seq<char>, t: Seq<char>, from: int) -> int
    recommends
        s.len() == t.len(),
    decreases s.len() - from,
{
    if from >= s.len() || s[from] != t[from] {
        from
    } else {
        first_difference(s, t, from + 1)
    }
}

/// Before their first difference two strings agree, and at it they differ.
proof fn lemma_first_difference(s: Seq<char>, t: Seq<char>, from: int)
    requires
        s.len() == t.len(),
        0 <= from <= s.len(),
    ensures
        from <= first_difference(s, t, from) <= s.len(),
        forall|j: int| from <= j < first_difference(s, t, from) ==> s[j] == t[j],
        first_difference(s, t, from) < s.len() ==> s[first_difference(s, t, from)]
            != t[first_difference(s, t, from)],
    decreases s.len() - from,
{
    if from < s.len() && s[from] == t[from] {
        lemma_first_difference(s, t, from + 1);
    }
}

/// The fourteen digits of a token in terms of its instant, and the fields
/// in terms of the digits.
proof fn lemma_token_digits(t: Instant)
    requires
        t.valid(),
    ensures
        token_of(t).len() == 19,
        forall|i: int|
            0 <= i < 19 ==> if is_separator_position(i) {
                #[trigger] token_of(t)[i] == separator_at(i)
            } else {
                is_digit(token_of(t)[i])
            },
        t.year == 1000 * digit_value(token_of(t)[0]) + 100 * digit_value(token_of(t)[1]) + 10
            * digit_value(token_of(t)[2]) + digit_value(token_of(t)[3]),
        t.month == 10 * digit_value(token_of(t)[5]) + digit_value(token_of(t)[6]),
        t.day == 10 * digit_value(token_of(t)[8]) + digit_value(token_of(t)[9]),
        t.hour == 10 * digit_value(token_of(t)[11]) + digit_value(token_of(t)[12]),
        t.minute == 10 * digit_value(token_of(t)[14]) + digit_value(token_of(t)[15]),
        t.second == 10 * digit_value(token_of(t)[17]) + digit_value(token_of(t)[18]),
{
    lemma_decode_inverts_encode(t);
    let s = token_of(t);
    assert(fields_of(s) == t);
    assert forall|i: int| 0 <= i < 19 && !is_separator_position(i) implies 0 <= digit_value(
        #[trigger] s[i],
    ) <= 9 by {
        assert(is_digit(s[i]));
    }
}

/// Tokens are ordered as strings in the way their instants are ordered in
/// time.
pub proof fn lemma_tokens_order_as_instants(a: Instant, b: Instant)
    requires
        a.valid(),
        b.valid(),
    ensures
        text_before(token_of(a), token_of(b)) <==> a.rank() < b.rank(),
{
    let s = token_of(a);
    let t = token_of(b);
    lemma_token_digits(a);
    lemma_token_digits(b);
    lemma_first_difference(s, t, 0);
    let r = first_difference(s, t, 0);
    assert forall|i: int| 0 <= i < 19 && !is_separator_position(i) implies 0 <= digit_value(
        #[trigger] s[i],
    ) <= 9 && 0 <= digit_value(t[i]) <= 9 by {
        assert(is_digit(s[i]));
        assert(is_digit(t[i]));
    }
    if r == 19 {
        assert(a.rank() == b.rank());
        if text_before(s, t) {
            let i = choose|i: int|
                0 <= i <= s.len() && i <= t.len() && s.take(i) == t.take(i) && if i < s.len() {
                    i < t.len() && #[trigger] s[i] < t[i]
                } else {
                    i < t.len()
                };
            assert(false);
        }
    } else {
        assert(!is_separator_position(r)) by {
            if is_separator_position(r) {
                assert(s[r] == separator_at(r));
                assert(t[r] == separator_at(r));
            }
        }
        assert(s.take(r) =~= t.take(r));
        if s[r] < t[r] {
            assert(a.rank() < b.rank()) by {
                lemma_first_digit_decides(a, b, r);
            }
        } else {
            assert(b.rank() < a.rank()) by {
                lemma_first_digit_decides_reversed(a, b, r);
            }
            if text_before(s, t) {
                let i = choose|i: int|
                    0 <= i <= s.len() && i <= t.len() && s.take(i) == t.take(i) && if i
                        < s.len() {
                        i < t.len() && #[trigger] s[i] < t[i]
                    } else {
                        i < t.len()
                    };
                if i > r {
                    assert(s.take(i)[r] == t.take(i)[r]);
                } else if i < r {
                    assert(s[i] == t[i]);
                }
                assert(false);
            }
        }
    }
}

/// Where two tokens agree before `r` and the first has the smaller digit
/// at `r`, the first instant is the earlier.
proof fn lemma_first_digit_decides(a: Instant, b: Instant, r: int)
    requires
        a.valid(),
        b.valid(),
        0 <= r < 19,
        !is_separator_position(r),
        forall|j: int| 0 <= j < r ==> token_of(a)[j] == token_of(b)[j],
        token_of(a)[r] < token_of(b)[r],
    ensures
        a.rank() < b.rank(),
{
    let s = token_of(a);
    let t = token_of(b);
    lemma_token_digits(a);
    lemma_token_digits(b);
    assert forall|i: int| 0 <= i < 19 && !is_separator_position(i) implies 0 <= digit_value(
        #[trigger] s[i],
    ) <= 9 && 0 <= digit_value(t[i]) <= 9 by {
        assert(is_digit(s[i]));
        assert(is_digit(t[i]));
    }
    assert(digit_value(s[r]) < digit_value(t[r]));
    if r <= 3 {
        assert(a.year < b.year);
    } else if r <= 6 {
        assert(a.year == b.year && a.month < b.month);
    } else if r <= 9 {
        assert(a.year == b.year && a.month == b.month && a.day < b.day);
    } else if r <= 12 {
        assert(a.year == b.year && a.month == b.month && a.day == b.day && a.hour < b.hour);
    } else if r <= 15 {
        assert(a.year == b.year && a.month == b.month && a.day == b.day && a.hour == b.hour
            && a.minute < b.minute);
    } else {
        assert(a.year == b.year && a.month == b.month && a.day == b.day && a.hour == b.hour
            && a.minute == b.minute && a.second < b.second);
    }
    crate::instant::lemma_rank_is_field_order(a, b);
}

/// Where two tokens agree before `r` and the first has the greater digit
/// at `r`, the first instant is the later.
proof fn lemma_first_digit_decides_reversed(a: Instant, b: Instant, r: int)
    requires
        a.valid(),
        b.valid(),
        0 <= r < 19,
        forall|j: int| 0 <= j < r ==> token_of(a)[j] == token_of(b)[j],
        token_of(a)[r] != token_of(b)[r],
        !(token_of(a)[r] < token_of(b)[r]),
        !is_separator_position(r),
    ensures
        b.rank() < a.rank(),
{
    assert forall|j: int| 0 <= j < r implies token_of(b)[j] == token_of(a)[j] by {}
    lemma_first_digit_decides(b, a, r);
}

/// A string that is not exactly a token has no instant: a wrong length, a
/// wrong separator, a character that is no digit where one is due, or a
/// field out of its range each make decoding fail.
pub proof fn lemma_decode_is_strict(s: Seq<char>)
    ensures
        s.len() != 19 ==> decoded(s) is Err,
        forall|i: int|
            0 <= i < 19 && is_separator_position(i) && #[trigger] s[i] != separator_at(i)
                ==> decoded(s) is Err,
        forall|i: int|
            0 <= i < 19 && !is_separator_position(i) && !is_digit(#[trigger] s[i]) ==> decoded(
                s,
            ) is Err,
        well_shaped(s) && !(1 <= two_digits(s, 5) <= 12) ==> decoded(s) is Err,
        well_shaped(s) && !(1 <= two_digits(s, 8) <= days_in_month(
            four_digits(s, 0),
            two_digits(s, 5),
        )) ==> decoded(s) is Err,
        well_shaped(s) && two_digits(s, 11) > 23 ==> decoded(s) is Err,
        well_shaped(s) && two_digits(s, 14) > 59 ==> decoded(s) is Err,
        well_shaped(s) && two_digits(s, 17) > 59 ==> decoded(s) is Err,
        decoded(s) is Ok <==> is_token(s),
{
    if well_shaped(s) {
        assert forall|i: int| 0 <= i < 19 && !is_separator_position(i) implies 0 <= digit_value(
            #[trigger] s[i],
        ) <= 9 by {
            assert(is_digit(s[i]));
        }
    }
}

} // verus!
