use vstd::prelude::*;
use crate::escape::is_terminator;
use crate::strings::to_chars;
use crate::value::{JsonNumber, Number};

verus! {

/// The decimal digit for `d`, which is below 10.
pub open spec fn digit_char(d: int) -> char {
    (48 + d) as char
}

/// The decimal digits of `n`, with no zero in front but for 0 itself.
pub open spec fn nat_text(n: nat) -> Seq<char>
    decreases n,
{
    if n < 10 {
        seq![digit_char(n as int)]
    } else {
        nat_text(n / 10).push(digit_char((n % 10) as int))
    }
}

/// The decimal text of an integer: its digits, after a `-` where it is
/// negative.
pub open spec fn int_text(i: int) -> Seq<char> {
    if i < 0 {
        seq!['-'] + nat_text((-i) as nat)
    } else {
        nat_text(i as nat)
    }
}

/// The number that a run of decimal digits stands for.
pub open spec fn digits_value(t: Seq<char>) -> int
    decreases t.len(),
{
    if t.len() == 0 {
        0
    } else {
        digits_value(t.drop_last()) * 10 + (t.last() as int - 48)
    }
}

/// The integer that `t` stands for, where `t` is the text of one.
pub open spec fn int_of_text(t: Seq<char>) -> int {
    if t.len() > 0 && t[0] == '-' {
        -digits_value(t.drop_first())
    } else {
        digits_value(t)
    }
}

/// Whether `t` is the decimal text of an integer, as [`int_text`] writes it:
/// so not `-0`, and not with zeros in front.
pub open spec fn is_int_text(t: Seq<char>) -> bool {
    t == int_text(int_of_text(t))
}

/// The integers that a [`Number`] holds exactly.
pub open spec fn in_int_range(i: int) -> bool {
    i64::MIN <= i <= u64::MAX
}

/// The text of a number. A number that is not finite has none of its own and
/// is written as `null`.
pub open spec fn number_text(n: JsonNumber) -> Seq<char> {
    match n {
        JsonNumber::Int(i) => int_text(i),
        JsonNumber::Float(t) => t,
        JsonNumber::NonFinite => seq!['n', 'u', 'l', 'l'],
    }
}

/// The number that `serde_json` reads from a text that is not the decimal
/// text of an integer in range: a number with a fraction or an exponent, an
/// integer too large to be held exactly, `-0`; `None` where the text is not a
/// JSON number. A floating-point number is given by its decimal text.
pub uninterp spec fn number_of_text(text: Seq<char>) -> Option<JsonNumber>;

/// The longest literal that is handed to `serde_json`, which counts digits in
/// 32 bits. A longer one is no number.
pub const MAX_NUMBER_LEN: usize = 0x7fff_ffff;

/// The number that a literal stands for, if it is one. The decimal text of an
/// integer from `i64::MIN` to `u64::MAX` stands for that integer. Any other
/// text stands for what `serde_json` reads from it.
pub open spec fn number_spec(text: Seq<char>) -> Option<JsonNumber> {
    if text.len() > MAX_NUMBER_LEN {
        None
    } else if is_int_text(text) && in_int_range(int_of_text(text)) {
        Some(JsonNumber::Int(int_of_text(text)))
    } else {
        number_of_text(text)
    }
}

/// Reads a number with `serde_json::Number::from_str`, and hands it out as a
/// [`Number`]: an integer as `as_u64` or `as_i64` gives it, a floating-point
/// number (`as_f64`) as the text that `to_string` makes of it.
///
/// Trusted, of `serde_json`: that the decimal text of an integer from
/// `i64::MIN` to `u64::MAX` is read as that integer; that the same text always
/// gives the same number; that a number read is finite. The text must not be
/// longer than [`MAX_NUMBER_LEN`]: `serde_json` counts the digits of a long
/// number in 32 bits.
#[verifier::external_body]
pub(crate) fn number_from_text(text: &str) -> (r: Option<Number>)
    requires
        text@.len() <= MAX_NUMBER_LEN,
    ensures
        is_int_text(text@) && in_int_range(int_of_text(text@)) ==> r is Some && r.unwrap()@
            == JsonNumber::Int(int_of_text(text@)),
        !(is_int_text(text@) && in_int_range(int_of_text(text@))) ==> match r {
            Some(n) => number_of_text(text@) == Some(n@),
            None => number_of_text(text@) is None,
        },
        r matches Some(n) ==> !(n is NonFinite),
{
    match text.parse::<serde_json::Number>() {
        Err(_) => None,
        Ok(n) => match (n.as_u64(), n.as_i64(), n.as_f64()) {
            (Some(u), _, _) => Some(Number::PosInt(u)),
            (None, Some(i), _) => Some(Number::NegInt(i)),
            (None, None, Some(f)) => Some(Number::Float(f.to_string())),
            (None, None, None) => None,
        },
    }
}

/// The numbers that come back from their text: every integer, and a
/// floating-point number whose text is that of a number (it starts with `-`
/// or a digit and holds no `~` or `)`) and is read as the number with that
/// same text. A number that is not finite does not.
pub open spec fn number_round_trips(n: JsonNumber) -> bool {
    match n {
        JsonNumber::Int(_) => true,
        JsonNumber::Float(t) => {
            &&& t.len() > 0
            &&& (t[0] == '-' || '0' <= t[0] <= '9')
            &&& forall|k: int| 0 <= k < t.len() ==> !is_terminator(#[trigger] t[k])
            &&& number_spec(t) == Some(JsonNumber::Float(t))
        },
        JsonNumber::NonFinite => false,
    }
}

impl Number {
    /// The floating-point number with the decimal text `text`, where that
    /// text comes back as it is when it is written out and read again
    /// ([`number_round_trips`]); `None` where it does not: where it is no
    /// number, or is read as an integer, or as a number with another text.
    pub fn float(text: &str) -> (r: Option<Number>)
        ensures
            match r {
                Some(n) => n@ == JsonNumber::Float(text@) && number_round_trips(n@),
                None => !number_round_trips(JsonNumber::Float(text@)),
            },
    {
        let chars = to_chars(text);
        if chars.len() == 0 || chars.len() > MAX_NUMBER_LEN {
            return None;
        }
        if !(chars[0] == '-' || ('0' <= chars[0] && chars[0] <= '9')) {
            return None;
        }
        let mut i: usize = 0;
        while i < chars.len()
            invariant
                i <= chars.len(),
                chars@ == text@,
                forall|k: int| 0 <= k < i ==> !is_terminator(#[trigger] text@[k]),
            decreases chars.len() - i,
        {
            if chars[i] == '~' || chars[i] == ')' {
                return None;
            }
            i = i + 1;
        }
        match number_from_text(text) {
            Some(Number::Float(t)) => {
                if t == text.to_owned() {
                    Some(Number::Float(t))
                } else {
                    None
                }
            },
            _ => None,
        }
    }
}

fn digit(d: u64) -> (c: char)
    requires
        d < 10,
    ensures
        c == digit_char(d as int),
{
    (48u8 + d as u8) as char
}

/// Appends the decimal digits of `n` to `output`.
pub fn push_decimal(n: u64, output: &mut String)
    ensures
        final(output)@ == old(output)@ + nat_text(n as nat),
    decreases n,
{
    if n >= 10 {
        push_decimal(n / 10, output);
    }
    output.push(digit(n % 10));
    assert(output@ =~= old(output)@ + nat_text(n as nat));
}

/// Appends the text of `n` to `output`.
pub fn push_number(n: &Number, output: &mut String)
    ensures
        final(output)@ == old(output)@ + number_text(n@),
{
    match n {
        Number::PosInt(u) => {
            push_decimal(*u, output);
        },
        Number::NegInt(i) => {
            if *i < 0 {
                output.push('-');
                let magnitude: u64 = (-(*i + 1)) as u64 + 1;
                push_decimal(magnitude, output);
            } else {
                push_decimal(*i as u64, output);
            }
        },
        Number::Float(t) => {
            output.append(t.as_str());
        },
        Number::NonFinite => {
            output.push('n');
            output.push('u');
            output.push('l');
            output.push('l');
        },
    }
    assert(output@ =~= old(output)@ + number_text(n@));
}

} // verus!

verus! {

/// Ten to the power `k`.
pub open spec fn pow10(k: nat) -> nat
    decreases k,
{
    if k == 0 {
        1
    } else {
        10 * pow10((k - 1) as nat)
    }
}

/// The digits of a number: at least one, as many as the number needs, each
/// from `0` to `9`, no zero in front of another digit; and they stand for
/// the number.
pub proof fn lemma_nat_text(n: nat)
    ensures
        nat_text(n).len() >= 1,
        forall|k: int| 0 <= k < nat_text(n).len() ==> '0' <= #[trigger] nat_text(n)[k] <= '9',
        digits_value(nat_text(n)) == n,
        n > 0 ==> nat_text(n)[0] != '0',
    decreases n,
{
    let t = nat_text(n);
    if n >= 10 {
        lemma_nat_text(n / 10);
        assert(t.drop_last() =~= nat_text(n / 10));
        assert(t[0] == nat_text(n / 10)[0]);
        assert(t.last() == digit_char((n % 10) as int));
    } else {
        assert(t.drop_last().len() == 0);
        assert(digits_value(t.drop_last()) == 0);
        assert(t.last() == digit_char(n as int));
    }
}

/// A number below ten to the power `k` has at most `k` digits.
pub proof fn lemma_nat_text_len(n: nat, k: nat)
    requires
        k >= 1,
        n < pow10(k),
    ensures
        nat_text(n).len() <= k,
    decreases k,
{
    if n >= 10 {
        if k == 1 {
            assert(pow10(1) == 10) by {
                reveal_with_fuel(pow10, 2);
            }
        } else {
            lemma_nat_text_len(n / 10, (k - 1) as nat);
        }
    }
}

/// The text of an integer reads back as that integer. It starts with `-` or a
/// digit and holds nothing else; in the range of a [`Number`] it has at most
/// 21 characters.
pub proof fn lemma_int_text(i: int)
    ensures
        int_of_text(int_text(i)) == i,
        is_int_text(int_text(i)),
        int_text(i).len() >= 1,
        int_text(i)[0] == '-' || '0' <= int_text(i)[0] <= '9',
        forall|k: int|
            0 <= k < int_text(i).len() ==> {
                let c = #[trigger] int_text(i)[k];
                c == '-' || '0' <= c <= '9'
            },
        in_int_range(i) ==> int_text(i).len() <= 21,
{
    let t = int_text(i);
    if i < 0 {
        let n = (-i) as nat;
        lemma_nat_text(n);
        assert(t.drop_first() =~= nat_text(n));
        assert(t[0] == '-');
        assert forall|k: int| 0 <= k < t.len() implies {
            let c = #[trigger] t[k];
            c == '-' || '0' <= c <= '9'
        } by {
            if k > 0 {
                assert(t[k] == nat_text(n)[k - 1]);
            }
        }
        if in_int_range(i) {
            assert(pow10(20) == 100000000000000000000nat) by {
                reveal_with_fuel(pow10, 21);
            }
            lemma_nat_text_len(n, 20);
        }
    } else {
        let n = i as nat;
        lemma_nat_text(n);
        assert(t[0] != '-');
        if in_int_range(i) {
            assert(pow10(20) == 100000000000000000000nat) by {
                reveal_with_fuel(pow10, 21);
            }
            lemma_nat_text_len(n, 20);
        }
    }
}

} // verus!
