use vstd::prelude::*;
use crate::cursor::Cursor;
use crate::error::{DeserializeError, ErrorKind};

verus! {

/// `char::from_u32` gives the character with the code `i`, where `i` is a
/// Unicode scalar value (not a surrogate, at most 0x10FFFF), and nothing else.
pub assume_specification[ core::char::from_u32 ](i: u32) -> (r: Option<char>)
    ensures
        r == scalar_of(i as int),
;

/// The character with the code `code`, if there is one.
pub open spec fn scalar_of(code: int) -> Option<char> {
    if 0 <= code <= 0xD7FF || 0xE000 <= code <= 0x10FFFF {
        Some(code as char)
    } else {
        None
    }
}

/// The characters that stand for themselves: ASCII letters and digits, `.`,
/// `_` and `-`.
pub open spec fn is_plain(c: char) -> bool {
    ||| 'a' <= c <= 'z'
    ||| 'A' <= c <= 'Z'
    ||| '0' <= c <= '9'
    ||| c == '.'
    ||| c == '_'
    ||| c == '-'
}

/// The lower-case hexadecimal digit for `d`, which is below 16.
pub open spec fn hex_char(d: int) -> char {
    if d < 10 {
        (48 + d) as char
    } else {
        (87 + d) as char
    }
}

/// `code` in hexadecimal, with zeros in front up to four digits. A code above
/// 0xFFFF has five or six digits.
pub open spec fn hex_text(code: int) -> Seq<char> {
    let low = seq![
        hex_char((code / 0x1000) % 16),
        hex_char((code / 0x100) % 16),
        hex_char((code / 0x10) % 16),
        hex_char(code % 16),
    ];
    if code < 0x10000 {
        low
    } else if code < 0x100000 {
        seq![hex_char((code / 0x10000) % 16)] + low
    } else {
        seq![hex_char((code / 0x100000) % 16), hex_char((code / 0x10000) % 16)] + low
    }
}

/// How one character of a string or of a key is written.
pub open spec fn encode_char(c: char) -> Seq<char> {
    let code = c as int;
    if is_plain(c) {
        seq![c]
    } else if c == '$' {
        seq!['!']
    } else if code < 0x100 {
        seq!['*', hex_char(code / 16), hex_char(code % 16)]
    } else {
        seq!['*', '*'] + hex_text(code)
    }
}

/// How a string or a key is written: its characters one after the other.
pub open spec fn encode_text(s: Seq<char>) -> Seq<char>
    decreases s.len(),
{
    if s.len() == 0 {
        Seq::empty()
    } else {
        encode_text(s.drop_last()) + encode_char(s.last())
    }
}

/// The value of a hexadecimal digit, in either case.
pub open spec fn hex_value(c: char) -> Option<int> {
    if '0' <= c <= '9' {
        Some(c as int - '0' as int)
    } else if 'a' <= c <= 'f' {
        Some(10 + c as int - 'a' as int)
    } else if 'A' <= c <= 'F' {
        Some(10 + c as int - 'A' as int)
    } else {
        None
    }
}

/// The character that a two-digit escape names.
pub open spec fn hex2_spec(a: char, b: char) -> Option<char> {
    match (hex_value(a), hex_value(b)) {
        (Some(high), Some(low)) => scalar_of(high * 16 + low),
        _ => None,
    }
}

/// The character that a four-digit escape names.
pub open spec fn hex4_spec(a: char, b: char, c: char, d: char) -> Option<char> {
    match (hex_value(a), hex_value(b), hex_value(c), hex_value(d)) {
        (Some(h3), Some(h2), Some(h1), Some(h0)) => scalar_of(
            h3 * 0x1000 + h2 * 0x100 + h1 * 0x10 + h0,
        ),
        _ => None,
    }
}

/// The characters that end a string, a key or a bare literal.
pub open spec fn is_terminator(c: char) -> bool {
    c == '~' || c == ')'
}

/// Reads an escaped run of `s` from `i` on, after the characters `acc` that
/// were read before: up to the next `~` or `)` or the end of `s`. The result
/// is the run with its escapes resolved and the index where it ends.
///
/// `!` stands for `$`; `**` and four hexadecimal digits, or `*` and two, stand
/// for the character with that code; any other character stands for itself.
pub open spec fn decode_spec(s: Seq<char>, i: int, acc: Seq<char>) -> Result<
    (Seq<char>, int),
    ErrorKind,
>
    decreases s.len() - i,
{
    if !(0 <= i < s.len()) || is_terminator(s[i]) {
        Ok((acc, i))
    } else if s[i] == '*' {
        if i + 1 >= s.len() {
            Err(ErrorKind::UnexpectedEnd)
        } else if s[i + 1] == '*' {
            if i + 6 > s.len() {
                Err(ErrorKind::UnexpectedEnd)
            } else {
                match hex4_spec(s[i + 2], s[i + 3], s[i + 4], s[i + 5]) {
                    Some(c) => decode_spec(s, i + 6, acc.push(c)),
                    None => Err(ErrorKind::InvalidEscape),
                }
            }
        } else if i + 3 > s.len() {
            Err(ErrorKind::UnexpectedEnd)
        } else {
            match hex2_spec(s[i + 1], s[i + 2]) {
                Some(c) => decode_spec(s, i + 3, acc.push(c)),
                None => Err(ErrorKind::InvalidEscape),
            }
        }
    } else if s[i] == '!' {
        decode_spec(s, i + 1, acc.push('$'))
    } else {
        decode_spec(s, i + 1, acc.push(s[i]))
    }
}

/// A run ends at or after the place where it starts, and within the text.
pub proof fn lemma_decode_bounds(s: Seq<char>, i: int, acc: Seq<char>)
    requires
        0 <= i,
    ensures
        decode_spec(s, i, acc) matches Ok((_, j)) ==> i <= j && (j <= s.len() || j == i),
    decreases s.len() - i,
{
    if !(0 <= i < s.len()) || is_terminator(s[i]) {
    } else if s[i] == '*' {
        if i + 1 >= s.len() {
        } else if s[i + 1] == '*' {
            if i + 6 <= s.len() {
                match hex4_spec(s[i + 2], s[i + 3], s[i + 4], s[i + 5]) {
                    Some(c) => lemma_decode_bounds(s, i + 6, acc.push(c)),
                    None => {},
                }
            }
        } else if i + 3 <= s.len() {
            match hex2_spec(s[i + 1], s[i + 2]) {
                Some(c) => lemma_decode_bounds(s, i + 3, acc.push(c)),
                None => {},
            }
        }
    } else if s[i] == '!' {
        lemma_decode_bounds(s, i + 1, acc.push('$'));
    } else {
        lemma_decode_bounds(s, i + 1, acc.push(s[i]));
    }
}

fn is_plain_char(c: char) -> (r: bool)
    ensures
        r == is_plain(c),
{
    ('a' <= c && c <= 'z') || ('A' <= c && c <= 'Z') || ('0' <= c && c <= '9') || c == '.' || c
        == '_' || c == '-'
}

fn hex_digit(d: u32) -> (c: char)
    requires
        d < 16,
    ensures
        c == hex_char(d as int),
{
    if d < 10 {
        (48u8 + d as u8) as char
    } else {
        (87u8 + d as u8) as char
    }
}

fn encode_char_into(c: char, output: &mut String)
    ensures
        final(output)@ == old(output)@ + encode_char(c),
{
    let code: u32 = c as u32;
    if is_plain_char(c) {
        output.push(c);
    } else if c == '$' {
        output.push('!');
    } else if code < 0x100 {
        output.push('*');
        output.push(hex_digit(code / 16));
        output.push(hex_digit(code % 16));
    } else {
        output.push('*');
        output.push('*');
        if code >= 0x100000 {
            output.push(hex_digit((code / 0x100000) % 16));
        }
        if code >= 0x10000 {
            output.push(hex_digit((code / 0x10000) % 16));
        }
        output.push(hex_digit((code / 0x1000) % 16));
        output.push(hex_digit((code / 0x100) % 16));
        output.push(hex_digit((code / 0x10) % 16));
        output.push(hex_digit(code % 16));
    }
    assert(output@ =~= old(output)@ + encode_char(c));
}

/// Appends `s` to `output`, each character written as [`encode_char`] says.
pub fn encode_string(s: &str, output: &mut String)
    ensures
        final(output)@ == old(output)@ + encode_text(s@),
{
    let ghost before = output@;
    let ghost mut done: Seq<char> = Seq::empty();
    for c in it: s.chars()
        invariant
            done == it.seq().take(it.index()),
            output@ == before + encode_text(done),
    {
        proof {
            assert(done.push(c).drop_last() =~= done);
            assert(it.seq().take(it.index() + 1) =~= done.push(c));
            done = done.push(c);
        }
        encode_char_into(c, output);
        assert(output@ =~= before + encode_text(done));
    }
    assert(done =~= s@);
}

/// The value of the hexadecimal digit `c`.
pub fn hex_digit_to_value(c: char) -> (r: Option<u32>)
    ensures
        match r {
            Some(v) => hex_value(c) == Some(v as int),
            None => hex_value(c) is None,
        },
{
    if '0' <= c && c <= '9' {
        Some(c as u32 - '0' as u32)
    } else if 'a' <= c && c <= 'f' {
        Some(10 + c as u32 - 'a' as u32)
    } else if 'A' <= c && c <= 'F' {
        Some(10 + c as u32 - 'A' as u32)
    } else {
        None
    }
}

/// The character that the two hexadecimal digits `a` and `b` name.
pub fn hex2_to_unicode(a: char, b: char) -> (r: Option<char>)
    ensures
        r == hex2_spec(a, b),
{
    let high = match hex_digit_to_value(a) {
        Some(v) => v,
        None => return None,
    };
    let low = match hex_digit_to_value(b) {
        Some(v) => v,
        None => return None,
    };
    assert((high << 4) | low == high * 16 + low) by (bit_vector)
        requires
            high < 16,
            low < 16,
    ;
    core::char::from_u32((high << 4) | low)
}

/// The character that the four hexadecimal digits `a` to `d` name.
pub fn hex4_to_unicode(a: char, b: char, c: char, d: char) -> (r: Option<char>)
    ensures
        r == hex4_spec(a, b, c, d),
{
    let highest = match hex_digit_to_value(a) {
        Some(v) => v,
        None => return None,
    };
    let high = match hex_digit_to_value(b) {
        Some(v) => v,
        None => return None,
    };
    let low = match hex_digit_to_value(c) {
        Some(v) => v,
        None => return None,
    };
    let lowest = match hex_digit_to_value(d) {
        Some(v) => v,
        None => return None,
    };
    assert((highest << 12) | (high << 8) | (low << 4) | lowest == highest * 0x1000 + high * 0x100
        + low * 0x10 + lowest) by (bit_vector)
        requires
            highest < 16,
            high < 16,
            low < 16,
            lowest < 16,
    ;
    core::char::from_u32((highest << 12) | (high << 8) | (low << 4) | lowest)
}

/// Reads an escaped run: a string's body or a key. On success the cursor
/// stands at the `~` or `)` that ends the run, or at the end of the text. On
/// an error the cursor stays where it was.
pub fn decode(cur: &mut Cursor) -> (r: Result<String, DeserializeError>)
    ensures
        final(cur).input == old(cur).input,
        match decode_spec(old(cur).text(), old(cur).pos as int, Seq::empty()) {
            Ok((t, j)) => r is Ok && r.unwrap()@ == t && final(cur).pos == j,
            Err(kind) => r == Err::<String, DeserializeError>(DeserializeError { kind })
                && final(cur).pos == old(cur).pos,
        },
{
    let input = cur.input;
    let len = input.len();
    let mut pos = cur.pos;
    let mut result = String::new();
    loop
        invariant
            len == input.len(),
            input == cur.input,
            cur.input == old(cur).input,
            cur.pos == old(cur).pos,
            decode_spec(input@, old(cur).pos as int, Seq::empty()) == decode_spec(
                input@,
                pos as int,
                result@,
            ),
        decreases len - pos,
    {
        if pos >= len {
            cur.pos = pos;
            return Ok(result);
        }
        let c = input[pos];
        if c == '~' || c == ')' {
            cur.pos = pos;
            return Ok(result);
        } else if c == '*' {
            if len - pos < 2 {
                return Err(DeserializeError::new(ErrorKind::UnexpectedEnd));
            }
            let x1 = input[pos + 1];
            if x1 == '*' {
                if len - pos < 6 {
                    return Err(DeserializeError::new(ErrorKind::UnexpectedEnd));
                }
                match hex4_to_unicode(
                    input[pos + 2],
                    input[pos + 3],
                    input[pos + 4],
                    input[pos + 5],
                ) {
                    Some(ch) => {
                        result.push(ch);
                        pos = pos + 6;
                    },
                    None => {
                        return Err(DeserializeError::new(ErrorKind::InvalidEscape));
                    },
                }
            } else {
                if len - pos < 3 {
                    return Err(DeserializeError::new(ErrorKind::UnexpectedEnd));
                }
                match hex2_to_unicode(x1, input[pos + 2]) {
                    Some(ch) => {
                        result.push(ch);
                        pos = pos + 3;
                    },
                    None => {
                        return Err(DeserializeError::new(ErrorKind::InvalidEscape));
                    },
                }
            }
        } else if c == '!' {
            result.push('$');
            pos = pos + 1;
        } else {
            result.push(c);
            pos = pos + 1;
        }
    }
}

} // verus!

verus! {

/// Whether `s` holds the text `x` from the index `p` on.
pub open spec fn has_at(s: Seq<char>, p: int, x: Seq<char>) -> bool {
    &&& 0 <= p
    &&& p + x.len() <= s.len()
    &&& forall|k: int| 0 <= k < x.len() ==> s[p + k] == #[trigger] x[k]
}

/// A text that holds `a` and then `b` holds `a`, and holds `b` after it.
pub proof fn lemma_has_at_split(s: Seq<char>, p: int, a: Seq<char>, b: Seq<char>)
    requires
        has_at(s, p, a + b),
    ensures
        has_at(s, p, a),
        has_at(s, p + a.len(), b),
{
    let x = a + b;
    assert forall|k: int| 0 <= k < a.len() implies s[p + k] == #[trigger] a[k] by {
        assert(x[k] == a[k]);
    }
    assert forall|k: int| 0 <= k < b.len() implies s[p + a.len() + k] == #[trigger] b[k] by {
        assert(x[a.len() + k] == b[k]);
    }
}

/// The characters whose escape has four digits at most: those up to U+FFFF.
pub open spec fn in_basic_plane(c: char) -> bool {
    c as int <= 0xFFFF
}

/// Whether every character of `t` is in the basic plane.
pub open spec fn all_in_basic_plane(t: Seq<char>) -> bool {
    forall|k: int| 0 <= k < t.len() ==> in_basic_plane(#[trigger] t[k])
}

/// A hexadecimal digit that was written reads back as its value, and is no
/// `*`.
pub proof fn lemma_hex_char(d: int)
    requires
        0 <= d < 16,
    ensures
        hex_value(hex_char(d)) == Some(d),
        hex_char(d) != '*',
{
}

/// What is written for a character is not empty, and does not start with a
/// character that ends a run.
pub proof fn lemma_encode_char_shape(c: char)
    ensures
        encode_char(c).len() >= 1,
        !is_terminator(encode_char(c)[0]),
{
}

/// The four hexadecimal digits of a code below 0x10000 stand for the code.
pub proof fn lemma_hex_digits(code: int)
    requires
        0 <= code < 0x10000,
    ensures
        ((code / 0x1000) % 16) * 0x1000 + ((code / 0x100) % 16) * 0x100 + ((code / 0x10) % 16)
            * 0x10 + code % 16 == code,
        0 <= code / 0x1000 < 16,
{
    let c = code as u32;
    assert(((c / 0x1000) % 16) * 0x1000 + ((c / 0x100) % 16) * 0x100 + ((c / 0x10) % 16) * 0x10
        + c % 16 == c && c / 0x1000 < 16) by (bit_vector)
        requires
            c < 0x10000,
    ;
}

/// Reading a two-digit escape gives the character that it was written for.
proof fn lemma_decode_short(s: Seq<char>, p: int, c: char, acc: Seq<char>)
    requires
        !is_plain(c),
        c != '$',
        (c as int) < 0x100,
        has_at(s, p, encode_char(c)),
    ensures
        decode_spec(s, p, acc) == decode_spec(s, p + 3, acc.push(c)),
{
    let code = c as int;
    let x = encode_char(c);
    lemma_hex_char(code / 16);
    lemma_hex_char(code % 16);
    assert(s[p] == x[0]);
    assert(s[p + 1] == x[1]);
    assert(s[p + 2] == x[2]);
    assert(hex2_spec(s[p + 1], s[p + 2]) == scalar_of((code / 16) * 16 + code % 16));
    assert(scalar_of(code) == Some(c));
}

/// Reading a four-digit escape gives the character that it was written for.
proof fn lemma_decode_long(s: Seq<char>, p: int, c: char, acc: Seq<char>)
    requires
        0x100 <= c as int <= 0xFFFF,
        has_at(s, p, encode_char(c)),
    ensures
        decode_spec(s, p, acc) == decode_spec(s, p + 6, acc.push(c)),
{
    let code = c as int;
    let x = encode_char(c);
    let h3 = (code / 0x1000) % 16;
    let h2 = (code / 0x100) % 16;
    let h1 = (code / 0x10) % 16;
    let h0 = code % 16;
    lemma_hex_char(h3);
    lemma_hex_char(h2);
    lemma_hex_char(h1);
    lemma_hex_char(h0);
    lemma_hex_digits(code);
    assert(!is_plain(c) && c != '$');
    assert(x =~= seq!['*', '*', hex_char(h3), hex_char(h2), hex_char(h1), hex_char(h0)]);
    assert(s[p] == x[0]);
    assert(s[p + 1] == x[1]);
    assert(s[p + 2] == x[2]);
    assert(s[p + 3] == x[3]);
    assert(s[p + 4] == x[4]);
    assert(s[p + 5] == x[5]);
    assert(hex4_spec(s[p + 2], s[p + 3], s[p + 4], s[p + 5]) == scalar_of(
        h3 * 0x1000 + h2 * 0x100 + h1 * 0x10 + h0,
    ));
    assert(scalar_of(code) == Some(c));
}

/// Where a text holds what was written for a character of the basic plane,
/// reading it gives that character.
pub proof fn lemma_decode_char(s: Seq<char>, p: int, c: char, acc: Seq<char>)
    requires
        in_basic_plane(c),
        has_at(s, p, encode_char(c)),
    ensures
        decode_spec(s, p, acc) == decode_spec(s, p + encode_char(c).len(), acc.push(c)),
{
    let x = encode_char(c);
    if is_plain(c) {
        assert(s[p] == x[0]);
    } else if c == '$' {
        assert(s[p] == x[0]);
    } else if (c as int) < 0x100 {
        lemma_decode_short(s, p, c, acc);
    } else {
        lemma_decode_long(s, p, c, acc);
        assert(x.len() == 6);
    }
}

/// Where a text holds what was written for a string of the basic plane,
/// reading it gives that string.
pub proof fn lemma_decode_text(s: Seq<char>, p: int, t: Seq<char>, acc: Seq<char>)
    requires
        all_in_basic_plane(t),
        has_at(s, p, encode_text(t)),
    ensures
        decode_spec(s, p, acc) == decode_spec(s, p + encode_text(t).len(), acc + t),
    decreases t.len(),
{
    if t.len() == 0 {
        assert(acc + t =~= acc);
    } else {
        let front = t.drop_last();
        let c = t.last();
        lemma_has_at_split(s, p, encode_text(front), encode_char(c));
        assert(all_in_basic_plane(front)) by {
            assert forall|k: int| 0 <= k < front.len() implies in_basic_plane(
                #[trigger] front[k],
            ) by {
                assert(front[k] == t[k]);
            }
        }
        lemma_decode_text(s, p, front, acc);
        lemma_decode_char(s, p + encode_text(front).len(), c, acc + front);
        assert((acc + front).push(c) =~= acc + t);
    }
}

/// What was written for a string starts with no character that ends a run,
/// and with no `~` in particular.
pub proof fn lemma_encode_text_shape(t: Seq<char>)
    requires
        t.len() > 0,
    ensures
        encode_text(t).len() >= 1,
        !is_terminator(encode_text(t)[0]),
    decreases t.len(),
{
    lemma_encode_char_shape(t.last());
    if t.len() > 1 {
        lemma_encode_text_shape(t.drop_last());
    } else {
        assert(encode_text(t.drop_last()).len() == 0);
    }
}

/// Reading what was written for one character of the basic plane gives that
/// character back.
pub proof fn lemma_escape_round_trip(c: char)
    requires
        in_basic_plane(c),
    ensures
        decode_spec(encode_char(c), 0, Seq::empty()) == Ok::<(Seq<char>, int), ErrorKind>(
            (seq![c], encode_char(c).len() as int),
        ),
{
    let x = encode_char(c);
    assert(has_at(x, 0, x));
    lemma_decode_char(x, 0, c, Seq::empty());
    assert(Seq::<char>::empty().push(c) =~= seq![c]);
}

/// Reading what was written for a string of the basic plane gives that
/// string back.
pub proof fn lemma_escape_text_round_trip(t: Seq<char>)
    requires
        all_in_basic_plane(t),
    ensures
        decode_spec(encode_text(t), 0, Seq::empty()) == Ok::<(Seq<char>, int), ErrorKind>(
            (t, encode_text(t).len() as int),
        ),
{
    let x = encode_text(t);
    assert(has_at(x, 0, x));
    lemma_decode_text(x, 0, t, Seq::empty());
    assert(Seq::<char>::empty() + t =~= t);
}

} // verus!
