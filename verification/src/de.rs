use vstd::prelude::*;
use crate::cursor::{char_at, eat, peek, peekn, Cursor};
use crate::error::{DeserializeError, ErrorKind};
use crate::escape::{decode, decode_spec, is_terminator, lemma_decode_bounds};
use crate::number::{number_from_text, number_spec, MAX_NUMBER_LEN};
use crate::strings::{substring, to_chars};
use crate::value::{
    elements_view, insert_member, inserted, lemma_inserted_finite, lemma_inserted_wf,
    members_view, Json, Number, Value,
};

verus! {

/// What a reader makes of a text from some index on: a result and the index
/// after what it has read, or the first error.
pub type Parsed<T> = Result<(T, int), ErrorKind>;

/// Where the run that starts at `i` ends: at the next `~` or `)`, or at the
/// end of `s`.
pub open spec fn run_end(s: Seq<char>, i: int) -> int
    decreases s.len() - i,
{
    if i < 0 || i >= s.len() || is_terminator(s[i]) {
        i
    } else {
        run_end(s, i + 1)
    }
}

/// The value of a bare literal: `null`, `true`, `false`, or a number, which
/// starts with `-` or a digit.
pub open spec fn literal_spec(t: Seq<char>) -> Result<Json, ErrorKind> {
    if t == seq!['n', 'u', 'l', 'l'] {
        Ok(Json::Null)
    } else if t == seq!['t', 'r', 'u', 'e'] {
        Ok(Json::Bool(true))
    } else if t == seq!['f', 'a', 'l', 's', 'e'] {
        Ok(Json::Bool(false))
    } else if t.len() > 0 && (t[0] == '-' || '0' <= t[0] <= '9') {
        match number_spec(t) {
            Some(n) => Ok(Json::Number(n)),
            None => Err(ErrorKind::InvalidValue),
        }
    } else {
        Err(ErrorKind::InvalidValue)
    }
}

/// The value that starts at `i`, and the index after it.
///
/// A value starts with `~`. After it, `(` opens an array where a `~` follows,
/// and an object otherwise; `'` opens a string, which runs up to the next `~`
/// or `)` or the end; any other character starts a bare literal, which runs
/// as far.
pub open spec fn parse_value_spec(s: Seq<char>, i: int) -> Parsed<Json>
    decreases s.len() - i, 0nat,
{
    if !(0 <= i < s.len()) {
        Err(ErrorKind::UnexpectedEnd)
    } else if s[i] != '~' {
        Err(ErrorKind::UnexpectedChar)
    } else if i + 1 >= s.len() {
        Err(ErrorKind::UnexpectedEnd)
    } else if s[i + 1] == '(' {
        if char_at(s, i + 2) == Some('~') {
            parse_array_spec(s, i + 2)
        } else {
            parse_object_spec(s, i + 2)
        }
    } else if s[i + 1] == '\'' {
        match decode_spec(s, i + 2, Seq::empty()) {
            Ok((t, j)) => Ok((Json::String(t), j)),
            Err(e) => Err(e),
        }
    } else {
        let j = run_end(s, i + 2);
        match literal_spec(s.subrange(i + 1, j)) {
            Ok(v) => Ok((v, j)),
            Err(e) => Err(e),
        }
    }
}

/// The array whose body starts at `i`, after the `(`: `~)` for the empty
/// array, and else values up to a `)`.
pub open spec fn parse_array_spec(s: Seq<char>, i: int) -> Parsed<Json>
    decreases s.len() - i, 2nat,
{
    if char_at(s, i + 1) == Some(')') {
        if char_at(s, i) == Some('~') {
            Ok((Json::Array(Seq::empty()), i + 2))
        } else {
            Err(ErrorKind::UnexpectedChar)
        }
    } else {
        match parse_elements_spec(s, i, Seq::empty()) {
            Ok((a, j)) => Ok((Json::Array(a), j)),
            Err(e) => Err(e),
        }
    }
}

/// The elements of an array from `i` on, after the elements `acc`: values up
/// to a `)`.
///
/// A value always ends after the place where it starts and within the text
/// ([`lemma_parse_value_bounds`]); the test for it is there to show that the
/// definition is well founded.
pub open spec fn parse_elements_spec(s: Seq<char>, i: int, acc: Seq<Json>) -> Parsed<Seq<Json>>
    decreases s.len() - i, 1nat,
{
    if char_at(s, i) == Some(')') {
        Ok((acc, i + 1))
    } else {
        match parse_value_spec(s, i) {
            Ok((v, j)) => if i < j <= s.len() {
                parse_elements_spec(s, j, acc.push(v))
            } else {
                Err(ErrorKind::UnexpectedEnd)
            },
            Err(e) => Err(e),
        }
    }
}

/// The object whose body starts at `i`, after the `(`: a `)` for the empty
/// object, and else members up to a `)`.
pub open spec fn parse_object_spec(s: Seq<char>, i: int) -> Parsed<Json>
    decreases s.len() - i, 2nat,
{
    if char_at(s, i) == Some(')') {
        Ok((Json::Object(Seq::empty()), i + 1))
    } else {
        match parse_members_spec(s, i, Seq::empty()) {
            Ok((o, j)) => Ok((Json::Object(o), j)),
            Err(e) => Err(e),
        }
    }
}

/// The members of an object from `i` on, after the members `acc`. A member is
/// a key, which runs up to the `~` of its value, and the value. After it a `~`
/// brings the next member and a `)` closes the object; a text that ends there
/// leaves the object open. A key that comes again takes the later value.
///
/// A value always ends after the place where it starts
/// ([`lemma_parse_value_bounds`]); the test for it is there to show that the
/// definition is well founded.
pub open spec fn parse_members_spec(s: Seq<char>, i: int, acc: Seq<(Seq<char>, Json)>) -> Parsed<
    Seq<(Seq<char>, Json)>,
>
    decreases s.len() - i, 1nat,
{
    if i < 0 {
        Err(ErrorKind::UnexpectedEnd)
    } else {
        match decode_spec(s, i, Seq::empty()) {
            Ok((key, j)) => {
                proof {
                    lemma_decode_bounds(s, i, Seq::empty());
                }
                match parse_value_spec(s, j) {
                    Ok((v, m)) => if !(j < m < s.len()) {
                        Err(ErrorKind::UnexpectedEnd)
                    } else if s[m] == ')' {
                        Ok((inserted(acc, key, v), m + 1))
                    } else if s[m] == '~' {
                        parse_members_spec(s, m + 1, inserted(acc, key, v))
                    } else {
                        Err(ErrorKind::UnexpectedChar)
                    },
                    Err(e) => Err(e),
                }
            },
            Err(e) => Err(e),
        }
    }
}

/// The value of a whole text: the value that starts at 0, where nothing
/// follows it.
pub open spec fn deserialize_spec(s: Seq<char>) -> Result<Json, ErrorKind> {
    match parse_value_spec(s, 0) {
        Ok((v, j)) => if j < s.len() {
            Err(ErrorKind::TrailingInput)
        } else {
            Ok(v)
        },
        Err(e) => Err(e),
    }
}

/// A run ends at or after the place where it starts, and within the text.
pub proof fn lemma_run_end_bounds(s: Seq<char>, i: int)
    requires
        0 <= i <= s.len(),
    ensures
        i <= run_end(s, i) <= s.len(),
        forall|k: int| i <= k < run_end(s, i) ==> !is_terminator(#[trigger] s[k]),
        run_end(s, i) < s.len() ==> is_terminator(s[run_end(s, i)]),
    decreases s.len() - i,
{
    if i < s.len() && !is_terminator(s[i]) {
        lemma_run_end_bounds(s, i + 1);
    }
}

/// A value has at least two characters, and ends within the text.
pub proof fn lemma_parse_value_bounds(s: Seq<char>, i: int)
    ensures
        parse_value_spec(s, i) matches Ok((_, j)) ==> i + 2 <= j <= s.len(),
    decreases s.len() - i, 0nat,
{
    if 0 <= i < s.len() && s[i] == '~' && i + 1 < s.len() {
        if s[i + 1] == '(' {
            if char_at(s, i + 2) == Some('~') {
                lemma_parse_array_bounds(s, i + 2);
            } else {
                lemma_parse_object_bounds(s, i + 2);
            }
        } else if s[i + 1] == '\'' {
            lemma_decode_bounds(s, i + 2, Seq::empty());
        } else {
            lemma_run_end_bounds(s, i + 2);
        }
    }
}

/// The body of an array ends after where it starts, and within the text.
pub proof fn lemma_parse_array_bounds(s: Seq<char>, i: int)
    requires
        0 <= i,
    ensures
        parse_array_spec(s, i) matches Ok((_, j)) ==> i < j <= s.len(),
    decreases s.len() - i, 2nat,
{
    if char_at(s, i + 1) != Some(')') {
        lemma_parse_elements_bounds(s, i, Seq::empty());
    }
}

/// The elements of an array end after where they start, and within the text.
pub proof fn lemma_parse_elements_bounds(s: Seq<char>, i: int, acc: Seq<Json>)
    requires
        0 <= i,
    ensures
        parse_elements_spec(s, i, acc) matches Ok((_, j)) ==> i < j <= s.len(),
    decreases s.len() - i, 1nat,
{
    if char_at(s, i) != Some(')') {
        lemma_parse_value_bounds(s, i);
        match parse_value_spec(s, i) {
            Ok((v, j)) => {
                lemma_parse_elements_bounds(s, j, acc.push(v));
            },
            Err(_) => {},
        }
    }
}

/// The body of an object ends after where it starts, and within the text.
pub proof fn lemma_parse_object_bounds(s: Seq<char>, i: int)
    requires
        0 <= i,
    ensures
        parse_object_spec(s, i) matches Ok((_, j)) ==> i < j <= s.len(),
    decreases s.len() - i, 2nat,
{
    if char_at(s, i) != Some(')') {
        lemma_parse_members_bounds(s, i, Seq::empty());
    }
}

/// The members of an object end after where they start, and within the text.
pub proof fn lemma_parse_members_bounds(s: Seq<char>, i: int, acc: Seq<(Seq<char>, Json)>)
    requires
        0 <= i,
    ensures
        parse_members_spec(s, i, acc) matches Ok((_, j)) ==> i < j <= s.len(),
    decreases s.len() - i, 1nat,
{
    lemma_decode_bounds(s, i, Seq::empty());
    match decode_spec(s, i, Seq::empty()) {
        Ok((key, j)) => {
            lemma_parse_value_bounds(s, j);
            match parse_value_spec(s, j) {
                Ok((v, m)) => {
                    if m < s.len() && s[m] == '~' {
                        lemma_parse_members_bounds(s, m + 1, inserted(acc, key, v));
                    }
                },
                Err(_) => {},
            }
        },
        Err(_) => {},
    }
}

/// What a reader owes: on success the value that `expected` names, valid and
/// with finite numbers only, and the cursor after it; on failure the error
/// that `expected` names, and the cursor where it was.
pub open spec fn reads(
    before: Cursor,
    after: Cursor,
    r: Result<Value, DeserializeError>,
    expected: Parsed<Json>,
) -> bool {
    &&& after.input == before.input
    &&& match expected {
        Ok((v, j)) => r is Ok && r.unwrap()@ == v && after.pos == j && r.unwrap().wf()
            && v.all_finite(),
        Err(kind) => r == Err::<Value, DeserializeError>(DeserializeError { kind }) && after.pos
            == before.pos,
    }
}

/// The value of a literal that starts like a number, from what the number
/// reader made of it: the number, or an error where it found none.
pub fn number_literal(number: Option<Number>) -> (r: Result<Value, DeserializeError>)
    ensures
        match number {
            Some(n) => r == Ok::<Value, DeserializeError>(Value::Number(n)),
            None => r == Err::<Value, DeserializeError>(
                DeserializeError { kind: ErrorKind::InvalidValue },
            ),
        },
{
    match number {
        Some(n) => Ok(Value::Number(n)),
        None => Err(DeserializeError::new(ErrorKind::InvalidValue)),
    }
}

/// Reads the bare literal that stands in `input` from `first` up to `end`.
fn parse_literal(input: &Vec<char>, first: usize, end: usize) -> (r: Result<
    Value,
    DeserializeError,
>)
    requires
        first < end <= input.len(),
    ensures
        match literal_spec(input@.subrange(first as int, end as int)) {
            Ok(v) => r is Ok && r.unwrap()@ == v && v.wf() && v.all_finite(),
            Err(kind) => r == Err::<Value, DeserializeError>(DeserializeError { kind }),
        },
{
    let ghost t = input@.subrange(first as int, end as int);
    let n = end - first;
    let c = input[first];
    assert(t[0] == c);
    if n == 4 && c == 'n' && input[first + 1] == 'u' && input[first + 2] == 'l' && input[first
        + 3] == 'l' {
        assert(t =~= seq!['n', 'u', 'l', 'l']);
        return Ok(Value::Null);
    }
    if n == 4 && c == 't' && input[first + 1] == 'r' && input[first + 2] == 'u' && input[first
        + 3] == 'e' {
        assert(t =~= seq!['t', 'r', 'u', 'e']);
        return Ok(Value::Bool(true));
    }
    if n == 5 && c == 'f' && input[first + 1] == 'a' && input[first + 2] == 'l' && input[first
        + 3] == 's' && input[first + 4] == 'e' {
        assert(t =~= seq!['f', 'a', 'l', 's', 'e']);
        return Ok(Value::Bool(false));
    }
    proof {
        if t == seq!['n', 'u', 'l', 'l'] {
            assert(t.len() == 4 && t[0] == 'n' && t[1] == 'u' && t[2] == 'l' && t[3] == 'l');
        }
        if t == seq!['t', 'r', 'u', 'e'] {
            assert(t.len() == 4 && t[0] == 't' && t[1] == 'r' && t[2] == 'u' && t[3] == 'e');
        }
        if t == seq!['f', 'a', 'l', 's', 'e'] {
            assert(t.len() == 5 && t[0] == 'f' && t[1] == 'a' && t[2] == 'l' && t[3] == 's'
                && t[4] == 'e');
        }
    }
    if c == '-' || ('0' <= c && c <= '9') {
        if n > MAX_NUMBER_LEN {
            return Err(DeserializeError::new(ErrorKind::InvalidValue));
        }
        let text = substring(input, first, end);
        number_literal(number_from_text(text.as_str()))
    } else {
        Err(DeserializeError::new(ErrorKind::InvalidValue))
    }
}

/// Reads one value. On an error the cursor stays where it was.
pub fn parse_one(cur: &mut Cursor) -> (r: Result<Value, DeserializeError>)
    ensures
        reads(*old(cur), *final(cur), r, parse_value_spec(old(cur).text(), old(cur).pos as int)),
    decreases old(cur).text().len() - old(cur).pos, 0nat,
{
    let start = cur.pos;
    let ghost s = cur.text();
    match eat(cur, '~') {
        Ok(()) => {},
        Err(e) => {
            return Err(e);
        },
    }
    let c = match cur.next() {
        Some(c) => c,
        None => {
            cur.pos = start;
            return Err(DeserializeError::new(ErrorKind::UnexpectedEnd));
        },
    };
    if c == '(' {
        let is_array = match peek(cur) {
            Some(next) => next == '~',
            None => false,
        };
        let r = if is_array {
            parse_array(cur)
        } else {
            parse_object(cur)
        };
        if r.is_err() {
            cur.pos = start;
        }
        r
    } else if c == '\'' {
        match decode(cur) {
            Ok(text) => Ok(Value::String(text)),
            Err(e) => {
                cur.pos = start;
                Err(e)
            },
        }
    } else {
        let input = cur.input;
        let first = start + 1;
        let mut end = first + 1;
        while end < input.len() && !(input[end] == '~' || input[end] == ')')
            invariant
                first < end <= input.len(),
                run_end(input@, first + 1) == run_end(input@, end as int),
            decreases input.len() - end,
        {
            end = end + 1;
        }
        match parse_literal(input, first, end) {
            Ok(v) => {
                cur.pos = end;
                Ok(v)
            },
            Err(e) => {
                cur.pos = start;
                Err(e)
            },
        }
    }
}

/// Reads the body of an array, after its `(`: the cursor stands at the `~`
/// that follows. On an error the cursor stays where it was.
pub fn parse_array(cur: &mut Cursor) -> (r: Result<Value, DeserializeError>)
    ensures
        reads(*old(cur), *final(cur), r, parse_array_spec(old(cur).text(), old(cur).pos as int)),
    decreases old(cur).text().len() - old(cur).pos, 2nat,
{
    let start = cur.pos;
    let ghost s = cur.text();
    let is_empty = match peekn(cur, 1) {
        Some(c) => c == ')',
        None => false,
    };
    if is_empty {
        match eat(cur, '~') {
            Ok(()) => {},
            Err(e) => {
                return Err(e);
            },
        }
        cur.next();
        let empty: Vec<Value> = Vec::new();
        assert(elements_view(&empty) =~= Seq::empty());
        return Ok(Value::Array(empty));
    }
    let mut result: Vec<Value> = Vec::new();
    assert(elements_view(&result) =~= Seq::empty());
    loop
        invariant
            cur.input == old(cur).input,
            s == cur.text(),
            s == old(cur).text(),
            start == old(cur).pos,
            start <= cur.pos,
            cur.pos <= s.len() || cur.pos == start,
            char_at(s, start + 1) != Some(')'),
            parse_elements_spec(s, start as int, Seq::empty()) == parse_elements_spec(
                s,
                cur.pos as int,
                elements_view(&result),
            ),
            Json::Array(elements_view(&result)).wf(),
            Json::Array(elements_view(&result)).all_finite(),
        decreases s.len() - cur.pos,
    {
        let is_end = match peek(cur) {
            Some(c) => c == ')',
            None => false,
        };
        if is_end {
            cur.next();
            return Ok(Value::Array(result));
        }
        proof {
            lemma_parse_value_bounds(s, cur.pos as int);
        }
        let ghost before = elements_view(&result);
        match parse_one(cur) {
            Ok(v) => {
                result.push(v);
                proof {
                    let after = elements_view(&result);
                    assert(after =~= before.push(v@));
                    assert(Json::Array(before)->Array_0 == before);
                    assert(Json::Array(after)->Array_0 == after);
                    assert forall|k: int| 0 <= k < after.len() implies (#[trigger] after[k]).wf()
                        && after[k].all_finite() by {
                        if k < before.len() {
                            assert(before[k].wf() && before[k].all_finite());
                        }
                    }
                }
            },
            Err(e) => {
                cur.pos = start;
                return Err(e);
            },
        }
    }
}

/// Reads the body of an object, after its `(`. On an error the cursor stays
/// where it was.
pub fn parse_object(cur: &mut Cursor) -> (r: Result<Value, DeserializeError>)
    ensures
        reads(*old(cur), *final(cur), r, parse_object_spec(old(cur).text(), old(cur).pos as int)),
    decreases old(cur).text().len() - old(cur).pos, 2nat,
{
    let start = cur.pos;
    let ghost s = cur.text();
    let is_empty = match peek(cur) {
        Some(c) => c == ')',
        None => false,
    };
    if is_empty {
        cur.next();
        let empty: Vec<(String, Value)> = Vec::new();
        assert(members_view(&empty) =~= Seq::empty());
        return Ok(Value::Object(empty));
    }
    let mut members: Vec<(String, Value)> = Vec::new();
    assert(members_view(&members) =~= Seq::empty());
    loop
        invariant
            cur.input == old(cur).input,
            s == cur.text(),
            s == old(cur).text(),
            start == old(cur).pos,
            start <= cur.pos,
            cur.pos <= s.len() || cur.pos == start,
            char_at(s, start as int) != Some(')'),
            parse_members_spec(s, start as int, Seq::empty()) == parse_members_spec(
                s,
                cur.pos as int,
                members_view(&members),
            ),
            Json::Object(members_view(&members)).wf(),
            Json::Object(members_view(&members)).all_finite(),
        decreases s.len() - cur.pos,
    {
        let ghost acc = members_view(&members);
        proof {
            lemma_decode_bounds(s, cur.pos as int, Seq::empty());
        }
        let key = match decode(cur) {
            Ok(key) => key,
            Err(e) => {
                cur.pos = start;
                return Err(e);
            },
        };
        proof {
            lemma_parse_value_bounds(s, cur.pos as int);
        }
        let value = match parse_one(cur) {
            Ok(value) => value,
            Err(e) => {
                cur.pos = start;
                return Err(e);
            },
        };
        proof {
            lemma_inserted_wf(acc, key@, value@);
            lemma_inserted_finite(acc, key@, value@);
        }
        insert_member(&mut members, key, value);
        match peek(cur) {
            None => {
                cur.pos = start;
                return Err(DeserializeError::new(ErrorKind::UnexpectedEnd));
            },
            Some(c) => {
                if c == ')' {
                    cur.next();
                    return Ok(Value::Object(members));
                } else if c == '~' {
                    cur.next();
                } else {
                    cur.pos = start;
                    return Err(DeserializeError::new(ErrorKind::UnexpectedChar));
                }
            },
        }
    }
}

/// Reads the value that `s` is the text of. Nothing may follow the value.
pub fn deserialize(s: &str) -> (r: Result<Value, DeserializeError>)
    ensures
        match deserialize_spec(s@) {
            Ok(v) => r is Ok && r.unwrap()@ == v && r.unwrap().wf() && v.all_finite(),
            Err(kind) => r == Err::<Value, DeserializeError>(DeserializeError { kind }),
        },
{
    let chars = to_chars(s);
    let mut cur = Cursor::new(&chars);
    let value = match parse_one(&mut cur) {
        Ok(value) => value,
        Err(e) => {
            return Err(e);
        },
    };
    if !cur.at_end() {
        return Err(DeserializeError::new(ErrorKind::TrailingInput));
    }
    Ok(value)
}

} // verus!
