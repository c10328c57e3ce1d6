//! What holds of the codec as a whole: a value that is written out and read
//! again is the same value, and a text with something after its value is
//! refused.

use vstd::prelude::*;
use crate::cursor::char_at;
use crate::de::{
    deserialize_spec, lemma_parse_array_bounds, lemma_parse_elements_bounds,
    lemma_parse_members_bounds, lemma_parse_object_bounds, lemma_parse_value_bounds,
    lemma_run_end_bounds, literal_spec, parse_array_spec, parse_elements_spec,
    parse_members_spec, parse_object_spec, parse_value_spec, run_end,
};
use crate::error::ErrorKind;
use crate::escape::{
    all_in_basic_plane, decode_spec, encode_text, has_at, hex2_spec, hex4_spec, is_terminator,
    lemma_decode_bounds, lemma_decode_text, lemma_encode_text_shape, lemma_has_at_split,
};
use crate::number::{in_int_range, lemma_int_text, number_round_trips, number_spec, number_text};
use crate::ser::{elements_text, member_text, members_text, value_text};
use crate::value::{inserted, key_index, keys, lemma_key_index, Json, JsonNumber};

verus! {

/// Whether a run that reaches the index `j` ends there: with the text, or at
/// a `~` or `)`.
pub open spec fn ends_run(s: Seq<char>, j: int) -> bool {
    j >= s.len() || is_terminator(s[j])
}

impl Json {
    /// The values that come back from their text: those in which every
    /// number does, every string and key is of the basic plane (a character
    /// above U+FFFF is written with more than four digits, and read with
    /// four), and no object starts with an empty key (its text would be that
    /// of an array).
    pub open spec fn round_trips(self) -> bool
        decreases self,
    {
        match self {
            Json::Null => true,
            Json::Bool(_) => true,
            Json::Number(n) => number_round_trips(n),
            Json::String(t) => all_in_basic_plane(t),
            Json::Array(a) => forall|i: int| 0 <= i < a.len() ==> (#[trigger] a[i]).round_trips(),
            Json::Object(o) => {
                &&& o.len() > 0 ==> o[0].0.len() > 0
                &&& forall|i: int|
                    0 <= i < o.len() ==> all_in_basic_plane((#[trigger] o[i]).0)
                        && o[i].1.round_trips()
            },
        }
    }
}

/// A run that holds no `~` or `)` from `i` up to `j`, and ends at `j`, ends
/// nowhere else.
pub proof fn lemma_run_end_at(s: Seq<char>, i: int, j: int)
    requires
        0 <= i <= j <= s.len(),
        forall|k: int| i <= k < j ==> !is_terminator(#[trigger] s[k]),
        ends_run(s, j),
    ensures
        run_end(s, i) == j,
    decreases j - i,
{
    if i < j {
        lemma_run_end_at(s, i + 1, j);
    }
}

/// Where a text holds a `~` and a bare literal, and the literal ends there,
/// the value at that place is the value of the literal.
proof fn lemma_parse_literal_text(s: Seq<char>, p: int, t: Seq<char>, v: Json)
    requires
        has_at(s, p, seq!['~'] + t),
        t.len() >= 1,
        t[0] != '(',
        t[0] != '\'',
        forall|k: int| 0 <= k < t.len() ==> !is_terminator(#[trigger] t[k]),
        ends_run(s, p + 1 + t.len()),
        literal_spec(t) == Ok::<Json, ErrorKind>(v),
    ensures
        parse_value_spec(s, p) == Ok::<(Json, int), ErrorKind>((v, p + 1 + t.len())),
{
    let x = seq!['~'] + t;
    let j = p + 1 + t.len();
    assert(x[0] == '~');
    assert(s[p] == '~');
    assert forall|k: int| 0 <= k < t.len() implies s[p + 1 + k] == t[k] by {
        assert(x[k + 1] == t[k]);
    }
    assert(s[p + 1] == t[0]);
    assert forall|k: int| p + 2 <= k < j implies !is_terminator(#[trigger] s[k]) by {
        assert(s[p + 1 + (k - p - 1)] == t[k - p - 1]);
    }
    lemma_run_end_at(s, p + 2, j);
    assert(s.subrange(p + 1, j) =~= t);
}

/// What is written for a value that comes back has two characters at least:
/// a `~`, and then no `)`.
pub proof fn lemma_value_text_shape(v: Json)
    requires
        v.round_trips(),
    ensures
        value_text(v).len() >= 2,
        value_text(v)[0] == '~',
        value_text(v)[1] != ')',
{
    match v {
        Json::Number(n) => {
            match n {
                JsonNumber::Int(i) => {
                    lemma_int_text(i);
                },
                _ => {},
            }
        },
        _ => {},
    }
}

/// A text that holds the first `n` elements of an array holds the first `k`.
proof fn lemma_elements_prefix(s: Seq<char>, base: int, a: Seq<Json>, n: nat, k: nat)
    requires
        k <= n <= a.len(),
        has_at(s, base, elements_text(a, n)),
    ensures
        has_at(s, base, elements_text(a, k)),
        elements_text(a, k).len() <= elements_text(a, n).len(),
    decreases n - k,
{
    if k < n {
        lemma_has_at_split(s, base, elements_text(a, (n - 1) as nat), value_text(a[n - 1]));
        lemma_elements_prefix(s, base, a, (n - 1) as nat, k);
    }
}

/// Where the members of an object start in its text: the member `k` comes
/// after the first `k` members and, but for the first, a `~`.
pub open spec fn member_start(o: Seq<(Seq<char>, Json)>, k: nat) -> int {
    if k == 0 {
        0
    } else {
        members_text(o, k).len() + 1int
    }
}

/// A text that holds the first `n` members of an object holds the first `k`.
proof fn lemma_members_prefix(s: Seq<char>, base: int, o: Seq<(Seq<char>, Json)>, n: nat, k: nat)
    requires
        k <= n <= o.len(),
        has_at(s, base, members_text(o, n)),
    ensures
        has_at(s, base, members_text(o, k)),
        members_text(o, k).len() <= members_text(o, n).len(),
    decreases n - k,
{
    if k < n {
        if n == 1 {
            assert(members_text(o, 0).len() == 0);
        } else {
            let front = members_text(o, (n - 1) as nat);
            assert(members_text(o, n) =~= front + (seq!['~'] + member_text(o[n - 1])));
            lemma_has_at_split(s, base, front, seq!['~'] + member_text(o[n - 1]));
            lemma_members_prefix(s, base, o, (n - 1) as nat, k);
        }
    }
}

/// A text that holds the members of an object holds the member `k` where
/// [`member_start`] says, and before it, but for the first, a `~`.
proof fn lemma_member_at(s: Seq<char>, base: int, o: Seq<(Seq<char>, Json)>, k: nat)
    requires
        k < o.len(),
        has_at(s, base, members_text(o, o.len())),
    ensures
        has_at(s, base + member_start(o, k), member_text(o[k as int])),
        base + member_start(o, k) + member_text(o[k as int]).len() == base + members_text(
            o,
            k + 1,
        ).len(),
        k > 0 ==> s[base + member_start(o, k) - 1] == '~',
{
    lemma_members_prefix(s, base, o, o.len(), k + 1);
    if k > 0 {
        let front = members_text(o, k);
        let rest = seq!['~'] + member_text(o[k as int]);
        assert(members_text(o, k + 1) =~= front + rest);
        lemma_has_at_split(s, base, front, rest);
        lemma_has_at_split(s, base + front.len(), seq!['~'], member_text(o[k as int]));
        assert(seq!['~'][0] == '~');
    }
}

/// [`lemma_parse_value_text`] for `null`, the booleans and the numbers.
proof fn lemma_parse_bare_text(s: Seq<char>, p: int, v: Json)
    requires
        v is Null || v is Bool || v is Number,
        v.wf(),
        v.round_trips(),
        has_at(s, p, value_text(v)),
        ends_run(s, p + value_text(v).len()),
    ensures
        parse_value_spec(s, p) == Ok::<(Json, int), ErrorKind>((v, p + value_text(v).len())),
{
    let x = value_text(v);
    match v {
        Json::Null => {
            let t = seq!['n', 'u', 'l', 'l'];
            assert(x =~= seq!['~'] + t);
            lemma_parse_literal_text(s, p, t, v);
        },
        Json::Bool(b) => {
            if b {
                let t = seq!['t', 'r', 'u', 'e'];
                assert(x =~= seq!['~'] + t);
                lemma_parse_literal_text(s, p, t, v);
            } else {
                let t = seq!['f', 'a', 'l', 's', 'e'];
                assert(x =~= seq!['~'] + t);
                lemma_parse_literal_text(s, p, t, v);
            }
        },
        Json::Number(n) => {
            let t = number_text(n);
            match n {
                JsonNumber::Int(i) => {
                    lemma_int_text(i);
                    assert(in_int_range(i));
                    assert(number_spec(t) == Some(n));
                },
                _ => {},
            }
            assert(t[0] == '-' || '0' <= t[0] <= '9');
            assert(literal_spec(t) == Ok::<Json, ErrorKind>(v));
            lemma_parse_literal_text(s, p, t, v);
        },
        _ => {},
    }
}

/// [`lemma_parse_value_text`] for a string.
proof fn lemma_parse_string_text(s: Seq<char>, p: int, t: Seq<char>)
    requires
        all_in_basic_plane(t),
        has_at(s, p, value_text(Json::String(t))),
        ends_run(s, p + value_text(Json::String(t)).len()),
    ensures
        parse_value_spec(s, p) == Ok::<(Json, int), ErrorKind>(
            (Json::String(t), p + value_text(Json::String(t)).len()),
        ),
{
    let head = seq!['~', '\''];
    lemma_has_at_split(s, p, head, encode_text(t));
    assert(head[0] == '~' && head[1] == '\'');
    assert(s[p] == '~' && s[p + 1] == '\'');
    lemma_decode_text(s, p + 2, t, Seq::empty());
    assert(Seq::<char>::empty() + t =~= t);
}

/// [`lemma_parse_value_text`] for an array.
proof fn lemma_parse_array_text(s: Seq<char>, p: int, v: Json)
    requires
        v is Array,
        v.wf(),
        v.round_trips(),
        has_at(s, p, value_text(v)),
    ensures
        parse_value_spec(s, p) == Ok::<(Json, int), ErrorKind>((v, p + value_text(v).len())),
    decreases v, 0nat,
{
    let x = value_text(v);
    let a = v->Array_0;
    if a.len() == 0 {
        assert(x[0] == '~' && x[1] == '(' && x[2] == '~' && x[3] == ')');
        assert(s[p] == '~' && s[p + 1] == '(' && s[p + 2] == '~' && s[p + 3] == ')');
        assert(a =~= Seq::empty());
    } else {
        let head = seq!['~', '('];
        let body = elements_text(a, a.len());
        assert(x =~= head + (body + seq![')']));
        lemma_has_at_split(s, p, head, body + seq![')']);
        assert(head[0] == '~' && head[1] == '(');
        assert(s[p] == '~' && s[p + 1] == '(');
        lemma_has_at_split(s, p + 2, body, seq![')']);
        lemma_elements_prefix(s, p + 2, a, a.len(), 1);
        assert(elements_text(a, 0).len() == 0);
        assert(elements_text(a, 1) =~= value_text(a[0]));
        lemma_value_text_shape(a[0]);
        let first = value_text(a[0]);
        assert(s[p + 2 + 0] == first[0]);
        assert(s[p + 2 + 1] == first[1]);
        lemma_parse_elements_text(s, p + 2, a, 0);
        assert(a.take(0) =~= Seq::empty());
        assert(parse_array_spec(s, p + 2) == Ok::<(Json, int), ErrorKind>(
            (v, p + 2 + body.len() + 1),
        ));
    }
}

/// [`lemma_parse_value_text`] for an object.
proof fn lemma_parse_object_text(s: Seq<char>, p: int, v: Json)
    requires
        v is Object,
        v.wf(),
        v.round_trips(),
        has_at(s, p, value_text(v)),
    ensures
        parse_value_spec(s, p) == Ok::<(Json, int), ErrorKind>((v, p + value_text(v).len())),
    decreases v, 0nat,
{
    let x = value_text(v);
    let o = v->Object_0;
    let head = seq!['~', '('];
    let body = members_text(o, o.len());
    assert(x =~= head + (body + seq![')']));
    lemma_has_at_split(s, p, head, body + seq![')']);
    assert(head[0] == '~' && head[1] == '(');
    assert(s[p] == '~' && s[p + 1] == '(');
    lemma_has_at_split(s, p + 2, body, seq![')']);
    assert(seq![')'][0] == ')');
    if o.len() == 0 {
        assert(body.len() == 0);
        assert(s[p + 2 + 0] == ')');
        assert(o =~= Seq::empty());
    } else {
        lemma_member_at(s, p + 2, o, 0);
        let key = encode_text(o[0].0);
        lemma_has_at_split(s, p + 2, key, value_text(o[0].1));
        lemma_encode_text_shape(o[0].0);
        assert(s[p + 2 + 0] == key[0]);
        lemma_parse_members_text(s, p + 2, o, 0);
        assert(o.take(0) =~= Seq::empty());
        assert(parse_object_spec(s, p + 2) == Ok::<(Json, int), ErrorKind>(
            (v, p + 2 + body.len() + 1),
        ));
    }
}

/// Where a text holds what was written for a valid value that comes back,
/// and a run may end after it, the value at that place is that value.
pub proof fn lemma_parse_value_text(s: Seq<char>, p: int, v: Json)
    requires
        v.wf(),
        v.round_trips(),
        has_at(s, p, value_text(v)),
        ends_run(s, p + value_text(v).len()),
    ensures
        parse_value_spec(s, p) == Ok::<(Json, int), ErrorKind>((v, p + value_text(v).len())),
    decreases v, 1nat,
{
    match v {
        Json::String(t) => {
            lemma_parse_string_text(s, p, t);
        },
        Json::Array(_) => {
            lemma_parse_array_text(s, p, v);
        },
        Json::Object(_) => {
            lemma_parse_object_text(s, p, v);
        },
        _ => {
            lemma_parse_bare_text(s, p, v);
        },
    }
}

/// Where a text holds the elements of an array and its `)`, the elements
/// from the element `k` on, read after the first `k`, give the array.
proof fn lemma_parse_elements_text(s: Seq<char>, base: int, a: Seq<Json>, k: nat)
    requires
        Json::Array(a).wf(),
        Json::Array(a).round_trips(),
        k <= a.len(),
        has_at(s, base, elements_text(a, a.len())),
        has_at(s, base + elements_text(a, a.len()).len(), seq![')']),
    ensures
        parse_elements_spec(s, base + elements_text(a, k).len(), a.take(k as int)) == Ok::<
            (Seq<Json>, int),
            ErrorKind,
        >((a, base + elements_text(a, a.len()).len() + 1)),
    decreases a, a.len() - k,
{
    let n = a.len();
    let i = base + elements_text(a, k).len();
    let end = base + elements_text(a, n).len();
    assert(Json::Array(a)->Array_0 == a);
    assert(seq![')'][0] == ')');
    assert(s[end + 0] == ')');
    lemma_elements_prefix(s, base, a, n, k);
    if k == n {
        assert(a.take(k as int) =~= a);
    } else {
        let v = a[k as int];
        let x = value_text(v);
        lemma_elements_prefix(s, base, a, n, k + 1);
        lemma_has_at_split(s, base, elements_text(a, k), x);
        lemma_value_text_shape(v);
        assert(s[i + 0] == x[0]);
        let j = i + x.len();
        assert(j == base + elements_text(a, k + 1).len());
        assert(ends_run(s, j)) by {
            if k + 1 < n {
                lemma_elements_prefix(s, base, a, n, k + 2);
                let next = value_text(a[k + 1int]);
                lemma_has_at_split(s, base, elements_text(a, k + 1), next);
                lemma_value_text_shape(a[k + 1int]);
                assert(s[j + 0] == next[0]);
            }
        }
        lemma_parse_value_text(s, i, v);
        lemma_parse_elements_text(s, base, a, k + 1);
        assert(a.take(k as int).push(v) =~= a.take(k + 1int));
    }
}

/// Where a text holds the members of an object and its `)`, the members from
/// the member `k` on, read after the first `k`, give the object.
proof fn lemma_parse_members_text(s: Seq<char>, base: int, o: Seq<(Seq<char>, Json)>, k: nat)
    requires
        Json::Object(o).wf(),
        Json::Object(o).round_trips(),
        k < o.len(),
        has_at(s, base, members_text(o, o.len())),
        has_at(s, base + members_text(o, o.len()).len(), seq![')']),
    ensures
        parse_members_spec(s, base + member_start(o, k), o.take(k as int)) == Ok::<
            (Seq<(Seq<char>, Json)>, int),
            ErrorKind,
        >((o, base + members_text(o, o.len()).len() + 1)),
    decreases o, o.len() - k,
{
    let n = o.len();
    let i = base + member_start(o, k);
    let end = base + members_text(o, n).len();
    let (key, v) = o[k as int];
    assert(Json::Object(o)->Object_0 == o);
    assert(seq![')'][0] == ')');
    assert(s[end + 0] == ')');
    lemma_member_at(s, base, o, k);
    lemma_has_at_split(s, i, encode_text(key), value_text(v));
    let j = i + encode_text(key).len();
    let m = j + value_text(v).len();
    lemma_value_text_shape(v);
    assert(s[j + 0] == value_text(v)[0]);
    lemma_decode_text(s, i, key, Seq::empty());
    assert(Seq::<char>::empty() + key =~= key);
    assert(decode_spec(s, i, Seq::empty()) == Ok::<(Seq<char>, int), ErrorKind>((key, j)));
    assert(m == base + members_text(o, k + 1).len());
    if k + 1 < n {
        lemma_member_at(s, base, o, k + 1);
        assert(s[m] == '~');
    } else {
        assert(m == end);
    }
    lemma_parse_value_text(s, j, v);
    let acc = o.take(k as int);
    assert(inserted(acc, key, v) =~= o.take(k + 1int)) by {
        lemma_key_index(acc, key, 0);
        match key_index(acc, key, 0) {
            Some(q) => {
                assert(keys(o)[q] == acc[q].0);
                assert(keys(o)[k as int] == key);
            },
            None => {},
        }
        assert(acc.push((key, v)) =~= o.take(k + 1int));
    }
    if k + 1 < n {
        lemma_parse_members_text(s, base, o, k + 1);
    } else {
        assert(o.take(k + 1int) =~= o);
    }
}

/// A valid value that comes back from its text does: written out and read
/// again, it is the same value.
pub proof fn lemma_round_trip(v: Json)
    requires
        v.wf(),
        v.round_trips(),
    ensures
        deserialize_spec(value_text(v)) == Ok::<Json, ErrorKind>(v),
{
    let x = value_text(v);
    assert(has_at(x, 0, x));
    lemma_parse_value_text(x, 0, v);
}

/// A number that is not finite is written as `null` is.
pub proof fn lemma_non_finite_is_null()
    ensures
        value_text(Json::Number(JsonNumber::NonFinite)) == value_text(Json::Null),
{
    assert(value_text(Json::Number(JsonNumber::NonFinite)) =~= value_text(Json::Null));
}

/// Whether two texts are the same up to the index `j`.
pub open spec fn agree(s: Seq<char>, s2: Seq<char>, j: int) -> bool {
    &&& j <= s.len()
    &&& j <= s2.len()
    &&& forall|k: int|
        #![trigger s[k]]
        #![trigger s2[k]]
        0 <= k < j ==> s[k] == s2[k]
}

/// An escaped run ends with the text, or at a `~` or `)`.
pub proof fn lemma_decode_ends(s: Seq<char>, i: int, acc: Seq<char>)
    requires
        0 <= i,
    ensures
        decode_spec(s, i, acc) matches Ok((_, j)) ==> ends_run(s, j),
    decreases s.len() - i,
{
    if !(0 <= i < s.len()) || is_terminator(s[i]) {
    } else if s[i] == '*' {
        if i + 1 >= s.len() {
        } else if s[i + 1] == '*' {
            if i + 6 <= s.len() {
                match hex4_spec(s[i + 2], s[i + 3], s[i + 4], s[i + 5]) {
                    Some(c) => lemma_decode_ends(s, i + 6, acc.push(c)),
                    None => {},
                }
            }
        } else if i + 3 <= s.len() {
            match hex2_spec(s[i + 1], s[i + 2]) {
                Some(c) => lemma_decode_ends(s, i + 3, acc.push(c)),
                None => {},
            }
        }
    } else if s[i] == '!' {
        lemma_decode_ends(s, i + 1, acc.push('$'));
    } else {
        lemma_decode_ends(s, i + 1, acc.push(s[i]));
    }
}

/// An escaped run is read the same in a text that is the same up to its end
/// and lets it end there.
pub proof fn lemma_decode_stable(s: Seq<char>, s2: Seq<char>, i: int, acc: Seq<char>)
    requires
        0 <= i,
        decode_spec(s, i, acc) is Ok,
        agree(s, s2, decode_spec(s, i, acc).unwrap().1) || decode_spec(s, i, acc).unwrap().1
            == i,
        ends_run(s2, decode_spec(s, i, acc).unwrap().1),
    ensures
        decode_spec(s2, i, acc) == decode_spec(s, i, acc),
    decreases s.len() - i,
{
    let j = decode_spec(s, i, acc).unwrap().1;
    if !(0 <= i < s.len()) || is_terminator(s[i]) {
    } else if s[i] == '*' {
        if s[i + 1] == '*' {
            let c = hex4_spec(s[i + 2], s[i + 3], s[i + 4], s[i + 5]).unwrap();
            lemma_decode_bounds(s, i + 6, acc.push(c));
            assert(s2[i] == s[i] && s2[i + 1] == s[i + 1] && s2[i + 2] == s[i + 2] && s2[i + 3]
                == s[i + 3] && s2[i + 4] == s[i + 4] && s2[i + 5] == s[i + 5]);
            lemma_decode_stable(s, s2, i + 6, acc.push(c));
        } else {
            let c = hex2_spec(s[i + 1], s[i + 2]).unwrap();
            lemma_decode_bounds(s, i + 3, acc.push(c));
            assert(s2[i] == s[i] && s2[i + 1] == s[i + 1] && s2[i + 2] == s[i + 2]);
            lemma_decode_stable(s, s2, i + 3, acc.push(c));
        }
    } else if s[i] == '!' {
        lemma_decode_bounds(s, i + 1, acc.push('$'));
        assert(s2[i] == s[i]);
        lemma_decode_stable(s, s2, i + 1, acc.push('$'));
    } else {
        lemma_decode_bounds(s, i + 1, acc.push(s[i]));
        assert(s2[i] == s[i]);
        lemma_decode_stable(s, s2, i + 1, acc.push(s[i]));
    }
}

/// A value that is no array and no object ends with the text, or at a `~` or
/// `)`; an array or an object was read by the branch for it.
pub proof fn lemma_value_ends(s: Seq<char>, i: int)
    ensures
        parse_value_spec(s, i) matches Ok((v, j)) ==> (v is Array || v is Object || ends_run(
            s,
            j,
        )),
{
    if 0 <= i < s.len() && s[i] == '~' && i + 1 < s.len() {
        if s[i + 1] == '(' {
        } else if s[i + 1] == '\'' {
            lemma_decode_ends(s, i + 2, Seq::empty());
        } else {
            lemma_run_end_bounds(s, i + 2);
        }
    }
}

/// A value is read the same in a text that is the same up to its end and,
/// where the value is no array and no object, lets a run end there.
pub proof fn lemma_parse_value_stable(s: Seq<char>, s2: Seq<char>, i: int)
    requires
        parse_value_spec(s, i) is Ok,
        agree(s, s2, parse_value_spec(s, i).unwrap().1),
        ({
            let (v, j) = parse_value_spec(s, i).unwrap();
            v is Array || v is Object || ends_run(s2, j)
        }),
    ensures
        parse_value_spec(s2, i) == parse_value_spec(s, i),
    decreases s.len() - i, 0nat,
{
    let (v, j) = parse_value_spec(s, i).unwrap();
    lemma_parse_value_bounds(s, i);
    assert(s2[i] == s[i] && s2[i + 1] == s[i + 1]);
    if s[i + 1] == '(' {
        if char_at(s, i + 2) == Some('~') {
            lemma_parse_array_bounds(s, i + 2);
            assert(s2[i + 2] == s[i + 2]);
            lemma_parse_array_stable(s, s2, i + 2);
        } else {
            lemma_parse_object_bounds(s, i + 2);
            assert(s2[i + 2] == s[i + 2]);
            lemma_parse_object_stable(s, s2, i + 2);
        }
    } else if s[i + 1] == '\'' {
        lemma_decode_stable(s, s2, i + 2, Seq::empty());
    } else {
        lemma_run_end_bounds(s, i + 2);
        assert forall|k: int| i + 2 <= k < j implies !is_terminator(#[trigger] s2[k]) by {
            assert(s2[k] == s[k]);
        }
        lemma_run_end_at(s2, i + 2, j);
        assert(s2.subrange(i + 1, j) =~= s.subrange(i + 1, j));
    }
}

/// The body of an array is read the same in a text that is the same up to
/// its end.
proof fn lemma_parse_array_stable(s: Seq<char>, s2: Seq<char>, i: int)
    requires
        0 <= i < s.len(),
        s[i] == '~',
        parse_array_spec(s, i) is Ok,
        agree(s, s2, parse_array_spec(s, i).unwrap().1),
    ensures
        parse_array_spec(s2, i) == parse_array_spec(s, i),
    decreases s.len() - i, 2nat,
{
    let j = parse_array_spec(s, i).unwrap().1;
    if char_at(s, i + 1) == Some(')') {
        assert(s2[i] == s[i] && s2[i + 1] == s[i + 1]);
    } else {
        lemma_parse_value_bounds(s, i);
        match parse_value_spec(s, i) {
            Ok((v, j1)) => {
                lemma_parse_elements_bounds(s, j1, Seq::empty().push(v));
            },
            Err(_) => {},
        }
        assert(s2[i] == s[i] && s2[i + 1] == s[i + 1]);
        lemma_parse_elements_stable(s, s2, i, Seq::empty());
    }
}

/// The elements of an array are read the same in a text that is the same up
/// to their end.
proof fn lemma_parse_elements_stable(s: Seq<char>, s2: Seq<char>, i: int, acc: Seq<Json>)
    requires
        0 <= i,
        parse_elements_spec(s, i, acc) is Ok,
        agree(s, s2, parse_elements_spec(s, i, acc).unwrap().1),
    ensures
        parse_elements_spec(s2, i, acc) == parse_elements_spec(s, i, acc),
    decreases s.len() - i, 1nat,
{
    let j = parse_elements_spec(s, i, acc).unwrap().1;
    lemma_parse_elements_bounds(s, i, acc);
    assert(s2[i] == s[i]);
    if char_at(s, i) == Some(')') {
    } else {
        let (v, j1) = parse_value_spec(s, i).unwrap();
        lemma_parse_value_bounds(s, i);
        lemma_parse_elements_bounds(s, j1, acc.push(v));
        lemma_value_ends(s, i);
        assert(s2[j1] == s[j1]);
        lemma_parse_value_stable(s, s2, i);
        lemma_parse_elements_stable(s, s2, j1, acc.push(v));
    }
}

/// The body of an object is read the same in a text that is the same up to
/// its end.
proof fn lemma_parse_object_stable(s: Seq<char>, s2: Seq<char>, i: int)
    requires
        0 <= i,
        parse_object_spec(s, i) is Ok,
        agree(s, s2, parse_object_spec(s, i).unwrap().1),
    ensures
        parse_object_spec(s2, i) == parse_object_spec(s, i),
    decreases s.len() - i, 2nat,
{
    lemma_parse_object_bounds(s, i);
    if char_at(s, i) == Some(')') {
        assert(s2[i] == s[i]);
    } else {
        lemma_parse_members_stable(s, s2, i, Seq::empty());
        if i < s.len() {
            assert(s2[i] == s[i]);
        } else {
            lemma_decode_bounds(s, i, Seq::empty());
            match decode_spec(s, i, Seq::empty()) {
                Ok((_, j0)) => {
                    lemma_parse_value_bounds(s, j0);
                },
                Err(_) => {},
            }
        }
    }
}

/// The members of an object are read the same in a text that is the same up
/// to their end.
proof fn lemma_parse_members_stable(
    s: Seq<char>,
    s2: Seq<char>,
    i: int,
    acc: Seq<(Seq<char>, Json)>,
)
    requires
        0 <= i,
        parse_members_spec(s, i, acc) is Ok,
        agree(s, s2, parse_members_spec(s, i, acc).unwrap().1),
    ensures
        parse_members_spec(s2, i, acc) == parse_members_spec(s, i, acc),
    decreases s.len() - i, 1nat,
{
    let j = parse_members_spec(s, i, acc).unwrap().1;
    lemma_parse_members_bounds(s, i, acc);
    lemma_decode_bounds(s, i, Seq::empty());
    lemma_decode_ends(s, i, Seq::empty());
    let (key, j0) = decode_spec(s, i, Seq::empty()).unwrap();
    lemma_parse_value_bounds(s, j0);
    let (v, m) = parse_value_spec(s, j0).unwrap();
    if s[m] == '~' {
        lemma_parse_members_bounds(s, m + 1, inserted(acc, key, v));
    }
    assert(s2[j0] == s[j0]);
    assert(s2[m] == s[m]);
    lemma_decode_stable(s, s2, i, Seq::empty());
    lemma_parse_value_stable(s, s2, j0);
    if s[m] == '~' {
        lemma_parse_members_stable(s, s2, m + 1, inserted(acc, key, v));
    }
}

/// The text of a value with more text after it is refused, and for the text
/// that is left over: where the value is an array or an object, or the text
/// that follows starts with a `~` or `)`. (After a string or a bare literal,
/// any other character would be read as one more of its own.)
pub proof fn lemma_trailing_input(t: Seq<char>, extra: Seq<char>)
    requires
        deserialize_spec(t) is Ok,
        extra.len() > 0,
        deserialize_spec(t).unwrap() is Array || deserialize_spec(t).unwrap() is Object
            || is_terminator(extra[0]),
    ensures
        deserialize_spec(t + extra) == Err::<Json, ErrorKind>(ErrorKind::TrailingInput),
{
    let s2 = t + extra;
    lemma_parse_value_bounds(t, 0);
    let (v, j) = parse_value_spec(t, 0).unwrap();
    assert(j == t.len());
    assert(s2[j] == extra[0]);
    assert(agree(t, s2, j));
    lemma_parse_value_stable(t, s2, 0);
}

} // verus!
