use vstd::prelude::*;
use crate::escape::{encode_string, encode_text};
use crate::number::{number_text, push_number};
use crate::value::{elements_view, members_view, Json, Value};

verus! {

/// The text of a value. Every value starts with `~`.
///
/// - `null`, `true`, `false` and numbers are written bare;
/// - a string is written after a `'`, escaped, with nothing to close it;
/// - an array is its elements between `(` and `)`, and `(~)` where it is empty;
/// - an object is its members between `(` and `)`, with a `~` between one
///   member and the next; a member is its key, escaped, and then its value.
pub open spec fn value_text(v: Json) -> Seq<char>
    decreases v, 0nat,
{
    match v {
        Json::Null => seq!['~', 'n', 'u', 'l', 'l'],
        Json::Bool(b) => if b {
            seq!['~', 't', 'r', 'u', 'e']
        } else {
            seq!['~', 'f', 'a', 'l', 's', 'e']
        },
        Json::Number(n) => seq!['~'] + number_text(n),
        Json::String(s) => seq!['~', '\''] + encode_text(s),
        Json::Array(a) => if a.len() == 0 {
            seq!['~', '(', '~', ')']
        } else {
            seq!['~', '('] + elements_text(a, a.len()) + seq![')']
        },
        Json::Object(o) => seq!['~', '('] + members_text(o, o.len()) + seq![')'],
    }
}

/// The text of the first `n` elements of an array: one value after the other.
pub open spec fn elements_text(a: Seq<Json>, n: nat) -> Seq<char>
    decreases a, n,
{
    if n == 0 || n > a.len() {
        Seq::empty()
    } else {
        elements_text(a, (n - 1) as nat) + value_text(a[n - 1])
    }
}

/// The text of one member of an object: the key and then the value.
pub open spec fn member_text(m: (Seq<char>, Json)) -> Seq<char>
    decreases m, 1nat,
{
    encode_text(m.0) + value_text(m.1)
}

/// The text of the first `n` members of an object, with a `~` before each but
/// the first.
pub open spec fn members_text(o: Seq<(Seq<char>, Json)>, n: nat) -> Seq<char>
    decreases o, n,
{
    if n == 0 || n > o.len() {
        Seq::empty()
    } else if n == 1 {
        member_text(o[0])
    } else {
        members_text(o, (n - 1) as nat) + seq!['~'] + member_text(o[n - 1])
    }
}

/// Appends the text of `obj` to `output`.
#[verifier::loop_isolation(false)]
pub fn serialize_helper(obj: &Value, output: &mut String)
    ensures
        final(output)@ == old(output)@ + value_text(obj@),
    decreases obj,
{
    let ghost before = output@;
    match obj {
        Value::Null => {
            output.push('~');
            output.push('n');
            output.push('u');
            output.push('l');
            output.push('l');
        },
        Value::Bool(b) => {
            output.push('~');
            if *b {
                output.push('t');
                output.push('r');
                output.push('u');
                output.push('e');
            } else {
                output.push('f');
                output.push('a');
                output.push('l');
                output.push('s');
                output.push('e');
            }
        },
        Value::Number(n) => {
            output.push('~');
            push_number(n, output);
        },
        Value::String(s) => {
            output.push('~');
            output.push('\'');
            encode_string(s.as_str(), output);
        },
        Value::Array(a) => {
            output.push('~');
            output.push('(');
            if a.len() == 0 {
                output.push('~');
            } else {
                let ghost elements = elements_view(a);
                let mut i: usize = 0;
                while i < a.len()
                    invariant
                        i <= a.len(),
                        elements == elements_view(a),
                        output@ == before + seq!['~', '('] + elements_text(elements, i as nat),
                    decreases a.len() - i,
                {
                    serialize_helper(&a[i], output);
                    i = i + 1;
                }
            }
            output.push(')');
        },
        Value::Object(o) => {
            output.push('~');
            output.push('(');
            let ghost members = members_view(o);
            let mut i: usize = 0;
            while i < o.len()
                invariant
                    i <= o.len(),
                    members == members_view(o),
                    output@ == before + seq!['~', '('] + members_text(members, i as nat),
                decreases o.len() - i,
            {
                if i > 0 {
                    output.push('~');
                }
                encode_string(o[i].0.as_str(), output);
                serialize_helper(&o[i].1, output);
                proof {
                    let m = members[i as int];
                    assert(m == (o[i as int].0@, o[i as int].1@));
                    assert(member_text(m) == encode_text(m.0) + value_text(m.1));
                    assert(members_text(members, (i + 1) as nat) == if i == 0 {
                        member_text(m)
                    } else {
                        members_text(members, i as nat) + seq!['~'] + member_text(m)
                    });
                    assert(members_text(members, 0) =~= Seq::<char>::empty());
                }
                i = i + 1;
                assert(output@ =~= before + seq!['~', '('] + members_text(members, i as nat));
            }
            output.push(')');
        },
    }
    assert(output@ =~= before + value_text(obj@));
}

/// The text of `obj`.
pub fn serialize(obj: &Value) -> (text: String)
    ensures
        text@ == value_text(obj@),
{
    let mut result = String::new();
    serialize_helper(obj, &mut result);
    result
}

} // verus!
