//! `String(value)` as JavaScript prints the JSON values a query returns,
//! one level of a value at a time: numbers that are not safe integers come
//! already printed, since printing them needs the floating-point value.
use crate::conn_dialog::int_text;
use crate::model::decimal_string;
use crate::text::push_char;
use vstd::prelude::*;
use vstd::string::StringExecFns;

verus! {

broadcast use vstd::string::group_string_axioms;

/// One level of a JSON value, as far as printing it needs: an array's items
/// come printed, `None` for a `null` item.
pub enum JsonText {
    Null,
    Bool(bool),
    /// An integer, with how JavaScript prints it as a double.
    Int { value: i128, as_double: String },
    /// A number that is not an integer, printed.
    Float(String),
    Str(String),
    Array(Vec<Option<String>>),
    Object,
}

/// The largest integer a double holds exactly, with all below it: 2^53.
pub open spec fn safe_integer_limit() -> int {
    0x20_0000_0000_0000
}

/// The items of an array printed and joined by commas, a `null` item empty.
pub open spec fn joined_items(items: Seq<Option<String>>) -> Seq<char>
    decreases items.len(),
{
    if items.len() == 0 {
        Seq::empty()
    } else {
        let last = match items.last() {
            Some(s) => s@,
            None => Seq::empty(),
        };
        if items.len() == 1 {
            last
        } else {
            joined_items(items.drop_last()) + seq![','] + last
        }
    }
}

/// `String(value)`: `null`, `true`/`false`, an integer of at most 2^53 in
/// size in decimal (else as the double prints), a string as it is, an array's
/// items joined by commas, and `[object Object]`.
pub open spec fn value_text(v: JsonText) -> Seq<char> {
    match v {
        JsonText::Null => "null"@,
        JsonText::Bool(b) => if b {
            "true"@
        } else {
            "false"@
        },
        JsonText::Int { value, as_double } => if -safe_integer_limit() <= value <= safe_integer_limit() {
            int_text(value as int)
        } else {
            as_double@
        },
        JsonText::Float(s) => s@,
        JsonText::Str(s) => s@,
        JsonText::Array(items) => joined_items(items@),
        JsonText::Object => "[object Object]"@,
    }
}

fn text_of(s: &str) -> (r: String)
    ensures
        r@ == s@,
{
    let mut r = String::new();
    r.append(s);
    r
}

/// An integer in decimal.
fn integer_text(v: i128) -> (r: String)
    ensures
        r@ == int_text(v as int),
{
    if v < 0 {
        let mut s = String::new();
        push_char(&mut s, '-');
        let m: u128 = if v == i128::MIN {
            0x8000_0000_0000_0000_0000_0000_0000_0000
        } else {
            (-v) as u128
        };
        let digits = decimal_string(m);
        s.append(digits.as_str());
        s
    } else {
        decimal_string(v as u128)
    }
}

/// `String(value)` for one level of a JSON value.
pub fn value_to_string(value: &JsonText) -> (r: String)
    ensures
        r@ == value_text(*value),
{
    proof {
        reveal_strlit("null");
        reveal_strlit("true");
        reveal_strlit("false");
        reveal_strlit("[object Object]");
    }
    match value {
        JsonText::Null => text_of("null"),
        JsonText::Bool(b) => if *b {
            text_of("true")
        } else {
            text_of("false")
        },
        JsonText::Int { value, as_double } => {
            if -0x20_0000_0000_0000i128 <= *value && *value <= 0x20_0000_0000_0000i128 {
                integer_text(*value)
            } else {
                as_double.clone()
            }
        },
        JsonText::Float(s) => s.clone(),
        JsonText::Str(s) => s.clone(),
        JsonText::Array(items) => {
            let mut r = String::new();
            let mut i: usize = 0;
            proof {
                assert(items@.take(0) =~= Seq::<Option<String>>::empty());
            }
            while i < items.len()
                invariant
                    i <= items@.len(),
                    r@ == joined_items(items@.take(i as int)),
                decreases items@.len() - i,
            {
                if i > 0 {
                    push_char(&mut r, ',');
                }
                match &items[i] {
                    Some(s) => r.append(s.as_str()),
                    None => {},
                }
                proof {
                    let t = items@.take(i + 1);
                    assert(t.drop_last() =~= items@.take(i as int));
                    assert(t.last() == items@[i as int]);
                    if i == 0 {
                        assert(items@.take(0) =~= Seq::<Option<String>>::empty());
                    }
                    assert(r@ =~= joined_items(t));
                }
                i += 1;
            }
            proof {
                assert(items@.take(i as int) =~= items@);
            }
            r
        },
        JsonText::Object => text_of("[object Object]"),
    }
}

/// The text a result cell shows: nothing for `null`, so that the grid can
/// style it, else `String(value)`.
pub fn cell_text(value: &JsonText) -> (r: Option<String>)
    ensures
        match *value {
            JsonText::Null => r is None,
            _ => r matches Some(s) && s@ == value_text(*value),
        },
{
    match value {
        JsonText::Null => None,
        _ => Some(value_to_string(value)),
    }
}

} // verus!
