//! The stable JSON text of a value: the keys of each object in
//! `localeCompare` order, so that a value gives the same text whatever
//! order its keys were written in. Schema fingerprints hash this text.
use crate::sorting::{lemma_sorted_contains, sort_by_key, sorted_by_key, Keyed};
use crate::text::push_char;
use vstd::prelude::*;
use vstd::string::StringExecFns;

verus! {

broadcast use vstd::string::group_string_axioms;

/// A JSON value, each number already printed as JavaScript prints it.
pub enum JsonTree {
    Null,
    Bool(bool),
    Number(String),
    Str(String),
    Array(Vec<JsonTree>),
    /// The members in the order they were written.
    Object(Vec<(String, JsonTree)>),
}

/// A lowercase hex digit.
pub open spec fn hex_digit(n: int) -> char {
    seq!['0', '1', '2', '3', '4', '5', '6', '7', '8', '9', 'a', 'b', 'c', 'd', 'e', 'f'][n]
}

/// How a char stands inside a JSON string: `"` and `\` behind a backslash,
/// the control chars below U+0020 as `\b`, `\t`, `\n`, `\f`, `\r` or
/// `\u00xx`, every other char as it is.
pub open spec fn char_escape(c: char) -> Seq<char> {
    if c == '"' {
        seq!['\\', '"']
    } else if c == '\\' {
        seq!['\\', '\\']
    } else if c == '\u{8}' {
        seq!['\\', 'b']
    } else if c == '\t' {
        seq!['\\', 't']
    } else if c == '\n' {
        seq!['\\', 'n']
    } else if c == '\u{c}' {
        seq!['\\', 'f']
    } else if c == '\r' {
        seq!['\\', 'r']
    } else if (c as u32) < 0x20 {
        seq!['\\', 'u', '0', '0', hex_digit((c as int) / 16), hex_digit((c as int) % 16)]
    } else {
        seq![c]
    }
}

/// Each char of `s` as it stands inside a JSON string.
pub open spec fn escaped(s: Seq<char>) -> Seq<char>
    decreases s.len(),
{
    if s.len() == 0 {
        Seq::empty()
    } else {
        escaped(s.drop_last()) + char_escape(s.last())
    }
}

/// `s` as a JSON string literal.
pub open spec fn json_quoted(s: Seq<char>) -> Seq<char> {
    seq!['"'] + escaped(s) + seq!['"']
}

/// Calls `serde_json::to_string` on a string: the JSON string literal, in
/// double quotes, with `"` and `\` behind a backslash and the chars below
/// U+0020 escaped (`\b`, `\t`, `\n`, `\f`, `\r`, else `\u00xx` in lowercase
/// hex). Writing into memory cannot fail, so the call gives `Ok`.
#[verifier::external_body]
fn json_quote(s: &str) -> (r: String)
    ensures
        r@ == json_quoted(s@),
{
    serde_json::to_string(s).unwrap_or_default()
}

/// The texts joined by commas.
pub open spec fn joined(parts: Seq<Seq<char>>) -> Seq<char>
    decreases parts.len(),
{
    if parts.len() == 0 {
        Seq::empty()
    } else if parts.len() == 1 {
        parts[0]
    } else {
        joined(parts.drop_last()) + seq![','] + parts.last()
    }
}

/// The stable text of a value: `null`, `true`, `false`, a number as printed,
/// a string as a JSON literal, an array's items in order and an object's
/// `"key":value` members in `localeCompare` order of their keys (stably),
/// joined by commas, without spaces.
pub open spec fn canonical(v: JsonTree) -> Seq<char>
    decreases v,
{
    match v {
        JsonTree::Null => "null"@,
        JsonTree::Bool(b) => if b {
            "true"@
        } else {
            "false"@
        },
        JsonTree::Number(t) => t@,
        JsonTree::Str(s) => json_quoted(s@),
        JsonTree::Array(items) => seq!['['] + joined(item_texts(items@)) + seq![']'],
        JsonTree::Object(members) => seq!['{'] + joined(
            in_key_order(member_texts(members@), key_order(members@)),
        ) + seq!['}'],
    }
}

/// The stable text of each item.
pub open spec fn item_texts(s: Seq<JsonTree>) -> Seq<Seq<char>>
    decreases s,
{
    if s.len() == 0 {
        Seq::empty()
    } else {
        item_texts(s.subrange(0, s.len() - 1)).push(canonical(s[s.len() - 1]))
    }
}

/// Each member as `"key":value`, in the order written.
pub open spec fn member_texts(s: Seq<(String, JsonTree)>) -> Seq<Seq<char>>
    decreases s,
{
    if s.len() == 0 {
        Seq::empty()
    } else {
        member_texts(s.subrange(0, s.len() - 1)).push(
            json_quoted(s[s.len() - 1].0@) + seq![':'] + canonical(s[s.len() - 1].1),
        )
    }
}

proof fn lemma_member_texts_len(s: Seq<(String, JsonTree)>)
    ensures
        member_texts(s).len() == s.len(),
    decreases s.len(),
{
    if s.len() > 0 {
        lemma_member_texts_len(s.subrange(0, s.len() - 1));
    }
}

impl Keyed for (String, usize) {
    open spec fn key_view(&self) -> Seq<char> {
        self.0@
    }

    fn key(&self) -> (r: &str) {
        self.0.as_str()
    }
}

/// Each member's key with its position.
pub open spec fn keyed_positions(s: Seq<(String, JsonTree)>) -> Seq<(String, usize)> {
    Seq::new(s.len(), |i: int| (s[i].0, i as usize))
}

/// The members' positions, stably sorted by key in `localeCompare` order.
pub open spec fn key_order(s: Seq<(String, JsonTree)>) -> Seq<(String, usize)> {
    sorted_by_key(keyed_positions(s))
}

/// The texts taken in the given order of positions.
pub open spec fn in_key_order(texts: Seq<Seq<char>>, order: Seq<(String, usize)>) -> Seq<Seq<char>> {
    Seq::new(order.len(), |j: int| texts[order[j].1 as int])
}

/// The views of some strings.
pub open spec fn views(v: Seq<String>) -> Seq<Seq<char>> {
    v.map_values(|s: String| s@)
}

fn text_of(s: &str) -> (r: String)
    ensures
        r@ == s@,
{
    let mut r = String::new();
    r.append(s);
    r
}

/// The strings joined by commas.
fn join_commas(parts: &Vec<String>) -> (r: String)
    ensures
        r@ == joined(views(parts@)),
{
    let mut r = String::new();
    let mut i: usize = 0;
    proof {
        assert(views(parts@.take(0)) =~= Seq::<Seq<char>>::empty());
    }
    while i < parts.len()
        invariant
            i <= parts@.len(),
            r@ == joined(views(parts@.take(i as int))),
        decreases parts@.len() - i,
    {
        if i > 0 {
            push_char(&mut r, ',');
        }
        r.append(parts[i].as_str());
        proof {
            let t = views(parts@.take(i + 1));
            assert(t.drop_last() =~= views(parts@.take(i as int)));
            assert(t.last() == parts@[i as int]@);
            if i == 0 {
                assert(t.len() == 1);
            }
            assert(r@ =~= joined(t));
        }
        i += 1;
    }
    proof {
        assert(parts@.take(i as int) =~= parts@);
    }
    r
}

/// `open`, the strings joined by commas, then `close`.
fn enclosed(open: char, parts: &Vec<String>, close: char) -> (r: String)
    ensures
        r@ == seq![open] + joined(views(parts@)) + seq![close],
{
    let mut r = String::new();
    push_char(&mut r, open);
    let inner = join_commas(parts);
    r.append(inner.as_str());
    push_char(&mut r, close);
    r
}

/// The stable text of each item of an array.
fn items_text(v: &JsonTree, items: &Vec<JsonTree>) -> (r: Vec<String>)
    requires
        *v == JsonTree::Array(*items),
    ensures
        views(r@) == item_texts(items@),
    decreases v, 0nat,
{
    let mut parts: Vec<String> = Vec::new();
    let mut i: usize = 0;
    proof {
        assert(items@.take(0) =~= Seq::<JsonTree>::empty());
        assert(views(parts@) =~= Seq::<Seq<char>>::empty());
    }
    while i < items.len()
        invariant
            *v == JsonTree::Array(*items),
            i <= items@.len(),
            views(parts@) == item_texts(items@.take(i as int)),
        decreases items@.len() - i,
    {
        proof {
            assert(decreases_to!(*v => (*v)->Array_0));
            assert(decreases_to!(*items => items@));
            assert(decreases_to!(items@ => items@[i as int]));
        }
        let t = stable_stringify(&items[i]);
        parts.push(t);
        proof {
            let s = items@.take(i + 1);
            assert(s.subrange(0, s.len() - 1) =~= items@.take(i as int));
            assert(s[s.len() - 1] == items@[i as int]);
            assert(views(parts@) =~= item_texts(s));
        }
        i += 1;
    }
    proof {
        assert(items@.take(i as int) =~= items@);
    }
    parts
}

/// Each member of an object as `"key":value`, in the order written.
fn members_text(v: &JsonTree, members: &Vec<(String, JsonTree)>) -> (r: Vec<String>)
    requires
        *v == JsonTree::Object(*members),
    ensures
        views(r@) == member_texts(members@),
    decreases v, 0nat,
{
    let mut parts: Vec<String> = Vec::new();
    let mut i: usize = 0;
    proof {
        assert(members@.take(0) =~= Seq::<(String, JsonTree)>::empty());
        assert(views(parts@) =~= Seq::<Seq<char>>::empty());
    }
    while i < members.len()
        invariant
            *v == JsonTree::Object(*members),
            i <= members@.len(),
            views(parts@) == member_texts(members@.take(i as int)),
        decreases members@.len() - i,
    {
        proof {
            assert(decreases_to!(*v => (*v)->Object_0));
            assert(decreases_to!(*members => members@));
            assert(decreases_to!(members@ => members@[i as int]));
            assert(decreases_to!(members@[i as int] => members@[i as int].1));
        }
        let mut t = json_quote(members[i].0.as_str());
        push_char(&mut t, ':');
        let value = stable_stringify(&members[i].1);
        t.append(value.as_str());
        let ghost entry = t@;
        parts.push(t);
        proof {
            assert(entry == json_quoted(members@[i as int].0@) + seq![':'] + canonical(members@[i as int].1));
            assert(parts@.last()@ == entry);
            let s = members@.take(i + 1);
            assert(s.subrange(0, s.len() - 1) =~= members@.take(i as int));
            assert(s[s.len() - 1] == members@[i as int]);
            assert(views(parts@) =~= member_texts(s));
        }
        i += 1;
    }
    proof {
        assert(members@.take(i as int) =~= members@);
    }
    parts
}

/// The members' positions, sorted by key.
fn sorted_positions(members: &Vec<(String, JsonTree)>) -> (r: Vec<(String, usize)>)
    ensures
        r@ == key_order(members@),
        forall|j: int| 0 <= j < r@.len() ==> (#[trigger] r@[j]).1 < members@.len(),
{
    let mut keyed: Vec<(String, usize)> = Vec::new();
    let mut i: usize = 0;
    while i < members.len()
        invariant
            i <= members@.len(),
            keyed@ =~= keyed_positions(members@).take(i as int),
        decreases members@.len() - i,
    {
        keyed.push((members[i].0.clone(), i));
        i += 1;
    }
    proof {
        assert(keyed_positions(members@).take(i as int) =~= keyed_positions(members@));
    }
    let r = sort_by_key(keyed);
    proof {
        let k = keyed_positions(members@);
        assert forall|j: int| 0 <= j < r@.len() implies (#[trigger] r@[j]).1 < members@.len() by {
            lemma_sorted_contains(k, r@[j]);
            assert(sorted_by_key(k).contains(r@[j]));
            let m = choose|m: int| 0 <= m < k.len() && k[m] == r@[j];
            assert(k[m].1 == m as usize);
        }
    }
    r
}

/// The stable JSON text of a value.
pub fn stable_stringify(v: &JsonTree) -> (r: String)
    ensures
        r@ == canonical(*v),
    decreases v, 1nat,
{
    proof {
        reveal_strlit("null");
        reveal_strlit("true");
        reveal_strlit("false");
    }
    match v {
        JsonTree::Null => text_of("null"),
        JsonTree::Bool(b) => if *b {
            text_of("true")
        } else {
            text_of("false")
        },
        JsonTree::Number(t) => t.clone(),
        JsonTree::Str(s) => json_quote(s.as_str()),
        JsonTree::Array(items) => {
            let parts = items_text(v, items);
            enclosed('[', &parts, ']')
        },
        JsonTree::Object(members) => {
            let texts = members_text(v, members);
            let order = sorted_positions(members);
            proof {
                lemma_member_texts_len(members@);
            }
            let mut picked: Vec<String> = Vec::new();
            let mut j: usize = 0;
            while j < order.len()
                invariant
                    j <= order@.len(),
                    views(texts@) == member_texts(members@),
                    texts@.len() == members@.len(),
                    forall|k: int| 0 <= k < order@.len() ==> (#[trigger] order@[k]).1 < members@.len(),
                    picked@.len() == j,
                    forall|k: int|
                        0 <= k < j ==> (#[trigger] picked@[k])@ == texts@[order@[k].1 as int]@,
                decreases order@.len() - j,
            {
                let at = order[j].1;
                picked.push(texts[at].clone());
                j += 1;
            }
            proof {
                let want = in_key_order(member_texts(members@), key_order(members@));
                assert forall|k: int| 0 <= k < want.len() implies views(picked@)[k] == want[k] by {
                    assert(views(texts@)[order@[k].1 as int] == texts@[order@[k].1 as int]@);
                }
                assert(views(picked@) =~= want);
            }
            enclosed('{', &picked, '}')
        },
    }
}

} // verus!
