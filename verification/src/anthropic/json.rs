//! JSON values as the cache reads them, their canonical form (object
//! members sorted by key) and its compact text.

use vstd::prelude::*;

use crate::text::chars_of;
use vstd::string::StringExecFns;

verus! {

/// A JSON value. A number is held as its JSON text.
#[derive(Debug)]
pub enum Json {
    Null,
    Bool(bool),
    Number(String),
    Str(String),
    Array(Vec<Json>),
    Object(Vec<(String, Json)>),
}

/// A JSON value as a mathematical value.
pub ghost enum JsonView {
    Null,
    Bool(bool),
    Number(Seq<char>),
    Str(Seq<char>),
    Array(Seq<JsonView>),
    Object(Seq<(Seq<char>, JsonView)>),
}

/// The value of a JSON value.
pub open spec fn json_view(j: Json) -> JsonView
    decreases j,
{
    match j {
        Json::Null => JsonView::Null,
        Json::Bool(b) => JsonView::Bool(b),
        Json::Number(n) => JsonView::Number(n@),
        Json::Str(s) => JsonView::Str(s@),
        Json::Array(items) => JsonView::Array(json_views(items@)),
        Json::Object(members) => JsonView::Object(member_views(members@)),
    }
}

/// The values of a list of JSON values.
pub open spec fn json_views(items: Seq<Json>) -> Seq<JsonView>
    decreases items,
{
    if items.len() == 0 {
        seq![]
    } else {
        json_views(items.drop_last()).push(json_view(items.last()))
    }
}

/// The values of a list of object members.
pub open spec fn member_views(members: Seq<(String, Json)>) -> Seq<(Seq<char>, JsonView)>
    decreases members,
{
    if members.len() == 0 {
        seq![]
    } else {
        member_views(members.drop_last()).push((members.last().0@, json_view(members.last().1)))
    }
}

impl View for Json {
    type V = JsonView;

    open spec fn view(&self) -> JsonView {
        json_view(*self)
    }
}


/// A list's values: as many as its items, each that of its item.
pub proof fn lemma_json_views(items: Seq<Json>)
    ensures
        json_views(items).len() == items.len(),
        forall|i: int| 0 <= i < items.len() ==> #[trigger] json_views(items)[i] == json_view(items[i]),
    decreases items.len(),
{
    if items.len() > 0 {
        lemma_json_views(items.drop_last());
    }
}

/// A member list's values: as many as its members, each that of its member.
pub proof fn lemma_member_views(members: Seq<(String, Json)>)
    ensures
        member_views(members).len() == members.len(),
        forall|i: int|
            0 <= i < members.len() ==> #[trigger] member_views(members)[i] == (
                members[i].0@,
                json_view(members[i].1),
            ),
    decreases members.len(),
{
    if members.len() > 0 {
        lemma_member_views(members.drop_last());
    }
}

/// The lower-case hexadecimal digits.
pub open spec fn hex_digits() -> Seq<char> {
    seq!['0', '1', '2', '3', '4', '5', '6', '7', '8', '9', 'a', 'b', 'c', 'd', 'e', 'f']
}

/// How one character is written inside a JSON string: a quote and a
/// backslash are escaped with a backslash; backspace, tab, line feed, form
/// feed and carriage return as `\b`, `\t`, `\n`, `\f`, `\r`; any other
/// character below U+0020 as `\u00` and two lower-case hex digits; every
/// other character as itself.
pub open spec fn escaped_char(c: char) -> Seq<char> {
    if c == '"' {
        seq!['\\', '"']
    } else if c == '\\' {
        seq!['\\', '\\']
    } else if c == '\u{8}' {
        seq!['\\', 'b']
    } else if c == '\t' {
        seq!['\\', 't']
    } else if c == '\n' {
        seq!['\\', 'n']
    } else if c == '\u{c}' {
        seq!['\\', 'f']
    } else if c == '\r' {
        seq!['\\', 'r']
    } else if (c as int) < 0x20 {
        seq!['\\', 'u', '0', '0', hex_digits()[(c as int) / 16], hex_digits()[(c as int) % 16]]
    } else {
        seq![c]
    }
}

/// The characters of a string, each escaped.
pub open spec fn escaped(s: Seq<char>) -> Seq<char>
    decreases s.len(),
{
    if s.len() == 0 {
        seq![]
    } else {
        escaped(s.drop_last()) + escaped_char(s.last())
    }
}

/// The JSON text of a string: its escaped characters between quotes.
pub open spec fn json_string_text(s: Seq<char>) -> Seq<char> {
    seq!['"'] + escaped(s) + seq!['"']
}

/// Calls `serde_json::to_string` on a string, which writes a quote, each
/// character escaped by the rules of `escaped_char` (serde_json's escape
/// table), and a quote. Writing a string cannot fail, so the error branch
/// gives the empty string and is never taken.
#[verifier::external_body]
fn json_string(s: &str) -> (res: String)
    ensures
        res@ == json_string_text(s@),
{
    serde_json::to_string(s).unwrap_or_default()
}

/// The compact JSON text of a value, as `serde_json::to_string` writes it:
/// no spaces, members in the order given.
pub open spec fn json_text(v: JsonView) -> Seq<char>
    decreases v,
{
    match v {
        JsonView::Null => "null"@,
        JsonView::Bool(b) => if b {
            "true"@
        } else {
            "false"@
        },
        JsonView::Number(n) => n,
        JsonView::Str(s) => json_string_text(s),
        JsonView::Array(items) => "["@ + items_text(items) + "]"@,
        JsonView::Object(members) => "{"@ + members_text(members) + "}"@,
    }
}

/// The texts of a list's items, separated by commas.
pub open spec fn items_text(items: Seq<JsonView>) -> Seq<char>
    decreases items,
{
    if items.len() == 0 {
        seq![]
    } else if items.len() == 1 {
        json_text(items[0])
    } else {
        items_text(items.drop_last()) + ","@ + json_text(items.last())
    }
}

/// The texts of an object's members, `key:value`, separated by commas.
pub open spec fn members_text(members: Seq<(Seq<char>, JsonView)>) -> Seq<char>
    decreases members,
{
    if members.len() == 0 {
        seq![]
    } else if members.len() == 1 {
        json_string_text(members[0].0) + ":"@ + json_text(members[0].1)
    } else {
        members_text(members.drop_last()) + ","@ + json_string_text(members.last().0) + ":"@
            + json_text(members.last().1)
    }
}

/// Appends the compact JSON text of `v` to `out`.
#[verifier::loop_isolation(false)]
#[verifier::rlimit(50)]
fn write_json(v: &Json, out: &mut String)
    ensures
        final(out)@ == old(out)@ + json_text(v@),
    decreases v,
{
    match v {
        Json::Null => {
            out.append("null");
        },
        Json::Bool(b) => {
            if *b {
                out.append("true");
            } else {
                out.append("false");
            }
        },
        Json::Number(n) => {
            out.append(n.as_str());
        },
        Json::Str(s) => {
            let t = json_string(s.as_str());
            out.append(t.as_str());
        },
        Json::Array(items) => {
            out.append("[");
            let ghost start = out@;
            proof {
                lemma_json_views(items@);
            }
            let mut i: usize = 0;
            while i < items.len()
                invariant
                    *v == Json::Array(*items),
                    i <= items@.len(),
                    json_views(items@).len() == items@.len(),
                    forall|k: int| 0 <= k < items@.len() ==> #[trigger] json_views(items@)[k] == json_view(items@[k]),
                    out@ == start + items_text(json_views(items@).take(i as int)),
                decreases items@.len() - i,
            {
                let ghost before = json_views(items@).take(i as int);
                let ghost out0 = out@;
                assert(json_views(items@).take(i + 1).drop_last() =~= before);
                if i > 0 {
                    out.append(",");
                }
                proof {
                    assert(decreases_to!(*v => *items));
                    vstd::std_specs::vec::axiom_vec_index_decreases(*items, i as int);
                    assert(decreases_to!(*v => items@[i as int]));
                }
                write_json(&items[i], out);
                let ghost next = json_views(items@).take(i + 1);
                assert(next.last() == json_view(items@[i as int]));
                assert(next.len() == i + 1);
                if i == 0 {
                    assert(next[0] == json_view(items@[0]));
                    assert(items_text(next) == json_text(next[0]));
                    assert(out@ =~= out0 + json_text(next[0]));
                } else {
                    assert(items_text(next) == items_text(before) + ","@ + json_text(next.last()));
                    assert(out@ =~= out0 + ","@ + json_text(next.last()));
                }
                assert(out@ =~= start + items_text(next));
                i = i + 1;
            }
            assert(json_views(items@).take(items@.len() as int) =~= json_views(items@));
            out.append("]");
        },
        Json::Object(members) => {
            out.append("{");
            let ghost start = out@;
            proof {
                lemma_member_views(members@);
            }
            let mut i: usize = 0;
            while i < members.len()
                invariant
                    *v == Json::Object(*members),
                    i <= members@.len(),
                    member_views(members@).len() == members@.len(),
                    forall|k: int|
                        0 <= k < members@.len() ==> #[trigger] member_views(members@)[k] == (
                            members@[k].0@,
                            json_view(members@[k].1),
                        ),
                    out@ == start + members_text(member_views(members@).take(i as int)),
                decreases members@.len() - i,
            {
                let ghost before = member_views(members@).take(i as int);
                assert(member_views(members@).take(i + 1).drop_last() =~= before);
                if i > 0 {
                    out.append(",");
                }
                let key = json_string(members[i].0.as_str());
                out.append(key.as_str());
                out.append(":");
                proof {
                    assert(decreases_to!(*v => *members));
                    vstd::std_specs::vec::axiom_vec_index_decreases(*members, i as int);
                    assert(decreases_to!(members@[i as int] => members@[i as int].1));
                    assert(decreases_to!(*v => members@[i as int].1));
                }
                write_json(&members[i].1, out);
                let ghost next = member_views(members@).take(i + 1);
                assert(next.last() == (members@[i as int].0@, json_view(members@[i as int].1)));
                assert(next.len() == i + 1);
                if i == 0 {
                    assert(next[0] == (members@[0].0@, json_view(members@[0].1)));
                }
                assert(out@ =~= start + members_text(next));
                i = i + 1;
            }
            assert(member_views(members@).take(members@.len() as int) =~= member_views(members@));
            out.append("}");
        },
    }
}

/// The compact JSON text of a value.
pub fn json_to_string(v: &Json) -> (res: String)
    ensures
        res@ == json_text(v@),
{
    let mut out = String::new();
    write_json(v, &mut out);
    assert(out@ =~= json_text(v@));
    out
}


/// Whether key `a` comes before key `b`: character by character, a shorter
/// key before any longer key it begins.
pub open spec fn key_lt(a: Seq<char>, b: Seq<char>) -> bool
    decreases a.len(),
{
    if a.len() == 0 {
        b.len() > 0
    } else if b.len() == 0 {
        false
    } else if a[0] != b[0] {
        (a[0] as u32) < (b[0] as u32)
    } else {
        key_lt(a.drop_first(), b.drop_first())
    }
}

/// Whether key `a` comes before key `b`.
pub fn key_less(a: &str, b: &str) -> (res: bool)
    ensures
        res == key_lt(a@, b@),
{
    let ac = chars_of(a);
    let bc = chars_of(b);
    let mut i: usize = 0;
    assert(a@.skip(0) =~= a@);
    assert(b@.skip(0) =~= b@);
    while i < ac.len() && i < bc.len()
        invariant
            ac@ == a@,
            bc@ == b@,
            i <= ac@.len(),
            i <= bc@.len(),
            key_lt(a@, b@) == key_lt(a@.skip(i as int), b@.skip(i as int)),
        decreases ac@.len() - i,
    {
        assert(a@.skip(i as int).drop_first() =~= a@.skip(i + 1));
        assert(b@.skip(i as int).drop_first() =~= b@.skip(i + 1));
        assert(a@.skip(i as int)[0] == ac@[i as int]);
        assert(b@.skip(i as int)[0] == bc@[i as int]);
        if ac[i] != bc[i] {
            return (ac[i] as u32) < (bc[i] as u32);
        }
        i = i + 1;
    }
    i < bc.len() && i == ac.len()
}

/// Object members after adding member `m` to members in key order: it
/// replaces a member with its key, or goes before the first later key.
pub open spec fn insert_member(sorted: Seq<(Seq<char>, JsonView)>, m: (Seq<char>, JsonView)) -> Seq<
    (Seq<char>, JsonView),
>
    decreases sorted.len(),
{
    if sorted.len() == 0 {
        seq![m]
    } else if m.0 == sorted[0].0 {
        seq![m] + sorted.drop_first()
    } else if key_lt(m.0, sorted[0].0) {
        seq![m] + sorted
    } else {
        seq![sorted[0]] + insert_member(sorted.drop_first(), m)
    }
}

/// Object members put in key order, one after another; of members with the
/// same key the last one stays.
pub open spec fn sort_members(members: Seq<(Seq<char>, JsonView)>) -> Seq<(Seq<char>, JsonView)>
    decreases members.len(),
{
    if members.len() == 0 {
        seq![]
    } else {
        insert_member(sort_members(members.drop_last()), members.last())
    }
}

/// A value with every object's members in key order, at every depth.
pub open spec fn sorted_json(v: JsonView) -> JsonView
    decreases v,
{
    match v {
        JsonView::Array(items) => JsonView::Array(sorted_items(items)),
        JsonView::Object(members) => JsonView::Object(sort_members(sorted_values(members))),
        _ => v,
    }
}

/// Each item of a list, sorted.
pub open spec fn sorted_items(items: Seq<JsonView>) -> Seq<JsonView>
    decreases items,
{
    if items.len() == 0 {
        seq![]
    } else {
        sorted_items(items.drop_last()).push(sorted_json(items.last()))
    }
}

/// Each member's value, sorted; keys as they are.
pub open spec fn sorted_values(members: Seq<(Seq<char>, JsonView)>) -> Seq<(Seq<char>, JsonView)>
    decreases members,
{
    if members.len() == 0 {
        seq![]
    } else {
        sorted_values(members.drop_last()).push((members.last().0, sorted_json(members.last().1)))
    }
}

proof fn lemma_insert_member_at(sorted: Seq<(Seq<char>, JsonView)>, m: (Seq<char>, JsonView), j: int)
    requires
        0 <= j <= sorted.len(),
        forall|k: int| 0 <= k < j ==> #[trigger] sorted[k].0 != m.0 && !key_lt(m.0, sorted[k].0),
        j < sorted.len() ==> sorted[j].0 == m.0 || key_lt(m.0, sorted[j].0),
    ensures
        insert_member(sorted, m) == if j == sorted.len() {
            sorted.push(m)
        } else if sorted[j].0 == m.0 {
            sorted.take(j) + seq![m] + sorted.skip(j + 1)
        } else {
            sorted.take(j) + seq![m] + sorted.skip(j)
        },
    decreases j,
{
    if j == 0 {
        if sorted.len() == 0 {
            assert(seq![m] =~= sorted.push(m));
        } else if sorted[0].0 == m.0 {
            assert(sorted.drop_first() =~= sorted.skip(1));
            assert(sorted.take(0) + seq![m] + sorted.skip(1) =~= seq![m] + sorted.drop_first());
        } else {
            assert(sorted.take(0) + seq![m] + sorted.skip(0) =~= seq![m] + sorted);
        }
    } else {
        let rest = sorted.drop_first();
        assert forall|k: int| 0 <= k < j - 1 implies #[trigger] rest[k].0 != m.0 && !key_lt(m.0, rest[k].0) by {
            assert(rest[k] == sorted[k + 1]);
        }
        lemma_insert_member_at(rest, m, j - 1);
        assert(sorted[0].0 != m.0 && !key_lt(m.0, sorted[0].0));
        if j == sorted.len() {
            assert(seq![sorted[0]] + rest.push(m) =~= sorted.push(m));
        } else if sorted[j].0 == m.0 {
            assert(rest[j - 1] == sorted[j]);
            assert(seq![sorted[0]] + (rest.take(j - 1) + seq![m] + rest.skip(j)) =~= sorted.take(j) + seq![m]
                + sorted.skip(j + 1));
        } else {
            assert(rest[j - 1] == sorted[j]);
            assert(seq![sorted[0]] + (rest.take(j - 1) + seq![m] + rest.skip(j - 1)) =~= sorted.take(j) + seq![m]
                + sorted.skip(j));
        }
    }
}


/// Puts member `m` into `out`, whose members are in key order, as
/// `insert_member` does.
#[verifier::loop_isolation(false)]
fn insert_member_exec(out: &mut Vec<(String, Json)>, m: (String, Json))
    ensures
        member_views(final(out)@) == insert_member(member_views(old(out)@), (m.0@, m.1@)),
{
    let ghost mv = (m.0@, m.1@);
    let ghost before = member_views(out@);
    proof {
        lemma_member_views(out@);
    }
    let mut j: usize = 0;
    while j < out.len()
        invariant
            j <= out@.len(),
            out@.len() == before.len(),
            before == member_views(out@),
            forall|k: int| 0 <= k < out@.len() ==> #[trigger] before[k] == (out@[k].0@, json_view(out@[k].1)),
            forall|k: int| 0 <= k < j ==> #[trigger] before[k].0 != mv.0 && !key_lt(mv.0, before[k].0),
        decreases out@.len() - j,
    {
        if out[j].0 == m.0 || key_less(m.0.as_str(), out[j].0.as_str()) {
            break;
        }
        j = j + 1;
    }
    proof {
        lemma_insert_member_at(before, mv, j as int);
    }
    let ghost old_out = out@;
    if j < out.len() && out[j].0 == m.0 {
        out.set(j, m);
        proof {
            lemma_member_views(out@);
        }
        assert(member_views(out@) =~= before.take(j as int) + seq![mv] + before.skip(j + 1));
    } else {
        out.insert(j, m);
        proof {
            lemma_member_views(out@);
            if j as int == old_out.len() {
                assert(member_views(out@) =~= before.push(mv));
            } else {
                assert(member_views(out@) =~= before.take(j as int) + seq![mv] + before.skip(j as int));
            }
        }
    }
}

/// The value with every object's members in key order, at every depth.
#[verifier::loop_isolation(false)]
pub fn sort_json_value(v: &Json) -> (res: Json)
    ensures
        res@ == sorted_json(v@),
    decreases v,
{
    match v {
        Json::Null => Json::Null,
        Json::Bool(b) => Json::Bool(*b),
        Json::Number(n) => Json::Number(n.clone()),
        Json::Str(s) => Json::Str(s.clone()),
        Json::Array(items) => {
            let ghost iv = json_views(items@);
            proof {
                lemma_json_views(items@);
            }
            let mut out: Vec<Json> = Vec::new();
            let mut i: usize = 0;
            assert(json_views(out@) =~= sorted_items(iv.take(0)));
            while i < items.len()
                invariant
                    i <= items@.len(),
                    json_views(out@) == sorted_items(iv.take(i as int)),
                decreases items@.len() - i,
            {
                proof {
                    vstd::std_specs::vec::axiom_vec_index_decreases(*items, i as int);
                }
                let x = sort_json_value(&items[i]);
                let ghost before = out@;
                out.push(x);
                assert(out@.drop_last() =~= before);
                assert(iv.take(i + 1).drop_last() =~= iv.take(i as int));
                assert(iv.take(i + 1).last() == json_view(items@[i as int]));
                i = i + 1;
            }
            assert(iv.take(items@.len() as int) =~= iv);
            Json::Array(out)
        },
        Json::Object(members) => {
            let ghost mv = member_views(members@);
            proof {
                lemma_member_views(members@);
            }
            let mut out: Vec<(String, Json)> = Vec::new();
            let mut i: usize = 0;
            assert(member_views(out@) =~= sort_members(sorted_values(mv.take(0))));
            while i < members.len()
                invariant
                    i <= members@.len(),
                    member_views(out@) == sort_members(sorted_values(mv.take(i as int))),
                decreases members@.len() - i,
            {
                proof {
                    vstd::std_specs::vec::axiom_vec_index_decreases(*members, i as int);
                    assert(decreases_to!(members@[i as int] => members@[i as int].1));
                }
                let x = sort_json_value(&members[i].1);
                let key = members[i].0.clone();
                insert_member_exec(&mut out, (key, x));
                let ghost next = sorted_values(mv.take(i + 1));
                assert(mv.take(i + 1).drop_last() =~= mv.take(i as int));
                assert(mv.take(i + 1).last() == (members@[i as int].0@, json_view(members@[i as int].1)));
                assert(next.drop_last() =~= sorted_values(mv.take(i as int)));
                i = i + 1;
            }
            assert(mv.take(members@.len() as int) =~= mv);
            Json::Object(out)
        },
    }
}


/// A copy of a value.
#[verifier::loop_isolation(false)]
pub fn clone_json(v: &Json) -> (res: Json)
    ensures
        res@ == v@,
    decreases v,
{
    match v {
        Json::Null => Json::Null,
        Json::Bool(b) => Json::Bool(*b),
        Json::Number(n) => Json::Number(n.clone()),
        Json::Str(s) => Json::Str(s.clone()),
        Json::Array(items) => {
            let mut out: Vec<Json> = Vec::new();
            let mut i: usize = 0;
            proof {
                lemma_json_views(items@);
            }
            while i < items.len()
                invariant
                    i <= items@.len(),
                    json_views(out@) == json_views(items@).take(i as int),
                decreases items@.len() - i,
            {
                proof {
                    vstd::std_specs::vec::axiom_vec_index_decreases(*items, i as int);
                }
                let x = clone_json(&items[i]);
                let ghost before = out@;
                out.push(x);
                assert(out@.drop_last() =~= before);
                assert(json_views(items@).take(i + 1) =~= json_views(items@).take(i as int).push(
                    json_view(items@[i as int]),
                ));
                i = i + 1;
            }
            assert(json_views(items@).take(items@.len() as int) =~= json_views(items@));
            Json::Array(out)
        },
        Json::Object(members) => {
            let mut out: Vec<(String, Json)> = Vec::new();
            let mut i: usize = 0;
            proof {
                lemma_member_views(members@);
            }
            while i < members.len()
                invariant
                    i <= members@.len(),
                    member_views(out@) == member_views(members@).take(i as int),
                decreases members@.len() - i,
            {
                proof {
                    vstd::std_specs::vec::axiom_vec_index_decreases(*members, i as int);
                    assert(decreases_to!(members@[i as int] => members@[i as int].1));
                }
                let x = clone_json(&members[i].1);
                let ghost before = out@;
                out.push((members[i].0.clone(), x));
                assert(out@.drop_last() =~= before);
                assert(member_views(members@).take(i + 1) =~= member_views(members@).take(i as int).push(
                    (members@[i as int].0@, json_view(members@[i as int].1)),
                ));
                i = i + 1;
            }
            assert(member_views(members@).take(members@.len() as int) =~= member_views(members@));
            Json::Object(out)
        },
    }
}

/// The canonical text of a value: members in key order, compact.
pub fn normalize_json_value(v: &Json) -> (res: String)
    ensures
        res@ == json_text(sorted_json(v@)),
{
    let sorted = sort_json_value(v);
    json_to_string(&sorted)
}

/// Members other than those named `key`.
pub open spec fn members_without(members: Seq<(Seq<char>, JsonView)>, key: Seq<char>) -> Seq<(Seq<char>, JsonView)>
    decreases members.len(),
{
    if members.len() == 0 {
        seq![]
    } else if members.last().0 == key {
        members_without(members.drop_last(), key)
    } else {
        members_without(members.drop_last(), key).push(members.last())
    }
}

/// A value without its member `key`, where it is an object.
pub open spec fn without_member(v: JsonView, key: Seq<char>) -> JsonView {
    match v {
        JsonView::Object(members) => JsonView::Object(members_without(members, key)),
        _ => v,
    }
}

/// A copy of a value without its member `key`, where it is an object.
pub fn remove_member(v: &Json, key: &str) -> (res: Json)
    ensures
        res@ == without_member(v@, key@),
{
    match v {
        Json::Object(members) => {
            let mut out: Vec<(String, Json)> = Vec::new();
            let ghost mv = member_views(members@);
            proof {
                lemma_member_views(members@);
            }
            let mut i: usize = 0;
            assert(member_views(out@) =~= members_without(mv.take(0), key@));
            while i < members.len()
                invariant
                    i <= members@.len(),
                    mv == member_views(members@),
                    mv.len() == members@.len(),
                    forall|k: int| 0 <= k < members@.len() ==> #[trigger] mv[k] == (members@[k].0@, json_view(members@[k].1)),
                    member_views(out@) == members_without(mv.take(i as int), key@),
                decreases members@.len() - i,
            {
                assert(mv.take(i + 1).drop_last() =~= mv.take(i as int));
                assert(mv.take(i + 1).last() == mv[i as int]);
                if !crate::text::str_eq(members[i].0.as_str(), key) {
                    let x = clone_json(&members[i].1);
                    let ghost before = out@;
                    out.push((members[i].0.clone(), x));
                    assert(out@.drop_last() =~= before);
                }
                i = i + 1;
            }
            assert(mv.take(members@.len() as int) =~= mv);
            Json::Object(out)
        },
        _ => clone_json(v),
    }
}

/// The text that stands for a content block in the hash: its canonical text
/// without its `cache_control` member.
pub fn normalize_block_for_hash(block: &Json) -> (res: String)
    ensures
        res@ == json_text(sorted_json(without_member(block@, "cache_control"@))),
{
    let without = remove_member(block, "cache_control");
    normalize_json_value(&without)
}

/// The object that stands for a tool: its name, description, input schema
/// and, where it has one, its type.
pub open spec fn tool_object(
    name: Seq<char>,
    description: Seq<char>,
    input_schema: JsonView,
    tool_type: Option<Seq<char>>,
) -> JsonView {
    let base = seq![
        ("name"@, JsonView::Str(name)),
        ("description"@, JsonView::Str(description)),
        ("input_schema"@, input_schema),
    ];
    JsonView::Object(
        match tool_type {
            Some(t) => base.push(("type"@, JsonView::Str(t))),
            None => base,
        },
    )
}

/// The canonical text that stands for a tool in the hash.
pub fn normalize_tool(name: &str, description: &str, input_schema: &Json, tool_type: Option<&str>) -> (res: String)
    ensures
        res@ == json_text(
            sorted_json(
                tool_object(
                    name@,
                    description@,
                    input_schema@,
                    match tool_type {
                        Some(t) => Some(t@),
                        None => None,
                    },
                ),
            ),
        ),
{
    let mut members: Vec<(String, Json)> = Vec::new();
    members.push(("name".to_owned(), Json::Str(name.to_owned())));
    members.push(("description".to_owned(), Json::Str(description.to_owned())));
    members.push(("input_schema".to_owned(), clone_json(input_schema)));
    if let Some(t) = tool_type {
        members.push(("type".to_owned(), Json::Str(t.to_owned())));
    }
    let object = Json::Object(members);
    proof {
        lemma_member_views(members@);
    }
    assert(member_views(members@) =~= match tool_object(name@, description@, input_schema@, match tool_type {
        Some(t) => Some(t@),
        None => None,
    }) {
        JsonView::Object(m) => m,
        _ => seq![],
    });
    normalize_json_value(&object)
}


/// The number of values in a value, itself included.
pub open spec fn json_size(v: JsonView) -> nat
    decreases v,
{
    match v {
        JsonView::Array(items) => 1 + items_size(items),
        JsonView::Object(members) => 1 + members_size(members),
        _ => 1,
    }
}

/// The sizes of a list's items, summed.
pub open spec fn items_size(items: Seq<JsonView>) -> nat
    decreases items,
{
    if items.len() == 0 {
        0
    } else {
        items_size(items.drop_last()) + json_size(items.last())
    }
}

/// The sizes of an object's member values, summed.
pub open spec fn members_size(members: Seq<(Seq<char>, JsonView)>) -> nat
    decreases members,
{
    if members.len() == 0 {
        0
    } else {
        members_size(members.drop_last()) + json_size(members.last().1)
    }
}

pub proof fn lemma_json_size_pos(v: JsonView)
    ensures
        json_size(v) >= 1,
{
}

pub proof fn lemma_items_size(items: Seq<JsonView>, i: int)
    requires
        0 <= i < items.len(),
    ensures
        json_size(items[i]) <= items_size(items),
    decreases items.len(),
{
    if i < items.len() - 1 {
        lemma_items_size(items.drop_last(), i);
    }
}

pub proof fn lemma_members_size(members: Seq<(Seq<char>, JsonView)>, i: int)
    requires
        0 <= i < members.len(),
    ensures
        json_size(members[i].1) <= members_size(members),
    decreases members.len(),
{
    if i < members.len() - 1 {
        lemma_members_size(members.drop_last(), i);
    }
}

/// The value of the first member named `key`, from index `i` on.
pub open spec fn find_member(members: Seq<(Seq<char>, JsonView)>, key: Seq<char>, i: int) -> Option<JsonView>
    decreases members.len() - i,
{
    if i < 0 || i >= members.len() {
        None
    } else if members[i].0 == key {
        Some(members[i].1)
    } else {
        find_member(members, key, i + 1)
    }
}

/// The value of member `key` of an object; nothing for other values.
pub open spec fn get_member(v: JsonView, key: Seq<char>) -> Option<JsonView> {
    match v {
        JsonView::Object(members) => find_member(members, key, 0),
        _ => None,
    }
}

pub proof fn lemma_find_member_size(members: Seq<(Seq<char>, JsonView)>, key: Seq<char>, i: int)
    ensures
        find_member(members, key, i) matches Some(x) ==> json_size(x) <= members_size(members),
    decreases members.len() - i,
{
    if 0 <= i < members.len() {
        if members[i].0 == key {
            lemma_members_size(members, i);
        } else {
            lemma_find_member_size(members, key, i + 1);
        }
    }
}

pub proof fn lemma_get_member_size(v: JsonView, key: Seq<char>)
    ensures
        get_member(v, key) matches Some(x) ==> json_size(x) < json_size(v),
{
    if let JsonView::Object(members) = v {
        lemma_find_member_size(members, key, 0);
    }
}

/// The string a value holds, where it is a string.
pub open spec fn string_of(v: Option<JsonView>) -> Option<Seq<char>> {
    match v {
        Some(JsonView::Str(s)) => Some(s),
        _ => None,
    }
}

/// The texts whose token counts, summed, give a content block's tokens: for
/// a `text` block its text; for a `tool_result` block those of its content;
/// for a `tool_use` block the canonical text of its input; for any other
/// value its canonical text.
pub open spec fn block_texts(b: JsonView) -> Seq<Seq<char>>
    decreases json_size(b), 0nat,
{
    let t = string_of(get_member(b, "type"@));
    if t == Some("text"@) {
        match string_of(get_member(b, "text"@)) {
            Some(x) => seq![x],
            None => seq![],
        }
    } else if t == Some("tool_result"@) {
        match get_member(b, "content"@) {
            Some(c) => {
                proof {
                    lemma_get_member_size(b, "content"@);
                }
                content_texts(c)
            },
            None => seq![],
        }
    } else if t == Some("tool_use"@) {
        match get_member(b, "input"@) {
            Some(i) => seq![json_text(sorted_json(i))],
            None => seq![],
        }
    } else {
        seq![json_text(sorted_json(b))]
    }
}

/// The texts whose token counts, summed, give a tool result's content
/// tokens: a string itself, those of each block of an array, or the
/// canonical text of any other value.
pub open spec fn content_texts(c: JsonView) -> Seq<Seq<char>>
    decreases json_size(c), 1nat,
{
    match c {
        JsonView::Str(x) => seq![x],
        JsonView::Array(items) => items_texts(items),
        _ => seq![json_text(sorted_json(c))],
    }
}

/// The texts of each block of a list, in order.
pub open spec fn items_texts(items: Seq<JsonView>) -> Seq<Seq<char>>
    decreases items_size(items), 2nat,
{
    if items.len() == 0 {
        seq![]
    } else {
        proof {
            lemma_items_size(items, items.len() - 1);
            lemma_json_size_pos(items.last());
        }
        items_texts(items.drop_last()) + block_texts(items.last())
    }
}


/// The characters of each string.
pub open spec fn texts_view(texts: Seq<String>) -> Seq<Seq<char>> {
    texts.map_values(|t: String| t@)
}

/// The value of member `key` of an object; nothing for other values.
pub fn get_member_exec<'a>(v: &'a Json, key: &str) -> (res: Option<&'a Json>)
    ensures
        match get_member(v@, key@) {
            Some(x) => res matches Some(r) && r@ == x,
            None => res is None,
        },
{
    match v {
        Json::Object(members) => {
            let ghost mv = member_views(members@);
            proof {
                lemma_member_views(members@);
            }
            let mut i: usize = 0;
            while i < members.len()
                invariant
                    *v == Json::Object(*members),
                    i <= members@.len(),
                    mv == member_views(members@),
                    mv.len() == members@.len(),
                    forall|k: int| 0 <= k < members@.len() ==> #[trigger] mv[k] == (members@[k].0@, json_view(members@[k].1)),
                    find_member(mv, key@, 0) == find_member(mv, key@, i as int),
                decreases members@.len() - i,
            {
                if crate::text::str_eq(members[i].0.as_str(), key) {
                    return Some(&members[i].1);
                }
                i = i + 1;
            }
            None
        },
        _ => None,
    }
}

/// The texts whose token counts, summed, give a content block's tokens.
pub fn block_token_texts(b: &Json) -> (res: Vec<String>)
    ensures
        texts_view(res@) == block_texts(b@),
    decreases json_size(b@), 0nat,
{
    let t = match get_member_exec(b, "type") {
        Some(Json::Str(t)) => Some(t.as_str()),
        _ => None,
    };
    let is_type = |w: &str| -> (r: bool)
        ensures
            r == (t matches Some(x) && x@ == w@),
        {
            match t {
                Some(x) => crate::text::str_eq(x, w),
                None => false,
            }
        };
    let mut out: Vec<String> = Vec::new();
    if is_type("text") {
        if let Some(Json::Str(x)) = get_member_exec(b, "text") {
            out.push(x.clone());
            assert(texts_view(out@) =~= seq![x@]);
        } else {
            assert(texts_view(out@) =~= Seq::<Seq<char>>::empty());
        }
    } else if is_type("tool_result") {
        match get_member_exec(b, "content") {
            Some(c) => {
                proof {
                    lemma_get_member_size(b@, "content"@);
                }
                out = content_token_texts(c);
            },
            None => {
                assert(texts_view(out@) =~= Seq::<Seq<char>>::empty());
            },
        }
    } else if is_type("tool_use") {
        match get_member_exec(b, "input") {
            Some(i) => {
                out.push(normalize_json_value(i));
                assert(texts_view(out@) =~= seq![json_text(sorted_json(i@))]);
            },
            None => {
                assert(texts_view(out@) =~= Seq::<Seq<char>>::empty());
            },
        }
    } else {
        out.push(normalize_json_value(b));
        assert(texts_view(out@) =~= seq![json_text(sorted_json(b@))]);
    }
    out
}

/// The texts whose token counts, summed, give a tool result's content tokens.
#[verifier::loop_isolation(false)]
pub fn content_token_texts(c: &Json) -> (res: Vec<String>)
    ensures
        texts_view(res@) == content_texts(c@),
    decreases json_size(c@), 1nat,
{
    match c {
        Json::Str(x) => {
            let mut out: Vec<String> = Vec::new();
            out.push(x.clone());
            assert(texts_view(out@) =~= seq![x@]);
            out
        },
        Json::Array(items) => {
            let ghost iv = json_views(items@);
            proof {
                lemma_json_views(items@);
            }
            let mut out: Vec<String> = Vec::new();
            let mut i: usize = 0;
            assert(texts_view(out@) =~= items_texts(iv.take(0)));
            while i < items.len()
                invariant
                    i <= items@.len(),
                    texts_view(out@) == items_texts(iv.take(i as int)),
                decreases items@.len() - i,
            {
                proof {
                    lemma_items_size(iv, i as int);
                }
                let mut more = block_token_texts(&items[i]);
                let ghost before = out@;
                let ghost added = more@;
                out.append(&mut more);
                assert(texts_view(out@) =~= texts_view(before) + texts_view(added));
                assert(iv.take(i + 1).drop_last() =~= iv.take(i as int));
                assert(iv.take(i + 1).last() == json_view(items@[i as int]));
                i = i + 1;
            }
            assert(iv.take(items@.len() as int) =~= iv);
            out
        },
        _ => {
            let mut out: Vec<String> = Vec::new();
            out.push(normalize_json_value(c));
            assert(texts_view(out@) =~= seq![json_text(sorted_json(c@))]);
            out
        },
    }
}


proof fn lemma_key_lt_irreflexive(a: Seq<char>)
    ensures
        !key_lt(a, a),
    decreases a.len(),
{
    if a.len() > 0 {
        lemma_key_lt_irreflexive(a.drop_first());
    }
}

proof fn lemma_key_lt_transitive(a: Seq<char>, b: Seq<char>, c: Seq<char>)
    requires
        key_lt(a, b),
        key_lt(b, c),
    ensures
        key_lt(a, c),
    decreases a.len(),
{
    if a.len() > 0 && b.len() > 0 && c.len() > 0 && a[0] == b[0] && b[0] == c[0] {
        lemma_key_lt_transitive(a.drop_first(), b.drop_first(), c.drop_first());
    }
}

proof fn lemma_key_lt_total(a: Seq<char>, b: Seq<char>)
    requires
        a != b,
    ensures
        key_lt(a, b) || key_lt(b, a),
    decreases a.len(),
{
    if a.len() > 0 && b.len() > 0 && a[0] == b[0] {
        if a.drop_first() == b.drop_first() {
            assert(a =~= seq![a[0]] + a.drop_first());
            assert(b =~= seq![b[0]] + b.drop_first());
        }
        lemma_key_lt_total(a.drop_first(), b.drop_first());
    } else if a.len() == 0 && b.len() == 0 {
        assert(a =~= b);
    } else if a.len() > 0 && b.len() > 0 {
        assert(a[0] != b[0]);
        lemma_char_codes_differ(a[0], b[0]);
    }
}

proof fn lemma_char_codes_differ(x: char, y: char)
    requires
        x != y,
    ensures
        (x as u32) != (y as u32),
{
}

/// Members in strictly increasing key order.
pub open spec fn keys_sorted(members: Seq<(Seq<char>, JsonView)>) -> bool {
    forall|i: int, j: int| 0 <= i < j < members.len() ==> key_lt(#[trigger] members[i].0, #[trigger] members[j].0)
}

/// No two members share a key.
pub open spec fn keys_distinct(members: Seq<(Seq<char>, JsonView)>) -> bool {
    forall|i: int, j: int| 0 <= i < j < members.len() ==> #[trigger] members[i].0 != #[trigger] members[j].0
}

proof fn lemma_insert_member_sorted(sorted: Seq<(Seq<char>, JsonView)>, m: (Seq<char>, JsonView))
    requires
        keys_sorted(sorted),
        forall|i: int| 0 <= i < sorted.len() ==> #[trigger] sorted[i].0 != m.0,
    ensures
        keys_sorted(insert_member(sorted, m)),
        insert_member(sorted, m).len() == sorted.len() + 1,
        forall|x| #[trigger] insert_member(sorted, m).contains(x) <==> sorted.contains(x) || x == m,
    decreases sorted.len(),
{
    let r = insert_member(sorted, m);
    if sorted.len() == 0 {
        assert(r =~= seq![m]);
        assert forall|x| #[trigger] r.contains(x) <==> sorted.contains(x) || x == m by {
            if r.contains(x) {
                assert(r[0] == m);
            }
            if x == m {
                assert(r[0] == x);
            }
        }
    } else if key_lt(m.0, sorted[0].0) {
        assert(sorted[0].0 != m.0);
        assert(r =~= seq![m] + sorted);
        assert forall|i: int, j: int| 0 <= i < j < r.len() implies key_lt(#[trigger] r[i].0, #[trigger] r[j].0) by {
            if i == 0 {
                if j > 1 {
                    lemma_key_lt_transitive(m.0, sorted[0].0, sorted[j - 1].0);
                }
            } else {
                assert(r[i] == sorted[i - 1] && r[j] == sorted[j - 1]);
            }
        }
        assert forall|x| #[trigger] r.contains(x) <==> sorted.contains(x) || x == m by {
            if r.contains(x) {
                let k = choose|k: int| 0 <= k < r.len() && r[k] == x;
                if k > 0 {
                    assert(sorted[k - 1] == x);
                }
            }
            if sorted.contains(x) {
                let k = choose|k: int| 0 <= k < sorted.len() && sorted[k] == x;
                assert(r[k + 1] == x);
            }
            if x == m {
                assert(r[0] == x);
            }
        }
    } else {
        let rest = sorted.drop_first();
        assert(sorted[0].0 != m.0);
        assert forall|i: int, j: int| 0 <= i < j < rest.len() implies key_lt(#[trigger] rest[i].0, #[trigger] rest[j].0) by {
            assert(rest[i] == sorted[i + 1] && rest[j] == sorted[j + 1]);
        }
        assert forall|i: int| 0 <= i < rest.len() implies #[trigger] rest[i].0 != m.0 by {
            assert(rest[i] == sorted[i + 1]);
        }
        lemma_insert_member_sorted(rest, m);
        let t = insert_member(rest, m);
        assert(r =~= seq![sorted[0]] + t);
        lemma_key_lt_total(m.0, sorted[0].0);
        assert forall|k: int| 0 <= k < t.len() implies key_lt(sorted[0].0, #[trigger] t[k].0) by {
            assert(t.contains(t[k]));
            if t[k] != m {
                assert(rest.contains(t[k]));
                let q = choose|q: int| 0 <= q < rest.len() && rest[q] == t[k];
                assert(sorted[q + 1] == t[k]);
            }
        }
        assert forall|i: int, j: int| 0 <= i < j < r.len() implies key_lt(#[trigger] r[i].0, #[trigger] r[j].0) by {
            if i == 0 {
                assert(r[j] == t[j - 1]);
            } else {
                assert(r[i] == t[i - 1] && r[j] == t[j - 1]);
            }
        }
        assert forall|x| #[trigger] r.contains(x) <==> sorted.contains(x) || x == m by {
            if r.contains(x) {
                let k = choose|k: int| 0 <= k < r.len() && r[k] == x;
                if k > 0 {
                    assert(t.contains(t[k - 1]));
                    if x != m {
                        let q = choose|q: int| 0 <= q < rest.len() && rest[q] == x;
                        assert(sorted[q + 1] == x);
                    }
                } else {
                    assert(sorted[0] == x);
                }
            }
            if sorted.contains(x) {
                let k = choose|k: int| 0 <= k < sorted.len() && sorted[k] == x;
                if k == 0 {
                    assert(r[0] == x);
                } else {
                    assert(rest[k - 1] == x);
                    assert(rest.contains(x));
                    assert(t.contains(x));
                    let q = choose|q: int| 0 <= q < t.len() && t[q] == x;
                    assert(r[q + 1] == x);
                }
            }
            if x == m {
                assert(t.contains(m));
                let q = choose|q: int| 0 <= q < t.len() && t[q] == m;
                assert(r[q + 1] == m);
            }
        }
    }
}


proof fn lemma_sort_members_sorted(members: Seq<(Seq<char>, JsonView)>)
    requires
        keys_distinct(members),
    ensures
        keys_sorted(sort_members(members)),
        sort_members(members).len() == members.len(),
        forall|x| #[trigger] sort_members(members).contains(x) <==> members.contains(x),
    decreases members.len(),
{
    if members.len() > 0 {
        let init = members.drop_last();
        assert forall|i: int, j: int| 0 <= i < j < init.len() implies #[trigger] init[i].0 != #[trigger] init[j].0 by {
            assert(init[i] == members[i] && init[j] == members[j]);
        }
        lemma_sort_members_sorted(init);
        let r = sort_members(init);
        assert forall|i: int| 0 <= i < r.len() implies #[trigger] r[i].0 != members.last().0 by {
            assert(r.contains(r[i]));
            let k = choose|k: int| 0 <= k < init.len() && init[k] == r[i];
            assert(members[k] == r[i]);
        }
        lemma_insert_member_sorted(r, members.last());
        assert forall|x| #[trigger] sort_members(members).contains(x) <==> members.contains(x) by {
            if members.contains(x) {
                let k = choose|k: int| 0 <= k < members.len() && members[k] == x;
                if k < members.len() - 1 {
                    assert(init[k] == x);
                    assert(init.contains(x));
                }
            }
            if init.contains(x) {
                let k = choose|k: int| 0 <= k < init.len() && init[k] == x;
                assert(members[k] == x);
            }
        }
    }
}

proof fn lemma_sorted_unique(r1: Seq<(Seq<char>, JsonView)>, r2: Seq<(Seq<char>, JsonView)>)
    requires
        keys_sorted(r1),
        keys_sorted(r2),
        forall|x| #[trigger] r1.contains(x) <==> r2.contains(x),
    ensures
        r1 == r2,
    decreases r1.len(),
{
    if r1.len() == 0 && r2.len() > 0 {
        assert(r2.contains(r2[0]));
        assert(r1.contains(r2[0]));
    }
    if r1.len() > 0 {
        assert(r1.contains(r1[0]));
        assert(r2.contains(r2[0]));
        assert(r1.contains(r2[0]));
        assert(r2.contains(r1[0]));
        let p = choose|p: int| 0 <= p < r2.len() && r2[p] == r1[0];
        let q = choose|q: int| 0 <= q < r1.len() && r1[q] == r2[0];
        if p > 0 && q > 0 {
            assert(key_lt(r1[0].0, r1[q].0));
            assert(key_lt(r2[0].0, r2[p].0));
            lemma_key_lt_transitive(r1[0].0, r2[0].0, r1[0].0);
            lemma_key_lt_irreflexive(r1[0].0);
        }
        assert(r1[0] == r2[0]);
        let t1 = r1.drop_first();
        let t2 = r2.drop_first();
        assert forall|i: int, j: int| 0 <= i < j < t1.len() implies key_lt(#[trigger] t1[i].0, #[trigger] t1[j].0) by {
            assert(t1[i] == r1[i + 1] && t1[j] == r1[j + 1]);
        }
        assert forall|i: int, j: int| 0 <= i < j < t2.len() implies key_lt(#[trigger] t2[i].0, #[trigger] t2[j].0) by {
            assert(t2[i] == r2[i + 1] && t2[j] == r2[j + 1]);
        }
        assert forall|x| #[trigger] t1.contains(x) <==> t2.contains(x) by {
            if t1.contains(x) {
                let k = choose|k: int| 0 <= k < t1.len() && t1[k] == x;
                assert(r1[k + 1] == x);
                assert(r1.contains(x));
                let k2 = choose|k2: int| 0 <= k2 < r2.len() && r2[k2] == x;
                if k2 == 0 {
                    lemma_key_lt_irreflexive(x.0);
                    assert(key_lt(r1[0].0, r1[k + 1].0));
                }
                assert(t2[k2 - 1] == x);
            }
            if t2.contains(x) {
                let k = choose|k: int| 0 <= k < t2.len() && t2[k] == x;
                assert(r2[k + 1] == x);
                assert(r2.contains(x));
                assert(r1.contains(x));
                let k1 = choose|k1: int| 0 <= k1 < r1.len() && r1[k1] == x;
                if k1 == 0 {
                    lemma_key_lt_irreflexive(x.0);
                    assert(key_lt(r2[0].0, r2[k + 1].0));
                }
                assert(t1[k1 - 1] == x);
            }
        }
        lemma_sorted_unique(t1, t2);
        assert(r1 =~= seq![r1[0]] + t1);
        assert(r2 =~= seq![r2[0]] + t2);
    }
}

/// The order of an object's members does not matter: two member lists
/// with distinct keys that hold the same members, in any order, are put in
/// the same key order.
pub proof fn law_member_order_does_not_matter(m1: Seq<(Seq<char>, JsonView)>, m2: Seq<(Seq<char>, JsonView)>)
    requires
        keys_distinct(m1),
        keys_distinct(m2),
        forall|x| #[trigger] m1.contains(x) <==> m2.contains(x),
    ensures
        sort_members(m1) == sort_members(m2),
{
    lemma_sort_members_sorted(m1);
    lemma_sort_members_sorted(m2);
    lemma_sorted_unique(sort_members(m1), sort_members(m2));
}


proof fn lemma_sorted_values_index(members: Seq<(Seq<char>, JsonView)>)
    ensures
        sorted_values(members).len() == members.len(),
        forall|i: int| 0 <= i < members.len() ==> #[trigger] sorted_values(members)[i] == (
        members[i].0, sorted_json(members[i].1)),
    decreases members.len(),
{
    if members.len() > 0 {
        let init = members.drop_last();
        lemma_sorted_values_index(init);
        assert forall|i: int| 0 <= i < members.len() implies #[trigger] sorted_values(members)[i] == (
        members[i].0, sorted_json(members[i].1)) by {
            if i < init.len() {
                assert(init[i] == members[i]);
            }
        }
    }
}

/// Canonical text does not depend on the order of an object's members:
/// two objects with distinct keys that hold the same members, in any
/// order, are written as the same text once sorted.
pub proof fn law_object_key_order_does_not_matter(m1: Seq<(Seq<char>, JsonView)>, m2: Seq<(Seq<char>, JsonView)>)
    requires
        keys_distinct(m1),
        keys_distinct(m2),
        forall|x| #[trigger] m1.contains(x) <==> m2.contains(x),
    ensures
        sorted_json(JsonView::Object(m1)) == sorted_json(JsonView::Object(m2)),
        json_text(sorted_json(JsonView::Object(m1))) == json_text(sorted_json(JsonView::Object(m2))),
{
    let s1 = sorted_values(m1);
    let s2 = sorted_values(m2);
    lemma_sorted_values_index(m1);
    lemma_sorted_values_index(m2);
    assert forall|i: int, j: int| 0 <= i < j < s1.len() implies #[trigger] s1[i].0 != #[trigger] s1[j].0 by {
        assert(m1[i].0 != m1[j].0);
    }
    assert forall|i: int, j: int| 0 <= i < j < s2.len() implies #[trigger] s2[i].0 != #[trigger] s2[j].0 by {
        assert(m2[i].0 != m2[j].0);
    }
    assert forall|x| #[trigger] s1.contains(x) <==> s2.contains(x) by {
        if s1.contains(x) {
            let k = choose|k: int| 0 <= k < s1.len() && s1[k] == x;
            assert(m1.contains(m1[k]));
            assert(m2.contains(m1[k]));
            let q = choose|q: int| 0 <= q < m2.len() && m2[q] == m1[k];
            assert(s2[q] == x);
        }
        if s2.contains(x) {
            let k = choose|k: int| 0 <= k < s2.len() && s2[k] == x;
            assert(m2.contains(m2[k]));
            assert(m1.contains(m2[k]));
            let q = choose|q: int| 0 <= q < m1.len() && m1[q] == m2[k];
            assert(s1[q] == x);
        }
    }
    law_member_order_does_not_matter(s1, s2);
}

proof fn lemma_members_without(members: Seq<(Seq<char>, JsonView)>, key: Seq<char>)
    requires
        keys_distinct(members),
    ensures
        keys_distinct(members_without(members, key)),
        forall|x| #[trigger] members_without(members, key).contains(x) <==> members.contains(x) && x.0 != key,
    decreases members.len(),
{
    if members.len() > 0 {
        let init = members.drop_last();
        assert forall|i: int, j: int| 0 <= i < j < init.len() implies #[trigger] init[i].0 != #[trigger] init[j].0 by {
            assert(init[i] == members[i] && init[j] == members[j]);
        }
        lemma_members_without(init, key);
        let w = members_without(init, key);
        let l = members.last();
        assert forall|x| #[trigger] init.contains(x) implies x.0 != l.0 by {
            let k = choose|k: int| 0 <= k < init.len() && init[k] == x;
            assert(members[k] == x);
        }
        assert forall|x| #[trigger] members.contains(x) <==> init.contains(x) || x == l by {
            if members.contains(x) {
                let k = choose|k: int| 0 <= k < members.len() && members[k] == x;
                if k < init.len() {
                    assert(init[k] == x);
                }
            }
            if init.contains(x) {
                let k = choose|k: int| 0 <= k < init.len() && init[k] == x;
                assert(members[k] == x);
            }
            if x == l {
                assert(members[members.len() - 1] == x);
            }
        }
        if l.0 != key {
            let r = w.push(l);
            assert forall|i: int, j: int| 0 <= i < j < r.len() implies #[trigger] r[i].0 != #[trigger] r[j].0 by {
                if j == r.len() - 1 {
                    assert(w.contains(w[i]));
                    assert(init.contains(w[i]));
                } else {
                    assert(r[i] == w[i] && r[j] == w[j]);
                }
            }
            assert forall|x| #[trigger] r.contains(x) <==> w.contains(x) || x == l by {
                if r.contains(x) {
                    let k = choose|k: int| 0 <= k < r.len() && r[k] == x;
                    if k < w.len() {
                        assert(w[k] == x);
                    }
                }
                if w.contains(x) {
                    let k = choose|k: int| 0 <= k < w.len() && w[k] == x;
                    assert(r[k] == x);
                }
                if x == l {
                    assert(r[r.len() - 1] == x);
                }
            }
        }
    }
}

/// The text that stands for a content block in the hash does not depend on
/// the order of the block's members: two blocks with distinct keys that hold
/// the same members, in any order, hash the same text.
pub proof fn law_block_text_ignores_member_order(m1: Seq<(Seq<char>, JsonView)>, m2: Seq<(Seq<char>, JsonView)>)
    requires
        keys_distinct(m1),
        keys_distinct(m2),
        forall|x| #[trigger] m1.contains(x) <==> m2.contains(x),
    ensures
        json_text(sorted_json(without_member(JsonView::Object(m1), "cache_control"@))) == json_text(
            sorted_json(without_member(JsonView::Object(m2), "cache_control"@)),
        ),
{
    let key = "cache_control"@;
    lemma_members_without(m1, key);
    lemma_members_without(m2, key);
    let w1 = members_without(m1, key);
    let w2 = members_without(m2, key);
    assert forall|x| #[trigger] w1.contains(x) <==> w2.contains(x) by {
        if w1.contains(x) {
            assert(m1.contains(x));
        }
        if w2.contains(x) {
            assert(m2.contains(x));
        }
    }
    law_object_key_order_does_not_matter(w1, w2);
}

proof fn lemma_key_lt_asymmetric(a: Seq<char>, b: Seq<char>)
    requires
        key_lt(a, b),
    ensures
        !key_lt(b, a),
        a != b,
{
    lemma_key_lt_irreflexive(a);
    if key_lt(b, a) {
        lemma_key_lt_transitive(a, b, a);
    }
}

proof fn lemma_insert_member_keeps_order(sorted: Seq<(Seq<char>, JsonView)>, m: (Seq<char>, JsonView))
    requires
        keys_sorted(sorted),
    ensures
        keys_sorted(insert_member(sorted, m)),
        forall|x| #[trigger] insert_member(sorted, m).contains(x) ==> sorted.contains(x) || x == m,
    decreases sorted.len(),
{
    let r = insert_member(sorted, m);
    if sorted.len() == 0 {
        assert forall|x| #[trigger] r.contains(x) implies sorted.contains(x) || x == m by {
            assert(r =~= seq![m]);
        }
    } else if m.0 == sorted[0].0 {
        let rest = sorted.drop_first();
        assert(r =~= seq![m] + rest);
        assert forall|i: int, j: int| 0 <= i < j < r.len() implies key_lt(#[trigger] r[i].0, #[trigger] r[j].0) by {
            assert(r[j] == sorted[j]);
            if i > 0 {
                assert(r[i] == sorted[i]);
            }
        }
        assert forall|x| #[trigger] r.contains(x) implies sorted.contains(x) || x == m by {
            let k = choose|k: int| 0 <= k < r.len() && r[k] == x;
            if k > 0 {
                assert(sorted[k] == x);
            }
        }
    } else if key_lt(m.0, sorted[0].0) {
        assert(r =~= seq![m] + sorted);
        assert forall|i: int, j: int| 0 <= i < j < r.len() implies key_lt(#[trigger] r[i].0, #[trigger] r[j].0) by {
            assert(r[j] == sorted[j - 1]);
            if i > 0 {
                assert(r[i] == sorted[i - 1]);
            } else if j - 1 > 0 {
                lemma_key_lt_transitive(m.0, sorted[0].0, sorted[j - 1].0);
            }
        }
        assert forall|x| #[trigger] r.contains(x) implies sorted.contains(x) || x == m by {
            let k = choose|k: int| 0 <= k < r.len() && r[k] == x;
            if k > 0 {
                assert(sorted[k - 1] == x);
            }
        }
    } else {
        let rest = sorted.drop_first();
        assert forall|i: int, j: int| 0 <= i < j < rest.len() implies key_lt(#[trigger] rest[i].0, #[trigger] rest[j].0) by {
            assert(rest[i] == sorted[i + 1] && rest[j] == sorted[j + 1]);
        }
        lemma_insert_member_keeps_order(rest, m);
        let t = insert_member(rest, m);
        assert(r =~= seq![sorted[0]] + t);
        lemma_key_lt_total(m.0, sorted[0].0);
        assert forall|x| #[trigger] t.contains(x) implies key_lt(sorted[0].0, x.0) by {
            if rest.contains(x) {
                let k = choose|k: int| 0 <= k < rest.len() && rest[k] == x;
                assert(rest[k] == sorted[k + 1]);
            }
        }
        assert forall|i: int, j: int| 0 <= i < j < r.len() implies key_lt(#[trigger] r[i].0, #[trigger] r[j].0) by {
            assert(r[j] == t[j - 1]);
            if i > 0 {
                assert(r[i] == t[i - 1]);
            } else {
                assert(t.contains(t[j - 1]));
            }
        }
        assert forall|x| #[trigger] r.contains(x) implies sorted.contains(x) || x == m by {
            let k = choose|k: int| 0 <= k < r.len() && r[k] == x;
            if k > 0 {
                assert(t[k - 1] == x);
                assert(t.contains(x));
                if rest.contains(x) {
                    let q = choose|q: int| 0 <= q < rest.len() && rest[q] == x;
                    assert(sorted[q + 1] == x);
                }
            } else {
                assert(sorted[0] == x);
            }
        }
    }
}

proof fn lemma_sort_members_keeps_order(members: Seq<(Seq<char>, JsonView)>)
    ensures
        keys_sorted(sort_members(members)),
        forall|x| #[trigger] sort_members(members).contains(x) ==> members.contains(x),
    decreases members.len(),
{
    if members.len() > 0 {
        let init = members.drop_last();
        lemma_sort_members_keeps_order(init);
        let r = sort_members(init);
        lemma_insert_member_keeps_order(r, members.last());
        assert forall|x| #[trigger] sort_members(members).contains(x) implies members.contains(x) by {
            if r.contains(x) {
                assert(init.contains(x));
                let k = choose|k: int| 0 <= k < init.len() && init[k] == x;
                assert(members[k] == x);
            } else {
                assert(members[members.len() - 1] == x);
            }
        }
    }
}

proof fn lemma_insert_member_after_all(init: Seq<(Seq<char>, JsonView)>, m: (Seq<char>, JsonView))
    requires
        forall|i: int| 0 <= i < init.len() ==> key_lt(#[trigger] init[i].0, m.0),
    ensures
        insert_member(init, m) == init.push(m),
    decreases init.len(),
{
    if init.len() > 0 {
        let rest = init.drop_first();
        lemma_key_lt_asymmetric(init[0].0, m.0);
        assert forall|i: int| 0 <= i < rest.len() implies key_lt(#[trigger] rest[i].0, m.0) by {
            assert(rest[i] == init[i + 1]);
        }
        lemma_insert_member_after_all(rest, m);
        assert(seq![init[0]] + rest.push(m) =~= init.push(m));
    }
}

proof fn lemma_sort_members_of_sorted(members: Seq<(Seq<char>, JsonView)>)
    requires
        keys_sorted(members),
    ensures
        sort_members(members) == members,
    decreases members.len(),
{
    if members.len() > 0 {
        let init = members.drop_last();
        assert forall|i: int, j: int| 0 <= i < j < init.len() implies key_lt(#[trigger] init[i].0, #[trigger] init[j].0) by {
            assert(init[i] == members[i] && init[j] == members[j]);
        }
        lemma_sort_members_of_sorted(init);
        assert forall|i: int| 0 <= i < init.len() implies key_lt(#[trigger] init[i].0, members.last().0) by {
            assert(init[i] == members[i]);
        }
        lemma_insert_member_after_all(init, members.last());
        assert(init.push(members.last()) =~= members);
    }
}

proof fn lemma_sorted_items_index(items: Seq<JsonView>)
    ensures
        sorted_items(items).len() == items.len(),
        forall|i: int| 0 <= i < items.len() ==> #[trigger] sorted_items(items)[i] == sorted_json(items[i]),
    decreases items.len(),
{
    if items.len() > 0 {
        let init = items.drop_last();
        lemma_sorted_items_index(init);
        assert forall|i: int| 0 <= i < items.len() implies #[trigger] sorted_items(items)[i] == sorted_json(items[i]) by {
            if i < init.len() {
                assert(init[i] == items[i]);
            }
        }
    }
}

/// Whether every object in a value, at every depth, has its members in
/// strictly increasing key order.
pub open spec fn sorted_deep(v: JsonView) -> bool
    decreases v,
{
    match v {
        JsonView::Array(items) => items_sorted_deep(items),
        JsonView::Object(members) => keys_sorted(members) && values_sorted_deep(members),
        _ => true,
    }
}

/// Whether every item of a list is sorted at every depth.
pub open spec fn items_sorted_deep(items: Seq<JsonView>) -> bool
    decreases items,
{
    if items.len() == 0 {
        true
    } else {
        items_sorted_deep(items.drop_last()) && sorted_deep(items.last())
    }
}

/// Whether every member value is sorted at every depth.
pub open spec fn values_sorted_deep(members: Seq<(Seq<char>, JsonView)>) -> bool
    decreases members,
{
    if members.len() == 0 {
        true
    } else {
        values_sorted_deep(members.drop_last()) && sorted_deep(members.last().1)
    }
}

proof fn lemma_items_sorted_deep(items: Seq<JsonView>)
    ensures
        items_sorted_deep(items) <==> forall|i: int| 0 <= i < items.len() ==> #[trigger] sorted_deep(items[i]),
    decreases items.len(),
{
    if items.len() > 0 {
        let init = items.drop_last();
        lemma_items_sorted_deep(init);
        if forall|i: int| 0 <= i < items.len() ==> #[trigger] sorted_deep(items[i]) {
            assert forall|i: int| 0 <= i < init.len() implies #[trigger] sorted_deep(init[i]) by {
                assert(init[i] == items[i]);
            }
            assert(sorted_deep(items[items.len() - 1]));
        }
        if items_sorted_deep(items) {
            assert forall|i: int| 0 <= i < items.len() implies #[trigger] sorted_deep(items[i]) by {
                if i < init.len() {
                    assert(init[i] == items[i]);
                }
            }
        }
    }
}

proof fn lemma_values_sorted_deep(members: Seq<(Seq<char>, JsonView)>)
    ensures
        values_sorted_deep(members) <==> forall|i: int| 0 <= i < members.len() ==> #[trigger] sorted_deep(members[i].1),
    decreases members.len(),
{
    if members.len() > 0 {
        let init = members.drop_last();
        lemma_values_sorted_deep(init);
        if forall|i: int| 0 <= i < members.len() ==> #[trigger] sorted_deep(members[i].1) {
            assert forall|i: int| 0 <= i < init.len() implies #[trigger] sorted_deep(init[i].1) by {
                assert(init[i] == members[i]);
            }
            assert(sorted_deep(members[members.len() - 1].1));
        }
        if values_sorted_deep(members) {
            assert forall|i: int| 0 <= i < members.len() implies #[trigger] sorted_deep(members[i].1) by {
                if i < init.len() {
                    assert(init[i] == members[i]);
                }
            }
        }
    }
}

/// Sorting puts every object's members in strictly increasing key order,
/// at every depth.
pub proof fn law_sorted_json_is_sorted(v: JsonView)
    ensures
        sorted_deep(sorted_json(v)),
    decreases json_size(v),
{
    match v {
        JsonView::Array(items) => {
            let r = sorted_items(items);
            lemma_sorted_items_index(items);
            assert forall|i: int| 0 <= i < r.len() implies #[trigger] sorted_deep(r[i]) by {
                lemma_items_size(items, i);
                law_sorted_json_is_sorted(items[i]);
            }
            lemma_items_sorted_deep(r);
        },
        JsonView::Object(members) => {
            let sv = sorted_values(members);
            let r = sort_members(sv);
            lemma_sorted_values_index(members);
            lemma_sort_members_keeps_order(sv);
            assert forall|i: int| 0 <= i < r.len() implies #[trigger] sorted_deep(r[i].1) by {
                assert(r.contains(r[i]));
                assert(sv.contains(r[i]));
                let k = choose|k: int| 0 <= k < sv.len() && sv[k] == r[i];
                lemma_members_size(members, k);
                law_sorted_json_is_sorted(members[k].1);
            }
            lemma_values_sorted_deep(r);
        },
        _ => {},
    }
}

proof fn lemma_sorted_deep_is_fixed(w: JsonView)
    requires
        sorted_deep(w),
    ensures
        sorted_json(w) == w,
    decreases json_size(w),
{
    match w {
        JsonView::Array(items) => {
            lemma_sorted_items_index(items);
            lemma_items_sorted_deep(items);
            assert forall|i: int| 0 <= i < items.len() implies #[trigger] sorted_items(items)[i] == items[i] by {
                lemma_items_size(items, i);
                lemma_sorted_deep_is_fixed(items[i]);
            }
            assert(sorted_items(items) =~= items);
        },
        JsonView::Object(members) => {
            lemma_sorted_values_index(members);
            lemma_values_sorted_deep(members);
            assert forall|i: int| 0 <= i < members.len() implies #[trigger] sorted_values(members)[i] == members[i] by {
                lemma_members_size(members, i);
                lemma_sorted_deep_is_fixed(members[i].1);
            }
            assert(sorted_values(members) =~= members);
            lemma_sort_members_of_sorted(members);
        },
        _ => {},
    }
}

/// Sorting a sorted value changes nothing.
pub proof fn law_sorting_twice(v: JsonView)
    ensures
        sorted_json(sorted_json(v)) == sorted_json(v),
{
    law_sorted_json_is_sorted(v);
    lemma_sorted_deep_is_fixed(sorted_json(v));
}

/// Key order does not matter at any depth, for lists: two lists whose items
/// pair up, in order, with the same sorted form have the same sorted form.
pub proof fn law_array_order_of_keys_within(x: Seq<JsonView>, y: Seq<JsonView>)
    requires
        x.len() == y.len(),
        forall|i: int| 0 <= i < x.len() ==> sorted_json(#[trigger] x[i]) == sorted_json(y[i]),
    ensures
        sorted_json(JsonView::Array(x)) == sorted_json(JsonView::Array(y)),
{
    lemma_sorted_items_index(x);
    lemma_sorted_items_index(y);
    assert(sorted_items(x) =~= sorted_items(y));
}

/// Key order does not matter at any depth, for objects: two objects with
/// distinct keys whose members pair up key for key, in any order, with
/// values of the same sorted form (their own keys in any order, at any
/// depth) have the same sorted form, and so the same canonical text.
pub proof fn law_object_order_of_keys_at_any_depth(m1: Seq<(Seq<char>, JsonView)>, m2: Seq<(Seq<char>, JsonView)>)
    requires
        keys_distinct(m1),
        keys_distinct(m2),
        forall|i: int|
            0 <= i < m1.len() ==> exists|j: int|
                0 <= j < m2.len() && m2[j].0 == #[trigger] m1[i].0 && sorted_json(m2[j].1) == sorted_json(m1[i].1),
        forall|j: int|
            0 <= j < m2.len() ==> exists|i: int|
                0 <= i < m1.len() && m1[i].0 == #[trigger] m2[j].0 && sorted_json(m1[i].1) == sorted_json(m2[j].1),
    ensures
        sorted_json(JsonView::Object(m1)) == sorted_json(JsonView::Object(m2)),
        json_text(sorted_json(JsonView::Object(m1))) == json_text(sorted_json(JsonView::Object(m2))),
{
    let s1 = sorted_values(m1);
    let s2 = sorted_values(m2);
    lemma_sorted_values_index(m1);
    lemma_sorted_values_index(m2);
    assert forall|i: int, j: int| 0 <= i < j < s1.len() implies #[trigger] s1[i].0 != #[trigger] s1[j].0 by {
        assert(m1[i].0 != m1[j].0);
    }
    assert forall|i: int, j: int| 0 <= i < j < s2.len() implies #[trigger] s2[i].0 != #[trigger] s2[j].0 by {
        assert(m2[i].0 != m2[j].0);
    }
    assert forall|x| #[trigger] s1.contains(x) <==> s2.contains(x) by {
        if s1.contains(x) {
            let k = choose|k: int| 0 <= k < s1.len() && s1[k] == x;
            let q = choose|q: int|
                0 <= q < m2.len() && m2[q].0 == #[trigger] m1[k].0 && sorted_json(m2[q].1) == sorted_json(m1[k].1);
            assert(s2[q] == x);
        }
        if s2.contains(x) {
            let k = choose|k: int| 0 <= k < s2.len() && s2[k] == x;
            let q = choose|q: int|
                0 <= q < m1.len() && m1[q].0 == #[trigger] m2[k].0 && sorted_json(m1[q].1) == sorted_json(m2[k].1);
            assert(s1[q] == x);
        }
    }
    law_member_order_does_not_matter(s1, s2);
}

} // verus!
