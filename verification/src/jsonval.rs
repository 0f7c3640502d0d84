//! JSON value model shared by the document wire format and the diff wire
//! format, with a deterministic compact printer.
//!
//! Strings are kept in their plain form: a well-formed value never contains
//! a character that would need an escape sequence (`"`, `\`, or a control
//! character), so printing is concatenation and parsing never unescapes.

use vstd::prelude::*;

verus! {

broadcast use vstd::std_specs::vec::group_vec_axioms;

/// An executable JSON value. Object entries keep their insertion order.
#[derive(Debug, PartialEq, Eq)]
pub enum Json {
    Null,
    Num(u64),
    Str(String),
    Arr(Vec<Json>),
    Obj(Vec<(String, Json)>),
}

/// The mathematical model of a JSON value.
pub enum JsonV {
    Null,
    Num(u64),
    Str(Seq<char>),
    Arr(Seq<JsonV>),
    Obj(Seq<(Seq<char>, JsonV)>),
}

impl Json {
    /// Deep mathematical view of a value.
    pub open spec fn jv(self) -> JsonV
        decreases self, 0int, 0int,
    {
        match self {
            Json::Null => JsonV::Null,
            Json::Num(n) => JsonV::Num(n),
            Json::Str(s) => JsonV::Str(s@),
            Json::Arr(elems) => JsonV::Arr(jv_elems(elems@, 0)),
            Json::Obj(fields) => JsonV::Obj(jv_entries(fields@, 0)),
        }
    }
}

/// Views of the array elements from index `i` on.
pub open spec fn jv_elems(elems: Seq<Json>, i: int) -> Seq<JsonV>
    decreases elems, 1int, elems.len() - i,
{
    if i < 0 || i >= elems.len() {
        Seq::empty()
    } else {
        seq![elems[i].jv()] + jv_elems(elems, i + 1)
    }
}

/// Views of the object entries from index `i` on.
pub open spec fn jv_entries(fields: Seq<(String, Json)>, i: int) -> Seq<(Seq<char>, JsonV)>
    decreases fields, 1int, fields.len() - i,
{
    if i < 0 || i >= fields.len() {
        Seq::empty()
    } else {
        seq![(fields[i].0@, fields[i].1.jv())] + jv_entries(fields, i + 1)
    }
}

/// `jv_elems` read pointwise.
pub proof fn lemma_jv_elems(elems: Seq<Json>, i: int)
    requires
        0 <= i <= elems.len(),
    ensures
        jv_elems(elems, i).len() == elems.len() - i,
        forall|j: int| i <= j < elems.len() ==>
            jv_elems(elems, i)[j - i] == #[trigger] elems[j].jv(),
    decreases elems.len() - i,
{
    if i < elems.len() {
        lemma_jv_elems(elems, i + 1);
    }
}

/// `jv_entries` read pointwise.
pub proof fn lemma_jv_entries(fields: Seq<(String, Json)>, i: int)
    requires
        0 <= i <= fields.len(),
    ensures
        jv_entries(fields, i).len() == fields.len() - i,
        forall|j: int| i <= j < fields.len() ==>
            jv_entries(fields, i)[j - i] == (#[trigger] fields[j].0@, fields[j].1.jv()),
    decreases fields.len() - i,
{
    if i < fields.len() {
        lemma_jv_entries(fields, i + 1);
    }
}

/// True of a character that may stand unescaped inside a JSON string.
pub open spec fn plain_char(c: char) -> bool {
    c != '"' && c != '\\' && c as u32 >= 32
}

/// True of a string that prints without escape sequences.
pub open spec fn plain_str(s: Seq<char>) -> bool {
    forall|i: int| 0 <= i < s.len() ==> plain_char(#[trigger] s[i])
}

/// Well-formedness of a JSON value: every string in it is plain.
pub open spec fn wf_jv(v: JsonV) -> bool
    decreases v,
{
    match v {
        JsonV::Null => true,
        JsonV::Num(_) => true,
        JsonV::Str(s) => plain_str(s),
        JsonV::Arr(elems) => forall|i: int|
            0 <= i < elems.len() ==> wf_jv(#[trigger] elems[i]),
        JsonV::Obj(fields) => forall|i: int|
            0 <= i < fields.len() ==> plain_str(#[trigger] fields[i].0) && wf_jv(fields[i].1),
    }
}

/// The digit character for a value below ten.
pub open spec fn digit_char(d: u64) -> char {
    if d == 0 { '0' } else if d == 1 { '1' } else if d == 2 { '2' }
    else if d == 3 { '3' } else if d == 4 { '4' } else if d == 5 { '5' }
    else if d == 6 { '6' } else if d == 7 { '7' } else if d == 8 { '8' }
    else { '9' }
}

/// Decimal digit string of `n`, most significant digit first.
pub open spec fn dec_digits(n: u64) -> Seq<char>
    decreases n,
{
    if n < 10 {
        seq![digit_char(n)]
    } else {
        dec_digits(n / 10).push(digit_char(n % 10))
    }
}

/// Compact print of a value: no whitespace, keys and strings quoted.
pub open spec fn print_jv(v: JsonV) -> Seq<char>
    decreases v, 0int, 0int,
{
    match v {
        JsonV::Null => seq!['n', 'u', 'l', 'l'],
        JsonV::Num(n) => dec_digits(n),
        JsonV::Str(s) => seq!['"'] + s + seq!['"'],
        JsonV::Arr(elems) => seq!['['] + print_arr_items(elems, 0) + seq![']'],
        JsonV::Obj(fields) => seq!['{'] + print_obj_items(fields, 0) + seq!['}'],
    }
}

/// Comma-joined print of the array items from index `i` on.
pub open spec fn print_arr_items(elems: Seq<JsonV>, i: int) -> Seq<char>
    decreases elems, 1int, elems.len() - i,
{
    if i < 0 || i >= elems.len() {
        Seq::empty()
    } else {
        let head = print_jv(elems[i]);
        if i == elems.len() - 1 {
            head
        } else {
            head + seq![','] + print_arr_items(elems, i + 1)
        }
    }
}

/// Comma-joined print of the object entries from index `i` on.
pub open spec fn print_obj_items(fields: Seq<(Seq<char>, JsonV)>, i: int) -> Seq<char>
    decreases fields, 1int, fields.len() - i,
{
    if i < 0 || i >= fields.len() {
        Seq::empty()
    } else {
        let head = seq!['"'] + fields[i].0 + seq!['"', ':'] + print_jv(fields[i].1);
        if i == fields.len() - 1 {
            head
        } else {
            head + seq![','] + print_obj_items(fields, i + 1)
        }
    }
}

} // verus!

use vstd::prelude::*;

verus! {

/// One-character string for a decimal digit.
fn digit_str(d: u64) -> (r: &'static str)
    requires
        d < 10,
    ensures
        r@ == seq![digit_char(d)],
{
    proof {
        reveal_strlit("0");
        reveal_strlit("1");
        reveal_strlit("2");
        reveal_strlit("3");
        reveal_strlit("4");
        reveal_strlit("5");
        reveal_strlit("6");
        reveal_strlit("7");
        reveal_strlit("8");
        reveal_strlit("9");
    }
    if d == 0 { "0" } else if d == 1 { "1" } else if d == 2 { "2" }
    else if d == 3 { "3" } else if d == 4 { "4" } else if d == 5 { "5" }
    else if d == 6 { "6" } else if d == 7 { "7" } else if d == 8 { "8" }
    else { "9" }
}

/// Appends the decimal form of `n` to `out`.
fn push_digits(n: u64, out: &mut String)
    ensures
        final(out)@ == old(out)@ + dec_digits(n),
    decreases n,
{
    if n < 10 {
        out.append(digit_str(n));
    } else {
        push_digits(n / 10, out);
        out.append(digit_str(n % 10));
    }
}

/// Appends the compact print of `j` to `out`.
fn push_json(j: &Json, out: &mut String)
    ensures
        final(out)@ == old(out)@ + print_jv(j.jv()),
    decreases j, 0int, 0int,
{
    proof {
        reveal_strlit("null");
        reveal_strlit("\"");
        reveal_strlit("[");
        reveal_strlit("]");
        reveal_strlit("{");
        reveal_strlit("}");
    }
    match j {
        Json::Null => {
            out.append("null");
        },
        Json::Num(n) => {
            push_digits(*n, out);
        },
        Json::Str(s) => {
            out.append("\"");
            out.append(s.as_str());
            out.append("\"");
        },
        Json::Arr(elems) => {
            out.append("[");
            push_arr_items(elems, 0, out);
            out.append("]");
        },
        Json::Obj(fields) => {
            out.append("{");
            push_obj_items(fields, 0, out);
            out.append("}");
        },
    }
}

/// Appends the comma-joined items of `elems` from `i` on to `out`.
fn push_arr_items(elems: &Vec<Json>, i: usize, out: &mut String)
    ensures
        final(out)@ == old(out)@ + print_arr_items(jv_elems(elems@, 0), i as int),
    decreases elems@, 1int, elems@.len() - i,
{
    proof {
        reveal_strlit(",");
        lemma_jv_elems(elems@, 0);
    }
    if i < elems.len() {
        push_json(&elems[i], out);
        if i + 1 < elems.len() {
            out.append(",");
            push_arr_items(elems, i + 1, out);
        }
    }
}

/// Appends the comma-joined entries of `fields` from `i` on to `out`.
fn push_obj_items(fields: &Vec<(String, Json)>, i: usize, out: &mut String)
    ensures
        final(out)@ == old(out)@ + print_obj_items(jv_entries(fields@, 0), i as int),
    decreases fields@, 1int, fields@.len() - i,
{
    proof {
        reveal_strlit(",");
        reveal_strlit("\"");
        reveal_strlit("\":");
        lemma_jv_entries(fields@, 0);
    }
    if i < fields.len() {
        out.append("\"");
        out.append(fields[i].0.as_str());
        out.append("\":");
        push_json(&fields[i].1, out);
        if i + 1 < fields.len() {
            out.append(",");
            push_obj_items(fields, i + 1, out);
        }
    }
}

impl Json {
    /// The compact JSON text of this value.
    pub fn to_text(&self) -> (r: String)
        ensures
            r@ == print_jv(self.jv()),
    {
        let mut out = String::new();
        push_json(self, &mut out);
        out
    }
}

} // verus!
