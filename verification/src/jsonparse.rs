//! Recursive-descent parser for the JSON subset used by the wire formats:
//! strings without escape sequences, unsigned decimal numbers, arrays,
//! objects and `null`, with insignificant whitespace between tokens.
//!
//! The grammar is defined by the `spec` functions below; the executable
//! parser returns exactly what they describe.

use vstd::prelude::*;
use crate::jsonval::{Json, JsonV, plain_char, jv_elems, jv_entries, lemma_jv_elems, lemma_jv_entries};

verus! {

broadcast use vstd::std_specs::vec::group_vec_axioms;

/// Insignificant whitespace.
pub open spec fn is_ws(c: char) -> bool {
    c == ' ' || c == '\n' || c == '\t' || c == '\r'
}

/// A decimal digit.
pub open spec fn is_digit(c: char) -> bool {
    48 <= c as u32 <= 57
}

/// Numeric value of a digit character.
pub open spec fn digit_val(c: char) -> u64 {
    (c as u32 - 48) as u64
}

/// First index at or after `i` that does not hold whitespace.
pub open spec fn skip_ws(s: Seq<char>, i: int) -> int
    decreases s.len() - i,
{
    if 0 <= i < s.len() && is_ws(s[i]) {
        skip_ws(s, i + 1)
    } else {
        i
    }
}

/// `skip_ws` stays within `[i, s.len()]` and lands on a non-blank.
pub proof fn lemma_skip_ws(s: Seq<char>, i: int)
    requires
        0 <= i <= s.len(),
    ensures
        i <= skip_ws(s, i) <= s.len(),
        skip_ws(s, i) < s.len() ==> !is_ws(s[skip_ws(s, i)]),
    decreases s.len() - i,
{
    if i < s.len() && is_ws(s[i]) {
        lemma_skip_ws(s, i + 1);
    }
}

/// First index at or after `i` that does not hold a plain string character,
/// i.e. where a quoted string's content must end.
pub open spec fn str_end(s: Seq<char>, i: int) -> int
    decreases s.len() - i,
{
    if 0 <= i < s.len() && plain_char(s[i]) {
        str_end(s, i + 1)
    } else {
        i
    }
}

/// `str_end` stays within bounds and every character before it is plain.
pub proof fn lemma_str_end(s: Seq<char>, i: int)
    requires
        0 <= i <= s.len(),
    ensures
        i <= str_end(s, i) <= s.len(),
        str_end(s, i) < s.len() ==> !plain_char(s[str_end(s, i)]),
        forall|k: int| i <= k < str_end(s, i) ==> plain_char(#[trigger] s[k]),
    decreases s.len() - i,
{
    if i < s.len() && plain_char(s[i]) {
        lemma_str_end(s, i + 1);
    }
}

/// First index at or after `i` that does not hold a digit.
pub open spec fn num_end(s: Seq<char>, i: int) -> int
    decreases s.len() - i,
{
    if 0 <= i < s.len() && is_digit(s[i]) {
        num_end(s, i + 1)
    } else {
        i
    }
}

/// `num_end` stays within bounds; every character before it is a digit.
pub proof fn lemma_num_end(s: Seq<char>, i: int)
    requires
        0 <= i <= s.len(),
    ensures
        i <= num_end(s, i) <= s.len(),
        num_end(s, i) < s.len() ==> !is_digit(s[num_end(s, i)]),
        forall|k: int| i <= k < num_end(s, i) ==> is_digit(#[trigger] s[k]),
    decreases s.len() - i,
{
    if i < s.len() && is_digit(s[i]) {
        lemma_num_end(s, i + 1);
    }
}

/// Decimal value of the digits in `s[i..j)` accumulated onto `acc`;
/// `None` when the value does not fit in the wire integer type.
pub open spec fn num_val(s: Seq<char>, i: int, j: int, acc: u64) -> Option<u64>
    decreases j - i,
{
    if i < 0 || i >= j || j > s.len() {
        Some(acc)
    } else {
        let d = digit_val(s[i]);
        if acc > (u64::MAX - d) / 10 {
            None
        } else {
            num_val(s, i + 1, j, (10 * acc + d) as u64)
        }
    }
}

/// Parse of a quoted string starting exactly at `i` (no leading blanks).
pub open spec fn parse_str_at(s: Seq<char>, i: int) -> Option<(Seq<char>, int)> {
    if 0 <= i < s.len() && s[i] == '"' {
        let j = str_end(s, i + 1);
        if j < s.len() && s[j] == '"' {
            Some((s.subrange(i + 1, j), j + 1))
        } else {
            None
        }
    } else {
        None
    }
}

/// Parse of a number starting exactly at `i`.
pub open spec fn parse_num_at(s: Seq<char>, i: int) -> Option<(u64, int)> {
    if 0 <= i < s.len() && is_digit(s[i]) {
        let j = num_end(s, i);
        match num_val(s, i, j, 0) {
            Some(n) => Some((n, j)),
            None => None,
        }
    } else {
        None
    }
}

/// Parse of one value: leading blanks, then a string, number, `null`,
/// array or object.
pub open spec fn parse_value(s: Seq<char>, i: int) -> Option<(JsonV, int)>
    decreases s.len() - i, 3int,
{
    if i < 0 || i > s.len() {
        None
    } else {
        let j = skip_ws(s, i);
        if j < i || j >= s.len() {
            None
        } else {
            let c = s[j];
            if c == '"' {
                match parse_str_at(s, j) {
                    Some((t, k)) => Some((JsonV::Str(t), k)),
                    None => None,
                }
            } else if is_digit(c) {
                match parse_num_at(s, j) {
                    Some((n, k)) => Some((JsonV::Num(n), k)),
                    None => None,
                }
            } else if c == 'n' {
                if j + 4 <= s.len() && s[j + 1] == 'u' && s[j + 2] == 'l' && s[j + 3] == 'l' {
                    Some((JsonV::Null, j + 4))
                } else {
                    None
                }
            } else if c == '[' {
                let j2 = skip_ws(s, j + 1);
                if j2 <= j || j2 >= s.len() {
                    None
                } else if s[j2] == ']' {
                    Some((JsonV::Arr(Seq::empty()), j2 + 1))
                } else {
                    match parse_items(s, j + 1) {
                        Some((elems, k)) => Some((JsonV::Arr(elems), k)),
                        None => None,
                    }
                }
            } else if c == '{' {
                let j2 = skip_ws(s, j + 1);
                if j2 <= j || j2 >= s.len() {
                    None
                } else if s[j2] == '}' {
                    Some((JsonV::Obj(Seq::empty()), j2 + 1))
                } else {
                    match parse_members(s, j + 1) {
                        Some((fields, k)) => Some((JsonV::Obj(fields), k)),
                        None => None,
                    }
                }
            } else {
                None
            }
        }
    }
}

/// Parse of one or more comma-separated array items, ending at `]`.
pub open spec fn parse_items(s: Seq<char>, i: int) -> Option<(Seq<JsonV>, int)>
    decreases s.len() - i, 4int,
{
    if i < 0 || i > s.len() {
        None
    } else {
        match parse_value(s, i) {
            None => None,
            Some((v, k)) => {
                if k <= i || k > s.len() {
                    None
                } else {
                    let m = skip_ws(s, k);
                    if m < k || m >= s.len() {
                        None
                    } else if s[m] == ']' {
                        Some((seq![v], m + 1))
                    } else if s[m] == ',' {
                        match parse_items(s, m + 1) {
                            Some((rest, k2)) => Some((seq![v] + rest, k2)),
                            None => None,
                        }
                    } else {
                        None
                    }
                }
            },
        }
    }
}

/// Parse of one or more comma-separated object members, ending at `}`.
pub open spec fn parse_members(s: Seq<char>, i: int) -> Option<(Seq<(Seq<char>, JsonV)>, int)>
    decreases s.len() - i, 4int,
{
    if i < 0 || i > s.len() {
        None
    } else {
        let j = skip_ws(s, i);
        if j < i {
            None
        } else {
            match parse_str_at(s, j) {
                None => None,
                Some((key, k)) => {
                    if k <= i || k > s.len() {
                        None
                    } else {
                        let m = skip_ws(s, k);
                        if m < k || m >= s.len() || s[m] != ':' {
                            None
                        } else {
                            match parse_value(s, m + 1) {
                                None => None,
                                Some((v, k2)) => {
                                    if k2 <= m || k2 > s.len() {
                                        None
                                    } else {
                                        let m2 = skip_ws(s, k2);
                                        if m2 < k2 || m2 >= s.len() {
                                            None
                                        } else if s[m2] == '}' {
                                            Some((seq![(key, v)], m2 + 1))
                                        } else if s[m2] == ',' {
                                            match parse_members(s, m2 + 1) {
                                                Some((rest, k3)) => Some(
                                                    (seq![(key, v)] + rest, k3),
                                                ),
                                                None => None,
                                            }
                                        } else {
                                            None
                                        }
                                    }
                                },
                            }
                        }
                    }
                },
            }
        }
    }
}

/// Parse of a whole text: one value followed only by blanks.
pub open spec fn parse_text(s: Seq<char>) -> Option<JsonV> {
    match parse_value(s, 0) {
        None => None,
        Some((v, k)) => {
            if 0 <= k <= s.len() && skip_ws(s, k) == s.len() {
                Some(v)
            } else {
                None
            }
        },
    }
}

} // verus!

verus! {

/// Executable `skip_ws`.
fn ws_to(s: &str, i: usize) -> (r: usize)
    requires
        i <= s@.len(),
    ensures
        r == skip_ws(s@, i as int),
        i <= r <= s@.len(),
    decreases s@.len() - i,
{
    if i < s.unicode_len() {
        let c = s.get_char(i);
        if c == ' ' || c == '\n' || c == '\t' || c == '\r' {
            ws_to(s, i + 1)
        } else {
            i
        }
    } else {
        i
    }
}

/// Executable `str_end`.
fn str_end_x(s: &str, i: usize) -> (r: usize)
    requires
        i <= s@.len(),
    ensures
        r == str_end(s@, i as int),
        i <= r <= s@.len(),
    decreases s@.len() - i,
{
    if i < s.unicode_len() {
        let c = s.get_char(i);
        if c != '"' && c != '\\' && c as u32 >= 32 {
            str_end_x(s, i + 1)
        } else {
            i
        }
    } else {
        i
    }
}

/// Executable `num_end`.
fn num_end_x(s: &str, i: usize) -> (r: usize)
    requires
        i <= s@.len(),
    ensures
        r == num_end(s@, i as int),
        i <= r <= s@.len(),
    decreases s@.len() - i,
{
    if i < s.unicode_len() {
        let c = s.get_char(i);
        let u = c as u32;
        if 48 <= u && u <= 57 {
            num_end_x(s, i + 1)
        } else {
            i
        }
    } else {
        i
    }
}

/// Executable `num_val`.
fn num_val_x(s: &str, i: usize, j: usize, acc: u64) -> (r: Option<u64>)
    requires
        j <= s@.len(),
        forall|k: int| i <= k < j ==> is_digit(#[trigger] s@[k]),
    ensures
        r == num_val(s@, i as int, j as int, acc),
    decreases j - i,
{
    if i >= j {
        Some(acc)
    } else {
        let c = s.get_char(i);
        let d = (c as u32 - 48) as u64;
        if acc > (u64::MAX - d) / 10 {
            None
        } else {
            num_val_x(s, i + 1, j, 10 * acc + d)
        }
    }
}

/// Executable `parse_str_at`.
fn parse_str_x(s: &str, i: usize) -> (r: Option<(String, usize)>)
    requires
        i <= s@.len(),
    ensures
        (match r {
            Some(p) => parse_str_at(s@, i as int) == Some((p.0@, p.1 as int)) && p.1 <= s@.len()
                && i < p.1,
            None => parse_str_at(s@, i as int) is None,
        }),
{
    if i < s.unicode_len() && s.get_char(i) == '"' {
        proof {
            lemma_str_end(s@, i + 1);
        }
        let j = str_end_x(s, i + 1);
        if j < s.unicode_len() && s.get_char(j) == '"' {
            let t = s.substring_char(i + 1, j).to_owned();
            Some((t, j + 1))
        } else {
            None
        }
    } else {
        None
    }
}

/// Executable `parse_value`.
pub fn parse_value_x(s: &str, i: usize) -> (r: Option<(Json, usize)>)
    requires
        i <= s@.len(),
    ensures
        (match r {
            Some(p) => parse_value(s@, i as int) == Some((p.0.jv(), p.1 as int)) && i < p.1
                <= s@.len(),
            None => parse_value(s@, i as int) is None,
        }),
    decreases s@.len() - i, 3int,
{
    let j = ws_to(s, i);
    if j >= s.unicode_len() {
        None
    } else {
        let c = s.get_char(j);
        if c == '"' {
            match parse_str_x(s, j) {
                Some((t, k)) => Some((Json::Str(t), k)),
                None => None,
            }
        } else if (c as u32) >= 48 && (c as u32) <= 57 {
            proof {
                lemma_num_end(s@, j as int);
            }
            let k = num_end_x(s, j);
            match num_val_x(s, j, k, 0) {
                Some(n) => Some((Json::Num(n), k)),
                None => None,
            }
        } else if c == 'n' {
            if s.unicode_len() - j >= 4 && s.get_char(j + 1) == 'u' && s.get_char(j + 2) == 'l'
                && s.get_char(j + 3) == 'l' {
                Some((Json::Null, j + 4))
            } else {
                None
            }
        } else if c == '[' {
            let j2 = ws_to(s, j + 1);
            if j2 >= s.unicode_len() {
                None
            } else if s.get_char(j2) == ']' {
                let out: Vec<Json> = Vec::new();
                proof {
                    assert(jv_elems(out@, 0) =~= Seq::<JsonV>::empty());
                }
                Some((Json::Arr(out), j2 + 1))
            } else {
                match parse_items_x(s, j + 1) {
                    Some((elems, k)) => Some((Json::Arr(elems), k)),
                    None => None,
                }
            }
        } else if c == '{' {
            let j2 = ws_to(s, j + 1);
            if j2 >= s.unicode_len() {
                None
            } else if s.get_char(j2) == '}' {
                let out: Vec<(String, Json)> = Vec::new();
                proof {
                    assert(jv_entries(out@, 0) =~= Seq::<(Seq<char>, JsonV)>::empty());
                }
                Some((Json::Obj(out), j2 + 1))
            } else {
                match parse_members_x(s, j + 1) {
                    Some((fields, k)) => Some((Json::Obj(fields), k)),
                    None => None,
                }
            }
        } else {
            None
        }
    }
}

/// Executable `parse_items`.
fn parse_items_x(s: &str, i: usize) -> (r: Option<(Vec<Json>, usize)>)
    requires
        i <= s@.len(),
    ensures
        (match r {
            Some(p) => parse_items(s@, i as int) == Some((jv_elems(p.0@, 0), p.1 as int)) && i
                < p.1 <= s@.len(),
            None => parse_items(s@, i as int) is None,
        }),
    decreases s@.len() - i, 4int,
{
    match parse_value_x(s, i) {
        None => None,
        Some((v, k)) => {
            let m = ws_to(s, k);
            if m >= s.unicode_len() {
                None
            } else if s.get_char(m) == ']' {
                let mut out: Vec<Json> = Vec::new();
                out.push(v);
                proof {
                    lemma_jv_elems(out@, 0);
                    assert(jv_elems(out@, 0) =~= seq![out@[0].jv()]);
                }
                Some((out, m + 1))
            } else if s.get_char(m) == ',' {
                match parse_items_x(s, m + 1) {
                    Some((mut rest, k2)) => {
                        let ghost prev = rest@;
                        rest.insert(0, v);
                        proof {
                            lemma_jv_elems(rest@, 0);
                            lemma_jv_elems(prev, 0);
                            assert(rest@ == prev.insert(0, v));
                            assert(rest@.len() == prev.len() + 1);
                            assert(rest@[0] == v);
                            assert(forall|q: int| 0 <= q < prev.len() ==> rest@[q + 1] == #[trigger] prev[q]);
                            assert forall|q: int| 0 <= q < rest@.len() implies jv_elems(
                                rest@,
                                0,
                            )[q] == (seq![v.jv()] + jv_elems(prev, 0))[q] by {
                                assert(jv_elems(rest@, 0)[q] == rest@[q].jv());
                                if q > 0 {
                                    assert(rest@[q] == prev[q - 1]);
                                    assert(jv_elems(prev, 0)[q - 1] == prev[q - 1].jv());
                                }
                            }
                            assert(jv_elems(rest@, 0) =~= seq![v.jv()] + jv_elems(prev, 0));
                        }
                        Some((rest, k2))
                    },
                    None => None,
                }
            } else {
                None
            }
        },
    }
}

/// Executable `parse_members`.
fn parse_members_x(s: &str, i: usize) -> (r: Option<(Vec<(String, Json)>, usize)>)
    requires
        i <= s@.len(),
    ensures
        (match r {
            Some(p) => parse_members(s@, i as int) == Some((jv_entries(p.0@, 0), p.1 as int))
                && i < p.1 <= s@.len(),
            None => parse_members(s@, i as int) is None,
        }),
    decreases s@.len() - i, 4int,
{
    let j = ws_to(s, i);
    match parse_str_x(s, j) {
        None => None,
        Some((key, k)) => {
            let m = ws_to(s, k);
            if m >= s.unicode_len() {
                None
            } else if s.get_char(m) != ':' {
                None
            } else {
                match parse_value_x(s, m + 1) {
                    None => None,
                    Some((v, k2)) => {
                        let m2 = ws_to(s, k2);
                        if m2 >= s.unicode_len() {
                            None
                        } else if s.get_char(m2) == '}' {
                            let mut out: Vec<(String, Json)> = Vec::new();
                            out.push((key, v));
                            proof {
                                lemma_jv_entries(out@, 0);
                                assert(jv_entries(out@, 0) =~= seq![
                                    (out@[0].0@, out@[0].1.jv()),
                                ]);
                            }
                            Some((out, m2 + 1))
                        } else if s.get_char(m2) == ',' {
                            match parse_members_x(s, m2 + 1) {
                                Some((mut rest, k3)) => {
                                    let ghost prev = rest@;
                                    rest.insert(0, (key, v));
                                    proof {
                                        lemma_jv_entries(rest@, 0);
                                        lemma_jv_entries(prev, 0);
                                        assert(rest@.len() == prev.len() + 1);
                                        assert(forall|q: int| 0 <= q < prev.len() ==> rest@[q + 1] == #[trigger] prev[q]);
                                        assert forall|q: int| 0 <= q < rest@.len() implies
                                            jv_entries(rest@, 0)[q] == (seq![
                                            (rest@[0].0@, rest@[0].1.jv()),
                                        ] + jv_entries(prev, 0))[q] by {
                                            assert(jv_entries(rest@, 0)[q] == (rest@[q].0@, rest@[q].1.jv()));
                                            if q > 0 {
                                                assert(rest@[q] == prev[q - 1]);
                                                assert(jv_entries(prev, 0)[q - 1] == (prev[q - 1].0@, prev[q - 1].1.jv()));
                                            }
                                        }
                                        assert(jv_entries(rest@, 0) =~= seq![
                                            (rest@[0].0@, rest@[0].1.jv()),
                                        ] + jv_entries(prev, 0));
                                    }
                                    Some((rest, k3))
                                },
                                None => None,
                            }
                        } else {
                            None
                        }
                    },
                }
            }
        },
    }
}

impl Json {
    /// Parses a whole JSON text.
    pub fn from_text(s: &str) -> (r: Option<Json>)
        ensures
            (match r {
                Some(v) => parse_text(s@) == Some(v.jv()),
                None => parse_text(s@) is None,
            }),
    {
        match parse_value_x(s, 0) {
            None => None,
            Some((v, k)) => {
                let e = ws_to(s, k);
                if e == s.unicode_len() {
                    Some(v)
                } else {
                    None
                }
            },
        }
    }
}

} // verus!
