//! The structured decentralized identifier: scheme `did`, a method name,
//! colon-joined id segments, and an optional fragment.
//!
//! `parse` and `to_string` are exact inverses on well-formed identifiers:
//! the string form is recoverable byte-for-byte from the structured form.

use vstd::prelude::*;
use crate::Error;

verus! {

broadcast use vstd::std_specs::vec::group_vec_axioms;

/// A structured identifier.
#[derive(Debug, Clone, Default, PartialEq, Eq)]
pub struct DID {
    /// Lowercase alphanumeric method token.
    pub method_name: String,
    /// Colon-joined identifier segments; at least one in a valid identifier.
    pub id_segments: Vec<String>,
    /// Optional fragment, written after `#`.
    pub fragment: Option<String>,
}

/// Mathematical view of an identifier.
pub struct DidV {
    pub method: Seq<char>,
    pub segs: Seq<Seq<char>>,
    pub frag: Option<Seq<char>>,
}

impl DID {
    /// View of this identifier.
    pub open spec fn view(self) -> DidV {
        DidV {
            method: self.method_name@,
            segs: seg_views(self.id_segments@, 0),
            frag: match self.fragment {
                Some(f) => Some(f@),
                None => None,
            },
        }
    }
}

/// Views of the segment strings from index `i` on.
pub open spec fn seg_views(segs: Seq<String>, i: int) -> Seq<Seq<char>>
    decreases segs.len() - i,
{
    if i < 0 || i >= segs.len() {
        Seq::empty()
    } else {
        seq![segs[i]@] + seg_views(segs, i + 1)
    }
}

/// `seg_views` read pointwise.
pub proof fn lemma_seg_views(segs: Seq<String>, i: int)
    requires
        0 <= i <= segs.len(),
    ensures
        seg_views(segs, i).len() == segs.len() - i,
        forall|j: int| i <= j < segs.len() ==>
            seg_views(segs, i)[j - i] == #[trigger] segs[j]@,
    decreases segs.len() - i,
{
    if i < segs.len() {
        lemma_seg_views(segs, i + 1);
    }
}

/// A character allowed in a method name: lowercase letter or digit.
pub open spec fn method_char(c: char) -> bool {
    (97 <= c as u32 <= 122) || (48 <= c as u32 <= 57)
}

/// A character allowed in an id segment or fragment: letter, digit,
/// `.`, `-` or `_`.
pub open spec fn seg_char(c: char) -> bool {
    (97 <= c as u32 <= 122) || (65 <= c as u32 <= 90) || (48 <= c as u32 <= 57) || c == '.'
        || c == '-' || c == '_'
}

/// Every character of `s` passes `method_char`.
pub open spec fn method_token(s: Seq<char>) -> bool {
    s.len() > 0 && forall|i: int| 0 <= i < s.len() ==> method_char(#[trigger] s[i])
}

/// Every character of `s` passes `seg_char`.
pub open spec fn seg_token(s: Seq<char>) -> bool {
    s.len() > 0 && forall|i: int| 0 <= i < s.len() ==> seg_char(#[trigger] s[i])
}

/// Well-formedness of an identifier view.
pub open spec fn wf_didv(d: DidV) -> bool {
    &&& method_token(d.method)
    &&& d.segs.len() > 0
    &&& forall|i: int| 0 <= i < d.segs.len() ==> seg_token(#[trigger] d.segs[i])
    &&& match d.frag {
        Some(f) => seg_token(f),
        None => true,
    }
}

/// The colon-prefixed join of the segments from index `i` on.
pub open spec fn segs_str(segs: Seq<Seq<char>>, i: int) -> Seq<char>
    decreases segs.len() - i,
{
    if i < 0 || i >= segs.len() {
        Seq::empty()
    } else {
        seq![':'] + segs[i] + segs_str(segs, i + 1)
    }
}

/// The canonical string form of an identifier view.
pub open spec fn did_str(d: DidV) -> Seq<char> {
    let base = seq!['d', 'i', 'd'] + segs_str(seq![d.method] + d.segs, 0);
    match d.frag {
        Some(f) => base + seq!['#'] + f,
        None => base,
    }
}

} // verus!

verus! {

/// First index at or after `i` that does not hold a `method_char`.
pub open spec fn method_end(s: Seq<char>, i: int) -> int
    decreases s.len() - i,
{
    if 0 <= i < s.len() && method_char(s[i]) {
        method_end(s, i + 1)
    } else {
        i
    }
}

/// `method_end` stays in bounds; every character before it qualifies.
pub proof fn lemma_method_end(s: Seq<char>, i: int)
    requires
        0 <= i <= s.len(),
    ensures
        i <= method_end(s, i) <= s.len(),
        method_end(s, i) < s.len() ==> !method_char(s[method_end(s, i)]),
        forall|k: int| i <= k < method_end(s, i) ==> method_char(#[trigger] s[k]),
    decreases s.len() - i,
{
    if i < s.len() && method_char(s[i]) {
        lemma_method_end(s, i + 1);
    }
}

/// First index at or after `i` that does not hold a `seg_char`.
pub open spec fn seg_end(s: Seq<char>, i: int) -> int
    decreases s.len() - i,
{
    if 0 <= i < s.len() && seg_char(s[i]) {
        seg_end(s, i + 1)
    } else {
        i
    }
}

/// `seg_end` stays in bounds; every character before it qualifies.
pub proof fn lemma_seg_end(s: Seq<char>, i: int)
    requires
        0 <= i <= s.len(),
    ensures
        i <= seg_end(s, i) <= s.len(),
        seg_end(s, i) < s.len() ==> !seg_char(s[seg_end(s, i)]),
        forall|k: int| i <= k < seg_end(s, i) ==> seg_char(#[trigger] s[k]),
    decreases s.len() - i,
{
    if i < s.len() && seg_char(s[i]) {
        lemma_seg_end(s, i + 1);
    }
}

/// Parse of the colon-separated segments and optional fragment from `i` on.
pub open spec fn parse_segs(s: Seq<char>, i: int) -> Option<(Seq<Seq<char>>, Option<Seq<char>>)>
    decreases s.len() - i,
{
    if i < 0 || i > s.len() {
        None
    } else {
        let e = seg_end(s, i);
        if e <= i || e > s.len() {
            None
        } else {
            let sg = s.subrange(i, e);
            if e == s.len() {
                Some((seq![sg], None))
            } else if s[e] == ':' {
                match parse_segs(s, e + 1) {
                    Some((rest, f)) => Some((seq![sg] + rest, f)),
                    None => None,
                }
            } else if s[e] == '#' {
                let fe = seg_end(s, e + 1);
                if fe == s.len() && fe > e + 1 {
                    Some((seq![sg], Some(s.subrange(e + 1, fe))))
                } else {
                    None
                }
            } else {
                None
            }
        }
    }
}

/// Parse of a whole identifier string.
pub open spec fn parse_did_s(s: Seq<char>) -> Option<DidV> {
    if s.len() >= 4 && s[0] == 'd' && s[1] == 'i' && s[2] == 'd' && s[3] == ':' {
        let m = method_end(s, 4);
        if m <= 4 || m >= s.len() || s[m] != ':' {
            None
        } else {
            match parse_segs(s, m + 1) {
                Some((segs, frag)) => Some(
                    DidV { method: s.subrange(4, m), segs, frag },
                ),
                None => None,
            }
        }
    } else {
        None
    }
}

/// Executable `method_end`.
fn method_end_x(s: &str, i: usize) -> (r: usize)
    requires
        i <= s@.len(),
    ensures
        r == method_end(s@, i as int),
        i <= r <= s@.len(),
    decreases s@.len() - i,
{
    if i < s.unicode_len() {
        let u = s.get_char(i) as u32;
        if (97 <= u && u <= 122) || (48 <= u && u <= 57) {
            method_end_x(s, i + 1)
        } else {
            i
        }
    } else {
        i
    }
}

/// Executable `seg_end`.
fn seg_end_x(s: &str, i: usize) -> (r: usize)
    requires
        i <= s@.len(),
    ensures
        r == seg_end(s@, i as int),
        i <= r <= s@.len(),
    decreases s@.len() - i,
{
    if i < s.unicode_len() {
        let c = s.get_char(i);
        let u = c as u32;
        if (97 <= u && u <= 122) || (65 <= u && u <= 90) || (48 <= u && u <= 57) || c == '.'
            || c == '-' || c == '_' {
            seg_end_x(s, i + 1)
        } else {
            i
        }
    } else {
        i
    }
}

/// Executable `parse_segs`.
fn parse_segs_x(s: &str, i: usize) -> (r: Option<(Vec<String>, Option<String>)>)
    requires
        i <= s@.len(),
    ensures
        (match r {
            Some(p) => parse_segs(s@, i as int) == Some(
                (
                    seg_views(p.0@, 0),
                    match p.1 {
                        Some(f) => Some(f@),
                        None => None,
                    },
                ),
            ),
            None => parse_segs(s@, i as int) is None,
        }),
    decreases s@.len() - i,
{
    let e = seg_end_x(s, i);
    if e <= i {
        None
    } else {
        let sg = s.substring_char(i, e).to_owned();
        if e == s.unicode_len() {
            let mut out: Vec<String> = Vec::new();
            out.push(sg);
            proof {
                lemma_seg_views(out@, 0);
                assert(seg_views(out@, 0) =~= seq![out@[0]@]);
            }
            Some((out, None))
        } else if s.get_char(e) == ':' {
            match parse_segs_x(s, e + 1) {
                Some((mut rest, f)) => {
                    let ghost prev = rest@;
                    rest.insert(0, sg);
                    proof {
                        lemma_seg_views(rest@, 0);
                        lemma_seg_views(prev, 0);
                        assert forall|q: int| 0 <= q < rest@.len() implies seg_views(
                            rest@,
                            0,
                        )[q] == (seq![rest@[0]@] + seg_views(prev, 0))[q] by {
                            assert(seg_views(rest@, 0)[q] == rest@[q]@);
                            if q > 0 {
                                assert(rest@[q] == prev[q - 1]);
                                assert(seg_views(prev, 0)[q - 1] == prev[q - 1]@);
                            }
                        }
                        assert(seg_views(rest@, 0) =~= seq![rest@[0]@] + seg_views(prev, 0));
                    }
                    Some((rest, f))
                },
                None => None,
            }
        } else if s.get_char(e) == '#' {
            let fe = seg_end_x(s, e + 1);
            if fe == s.unicode_len() && fe > e + 1 {
                let frag = s.substring_char(e + 1, fe).to_owned();
                let mut out: Vec<String> = Vec::new();
                out.push(sg);
                proof {
                    lemma_seg_views(out@, 0);
                    assert(seg_views(out@, 0) =~= seq![out@[0]@]);
                }
                Some((out, Some(frag)))
            } else {
                None
            }
        } else {
            None
        }
    }
}

impl DID {
    /// Parses an identifier string of the form
    /// `did:<method>:<segment>(:<segment>)*[#fragment]`.
    pub fn parse(s: &str) -> (r: Result<DID, Error>)
        ensures
            (match r {
                Ok(d) => parse_did_s(s@) == Some(d@),
                Err(e) => parse_did_s(s@) is None && e == Error::Parse,
            }),
    {
        if s.unicode_len() >= 4 && s.get_char(0) == 'd' && s.get_char(1) == 'i' && s.get_char(2)
            == 'd' && s.get_char(3) == ':' {
            let m = method_end_x(s, 4);
            if m <= 4 || m >= s.unicode_len() {
                Err(Error::Parse)
            } else if s.get_char(m) != ':' {
                Err(Error::Parse)
            } else {
                let method = s.substring_char(4, m).to_owned();
                match parse_segs_x(s, m + 1) {
                    Some((segs, frag)) => Ok(DID {
                        method_name: method,
                        id_segments: segs,
                        fragment: frag,
                    }),
                    None => Err(Error::Parse),
                }
            }
        } else {
            Err(Error::Parse)
        }
    }
}

} // verus!

verus! {

/// Dropping the head element shifts `segs_str` by one position.
pub proof fn lemma_segs_str_shift(x: Seq<char>, t: Seq<Seq<char>>, i: int)
    requires
        1 <= i <= (seq![x] + t).len(),
    ensures
        segs_str(seq![x] + t, i) == segs_str(t, i - 1),
    decreases (seq![x] + t).len() - i,
{
    let u = seq![x] + t;
    if i < u.len() {
        lemma_segs_str_shift(x, t, i + 1);
        assert(u[i] == t[i - 1]);
    }
}

/// Appends `:<segment>` for each segment from `i` on.
fn push_segs(segs: &Vec<String>, i: usize, out: &mut String)
    requires
        i <= segs@.len(),
    ensures
        final(out)@ == old(out)@ + segs_str(seg_views(segs@, 0), i as int),
    decreases segs@.len() - i,
{
    proof {
        reveal_strlit(":");
        lemma_seg_views(segs@, 0);
    }
    if i < segs.len() {
        out.append(":");
        out.append(segs[i].as_str());
        push_segs(segs, i + 1, out);
    }
}

impl DID {
    /// The canonical string form of this identifier.
    pub fn to_string(&self) -> (r: String)
        ensures
            r@ == did_str(self@),
    {
        proof {
            reveal_strlit("did");
            reveal_strlit(":");
            reveal_strlit("#");
        }
        let mut out = String::new();
        out.append("did");
        out.append(":");
        out.append(self.method_name.as_str());
        push_segs(&self.id_segments, 0, &mut out);
        proof {
            let full = seq![self.method_name@] + seg_views(self.id_segments@, 0);
            lemma_segs_str_shift(self.method_name@, seg_views(self.id_segments@, 0), 1);
            assert(segs_str(full, 0) == seq![':'] + full[0] + segs_str(full, 1));
            assert(out@ =~= seq!['d', 'i', 'd'] + segs_str(full, 0));
        }
        match &self.fragment {
            Some(f) => {
                out.append("#");
                out.append(f.as_str());
                proof {
                    assert(out@ =~= did_str(self@));
                }
            },
            None => {},
        }
        out
    }

    /// Validates the structured form; a well-formed identifier passes
    /// through unchanged, anything else is a parse failure.
    pub fn init(self) -> (r: Result<DID, Error>)
        ensures
            (match r {
                Ok(d) => d == self && wf_didv(self@),
                Err(e) => !wf_didv(self@) && e == Error::Parse,
            }),
    {
        proof {
            lemma_seg_views(self.id_segments@, 0);
        }
        if !is_method_token_x(self.method_name.as_str()) {
            Err(Error::Parse)
        } else if self.id_segments.len() == 0 {
            Err(Error::Parse)
        } else {
            let mut k: usize = 0;
            while k < self.id_segments.len()
                invariant
                    k <= self.id_segments@.len(),
                    forall|q: int| 0 <= q < k ==> seg_token(#[trigger] self.id_segments@[q]@),
                decreases self.id_segments@.len() - k,
            {
                if !is_seg_token_x(self.id_segments[k].as_str()) {
                    proof {
                        lemma_seg_views(self.id_segments@, 0);
                        assert(self@.segs[k as int] == self.id_segments@[k as int]@);
                    }
                    return Err(Error::Parse);
                }
                k += 1;
            }
            proof {
                lemma_seg_views(self.id_segments@, 0);
                assert forall|q: int| 0 <= q < self@.segs.len() implies seg_token(
                    #[trigger] self@.segs[q],
                ) by {
                    assert(self@.segs[q] == self.id_segments@[q]@);
                }
            }
            match &self.fragment {
                Some(f) => {
                    if is_seg_token_x(f.as_str()) {
                        Ok(self)
                    } else {
                        Err(Error::Parse)
                    }
                },
                None => Ok(self),
            }
        }
    }
}

/// Executable `method_token`.
fn is_method_token_x(s: &str) -> (r: bool)
    ensures
        r == method_token(s@),
{
    proof {
        lemma_method_end(s@, 0);
    }
    s.unicode_len() > 0 && method_end_x(s, 0) == s.unicode_len()
}

/// Executable `seg_token`.
fn is_seg_token_x(s: &str) -> (r: bool)
    ensures
        r == seg_token(s@),
{
    proof {
        lemma_seg_end(s@, 0);
    }
    s.unicode_len() > 0 && seg_end_x(s, 0) == s.unicode_len()
}

} // verus!

verus! {

/// What a successful segment parse yields: at least one segment, every
/// segment and the fragment well-formed tokens.
pub proof fn lemma_parse_segs_wf(s: Seq<char>, i: int)
    ensures
        (parse_segs(s, i) matches Some(p) ==> p.0.len() > 0 && (forall|q: int|
            0 <= q < p.0.len() ==> seg_token(#[trigger] p.0[q])) && (p.1 matches Some(f)
            ==> seg_token(f))),
    decreases s.len() - i,
{
    if 0 <= i <= s.len() {
        lemma_seg_end(s, i);
        let e = seg_end(s, i);
        if e > i && e <= s.len() {
            let sg = s.subrange(i, e);
            assert forall|q: int| 0 <= q < sg.len() implies seg_char(#[trigger] sg[q]) by {
                assert(sg[q] == s[i + q]);
            }
            assert(seg_token(sg));
            if e == s.len() {
            } else if s[e] == ':' {
                lemma_parse_segs_wf(s, e + 1);
                match parse_segs(s, e + 1) {
                    Some((rest, f)) => {
                        assert forall|q: int| 0 <= q < (seq![sg] + rest).len() implies
                            seg_token(#[trigger] (seq![sg] + rest)[q]) by {
                            if q > 0 {
                                assert((seq![sg] + rest)[q] == rest[q - 1]);
                            }
                        }
                    },
                    None => {},
                }
            } else if s[e] == '#' {
                lemma_seg_end(s, e + 1);
                let fe = seg_end(s, e + 1);
                if fe == s.len() && fe > e + 1 {
                    let f = s.subrange(e + 1, fe);
                    assert forall|q: int| 0 <= q < f.len() implies seg_char(
                        #[trigger] f[q],
                    ) by {
                        assert(f[q] == s[e + 1 + q]);
                    }
                    assert(seg_token(f));
                }
            }
        }
    }
}

/// What a successful identifier parse yields: a well-formed view.
pub proof fn lemma_parse_did_wf(s: Seq<char>)
    ensures
        (parse_did_s(s) matches Some(v) ==> wf_didv(v)),
{
    if s.len() >= 4 && s[0] == 'd' && s[1] == 'i' && s[2] == 'd' && s[3] == ':' {
        lemma_method_end(s, 4);
        let m = method_end(s, 4);
        if 4 < m < s.len() && s[m] == ':' {
            let mt = s.subrange(4, m);
            assert forall|q: int| 0 <= q < mt.len() implies method_char(#[trigger] mt[q]) by {
                assert(mt[q] == s[4 + q]);
            }
            assert(method_token(mt));
            lemma_parse_segs_wf(s, m + 1);
        }
    }
}

} // verus!

verus! {

/// A scan over method characters ends exactly at the first non-member.
proof fn lemma_method_end_at(s: Seq<char>, i: int, j: int)
    requires
        0 <= i <= j <= s.len(),
        forall|q: int| i <= q < j ==> method_char(#[trigger] s[q]),
        j < s.len() ==> !method_char(s[j]),
    ensures
        method_end(s, i) == j,
    decreases j - i,
{
    if i < j {
        lemma_method_end_at(s, i + 1, j);
    }
}

/// A scan over segment characters ends exactly at the first non-member.
proof fn lemma_seg_end_at(s: Seq<char>, i: int, j: int)
    requires
        0 <= i <= j <= s.len(),
        forall|q: int| i <= q < j ==> seg_char(#[trigger] s[q]),
        j < s.len() ==> !seg_char(s[j]),
    ensures
        seg_end(s, i) == j,
    decreases j - i,
{
    if i < j {
        lemma_seg_end_at(s, i + 1, j);
    }
}

/// The printed form of the segments from `k` on, with the fragment tail.
pub open spec fn rest_str(segs: Seq<Seq<char>>, k: int, frag: Option<Seq<char>>) -> Seq<char>
    decreases segs.len() - k,
{
    if k < 0 || k >= segs.len() {
        Seq::empty()
    } else {
        segs[k] + (if k + 1 < segs.len() {
            seq![':'] + rest_str(segs, k + 1, frag)
        } else {
            match frag {
                Some(f) => seq!['#'] + f,
                None => Seq::empty(),
            }
        })
    }
}

/// Sequence concatenation is associative.
proof fn lemma_cat_assoc(a: Seq<char>, b: Seq<char>, c: Seq<char>)
    ensures
        (a + b) + c =~= a + (b + c),
{
}

/// The empty sequence is a right identity of concatenation.
proof fn lemma_cat_empty(a: Seq<char>)
    ensures
        a + Seq::<char>::empty() =~= a,
{
}

/// Neither separator belongs to a segment token.
proof fn lemma_separators_not_seg_chars()
    ensures
        !seg_char(':'),
        !seg_char('#'),
        !method_char(':'),
{
}

/// Parsing the printed segments from any aligned position recovers them.
proof fn lemma_parse_segs_roundtrip(
    s: Seq<char>,
    i: int,
    segs: Seq<Seq<char>>,
    k: int,
    frag: Option<Seq<char>>,
)
    requires
        0 <= k < segs.len(),
        0 <= i <= s.len(),
        i + rest_str(segs, k, frag).len() == s.len(),
        forall|q: int| 0 <= q < rest_str(segs, k, frag).len() ==> s[i + q] == #[trigger] rest_str(
            segs,
            k,
            frag,
        )[q],
        forall|q: int| k <= q < segs.len() ==> seg_token(#[trigger] segs[q]),
        (frag matches Some(f) ==> seg_token(f)),
    ensures
        parse_segs(s, i) == Some((segs.skip(k), frag)),
    decreases segs.len() - k,
{
    let rest = rest_str(segs, k, frag);
    let sg = segs[k];
    let e = i + sg.len();
    assert(seg_token(sg));
    assert forall|q: int| i <= q < e implies seg_char(#[trigger] s[q]) by {
        assert(s[q] == rest[q - i]);
        assert(rest[q - i] == sg[q - i]);
    }
    lemma_separators_not_seg_chars();
    if k + 1 < segs.len() {
        let tail = seq![':'] + rest_str(segs, k + 1, frag);
        assert(rest == sg + tail);
        assert(s[e] == rest[sg.len() as int]);
        assert(rest[sg.len() as int] == ':');
        lemma_seg_end_at(s, i, e);
        assert(seg_end(s, i) == e);
        assert forall|q: int| 0 <= q < sg.len() implies s.subrange(i, e)[q] == sg[q] by {
            assert(s[i + q] == rest[q]);
            assert(rest[q] == (sg + tail)[q]);
        }
        assert(s.subrange(i, e) =~= sg);
        assert forall|q: int| 0 <= q < rest_str(segs, k + 1, frag).len() implies s[e + 1 + q]
            == #[trigger] rest_str(segs, k + 1, frag)[q] by {
            assert(s[e + 1 + q] == rest[sg.len() + 1 + q]);
            assert(rest[sg.len() + 1 + q] == tail[1 + q]);
        }
        lemma_parse_segs_roundtrip(s, e + 1, segs, k + 1, frag);
        assert(parse_segs(s, e + 1) == Some((segs.skip(k + 1), frag)));
        assert(seq![sg] + segs.skip(k + 1) =~= segs.skip(k));
    } else {
        match frag {
            None => {
                assert(rest =~= sg);
                assert(e == s.len());
                lemma_seg_end_at(s, i, e);
                assert forall|q: int| 0 <= q < sg.len() implies s.subrange(i, e)[q] == sg[
                    q
                ] by {
                    assert(s[i + q] == rest[q]);
                }
                assert(s.subrange(i, e) =~= sg);
                assert(seq![sg] =~= segs.skip(k));
            },
            Some(f) => {
                let tail = seq!['#'] + f;
                assert(rest == sg + tail);
                assert(s[e] == rest[sg.len() as int]);
                assert(rest[sg.len() as int] == '#');
                lemma_seg_end_at(s, i, e);
                assert forall|q: int| 0 <= q < sg.len() implies s.subrange(i, e)[q] == sg[
                    q
                ] by {
                    assert(s[i + q] == rest[q]);
                    assert(rest[q] == (sg + tail)[q]);
                }
                assert(s.subrange(i, e) =~= sg);
                assert(seg_token(f));
                assert forall|q: int| e + 1 <= q < s.len() implies seg_char(
                    #[trigger] s[q],
                ) by {
                    assert(s[q] == rest[q - i]);
                    assert(rest[q - i] == tail[q - e]);
                    assert(tail[q - e] == f[q - e - 1]);
                }
                lemma_seg_end_at(s, e + 1, s.len() as int);
                assert(seg_end(s, e + 1) == s.len());
                assert(s.len() > e + 1);
                assert forall|q: int| 0 <= q < f.len() implies s.subrange(
                    e + 1,
                    s.len() as int,
                )[q] == f[q] by {
                    assert(s[e + 1 + q] == rest[sg.len() + 1 + q]);
                    assert(rest[sg.len() + 1 + q] == tail[1 + q]);
                }
                assert(s.subrange(e + 1, s.len() as int) =~= f);
                assert(seq![sg] =~= segs.skip(k));
            },
        }
    }
}

/// `segs_str` of a non-empty list is the rest-form of the same list.
proof fn lemma_segs_str_is_rest(segs: Seq<Seq<char>>, k: int, frag: Option<Seq<char>>)
    requires
        0 <= k < segs.len(),
    ensures
        segs_str(segs, k) + (match frag {
            Some(f) => seq!['#'] + f,
            None => Seq::empty(),
        }) =~= seq![':'] + rest_str(segs, k, frag),
    decreases segs.len() - k,
{
    let ft: Seq<char> = match frag {
        Some(f) => seq!['#'] + f,
        None => Seq::empty(),
    };
    let c = seq![':'];
    let sgk = segs[k];
    if k + 1 < segs.len() {
        lemma_segs_str_is_rest(segs, k + 1, frag);
        let ss1 = segs_str(segs, k + 1);
        assert(segs_str(segs, k) == (c + sgk) + ss1);
        lemma_cat_assoc(c + sgk, ss1, ft);
        lemma_cat_assoc(c, sgk, ss1 + ft);
        assert(ss1 + ft =~= c + rest_str(segs, k + 1, frag));
        assert(rest_str(segs, k, frag) == sgk + (c + rest_str(segs, k + 1, frag)));
        assert(segs_str(segs, k) + ft =~= c + rest_str(segs, k, frag));
    } else {
        assert(segs_str(segs, k + 1) =~= Seq::<char>::empty());
        assert(segs_str(segs, k) == (c + sgk) + segs_str(segs, k + 1));
        lemma_cat_empty(c + sgk);
        assert(segs_str(segs, k) =~= c + sgk);
        assert(rest_str(segs, k, frag) == sgk + ft);
        lemma_cat_assoc(c, sgk, ft);
        assert(segs_str(segs, k) + ft =~= c + rest_str(segs, k, frag));
    }
}

/// The round-trip law of the identifier: parsing the canonical string
/// form of any well-formed identifier view recovers it exactly.
pub proof fn lemma_did_roundtrip(v: DidV)
    requires
        wf_didv(v),
    ensures
        parse_did_s(did_str(v)) == Some(v),
{
    let s = did_str(v);
    let u = seq![v.method] + v.segs;
    let fragtail: Seq<char> = match v.frag {
        Some(f) => seq!['#'] + f,
        None => Seq::empty(),
    };
    let d3 = seq!['d', 'i', 'd'];
    let c = seq![':'];
    let m0 = v.method;
    let ss = segs_str(u, 0);
    let base = d3 + ss;
    assert(s == (match v.frag {
        Some(f) => (base + seq!['#']) + f,
        None => base,
    }));
    if v.frag is Some {
        let f = v.frag->0;
        lemma_cat_assoc(base, seq!['#'], f);
        assert(s =~= base + fragtail);
    } else {
        lemma_cat_empty(base);
        assert(s =~= base + fragtail);
    }
    lemma_segs_str_shift(v.method, v.segs, 1);
    assert(ss == (c + u[0]) + segs_str(u, 1));
    assert(u[0] == m0);
    assert(segs_str(u, 1) == segs_str(v.segs, 0));
    lemma_segs_str_is_rest(v.segs, 0, v.frag);
    let rest = rest_str(v.segs, 0, v.frag);
    assert(segs_str(v.segs, 0) + fragtail =~= c + rest);
    lemma_cat_assoc(d3, ss, fragtail);
    lemma_cat_assoc(c + m0, segs_str(v.segs, 0), fragtail);
    assert(ss + fragtail =~= (c + m0) + (c + rest));
    assert(s =~= d3 + ((c + m0) + (c + rest)));
    let m = 4 + v.method.len() as int;
    assert(s.len() == m + 1 + rest.len());
    assert(s[0] == 'd' && s[1] == 'i' && s[2] == 'd' && s[3] == ':');
    assert forall|q: int| 4 <= q < m implies method_char(#[trigger] s[q]) by {
        assert(s[q] == (d3 + ((c + m0) + (c + rest)))[q]);
        assert(s[q] == m0[q - 4]);
    }
    lemma_separators_not_seg_chars();
    assert(s[m] == (d3 + ((c + m0) + (c + rest)))[m]);
    assert(s[m] == ':');
    lemma_method_end_at(s, 4, m);
    assert(method_end(s, 4) == m);
    assert forall|q: int| 0 <= q < m0.len() implies s.subrange(4, m)[q] == m0[q] by {
        assert(s[4 + q] == (d3 + ((c + m0) + (c + rest)))[4 + q]);
    }
    assert(s.subrange(4, m) =~= m0);
    assert forall|q: int| 0 <= q < rest.len() implies s[m + 1 + q] == #[trigger] rest[q] by {
        assert(s[m + 1 + q] == (d3 + ((c + m0) + (c + rest)))[m + 1 + q]);
    }
    lemma_parse_segs_roundtrip(s, m + 1, v.segs, 0, v.frag);
    assert(v.segs.skip(0) =~= v.segs);
    assert(parse_did_s(s) == Some(DidV { method: s.subrange(4, m), segs: v.segs, frag: v.frag }));
    assert(DidV { method: s.subrange(4, m), segs: v.segs, frag: v.frag } == v);
}

} // verus!

verus! {

/// The canonical string of a well-formed identifier is plain: its tokens
/// hold only letters, digits and `.`, `-`, `_`, and its separators are
/// `:` and `#`, none of which needs a JSON escape.
pub proof fn lemma_did_str_plain(v: DidV)
    requires
        wf_didv(v),
    ensures
        crate::jsonval::plain_str(did_str(v)),
{
    let u = seq![v.method] + v.segs;
    lemma_segs_str_plain(u, 0, v);
    let base = seq!['d', 'i', 'd'] + segs_str(u, 0);
    assert forall|q: int| 0 <= q < base.len() implies crate::jsonval::plain_char(
        #[trigger] base[q],
    ) by {
        if q >= 3 {
            assert(base[q] == segs_str(u, 0)[q - 3]);
        }
    }
    match v.frag {
        Some(f) => {
            let s = base + seq!['#'] + f;
            assert forall|q: int| 0 <= q < s.len() implies crate::jsonval::plain_char(
                #[trigger] s[q],
            ) by {
                if q < base.len() {
                    assert(s[q] == base[q]);
                } else if q == base.len() {
                    assert(s[q] == '#');
                } else {
                    assert(s[q] == f[q - base.len() - 1]);
                    assert(seg_char(f[q - base.len() - 1]));
                }
            }
        },
        None => {},
    }
}

/// Segment characters and the separators are plain.
proof fn lemma_segs_str_plain(u: Seq<Seq<char>>, k: int, v: DidV)
    requires
        u == seq![v.method] + v.segs,
        wf_didv(v),
        0 <= k,
    ensures
        forall|q: int| 0 <= q < segs_str(u, k).len() ==> crate::jsonval::plain_char(
            #[trigger] segs_str(u, k)[q],
        ),
    decreases u.len() - k,
{
    if 0 <= k < u.len() {
        lemma_segs_str_plain(u, k + 1, v);
        let here = segs_str(u, k);
        let tok = u[k];
        assert forall|q: int| 0 <= q < here.len() implies crate::jsonval::plain_char(
            #[trigger] here[q],
        ) by {
            if q == 0 {
                assert(here[q] == ':');
            } else if q <= tok.len() {
                assert(here[q] == tok[q - 1]);
                if k == 0 {
                    assert(tok == v.method);
                    assert(method_char(tok[q - 1]));
                } else {
                    assert(tok == v.segs[k - 1]);
                    assert(seg_char(tok[q - 1]));
                }
            } else {
                assert(here[q] == segs_str(u, k + 1)[q - 1 - tok.len()]);
            }
        }
    }
}

} // verus!
