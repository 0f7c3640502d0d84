//! The structural diff engine: a generic tree of struct-, tuple- and
//! collection-shaped nodes with opaque leaf values, an edit script
//! computed between two trees of the same shape, and the replay of such
//! a script over a base tree.
//!
//! Ordered collections grow only: a script can modify an element in
//! place or append trailing elements, never remove or reorder. A target
//! with a shorter collection than its base is rejected outright rather
//! than silently truncated.

use vstd::prelude::*;
use crate::Error;
use crate::jsonval::{Json, JsonV};

verus! {

broadcast use vstd::std_specs::vec::group_vec_axioms;

/// A tree node. Collection elements are opaque values addressed by
/// position; struct fields carry the names used on the wire.
#[derive(Debug, PartialEq, Eq)]
pub enum Node {
    /// A terminal value.
    Leaf(Json),
    /// Named fields in a fixed order.
    Struct(Vec<(String, Node)>),
    /// Positional fields.
    Tuple(Vec<Node>),
    /// An ordered collection of opaque element values.
    Coll(Vec<Json>),
}

/// The mathematical view of a node.
pub enum NodeV {
    Leaf(JsonV),
    Struct(Seq<(Seq<char>, NodeV)>),
    Tuple(Seq<NodeV>),
    Coll(Seq<JsonV>),
}

/// An edit script for one node, listing only what changed.
#[derive(Debug, PartialEq, Eq)]
pub enum NodeEdit {
    /// Replace the leaf value.
    SetValue(Json),
    /// Edits of named fields, in field order.
    Struct(Vec<(String, NodeEdit)>),
    /// Edits of positional fields, in position order.
    Tuple(Vec<(u64, NodeEdit)>),
    /// In-place element replacements in index order, then appended
    /// trailing elements in target order.
    Coll(Vec<(u64, Json)>, Vec<Json>),
}

/// The mathematical view of an edit script.
pub enum EditV {
    SetValue(JsonV),
    Struct(Seq<(Seq<char>, EditV)>),
    Tuple(Seq<(u64, EditV)>),
    Coll(Seq<(u64, JsonV)>, Seq<JsonV>),
}

impl Node {
    /// View of this node.
    pub open spec fn nv(self) -> NodeV
        decreases self, 0int, 0int,
    {
        match self {
            Node::Leaf(j) => NodeV::Leaf(j.jv()),
            Node::Struct(fs) => NodeV::Struct(node_fields_v(fs@, 0)),
            Node::Tuple(ns) => NodeV::Tuple(nodes_v(ns@, 0)),
            Node::Coll(es) => NodeV::Coll(crate::jsonval::jv_elems(es@, 0)),
        }
    }
}

/// Views of named fields from index `i` on.
pub open spec fn node_fields_v(fs: Seq<(String, Node)>, i: int) -> Seq<(Seq<char>, NodeV)>
    decreases fs, 1int, fs.len() - i,
{
    if i < 0 || i >= fs.len() {
        Seq::empty()
    } else {
        seq![(fs[i].0@, fs[i].1.nv())] + node_fields_v(fs, i + 1)
    }
}

/// Views of positional fields from index `i` on.
pub open spec fn nodes_v(ns: Seq<Node>, i: int) -> Seq<NodeV>
    decreases ns, 1int, ns.len() - i,
{
    if i < 0 || i >= ns.len() {
        Seq::empty()
    } else {
        seq![ns[i].nv()] + nodes_v(ns, i + 1)
    }
}

/// `node_fields_v` read pointwise.
pub proof fn lemma_node_fields_v(fs: Seq<(String, Node)>, i: int)
    requires
        0 <= i <= fs.len(),
    ensures
        node_fields_v(fs, i).len() == fs.len() - i,
        forall|j: int| i <= j < fs.len() ==> node_fields_v(fs, i)[j - i] == ((
        #[trigger] fs[j]).0@, fs[j].1.nv()),
    decreases fs.len() - i,
{
    if i < fs.len() {
        lemma_node_fields_v(fs, i + 1);
    }
}

/// `nodes_v` read pointwise.
pub proof fn lemma_nodes_v(ns: Seq<Node>, i: int)
    requires
        0 <= i <= ns.len(),
    ensures
        nodes_v(ns, i).len() == ns.len() - i,
        forall|j: int| i <= j < ns.len() ==> nodes_v(ns, i)[j - i] == (#[trigger] ns[j]).nv(),
    decreases ns.len() - i,
{
    if i < ns.len() {
        lemma_nodes_v(ns, i + 1);
    }
}

impl NodeEdit {
    /// View of this edit script.
    pub open spec fn ev(self) -> EditV
        decreases self, 0int, 0int,
    {
        match self {
            NodeEdit::SetValue(j) => EditV::SetValue(j.jv()),
            NodeEdit::Struct(fs) => EditV::Struct(edit_fields_v(fs@, 0)),
            NodeEdit::Tuple(ts) => EditV::Tuple(edit_slots_v(ts@, 0)),
            NodeEdit::Coll(ms, adds) => EditV::Coll(
                edit_mods_v(ms@, 0),
                crate::jsonval::jv_elems(adds@, 0),
            ),
        }
    }
}

/// Views of named field edits from index `i` on.
pub open spec fn edit_fields_v(fs: Seq<(String, NodeEdit)>, i: int) -> Seq<(Seq<char>, EditV)>
    decreases fs, 1int, fs.len() - i,
{
    if i < 0 || i >= fs.len() {
        Seq::empty()
    } else {
        seq![(fs[i].0@, fs[i].1.ev())] + edit_fields_v(fs, i + 1)
    }
}

/// Views of positional edits from index `i` on.
pub open spec fn edit_slots_v(ts: Seq<(u64, NodeEdit)>, i: int) -> Seq<(u64, EditV)>
    decreases ts, 1int, ts.len() - i,
{
    if i < 0 || i >= ts.len() {
        Seq::empty()
    } else {
        seq![(ts[i].0, ts[i].1.ev())] + edit_slots_v(ts, i + 1)
    }
}

/// Views of element replacements from index `i` on.
pub open spec fn edit_mods_v(ms: Seq<(u64, Json)>, i: int) -> Seq<(u64, JsonV)>
    decreases ms, 1int, ms.len() - i,
{
    if i < 0 || i >= ms.len() {
        Seq::empty()
    } else {
        seq![(ms[i].0, ms[i].1.jv())] + edit_mods_v(ms, i + 1)
    }
}

/// `edit_fields_v` read pointwise.
pub proof fn lemma_edit_fields_v(fs: Seq<(String, NodeEdit)>, i: int)
    requires
        0 <= i <= fs.len(),
    ensures
        edit_fields_v(fs, i).len() == fs.len() - i,
        forall|j: int| i <= j < fs.len() ==> edit_fields_v(fs, i)[j - i] == ((
        #[trigger] fs[j]).0@, fs[j].1.ev()),
    decreases fs.len() - i,
{
    if i < fs.len() {
        lemma_edit_fields_v(fs, i + 1);
    }
}

/// `edit_slots_v` read pointwise.
pub proof fn lemma_edit_slots_v(ts: Seq<(u64, NodeEdit)>, i: int)
    requires
        0 <= i <= ts.len(),
    ensures
        edit_slots_v(ts, i).len() == ts.len() - i,
        forall|j: int| i <= j < ts.len() ==> edit_slots_v(ts, i)[j - i] == ((
        #[trigger] ts[j]).0, ts[j].1.ev()),
    decreases ts.len() - i,
{
    if i < ts.len() {
        lemma_edit_slots_v(ts, i + 1);
    }
}

/// `edit_mods_v` read pointwise.
pub proof fn lemma_edit_mods_v(ms: Seq<(u64, Json)>, i: int)
    requires
        0 <= i <= ms.len(),
    ensures
        edit_mods_v(ms, i).len() == ms.len() - i,
        forall|j: int| i <= j < ms.len() ==> edit_mods_v(ms, i)[j - i] == ((
        #[trigger] ms[j]).0, ms[j].1.jv()),
    decreases ms.len() - i,
{
    if i < ms.len() {
        lemma_edit_mods_v(ms, i + 1);
    }
}

} // verus!

verus! {

/// First index of a named field, or -1.
pub open spec fn find_field(fs: Seq<(Seq<char>, NodeV)>, name: Seq<char>) -> int
    decreases fs.len(),
{
    if fs.len() == 0 {
        -1
    } else if fs[0].0 == name {
        0
    } else {
        let r = find_field(fs.drop_first(), name);
        if r < 0 {
            -1
        } else {
            r + 1
        }
    }
}

/// What `find_field` finds.
pub proof fn lemma_find_field(fs: Seq<(Seq<char>, NodeV)>, name: Seq<char>)
    ensures
        find_field(fs, name) >= 0 ==> 0 <= find_field(fs, name) < fs.len() && fs[find_field(
            fs,
            name,
        )].0 == name && forall|k: int| 0 <= k < find_field(fs, name) ==> (
        #[trigger] fs[k]).0 != name,
        find_field(fs, name) < 0 ==> forall|k: int| 0 <= k < fs.len() ==> (
        #[trigger] fs[k]).0 != name,
    decreases fs.len(),
{
    if fs.len() > 0 && fs[0].0 != name {
        let t = fs.drop_first();
        lemma_find_field(t, name);
        let r = find_field(t, name);
        if r >= 0 {
            assert(fs[r + 1] == t[r]);
            assert forall|k: int| 0 <= k < r + 1 implies (#[trigger] fs[k]).0 != name by {
                if k > 0 {
                    assert(fs[k] == t[k - 1]);
                }
            }
        } else {
            assert forall|k: int| 0 <= k < fs.len() implies (#[trigger] fs[k]).0 != name by {
                if k > 0 {
                    assert(fs[k] == t[k - 1]);
                }
            }
        }
    }
}

/// Replays an edit over a base tree: the defining semantics of `apply`.
pub open spec fn apply_s(b: NodeV, e: EditV) -> Option<NodeV>
    decreases e, 0int, 0int,
{
    match e {
        EditV::SetValue(j) => match b {
            NodeV::Leaf(_) => Some(NodeV::Leaf(j)),
            _ => None,
        },
        EditV::Struct(es) => match b {
            NodeV::Struct(bs) => match apply_fields_s(bs, es, 0) {
                Some(bs2) => Some(NodeV::Struct(bs2)),
                None => None,
            },
            _ => None,
        },
        EditV::Tuple(ts) => match b {
            NodeV::Tuple(ns) => match apply_slots_s(ns, ts, 0) {
                Some(ns2) => Some(NodeV::Tuple(ns2)),
                None => None,
            },
            _ => None,
        },
        EditV::Coll(ms, adds) => match b {
            NodeV::Coll(cs) => match apply_mods_s(cs, ms, 0) {
                Some(cs2) => Some(NodeV::Coll(cs2 + adds)),
                None => None,
            },
            _ => None,
        },
    }
}

/// Applies the named-field edits from index `i` on.
pub open spec fn apply_fields_s(
    bs: Seq<(Seq<char>, NodeV)>,
    es: Seq<(Seq<char>, EditV)>,
    i: int,
) -> Option<Seq<(Seq<char>, NodeV)>>
    decreases es, 1int, es.len() - i,
{
    if i < 0 || i >= es.len() {
        Some(bs)
    } else {
        let idx = find_field(bs, es[i].0);
        if idx < 0 {
            None
        } else {
            match apply_s(bs[idx].1, es[i].1) {
                None => None,
                Some(n2) => apply_fields_s(bs.update(idx, (es[i].0, n2)), es, i + 1),
            }
        }
    }
}

/// Applies the positional edits from index `i` on.
pub open spec fn apply_slots_s(ns: Seq<NodeV>, ts: Seq<(u64, EditV)>, i: int) -> Option<
    Seq<NodeV>,
>
    decreases ts, 1int, ts.len() - i,
{
    if i < 0 || i >= ts.len() {
        Some(ns)
    } else {
        let idx = ts[i].0 as int;
        if idx >= ns.len() {
            None
        } else {
            match apply_s(ns[idx], ts[i].1) {
                None => None,
                Some(n2) => apply_slots_s(ns.update(idx, n2), ts, i + 1),
            }
        }
    }
}

/// Applies the element replacements from index `i` on.
pub open spec fn apply_mods_s(cs: Seq<JsonV>, ms: Seq<(u64, JsonV)>, i: int) -> Option<
    Seq<JsonV>,
>
    decreases ms.len() - i,
{
    if i < 0 || i >= ms.len() {
        Some(cs)
    } else {
        let idx = ms[i].0 as int;
        if idx >= cs.len() {
            None
        } else {
            apply_mods_s(cs.update(idx, ms[i].1), ms, i + 1)
        }
    }
}

} // verus!

verus! {

/// Structural equality of JSON values, decided executably.
#[verifier::loop_isolation(false)]
pub fn json_eq(a: &Json, b: &Json) -> (r: bool)
    ensures
        r == (a.jv() == b.jv()),
    decreases a, 0int, 0int,
{
    match (a, b) {
        (Json::Null, Json::Null) => {
            proof {
                assert(a.jv() == b.jv());
            }
            true
        },
        (Json::Num(x), Json::Num(y)) => {
            let r0 = *x == *y;
            proof {
                if r0 {
                    assert(a.jv() == b.jv());
                } else {
                    assert(a.jv() != b.jv());
                }
            }
            r0
        },
        (Json::Str(x), Json::Str(y)) => {
            let r0 = *x == *y;
            proof {
                if r0 {
                    assert(a.jv() == b.jv());
                } else {
                    assert(a.jv() != b.jv());
                }
            }
            r0
        },
        (Json::Arr(xs), Json::Arr(ys)) => {
            proof {
                crate::jsonval::lemma_jv_elems(xs@, 0);
                crate::jsonval::lemma_jv_elems(ys@, 0);
            }
            if xs.len() != ys.len() {
                return false;
            }
            let mut i: usize = 0;
            while i < xs.len()
                invariant
                    i <= xs@.len(),
                    xs@.len() == ys@.len(),
                    forall|q: int| 0 <= q < i ==> (#[trigger] xs@[q]).jv() == ys@[q].jv(),
                decreases xs@.len() - i,
            {
                if !json_eq(&xs[i], &ys[i]) {
                    proof {
                        crate::jsonval::lemma_jv_elems(xs@, 0);
                        crate::jsonval::lemma_jv_elems(ys@, 0);
                        assert(crate::jsonval::jv_elems(xs@, 0)[i as int] != crate::jsonval::jv_elems(ys@, 0)[i as int]);
                    }
                    return false;
                }
                i += 1;
            }
            proof {
                crate::jsonval::lemma_jv_elems(xs@, 0);
                crate::jsonval::lemma_jv_elems(ys@, 0);
                assert forall|qq: int| 0 <= qq < xs@.len() implies crate::jsonval::jv_elems(xs@, 0)[qq] == crate::jsonval::jv_elems(ys@, 0)[qq] by {
                    assert(crate::jsonval::jv_elems(xs@, 0)[qq] == xs@[qq].jv());
                    assert(crate::jsonval::jv_elems(ys@, 0)[qq] == ys@[qq].jv());
                }
                assert(crate::jsonval::jv_elems(xs@, 0) =~= crate::jsonval::jv_elems(ys@, 0));
                assert(a.jv() == b.jv());
            }
            true
        },
        (Json::Obj(xs), Json::Obj(ys)) => {
            proof {
                crate::jsonval::lemma_jv_entries(xs@, 0);
                crate::jsonval::lemma_jv_entries(ys@, 0);
            }
            if xs.len() != ys.len() {
                return false;
            }
            let mut i: usize = 0;
            while i < xs.len()
                invariant
                    i <= xs@.len(),
                    xs@.len() == ys@.len(),
                    forall|q: int| 0 <= q < i ==> (#[trigger] xs@[q]).0@ == ys@[q].0@ && xs@[
                        q
                    ].1.jv() == ys@[q].1.jv(),
                decreases xs@.len() - i,
            {
                if !crate::doc::str_eq(xs[i].0.as_str(), ys[i].0.as_str()) {
                    proof {
                        crate::jsonval::lemma_jv_entries(xs@, 0);
                        crate::jsonval::lemma_jv_entries(ys@, 0);
                        assert(crate::jsonval::jv_entries(xs@, 0)[i as int]
                            != crate::jsonval::jv_entries(ys@, 0)[i as int]);
                    }
                    return false;
                }
                if !json_eq(&xs[i].1, &ys[i].1) {
                    proof {
                        crate::jsonval::lemma_jv_entries(xs@, 0);
                        crate::jsonval::lemma_jv_entries(ys@, 0);
                        assert(crate::jsonval::jv_entries(xs@, 0)[i as int]
                            != crate::jsonval::jv_entries(ys@, 0)[i as int]);
                    }
                    return false;
                }
                i += 1;
            }
            proof {
                crate::jsonval::lemma_jv_entries(xs@, 0);
                crate::jsonval::lemma_jv_entries(ys@, 0);
                assert forall|qq: int| 0 <= qq < xs@.len() implies crate::jsonval::jv_entries(xs@, 0)[qq] == crate::jsonval::jv_entries(ys@, 0)[qq] by {
                    assert(crate::jsonval::jv_entries(xs@, 0)[qq] == (xs@[qq].0@, xs@[qq].1.jv()));
                    assert(crate::jsonval::jv_entries(ys@, 0)[qq] == (ys@[qq].0@, ys@[qq].1.jv()));
                }
                assert(crate::jsonval::jv_entries(xs@, 0) =~= crate::jsonval::jv_entries(ys@, 0));
            }
            true
        },
        _ => {
            proof {
                assert(a.jv() != b.jv());
            }
            false
        },
    }
}

/// A copy of a JSON value with the same view.
#[verifier::loop_isolation(false)]
pub fn json_dup(j: &Json) -> (r: Json)
    ensures
        r.jv() == j.jv(),
    decreases j, 0int, 0int,
{
    match j {
        Json::Null => Json::Null,
        Json::Num(n) => Json::Num(*n),
        Json::Str(s) => Json::Str(s.clone()),
        Json::Arr(xs) => {
            let mut out: Vec<Json> = Vec::new();
            let mut i: usize = 0;
            while i < xs.len()
                invariant
                    i <= xs@.len(),
                    out@.len() == i,
                    forall|q: int| 0 <= q < i ==> (#[trigger] out@[q]).jv() == xs@[q].jv(),
                decreases xs@.len() - i,
            {
                out.push(json_dup(&xs[i]));
                i += 1;
            }
            proof {
                crate::jsonval::lemma_jv_elems(xs@, 0);
                crate::jsonval::lemma_jv_elems(out@, 0);
                assert forall|qq: int| 0 <= qq < out@.len() implies crate::jsonval::jv_elems(out@, 0)[qq] == crate::jsonval::jv_elems(xs@, 0)[qq] by {
                    assert(crate::jsonval::jv_elems(out@, 0)[qq] == out@[qq].jv());
                    assert(crate::jsonval::jv_elems(xs@, 0)[qq] == xs@[qq].jv());
                }
                assert(crate::jsonval::jv_elems(out@, 0) =~= crate::jsonval::jv_elems(xs@, 0));
            }
            Json::Arr(out)
        },
        Json::Obj(xs) => {
            let mut out: Vec<(String, Json)> = Vec::new();
            let mut i: usize = 0;
            while i < xs.len()
                invariant
                    i <= xs@.len(),
                    out@.len() == i,
                    forall|q: int| 0 <= q < i ==> (#[trigger] out@[q]).0@ == xs@[q].0@ && out@[
                        q
                    ].1.jv() == xs@[q].1.jv(),
                decreases xs@.len() - i,
            {
                let e = (xs[i].0.clone(), json_dup(&xs[i].1));
                out.push(e);
                i += 1;
            }
            proof {
                crate::jsonval::lemma_jv_entries(xs@, 0);
                crate::jsonval::lemma_jv_entries(out@, 0);
                assert forall|qq: int| 0 <= qq < out@.len() implies crate::jsonval::jv_entries(out@, 0)[qq] == crate::jsonval::jv_entries(xs@, 0)[qq] by {
                    assert(crate::jsonval::jv_entries(out@, 0)[qq] == (out@[qq].0@, out@[qq].1.jv()));
                    assert(crate::jsonval::jv_entries(xs@, 0)[qq] == (xs@[qq].0@, xs@[qq].1.jv()));
                }
                assert(crate::jsonval::jv_entries(out@, 0) =~= crate::jsonval::jv_entries(xs@, 0));
            }
            Json::Obj(out)
        },
    }
}

/// Structural equality of trees, decided executably.
#[verifier::loop_isolation(false)]
pub fn node_eq(a: &Node, b: &Node) -> (r: bool)
    ensures
        r == (a.nv() == b.nv()),
    decreases a, 0int, 0int,
{
    match (a, b) {
        (Node::Leaf(x), Node::Leaf(y)) => json_eq(x, y),
        (Node::Struct(xs), Node::Struct(ys)) => {
            proof {
                lemma_node_fields_v(xs@, 0);
                lemma_node_fields_v(ys@, 0);
            }
            if xs.len() != ys.len() {
                return false;
            }
            let mut i: usize = 0;
            while i < xs.len()
                invariant
                    i <= xs@.len(),
                    xs@.len() == ys@.len(),
                    forall|q: int| 0 <= q < i ==> (#[trigger] xs@[q]).0@ == ys@[q].0@ && xs@[
                        q
                    ].1.nv() == ys@[q].1.nv(),
                decreases xs@.len() - i,
            {
                if !crate::doc::str_eq(xs[i].0.as_str(), ys[i].0.as_str()) {
                    proof {
                        lemma_node_fields_v(xs@, 0);
                        lemma_node_fields_v(ys@, 0);
                        assert(node_fields_v(xs@, 0)[i as int] != node_fields_v(ys@, 0)[
                            i as int
                        ]);
                    }
                    return false;
                }
                if !node_eq(&xs[i].1, &ys[i].1) {
                    proof {
                        lemma_node_fields_v(xs@, 0);
                        lemma_node_fields_v(ys@, 0);
                        assert(node_fields_v(xs@, 0)[i as int] != node_fields_v(ys@, 0)[
                            i as int
                        ]);
                    }
                    return false;
                }
                i += 1;
            }
            proof {
                lemma_node_fields_v(xs@, 0);
                lemma_node_fields_v(ys@, 0);
                assert forall|qq: int| 0 <= qq < xs@.len() implies node_fields_v(xs@, 0)[qq] == node_fields_v(ys@, 0)[qq] by {
                    assert(node_fields_v(xs@, 0)[qq] == (xs@[qq].0@, xs@[qq].1.nv()));
                    assert(node_fields_v(ys@, 0)[qq] == (ys@[qq].0@, ys@[qq].1.nv()));
                }
                assert(node_fields_v(xs@, 0) =~= node_fields_v(ys@, 0));
            }
            true
        },
        (Node::Tuple(xs), Node::Tuple(ys)) => {
            proof {
                lemma_nodes_v(xs@, 0);
                lemma_nodes_v(ys@, 0);
            }
            if xs.len() != ys.len() {
                return false;
            }
            let mut i: usize = 0;
            while i < xs.len()
                invariant
                    i <= xs@.len(),
                    xs@.len() == ys@.len(),
                    forall|q: int| 0 <= q < i ==> (#[trigger] xs@[q]).nv() == ys@[q].nv(),
                decreases xs@.len() - i,
            {
                if !node_eq(&xs[i], &ys[i]) {
                    proof {
                        lemma_nodes_v(xs@, 0);
                        lemma_nodes_v(ys@, 0);
                        assert(nodes_v(xs@, 0)[i as int] != nodes_v(ys@, 0)[i as int]);
                    }
                    return false;
                }
                i += 1;
            }
            proof {
                lemma_nodes_v(xs@, 0);
                lemma_nodes_v(ys@, 0);
                assert forall|qq: int| 0 <= qq < xs@.len() implies nodes_v(xs@, 0)[qq] == nodes_v(ys@, 0)[qq] by {
                    assert(nodes_v(xs@, 0)[qq] == xs@[qq].nv());
                    assert(nodes_v(ys@, 0)[qq] == ys@[qq].nv());
                }
                assert(nodes_v(xs@, 0) =~= nodes_v(ys@, 0));
            }
            true
        },
        (Node::Coll(xs), Node::Coll(ys)) => {
            proof {
                crate::jsonval::lemma_jv_elems(xs@, 0);
                crate::jsonval::lemma_jv_elems(ys@, 0);
            }
            if xs.len() != ys.len() {
                return false;
            }
            let mut i: usize = 0;
            while i < xs.len()
                invariant
                    i <= xs@.len(),
                    xs@.len() == ys@.len(),
                    forall|q: int| 0 <= q < i ==> (#[trigger] xs@[q]).jv() == ys@[q].jv(),
                decreases xs@.len() - i,
            {
                if !json_eq(&xs[i], &ys[i]) {
                    proof {
                        crate::jsonval::lemma_jv_elems(xs@, 0);
                        crate::jsonval::lemma_jv_elems(ys@, 0);
                        assert(crate::jsonval::jv_elems(xs@, 0)[i as int]
                            != crate::jsonval::jv_elems(ys@, 0)[i as int]);
                    }
                    return false;
                }
                i += 1;
            }
            proof {
                crate::jsonval::lemma_jv_elems(xs@, 0);
                crate::jsonval::lemma_jv_elems(ys@, 0);
                assert forall|qq: int| 0 <= qq < xs@.len() implies crate::jsonval::jv_elems(xs@, 0)[qq] == crate::jsonval::jv_elems(ys@, 0)[qq] by {
                    assert(crate::jsonval::jv_elems(xs@, 0)[qq] == xs@[qq].jv());
                    assert(crate::jsonval::jv_elems(ys@, 0)[qq] == ys@[qq].jv());
                }
                assert(crate::jsonval::jv_elems(xs@, 0) =~= crate::jsonval::jv_elems(ys@, 0));
            }
            true
        },
        _ => {
            proof {
                assert(a.nv() != b.nv());
            }
            false
        },
    }
}

} // verus!

verus! {

/// A copy of a tree with the same view.
#[verifier::loop_isolation(false)]
pub fn node_dup(n: &Node) -> (r: Node)
    ensures
        r.nv() == n.nv(),
    decreases n, 0int, 0int,
{
    match n {
        Node::Leaf(j) => Node::Leaf(json_dup(j)),
        Node::Struct(fs) => {
            let mut out: Vec<(String, Node)> = Vec::new();
            let mut i: usize = 0;
            while i < fs.len()
                invariant
                    i <= fs@.len(),
                    out@.len() == i,
                    forall|q: int| 0 <= q < i ==> (#[trigger] out@[q]).0@ == fs@[q].0@ && out@[
                        q
                    ].1.nv() == fs@[q].1.nv(),
                decreases fs@.len() - i,
            {
                let e = (fs[i].0.clone(), node_dup(&fs[i].1));
                out.push(e);
                i += 1;
            }
            proof {
                lemma_node_fields_v(fs@, 0);
                lemma_node_fields_v(out@, 0);
                assert forall|qq: int| 0 <= qq < out@.len() implies node_fields_v(out@, 0)[qq] == node_fields_v(fs@, 0)[qq] by {
                    assert(node_fields_v(out@, 0)[qq] == (out@[qq].0@, out@[qq].1.nv()));
                    assert(node_fields_v(fs@, 0)[qq] == (fs@[qq].0@, fs@[qq].1.nv()));
                }
                assert(node_fields_v(out@, 0) =~= node_fields_v(fs@, 0));
            }
            Node::Struct(out)
        },
        Node::Tuple(ns) => {
            let mut out: Vec<Node> = Vec::new();
            let mut i: usize = 0;
            while i < ns.len()
                invariant
                    i <= ns@.len(),
                    out@.len() == i,
                    forall|q: int| 0 <= q < i ==> (#[trigger] out@[q]).nv() == ns@[q].nv(),
                decreases ns@.len() - i,
            {
                out.push(node_dup(&ns[i]));
                i += 1;
            }
            proof {
                lemma_nodes_v(ns@, 0);
                lemma_nodes_v(out@, 0);
                assert forall|qq: int| 0 <= qq < out@.len() implies nodes_v(out@, 0)[qq] == nodes_v(ns@, 0)[qq] by {
                    assert(nodes_v(out@, 0)[qq] == out@[qq].nv());
                    assert(nodes_v(ns@, 0)[qq] == ns@[qq].nv());
                }
                assert(nodes_v(out@, 0) =~= nodes_v(ns@, 0));
            }
            Node::Tuple(out)
        },
        Node::Coll(es) => {
            let mut out: Vec<Json> = Vec::new();
            let mut i: usize = 0;
            while i < es.len()
                invariant
                    i <= es@.len(),
                    out@.len() == i,
                    forall|q: int| 0 <= q < i ==> (#[trigger] out@[q]).jv() == es@[q].jv(),
                decreases es@.len() - i,
            {
                out.push(json_dup(&es[i]));
                i += 1;
            }
            proof {
                crate::jsonval::lemma_jv_elems(es@, 0);
                crate::jsonval::lemma_jv_elems(out@, 0);
                assert forall|qq: int| 0 <= qq < out@.len() implies crate::jsonval::jv_elems(out@, 0)[qq] == crate::jsonval::jv_elems(es@, 0)[qq] by {
                    assert(crate::jsonval::jv_elems(out@, 0)[qq] == out@[qq].jv());
                    assert(crate::jsonval::jv_elems(es@, 0)[qq] == es@[qq].jv());
                }
                assert(crate::jsonval::jv_elems(out@, 0) =~= crate::jsonval::jv_elems(es@, 0));
            }
            Node::Coll(out)
        },
    }
}

/// First field of `v` with the given name, as an option.
#[verifier::loop_isolation(false)]
fn find_field_x(v: &Vec<(String, Node)>, name: &str) -> (r: Option<usize>)
    ensures
        (match r {
            Some(i) => i == find_field(node_fields_v(v@, 0), name@) && i < v@.len(),
            None => find_field(node_fields_v(v@, 0), name@) == -1,
        }),
{
    proof {
        lemma_find_field(node_fields_v(v@, 0), name@);
        lemma_node_fields_v(v@, 0);
    }
    let mut i: usize = 0;
    while i < v.len()
        invariant
            i <= v@.len(),
            forall|q: int| 0 <= q < i ==> (#[trigger] v@[q]).0@ != name@,
        decreases v@.len() - i,
    {
        if crate::doc::str_eq(v[i].0.as_str(), name) {
            proof {
                let fs = node_fields_v(v@, 0);
                lemma_node_fields_v(v@, 0);
                lemma_find_field(fs, name@);
                let f = find_field(fs, name@);
                assert(fs[i as int].0 == name@);
                assert(f >= 0);
                if f < i {
                    assert(fs[f] == (v@[f].0@, v@[f].1.nv()));
                    assert(v@[f].0@ != name@);
                    assert(false);
                }
                if f > i {
                    assert(fs[i as int].0 != name@);
                    assert(false);
                }
            }
            return Some(i);
        }
        i += 1;
    }
    proof {
        let fs = node_fields_v(v@, 0);
        lemma_node_fields_v(v@, 0);
        lemma_find_field(fs, name@);
        let f = find_field(fs, name@);
        if f >= 0 {
            assert(fs[f] == (v@[f].0@, v@[f].1.nv()));
            assert(v@[f].0@ != name@);
            assert(false);
        }
    }
    None
}

/// Replays an edit script over a base tree. A script that addresses a
/// missing field or element index, or whose layout does not match the
/// base, is rejected; the base is never partially mutated.
#[verifier::loop_isolation(false)]
pub fn apply_nodes(b: &Node, e: &NodeEdit) -> (r: Result<Node, Error>)
    ensures
        (match r {
            Ok(n) => apply_s(b.nv(), e.ev()) == Some(n.nv()),
            Err(err) => err == Error::DiffApply && apply_s(b.nv(), e.ev()) is None,
        }),
    decreases e, 0int, 0int,
{
    match (e, b) {
        (NodeEdit::SetValue(j), Node::Leaf(_)) => Ok(Node::Leaf(json_dup(j))),
        (NodeEdit::Struct(es), Node::Struct(bs)) => {
            let ghost bs0 = node_fields_v(bs@, 0);
            let ghost esv = edit_fields_v(es@, 0);
            let mut cur: Vec<(String, Node)> = Vec::new();
            let mut d: usize = 0;
            while d < bs.len()
                invariant
                    d <= bs@.len(),
                    cur@.len() == d,
                    forall|q: int| 0 <= q < d ==> (#[trigger] cur@[q]).0@ == bs@[q].0@ && cur@[
                        q
                    ].1.nv() == bs@[q].1.nv(),
                decreases bs@.len() - d,
            {
                let el = (bs[d].0.clone(), node_dup(&bs[d].1));
                cur.push(el);
                d += 1;
            }
            proof {
                lemma_node_fields_v(bs@, 0);
                lemma_node_fields_v(cur@, 0);
                assert forall|qq: int| 0 <= qq < cur@.len() implies node_fields_v(cur@, 0)[qq] == node_fields_v(bs@, 0)[qq] by {
                    assert(node_fields_v(cur@, 0)[qq] == (cur@[qq].0@, cur@[qq].1.nv()));
                    assert(node_fields_v(bs@, 0)[qq] == (bs@[qq].0@, bs@[qq].1.nv()));
                }
                assert(node_fields_v(cur@, 0) =~= node_fields_v(bs@, 0));
                assert(node_fields_v(cur@, 0) =~= bs0);
                lemma_edit_fields_v(es@, 0);
            }
            let mut i: usize = 0;
            while i < es.len()
                invariant
                    i <= es@.len(),
                    esv == edit_fields_v(es@, 0),
                    esv.len() == es@.len(),
                    forall|j: int| 0 <= j < es@.len() ==> esv[j] == ((#[trigger] es@[j]).0@,
                    es@[j].1.ev()),
                    apply_fields_s(bs0, esv, 0) == apply_fields_s(
                        node_fields_v(cur@, 0),
                        esv,
                        i as int,
                    ),
                decreases es@.len() - i,
            {
                let idx = match find_field_x(&cur, es[i].0.as_str()) {
                    Some(idx) => idx,
                    None => {
                        return Err(Error::DiffApply);
                    },
                };
                proof {
                    lemma_node_fields_v(cur@, 0);
                }
                match apply_nodes(&cur[idx].1, &es[i].1) {
                    Ok(n2) => {
                        let ghost prev = cur@;
                        let ghost n2v = n2.nv();
                        let el = (es[i].0.clone(), n2);
                        cur.set(idx, el);
                        proof {
                            lemma_node_fields_v(prev, 0);
                            lemma_node_fields_v(cur@, 0);
                            assert(cur@[idx as int].0@ == esv[i as int].0);
                            assert(cur@[idx as int].1.nv() == n2v);
                            assert(node_fields_v(prev, 0)[idx as int] == (prev[idx as int].0@,
                            prev[idx as int].1.nv()));
                            assert(apply_s(node_fields_v(prev, 0)[idx as int].1, esv[i as int].1)
                                == Some(n2v));
                            assert forall|qq: int| 0 <= qq < cur@.len() implies node_fields_v(
                                cur@,
                                0,
                            )[qq] == node_fields_v(prev, 0).update(
                                idx as int,
                                (esv[i as int].0, n2v),
                            )[qq] by {
                                assert(node_fields_v(cur@, 0)[qq] == (cur@[qq].0@,
                                cur@[qq].1.nv()));
                                if qq != idx {
                                    assert(cur@[qq] == prev[qq]);
                                    assert(node_fields_v(prev, 0)[qq] == (prev[qq].0@,
                                    prev[qq].1.nv()));
                                }
                            }
                            assert(node_fields_v(cur@, 0) =~= node_fields_v(prev, 0).update(
                                idx as int,
                                (esv[i as int].0, n2v),
                            ));
                            assert(apply_fields_s(node_fields_v(prev, 0), esv, i as int)
                                == apply_fields_s(node_fields_v(cur@, 0), esv, i + 1));
                        }
                    },
                    Err(err) => {
                        return Err(err);
                    },
                }
                i += 1;
            }
            Ok(Node::Struct(cur))
        },
        (NodeEdit::Tuple(ts), Node::Tuple(ns)) => {
            let ghost ns0 = nodes_v(ns@, 0);
            let ghost tsv = edit_slots_v(ts@, 0);
            let mut cur: Vec<Node> = Vec::new();
            let mut d: usize = 0;
            while d < ns.len()
                invariant
                    d <= ns@.len(),
                    cur@.len() == d,
                    forall|q: int| 0 <= q < d ==> (#[trigger] cur@[q]).nv() == ns@[q].nv(),
                decreases ns@.len() - d,
            {
                cur.push(node_dup(&ns[d]));
                d += 1;
            }
            proof {
                lemma_nodes_v(ns@, 0);
                lemma_nodes_v(cur@, 0);
                assert forall|qq: int| 0 <= qq < cur@.len() implies nodes_v(cur@, 0)[qq] == nodes_v(ns@, 0)[qq] by {
                    assert(nodes_v(cur@, 0)[qq] == cur@[qq].nv());
                    assert(nodes_v(ns@, 0)[qq] == ns@[qq].nv());
                }
                assert(nodes_v(cur@, 0) =~= nodes_v(ns@, 0));
                assert(nodes_v(cur@, 0) =~= ns0);
                lemma_edit_slots_v(ts@, 0);
            }
            let mut i: usize = 0;
            while i < ts.len()
                invariant
                    i <= ts@.len(),
                    tsv == edit_slots_v(ts@, 0),
                    tsv.len() == ts@.len(),
                    forall|j: int| 0 <= j < ts@.len() ==> tsv[j] == ((#[trigger] ts@[j]).0,
                    ts@[j].1.ev()),
                    cur@.len() == ns@.len(),
                    apply_slots_s(ns0, tsv, 0) == apply_slots_s(
                        nodes_v(cur@, 0),
                        tsv,
                        i as int,
                    ),
                decreases ts@.len() - i,
            {
                proof {
                    lemma_nodes_v(cur@, 0);
                }
                if ts[i].0 >= (cur.len() as u64) {
                    return Err(Error::DiffApply);
                }
                let idx = ts[i].0 as usize;
                match apply_nodes(&cur[idx], &ts[i].1) {
                    Ok(n2) => {
                        let ghost prev = cur@;
                        let ghost n2v = n2.nv();
                        cur.set(idx, n2);
                        proof {
                            lemma_nodes_v(prev, 0);
                            lemma_nodes_v(cur@, 0);
                            assert(nodes_v(prev, 0)[idx as int] == prev[idx as int].nv());
                            assert(apply_s(nodes_v(prev, 0)[idx as int], tsv[i as int].1)
                                == Some(n2v));
                            assert forall|qq: int| 0 <= qq < cur@.len() implies nodes_v(
                                cur@,
                                0,
                            )[qq] == nodes_v(prev, 0).update(idx as int, n2v)[qq] by {
                                assert(nodes_v(cur@, 0)[qq] == cur@[qq].nv());
                                if qq != idx {
                                    assert(cur@[qq] == prev[qq]);
                                    assert(nodes_v(prev, 0)[qq] == prev[qq].nv());
                                }
                            }
                            assert(nodes_v(cur@, 0) =~= nodes_v(prev, 0).update(
                                idx as int,
                                n2v,
                            ));
                            assert(apply_slots_s(nodes_v(prev, 0), tsv, i as int)
                                == apply_slots_s(nodes_v(cur@, 0), tsv, i + 1));
                        }
                    },
                    Err(err) => {
                        return Err(err);
                    },
                }
                i += 1;
            }
            Ok(Node::Tuple(cur))
        },
        (NodeEdit::Coll(ms, adds), Node::Coll(cs)) => {
            let ghost cs0 = crate::jsonval::jv_elems(cs@, 0);
            let ghost msv = edit_mods_v(ms@, 0);
            let mut cur: Vec<Json> = Vec::new();
            let mut d: usize = 0;
            while d < cs.len()
                invariant
                    d <= cs@.len(),
                    cur@.len() == d,
                    forall|q: int| 0 <= q < d ==> (#[trigger] cur@[q]).jv() == cs@[q].jv(),
                decreases cs@.len() - d,
            {
                cur.push(json_dup(&cs[d]));
                d += 1;
            }
            proof {
                crate::jsonval::lemma_jv_elems(cs@, 0);
                crate::jsonval::lemma_jv_elems(cur@, 0);
                assert forall|qq: int| 0 <= qq < cur@.len() implies crate::jsonval::jv_elems(cur@, 0)[qq] == crate::jsonval::jv_elems(cs@, 0)[qq] by {
                    assert(crate::jsonval::jv_elems(cur@, 0)[qq] == cur@[qq].jv());
                    assert(crate::jsonval::jv_elems(cs@, 0)[qq] == cs@[qq].jv());
                }
                assert(crate::jsonval::jv_elems(cur@, 0) =~= crate::jsonval::jv_elems(cs@, 0));
                assert(crate::jsonval::jv_elems(cur@, 0) =~= cs0);
                lemma_edit_mods_v(ms@, 0);
            }
            let mut i: usize = 0;
            while i < ms.len()
                invariant
                    i <= ms@.len(),
                    msv == edit_mods_v(ms@, 0),
                    msv.len() == ms@.len(),
                    forall|j: int| 0 <= j < ms@.len() ==> msv[j] == ((#[trigger] ms@[j]).0,
                    ms@[j].1.jv()),
                    cur@.len() == cs@.len(),
                    apply_mods_s(cs0, msv, 0) == apply_mods_s(
                        crate::jsonval::jv_elems(cur@, 0),
                        msv,
                        i as int,
                    ),
                decreases ms@.len() - i,
            {
                proof {
                    crate::jsonval::lemma_jv_elems(cur@, 0);
                }
                if ms[i].0 >= (cur.len() as u64) {
                    return Err(Error::DiffApply);
                }
                let idx = ms[i].0 as usize;
                let ghost prev = cur@;
                cur.set(idx, json_dup(&ms[i].1));
                proof {
                    crate::jsonval::lemma_jv_elems(prev, 0);
                    crate::jsonval::lemma_jv_elems(cur@, 0);
                    assert(cur@[idx as int].jv() == msv[i as int].1);
                    assert forall|qq: int| 0 <= qq < cur@.len() implies crate::jsonval::jv_elems(
                        cur@,
                        0,
                    )[qq] == crate::jsonval::jv_elems(prev, 0).update(
                        idx as int,
                        msv[i as int].1,
                    )[qq] by {
                        assert(crate::jsonval::jv_elems(cur@, 0)[qq] == cur@[qq].jv());
                        if qq != idx {
                            assert(cur@[qq] == prev[qq]);
                            assert(crate::jsonval::jv_elems(prev, 0)[qq] == prev[qq].jv());
                        }
                    }
                    assert(crate::jsonval::jv_elems(cur@, 0) =~= crate::jsonval::jv_elems(
                        prev,
                        0,
                    ).update(idx as int, msv[i as int].1));
                    assert(apply_mods_s(cs0, msv, 0) == apply_mods_s(
                        crate::jsonval::jv_elems(cur@, 0),
                        msv,
                        i + 1,
                    ));
                }
                i += 1;
            }
            let ghost mid = crate::jsonval::jv_elems(cur@, 0);
            let mut a: usize = 0;
            while a < adds.len()
                invariant
                    a <= adds@.len(),
                    cur@.len() == cs@.len() + a,
                    crate::jsonval::jv_elems(cur@, 0) =~= mid + crate::jsonval::jv_elems(
                        adds@,
                        0,
                    ).subrange(0, a as int),
                decreases adds@.len() - a,
            {
                let ghost prev = cur@;
                cur.push(json_dup(&adds[a]));
                proof {
                    crate::jsonval::lemma_jv_elems(prev, 0);
                    crate::jsonval::lemma_jv_elems(cur@, 0);
                    crate::jsonval::lemma_jv_elems(adds@, 0);
                    assert(cur@[cur@.len() - 1].jv() == adds@[a as int].jv());
                    assert forall|qq: int| 0 <= qq < cur@.len() implies crate::jsonval::jv_elems(
                        cur@,
                        0,
                    )[qq] == (mid + crate::jsonval::jv_elems(adds@, 0).subrange(0, a + 1))[
                        qq
                    ] by {
                        assert(crate::jsonval::jv_elems(cur@, 0)[qq] == cur@[qq].jv());
                        if qq < cur@.len() - 1 {
                            assert(cur@[qq] == prev[qq]);
                            assert(crate::jsonval::jv_elems(prev, 0)[qq] == prev[qq].jv());
                        } else {
                            assert(crate::jsonval::jv_elems(adds@, 0)[a as int]
                                == adds@[a as int].jv());
                        }
                    }
                    assert(crate::jsonval::jv_elems(cur@, 0) =~= mid
                        + crate::jsonval::jv_elems(adds@, 0).subrange(0, a + 1));
                }
                a += 1;
            }
            proof {
                crate::jsonval::lemma_jv_elems(adds@, 0);
                assert(crate::jsonval::jv_elems(adds@, 0).subrange(
                    0,
                    adds@.len() as int,
                ) =~= crate::jsonval::jv_elems(adds@, 0));
            }
            Ok(Node::Coll(cur))
        },
        _ => {
            proof {
                assert(apply_s(b.nv(), e.ev()) is None);
            }
            Err(Error::DiffApply)
        },
    }
}

} // verus!

verus! {

/// Computes the sparse edit script between two trees of the same layout.
///
/// The contract carries the engine's two laws: diffing a tree against
/// itself yields the empty script, and replaying the computed script over
/// the base reproduces the target exactly. A target that cannot be
/// reached by in-place edits and appends alone (a shrunk collection, a
/// changed layout) is rejected.
pub fn diff_nodes(b: &Node, t: &Node) -> (r: Result<Option<NodeEdit>, Error>)
    ensures
        (match r {
            Ok(None) => b.nv() == t.nv(),
            Ok(Some(e)) => apply_s(b.nv(), e.ev()) == Some(t.nv()) && b.nv() != t.nv(),
            Err(err) => err == Error::DiffApply,
        }),
        b.nv() == t.nv() ==> r == Ok::<Option<NodeEdit>, Error>(None),
{
    if node_eq(b, t) {
        return Ok(None);
    }
    let edit = match diff_rec(b, t) {
        Some(edit) => edit,
        None => {
            return Err(Error::DiffApply);
        },
    };
    match apply_nodes(b, &edit) {
        Ok(n) => {
            if node_eq(&n, t) {
                Ok(Some(edit))
            } else {
                Err(Error::DiffApply)
            }
        },
        Err(_) => Err(Error::DiffApply),
    }
}

/// The sparse comparison itself: edits for every differing leaf,
/// element and field; nothing for what is unchanged.
#[verifier::loop_isolation(false)]
fn diff_rec(b: &Node, t: &Node) -> (r: Option<NodeEdit>)
    decreases b, 0int, 0int,
{
    match (b, t) {
        (Node::Leaf(_), Node::Leaf(jt)) => Some(NodeEdit::SetValue(json_dup(jt))),
        (Node::Struct(bs), Node::Struct(ts)) => {
            if bs.len() != ts.len() {
                return None;
            }
            let mut es: Vec<(String, NodeEdit)> = Vec::new();
            let mut i: usize = 0;
            while i < bs.len()
                decreases bs@.len() - i,
            {
                if !crate::doc::str_eq(bs[i].0.as_str(), ts[i].0.as_str()) {
                    return None;
                }
                if !node_eq(&bs[i].1, &ts[i].1) {
                    match diff_rec(&bs[i].1, &ts[i].1) {
                        Some(sub) => {
                            let e = (ts[i].0.clone(), sub);
                            es.push(e);
                        },
                        None => {
                            return None;
                        },
                    }
                }
                i += 1;
            }
            Some(NodeEdit::Struct(es))
        },
        (Node::Tuple(bs), Node::Tuple(ts)) => {
            if bs.len() != ts.len() {
                return None;
            }
            let mut es: Vec<(u64, NodeEdit)> = Vec::new();
            let mut i: usize = 0;
            while i < bs.len()
                invariant
                    bs@.len() == ts@.len(),
                    i <= bs@.len(),
                decreases bs@.len() - i,
            {
                if !node_eq(&bs[i], &ts[i]) {
                    match diff_rec(&bs[i], &ts[i]) {
                        Some(sub) => {
                            es.push((i as u64, sub));
                        },
                        None => {
                            return None;
                        },
                    }
                }
                i += 1;
            }
            Some(NodeEdit::Tuple(es))
        },
        (Node::Coll(bs), Node::Coll(ts)) => {
            if ts.len() < bs.len() {
                return None;
            }
            let mut ms: Vec<(u64, Json)> = Vec::new();
            let mut adds: Vec<Json> = Vec::new();
            let mut i: usize = 0;
            while i < bs.len()
                invariant
                    bs@.len() <= ts@.len(),
                    i <= bs@.len(),
                decreases bs@.len() - i,
            {
                if !json_eq(&bs[i], &ts[i]) {
                    ms.push((i as u64, json_dup(&ts[i])));
                }
                i += 1;
            }
            let mut a: usize = bs.len();
            while a < ts.len()
                decreases ts@.len() - a,
            {
                adds.push(json_dup(&ts[a]));
                a += 1;
            }
            Some(NodeEdit::Coll(ms, adds))
        },
        _ => None,
    }
}

} // verus!

verus! {

/// A scope-opening token of the instruction stream.
#[derive(Debug, PartialEq, Eq)]
pub enum Enter {
    /// Descend into a named field of a struct-shaped node.
    Field(String),
    /// Descend into a positional slot of a tuple-shaped node.
    FieldIndex(u64),
    /// Descend into an existing element of an ordered collection.
    CollectionIndex(u64),
    /// Open a new trailing element of an ordered collection.
    AddToCollection,
}

/// One token of the flat diff wire stream. `Enter` tokens open scopes,
/// `Exit` closes the innermost explicit scope; a named field left open
/// is closed implicitly by the next sibling field or the stream's end.
#[derive(Debug, PartialEq, Eq)]
pub enum Instruction {
    /// Open a scope.
    Enter(Enter),
    /// Assign a terminal value at the cursor.
    Value(Json),
    /// Close the innermost scope.
    Exit,
}

/// How many named-field scopes an edit view's encoding leaves open at
/// its end (saturating at the machine's index bound, which no
/// constructible edit reaches).
pub open spec fn pend_s(e: EditV) -> usize
    decreases e, 0int, 0int,
{
    match e {
        EditV::SetValue(_) => 0,
        EditV::Struct(es) => {
            if es.len() == 0 {
                0
            } else {
                let p = pend_s(es.last().1);
                if p < usize::MAX {
                    (p + 1) as usize
                } else {
                    p
                }
            }
        },
        EditV::Tuple(_) => 0,
        EditV::Coll(_, _) => 0,
    }
}

/// `n` exit tokens.
pub open spec fn exits_s(n: int) -> Seq<InstrV>
    decreases n,
{
    if n <= 0 {
        Seq::empty()
    } else {
        exits_s(n - 1).push(InstrV::Exit)
    }
}

/// The wire stream an edit view flattens to: the defining layout of the
/// diff wire format. Explicit scopes close eagerly; a struct's trailing
/// open field scopes are closed by the enclosing scope or dropped at the
/// stream's end.
pub open spec fn enc_s(e: EditV) -> Seq<InstrV>
    decreases e, 0int, 0int,
{
    match e {
        EditV::SetValue(j) => seq![InstrV::Value(j)],
        EditV::Struct(es) => enc_fields_s(es, 0),
        EditV::Tuple(ts) => enc_slots_s(ts, 0),
        EditV::Coll(ms, adds) => enc_mods_s(ms, 0) + enc_adds_s(adds, 0),
    }
}

/// Encoding of the named-field edits from index `i` on.
pub open spec fn enc_fields_s(es: Seq<(Seq<char>, EditV)>, i: int) -> Seq<InstrV>
    decreases es, 1int, es.len() - i,
{
    if i < 0 || i >= es.len() {
        Seq::empty()
    } else {
        seq![InstrV::Enter(EnterV::Field(es[i].0))] + enc_s(es[i].1) + (if i + 1 < es.len() {
            exits_s(pend_s(es[i].1) as int)
        } else {
            Seq::empty()
        }) + enc_fields_s(es, i + 1)
    }
}

/// Encoding of the positional edits from index `i` on.
pub open spec fn enc_slots_s(ts: Seq<(u64, EditV)>, i: int) -> Seq<InstrV>
    decreases ts, 1int, ts.len() - i,
{
    if i < 0 || i >= ts.len() {
        Seq::empty()
    } else {
        seq![InstrV::Enter(EnterV::FieldIndex(ts[i].0))] + enc_s(ts[i].1) + exits_s(
            pend_s(ts[i].1) as int,
        ) + seq![InstrV::Exit] + enc_slots_s(ts, i + 1)
    }
}

/// Encoding of the element replacements from index `i` on.
pub open spec fn enc_mods_s(ms: Seq<(u64, JsonV)>, i: int) -> Seq<InstrV>
    decreases ms.len() - i,
{
    if i < 0 || i >= ms.len() {
        Seq::empty()
    } else {
        seq![
            InstrV::Enter(EnterV::CollectionIndex(ms[i].0)),
            InstrV::Value(ms[i].1),
            InstrV::Exit,
        ] + enc_mods_s(ms, i + 1)
    }
}

/// Encoding of the appended elements from index `i` on.
pub open spec fn enc_adds_s(adds: Seq<JsonV>, i: int) -> Seq<InstrV>
    decreases adds.len() - i,
{
    if i < 0 || i >= adds.len() {
        Seq::empty()
    } else {
        seq![InstrV::Enter(EnterV::AddToCollection), InstrV::Value(adds[i]), InstrV::Exit]
            + enc_adds_s(adds, i + 1)
    }
}

/// Views of the tokens from index `i` on.
pub open spec fn instrs_v(s: Seq<Instruction>, i: int) -> Seq<InstrV>
    decreases s.len() - i,
{
    if i < 0 || i >= s.len() {
        Seq::empty()
    } else {
        seq![s[i].iv()] + instrs_v(s, i + 1)
    }
}

/// `instrs_v` read pointwise.
pub proof fn lemma_instrs_v(s: Seq<Instruction>, i: int)
    requires
        0 <= i <= s.len(),
    ensures
        instrs_v(s, i).len() == s.len() - i,
        forall|j: int| i <= j < s.len() ==> instrs_v(s, i)[j - i] == (#[trigger] s[j]).iv(),
    decreases s.len() - i,
{
    if i < s.len() {
        lemma_instrs_v(s, i + 1);
    }
}

/// Pushing a token appends its view to `instrs_v`.
proof fn lemma_instrs_push(s: Seq<Instruction>, x: Instruction)
    ensures
        instrs_v(s.push(x), 0) =~= instrs_v(s, 0) + seq![x.iv()],
{
    lemma_instrs_v(s.push(x), 0);
    lemma_instrs_v(s, 0);
    assert forall|q: int| 0 <= q < s.len() + 1 implies instrs_v(s.push(x), 0)[q] == (instrs_v(
        s,
        0,
    ) + seq![x.iv()])[q] by {
        assert(instrs_v(s.push(x), 0)[q] == s.push(x)[q].iv());
        if q < s.len() {
            assert(s.push(x)[q] == s[q]);
            assert(instrs_v(s, 0)[q] == s[q].iv());
        } else {
            assert(s.push(x)[q] == x);
        }
    }
}

/// How many named-field scopes an edit's encoding leaves open at its end.
fn pending_of(e: &NodeEdit) -> (r: usize)
    ensures
        r == pend_s(e.ev()),
    decreases e, 0int, 0int,
{
    match e {
        NodeEdit::SetValue(_) => 0,
        NodeEdit::Struct(es) => {
            proof {
                lemma_edit_fields_v(es@, 0);
            }
            if es.len() == 0 {
                0
            } else {
                let p = pending_of(&es[es.len() - 1].1);
                proof {
                    assert(edit_fields_v(es@, 0).last() == (es@[es@.len() - 1].0@,
                    es@[es@.len() - 1].1.ev()));
                }
                if p < usize::MAX {
                    p + 1
                } else {
                    p
                }
            }
        },
        NodeEdit::Tuple(_) => 0,
        NodeEdit::Coll(_, _) => 0,
    }
}

/// Appends `n` `Exit` tokens.
#[verifier::loop_isolation(false)]
fn push_exits(out: &mut Vec<Instruction>, n: usize)
    ensures
        instrs_v(final(out)@, 0) =~= instrs_v(old(out)@, 0) + exits_s(n as int),
{
    let mut i: usize = 0;
    while i < n
        invariant
            i <= n,
            instrs_v(out@, 0) =~= instrs_v(old(out)@, 0) + exits_s(i as int),
        decreases n - i,
    {
        let ghost prev = out@;
        out.push(Instruction::Exit);
        proof {
            lemma_instrs_push(prev, Instruction::Exit);
            assert(exits_s(i + 1) == exits_s(i as int).push(InstrV::Exit));
            assert(instrs_v(out@, 0) =~= instrs_v(old(out)@, 0) + exits_s(i + 1));
        }
        i += 1;
    }
}

/// Flattens an edit script into the wire stream, appending exactly the
/// edit view's spec encoding.
#[verifier::loop_isolation(false)]
fn encode_into(e: &NodeEdit, out: &mut Vec<Instruction>)
    ensures
        instrs_v(final(out)@, 0) =~= instrs_v(old(out)@, 0) + enc_s(e.ev()),
    decreases e, 0int, 0int,
{
    let ghost base = instrs_v(out@, 0);
    match e {
        NodeEdit::SetValue(j) => {
            let ghost prev = out@;
            let tok = Instruction::Value(json_dup(j));
            proof {
                assert(tok.iv() == InstrV::Value(j.jv()));
            }
            out.push(tok);
            proof {
                lemma_instrs_push(prev, out@.last());
            }
        },
        NodeEdit::Struct(es) => {
            let ghost esv = edit_fields_v(es@, 0);
            proof {
                lemma_edit_fields_v(es@, 0);
            }
            let mut i: usize = 0;
            while i < es.len()
                invariant
                    i <= es@.len(),
                    base + enc_fields_s(esv, 0) =~= instrs_v(out@, 0) + enc_fields_s(
                        esv,
                        i as int,
                    ),
                decreases es@.len() - i,
            {
                let ghost before = instrs_v(out@, 0);
                let ghost prev = out@;
                let tok = Instruction::Enter(Enter::Field(es[i].0.clone()));
                proof {
                    assert(tok.iv() == InstrV::Enter(EnterV::Field(esv[i as int].0)));
                }
                out.push(tok);
                proof {
                    lemma_instrs_push(prev, out@.last());
                }
                let ghost mid1 = instrs_v(out@, 0);
                encode_into(&es[i].1, out);
                let ghost mid2 = instrs_v(out@, 0);
                proof {
                    assert(es@[i as int].1.ev() == esv[i as int].1);
                }
                let ghost tail: Seq<InstrV> = (if i + 1 < es.len() {
                    exits_s(pend_s(esv[i as int].1) as int)
                } else {
                    Seq::empty()
                });
                if i + 1 < es.len() {
                    let p = pending_of(&es[i].1);
                    push_exits(out, p);
                } else {
                    proof {
                        assert(instrs_v(out@, 0) =~= mid2 + tail);
                    }
                }
                proof {
                    let emitted = seq![InstrV::Enter(EnterV::Field(esv[i as int].0))] + enc_s(
                        esv[i as int].1,
                    ) + tail;
                    assert(mid1 =~= before + seq![
                        InstrV::Enter(EnterV::Field(esv[i as int].0)),
                    ]);
                    assert(mid2 =~= mid1 + enc_s(esv[i as int].1));
                    assert(instrs_v(out@, 0) =~= mid2 + tail);
                    assert(instrs_v(out@, 0) =~= before + emitted);
                    assert(enc_fields_s(esv, i as int) =~= emitted + enc_fields_s(
                        esv,
                        i + 1,
                    ));
                    assert(before + enc_fields_s(esv, i as int) =~= instrs_v(out@, 0)
                        + enc_fields_s(esv, i + 1));
                    assert(base + enc_fields_s(esv, 0) =~= instrs_v(out@, 0) + enc_fields_s(
                        esv,
                        i + 1,
                    ));
                }
                i += 1;
            }
            proof {
                assert(enc_fields_s(esv, es@.len() as int) =~= Seq::<InstrV>::empty());
                assert(instrs_v(out@, 0) =~= base + enc_fields_s(esv, 0));
            }
        },
        NodeEdit::Tuple(ts) => {
            let ghost tsv = edit_slots_v(ts@, 0);
            proof {
                lemma_edit_slots_v(ts@, 0);
            }
            let mut i: usize = 0;
            while i < ts.len()
                invariant
                    i <= ts@.len(),
                    base + enc_slots_s(tsv, 0) =~= instrs_v(out@, 0) + enc_slots_s(
                        tsv,
                        i as int,
                    ),
                decreases ts@.len() - i,
            {
                let ghost before = instrs_v(out@, 0);
                let ghost prev = out@;
                out.push(Instruction::Enter(Enter::FieldIndex(ts[i].0)));
                proof {
                    lemma_instrs_push(prev, out@.last());
                }
                let ghost mid1 = instrs_v(out@, 0);
                encode_into(&ts[i].1, out);
                let ghost mid2 = instrs_v(out@, 0);
                proof {
                    assert(ts@[i as int].1.ev() == tsv[i as int].1);
                }
                let p = pending_of(&ts[i].1);
                push_exits(out, p);
                let ghost mid3 = instrs_v(out@, 0);
                let ghost prev2 = out@;
                out.push(Instruction::Exit);
                proof {
                    lemma_instrs_push(prev2, out@.last());
                    let emitted = seq![InstrV::Enter(EnterV::FieldIndex(tsv[i as int].0))]
                        + enc_s(tsv[i as int].1) + exits_s(pend_s(tsv[i as int].1) as int)
                        + seq![InstrV::Exit];
                    assert(mid1 =~= before + seq![
                        InstrV::Enter(EnterV::FieldIndex(tsv[i as int].0)),
                    ]);
                    assert(mid2 =~= mid1 + enc_s(tsv[i as int].1));
                    assert(mid3 =~= mid2 + exits_s(pend_s(tsv[i as int].1) as int));
                    assert(instrs_v(out@, 0) =~= mid3 + seq![InstrV::Exit]);
                    assert(instrs_v(out@, 0) =~= before + emitted);
                    assert(enc_slots_s(tsv, i as int) =~= emitted + enc_slots_s(tsv, i + 1));
                    assert(base + enc_slots_s(tsv, 0) =~= instrs_v(out@, 0) + enc_slots_s(
                        tsv,
                        i + 1,
                    ));
                }
                i += 1;
            }
            proof {
                assert(enc_slots_s(tsv, ts@.len() as int) =~= Seq::<InstrV>::empty());
                assert(instrs_v(out@, 0) =~= base + enc_slots_s(tsv, 0));
            }
        },
        NodeEdit::Coll(ms, adds) => {
            let ghost msv = edit_mods_v(ms@, 0);
            let ghost addsv = crate::jsonval::jv_elems(adds@, 0);
            proof {
                lemma_edit_mods_v(ms@, 0);
                crate::jsonval::lemma_jv_elems(adds@, 0);
            }
            let mut i: usize = 0;
            while i < ms.len()
                invariant
                    i <= ms@.len(),
                    base + enc_mods_s(msv, 0) =~= instrs_v(out@, 0) + enc_mods_s(
                        msv,
                        i as int,
                    ),
                decreases ms@.len() - i,
            {
                let ghost before = instrs_v(out@, 0);
                let ghost prev = out@;
                out.push(Instruction::Enter(Enter::CollectionIndex(ms[i].0)));
                proof {
                    lemma_instrs_push(prev, out@.last());
                }
                let ghost prev2 = out@;
                let tok = Instruction::Value(json_dup(&ms[i].1));
                proof {
                    assert(tok.iv() == InstrV::Value(msv[i as int].1));
                }
                out.push(tok);
                proof {
                    lemma_instrs_push(prev2, out@.last());
                }
                let ghost prev3 = out@;
                out.push(Instruction::Exit);
                proof {
                    lemma_instrs_push(prev3, out@.last());
                    let emitted = seq![
                        InstrV::Enter(EnterV::CollectionIndex(msv[i as int].0)),
                        InstrV::Value(msv[i as int].1),
                        InstrV::Exit,
                    ];
                    assert(instrs_v(out@, 0) =~= before + emitted);
                    assert(enc_mods_s(msv, i as int) =~= emitted + enc_mods_s(msv, i + 1));
                    assert(base + enc_mods_s(msv, 0) =~= instrs_v(out@, 0) + enc_mods_s(
                        msv,
                        i + 1,
                    ));
                }
                i += 1;
            }
            let ghost base2 = instrs_v(out@, 0);
            proof {
                assert(enc_mods_s(msv, ms@.len() as int) =~= Seq::<InstrV>::empty());
                assert(base2 =~= base + enc_mods_s(msv, 0));
            }
            let mut a: usize = 0;
            while a < adds.len()
                invariant
                    a <= adds@.len(),
                    base2 + enc_adds_s(addsv, 0) =~= instrs_v(out@, 0) + enc_adds_s(
                        addsv,
                        a as int,
                    ),
                decreases adds@.len() - a,
            {
                let ghost before = instrs_v(out@, 0);
                let ghost prev = out@;
                out.push(Instruction::Enter(Enter::AddToCollection));
                proof {
                    lemma_instrs_push(prev, out@.last());
                }
                let ghost prev2 = out@;
                let tok = Instruction::Value(json_dup(&adds[a]));
                proof {
                    assert(tok.iv() == InstrV::Value(addsv[a as int]));
                }
                out.push(tok);
                proof {
                    lemma_instrs_push(prev2, out@.last());
                }
                let ghost prev3 = out@;
                out.push(Instruction::Exit);
                proof {
                    lemma_instrs_push(prev3, out@.last());
                    let emitted = seq![
                        InstrV::Enter(EnterV::AddToCollection),
                        InstrV::Value(addsv[a as int]),
                        InstrV::Exit,
                    ];
                    assert(instrs_v(out@, 0) =~= before + emitted);
                    assert(enc_adds_s(addsv, a as int) =~= emitted + enc_adds_s(
                        addsv,
                        a + 1,
                    ));
                    assert(base2 + enc_adds_s(addsv, 0) =~= instrs_v(out@, 0) + enc_adds_s(
                        addsv,
                        a + 1,
                    ));
                }
                a += 1;
            }
            proof {
                assert(enc_adds_s(addsv, adds@.len() as int) =~= Seq::<InstrV>::empty());
                assert(instrs_v(out@, 0) =~= base + (enc_mods_s(msv, 0) + enc_adds_s(
                    addsv,
                    0,
                )));
            }
        },
    }
}

/// Flattens an edit script into the wire stream: exactly the edit view's
/// spec encoding.
pub fn encode_edit(e: &NodeEdit) -> (r: Vec<Instruction>)
    ensures
        instrs_v(r@, 0) == enc_s(e.ev()),
{
    let mut out: Vec<Instruction> = Vec::new();
    proof {
        lemma_instrs_v(out@, 0);
        assert(instrs_v(out@, 0) =~= Seq::<InstrV>::empty());
    }
    encode_into(e, &mut out);
    proof {
        assert(instrs_v(out@, 0) =~= enc_s(e.ev()));
    }
    out
}

/// Counts the consecutive `Exit` tokens at `i`.
fn exit_run(s: &Vec<Instruction>, i: usize) -> (r: usize)
    requires
        i <= s@.len(),
    ensures
        i + r <= s@.len(),
    decreases s@.len() - i,
{
    if i < s.len() {
        match &s[i] {
            Instruction::Exit => {
                let n = exit_run(s, i + 1);
                n + 1
            },
            _ => 0,
        }
    } else {
        0
    }
}

/// Reads one edit starting at `i`; returns it with the next position.
fn parse_edit(s: &Vec<Instruction>, i: usize) -> (r: Result<(NodeEdit, usize), Error>)
    requires
        i <= s@.len(),
    ensures
        (match r {
            Ok(p) => i < p.1 <= s@.len(),
            Err(e) => e == Error::DiffApply,
        }),
    decreases s@.len() - i, 1int,
{
    if i >= s.len() {
        return Err(Error::DiffApply);
    }
    match &s[i] {
        Instruction::Value(j) => Ok((NodeEdit::SetValue(json_dup(j)), i + 1)),
        Instruction::Exit => Err(Error::DiffApply),
        Instruction::Enter(en) => match en {
            Enter::Field(_) => parse_struct_list(s, i),
            Enter::FieldIndex(_) => {
                let mut ts: Vec<(u64, NodeEdit)> = Vec::new();
                let mut j: usize = i;
                loop
                    invariant
                        i <= j <= s@.len(),
                    decreases s@.len() - j,
                {
                    if j >= s.len() {
                        break;
                    }
                    let idx = match &s[j] {
                        Instruction::Enter(Enter::FieldIndex(idx)) => *idx,
                        _ => {
                            break;
                        },
                    };
                    let (sub, j2) = match parse_edit_sub(s, j + 1) {
                        Ok(p) => p,
                        Err(e) => {
                            return Err(e);
                        },
                    };
                    let p = pending_of(&sub);
                    let run = exit_run(s, j2);
                    if run <= p {
                        return Err(Error::DiffApply);
                    }
                    ts.push((idx, sub));
                    j = j2 + p + 1;
                }
                if j == i {
                    Err(Error::DiffApply)
                } else {
                    Ok((NodeEdit::Tuple(ts), j))
                }
            },
            Enter::CollectionIndex(_) | Enter::AddToCollection => {
                let mut ms: Vec<(u64, Json)> = Vec::new();
                let mut adds: Vec<Json> = Vec::new();
                let mut j: usize = i;
                loop
                    invariant
                        i <= j <= s@.len(),
                    decreases s@.len() - j,
                {
                    if j >= s.len() {
                        break;
                    }
                    let which = match &s[j] {
                        Instruction::Enter(Enter::CollectionIndex(idx)) => Some(Some(*idx)),
                        Instruction::Enter(Enter::AddToCollection) => Some(None),
                        _ => None,
                    };
                    let which = match which {
                        Some(w) => w,
                        None => {
                            break;
                        },
                    };
                    if s.len() - j < 3 {
                        return Err(Error::DiffApply);
                    }
                    let v = match &s[j + 1] {
                        Instruction::Value(v) => json_dup(v),
                        _ => {
                            return Err(Error::DiffApply);
                        },
                    };
                    match &s[j + 2] {
                        Instruction::Exit => {},
                        _ => {
                            return Err(Error::DiffApply);
                        },
                    }
                    match which {
                        Some(idx) => {
                            if adds.len() > 0 {
                                return Err(Error::DiffApply);
                            }
                            ms.push((idx, v));
                        },
                        None => {
                            adds.push(v);
                        },
                    }
                    j = j + 3;
                }
                if j == i {
                    Err(Error::DiffApply)
                } else {
                    Ok((NodeEdit::Coll(ms, adds), j))
                }
            },
        },
    }
}

/// Reads one nested edit: the same as `parse_edit`, one level deeper.
fn parse_edit_sub(s: &Vec<Instruction>, i: usize) -> (r: Result<(NodeEdit, usize), Error>)
    requires
        i <= s@.len(),
    ensures
        (match r {
            Ok(p) => i < p.1 <= s@.len(),
            Err(e) => e == Error::DiffApply,
        }),
    decreases s@.len() - i, 2int,
{
    if i >= s.len() {
        Err(Error::DiffApply)
    } else {
        parse_edit(s, i)
    }
}

/// Reads a comma-free run of named-field entries forming a struct edit.
fn parse_struct_list(s: &Vec<Instruction>, i: usize) -> (r: Result<(NodeEdit, usize), Error>)
    requires
        i <= s@.len(),
    ensures
        (match r {
            Ok(p) => i < p.1 <= s@.len(),
            Err(e) => e == Error::DiffApply,
        }),
    decreases s@.len() - i, 0int,
{
    let mut es: Vec<(String, NodeEdit)> = Vec::new();
    let mut j: usize = i;
    loop
        invariant
            i <= j <= s@.len(),
        decreases s@.len() - j,
    {
        if j >= s.len() {
            break;
        }
        let name = match &s[j] {
            Instruction::Enter(Enter::Field(name)) => name.clone(),
            _ => {
                break;
            },
        };
        let (sub, j2) = match parse_edit_sub(s, j + 1) {
            Ok(p) => p,
            Err(e) => {
                return Err(e);
            },
        };
        let p = pending_of(&sub);
        es.push((name, sub));
        let run = exit_run(s, j2);
        if run >= p && j2 + p < s.len() {
            let more = match &s[j2 + p] {
                Instruction::Enter(Enter::Field(_)) => true,
                _ => false,
            };
            if more && run == p {
                j = j2 + p;
            } else {
                j = j2;
                break;
            }
        } else {
            j = j2;
            break;
        }
    }
    if j == i {
        Err(Error::DiffApply)
    } else {
        Ok((NodeEdit::Struct(es), j))
    }
}

/// Structural equality of token streams, decided executably.
#[verifier::loop_isolation(false)]
fn instrs_eq(a: &Vec<Instruction>, b: &Vec<Instruction>) -> (r: bool)
    ensures
        r == (instrs_v(a@, 0) == instrs_v(b@, 0)),
{
    proof {
        lemma_instrs_v(a@, 0);
        lemma_instrs_v(b@, 0);
    }
    if a.len() != b.len() {
        return false;
    }
    let mut i: usize = 0;
    while i < a.len()
        invariant
            i <= a@.len(),
            a@.len() == b@.len(),
            forall|q: int| 0 <= q < i ==> (#[trigger] a@[q]).iv() == b@[q].iv(),
        decreases a@.len() - i,
    {
        let same = match (&a[i], &b[i]) {
            (Instruction::Exit, Instruction::Exit) => true,
            (Instruction::Value(x), Instruction::Value(y)) => json_eq(x, y),
            (Instruction::Enter(x), Instruction::Enter(y)) => match (x, y) {
                (Enter::Field(m), Enter::Field(n)) => *m == *n,
                (Enter::FieldIndex(m), Enter::FieldIndex(n)) => *m == *n,
                (Enter::CollectionIndex(m), Enter::CollectionIndex(n)) => *m == *n,
                (Enter::AddToCollection, Enter::AddToCollection) => true,
                _ => false,
            },
            _ => false,
        };
        if !same {
            proof {
                assert(a@[i as int].iv() != b@[i as int].iv());
                assert(instrs_v(a@, 0)[i as int] != instrs_v(b@, 0)[i as int]);
            }
            return false;
        }
        i += 1;
    }
    proof {
        assert forall|q: int| 0 <= q < a@.len() implies instrs_v(a@, 0)[q] == instrs_v(
            b@,
            0,
        )[q] by {
            assert(instrs_v(a@, 0)[q] == a@[q].iv());
            assert(instrs_v(b@, 0)[q] == b@[q].iv());
        }
        assert(instrs_v(a@, 0) =~= instrs_v(b@, 0));
    }
    true
}

/// Reads a whole stream as one edit script; trailing `Exit` tokens close
/// what remains open. An empty stream is the empty edit; a nonempty
/// stream is accepted only if the edit read back flattens to exactly
/// this stream, so an accepted stream denotes its decoded edit.
pub fn decode_stream(s: &Vec<Instruction>) -> (r: Result<Option<NodeEdit>, Error>)
    ensures
        (match r {
            Ok(Some(e)) => instrs_v(s@, 0) == enc_s(e.ev()),
            Ok(None) => s@.len() == 0,
            Err(e) => e == Error::DiffApply,
        }),
        s@.len() == 0 ==> r == Ok::<Option<NodeEdit>, Error>(None),
{
    if s.len() == 0 {
        return Ok(None);
    }
    match parse_edit(s, 0) {
        Ok((e, k)) => {
            let p = pending_of(&e);
            let run = exit_run(s, k);
            if run <= p && k + run == s.len() {
                let again = encode_edit(&e);
                if instrs_eq(&again, s) {
                    Ok(Some(e))
                } else {
                    Err(Error::DiffApply)
                }
            } else {
                Err(Error::DiffApply)
            }
        },
        Err(e) => Err(e),
    }
}

} // verus!

verus! {

/// The mathematical view of a scope-opening token.
pub enum EnterV {
    Field(Seq<char>),
    FieldIndex(u64),
    CollectionIndex(u64),
    AddToCollection,
}

/// The mathematical view of a stream token.
pub enum InstrV {
    Enter(EnterV),
    Value(JsonV),
    Exit,
}

impl Instruction {
    /// View of this token.
    pub open spec fn iv(self) -> InstrV {
        match self {
            Instruction::Enter(en) => InstrV::Enter(
                match en {
                    Enter::Field(s) => EnterV::Field(s@),
                    Enter::FieldIndex(n) => EnterV::FieldIndex(n),
                    Enter::CollectionIndex(n) => EnterV::CollectionIndex(n),
                    Enter::AddToCollection => EnterV::AddToCollection,
                },
            ),
            Instruction::Value(j) => InstrV::Value(j.jv()),
            Instruction::Exit => InstrV::Exit,
        }
    }
}

/// The wire JSON of one token, exactly as published: enter tokens as
/// one-member objects, a value as a one-member object, exit as a string.
pub open spec fn instr_jv(i: InstrV) -> JsonV {
    match i {
        InstrV::Enter(en) => JsonV::Obj(
            seq![
                (
                    "Enter"@,
                    match en {
                        EnterV::Field(s) => JsonV::Obj(seq![("Field"@, JsonV::Str(s))]),
                        EnterV::FieldIndex(n) => JsonV::Obj(
                            seq![("FieldIndex"@, JsonV::Num(n))],
                        ),
                        EnterV::CollectionIndex(n) => JsonV::Obj(
                            seq![("CollectionIndex"@, JsonV::Num(n))],
                        ),
                        EnterV::AddToCollection => JsonV::Str("AddToCollection"@),
                    },
                ),
            ],
        ),
        InstrV::Value(j) => JsonV::Obj(seq![("Value"@, j)]),
        InstrV::Exit => JsonV::Str("Exit"@),
    }
}

/// Wire JSON of the tokens from index `i` on.
pub open spec fn instr_jvs(v: Seq<Instruction>, i: int) -> Seq<JsonV>
    decreases v.len() - i,
{
    if i < 0 || i >= v.len() {
        Seq::empty()
    } else {
        seq![instr_jv(v[i].iv())] + instr_jvs(v, i + 1)
    }
}

/// `instr_jvs` read pointwise.
pub proof fn lemma_instr_jvs(v: Seq<Instruction>, i: int)
    requires
        0 <= i <= v.len(),
    ensures
        instr_jvs(v, i).len() == v.len() - i,
        forall|j: int| i <= j < v.len() ==> instr_jvs(v, i)[j - i] == instr_jv(
            (#[trigger] v[j]).iv(),
        ),
    decreases v.len() - i,
{
    if i < v.len() {
        lemma_instr_jvs(v, i + 1);
    }
}

/// A one-member JSON object.
fn obj1(key: &str, val: Json) -> (r: Json)
    ensures
        r.jv() == JsonV::Obj(seq![(key@, val.jv())]),
{
    let mut f: Vec<(String, Json)> = Vec::new();
    f.push((key.to_owned(), val));
    proof {
        crate::jsonval::lemma_jv_entries(f@, 0);
        assert(crate::jsonval::jv_entries(f@, 0) =~= seq![(f@[0].0@, f@[0].1.jv())]);
    }
    Json::Obj(f)
}

/// The wire JSON of one instruction token.
pub fn instr_to_json(ins: &Instruction) -> (r: Json)
    ensures
        r.jv() == instr_jv(ins.iv()),
{
    match ins {
        Instruction::Enter(en) => {
            let inner = match en {
                Enter::Field(name) => obj1("Field", Json::Str(name.clone())),
                Enter::FieldIndex(n) => obj1("FieldIndex", Json::Num(*n)),
                Enter::CollectionIndex(n) => obj1("CollectionIndex", Json::Num(*n)),
                Enter::AddToCollection => Json::Str("AddToCollection".to_owned()),
            };
            obj1("Enter", inner)
        },
        Instruction::Value(j) => obj1("Value", json_dup(j)),
        Instruction::Exit => Json::Str("Exit".to_owned()),
    }
}

/// Reads one instruction token back from its wire JSON. A token read
/// back denotes exactly the JSON it was read from.
pub fn instr_from_json(j: &Json) -> (r: Result<Instruction, Error>)
    ensures
        (match r {
            Ok(ins) => j.jv() == instr_jv(ins.iv()),
            Err(e) => e == Error::Parse,
        }),
{
    match j {
        Json::Str(s) => {
            if crate::doc::str_eq(s.as_str(), "Exit") {
                Ok(Instruction::Exit)
            } else {
                Err(Error::Parse)
            }
        },
        Json::Obj(fields) => {
            proof {
                crate::jsonval::lemma_jv_entries(fields@, 0);
            }
            if fields.len() != 1 {
                return Err(Error::Parse);
            }
            proof {
                assert(crate::jsonval::jv_entries(fields@, 0) =~= seq![
                    (fields@[0].0@, fields@[0].1.jv()),
                ]);
            }
            let (k, v) = &fields[0];
            if crate::doc::str_eq(k.as_str(), "Value") {
                Ok(Instruction::Value(json_dup(v)))
            } else if crate::doc::str_eq(k.as_str(), "Enter") {
                match v {
                    Json::Str(s) => {
                        if crate::doc::str_eq(s.as_str(), "AddToCollection") {
                            Ok(Instruction::Enter(Enter::AddToCollection))
                        } else {
                            Err(Error::Parse)
                        }
                    },
                    Json::Obj(inner) => {
                        proof {
                            crate::jsonval::lemma_jv_entries(inner@, 0);
                        }
                        if inner.len() != 1 {
                            return Err(Error::Parse);
                        }
                        proof {
                            assert(crate::jsonval::jv_entries(inner@, 0) =~= seq![
                                (inner@[0].0@, inner@[0].1.jv()),
                            ]);
                        }
                        let (ik, iv0) = &inner[0];
                        if crate::doc::str_eq(ik.as_str(), "Field") {
                            match iv0 {
                                Json::Str(s) => Ok(Instruction::Enter(Enter::Field(s.clone()))),
                                _ => Err(Error::Parse),
                            }
                        } else if crate::doc::str_eq(ik.as_str(), "FieldIndex") {
                            match iv0 {
                                Json::Num(n) => Ok(Instruction::Enter(Enter::FieldIndex(*n))),
                                _ => Err(Error::Parse),
                            }
                        } else if crate::doc::str_eq(ik.as_str(), "CollectionIndex") {
                            match iv0 {
                                Json::Num(n) => Ok(
                                    Instruction::Enter(Enter::CollectionIndex(*n)),
                                ),
                                _ => Err(Error::Parse),
                            }
                        } else {
                            Err(Error::Parse)
                        }
                    },
                    _ => Err(Error::Parse),
                }
            } else {
                Err(Error::Parse)
            }
        },
        _ => Err(Error::Parse),
    }
}

/// The compact wire text of an instruction stream: the JSON array of
/// the tokens' wire forms, printed without whitespace.
#[verifier::loop_isolation(false)]
pub fn instructions_to_string(v: &Vec<Instruction>) -> (r: String)
    ensures
        r@ == crate::jsonval::print_jv(JsonV::Arr(instr_jvs(v@, 0))),
{
    let mut arr: Vec<Json> = Vec::new();
    let mut i: usize = 0;
    while i < v.len()
        invariant
            i <= v@.len(),
            arr@.len() == i,
            forall|q: int| 0 <= q < i ==> (#[trigger] arr@[q]).jv() == instr_jv(v@[q].iv()),
        decreases v@.len() - i,
    {
        arr.push(instr_to_json(&v[i]));
        i += 1;
    }
    proof {
        crate::jsonval::lemma_jv_elems(arr@, 0);
        lemma_instr_jvs(v@, 0);
        assert forall|q: int| 0 <= q < arr@.len() implies crate::jsonval::jv_elems(arr@, 0)[q]
            == instr_jvs(v@, 0)[q] by {
            assert(crate::jsonval::jv_elems(arr@, 0)[q] == arr@[q].jv());
        }
        assert(crate::jsonval::jv_elems(arr@, 0) =~= instr_jvs(v@, 0));
    }
    Json::Arr(arr).to_text()
}

/// Reads an instruction stream back from its wire text: the text must
/// parse as a JSON array whose members each denote a token, and the
/// stream read back denotes exactly the parsed array.
#[verifier::loop_isolation(false)]
pub fn instructions_from_str(s: &str) -> (r: Result<Vec<Instruction>, Error>)
    ensures
        (match r {
            Ok(v) => crate::jsonparse::parse_text(s@) == Some(JsonV::Arr(instr_jvs(v@, 0))),
            Err(e) => e == Error::Parse,
        }),
{
    let parsed = match Json::from_text(s) {
        Some(j) => j,
        None => {
            return Err(Error::Parse);
        },
    };
    let elems = match parsed {
        Json::Arr(elems) => elems,
        _ => {
            return Err(Error::Parse);
        },
    };
    proof {
        crate::jsonval::lemma_jv_elems(elems@, 0);
    }
    let mut out: Vec<Instruction> = Vec::new();
    let mut i: usize = 0;
    while i < elems.len()
        invariant
            i <= elems@.len(),
            out@.len() == i,
            forall|q: int| 0 <= q < i ==> (#[trigger] elems@[q]).jv() == instr_jv(
                out@[q].iv(),
            ),
        decreases elems@.len() - i,
    {
        match instr_from_json(&elems[i]) {
            Ok(ins) => out.push(ins),
            Err(e) => {
                return Err(e);
            },
        }
        i += 1;
    }
    proof {
        lemma_instr_jvs(out@, 0);
        assert forall|q: int| 0 <= q < out@.len() implies crate::jsonval::jv_elems(
            elems@,
            0,
        )[q] == instr_jvs(out@, 0)[q] by {
            assert(crate::jsonval::jv_elems(elems@, 0)[q] == elems@[q].jv());
        }
        assert(crate::jsonval::jv_elems(elems@, 0) =~= instr_jvs(out@, 0));
    }
    Ok(out)
}

} // verus!

verus! {

/// The wire JSON of an optional timestamp leaf.
pub open spec fn opt_jv(o: Option<String>) -> JsonV {
    match o {
        Some(s) => JsonV::Str(s@),
        None => JsonV::Null,
    }
}

/// The document's diff tree, mathematically: the fixed field table in
/// the order the engine walks it, with collection elements and the
/// metadata map carried as their wire JSON values.
pub open spec fn doc_nv(d: crate::doc::DIDDocument) -> NodeV {
    NodeV::Struct(
        seq![
            (
                "context"@,
                NodeV::Tuple(seq![NodeV::Coll(crate::codec::strs_jv(d.context.0@, 0))]),
            ),
            (
                "id"@,
                NodeV::Tuple(
                    seq![
                        NodeV::Struct(
                            seq![
                                ("method_name"@, NodeV::Leaf(JsonV::Str(d.id.0.method_name@))),
                                (
                                    "id_segments"@,
                                    NodeV::Coll(crate::codec::strs_jv(d.id.0.id_segments@, 0)),
                                ),
                                ("fragment"@, NodeV::Leaf(opt_jv(d.id.0.fragment))),
                            ],
                        ),
                    ],
                ),
            ),
            ("created"@, NodeV::Leaf(opt_jv(d.created))),
            ("updated"@, NodeV::Leaf(opt_jv(d.updated))),
            ("public_key"@, NodeV::Coll(crate::codec::pks_jv(d.public_key@, 0))),
            ("auth"@, NodeV::Coll(crate::codec::auths_jv(d.auth@, 0))),
            ("services"@, NodeV::Coll(crate::codec::srvs_jv(d.services@, 0))),
            ("metadata"@, NodeV::Leaf(JsonV::Obj(crate::codec::md_jv(d.metadata@, 0)))),
        ],
    )
}

/// Pushing a named field appends its view to `node_fields_v`.
proof fn lemma_node_fields_push(s: Seq<(String, Node)>, x: (String, Node))
    ensures
        node_fields_v(s.push(x), 0) =~= node_fields_v(s, 0) + seq![(x.0@, x.1.nv())],
{
    lemma_node_fields_v(s.push(x), 0);
    lemma_node_fields_v(s, 0);
    assert forall|q: int| 0 <= q < s.len() + 1 implies node_fields_v(s.push(x), 0)[q] == (
    node_fields_v(s, 0) + seq![(x.0@, x.1.nv())])[q] by {
        assert(node_fields_v(s.push(x), 0)[q] == (s.push(x)[q].0@, s.push(x)[q].1.nv()));
        if q < s.len() {
            assert(s.push(x)[q] == s[q]);
            assert(node_fields_v(s, 0)[q] == (s[q].0@, s[q].1.nv()));
        } else {
            assert(s.push(x)[q] == x);
        }
    }
}

/// A string option as a leaf value.
fn opt_leaf(o: &Option<String>) -> (r: Node)
    ensures
        r.nv() == NodeV::Leaf(opt_jv(*o)),
{
    match o {
        Some(s) => Node::Leaf(Json::Str(s.clone())),
        None => Node::Leaf(Json::Null),
    }
}

/// A collection node of string leaves.
#[verifier::loop_isolation(false)]
fn strs_coll(v: &Vec<String>) -> (r: Node)
    ensures
        r.nv() == NodeV::Coll(crate::codec::strs_jv(v@, 0)),
{
    let mut out: Vec<Json> = Vec::new();
    let mut i: usize = 0;
    while i < v.len()
        invariant
            i <= v@.len(),
            out@.len() == i,
            forall|q: int| 0 <= q < i ==> (#[trigger] out@[q]).jv() == JsonV::Str(v@[q]@),
        decreases v@.len() - i,
    {
        out.push(Json::Str(v[i].clone()));
        i += 1;
    }
    proof {
        crate::jsonval::lemma_jv_elems(out@, 0);
        crate::codec::lemma_strs_jv(v@, 0);
        assert forall|q: int| 0 <= q < out@.len() implies crate::jsonval::jv_elems(out@, 0)[q]
            == crate::codec::strs_jv(v@, 0)[q] by {
            assert(crate::jsonval::jv_elems(out@, 0)[q] == out@[q].jv());
        }
        assert(crate::jsonval::jv_elems(out@, 0) =~= crate::codec::strs_jv(v@, 0));
    }
    Node::Coll(out)
}

/// The document's diff tree. The field table fixes the deterministic
/// order in which the engine walks a document (the order that
/// `crate::policy::document_field_order` derives from the per-field
/// policy); collection elements and the metadata map are carried as
/// their wire JSON values.
#[verifier::loop_isolation(false)]
pub fn doc_to_node(d: &crate::doc::DIDDocument) -> (r: Node)
    ensures
        r.nv() == doc_nv(*d),
{
    let mut fields: Vec<(String, Node)> = Vec::new();
    let ghost e0 = fields@;

    let mut ctx_tuple: Vec<Node> = Vec::new();
    ctx_tuple.push(strs_coll(&d.context.0));
    proof {
        lemma_nodes_v(ctx_tuple@, 0);
        assert(nodes_v(ctx_tuple@, 0) =~= seq![
            NodeV::Coll(crate::codec::strs_jv(d.context.0@, 0)),
        ]);
    }
    fields.push(("context".to_owned(), Node::Tuple(ctx_tuple)));
    let ghost e1 = fields@;

    let mut did_fields: Vec<(String, Node)> = Vec::new();
    did_fields.push(("method_name".to_owned(), Node::Leaf(
        Json::Str(d.id.0.method_name.clone()),
    )));
    did_fields.push(("id_segments".to_owned(), strs_coll(&d.id.0.id_segments)));
    did_fields.push(("fragment".to_owned(), opt_leaf(&d.id.0.fragment)));
    proof {
        lemma_node_fields_v(did_fields@, 0);
        let ghost want = seq![
            ("method_name"@, NodeV::Leaf(JsonV::Str(d.id.0.method_name@))),
            (
                "id_segments"@,
                NodeV::Coll(crate::codec::strs_jv(d.id.0.id_segments@, 0)),
            ),
            ("fragment"@, NodeV::Leaf(opt_jv(d.id.0.fragment))),
        ];
        assert forall|q: int| 0 <= q < did_fields@.len() implies node_fields_v(
            did_fields@,
            0,
        )[q] == want[q] by {
            assert(node_fields_v(did_fields@, 0)[q] == (did_fields@[q].0@,
            did_fields@[q].1.nv()));
        }
        assert(node_fields_v(did_fields@, 0) =~= want);
    }
    let mut id_tuple: Vec<Node> = Vec::new();
    id_tuple.push(Node::Struct(did_fields));
    proof {
        lemma_nodes_v(id_tuple@, 0);
        assert(nodes_v(id_tuple@, 0) =~= seq![id_tuple@[0].nv()]);
    }
    fields.push(("id".to_owned(), Node::Tuple(id_tuple)));
    let ghost e2 = fields@;

    fields.push(("created".to_owned(), opt_leaf(&d.created)));
    let ghost e3 = fields@;
    fields.push(("updated".to_owned(), opt_leaf(&d.updated)));
    let ghost e4 = fields@;

    let mut pks: Vec<Json> = Vec::new();
    let mut p: usize = 0;
    while p < d.public_key.len()
        invariant
            p <= d.public_key@.len(),
            pks@.len() == p,
            forall|q: int| 0 <= q < p ==> (#[trigger] pks@[q]).jv() == crate::codec::pk_jv(
                d.public_key@[q],
            ),
        decreases d.public_key@.len() - p,
    {
        pks.push(crate::codec::pk_to_json(&d.public_key[p]));
        p += 1;
    }
    proof {
        crate::jsonval::lemma_jv_elems(pks@, 0);
        crate::codec::lemma_pks_jv(d.public_key@, 0);
        assert forall|q: int| 0 <= q < pks@.len() implies crate::jsonval::jv_elems(pks@, 0)[q]
            == crate::codec::pks_jv(d.public_key@, 0)[q] by {
            assert(crate::jsonval::jv_elems(pks@, 0)[q] == pks@[q].jv());
        }
        assert(crate::jsonval::jv_elems(pks@, 0) =~= crate::codec::pks_jv(d.public_key@, 0));
    }
    fields.push(("public_key".to_owned(), Node::Coll(pks)));
    let ghost e5 = fields@;

    let mut aus: Vec<Json> = Vec::new();
    let mut a: usize = 0;
    while a < d.auth.len()
        invariant
            a <= d.auth@.len(),
            aus@.len() == a,
            forall|q: int| 0 <= q < a ==> (#[trigger] aus@[q]).jv() == crate::codec::auth_jv(
                d.auth@[q],
            ),
        decreases d.auth@.len() - a,
    {
        aus.push(crate::codec::auth_to_json(&d.auth[a]));
        a += 1;
    }
    proof {
        crate::jsonval::lemma_jv_elems(aus@, 0);
        crate::codec::lemma_auths_jv(d.auth@, 0);
        assert forall|q: int| 0 <= q < aus@.len() implies crate::jsonval::jv_elems(aus@, 0)[q]
            == crate::codec::auths_jv(d.auth@, 0)[q] by {
            assert(crate::jsonval::jv_elems(aus@, 0)[q] == aus@[q].jv());
        }
        assert(crate::jsonval::jv_elems(aus@, 0) =~= crate::codec::auths_jv(d.auth@, 0));
    }
    fields.push(("auth".to_owned(), Node::Coll(aus)));
    let ghost e6 = fields@;

    let mut svs: Vec<Json> = Vec::new();
    let mut v: usize = 0;
    while v < d.services.len()
        invariant
            v <= d.services@.len(),
            svs@.len() == v,
            forall|q: int| 0 <= q < v ==> (#[trigger] svs@[q]).jv() == crate::codec::srv_jv(
                d.services@[q],
            ),
        decreases d.services@.len() - v,
    {
        svs.push(crate::codec::srv_to_json(&d.services[v]));
        v += 1;
    }
    proof {
        crate::jsonval::lemma_jv_elems(svs@, 0);
        crate::codec::lemma_srvs_jv(d.services@, 0);
        assert forall|q: int| 0 <= q < svs@.len() implies crate::jsonval::jv_elems(svs@, 0)[q]
            == crate::codec::srvs_jv(d.services@, 0)[q] by {
            assert(crate::jsonval::jv_elems(svs@, 0)[q] == svs@[q].jv());
        }
        assert(crate::jsonval::jv_elems(svs@, 0) =~= crate::codec::srvs_jv(d.services@, 0));
    }
    fields.push(("services".to_owned(), Node::Coll(svs)));
    let ghost e7 = fields@;

    let mut md: Vec<(String, Json)> = Vec::new();
    let mut m: usize = 0;
    while m < d.metadata.len()
        invariant
            m <= d.metadata@.len(),
            md@.len() == m,
            forall|q: int| 0 <= q < m ==> (#[trigger] md@[q]).0@ == d.metadata@[q].0@ && md@[
                q
            ].1.jv() == JsonV::Str(d.metadata@[q].1@),
        decreases d.metadata@.len() - m,
    {
        let e = (d.metadata[m].0.clone(), Json::Str(d.metadata[m].1.clone()));
        md.push(e);
        m += 1;
    }
    proof {
        crate::jsonval::lemma_jv_entries(md@, 0);
        crate::codec::lemma_md_jv(d.metadata@, 0);
        assert forall|q: int| 0 <= q < md@.len() implies crate::jsonval::jv_entries(md@, 0)[q]
            == crate::codec::md_jv(d.metadata@, 0)[q] by {
            assert(crate::jsonval::jv_entries(md@, 0)[q] == (md@[q].0@, md@[q].1.jv()));
        }
        assert(crate::jsonval::jv_entries(md@, 0) =~= crate::codec::md_jv(d.metadata@, 0));
    }
    fields.push(("metadata".to_owned(), Node::Leaf(Json::Obj(md))));

    proof {
        lemma_node_fields_push(e0, e1.last());
        lemma_node_fields_push(e1, e2.last());
        lemma_node_fields_push(e2, e3.last());
        lemma_node_fields_push(e3, e4.last());
        lemma_node_fields_push(e4, e5.last());
        lemma_node_fields_push(e5, e6.last());
        lemma_node_fields_push(e6, e7.last());
        lemma_node_fields_push(e7, fields@.last());
        lemma_node_fields_v(fields@, 0);
        assert(node_fields_v(fields@, 0) =~= (match doc_nv(*d) {
            NodeV::Struct(fs) => fs,
            _ => Seq::empty(),
        }));
    }
    Node::Struct(fields)
}

/// Reads a string collection back from a collection node of string
/// leaves.
fn strs_from_node(n: &Node) -> (r: Result<Vec<String>, Error>)
    ensures
        (r matches Err(e) ==> e == Error::DiffApply),
{
    let elems = match n {
        Node::Coll(elems) => elems,
        _ => {
            return Err(Error::DiffApply);
        },
    };
    let mut out: Vec<String> = Vec::new();
    let mut i: usize = 0;
    while i < elems.len()
        decreases elems@.len() - i,
    {
        match &elems[i] {
            Json::Str(s) => out.push(s.clone()),
            _ => {
                return Err(Error::DiffApply);
            },
        }
        i += 1;
    }
    Ok(out)
}

/// An optional string back from a leaf.
fn opt_from_leaf(n: &Node) -> (r: Result<Option<String>, Error>)
    ensures
        (r matches Err(e) ==> e == Error::DiffApply),
{
    match n {
        Node::Leaf(Json::Null) => Ok(None),
        Node::Leaf(Json::Str(s)) => Ok(Some(s.clone())),
        _ => Err(Error::DiffApply),
    }
}

/// Rebuilds a document from its diff tree. A tree whose layout or leaf
/// values do not describe a document in canonical form is rejected; a
/// rebuilt document denotes exactly the given tree and satisfies the
/// document invariants: unique key ids, metadata in canonical sorted
/// order.
pub fn node_to_doc(n: &Node) -> (r: Result<crate::doc::DIDDocument, Error>)
    ensures
        (match r {
            Ok(d) => doc_nv(d) == n.nv() && crate::codec::pk_ids_unique(d.public_key@)
                && crate::codec::srv_ids_unique(d.services@) && crate::doc::sorted_md(
                d.metadata@,
            ),
            Err(e) => e == Error::DiffApply || e == Error::Parse || e == Error::Validation,
        }),
{
    let fields = match n {
        Node::Struct(fields) => fields,
        _ => {
            return Err(Error::DiffApply);
        },
    };
    if fields.len() != 8 {
        return Err(Error::DiffApply);
    }
    let ctx = match &fields[0].1 {
        Node::Tuple(t) => {
            if t.len() != 1 {
                return Err(Error::DiffApply);
            }
            match strs_from_node(&t[0]) {
                Ok(vs) => crate::doc::Context(vs),
                Err(e) => {
                    return Err(e);
                },
            }
        },
        _ => {
            return Err(Error::DiffApply);
        },
    };
    let did = match &fields[1].1 {
        Node::Tuple(t) => {
            if t.len() != 1 {
                return Err(Error::DiffApply);
            }
            let df = match &t[0] {
                Node::Struct(df) => df,
                _ => {
                    return Err(Error::DiffApply);
                },
            };
            if df.len() != 3 {
                return Err(Error::DiffApply);
            }
            let method_name = match &df[0].1 {
                Node::Leaf(Json::Str(s)) => s.clone(),
                _ => {
                    return Err(Error::DiffApply);
                },
            };
            let id_segments = match strs_from_node(&df[1].1) {
                Ok(vs) => vs,
                Err(e) => {
                    return Err(e);
                },
            };
            let fragment = match opt_from_leaf(&df[2].1) {
                Ok(f) => f,
                Err(e) => {
                    return Err(e);
                },
            };
            crate::did::DID { method_name, id_segments, fragment }
        },
        _ => {
            return Err(Error::DiffApply);
        },
    };
    let created = match opt_from_leaf(&fields[2].1) {
        Ok(c) => c,
        Err(e) => {
            return Err(e);
        },
    };
    let updated = match opt_from_leaf(&fields[3].1) {
        Ok(u) => u,
        Err(e) => {
            return Err(e);
        },
    };
    let mut public_key: Vec<crate::doc::PublicKey> = Vec::new();
    match &fields[4].1 {
        Node::Coll(elems) => {
            let mut i: usize = 0;
            while i < elems.len()
                invariant
                    crate::codec::pk_ids_unique(public_key@),
                decreases elems@.len() - i,
            {
                let key = match crate::codec::pk_from_json(&elems[i]) {
                    Ok(key) => key,
                    Err(e) => {
                        return Err(e);
                    },
                };
                match crate::doc::find_pk_x(&public_key, key.id.as_str()) {
                    Some(_) => {
                        return Err(Error::Validation);
                    },
                    None => {
                        proof {
                            crate::doc::lemma_find_pk(public_key@, key.id@);
                            let ghost prev = public_key@;
                            assert forall|a: int, b: int| 0 <= a < b < prev.push(key).len()
                                implies (#[trigger] prev.push(key)[a]).id@ != (
                            #[trigger] prev.push(key)[b]).id@ by {
                                if b < prev.len() {
                                } else {
                                    assert(prev.push(key)[b] == key);
                                    assert(prev.push(key)[a] == prev[a]);
                                }
                            }
                        }
                        public_key.push(key);
                    },
                }
                i += 1;
            }
        },
        _ => {
            return Err(Error::DiffApply);
        },
    }
    let mut auth: Vec<crate::doc::Authentication> = Vec::new();
    match &fields[5].1 {
        Node::Coll(elems) => {
            let mut i: usize = 0;
            while i < elems.len()
                decreases elems@.len() - i,
            {
                match crate::codec::auth_from_json(&elems[i]) {
                    Ok(a) => auth.push(a),
                    Err(e) => {
                        return Err(e);
                    },
                }
                i += 1;
            }
        },
        _ => {
            return Err(Error::DiffApply);
        },
    }
    let mut services: Vec<crate::doc::Service> = Vec::new();
    match &fields[6].1 {
        Node::Coll(elems) => {
            let mut i: usize = 0;
            while i < elems.len()
                invariant
                    crate::codec::srv_ids_unique(services@),
                decreases elems@.len() - i,
            {
                let entry = match crate::codec::srv_from_json(&elems[i]) {
                    Ok(entry) => entry,
                    Err(e) => {
                        return Err(e);
                    },
                };
                match crate::doc::find_srv_x(&services, entry.id.as_str()) {
                    Some(_) => {
                        return Err(Error::Validation);
                    },
                    None => {
                        proof {
                            crate::doc::lemma_find_srv(services@, entry.id@);
                            let ghost prev = services@;
                            assert forall|a: int, b: int| 0 <= a < b < prev.push(entry).len()
                                implies (#[trigger] prev.push(entry)[a]).id@ != (
                            #[trigger] prev.push(entry)[b]).id@ by {
                                if b < prev.len() {
                                } else {
                                    assert(prev.push(entry)[b] == entry);
                                    assert(prev.push(entry)[a] == prev[a]);
                                }
                            }
                        }
                        services.push(entry);
                    },
                }
                i += 1;
            }
        },
        _ => {
            return Err(Error::DiffApply);
        },
    }
    let mut metadata: Vec<(String, String)> = Vec::new();
    match &fields[7].1 {
        Node::Leaf(Json::Obj(entries)) => {
            let mut i: usize = 0;
            while i < entries.len()
                invariant
                    crate::doc::sorted_md(metadata@),
                decreases entries@.len() - i,
            {
                match &entries[i].1 {
                    Json::Str(v) => {
                        crate::doc::insert_sorted(&mut metadata, entries[i].0.clone(), v.clone());
                    },
                    _ => {
                        return Err(Error::DiffApply);
                    },
                }
                i += 1;
            }
        },
        _ => {
            return Err(Error::DiffApply);
        },
    }
    let d = crate::doc::DIDDocument {
        context: ctx,
        id: crate::doc::Subject(did),
        created,
        updated,
        public_key,
        auth,
        services,
        metadata,
    };
    let canon = doc_to_node(&d);
    if node_eq(&canon, n) {
        Ok(d)
    } else {
        Err(Error::DiffApply)
    }
}

impl crate::doc::DIDDocument {
    /// The ordered edit stream from this document to `target`: what a
    /// publisher sends so that a holder of this snapshot can reconstruct
    /// the target. The stream is empty exactly when the two documents'
    /// diff trees are equal; a target out of the engine's reach (a shrunk
    /// collection) is rejected.
    pub fn diff(&self, target: &crate::doc::DIDDocument) -> (r: Result<Vec<Instruction>, Error>)
        ensures
            (match r {
                Ok(v) => {
                    &&& (v@.len() == 0 <==> doc_nv(*self) == doc_nv(*target))
                    &&& (v@.len() > 0 ==> exists|ev: EditV|
                        instrs_v(v@, 0) == enc_s(ev) && #[trigger] apply_s(doc_nv(*self), ev)
                            == Some(doc_nv(*target)))
                },
                Err(e) => e == Error::DiffApply && doc_nv(*self) != doc_nv(*target),
            }),
    {
        let b = doc_to_node(self);
        let t = doc_to_node(target);
        match diff_nodes(&b, &t) {
            Ok(None) => Ok(Vec::new()),
            Ok(Some(e)) => {
                let stream = encode_edit(&e);
                if stream.len() == 0 {
                    Err(Error::DiffApply)
                } else {
                    proof {
                        assert(instrs_v(stream@, 0) == enc_s(e.ev()) && apply_s(
                            doc_nv(*self),
                            e.ev(),
                        ) == Some(doc_nv(*target)));
                    }
                    Ok(stream)
                }
            },
            Err(e) => Err(e),
        }
    }

    /// Replays an edit stream over this document, yielding the updated
    /// snapshot. An empty stream reproduces this document's tree exactly;
    /// any other accepted stream yields a document whose tree is the
    /// replay of a single edit script over this document's tree. A stream
    /// that addresses missing fields or elements, or that nests
    /// improperly, is rejected and nothing is reused; a rebuilt document
    /// satisfies the key-uniqueness and canonical metadata invariants.
    pub fn apply(&self, stream: &Vec<Instruction>) -> (r: Result<crate::doc::DIDDocument, Error>)
        ensures
            (match r {
                Ok(d) => {
                    &&& (stream@.len() == 0 ==> doc_nv(d) == doc_nv(*self))
                    &&& ((exists|ev: EditV|
                        instrs_v(stream@, 0) == enc_s(ev) && #[trigger] apply_s(
                            doc_nv(*self),
                            ev,
                        ) == Some(doc_nv(d))) || (stream@.len() == 0 && doc_nv(d) == doc_nv(
                        *self,
                    )))
                    &&& crate::codec::pk_ids_unique(d.public_key@)
                    &&& crate::codec::srv_ids_unique(d.services@)
                    &&& crate::doc::sorted_md(d.metadata@)
                },
                Err(e) => e == Error::DiffApply || e == Error::Parse || e == Error::Validation,
            }),
    {
        let b = doc_to_node(self);
        match decode_stream(stream) {
            Ok(None) => node_to_doc(&b),
            Ok(Some(e)) => {
                match apply_nodes(&b, &e) {
                    Ok(n) => {
                        let r = node_to_doc(&n);
                        proof {
                            if r is Ok {
                                assert(instrs_v(stream@, 0) == enc_s(e.ev()) && apply_s(
                                    doc_nv(*self),
                                    e.ev(),
                                ) == Some(doc_nv(r->Ok_0)));
                            }
                        }
                        r
                    },
                    Err(e) => Err(e),
                }
            },
            Err(e) => Err(e),
        }
    }
}

} // verus!
