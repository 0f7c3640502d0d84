//! The document wire format: a JSON object with the reserved keys
//! `@context`, `id`, `created`, `updated`, `publicKey`, `authentication`
//! and `service`, and every other key carried as metadata.

use vstd::prelude::*;
use crate::Error;
use crate::did::{DID, did_str, wf_didv};
use crate::doc::{
    Authentication, Context, DIDDocument, KeyData, PublicKey, Service, ServiceEndpoint, Subject,
    sorted_md, str_eq,
};
use crate::jsonval::{Json, JsonV, jv_elems, jv_entries, lemma_jv_elems, lemma_jv_entries};

verus! {

broadcast use vstd::std_specs::vec::group_vec_axioms;

/// Views of a string sequence as JSON strings, from index `i` on.
pub open spec fn strs_jv(v: Seq<String>, i: int) -> Seq<JsonV>
    decreases v.len() - i,
{
    if i < 0 || i >= v.len() {
        Seq::empty()
    } else {
        seq![JsonV::Str(v[i]@)] + strs_jv(v, i + 1)
    }
}

/// The wire form of the context: one entry collapses to a single string.
pub open spec fn ctx_jv(c: Context) -> JsonV {
    if c.0@.len() == 1 {
        JsonV::Str(c.0@[0]@)
    } else {
        JsonV::Arr(strs_jv(c.0@, 0))
    }
}

/// The wire form of a key's material field.
pub open spec fn material_jv(k: KeyData) -> (Seq<char>, JsonV) {
    match k {
        KeyData::Pem(v) => ("publicKeyPem"@, JsonV::Str(v@)),
        KeyData::Base58(v) => ("publicKeyBase58"@, JsonV::Str(v@)),
        KeyData::Hex(v) => ("publicKeyHex"@, JsonV::Str(v@)),
    }
}

/// The wire form of a public key.
pub open spec fn pk_jv(k: PublicKey) -> JsonV {
    JsonV::Obj(
        seq![
            ("id"@, JsonV::Str(k.id@)),
            ("type"@, JsonV::Str(k.key_type@)),
            ("controller"@, JsonV::Str(k.controller@)),
            material_jv(k.key_data),
        ],
    )
}

/// The wire form of a service endpoint: a bare URI when it has no type
/// tag and no instances, else an object.
pub open spec fn ep_jv(e: ServiceEndpoint) -> JsonV {
    if e.endpoint_type is None && e.instances is None {
        JsonV::Str(e.context@)
    } else {
        JsonV::Obj(
            seq![("context"@, JsonV::Str(e.context@))] + (match e.endpoint_type {
                Some(t) => seq![("type"@, JsonV::Str(t@))],
                None => Seq::empty(),
            }) + (match e.instances {
                Some(v) => seq![("instances"@, JsonV::Arr(strs_jv(v@, 0)))],
                None => Seq::empty(),
            }),
        )
    }
}

/// The wire form of a service.
pub open spec fn srv_jv(s: Service) -> JsonV {
    JsonV::Obj(
        seq![
            ("id"@, JsonV::Str(s.id@)),
            ("type"@, JsonV::Str(s.service_type@)),
            ("serviceEndpoint"@, ep_jv(s.service_endpoint)),
        ],
    )
}

/// The wire form of an authentication entry.
pub open spec fn auth_jv(a: Authentication) -> JsonV {
    match a {
        Authentication::Method(m) => JsonV::Str(m@),
        Authentication::Key(k) => pk_jv(k),
    }
}

/// Wire forms of the keys from index `i` on.
pub open spec fn pks_jv(v: Seq<PublicKey>, i: int) -> Seq<JsonV>
    decreases v.len() - i,
{
    if i < 0 || i >= v.len() {
        Seq::empty()
    } else {
        seq![pk_jv(v[i])] + pks_jv(v, i + 1)
    }
}

/// Wire forms of the authentication entries from index `i` on.
pub open spec fn auths_jv(v: Seq<Authentication>, i: int) -> Seq<JsonV>
    decreases v.len() - i,
{
    if i < 0 || i >= v.len() {
        Seq::empty()
    } else {
        seq![auth_jv(v[i])] + auths_jv(v, i + 1)
    }
}

/// Wire forms of the services from index `i` on.
pub open spec fn srvs_jv(v: Seq<Service>, i: int) -> Seq<JsonV>
    decreases v.len() - i,
{
    if i < 0 || i >= v.len() {
        Seq::empty()
    } else {
        seq![srv_jv(v[i])] + srvs_jv(v, i + 1)
    }
}

/// Metadata entries as JSON object members, from index `i` on.
pub open spec fn md_jv(v: Seq<(String, String)>, i: int) -> Seq<(Seq<char>, JsonV)>
    decreases v.len() - i,
{
    if i < 0 || i >= v.len() {
        Seq::empty()
    } else {
        seq![(v[i].0@, JsonV::Str(v[i].1@))] + md_jv(v, i + 1)
    }
}

/// An optional timestamp as an object member.
pub open spec fn time_jv(name: Seq<char>, t: Option<String>) -> Seq<(Seq<char>, JsonV)> {
    match t {
        Some(s) => seq![(name, JsonV::Str(s@))],
        None => Seq::empty(),
    }
}

/// The whole document's wire form.
pub open spec fn doc_jv(d: DIDDocument) -> JsonV {
    JsonV::Obj(
        seq![("@context"@, ctx_jv(d.context)), ("id"@, JsonV::Str(did_str(d.id.0@)))] + time_jv(
            "created"@,
            d.created,
        ) + time_jv("updated"@, d.updated) + seq![
            ("publicKey"@, JsonV::Arr(pks_jv(d.public_key@, 0))),
            ("authentication"@, JsonV::Arr(auths_jv(d.auth@, 0))),
            ("service"@, JsonV::Arr(srvs_jv(d.services@, 0))),
        ] + md_jv(d.metadata@, 0),
    )
}

} // verus!

verus! {

/// Pushing an element appends its view to `jv_elems`.
proof fn lemma_jv_elems_push(s: Seq<Json>, x: Json)
    ensures
        jv_elems(s.push(x), 0) =~= jv_elems(s, 0) + seq![x.jv()],
{
    lemma_jv_elems(s.push(x), 0);
    lemma_jv_elems(s, 0);
    assert forall|q: int| 0 <= q < s.len() + 1 implies jv_elems(s.push(x), 0)[q] == (jv_elems(
        s,
        0,
    ) + seq![x.jv()])[q] by {
        assert(jv_elems(s.push(x), 0)[q] == s.push(x)[q].jv());
        if q < s.len() {
            assert(s.push(x)[q] == s[q]);
            assert(jv_elems(s, 0)[q] == s[q].jv());
        } else {
            assert(s.push(x)[q] == x);
        }
    }
}

/// Pushing a member appends its view to `jv_entries`.
proof fn lemma_jv_entries_push(s: Seq<(String, Json)>, x: (String, Json))
    ensures
        jv_entries(s.push(x), 0) =~= jv_entries(s, 0) + seq![(x.0@, x.1.jv())],
{
    lemma_jv_entries(s.push(x), 0);
    lemma_jv_entries(s, 0);
    assert forall|q: int| 0 <= q < s.len() + 1 implies jv_entries(s.push(x), 0)[q] == (
    jv_entries(s, 0) + seq![(x.0@, x.1.jv())])[q] by {
        assert(jv_entries(s.push(x), 0)[q] == (s.push(x)[q].0@, s.push(x)[q].1.jv()));
        if q < s.len() {
            assert(s.push(x)[q] == s[q]);
            assert(jv_entries(s, 0)[q] == (s[q].0@, s[q].1.jv()));
        } else {
            assert(s.push(x)[q] == x);
        }
    }
}

/// `strs_jv` read pointwise.
pub proof fn lemma_strs_jv(v: Seq<String>, i: int)
    requires
        0 <= i <= v.len(),
    ensures
        strs_jv(v, i).len() == v.len() - i,
        forall|j: int| i <= j < v.len() ==> strs_jv(v, i)[j - i] == JsonV::Str(
            (#[trigger] v[j])@,
        ),
    decreases v.len() - i,
{
    if i < v.len() {
        lemma_strs_jv(v, i + 1);
    }
}

/// `pks_jv` read pointwise.
pub proof fn lemma_pks_jv(v: Seq<PublicKey>, i: int)
    requires
        0 <= i <= v.len(),
    ensures
        pks_jv(v, i).len() == v.len() - i,
        forall|j: int| i <= j < v.len() ==> pks_jv(v, i)[j - i] == pk_jv(#[trigger] v[j]),
    decreases v.len() - i,
{
    if i < v.len() {
        lemma_pks_jv(v, i + 1);
    }
}

/// `auths_jv` read pointwise.
pub proof fn lemma_auths_jv(v: Seq<Authentication>, i: int)
    requires
        0 <= i <= v.len(),
    ensures
        auths_jv(v, i).len() == v.len() - i,
        forall|j: int| i <= j < v.len() ==> auths_jv(v, i)[j - i] == auth_jv(#[trigger] v[j]),
    decreases v.len() - i,
{
    if i < v.len() {
        lemma_auths_jv(v, i + 1);
    }
}

/// `srvs_jv` read pointwise.
pub proof fn lemma_srvs_jv(v: Seq<Service>, i: int)
    requires
        0 <= i <= v.len(),
    ensures
        srvs_jv(v, i).len() == v.len() - i,
        forall|j: int| i <= j < v.len() ==> srvs_jv(v, i)[j - i] == srv_jv(#[trigger] v[j]),
    decreases v.len() - i,
{
    if i < v.len() {
        lemma_srvs_jv(v, i + 1);
    }
}

/// `md_jv` read pointwise.
pub proof fn lemma_md_jv(v: Seq<(String, String)>, i: int)
    requires
        0 <= i <= v.len(),
    ensures
        md_jv(v, i).len() == v.len() - i,
        forall|j: int| i <= j < v.len() ==> md_jv(v, i)[j - i] == ((#[trigger] v[j]).0@,
        JsonV::Str(v[j].1@)),
    decreases v.len() - i,
{
    if i < v.len() {
        lemma_md_jv(v, i + 1);
    }
}

/// Builds the JSON array of a string collection.
pub(crate) fn strs_to_json(v: &Vec<String>) -> (r: Json)
    ensures
        r.jv() == JsonV::Arr(strs_jv(v@, 0)),
{
    let mut out: Vec<Json> = Vec::new();
    let mut i: usize = 0;
    while i < v.len()
        invariant
            i <= v@.len(),
            jv_elems(out@, 0) =~= strs_jv(v@, 0).subrange(0, i as int),
        decreases v@.len() - i,
    {
        let ghost prev = out@;
        out.push(Json::Str(v[i].clone()));
        proof {
            lemma_jv_elems_push(prev, out@.last());
            lemma_strs_jv(v@, 0);
            assert(jv_elems(out@, 0) =~= strs_jv(v@, 0).subrange(0, i + 1));
        }
        i += 1;
    }
    proof {
        lemma_strs_jv(v@, 0);
        assert(strs_jv(v@, 0).subrange(0, v@.len() as int) =~= strs_jv(v@, 0));
    }
    Json::Arr(out)
}

/// Builds the wire form of the context.
pub(crate) fn ctx_to_json(c: &Context) -> (r: Json)
    ensures
        r.jv() == ctx_jv(*c),
{
    if c.0.len() == 1 {
        Json::Str(c.0[0].clone())
    } else {
        strs_to_json(&c.0)
    }
}

/// Builds the wire form of a public key.
pub(crate) fn pk_to_json(k: &PublicKey) -> (r: Json)
    ensures
        r.jv() == pk_jv(*k),
{
    let mut fields: Vec<(String, Json)> = Vec::new();
    let ghost e0 = fields@;
    fields.push(("id".to_owned(), Json::Str(k.id.clone())));
    let ghost e1 = fields@;
    fields.push(("type".to_owned(), Json::Str(k.key_type.clone())));
    let ghost e2 = fields@;
    fields.push(("controller".to_owned(), Json::Str(k.controller.clone())));
    let ghost e3 = fields@;
    match &k.key_data {
        KeyData::Pem(v) => fields.push(("publicKeyPem".to_owned(), Json::Str(v.clone()))),
        KeyData::Base58(v) => fields.push(("publicKeyBase58".to_owned(), Json::Str(v.clone()))),
        KeyData::Hex(v) => fields.push(("publicKeyHex".to_owned(), Json::Str(v.clone()))),
    }
    proof {
        lemma_jv_entries_push(e0, e1.last());
        lemma_jv_entries_push(e1, e2.last());
        lemma_jv_entries_push(e2, e3.last());
        lemma_jv_entries_push(e3, fields@.last());
        assert(jv_entries(fields@, 0) =~= seq![
            ("id"@, JsonV::Str(k.id@)),
            ("type"@, JsonV::Str(k.key_type@)),
            ("controller"@, JsonV::Str(k.controller@)),
            material_jv(k.key_data),
        ]);
    }
    Json::Obj(fields)
}

/// Builds the wire form of a service endpoint.
pub(crate) fn ep_to_json(e: &ServiceEndpoint) -> (r: Json)
    ensures
        r.jv() == ep_jv(*e),
{
    if e.endpoint_type.is_none() && e.instances.is_none() {
        Json::Str(e.context.clone())
    } else {
        let mut fields: Vec<(String, Json)> = Vec::new();
        let ghost e0 = fields@;
        fields.push(("context".to_owned(), Json::Str(e.context.clone())));
        proof {
            lemma_jv_entries_push(e0, fields@.last());
        }
        match &e.endpoint_type {
            Some(t) => {
                let ghost p = fields@;
                fields.push(("type".to_owned(), Json::Str(t.clone())));
                proof {
                    lemma_jv_entries_push(p, fields@.last());
                }
            },
            None => {},
        }
        match &e.instances {
            Some(v) => {
                let ghost p = fields@;
                fields.push(("instances".to_owned(), strs_to_json(v)));
                proof {
                    lemma_jv_entries_push(p, fields@.last());
                }
            },
            None => {},
        }
        proof {
            assert(jv_entries(fields@, 0) =~= seq![("context"@, JsonV::Str(e.context@))]
                + (match e.endpoint_type {
                Some(t) => seq![("type"@, JsonV::Str(t@))],
                None => Seq::empty(),
            }) + (match e.instances {
                Some(v) => seq![("instances"@, JsonV::Arr(strs_jv(v@, 0)))],
                None => Seq::empty(),
            }));
        }
        Json::Obj(fields)
    }
}

/// Builds the wire form of a service.
pub(crate) fn srv_to_json(s: &Service) -> (r: Json)
    ensures
        r.jv() == srv_jv(*s),
{
    let mut fields: Vec<(String, Json)> = Vec::new();
    let ghost e0 = fields@;
    fields.push(("id".to_owned(), Json::Str(s.id.clone())));
    let ghost e1 = fields@;
    fields.push(("type".to_owned(), Json::Str(s.service_type.clone())));
    let ghost e2 = fields@;
    fields.push(("serviceEndpoint".to_owned(), ep_to_json(&s.service_endpoint)));
    proof {
        lemma_jv_entries_push(e0, e1.last());
        lemma_jv_entries_push(e1, e2.last());
        lemma_jv_entries_push(e2, fields@.last());
        assert(jv_entries(fields@, 0) =~= seq![
            ("id"@, JsonV::Str(s.id@)),
            ("type"@, JsonV::Str(s.service_type@)),
            ("serviceEndpoint"@, ep_jv(s.service_endpoint)),
        ]);
    }
    Json::Obj(fields)
}

/// Builds the wire form of an authentication entry.
pub(crate) fn auth_to_json(a: &Authentication) -> (r: Json)
    ensures
        r.jv() == auth_jv(*a),
{
    match a {
        Authentication::Method(m) => Json::Str(m.clone()),
        Authentication::Key(k) => pk_to_json(k),
    }
}

/// Builds the JSON array of the key collection.
fn pks_to_json(v: &Vec<PublicKey>) -> (r: Json)
    ensures
        r.jv() == JsonV::Arr(pks_jv(v@, 0)),
{
    let mut out: Vec<Json> = Vec::new();
    let mut i: usize = 0;
    while i < v.len()
        invariant
            i <= v@.len(),
            jv_elems(out@, 0) =~= pks_jv(v@, 0).subrange(0, i as int),
        decreases v@.len() - i,
    {
        let ghost prev = out@;
        out.push(pk_to_json(&v[i]));
        proof {
            lemma_jv_elems_push(prev, out@.last());
            lemma_pks_jv(v@, 0);
            assert(jv_elems(out@, 0) =~= pks_jv(v@, 0).subrange(0, i + 1));
        }
        i += 1;
    }
    proof {
        lemma_pks_jv(v@, 0);
        assert(pks_jv(v@, 0).subrange(0, v@.len() as int) =~= pks_jv(v@, 0));
    }
    Json::Arr(out)
}

/// Builds the JSON array of the authentication collection.
fn auths_to_json(v: &Vec<Authentication>) -> (r: Json)
    ensures
        r.jv() == JsonV::Arr(auths_jv(v@, 0)),
{
    let mut out: Vec<Json> = Vec::new();
    let mut i: usize = 0;
    while i < v.len()
        invariant
            i <= v@.len(),
            jv_elems(out@, 0) =~= auths_jv(v@, 0).subrange(0, i as int),
        decreases v@.len() - i,
    {
        let ghost prev = out@;
        out.push(auth_to_json(&v[i]));
        proof {
            lemma_jv_elems_push(prev, out@.last());
            lemma_auths_jv(v@, 0);
            assert(jv_elems(out@, 0) =~= auths_jv(v@, 0).subrange(0, i + 1));
        }
        i += 1;
    }
    proof {
        lemma_auths_jv(v@, 0);
        assert(auths_jv(v@, 0).subrange(0, v@.len() as int) =~= auths_jv(v@, 0));
    }
    Json::Arr(out)
}

/// Builds the JSON array of the service collection.
fn srvs_to_json(v: &Vec<Service>) -> (r: Json)
    ensures
        r.jv() == JsonV::Arr(srvs_jv(v@, 0)),
{
    let mut out: Vec<Json> = Vec::new();
    let mut i: usize = 0;
    while i < v.len()
        invariant
            i <= v@.len(),
            jv_elems(out@, 0) =~= srvs_jv(v@, 0).subrange(0, i as int),
        decreases v@.len() - i,
    {
        let ghost prev = out@;
        out.push(srv_to_json(&v[i]));
        proof {
            lemma_jv_elems_push(prev, out@.last());
            lemma_srvs_jv(v@, 0);
            assert(jv_elems(out@, 0) =~= srvs_jv(v@, 0).subrange(0, i + 1));
        }
        i += 1;
    }
    proof {
        lemma_srvs_jv(v@, 0);
        assert(srvs_jv(v@, 0).subrange(0, v@.len() as int) =~= srvs_jv(v@, 0));
    }
    Json::Arr(out)
}

impl DIDDocument {
    /// The document's wire form as a JSON value.
    pub fn to_json(&self) -> (r: Json)
        ensures
            r.jv() == doc_jv(*self),
    {
        let mut fields: Vec<(String, Json)> = Vec::new();
        let ghost e0 = fields@;
        fields.push(("@context".to_owned(), ctx_to_json(&self.context)));
        let ghost e1 = fields@;
        fields.push(("id".to_owned(), Json::Str(self.id.0.to_string())));
        proof {
            lemma_jv_entries_push(e0, e1.last());
            lemma_jv_entries_push(e1, fields@.last());
        }
        match &self.created {
            Some(c) => {
                let ghost p = fields@;
                fields.push(("created".to_owned(), Json::Str(c.clone())));
                proof {
                    lemma_jv_entries_push(p, fields@.last());
                }
            },
            None => {},
        }
        match &self.updated {
            Some(u) => {
                let ghost p = fields@;
                fields.push(("updated".to_owned(), Json::Str(u.clone())));
                proof {
                    lemma_jv_entries_push(p, fields@.last());
                }
            },
            None => {},
        }
        let ghost p1 = fields@;
        fields.push(("publicKey".to_owned(), pks_to_json(&self.public_key)));
        let ghost p2 = fields@;
        fields.push(("authentication".to_owned(), auths_to_json(&self.auth)));
        let ghost p3 = fields@;
        fields.push(("service".to_owned(), srvs_to_json(&self.services)));
        proof {
            lemma_jv_entries_push(p1, p2.last());
            lemma_jv_entries_push(p2, p3.last());
            lemma_jv_entries_push(p3, fields@.last());
        }
        let ghost base = jv_entries(fields@, 0);
        let mut i: usize = 0;
        while i < self.metadata.len()
            invariant
                i <= self.metadata@.len(),
                jv_entries(fields@, 0) =~= base + md_jv(self.metadata@, 0).subrange(
                    0,
                    i as int,
                ),
            decreases self.metadata@.len() - i,
        {
            let ghost prev = fields@;
            fields.push((self.metadata[i].0.clone(), Json::Str(self.metadata[i].1.clone())));
            proof {
                lemma_jv_entries_push(prev, fields@.last());
                lemma_md_jv(self.metadata@, 0);
                assert(jv_entries(fields@, 0) =~= base + md_jv(self.metadata@, 0).subrange(
                    0,
                    i + 1,
                ));
            }
            i += 1;
        }
        proof {
            lemma_md_jv(self.metadata@, 0);
            assert(md_jv(self.metadata@, 0).subrange(0, self.metadata@.len() as int) =~= md_jv(
                self.metadata@,
                0,
            ));
            assert(jv_entries(fields@, 0) =~= seq![
                ("@context"@, ctx_jv(self.context)),
                ("id"@, JsonV::Str(did_str(self.id.0@))),
            ] + time_jv("created"@, self.created) + time_jv("updated"@, self.updated) + seq![
                ("publicKey"@, JsonV::Arr(pks_jv(self.public_key@, 0))),
                ("authentication"@, JsonV::Arr(auths_jv(self.auth@, 0))),
                ("service"@, JsonV::Arr(srvs_jv(self.services@, 0))),
            ] + md_jv(self.metadata@, 0));
        }
        Json::Obj(fields)
    }

    /// The document's wire text: the compact print of its JSON form.
    pub fn to_string(&self) -> (r: String)
        ensures
            r@ == crate::jsonval::print_jv(doc_jv(*self)),
    {
        self.to_json().to_text()
    }
}

} // verus!

verus! {

/// Key ids pairwise distinct.
pub open spec fn pk_ids_unique(s: Seq<PublicKey>) -> bool {
    forall|i: int, j: int| 0 <= i < j < s.len() ==> (#[trigger] s[i]).id@ != (
    #[trigger] s[j]).id@
}

/// A document as `from_str` hands it out: validated subject identifier,
/// key ids unique, metadata in canonical sorted order.
pub open spec fn doc_ok(d: DIDDocument) -> bool {
    &&& wf_didv(d.id.0@)
    &&& pk_ids_unique(d.public_key@)
    &&& srv_ids_unique(d.services@)
    &&& sorted_md(d.metadata@)
}

/// Service ids pairwise distinct.
pub open spec fn srv_ids_unique(s: Seq<Service>) -> bool {
    forall|i: int, j: int| 0 <= i < j < s.len() ==> (#[trigger] s[i]).id@ != (
    #[trigger] s[j]).id@
}

/// Reads a JSON array of strings.
#[verifier::loop_isolation(false)]
pub(crate) fn strs_from_json(elems: &Vec<Json>) -> (r: Result<Vec<String>, Error>)
    ensures
        (match r {
            Ok(vs) => jv_elems(elems@, 0) == strs_jv(vs@, 0),
            Err(e) => e == Error::Parse,
        }),
{
    let mut out: Vec<String> = Vec::new();
    let mut i: usize = 0;
    while i < elems.len()
        invariant
            i <= elems@.len(),
            out@.len() == i,
            forall|q: int| 0 <= q < i ==> (#[trigger] elems@[q]).jv() == JsonV::Str(
                out@[q]@,
            ),
        decreases elems@.len() - i,
    {
        match &elems[i] {
            Json::Str(s) => {
                out.push(s.clone());
            },
            _ => {
                return Err(Error::Parse);
            },
        }
        i += 1;
    }
    proof {
        lemma_jv_elems(elems@, 0);
        lemma_strs_jv(out@, 0);
        assert forall|q: int| 0 <= q < elems@.len() implies jv_elems(elems@, 0)[q]
            == strs_jv(out@, 0)[q] by {
            assert(jv_elems(elems@, 0)[q] == elems@[q].jv());
        }
        assert(jv_elems(elems@, 0) =~= strs_jv(out@, 0));
    }
    Ok(out)
}

/// Reads a public key object: `id`, `type`, `controller`, and exactly one
/// key-material field. Absent or ambiguous material is a validation
/// failure, any other malformation a parse failure.
pub(crate) fn pk_from_json(j: &Json) -> (r: Result<PublicKey, Error>)
    ensures
        (r matches Err(e) ==> e == Error::Parse || e == Error::Validation),
{
    let fields = match j {
        Json::Obj(fields) => fields,
        _ => {
            return Err(Error::Parse);
        },
    };
    let mut id: Option<String> = None;
    let mut key_type: Option<String> = None;
    let mut controller: Option<String> = None;
    let mut material: Option<KeyData> = None;
    let mut dup = false;
    let mut i: usize = 0;
    while i < fields.len()
        decreases fields@.len() - i,
    {
        let (k, v) = (&fields[i].0, &fields[i].1);
        let text = match v {
            Json::Str(s) => Some(s),
            _ => None,
        };
        if str_eq(k.as_str(), "id") {
            match text {
                Some(s) => id = Some(s.clone()),
                None => {
                    return Err(Error::Parse);
                },
            }
        } else if str_eq(k.as_str(), "type") {
            match text {
                Some(s) => key_type = Some(s.clone()),
                None => {
                    return Err(Error::Parse);
                },
            }
        } else if str_eq(k.as_str(), "controller") {
            match text {
                Some(s) => controller = Some(s.clone()),
                None => {
                    return Err(Error::Parse);
                },
            }
        } else if str_eq(k.as_str(), "publicKeyPem") {
            match text {
                Some(s) => {
                    dup = dup || material.is_some();
                    material = Some(KeyData::Pem(s.clone()));
                },
                None => {
                    return Err(Error::Parse);
                },
            }
        } else if str_eq(k.as_str(), "publicKeyBase58") {
            match text {
                Some(s) => {
                    dup = dup || material.is_some();
                    material = Some(KeyData::Base58(s.clone()));
                },
                None => {
                    return Err(Error::Parse);
                },
            }
        } else if str_eq(k.as_str(), "publicKeyHex") {
            match text {
                Some(s) => {
                    dup = dup || material.is_some();
                    material = Some(KeyData::Hex(s.clone()));
                },
                None => {
                    return Err(Error::Parse);
                },
            }
        }
        i += 1;
    }
    if dup {
        return Err(Error::Validation);
    }
    match (id, key_type, controller, material) {
        (Some(id), Some(key_type), Some(controller), Some(key_data)) => Ok(PublicKey {
            id,
            key_type,
            controller,
            key_data,
        }),
        (_, _, _, None) => Err(Error::Validation),
        _ => Err(Error::Parse),
    }
}

/// Reads a service endpoint: a bare URI string or an object.
pub(crate) fn ep_from_json(j: &Json) -> (r: Result<ServiceEndpoint, Error>)
    ensures
        (r matches Err(e) ==> e == Error::Parse),
{
    match j {
        Json::Str(s) => Ok(ServiceEndpoint {
            context: s.clone(),
            endpoint_type: None,
            instances: None,
        }),
        Json::Obj(fields) => {
            let mut context: Option<String> = None;
            let mut endpoint_type: Option<String> = None;
            let mut instances: Option<Vec<String>> = None;
            let mut i: usize = 0;
            while i < fields.len()
                decreases fields@.len() - i,
            {
                let (k, v) = (&fields[i].0, &fields[i].1);
                if str_eq(k.as_str(), "context") {
                    match v {
                        Json::Str(s) => context = Some(s.clone()),
                        _ => {
                            return Err(Error::Parse);
                        },
                    }
                } else if str_eq(k.as_str(), "type") {
                    match v {
                        Json::Str(s) => endpoint_type = Some(s.clone()),
                        _ => {
                            return Err(Error::Parse);
                        },
                    }
                } else if str_eq(k.as_str(), "instances") {
                    match v {
                        Json::Arr(elems) => {
                            match strs_from_json(elems) {
                                Ok(vs) => instances = Some(vs),
                                Err(e) => {
                                    return Err(e);
                                },
                            }
                        },
                        _ => {
                            return Err(Error::Parse);
                        },
                    }
                }
                i += 1;
            }
            match context {
                Some(context) => Ok(ServiceEndpoint { context, endpoint_type, instances }),
                None => Err(Error::Parse),
            }
        },
        _ => Err(Error::Parse),
    }
}

/// Reads a service object: `id`, `type`, `serviceEndpoint`.
pub(crate) fn srv_from_json(j: &Json) -> (r: Result<Service, Error>)
    ensures
        (r matches Err(e) ==> e == Error::Parse),
{
    let fields = match j {
        Json::Obj(fields) => fields,
        _ => {
            return Err(Error::Parse);
        },
    };
    let mut id: Option<String> = None;
    let mut service_type: Option<String> = None;
    let mut endpoint: Option<ServiceEndpoint> = None;
    let mut i: usize = 0;
    while i < fields.len()
        decreases fields@.len() - i,
    {
        let (k, v) = (&fields[i].0, &fields[i].1);
        if str_eq(k.as_str(), "id") {
            match v {
                Json::Str(s) => id = Some(s.clone()),
                _ => {
                    return Err(Error::Parse);
                },
            }
        } else if str_eq(k.as_str(), "type") {
            match v {
                Json::Str(s) => service_type = Some(s.clone()),
                _ => {
                    return Err(Error::Parse);
                },
            }
        } else if str_eq(k.as_str(), "serviceEndpoint") {
            match ep_from_json(v) {
                Ok(e) => endpoint = Some(e),
                Err(e) => {
                    return Err(e);
                },
            }
        }
        i += 1;
    }
    match (id, service_type, endpoint) {
        (Some(id), Some(service_type), Some(service_endpoint)) => Ok(Service {
            id,
            service_type,
            service_endpoint,
        }),
        _ => Err(Error::Parse),
    }
}

/// Reads an authentication entry: a method-reference string or an
/// embedded key object.
pub(crate) fn auth_from_json(j: &Json) -> (r: Result<Authentication, Error>)
    ensures
        (r matches Err(e) ==> e == Error::Parse || e == Error::Validation),
{
    match j {
        Json::Str(s) => Ok(Authentication::Method(s.clone())),
        Json::Obj(_) => {
            match pk_from_json(j) {
                Ok(k) => Ok(Authentication::Key(k)),
                Err(e) => Err(e),
            }
        },
        _ => Err(Error::Parse),
    }
}

/// The JSON member value denotes the identifier: a string whose parse
/// yields exactly it.
pub open spec fn id_denotes(v: JsonV, d: crate::did::DID) -> bool {
    match v {
        JsonV::Str(x) => crate::did::parse_did_s(x) == Some(d@),
        _ => false,
    }
}

/// The JSON member value denotes the context: its single string, or the
/// array of its entries.
pub open spec fn ctx_denotes(v: JsonV, c: Context) -> bool {
    ||| (c.0@.len() == 1 && v == JsonV::Str(c.0@[0]@))
    ||| v == JsonV::Arr(strs_jv(c.0@, 0))
}

/// Some member with the given key denotes the identifier.
pub open spec fn has_id_entry(entries: Seq<(Seq<char>, JsonV)>, d: crate::did::DID) -> bool {
    exists|q: int|
        0 <= q < entries.len() && (#[trigger] entries[q]).0 == "id"@ && id_denotes(
            entries[q].1,
            d,
        )
}

/// Some member with the given key denotes the context.
pub open spec fn has_ctx_entry(entries: Seq<(Seq<char>, JsonV)>, c: Context) -> bool {
    exists|q: int|
        0 <= q < entries.len() && (#[trigger] entries[q]).0 == "@context"@ && ctx_denotes(
            entries[q].1,
            c,
        )
}

/// The parsed JSON object carries members denoting the document's
/// subject and context.
pub open spec fn obj_fixes_identity(j: JsonV, d: DIDDocument) -> bool {
    match j {
        JsonV::Obj(entries) => has_id_entry(entries, d.id.0) && has_ctx_entry(
            entries,
            d.context,
        ),
        _ => false,
    }
}

/// Reads a whole document from its JSON form: the reserved keys populate
/// the typed fields, every other key joins the metadata. The subject must
/// parse; key ids must be unique.
#[verifier::loop_isolation(false)]
pub fn json_to_doc(j: &Json) -> (r: Result<DIDDocument, Error>)
    ensures
        (match r {
            Ok(d) => doc_ok(d) && obj_fixes_identity(j.jv(), d),
            Err(e) => e == Error::Parse || e == Error::Validation,
        }),
{
    let fields = match j {
        Json::Obj(fields) => fields,
        _ => {
            return Err(Error::Parse);
        },
    };
    let mut context: Option<Context> = None;
    let mut subject: Option<DID> = None;
    let mut created: Option<String> = None;
    let mut updated: Option<String> = None;
    let mut public_key: Vec<PublicKey> = Vec::new();
    let mut auth: Vec<Authentication> = Vec::new();
    let mut services: Vec<Service> = Vec::new();
    let mut metadata: Vec<(String, String)> = Vec::new();
    let mut i: usize = 0;
    while i < fields.len()
        invariant
            (subject matches Some(d) ==> wf_didv(d@) && has_id_entry(
                jv_entries(fields@, 0),
                d,
            )),
            (context matches Some(c) ==> has_ctx_entry(jv_entries(fields@, 0), c)),
            pk_ids_unique(public_key@),
            srv_ids_unique(services@),
            sorted_md(metadata@),
        decreases fields@.len() - i,
    {
        let (k, v) = (&fields[i].0, &fields[i].1);
        if str_eq(k.as_str(), "@context") {
            match v {
                Json::Str(s) => {
                    let mut one: Vec<String> = Vec::new();
                    one.push(s.clone());
                    context = Some(Context(one));
                    proof {
                        lemma_jv_entries(fields@, 0);
                        assert(jv_entries(fields@, 0)[i as int] == (fields@[i as int].0@,
                        fields@[i as int].1.jv()));
                        assert(ctx_denotes(jv_entries(fields@, 0)[i as int].1,
                        context->Some_0));
                        assert(has_ctx_entry(jv_entries(fields@, 0), context->Some_0));
                    }
                },
                Json::Arr(elems) => {
                    match strs_from_json(elems) {
                        Ok(vs) => {
                            context = Some(Context(vs));
                            proof {
                                lemma_jv_entries(fields@, 0);
                                assert(jv_entries(fields@, 0)[i as int] == (fields@[
                                    i as int
                                ].0@, fields@[i as int].1.jv()));
                                assert(ctx_denotes(jv_entries(fields@, 0)[i as int].1,
                                context->Some_0));
                                assert(has_ctx_entry(jv_entries(fields@, 0),
                                context->Some_0));
                            }
                        },
                        Err(e) => {
                            return Err(e);
                        },
                    }
                },
                _ => {
                    return Err(Error::Parse);
                },
            }
        } else if str_eq(k.as_str(), "id") {
            match v {
                Json::Str(s) => {
                    match DID::parse(s.as_str()) {
                        Ok(d) => {
                            proof {
                                crate::did::lemma_parse_did_wf(s@);
                            }
                            subject = Some(d);
                            proof {
                                lemma_jv_entries(fields@, 0);
                                assert(jv_entries(fields@, 0)[i as int] == (fields@[
                                    i as int
                                ].0@, fields@[i as int].1.jv()));
                                assert(id_denotes(jv_entries(fields@, 0)[i as int].1,
                                subject->Some_0));
                                assert(has_id_entry(jv_entries(fields@, 0),
                                subject->Some_0));
                            }
                        },
                        Err(e) => {
                            return Err(e);
                        },
                    }
                },
                _ => {
                    return Err(Error::Parse);
                },
            }
        } else if str_eq(k.as_str(), "created") {
            match v {
                Json::Str(s) => created = Some(s.clone()),
                _ => {
                    return Err(Error::Parse);
                },
            }
        } else if str_eq(k.as_str(), "updated") {
            match v {
                Json::Str(s) => updated = Some(s.clone()),
                _ => {
                    return Err(Error::Parse);
                },
            }
        } else if str_eq(k.as_str(), "publicKey") {
            match v {
                Json::Arr(elems) => {
                    let mut q: usize = 0;
                    while q < elems.len()
                        invariant
                            pk_ids_unique(public_key@),
                        decreases elems@.len() - q,
                    {
                        let key = match pk_from_json(&elems[q]) {
                            Ok(key) => key,
                            Err(e) => {
                                return Err(e);
                            },
                        };
                        match crate::doc::find_pk_x(&public_key, key.id.as_str()) {
                            Some(_) => {
                                return Err(Error::Validation);
                            },
                            None => {
                                proof {
                                    crate::doc::lemma_find_pk(public_key@, key.id@);
                                    let ghost prev = public_key@;
                                    assert forall|a: int, b: int|
                                        0 <= a < b < prev.push(key).len() implies (
                                    #[trigger] prev.push(key)[a]).id@ != (#[trigger] prev.push(
                                        key,
                                    )[b]).id@ by {
                                        if b < prev.len() {
                                        } else {
                                            assert(prev.push(key)[b] == key);
                                            assert(prev.push(key)[a] == prev[a]);
                                        }
                                    }
                                }
                                public_key.push(key);
                            },
                        }
                        q += 1;
                    }
                },
                _ => {
                    return Err(Error::Parse);
                },
            }
        } else if str_eq(k.as_str(), "authentication") {
            match v {
                Json::Arr(elems) => {
                    let mut q: usize = 0;
                    while q < elems.len()
                        decreases elems@.len() - q,
                    {
                        match auth_from_json(&elems[q]) {
                            Ok(a) => auth.push(a),
                            Err(e) => {
                                return Err(e);
                            },
                        }
                        q += 1;
                    }
                },
                _ => {
                    return Err(Error::Parse);
                },
            }
        } else if str_eq(k.as_str(), "service") {
            match v {
                Json::Arr(elems) => {
                    let mut q: usize = 0;
                    while q < elems.len()
                        invariant
                            srv_ids_unique(services@),
                        decreases elems@.len() - q,
                    {
                        let entry = match srv_from_json(&elems[q]) {
                            Ok(entry) => entry,
                            Err(e) => {
                                return Err(e);
                            },
                        };
                        match crate::doc::find_srv_x(&services, entry.id.as_str()) {
                            Some(_) => {
                                return Err(Error::Validation);
                            },
                            None => {
                                proof {
                                    crate::doc::lemma_find_srv(services@, entry.id@);
                                    let ghost prev = services@;
                                    assert forall|a: int, b: int|
                                        0 <= a < b < prev.push(entry).len() implies (
                                    #[trigger] prev.push(entry)[a]).id@ != (
                                    #[trigger] prev.push(entry)[b]).id@ by {
                                        if b < prev.len() {
                                        } else {
                                            assert(prev.push(entry)[b] == entry);
                                            assert(prev.push(entry)[a] == prev[a]);
                                        }
                                    }
                                }
                                services.push(entry);
                            },
                        }
                        q += 1;
                    }
                },
                _ => {
                    return Err(Error::Parse);
                },
            }
        } else {
            match v {
                Json::Str(s) => {
                    crate::doc::insert_sorted(&mut metadata, k.clone(), s.clone());
                },
                _ => {
                    return Err(Error::Parse);
                },
            }
        }
        i += 1;
    }
    let context = match context {
        Some(c) => c,
        None => {
            return Err(Error::Parse);
        },
    };
    let subject = match subject {
        Some(d) => d,
        None => {
            return Err(Error::Parse);
        },
    };
    let d = DIDDocument {
        context,
        id: Subject(subject),
        created,
        updated,
        public_key,
        auth,
        services,
        metadata,
    };
    proof {
        assert(j.jv() == JsonV::Obj(jv_entries(fields@, 0)));
        assert(exists|q: int|
            0 <= q < jv_entries(fields@, 0).len() && (#[trigger] jv_entries(fields@, 0)[
                q
            ]).0 == "id"@ && id_denotes(jv_entries(fields@, 0)[q].1, subject));
        assert(exists|q: int|
            0 <= q < jv_entries(fields@, 0).len() && (#[trigger] jv_entries(fields@, 0)[
                q
            ]).0 == "@context"@ && ctx_denotes(jv_entries(fields@, 0)[q].1, context));
        assert(d.id.0 == subject);
        assert(d.context == context);
        let entries = jv_entries(fields@, 0);
        assert(has_id_entry(entries, d.id.0));
        assert(has_ctx_entry(entries, d.context));
        assert(obj_fixes_identity(JsonV::Obj(entries), d));
        assert(obj_fixes_identity(j.jv(), d));
    }
    Ok(d)
}

impl DIDDocument {
    /// Parses a document from its wire text.
    pub fn from_str(s: &str) -> (r: Result<DIDDocument, Error>)
        ensures
            (match r {
                Ok(d) => doc_ok(d) && (match crate::jsonparse::parse_text(s@) {
                    Some(jv) => obj_fixes_identity(jv, d),
                    None => false,
                }),
                Err(e) => e == Error::Parse || e == Error::Validation,
            }),
            crate::jsonparse::parse_text(s@) is None ==> r == Err::<DIDDocument, Error>(
                Error::Parse,
            ),
    {
        match Json::from_text(s) {
            Some(j) => json_to_doc(&j),
            None => Err(Error::Parse),
        }
    }
}

} // verus!

verus! {

/// Every string of a sequence is plain.
pub open spec fn strs_plain(v: Seq<String>) -> bool {
    forall|i: int| 0 <= i < v.len() ==> crate::jsonval::plain_str((#[trigger] v[i])@)
}

/// An optional string, plain when present.
pub open spec fn opt_plain(o: Option<String>) -> bool {
    match o {
        Some(s) => crate::jsonval::plain_str(s@),
        None => true,
    }
}

/// Every string of a public key is plain.
pub open spec fn pk_plain(k: PublicKey) -> bool {
    &&& crate::jsonval::plain_str(k.id@)
    &&& crate::jsonval::plain_str(k.key_type@)
    &&& crate::jsonval::plain_str(k.controller@)
    &&& (match k.key_data {
        KeyData::Pem(v) => crate::jsonval::plain_str(v@),
        KeyData::Base58(v) => crate::jsonval::plain_str(v@),
        KeyData::Hex(v) => crate::jsonval::plain_str(v@),
    })
}

/// Every string of a service endpoint is plain.
pub open spec fn ep_plain(e: ServiceEndpoint) -> bool {
    &&& crate::jsonval::plain_str(e.context@)
    &&& opt_plain(e.endpoint_type)
    &&& (match e.instances {
        Some(v) => strs_plain(v@),
        None => true,
    })
}

/// Every string of a service is plain.
pub open spec fn srv_plain(s: Service) -> bool {
    &&& crate::jsonval::plain_str(s.id@)
    &&& crate::jsonval::plain_str(s.service_type@)
    &&& ep_plain(s.service_endpoint)
}

/// Every string of an authentication entry is plain.
pub open spec fn auth_plain(a: Authentication) -> bool {
    match a {
        Authentication::Method(m) => crate::jsonval::plain_str(m@),
        Authentication::Key(k) => pk_plain(k),
    }
}

/// Every string anywhere in the document is plain: free of `"`, `\` and
/// control characters. This is the document's serializability condition:
/// exactly these documents print as well-formed JSON, since the wire
/// model carries no escape sequences.
pub open spec fn doc_plain(d: DIDDocument) -> bool {
    &&& strs_plain(d.context.0@)
    &&& crate::jsonval::plain_str(d.id.0.method_name@)
    &&& strs_plain(d.id.0.id_segments@)
    &&& opt_plain(d.id.0.fragment)
    &&& opt_plain(d.created)
    &&& opt_plain(d.updated)
    &&& (forall|i: int| 0 <= i < d.public_key@.len() ==> pk_plain(#[trigger] d.public_key@[i]))
    &&& (forall|i: int| 0 <= i < d.auth@.len() ==> auth_plain(#[trigger] d.auth@[i]))
    &&& (forall|i: int| 0 <= i < d.services@.len() ==> srv_plain(#[trigger] d.services@[i]))
    &&& (forall|i: int| 0 <= i < d.metadata@.len() ==> crate::jsonval::plain_str(
        (#[trigger] d.metadata@[i]).0@,
    ) && crate::jsonval::plain_str(d.metadata@[i].1@))
}

/// Well-formedness of a member list: plain keys, well-formed values.
pub open spec fn wf_entries(s: Seq<(Seq<char>, JsonV)>) -> bool {
    forall|i: int| 0 <= i < s.len() ==> crate::jsonval::plain_str((#[trigger] s[i]).0)
        && crate::jsonval::wf_jv(s[i].1)
}

/// `wf_entries` splits over concatenation.
proof fn lemma_wf_entries_cat(a: Seq<(Seq<char>, JsonV)>, b: Seq<(Seq<char>, JsonV)>)
    requires
        wf_entries(a),
        wf_entries(b),
    ensures
        wf_entries(a + b),
{
    assert forall|i: int| 0 <= i < (a + b).len() implies crate::jsonval::plain_str(
        (#[trigger] (a + b)[i]).0,
    ) && crate::jsonval::wf_jv((a + b)[i].1) by {
        if i < a.len() {
            assert((a + b)[i] == a[i]);
        } else {
            assert((a + b)[i] == b[i - a.len()]);
        }
    }
}

/// A plain key's wire form is well-formed.
proof fn lemma_pk_jv_wf(k: PublicKey)
    requires
        pk_plain(k),
    ensures
        crate::jsonval::wf_jv(pk_jv(k)),
{
    reveal_strlit("id");
    reveal_strlit("type");
    reveal_strlit("controller");
    reveal_strlit("publicKeyPem");
    reveal_strlit("publicKeyBase58");
    reveal_strlit("publicKeyHex");
    let entries = (match pk_jv(k) {
        JsonV::Obj(entries) => entries,
        _ => Seq::empty(),
    });
    assert forall|i: int| 0 <= i < entries.len() implies crate::jsonval::plain_str(
        (#[trigger] entries[i]).0,
    ) && crate::jsonval::wf_jv(entries[i].1) by {
        assert(crate::jsonval::plain_str("id"@));
        assert(crate::jsonval::plain_str("type"@));
        assert(crate::jsonval::plain_str("controller"@));
        assert(crate::jsonval::plain_str("publicKeyPem"@));
        assert(crate::jsonval::plain_str("publicKeyBase58"@));
        assert(crate::jsonval::plain_str("publicKeyHex"@));
        assert(entries[3] == material_jv(k.key_data));
    }
}

/// A plain endpoint's wire form is well-formed.
proof fn lemma_ep_jv_wf(e: ServiceEndpoint)
    requires
        ep_plain(e),
    ensures
        crate::jsonval::wf_jv(ep_jv(e)),
{
    reveal_strlit("context");
    reveal_strlit("type");
    reveal_strlit("instances");
    if !(e.endpoint_type is None && e.instances is None) {
        let head = seq![("context"@, JsonV::Str(e.context@))];
        let mid: Seq<(Seq<char>, JsonV)> = match e.endpoint_type {
            Some(t) => seq![("type"@, JsonV::Str(t@))],
            None => Seq::empty(),
        };
        let tail: Seq<(Seq<char>, JsonV)> = match e.instances {
            Some(v) => seq![("instances"@, JsonV::Arr(strs_jv(v@, 0)))],
            None => Seq::empty(),
        };
        match e.instances {
            Some(v) => {
                lemma_strs_jv(v@, 0);
                assert forall|i: int| 0 <= i < strs_jv(v@, 0).len() implies
                    crate::jsonval::wf_jv(#[trigger] strs_jv(v@, 0)[i]) by {
                    assert(strs_jv(v@, 0)[i] == JsonV::Str(v@[i]@));
                }
            },
            None => {},
        }
        lemma_wf_entries_cat(head, mid);
        lemma_wf_entries_cat(head + mid, tail);
        assert(wf_entries(head + mid + tail));
    }
}

/// A plain service's wire form is well-formed.
proof fn lemma_srv_jv_wf(s: Service)
    requires
        srv_plain(s),
    ensures
        crate::jsonval::wf_jv(srv_jv(s)),
{
    reveal_strlit("id");
    reveal_strlit("type");
    reveal_strlit("serviceEndpoint");
    lemma_ep_jv_wf(s.service_endpoint);
    let entries = (match srv_jv(s) {
        JsonV::Obj(entries) => entries,
        _ => Seq::empty(),
    });
    assert forall|i: int| 0 <= i < entries.len() implies crate::jsonval::plain_str(
        (#[trigger] entries[i]).0,
    ) && crate::jsonval::wf_jv(entries[i].1) by {
        assert(crate::jsonval::plain_str("id"@));
        assert(crate::jsonval::plain_str("type"@));
        assert(crate::jsonval::plain_str("serviceEndpoint"@));
        assert(entries[2].1 == ep_jv(s.service_endpoint));
    }
}

/// A plain authentication entry's wire form is well-formed.
proof fn lemma_auth_jv_wf(a: Authentication)
    requires
        auth_plain(a),
    ensures
        crate::jsonval::wf_jv(auth_jv(a)),
{
    match a {
        Authentication::Method(_) => {},
        Authentication::Key(k) => {
            lemma_pk_jv_wf(k);
        },
    }
}

/// The serializability law: a plain document's wire form is well-formed
/// JSON — every key and string in it prints without needing an escape —
/// so its printed text is valid document wire text.
pub proof fn lemma_doc_plain_wf(d: DIDDocument)
    requires
        doc_plain(d),
        wf_didv(d.id.0@),
    ensures
        crate::jsonval::wf_jv(doc_jv(d)),
{
    reveal_strlit("@context");
    reveal_strlit("id");
    reveal_strlit("created");
    reveal_strlit("updated");
    reveal_strlit("publicKey");
    reveal_strlit("authentication");
    reveal_strlit("service");
    let head = seq![("@context"@, ctx_jv(d.context)), ("id"@, JsonV::Str(did_str(d.id.0@)))];
    let tc = time_jv("created"@, d.created);
    let tu = time_jv("updated"@, d.updated);
    let mids = seq![
        ("publicKey"@, JsonV::Arr(pks_jv(d.public_key@, 0))),
        ("authentication"@, JsonV::Arr(auths_jv(d.auth@, 0))),
        ("service"@, JsonV::Arr(srvs_jv(d.services@, 0))),
    ];
    let md = md_jv(d.metadata@, 0);

    match ctx_jv(d.context) {
        JsonV::Arr(elems) => {
            lemma_strs_jv(d.context.0@, 0);
            assert forall|i: int| 0 <= i < elems.len() implies crate::jsonval::wf_jv(
                #[trigger] elems[i],
            ) by {
                assert(elems[i] == JsonV::Str(d.context.0@[i]@));
            }
        },
        _ => {},
    }
    crate::did::lemma_did_str_plain(d.id.0@);
    lemma_pks_jv(d.public_key@, 0);
    assert forall|i: int| 0 <= i < pks_jv(d.public_key@, 0).len() implies
        crate::jsonval::wf_jv(#[trigger] pks_jv(d.public_key@, 0)[i]) by {
        assert(pks_jv(d.public_key@, 0)[i] == pk_jv(d.public_key@[i]));
        lemma_pk_jv_wf(d.public_key@[i]);
    }
    lemma_auths_jv(d.auth@, 0);
    assert forall|i: int| 0 <= i < auths_jv(d.auth@, 0).len() implies crate::jsonval::wf_jv(
        #[trigger] auths_jv(d.auth@, 0)[i],
    ) by {
        assert(auths_jv(d.auth@, 0)[i] == auth_jv(d.auth@[i]));
        lemma_auth_jv_wf(d.auth@[i]);
    }
    lemma_srvs_jv(d.services@, 0);
    assert forall|i: int| 0 <= i < srvs_jv(d.services@, 0).len() implies
        crate::jsonval::wf_jv(#[trigger] srvs_jv(d.services@, 0)[i]) by {
        assert(srvs_jv(d.services@, 0)[i] == srv_jv(d.services@[i]));
        lemma_srv_jv_wf(d.services@[i]);
    }
    lemma_md_jv(d.metadata@, 0);
    assert forall|i: int| 0 <= i < md.len() implies crate::jsonval::plain_str(
        (#[trigger] md[i]).0,
    ) && crate::jsonval::wf_jv(md[i].1) by {
        assert(md[i] == (d.metadata@[i].0@, JsonV::Str(d.metadata@[i].1@)));
    }
    assert(wf_entries(head));
    assert(wf_entries(tc));
    assert(wf_entries(tu));
    assert(wf_entries(mids));
    assert(wf_entries(md));
    lemma_wf_entries_cat(head, tc);
    lemma_wf_entries_cat(head + tc, tu);
    lemma_wf_entries_cat(head + tc + tu, mids);
    lemma_wf_entries_cat(head + tc + tu + mids, md);
    assert(wf_entries(head + tc + tu + mids + md));
}

} // verus!
