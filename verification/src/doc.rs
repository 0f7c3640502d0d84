//! The DID document aggregate: context, subject identifier, public keys,
//! authentication entries, services, timestamps and free-form metadata,
//! with its validation and upsert rules.

use vstd::prelude::*;
use crate::Error;
use crate::did::DID;

verus! {

broadcast use vstd::std_specs::vec::group_vec_axioms, vstd::utf8::char_u32_cast;

/// Compares two strings character by character.
pub fn str_eq(a: &str, b: &str) -> (r: bool)
    ensures
        r == (a@ == b@),
{
    let la = a.unicode_len();
    if la != b.unicode_len() {
        return false;
    }
    let mut i: usize = 0;
    while i < la
        invariant
            i <= la,
            la == a@.len() == b@.len(),
            forall|k: int| 0 <= k < i ==> a@[k] == b@[k],
        decreases la - i,
    {
        if a.get_char(i) != b.get_char(i) {
            return false;
        }
        i += 1;
    }
    proof {
        assert(a@ =~= b@);
    }
    true
}

/// Strict lexicographic order on character sequences, by scalar value.
pub open spec fn lex_lt(a: Seq<char>, b: Seq<char>) -> bool
    decreases a.len(),
{
    if b.len() == 0 {
        false
    } else if a.len() == 0 {
        true
    } else if (a[0] as u32) < (b[0] as u32) {
        true
    } else if (a[0] as u32) > (b[0] as u32) {
        false
    } else {
        lex_lt(a.drop_first(), b.drop_first())
    }
}

/// Executable `lex_lt`, comparing from position `i` on.
fn lex_lt_from(a: &str, b: &str, i: usize) -> (r: bool)
    requires
        i <= a@.len(),
        i <= b@.len(),
    ensures
        r == lex_lt(a@.skip(i as int), b@.skip(i as int)),
    decreases a@.len() - i,
{
    if i == b.unicode_len() {
        false
    } else if i == a.unicode_len() {
        true
    } else {
        let ca = a.get_char(i) as u32;
        let cb = b.get_char(i) as u32;
        proof {
            assert(a@.skip(i as int)[0] == a@[i as int]);
            assert(b@.skip(i as int)[0] == b@[i as int]);
            assert(a@.skip(i as int).drop_first() =~= a@.skip(i as int + 1));
            assert(b@.skip(i as int).drop_first() =~= b@.skip(i as int + 1));
        }
        if ca < cb {
            true
        } else if ca > cb {
            false
        } else {
            lex_lt_from(a, b, i + 1)
        }
    }
}

/// Executable strict lexicographic comparison.
pub fn str_lt(a: &str, b: &str) -> (r: bool)
    ensures
        r == lex_lt(a@, b@),
{
    proof {
        assert(a@.skip(0) =~= a@);
        assert(b@.skip(0) =~= b@);
    }
    lex_lt_from(a, b, 0)
}

/// The ordered context collection: a sequence of URI strings. It prints
/// as a single string when it holds exactly one entry.
#[derive(Debug, Clone, PartialEq, Eq)]
pub struct Context(pub Vec<String>);

impl Context {
    /// A context over the given entries, in their order.
    pub fn new(uris: Vec<String>) -> (r: Context)
        ensures
            r.0@ == uris@,
    {
        Context(uris)
    }
}

impl Default for Context {
    /// The base context of the wider system.
    fn default() -> (r: Context)
        ensures
            r.0@.len() == 1,
            r.0@[0]@ == "https://www.w3.org/ns/did/v1"@,
    {
        let mut v: Vec<String> = Vec::new();
        v.push("https://www.w3.org/ns/did/v1".to_owned());
        Context(v)
    }
}

impl From<&str> for Context {
    /// A single-entry context.
    fn from(s: &str) -> (r: Context) {
        let mut v: Vec<String> = Vec::new();
        v.push(s.to_owned());
        Context(v)
    }
}

impl vstd::std_specs::convert::FromSpecImpl<&str> for Context {
    open spec fn obeys_from_spec() -> bool {
        false
    }

    open spec fn from_spec(s: &str) -> Context {
        arbitrary()
    }
}

/// The document's subject: a structured identifier.
#[derive(Debug, Clone, Default, PartialEq, Eq)]
pub struct Subject(pub DID);

impl From<DID> for Subject {
    /// Wraps an identifier as a subject.
    fn from(d: DID) -> (r: Subject) {
        Subject(d)
    }
}

impl vstd::std_specs::convert::FromSpecImpl<DID> for Subject {
    open spec fn obeys_from_spec() -> bool {
        true
    }

    open spec fn from_spec(d: DID) -> Subject {
        Subject(d)
    }
}

impl From<&str> for Subject {
    /// Parses a subject from its string form; an unparseable string
    /// yields the default subject.
    fn from(s: &str) -> (r: Subject) {
        match DID::parse(s) {
            Ok(d) => Subject(d),
            Err(_) => Subject(DID {
                method_name: String::new(),
                id_segments: Vec::new(),
                fragment: None,
            }),
        }
    }
}

impl vstd::std_specs::convert::FromSpecImpl<&str> for Subject {
    open spec fn obeys_from_spec() -> bool {
        false
    }

    open spec fn from_spec(s: &str) -> Subject {
        arbitrary()
    }
}

/// Exactly one key-material representation, tagged by its wire name.
#[derive(Debug, Clone, PartialEq, Eq)]
pub enum KeyData {
    /// `publicKeyPem` material.
    Pem(String),
    /// `publicKeyBase58` material.
    Base58(String),
    /// `publicKeyHex` material.
    Hex(String),
}

/// A public key entry of the document.
#[derive(Debug, Clone, PartialEq, Eq)]
pub struct PublicKey {
    /// DID-URI of the key, unique within a document.
    pub id: String,
    /// Key suite tag, e.g. `RsaVerificationKey2018`.
    pub key_type: String,
    /// Controller DID of the key.
    pub controller: String,
    /// The single populated key-material field.
    pub key_data: KeyData,
}

impl PublicKey {
    /// Builds a key from its parts. The material kind must be exactly one
    /// of the three wire names; anything else is a validation failure.
    pub fn new(id: String, key_type: String, controller: String, kind: String, value: String)
        -> (r: Result<PublicKey, Error>)
        ensures
            (match r {
                Ok(k) => {
                    &&& k.id == id
                    &&& k.key_type == key_type
                    &&& k.controller == controller
                    &&& (kind@ == "publicKeyPem"@ ==> k.key_data == KeyData::Pem(value))
                    &&& (kind@ == "publicKeyBase58"@ ==> k.key_data == KeyData::Base58(value))
                    &&& (kind@ == "publicKeyHex"@ ==> k.key_data == KeyData::Hex(value))
                    &&& (kind@ == "publicKeyPem"@ || kind@ == "publicKeyBase58"@ || kind@
                        == "publicKeyHex"@)
                },
                Err(e) => {
                    &&& e == Error::Validation
                    &&& kind@ != "publicKeyPem"@
                    &&& kind@ != "publicKeyBase58"@
                    &&& kind@ != "publicKeyHex"@
                },
            }),
    {
        proof {
            reveal_strlit("publicKeyPem");
            reveal_strlit("publicKeyBase58");
            reveal_strlit("publicKeyHex");
            assert("publicKeyPem"@.len() == 12);
            assert("publicKeyBase58"@.len() == 15);
            assert("publicKeyHex"@.len() == 12);
            assert("publicKeyPem"@[9] == 'P');
            assert("publicKeyHex"@[9] == 'H');
            assert("publicKeyPem"@ != "publicKeyBase58"@);
            assert("publicKeyPem"@ != "publicKeyHex"@);
            assert("publicKeyBase58"@ != "publicKeyHex"@);
        }
        let data = if str_eq(kind.as_str(), "publicKeyPem") {
            Some(KeyData::Pem(value))
        } else if str_eq(kind.as_str(), "publicKeyBase58") {
            Some(KeyData::Base58(value))
        } else if str_eq(kind.as_str(), "publicKeyHex") {
            Some(KeyData::Hex(value))
        } else {
            None
        };
        match data {
            Some(key_data) => Ok(PublicKey { id, key_type, controller, key_data }),
            None => Err(Error::Validation),
        }
    }
}

/// Where a service is reachable: a URI, optionally refined by a type tag
/// and instance list.
#[derive(Debug, Clone, PartialEq, Eq)]
pub struct ServiceEndpoint {
    /// The endpoint URI.
    pub context: String,
    /// Optional endpoint type tag.
    pub endpoint_type: Option<String>,
    /// Optional endpoint instance URIs.
    pub instances: Option<Vec<String>>,
}

/// A service entry of the document.
#[derive(Debug, Clone, PartialEq, Eq)]
pub struct Service {
    /// DID-URI of the service, unique within a document.
    pub id: String,
    /// Service type tag.
    pub service_type: String,
    /// Where the service is reachable.
    pub service_endpoint: ServiceEndpoint,
}

impl Service {
    /// Builds a service entry from its parts.
    pub fn new(
        id: String,
        service_type: String,
        endpoint: String,
        endpoint_type: Option<String>,
        instances: Option<Vec<String>>,
    ) -> (r: Result<Service, Error>)
        ensures
            (match r {
                Ok(s) => {
                    &&& s.id == id
                    &&& s.service_type == service_type
                    &&& s.service_endpoint.context == endpoint
                    &&& s.service_endpoint.endpoint_type == endpoint_type
                    &&& s.service_endpoint.instances == instances
                },
                Err(_) => false,
            }),
    {
        Ok(Service {
            id,
            service_type,
            service_endpoint: ServiceEndpoint { context: endpoint, endpoint_type, instances },
        })
    }
}

/// An authentication entry: a reference to a key of the document by id,
/// or an embedded document-local key.
#[derive(Debug, Clone, PartialEq, Eq)]
pub enum Authentication {
    /// Reference to a key by id; resolved lazily against the key set.
    Method(String),
    /// An embedded, self-contained key.
    Key(PublicKey),
}

} // verus!

verus! {

/// Relies on chrono's `DateTime::<Utc>::from_timestamp` and its `Display`:
/// the current instant as a UTC timestamp string such as
/// `2020-08-25 21:47:28.344412100 UTC`. A clock before the Unix epoch or
/// beyond chrono's range is clamped to the epoch here, so the call never
/// aborts. Whatever instant the clock reads, the printed form is ASCII
/// text of digits, letters, spaces and punctuation, so it is nonempty and
/// free of characters that would need a JSON escape.
#[verifier::external_body]
fn now_string() -> (r: String)
    ensures
        r@.len() > 0,
        crate::jsonval::plain_str(r@),
{
    let since_epoch = std::time::SystemTime::now()
        .duration_since(std::time::UNIX_EPOCH)
        .unwrap_or_default();
    let instant = chrono::DateTime::<chrono::Utc>::from_timestamp(
        since_epoch.as_secs() as i64,
        since_epoch.subsec_nanos(),
    )
    .unwrap_or_default();
    instant.to_string()
}

/// Relies on std's `HashMap::iter`: yields each entry of the map exactly
/// once, in no particular order. Keys compare equal by content, so their
/// character views are pairwise distinct.
#[verifier::external_body]
fn map_pairs(m: &std::collections::HashMap<String, String>) -> (r: Vec<(String, String)>)
    ensures
        forall|i: int| 0 <= i < r@.len() ==> m@.contains_pair(
            #[trigger] r@[i].0,
            r@[i].1,
        ),
        forall|i: int, j: int| 0 <= i < j < r@.len() ==> r@[i].0@ != r@[j].0@,
        forall|k: String| m@.dom().contains(k) ==> exists|i: int|
            0 <= i < r@.len() && #[trigger] r@[i].0 == k,
{
    m.iter().map(|(k, v)| (k.clone(), v.clone())).collect()
}

/// First index whose key id has the given character content, or -1.
pub open spec fn find_pk(s: Seq<PublicKey>, id: Seq<char>) -> int
    decreases s.len(),
{
    if s.len() == 0 {
        -1
    } else if s[0].id@ == id {
        0
    } else {
        let r = find_pk(s.drop_first(), id);
        if r < 0 {
            -1
        } else {
            r + 1
        }
    }
}

/// What `find_pk` finds: the first match, or nothing to find.
pub proof fn lemma_find_pk(s: Seq<PublicKey>, id: Seq<char>)
    ensures
        find_pk(s, id) >= 0 ==> 0 <= find_pk(s, id) < s.len() && s[find_pk(s, id)].id@ == id
            && forall|k: int| 0 <= k < find_pk(s, id) ==> (#[trigger] s[k]).id@ != id,
        find_pk(s, id) < 0 ==> forall|k: int| 0 <= k < s.len() ==> (#[trigger] s[k]).id@ != id,
    decreases s.len(),
{
    if s.len() > 0 && s[0].id@ != id {
        let t = s.drop_first();
        lemma_find_pk(t, id);
        let r = find_pk(t, id);
        if r >= 0 {
            assert(find_pk(s, id) == r + 1);
            assert(s[r + 1] == t[r]);
            assert forall|k: int| 0 <= k < r + 1 implies (#[trigger] s[k]).id@ != id by {
                if k > 0 {
                    assert(s[k] == t[k - 1]);
                }
            }
        } else {
            assert forall|k: int| 0 <= k < s.len() implies (#[trigger] s[k]).id@ != id by {
                if k > 0 {
                    assert(s[k] == t[k - 1]);
                }
            }
        }
    }
}

/// The upsert of `k` into a key sequence: replace the first entry with the
/// same id, else append.
pub open spec fn upsert_pk(s: Seq<PublicKey>, k: PublicKey) -> Seq<PublicKey> {
    let i = find_pk(s, k.id@);
    if i >= 0 {
        s.update(i, k)
    } else {
        s.push(k)
    }
}

/// First index whose service id has the given character content, or -1.
pub open spec fn find_srv(s: Seq<Service>, id: Seq<char>) -> int
    decreases s.len(),
{
    if s.len() == 0 {
        -1
    } else if s[0].id@ == id {
        0
    } else {
        let r = find_srv(s.drop_first(), id);
        if r < 0 {
            -1
        } else {
            r + 1
        }
    }
}

/// What `find_srv` finds: the first match, or nothing to find.
pub proof fn lemma_find_srv(s: Seq<Service>, id: Seq<char>)
    ensures
        find_srv(s, id) >= 0 ==> 0 <= find_srv(s, id) < s.len() && s[find_srv(s, id)].id@ == id
            && forall|k: int| 0 <= k < find_srv(s, id) ==> (#[trigger] s[k]).id@ != id,
        find_srv(s, id) < 0 ==> forall|k: int| 0 <= k < s.len() ==> (#[trigger] s[k]).id@ != id,
    decreases s.len(),
{
    if s.len() > 0 && s[0].id@ != id {
        let t = s.drop_first();
        lemma_find_srv(t, id);
        let r = find_srv(t, id);
        if r >= 0 {
            assert(find_srv(s, id) == r + 1);
            assert(s[r + 1] == t[r]);
            assert forall|k: int| 0 <= k < r + 1 implies (#[trigger] s[k]).id@ != id by {
                if k > 0 {
                    assert(s[k] == t[k - 1]);
                }
            }
        } else {
            assert forall|k: int| 0 <= k < s.len() implies (#[trigger] s[k]).id@ != id by {
                if k > 0 {
                    assert(s[k] == t[k - 1]);
                }
            }
        }
    }
}

/// The upsert of `v` into a service sequence.
pub open spec fn upsert_srv(s: Seq<Service>, v: Service) -> Seq<Service> {
    let i = find_srv(s, v.id@);
    if i >= 0 {
        s.update(i, v)
    } else {
        s.push(v)
    }
}

/// A reserved top-level key of the document wire format; metadata keys
/// must never collide with one.
pub open spec fn reserved_key(k: Seq<char>) -> bool {
    k == "@context"@ || k == "id"@ || k == "publicKey"@ || k == "authentication"@ || k
        == "service"@ || k == "created"@ || k == "updated"@
}

/// Metadata entries strictly sorted by key.
pub open spec fn sorted_md(s: Seq<(String, String)>) -> bool {
    forall|i: int, j: int| 0 <= i < j < s.len() ==> lex_lt(
        (#[trigger] s[i]).0@,
        (#[trigger] s[j]).0@,
    )
}

/// The map a metadata sequence denotes.
pub open spec fn md_map(s: Seq<(String, String)>) -> Map<Seq<char>, Seq<char>>
    decreases s.len(),
{
    if s.len() == 0 {
        Map::empty()
    } else {
        md_map(s.drop_last()).insert(s.last().0@, s.last().1@)
    }
}

/// Executable reserved-key test.
pub fn is_reserved(k: &str) -> (r: bool)
    ensures
        r == reserved_key(k@),
{
    str_eq(k, "@context") || str_eq(k, "id") || str_eq(k, "publicKey") || str_eq(
        k,
        "authentication",
    ) || str_eq(k, "service") || str_eq(k, "created") || str_eq(k, "updated")
}

} // verus!

verus! {

/// Inserts `(k, v)` into a sorted metadata sequence, replacing an equal key.
pub(crate) fn insert_sorted(md: &mut Vec<(String, String)>, k: String, v: String)
    requires
        sorted_md(old(md)@),
    ensures
        sorted_md(final(md)@),
        md_map(final(md)@) == md_map(old(md)@).insert(k@, v@),
        forall|q: Seq<char>| q != k@ ==> (md_map(old(md)@).dom().contains(q)
            <==> md_map(final(md)@).dom().contains(q)),
{
    let ghost orig = md@;
    let mut i: usize = 0;
    while i < md.len()
        invariant
            i <= md@.len(),
            md@ == orig,
            orig == old(md)@,
            sorted_md(orig),
            forall|q: int| 0 <= q < i ==> lex_lt((#[trigger] orig[q]).0@, k@),
        decreases md@.len() - i,
    {
        if str_eq(md[i].0.as_str(), k.as_str()) {
            md.set(i, (k, v));
            proof {
                lemma_md_update(orig, md@, i as int);
            }
            return;
        }
        if str_lt(k.as_str(), md[i].0.as_str()) {
            md.insert(i, (k, v));
            proof {
                assert(forall|q: int| 0 <= q < i ==> md@[q] == #[trigger] orig[q]);
                assert(forall|q: int| i < q < md@.len() ==> md@[q] == #[trigger] orig[q - 1]);
                assert(md@[i as int].0@ == k@);
                lemma_md_insert(orig, md@, i as int);
            }
            return;
        }
        proof {
            if !lex_lt(orig[i as int].0@, k@) {
                lemma_lex_connected(orig[i as int].0@, k@);
            }
        }
        i += 1;
    }
    md.push((k, v));
    proof {
        assert(md@.drop_last() =~= orig);
        assert forall|q: int| 0 <= q < orig.len() implies (#[trigger] orig[q]).0@ != k@ by {
            lemma_lex_irrefl(orig[q].0@, k@);
        }
        lemma_md_fresh_key(orig, k@);
        assert(md_map(md@) == md_map(orig).insert(k@, v@));
    }
}

/// Two distinct strings are lexicographically comparable.
proof fn lemma_lex_connected(a: Seq<char>, b: Seq<char>)
    requires
        !lex_lt(a, b),
        !lex_lt(b, a),
    ensures
        a == b,
    decreases a.len(),
{
    if a.len() > 0 && b.len() > 0 {
        assert(!((a[0] as u32) < (b[0] as u32)));
        assert(!((b[0] as u32) < (a[0] as u32)));
        vstd::utf8::char_u32_cast(a[0], a[0] as u32);
        vstd::utf8::char_u32_cast(b[0], a[0] as u32);
        assert(a[0] == b[0]);
        assert(!lex_lt(a.drop_first(), b.drop_first()));
        assert(!lex_lt(b.drop_first(), a.drop_first()));
        lemma_lex_connected(a.drop_first(), b.drop_first());
        assert forall|q: int| 0 <= q < a.len() implies a[q] == b[q] by {
            if q > 0 {
                assert(a[q] == a.drop_first()[q - 1]);
                assert(b[q] == b.drop_first()[q - 1]);
            }
        }
        assert(a =~= b);
    } else {
        assert(a =~= b);
    }
}

/// A key smaller than every entry of a sorted sequence is absent from its map.
proof fn lemma_md_fresh_key(s: Seq<(String, String)>, k: Seq<char>)
    requires
        forall|q: int| 0 <= q < s.len() ==> (#[trigger] s[q]).0@ != k,
    ensures
        !md_map(s).dom().contains(k),
    decreases s.len(),
{
    if s.len() > 0 {
        assert forall|q: int| 0 <= q < s.drop_last().len() implies (#[trigger] s.drop_last()[
            q
        ]).0@ != k by {
            assert(s.drop_last()[q] == s[q]);
        }
        lemma_md_fresh_key(s.drop_last(), k);
    }
}

/// Replacing the entry at `i` by one with the same key updates the map.
proof fn lemma_md_update(orig: Seq<(String, String)>, cur: Seq<(String, String)>, i: int)
    requires
        0 <= i < orig.len(),
        cur.len() == orig.len(),
        forall|q: int| 0 <= q < orig.len() && q != i ==> cur[q] == #[trigger] orig[q],
        cur[i].0@ == orig[i].0@,
        sorted_md(orig),
    ensures
        sorted_md(cur),
        md_map(cur) == md_map(orig).insert(cur[i].0@, cur[i].1@),
        forall|q: Seq<char>| q != cur[i].0@ ==> (md_map(orig).dom().contains(q)
            <==> md_map(cur).dom().contains(q)),
    decreases orig.len(),
{
    assert forall|a: int, b: int| 0 <= a < b < cur.len() implies lex_lt(
        (#[trigger] cur[a]).0@,
        (#[trigger] cur[b]).0@,
    ) by {
        assert(cur[a].0@ == orig[a].0@);
        assert(cur[b].0@ == orig[b].0@);
    }
    if i == orig.len() - 1 {
        assert forall|q: int| 0 <= q < cur.drop_last().len() implies #[trigger] cur.drop_last()[
            q
        ] == orig.drop_last()[q] by {
            assert(cur.drop_last()[q] == cur[q]);
            assert(orig.drop_last()[q] == orig[q]);
        }
        assert(cur.drop_last() =~= orig.drop_last());
        assert(cur.last() == cur[i]);
        assert(orig.last() == orig[i]);
        assert(md_map(cur) == md_map(orig.drop_last()).insert(cur[i].0@, cur[i].1@));
        lemma_md_fresh_key_sorted(orig);
        assert(md_map(orig) == md_map(orig.drop_last()).insert(orig[i].0@, orig[i].1@));
        assert(md_map(cur) =~= md_map(orig).insert(cur[i].0@, cur[i].1@));
    } else {
        assert forall|q: int| 0 <= q < orig.drop_last().len() && q != i implies #[trigger] cur.drop_last()[
            q
        ] == orig.drop_last()[q] by {
            assert(cur.drop_last()[q] == cur[q]);
            assert(orig.drop_last()[q] == orig[q]);
        }
        assert(cur.drop_last()[i] == cur[i]);
        assert(orig.drop_last()[i] == orig[i]);
        assert forall|a: int, b: int| 0 <= a < b < orig.drop_last().len() implies lex_lt(
            (#[trigger] orig.drop_last()[a]).0@,
            (#[trigger] orig.drop_last()[b]).0@,
        ) by {
            assert(orig.drop_last()[a] == orig[a]);
            assert(orig.drop_last()[b] == orig[b]);
        }
        lemma_md_update(orig.drop_last(), cur.drop_last(), i);
        assert(cur.last() == orig.last());
        assert(md_map(cur) == md_map(cur.drop_last()).insert(orig.last().0@, orig.last().1@));
        assert(md_map(orig) == md_map(orig.drop_last()).insert(orig.last().0@, orig.last().1@));
        assert(lex_lt(orig[i].0@, orig.last().0@));
        lemma_lex_irrefl(orig[i].0@, orig.last().0@);
        assert(cur[i].0@ != orig.last().0@);
        assert(md_map(cur) =~= md_map(orig).insert(cur[i].0@, cur[i].1@));
    }
}

/// In a sorted sequence the last key does not occur earlier.
proof fn lemma_md_fresh_key_sorted(s: Seq<(String, String)>)
    requires
        sorted_md(s),
        s.len() > 0,
    ensures
        !md_map(s.drop_last()).dom().contains(s.last().0@),
{
    assert forall|q: int| 0 <= q < s.drop_last().len() implies (#[trigger] s.drop_last()[
        q
    ]).0@ != s.last().0@ by {
        assert(lex_lt(s[q].0@, s.last().0@));
        lemma_lex_irrefl(s[q].0@, s.last().0@);
    }
    lemma_md_fresh_key(s.drop_last(), s.last().0@);
}

/// A string is never lexicographically below itself.
proof fn lemma_lex_irrefl(a: Seq<char>, b: Seq<char>)
    requires
        lex_lt(a, b),
    ensures
        a != b,
    decreases a.len(),
{
    if a.len() > 0 && b.len() > 0 && a[0] == b[0] {
        lemma_lex_irrefl(a.drop_first(), b.drop_first());
        if a == b {
            assert(a.drop_first() == b.drop_first());
        }
    }
}

/// Inserting a fresh key at sorted position `i` updates the map.
proof fn lemma_md_insert(orig: Seq<(String, String)>, cur: Seq<(String, String)>, i: int)
    requires
        0 <= i <= orig.len(),
        cur.len() == orig.len() + 1,
        forall|q: int| 0 <= q < i ==> cur[q] == #[trigger] orig[q],
        forall|q: int| i < q < cur.len() ==> cur[q] == #[trigger] orig[q - 1],
        forall|q: int| 0 <= q < i ==> lex_lt((#[trigger] orig[q]).0@, cur[i].0@),
        i < orig.len() ==> lex_lt(cur[i].0@, orig[i].0@),
        sorted_md(orig),
    ensures
        sorted_md(cur),
        md_map(cur) == md_map(orig).insert(cur[i].0@, cur[i].1@),
        forall|q: Seq<char>| q != cur[i].0@ ==> (md_map(orig).dom().contains(q)
            <==> md_map(cur).dom().contains(q)),
    decreases orig.len(),
{
    lemma_lex_trans_all(orig, cur, i);
    if i == orig.len() {
        assert forall|q: int| 0 <= q < cur.drop_last().len() implies #[trigger] cur.drop_last()[
            q
        ] == orig[q] by {
            assert(cur.drop_last()[q] == cur[q]);
        }
        assert(cur.drop_last() =~= orig);
        assert(cur.last() == cur[i]);
        assert forall|q: int| 0 <= q < orig.len() implies (#[trigger] orig[q]).0@ != cur[
            i
        ].0@ by {
            lemma_lex_irrefl(orig[q].0@, cur[i].0@);
        }
        lemma_md_fresh_key(orig, cur[i].0@);
        assert(md_map(cur) == md_map(orig).insert(cur[i].0@, cur[i].1@));
    } else {
        assert forall|q: int| 0 <= q < i implies #[trigger] cur.drop_last()[q] == orig.drop_last()[
            q
        ] by {
            assert(cur.drop_last()[q] == cur[q]);
            assert(orig.drop_last()[q] == orig[q]);
        }
        assert forall|q: int| i < q < cur.drop_last().len() implies #[trigger] cur.drop_last()[
            q
        ] == orig.drop_last()[q - 1] by {
            assert(cur.drop_last()[q] == cur[q]);
            assert(orig.drop_last()[q - 1] == orig[q - 1]);
        }
        assert(cur.drop_last()[i] == cur[i]);
        assert forall|q: int| 0 <= q < i implies lex_lt(
            (#[trigger] orig.drop_last()[q]).0@,
            cur.drop_last()[i].0@,
        ) by {
            assert(orig.drop_last()[q] == orig[q]);
        }
        assert forall|a: int, b: int| 0 <= a < b < orig.drop_last().len() implies lex_lt(
            (#[trigger] orig.drop_last()[a]).0@,
            (#[trigger] orig.drop_last()[b]).0@,
        ) by {
            assert(orig.drop_last()[a] == orig[a]);
            assert(orig.drop_last()[b] == orig[b]);
        }
        assert(i < orig.drop_last().len() ==> lex_lt(cur.drop_last()[i].0@, orig.drop_last()[i].0@));
        lemma_md_insert(orig.drop_last(), cur.drop_last(), i);
        assert(cur.last() == orig.last());
        assert(lex_lt(cur[i].0@, orig[i].0@));
        assert(lex_lt(orig[i].0@, orig.last().0@) || i == orig.len() - 1);
        if i < orig.len() - 1 {
            lemma_lex_trans(cur[i].0@, orig[i].0@, orig.last().0@);
        }
        lemma_lex_irrefl(cur[i].0@, orig.last().0@);
        assert(cur[i].0@ != orig.last().0@);
        assert(md_map(cur) == md_map(cur.drop_last()).insert(orig.last().0@, orig.last().1@));
        assert(md_map(orig) == md_map(orig.drop_last()).insert(orig.last().0@, orig.last().1@));
        assert(md_map(cur) =~= md_map(orig).insert(cur[i].0@, cur[i].1@));
    }
}

/// Sortedness of the spliced sequence in `lemma_md_insert`.
proof fn lemma_lex_trans_all(orig: Seq<(String, String)>, cur: Seq<(String, String)>, i: int)
    requires
        0 <= i <= orig.len(),
        cur.len() == orig.len() + 1,
        forall|q: int| 0 <= q < i ==> cur[q] == #[trigger] orig[q],
        forall|q: int| i < q < cur.len() ==> cur[q] == #[trigger] orig[q - 1],
        forall|q: int| 0 <= q < i ==> lex_lt((#[trigger] orig[q]).0@, cur[i].0@),
        i < orig.len() ==> lex_lt(cur[i].0@, orig[i].0@),
        sorted_md(orig),
    ensures
        sorted_md(cur),
{
    assert forall|a: int, b: int| 0 <= a < b < cur.len() implies lex_lt(
        (#[trigger] cur[a]).0@,
        (#[trigger] cur[b]).0@,
    ) by {
        if b < i {
            assert(cur[a] == orig[a]);
            assert(cur[b] == orig[b]);
        } else if a < i && b == i {
            assert(cur[a] == orig[a]);
        } else if a == i && b > i {
            assert(cur[b] == orig[b - 1]);
            assert(lex_lt(cur[i].0@, orig[i].0@));
            if b > i + 1 {
                assert(lex_lt(orig[i].0@, orig[b - 1].0@));
                lemma_lex_trans(cur[i].0@, orig[i].0@, orig[b - 1].0@);
            }
        } else if a < i && b > i {
            assert(cur[a] == orig[a]);
            assert(cur[b] == orig[b - 1]);
            assert(lex_lt(orig[a].0@, cur[i].0@));
            assert(lex_lt(cur[i].0@, orig[i].0@));
            lemma_lex_trans(orig[a].0@, cur[i].0@, orig[i].0@);
            if b > i + 1 {
                assert(lex_lt(orig[i].0@, orig[b - 1].0@));
                lemma_lex_trans(orig[a].0@, orig[i].0@, orig[b - 1].0@);
            }
        } else {
            assert(a > i);
            assert(cur[a] == orig[a - 1]);
            assert(cur[b] == orig[b - 1]);
            assert(lex_lt(orig[a - 1].0@, orig[b - 1].0@));
        }
    }
}

/// Lexicographic order is transitive.
proof fn lemma_lex_trans(a: Seq<char>, b: Seq<char>, c: Seq<char>)
    requires
        lex_lt(a, b),
        lex_lt(b, c),
    ensures
        lex_lt(a, c),
    decreases a.len(),
{
    assert(b.len() > 0);
    assert(c.len() > 0);
    if a.len() > 0 {
        if (a[0] as u32) == (b[0] as u32) && (b[0] as u32) == (c[0] as u32) {
            assert(lex_lt(a.drop_first(), b.drop_first()));
            assert(lex_lt(b.drop_first(), c.drop_first()));
            lemma_lex_trans(a.drop_first(), b.drop_first(), c.drop_first());
        } else {
            assert((a[0] as u32) <= (b[0] as u32));
            assert((b[0] as u32) <= (c[0] as u32));
            assert((a[0] as u32) < (c[0] as u32));
        }
    }
}

} // verus!

verus! {

/// The DID document aggregate. Collections keep insertion order; metadata
/// is kept sorted by key so that equal maps compare equal.
#[derive(Debug, Clone, Default, PartialEq, Eq)]
pub struct DIDDocument {
    /// The `@context` entries.
    pub context: Context,
    /// The document subject.
    pub id: Subject,
    /// Creation timestamp, once stamped.
    pub created: Option<String>,
    /// Last-update timestamp.
    pub updated: Option<String>,
    /// Public keys, unique by id.
    pub public_key: Vec<PublicKey>,
    /// Authentication entries, in insertion order.
    pub auth: Vec<Authentication>,
    /// Services, unique by id.
    pub services: Vec<Service>,
    /// Free-form metadata, sorted by key, never colliding with a
    /// reserved field name.
    pub metadata: Vec<(String, String)>,
}

/// First key index with the given id, as an option.
pub(crate) fn find_pk_x(v: &Vec<PublicKey>, id: &str) -> (r: Option<usize>)
    ensures
        (match r {
            Some(i) => i == find_pk(v@, id@) && i < v@.len(),
            None => find_pk(v@, id@) == -1,
        }),
{
    proof {
        lemma_find_pk(v@, id@);
    }
    let mut i: usize = 0;
    while i < v.len()
        invariant
            i <= v@.len(),
            forall|q: int| 0 <= q < i ==> (#[trigger] v@[q]).id@ != id@,
        decreases v@.len() - i,
    {
        if str_eq(v[i].id.as_str(), id) {
            proof {
                lemma_find_pk(v@, id@);
            }
            return Some(i);
        }
        i += 1;
    }
    proof {
        lemma_find_pk(v@, id@);
    }
    None
}

/// First service index with the given id, as an option.
pub(crate) fn find_srv_x(v: &Vec<Service>, id: &str) -> (r: Option<usize>)
    ensures
        (match r {
            Some(i) => i == find_srv(v@, id@) && i < v@.len(),
            None => find_srv(v@, id@) == -1,
        }),
{
    proof {
        lemma_find_srv(v@, id@);
    }
    let mut i: usize = 0;
    while i < v.len()
        invariant
            i <= v@.len(),
            forall|q: int| 0 <= q < i ==> (#[trigger] v@[q]).id@ != id@,
        decreases v@.len() - i,
    {
        if str_eq(v[i].id.as_str(), id) {
            proof {
                lemma_find_srv(v@, id@);
            }
            return Some(i);
        }
        i += 1;
    }
    proof {
        lemma_find_srv(v@, id@);
    }
    None
}

impl DIDDocument {
    /// A document over the given context and subject, with empty
    /// collections and no timestamps.
    pub fn new(context: Context, id: Subject) -> (r: DIDDocument)
        ensures
            r.context == context,
            r.id == id,
            r.created is None,
            r.updated is None,
            r.public_key@ =~= Seq::<PublicKey>::empty(),
            r.auth@ =~= Seq::<Authentication>::empty(),
            r.services@ =~= Seq::<Service>::empty(),
            r.metadata@ =~= Seq::<(String, String)>::empty(),
    {
        DIDDocument {
            context,
            id,
            created: None,
            updated: None,
            public_key: Vec::new(),
            auth: Vec::new(),
            services: Vec::new(),
            metadata: Vec::new(),
        }
    }

    /// Finishes construction. Collections are always present in this
    /// representation, so the document passes through unchanged; the call
    /// is idempotent.
    pub fn init(self) -> (r: DIDDocument)
        ensures
            r == self,
    {
        self
    }

    /// Stamps `created` and `updated` with the same current instant.
    /// Re-stamping an already stamped document is rejected, preserving
    /// creation-time integrity.
    pub fn init_timestamps(self) -> (r: Result<DIDDocument, Error>)
        ensures
            (match r {
                Ok(d) => {
                    &&& old_fields_but_time(self, d)
                    &&& self.created is None
                    &&& self.updated is None
                    &&& d.created is Some
                    &&& d.created == d.updated
                    &&& (d.created matches Some(ts) ==> ts@.len() > 0
                        && crate::jsonval::plain_str(ts@))
                },
                Err(e) => {
                    &&& e == Error::Validation
                    &&& (self.created is Some || self.updated is Some)
                },
            }),
    {
        if self.created.is_some() || self.updated.is_some() {
            Err(Error::Validation)
        } else {
            let now = now_string();
            let now2 = now.clone();
            Ok(DIDDocument { created: Some(now), updated: Some(now2), ..self })
        }
    }

    /// Advances `updated` to the current instant; `created` is untouched.
    pub fn update_time(&mut self)
        ensures
            old_fields_but_updated(*old(self), *final(self)),
            final(self).updated is Some,
            (final(self).updated matches Some(ts) ==> ts@.len() > 0
                && crate::jsonval::plain_str(ts@)),
    {
        self.updated = Some(now_string());
    }

    /// Upserts a public key by id: replaces the first entry with the same
    /// id, else appends.
    pub fn update_public_key(&mut self, key: PublicKey)
        ensures
            final(self).public_key@ == upsert_pk(old(self).public_key@, key),
            old_fields_but_pk(*old(self), *final(self)),
    {
        let r = find_pk_x(&self.public_key, key.id.as_str());
        match r {
            Some(i) => {
                self.public_key.set(i, key);
            },
            None => {
                self.public_key.push(key);
            },
        }
    }

    /// Upserts a service by id: replaces the first entry with the same
    /// id, else appends.
    pub fn update_service(&mut self, service: Service)
        ensures
            final(self).services@ == upsert_srv(old(self).services@, service),
            old_fields_but_srv(*old(self), *final(self)),
    {
        let r = find_srv_x(&self.services, service.id.as_str());
        match r {
            Some(i) => {
                self.services.set(i, service);
            },
            None => {
                self.services.push(service);
            },
        }
    }

    /// Appends an authentication entry. A method reference is not checked
    /// against the key set here: resolution is deferred to lookup time.
    pub fn update_auth(&mut self, auth: Authentication)
        ensures
            final(self).auth@ == old(self).auth@.push(auth),
            old_fields_but_auth(*old(self), *final(self)),
    {
        self.auth.push(auth);
    }

    /// Resolves a method reference against the key collection: the first
    /// key with the referenced id, or nothing for an unresolved reference.
    pub fn resolve_reference(&self, reference: &str) -> (r: Option<&PublicKey>)
        ensures
            (match r {
                Some(k) => find_pk(self.public_key@, reference@) >= 0 && *k
                    == self.public_key@[find_pk(self.public_key@, reference@)],
                None => find_pk(self.public_key@, reference@) == -1,
            }),
    {
        match find_pk_x(&self.public_key, reference) {
            Some(i) => Some(&self.public_key[i]),
            None => None,
        }
    }

    /// Resolves an authentication entry: an embedded key is already
    /// resolved; a method reference is looked up in the key collection.
    pub fn resolve_auth<'a>(&'a self, entry: &'a Authentication) -> (r: Option<&'a PublicKey>)
        ensures
            (match entry {
                Authentication::Key(k) => (match r {
                    Some(k2) => k2 == k,
                    None => false,
                }),
                Authentication::Method(m) => (match r {
                    Some(k) => find_pk(self.public_key@, m@) >= 0 && *k
                        == self.public_key@[find_pk(self.public_key@, m@)],
                    None => find_pk(self.public_key@, m@) == -1,
                }),
            }),
    {
        match entry {
            Authentication::Key(k) => Some(k),
            Authentication::Method(m) => self.resolve_reference(m.as_str()),
        }
    }

    /// Merges key/value pairs into the metadata. A single key colliding
    /// with a reserved document field name rejects the whole call, leaving
    /// no partial merge behind.
    pub fn supply_metadata(self, additions: std::collections::HashMap<String, String>) -> (r:
        Result<DIDDocument, Error>)
        requires
            sorted_md(self.metadata@),
        ensures
            (match r {
                Ok(d) => {
                    &&& old_fields_but_md(self, d)
                    &&& sorted_md(d.metadata@)
                    &&& (forall|ks: String| additions@.dom().contains(ks) ==> !reserved_key(
                        ks@,
                    ))
                    &&& (forall|ks: String, vs: String| additions@.contains_pair(ks, vs)
                        ==> md_map(d.metadata@).contains_pair(ks@, vs@))
                    &&& (forall|q: Seq<char>| #![trigger md_map(self.metadata@).dom().contains(q)]
                        !(exists|ks: String| additions@.dom().contains(ks) && ks@ == q) ==> (
                        md_map(d.metadata@).dom().contains(q) <==> md_map(
                            self.metadata@,
                        ).dom().contains(q)) && (md_map(self.metadata@).dom().contains(q)
                            ==> md_map(d.metadata@)[q] == md_map(self.metadata@)[q]))
                },
                Err(e) => {
                    &&& e == Error::Validation
                    &&& (exists|ks: String| additions@.dom().contains(ks) && reserved_key(
                        ks@,
                    ))
                },
            }),
    {
        let pairs = map_pairs(&additions);
        let mut j: usize = 0;
        while j < pairs.len()
            invariant
                j <= pairs@.len(),
                forall|q: int| 0 <= q < j ==> !reserved_key((#[trigger] pairs@[q].0)@),
                forall|i: int| 0 <= i < pairs@.len() ==> additions@.contains_pair(
                    #[trigger] pairs@[i].0,
                    pairs@[i].1,
                ),
            decreases pairs@.len() - j,
        {
            if is_reserved(pairs[j].0.as_str()) {
                proof {
                    assert(additions@.dom().contains(pairs@[j as int].0));
                }
                return Err(Error::Validation);
            }
            j += 1;
        }
        let ghost m0 = self.metadata@;
        let ghost ps = pairs@;
        let mut doc = self;
        let mut i: usize = 0;
        while i < pairs.len()
            invariant
                i <= ps.len(),
                pairs@ == ps,
                forall|q: int| 0 <= q < ps.len() ==> !reserved_key((#[trigger] ps[q].0)@),
                forall|q: int| 0 <= q < ps.len() ==> additions@.contains_pair(
                    #[trigger] ps[q].0,
                    ps[q].1,
                ),
                forall|ks: String| additions@.dom().contains(ks) ==> exists|w: int|
                    0 <= w < ps.len() && #[trigger] ps[w].0 == ks,
                sorted_md(doc.metadata@),
                old_fields_but_md(self, doc),
                m0 == self.metadata@,
                sorted_md(m0),
                forall|a: int, b: int| 0 <= a < b < ps.len() ==> ps[a].0@ != ps[b].0@,
                forall|q: int| 0 <= q < i ==> md_map(doc.metadata@).contains_pair(
                    (#[trigger] ps[q].0)@,
                    ps[q].1@,
                ),
                forall|q: Seq<char>| #![trigger md_map(m0).dom().contains(q)]
                    !(exists|a: int| 0 <= a < i && ps[a].0@ == q) ==> (md_map(
                    doc.metadata@,
                ).dom().contains(q) <==> md_map(m0).dom().contains(q)) && (md_map(
                    m0,
                ).dom().contains(q) ==> md_map(doc.metadata@)[q] == md_map(m0)[q]),
            decreases ps.len() - i,
        {
            let (k, v) = (pairs[i].0.clone(), pairs[i].1.clone());
            proof {
                assert(k == ps[i as int].0);
                assert(v == ps[i as int].1);
            }
            let ghost prev_md = doc.metadata@;
            insert_sorted(&mut doc.metadata, k, v);
            proof {
                assert(md_map(doc.metadata@) == md_map(prev_md).insert(
                    ps[i as int].0@,
                    ps[i as int].1@,
                ));
                assert forall|q: Seq<char>| #![trigger md_map(m0).dom().contains(q)]
                    !(exists|a: int| 0 <= a < i + 1 && ps[a].0@ == q) implies (
                    md_map(doc.metadata@).dom().contains(q) <==> md_map(m0).dom().contains(
                    q,
                )) && (md_map(m0).dom().contains(q) ==> md_map(doc.metadata@)[q] == md_map(
                    m0,
                )[q]) by {
                    assert forall|a: int| 0 <= a < i implies ps[a].0@ != q by {
                        assert(!(0 <= a < i + 1 && ps[a].0@ == q));
                    }
                    assert(!(exists|a: int| 0 <= a < i && ps[a].0@ == q));
                    assert(q != ps[i as int].0@);
                    assert(md_map(doc.metadata@).dom().contains(q) <==> md_map(
                        prev_md,
                    ).dom().contains(q));
                    assert(md_map(prev_md).dom().contains(q) <==> md_map(m0).dom().contains(
                        q,
                    ));
                    if md_map(m0).dom().contains(q) {
                        assert(md_map(doc.metadata@)[q] == md_map(prev_md)[q]);
                        assert(md_map(prev_md)[q] == md_map(m0)[q]);
                    }
                }
                assert forall|q: int| 0 <= q < i + 1 implies md_map(
                    doc.metadata@,
                ).contains_pair((#[trigger] ps[q].0)@, ps[q].1@) by {
                    if q < i {
                        assert(ps[q].0@ != ps[i as int].0@);
                    }
                }
            }
            i += 1;
        }
        proof {
            assert forall|ks: String, vs: String| additions@.contains_pair(ks, vs) implies
                md_map(doc.metadata@).contains_pair(ks@, vs@) by {
                let w = choose|w: int| 0 <= w < ps.len() && #[trigger] ps[w].0 == ks;
                assert(additions@.contains_pair(ps[w].0, ps[w].1));
                assert(ps[w].1 == vs);
                assert(md_map(doc.metadata@).contains_pair(ps[w].0@, ps[w].1@));
            }
            assert forall|ks: String| additions@.dom().contains(ks) implies !reserved_key(
                ks@,
            ) by {
                let w = choose|w: int| 0 <= w < ps.len() && #[trigger] ps[w].0 == ks;
                assert(!reserved_key(ps[w].0@));
            }
        }
        Ok(doc)
    }
}

/// All fields equal except the timestamps.
pub open spec fn old_fields_but_time(a: DIDDocument, b: DIDDocument) -> bool {
    &&& a.context == b.context
    &&& a.id == b.id
    &&& a.public_key == b.public_key
    &&& a.auth == b.auth
    &&& a.services == b.services
    &&& a.metadata == b.metadata
}

/// All fields equal except `updated`.
pub open spec fn old_fields_but_updated(a: DIDDocument, b: DIDDocument) -> bool {
    &&& old_fields_but_time(a, b)
    &&& a.created == b.created
}

/// All fields equal except the key collection.
pub open spec fn old_fields_but_pk(a: DIDDocument, b: DIDDocument) -> bool {
    &&& a.context == b.context
    &&& a.id == b.id
    &&& a.created == b.created
    &&& a.updated == b.updated
    &&& a.auth == b.auth
    &&& a.services == b.services
    &&& a.metadata == b.metadata
}

/// All fields equal except the service collection.
pub open spec fn old_fields_but_srv(a: DIDDocument, b: DIDDocument) -> bool {
    &&& a.context == b.context
    &&& a.id == b.id
    &&& a.created == b.created
    &&& a.updated == b.updated
    &&& a.public_key == b.public_key
    &&& a.auth == b.auth
    &&& a.metadata == b.metadata
}

/// All fields equal except the authentication collection.
pub open spec fn old_fields_but_auth(a: DIDDocument, b: DIDDocument) -> bool {
    &&& a.context == b.context
    &&& a.id == b.id
    &&& a.created == b.created
    &&& a.updated == b.updated
    &&& a.public_key == b.public_key
    &&& a.services == b.services
    &&& a.metadata == b.metadata
}

/// All fields equal except the metadata.
pub open spec fn old_fields_but_md(a: DIDDocument, b: DIDDocument) -> bool {
    &&& a.context == b.context
    &&& a.id == b.id
    &&& a.created == b.created
    &&& a.updated == b.updated
    &&& a.public_key == b.public_key
    &&& a.auth == b.auth
    &&& a.services == b.services
}

} // verus!

verus! {

/// Upsert is idempotent: writing the same key twice leaves the
/// collection exactly as after the first write.
pub proof fn lemma_upsert_pk_idempotent(s: Seq<PublicKey>, k: PublicKey)
    ensures
        upsert_pk(upsert_pk(s, k), k) == upsert_pk(s, k),
{
    lemma_find_pk(s, k.id@);
    let i = find_pk(s, k.id@);
    let s1 = upsert_pk(s, k);
    lemma_find_pk(s1, k.id@);
    let j = find_pk(s1, k.id@);
    if i >= 0 {
        assert(s1 == s.update(i, k));
        assert(s1[i].id@ == k.id@);
        assert(j >= 0);
        assert forall|q: int| 0 <= q < i implies (#[trigger] s1[q]).id@ != k.id@ by {
            assert(s1[q] == s[q]);
        }
        if j < i {
            assert(s1[j].id@ == k.id@);
            assert(false);
        }
        if j > i {
            assert(s1[i].id@ == k.id@);
            assert(false);
        }
        assert(j == i);
        assert(s1[j] == k);
        assert(upsert_pk(s1, k) == s1.update(j, k));
        assert(s1.update(j, k) =~= s1);
    } else {
        assert(s1 == s.push(k));
        assert(s1[s.len() as int] == k);
        assert(j >= 0);
        assert forall|q: int| 0 <= q < s.len() implies (#[trigger] s1[q]).id@ != k.id@ by {
            assert(s1[q] == s[q]);
        }
        assert(j == s.len());
        assert(upsert_pk(s1, k) == s1.update(j, k));
        assert(s1.update(j, k) =~= s1);
    }
}

/// The same, at the document level: a second identical key upsert is a
/// no-op.
pub proof fn lemma_update_public_key_idempotent(d0: DIDDocument, d1: DIDDocument, d2: DIDDocument, k: PublicKey)
    requires
        d1.public_key@ == upsert_pk(d0.public_key@, k),
        old_fields_but_pk(d0, d1),
        d2.public_key@ == upsert_pk(d1.public_key@, k),
        old_fields_but_pk(d1, d2),
    ensures
        d2.public_key@ == d1.public_key@,
{
    lemma_upsert_pk_idempotent(d0.public_key@, k);
}

} // verus!
