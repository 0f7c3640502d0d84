use identity_core::did::DID;
use identity_core::doc::{Authentication, Context, DIDDocument, PublicKey, Service, Subject};
use identity_core::policy::{
    document_field_order, extract_option_segment, field_order, into_from, should_ignore,
    FieldAttr, FieldDecl, FieldRule,
};
use identity_core::Error;
use std::collections::HashMap;

fn sample_doc() -> DIDDocument {
    let mut doc = DIDDocument {
        context: Context::new(vec![
            "https://w3id.org/did/v1".into(),
            "https://w3id.org/security/v1".into(),
        ]),
        id: Subject::from("did:iota:123456789abcdefghi"),
        ..Default::default()
    }
    .init();
    let key = PublicKey::new(
        "did:iota:123456789abcdefghi#keys-1".into(),
        "RsaVerificationKey2018".into(),
        "did:iota:123456789abcdefghi".into(),
        "publicKeyBase58".into(),
        "H3C2AVvLMv6gmMNam3uVAjZpfkcJCwDwnZn6z3wXmqPV".into(),
    )
    .unwrap();
    doc.update_public_key(key);
    let service = Service::new(
        "did:into:123#edv".into(),
        "EncryptedDataVault".into(),
        "https://edv.example.com/".into(),
        None,
        None,
    )
    .unwrap();
    doc.update_service(service);
    doc.update_auth(Authentication::Method(
        "did:iota:123456789abcdefghi#keys-1".into(),
    ));
    doc
}

#[test]
fn test_round_trip_document() {
    let doc = sample_doc();
    let text = doc.to_string();
    let parsed = DIDDocument::from_str(&text).unwrap();
    assert_eq!(parsed, doc);
}

#[test]
fn test_round_trip_identifier() {
    let did = DID::parse("did:iota:123456789abcdefghi#keys-1").unwrap();
    assert_eq!(did.method_name, "iota");
    assert_eq!(did.id_segments, vec!["123456789abcdefghi".to_string()]);
    assert_eq!(did.fragment, Some("keys-1".to_string()));
    assert_eq!(did.to_string(), "did:iota:123456789abcdefghi#keys-1");

    let multi = DID::parse("did:example:a:b:c").unwrap();
    assert_eq!(multi.id_segments.len(), 3);
    assert_eq!(multi.to_string(), "did:example:a:b:c");
}

#[test]
fn test_identifier_parse_errors() {
    assert_eq!(DID::parse("urn:iota:x"), Err(Error::Parse));
    assert_eq!(DID::parse("did:iota"), Err(Error::Parse));
    assert_eq!(DID::parse("did::x"), Err(Error::Parse));
    assert_eq!(DID::parse("did:IOTA:x"), Err(Error::Parse));
    assert_eq!(DID::parse("did:iota:x#"), Err(Error::Parse));
    assert_eq!(
        DID {
            method_name: "".into(),
            id_segments: vec!["x".into()],
            fragment: None,
        }
        .init(),
        Err(Error::Parse)
    );
}

#[test]
fn test_diff_identity() {
    let doc = sample_doc();
    let stream = doc.diff(&doc).unwrap();
    assert!(stream.is_empty());

    let empty = DIDDocument::default();
    assert!(empty.diff(&empty).unwrap().is_empty());
}

#[test]
fn test_diff_apply_law() {
    let base = DIDDocument {
        context: Context::from("https://w3id.org/did/v1"),
        id: Subject::from("did:iota:123456789abcdefghi"),
        ..Default::default()
    }
    .init();
    let target = sample_doc();
    let stream = base.diff(&target).unwrap();
    let rebuilt = base.apply(&stream).unwrap();
    assert_eq!(rebuilt, target);
}

#[test]
fn test_upsert_idempotence() {
    let mut doc = sample_doc();
    let key = PublicKey::new(
        "did:iota:123456789abcdefghi#keys-9".into(),
        "Ed25519VerificationKey2018".into(),
        "did:iota:123456789abcdefghi".into(),
        "publicKeyHex".into(),
        "02b97c30de767f084ce3080168ee293053ba33b235d7116a3263d29f1450936b71".into(),
    )
    .unwrap();
    doc.update_public_key(key.clone());
    let once = doc.clone();
    doc.update_public_key(key);
    assert_eq!(doc, once);
    assert_eq!(doc.public_key.len(), 2);
}

#[test]
fn test_metadata_collision() {
    let doc = sample_doc();
    let snapshot = doc.clone();
    let mut bad = HashMap::new();
    bad.insert("id".to_string(), "x".to_string());
    let r = doc.clone().supply_metadata(bad);
    assert_eq!(r, Err(Error::Validation));
    assert_eq!(doc, snapshot);
}

#[test]
fn test_key_material_validation() {
    let r = PublicKey::new(
        "did:iota:123#k".into(),
        "RsaVerificationKey2018".into(),
        "did:iota:123".into(),
        "publicKeyJwk".into(),
        "xyz".into(),
    );
    assert_eq!(r, Err(Error::Validation));
}

#[test]
fn test_parse_rejects_ambiguous_material() {
    let json_str = r#"
    {
        "@context": "https://w3id.org/did/v1",
        "id": "did:iota:123456789abcdefghi",
        "publicKey": [{
            "id": "did:iota:123456789abcdefghi#keys-1",
            "type": "RsaVerificationKey2018",
            "controller": "did:iota:123456789abcdefghi",
            "publicKeyPem": "pem",
            "publicKeyHex": "beef"
        }]
    }
    "#;
    assert_eq!(DIDDocument::from_str(json_str), Err(Error::Validation));
}

#[test]
fn test_parse_rejects_duplicate_key_ids() {
    let json_str = r#"
    {
        "@context": "https://w3id.org/did/v1",
        "id": "did:iota:123456789abcdefghi",
        "publicKey": [{
            "id": "did:iota:123456789abcdefghi#keys-1",
            "type": "RsaVerificationKey2018",
            "controller": "did:iota:123456789abcdefghi",
            "publicKeyPem": "pem"
        }, {
            "id": "did:iota:123456789abcdefghi#keys-1",
            "type": "Ed25519VerificationKey2018",
            "controller": "did:iota:123456789abcdefghi",
            "publicKeyBase58": "abc"
        }]
    }
    "#;
    assert_eq!(DIDDocument::from_str(json_str), Err(Error::Validation));
}

#[test]
fn test_parse_rejects_malformed_text() {
    assert_eq!(DIDDocument::from_str("not json"), Err(Error::Parse));
    assert_eq!(DIDDocument::from_str("{}"), Err(Error::Parse));
    assert_eq!(
        DIDDocument::from_str(r#"{"@context": "c", "id": "nope"}"#),
        Err(Error::Parse)
    );
}

#[test]
fn test_apply_rejects_bad_stream() {
    let doc = sample_doc();
    // A stream addressing a field the document does not have.
    let bad = identity_core::diff::instructions_from_str(
        r#"[{"Enter":{"Field":"missing"}},{"Value":"x"}]"#,
    )
    .unwrap();
    assert_eq!(doc.apply(&bad), Err(Error::DiffApply));
    // An exit with nothing open.
    let unbalanced = identity_core::diff::instructions_from_str(r#"["Exit"]"#).unwrap();
    assert_eq!(doc.apply(&unbalanced), Err(Error::DiffApply));
}

#[test]
fn test_timestamps() {
    let doc = sample_doc();
    let stamped = doc.init_timestamps().unwrap();
    assert!(stamped.created.is_some());
    assert_eq!(stamped.created, stamped.updated);
    assert_eq!(stamped.clone().init_timestamps(), Err(Error::Validation));

    let mut touched = stamped.clone();
    touched.update_time();
    assert_eq!(touched.created, stamped.created);
    assert!(touched.updated.is_some());
}

#[test]
fn test_resolution() {
    let doc = sample_doc();
    let hit = doc.resolve_reference("did:iota:123456789abcdefghi#keys-1");
    assert!(hit.is_some());
    assert_eq!(hit.unwrap().key_type, "RsaVerificationKey2018");
    assert!(doc.resolve_reference("did:iota:123456789abcdefghi#nope").is_none());

    let by_ref = Authentication::Method("did:iota:123456789abcdefghi#keys-1".into());
    assert!(doc.resolve_auth(&by_ref).is_some());
    let dangling = Authentication::Method("did:iota:123456789abcdefghi#nope".into());
    assert!(doc.resolve_auth(&dangling).is_none());
    let embedded = Authentication::Key(doc.public_key[0].clone());
    assert_eq!(doc.resolve_auth(&embedded), Some(&doc.public_key[0]));
}

#[test]
fn test_auth_order_round_trip() {
    // A bare method reference, an unresolved reference, and an embedded
    // key keep their order through a serialization round trip.
    let mut doc = sample_doc();
    doc.update_auth(Authentication::Method(
        "did:iota:123456789abcdefghi#biometric-1".into(),
    ));
    let embedded = PublicKey::new(
        "did:iota:123456789abcdefghi#keys-2".into(),
        "Ed25519VerificationKey2018".into(),
        "did:iota:123456789abcdefghi".into(),
        "publicKeyBase58".into(),
        "H3C2AVvLMv6gmMNam3uVAjZpfkcJCwDwnZn6z3wXmqPV".into(),
    )
    .unwrap();
    doc.update_auth(Authentication::Key(embedded));
    assert_eq!(doc.auth.len(), 3);
    let parsed = DIDDocument::from_str(&doc.to_string()).unwrap();
    assert_eq!(parsed.auth, doc.auth);
    assert_eq!(parsed, doc);
}

#[test]
fn test_field_policy() {
    let plain = vec!["Option".to_string()];
    assert_eq!(extract_option_segment(&plain), Some(&"Option".to_string()));
    let qualified = vec!["std".to_string(), "option".to_string(), "Option".to_string()];
    assert_eq!(extract_option_segment(&qualified), Some(&"Option".to_string()));
    let other = vec!["Vec".to_string()];
    assert_eq!(extract_option_segment(&other), None);

    let ignore = FieldAttr {
        path: vec!["diff".to_string()],
        paren_tokens: Some(vec!["should_ignore".to_string()]),
    };
    let unrelated = FieldAttr {
        path: vec!["serde".to_string()],
        paren_tokens: Some(vec!["should_ignore".to_string()]),
    };
    assert!(should_ignore(&vec![unrelated.clone(), ignore.clone()]));
    assert!(!should_ignore(&vec![unrelated]));
    assert!(!into_from(&vec![ignore]));
    let wrap = FieldAttr {
        path: vec!["diff".to_string()],
        paren_tokens: Some(vec!["into_from".to_string()]),
    };
    assert!(into_from(&vec![wrap]));
}

#[test]
fn test_timestamp_presence_and_diff_prefix() {
    // Two documents with identical content, only one stamped: unequal
    // overall, while their diffs against a common empty base share the
    // instruction prefix that precedes the timestamp edits.
    let plain = sample_doc();
    let stamped = sample_doc().init_timestamps().unwrap();
    assert_ne!(plain, stamped);

    let base = DIDDocument::default();
    let s_plain = base.diff(&plain).unwrap();
    let s_stamped = base.diff(&stamped).unwrap();

    // The stamped diff grows by the two timestamp edits; everything up to
    // the first timestamp instruction is shared verbatim.
    let cut = s_stamped
        .iter()
        .position(|ins| {
            matches!(ins, identity_core::diff::Instruction::Enter(
                identity_core::diff::Enter::Field(name)) if name == "created")
        })
        .unwrap();
    assert!(cut > 0);
    assert_eq!(&s_plain[..cut], &s_stamped[..cut]);
}

#[test]
fn test_field_order_table() {
    let names: Vec<String> = document_field_order().into_iter().map(|r| r.name).collect();
    assert_eq!(
        names,
        vec![
            "context".to_string(),
            "id".to_string(),
            "created".to_string(),
            "updated".to_string(),
            "public_key".to_string(),
            "auth".to_string(),
            "services".to_string(),
            "metadata".to_string(),
        ]
    );
    assert!(document_field_order().iter().all(|r| !r.transparent));

    // A field marked for exclusion leaves the table; a wrapped field
    // stays with its transparent verdict; the rest keep declaration
    // order.
    let keep = FieldDecl { name: "kept".to_string(), attrs: Vec::new() };
    let drop = FieldDecl {
        name: "hidden".to_string(),
        attrs: vec![FieldAttr {
            path: vec!["diff".to_string()],
            paren_tokens: Some(vec!["should_ignore".to_string()]),
        }],
    };
    let wrap = FieldDecl {
        name: "inner".to_string(),
        attrs: vec![FieldAttr {
            path: vec!["diff".to_string()],
            paren_tokens: Some(vec!["into_from".to_string()]),
        }],
    };
    let table = field_order(&vec![keep.clone(), drop, wrap]);
    assert_eq!(
        table,
        vec![
            FieldRule { name: "kept".to_string(), transparent: false },
            FieldRule { name: "inner".to_string(), transparent: true },
        ]
    );
}

#[test]
fn test_parse_rejects_duplicate_service_ids() {
    let json_str = r#"
    {
        "@context": "https://w3id.org/did/v1",
        "id": "did:iota:123456789abcdefghi",
        "service": [{
            "id": "did:into:123#edv",
            "type": "EncryptedDataVault",
            "serviceEndpoint": "https://edv.example.com/"
        }, {
            "id": "did:into:123#edv",
            "type": "OtherVault",
            "serviceEndpoint": "https://other.example.com/"
        }]
    }
    "#;
    assert_eq!(DIDDocument::from_str(json_str), Err(Error::Validation));
}
