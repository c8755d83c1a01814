use nixdoc_lookup::codec::{decode_portable, encode_portable};
use nixdoc_lookup::compact::{encode_compact, CompactView};
use nixdoc_lookup::model::{
    ContentSource, Doc, Docs, FilePosition, Meta, PositionType, PrimopMeta, SourceOrigin,
};

fn rich_doc() -> Doc {
    Doc {
        meta: Meta {
            title: "lib.attrsets.mapAttrs".to_string(),
            path: vec!["lib".to_string(), "attrsets".to_string(), "mapAttrs".to_string()],
            aliases: Some(vec![
                vec!["lib".to_string(), "mapAttrs".to_string()],
                vec!["builtins".to_string(), "mapAttrs".to_string()],
            ]),
            is_primop: Some(true),
            is_functor: Some(false),
            primop_meta: Some(PrimopMeta {
                name: Some("mapAttrs".to_string()),
                args: Some(vec!["f".to_string(), "attrset".to_string()]),
                experimental: Some(false),
                arity: Some(-2),
            }),
            attr_position: Some(FilePosition {
                file: "lib/attrsets.nix".to_string(),
                line: 234,
                column: 5,
            }),
            attr_expr: Some("mapAttrs f set".to_string()),
            lambda_position: Some(FilePosition {
                file: "lib/λ-café.nix".to_string(),
                line: -1,
                column: i64::MIN,
            }),
            lambda_expr: Some("f: set: …".to_string()),
            count_applied: Some(-5),
            content_meta: Some(SourceOrigin {
                position: Some(FilePosition {
                    file: "doc.md".to_string(),
                    line: 1,
                    column: 1,
                }),
                path: Some(vec!["lib".to_string()]),
                pos_type: Some(PositionType::Lambda),
            }),
            signature: Some("(a -> b) -> attrset -> attrset".to_string()),
        },
        content: Some(ContentSource {
            content: Some("Apply a function to every attribute. λ π café".to_string()),
            source: Some(SourceOrigin {
                position: None,
                path: None,
                pos_type: Some(PositionType::Attribute),
            }),
        }),
    }
}

fn plain_doc(title: &str) -> Doc {
    Doc {
        meta: Meta {
            title: title.to_string(),
            path: vec![title.to_string()],
            aliases: None,
            is_primop: None,
            is_functor: None,
            primop_meta: None,
            attr_position: None,
            attr_expr: None,
            lambda_position: None,
            lambda_expr: None,
            count_applied: None,
            content_meta: None,
            signature: None,
        },
        content: None,
    }
}

fn sample_corpus() -> Docs {
    Docs(vec![rich_doc(), plain_doc("builtins.map"), plain_doc("lib.lists.map")])
}

#[test]
fn portable_round_trip() {
    let docs = sample_corpus();
    let bytes = encode_portable(&docs);
    let decoded = decode_portable(&bytes).expect("well-formed archive must decode");
    assert_eq!(format!("{:?}", decoded), format!("{:?}", docs));
}

#[test]
fn portable_round_trip_empty() {
    let docs = Docs(vec![]);
    let bytes = encode_portable(&docs);
    assert_eq!(bytes, vec![1u8, 0, 0, 0, 0, 0, 0, 0, 0]);
    let decoded = decode_portable(&bytes).expect("empty corpus must decode");
    assert_eq!(decoded.0.len(), 0);
}

#[test]
fn compact_round_trip_checked() {
    let docs = sample_corpus();
    let bytes = encode_compact(&docs).expect("encoding fits 64-bit offsets");
    let view = CompactView::decode_compact_view(bytes).expect("checked decode of valid archive");
    let owned = view.materialize();
    assert_eq!(format!("{:?}", owned), format!("{:?}", docs));
}

#[test]
fn compact_round_trip_trusted() {
    let docs = sample_corpus();
    let bytes = encode_compact(&docs).expect("encoding fits 64-bit offsets");
    let view = CompactView::view_trusted(bytes);
    let owned = view.materialize();
    assert_eq!(format!("{:?}", owned), format!("{:?}", docs));
}

#[test]
fn compact_view_reads_fields_in_place() {
    let docs = sample_corpus();
    let bytes = encode_compact(&docs).expect("encoding fits 64-bit offsets");
    let view = CompactView::decode_compact_view(bytes).expect("checked decode");
    assert_eq!(view.len(), 3);
    assert_eq!(view.title_at(0), "lib.attrsets.mapAttrs");
    assert_eq!(view.title_at(1), "builtins.map");
    assert_eq!(view.title_at(2), "lib.lists.map");
    let one = view.doc_at(0).expect("entry decodes");
    assert_eq!(format!("{:?}", one), format!("{:?}", rich_doc()));
}

#[test]
fn portable_decode_rejects_truncation() {
    let docs = sample_corpus();
    let bytes = encode_portable(&docs);
    for cut in [0, 1, 5, 9, bytes.len() / 2, bytes.len() - 1] {
        let truncated: Vec<u8> = bytes[..cut].to_vec();
        assert!(decode_portable(&truncated).is_err(), "cut at {cut}");
    }
}

#[test]
fn portable_decode_rejects_trailing_garbage() {
    let docs = sample_corpus();
    let mut bytes = encode_portable(&docs);
    bytes.push(0);
    assert!(decode_portable(&bytes).is_err());
}

#[test]
fn portable_decode_rejects_wrong_format_byte() {
    let docs = sample_corpus();
    let mut bytes = encode_portable(&docs);
    bytes[0] = 2;
    assert!(decode_portable(&bytes).is_err());
    let empty: Vec<u8> = Vec::new();
    assert!(decode_portable(&empty).is_err());
}

#[test]
fn portable_decode_rejects_corrupt_count() {
    let docs = sample_corpus();
    let mut bytes = encode_portable(&docs);
    bytes[8] = 0xff;
    assert!(decode_portable(&bytes).is_err());
}

#[test]
fn portable_decode_rejects_invalid_utf8() {
    let docs = Docs(vec![plain_doc("title")]);
    let mut bytes = encode_portable(&docs);
    // The first string payload starts right after the header, the entry's
    // title length prefix included.
    let idx: usize = 1 + 8 + 8;
    bytes[idx] = 0xff;
    assert!(decode_portable(&bytes).is_err());
}

#[test]
fn compact_checked_decode_rejects_corruption() {
    let docs = sample_corpus();
    let bytes = encode_compact(&docs).expect("encoding fits 64-bit offsets");
    for cut in [0, 1, 8, 9, bytes.len() - 1] {
        let truncated: Vec<u8> = bytes[..cut].to_vec();
        assert!(CompactView::decode_compact_view(truncated).is_err(), "cut at {cut}");
    }
    // A corrupted offset table is caught by the checked path.
    let mut corrupt = encode_compact(&docs).expect("encoding fits 64-bit offsets");
    corrupt[10] = corrupt[10].wrapping_add(1);
    assert!(CompactView::decode_compact_view(corrupt).is_err());
    // So is a wrong format byte.
    let mut wrong = encode_compact(&docs).expect("encoding fits 64-bit offsets");
    wrong[0] = 1;
    assert!(CompactView::decode_compact_view(wrong).is_err());
}

#[test]
fn portable_and_compact_encodings_differ_in_format_byte() {
    let docs = sample_corpus();
    let portable = encode_portable(&docs);
    let compact = encode_compact(&docs).expect("encoding fits 64-bit offsets");
    assert_eq!(portable[0], 1);
    assert_eq!(compact[0], 2);
}
