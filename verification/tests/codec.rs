use gk2_save_core::wire::WireString;
use gk2_save_core::{Document, EditRequest, Limits, Request, Response, Service};

fn string(value: &[u8], wide: bool) -> Vec<u8> {
    let mut bytes = vec![u8::from(wide)];
    bytes.extend_from_slice(&((value.len() / if wide { 2 } else { 1 }) as i32).to_le_bytes());
    bytes.extend_from_slice(value);
    bytes
}

fn root(children: &[u8]) -> Vec<u8> {
    let mut bytes = vec![2, 47];
    bytes.extend_from_slice(&0i32.to_le_bytes());
    bytes.extend(string(b"FutureSave, FutureAssembly", false));
    bytes.extend_from_slice(&0i32.to_le_bytes());
    bytes.extend(children);
    bytes.push(5);
    bytes
}

fn round_trip(bytes: &[u8]) {
    assert_eq!(Document::decode(bytes).ok().unwrap().encode(), bytes);
}

#[test]
fn all_scalar_tokens_names_and_references_are_lossless() {
    let mut children = vec![];
    for tag in 9u8..=46 {
        children.push(tag);
        if tag % 2 == 1 {
            children.extend(string(b"duplicate-name", false));
        }
        let base = if tag % 2 == 1 { tag + 1 } else { tag };
        let width = match base {
            10 | 12 | 24 | 26 | 32 => 4,
            14 | 36 | 42 => 16,
            16 | 18 | 44 => 1,
            20 | 22 | 38 => 2,
            28 | 30 | 34 => 8,
            40 => {
                children.extend(string(&[0, 0xd8], true));
                continue;
            }
            46 => 0,
            _ => unreachable!(),
        };
        children.extend(vec![0; width]);
    }
    for tag in [50, 51] {
        children.push(tag);
        if tag == 50 {
            children.extend(string(b"external", false));
        }
        children.extend(string(b"asset-key", false));
    }
    round_trip(&root(&children));
}

#[test]
fn arrays_type_references_and_terminator() {
    let mut children = vec![6];
    children.extend_from_slice(&2i64.to_le_bytes());
    children.extend([4, 48]);
    children.extend_from_slice(&0i32.to_le_bytes());
    children.push(5);
    children.extend([4, 46, 8]);
    children.extend_from_slice(&2i32.to_le_bytes());
    children.extend_from_slice(&4i32.to_le_bytes());
    children.extend_from_slice(&[0xff; 8]);
    children.extend([5, 7]);
    let mut bytes = root(&children);
    bytes.push(49);
    round_trip(&bytes);
}

#[test]
fn float_bits_and_string_encodings_survive() {
    for bits in [0x80000000u32, 0x7fc01234, 0xff800000] {
        let mut bytes = vec![32];
        bytes.extend_from_slice(&bits.to_le_bytes());
        round_trip(&bytes);
    }
    for (value, wide) in [
        (vec![0xe9, 0], false),
        (vec![0xe9, 0, 0, 0], true),
        (vec![0x3d, 0xd8, 0, 0xde], true),
    ] {
        let mut bytes = vec![40];
        bytes.extend(string(&value, wide));
        round_trip(&bytes);
    }
}

#[test]
fn truncated_and_malformed_files_are_rejected() {
    let bytes = root(&[24, 1, 0, 0, 0]);
    for end in 0..bytes.len() {
        assert!(Document::decode(&bytes[..end]).is_err(), "prefix {end}");
    }
    for invalid in [
        vec![0],
        vec![255],
        vec![5],
        vec![4, 46, 7],
        vec![4, 46],
        vec![40, 2, 0, 0, 0, 0],
        vec![40, 0, 255, 255, 255, 255],
        vec![10, 1, 0, 0, 0],
        vec![44, 2],
        vec![46, 46],
        vec![49],
        vec![46, 49, 0],
        vec![4, 48, 0, 0, 0, 0, 5],
    ] {
        assert!(Document::decode(&invalid).is_err(), "{invalid:?}");
    }
    let mut count_mismatch = vec![6];
    count_mismatch.extend_from_slice(&1i64.to_le_bytes());
    count_mismatch.push(7);
    assert!(Document::decode(&count_mismatch).is_err());
    assert!(Document::decode_with_limits(
        &bytes,
        Limits {
            max_bytes: 2,
            ..Limits::default()
        }
    )
    .is_err());
    assert!(Document::decode_with_limits(
        &bytes,
        Limits {
            max_records: 1,
            ..Limits::default()
        }
    )
    .is_err());
    assert!(Document::decode_with_limits(
        &bytes,
        Limits {
            max_depth: 0,
            ..Limits::default()
        }
    )
    .is_err());
}

fn edit(
    service: &mut Service,
    node: usize,
    tag: u8,
    value: &str,
) -> Result<Response, gk2_save_core::Error> {
    let revision = service.summary().ok().unwrap().revision;
    service.request(Request::SetValue {
        edit: EditRequest {
            node,
            expected_tag: tag,
            revision,
            value: value.into(),
            float: None,
        },
    })
}

#[test]
fn variable_length_edit_and_64_bit_values_are_exact() {
    let mut children = vec![40];
    children.extend(string(&[b'a', 0, b'b', 0], true));
    children.push(30);
    children.extend_from_slice(&u64::MAX.to_le_bytes());
    let bytes = root(&children);
    let mut service = Service::default();
    assert!(service.open(&bytes).is_ok());
    assert!(edit(&mut service, 1, 40, "longer 🪦 name").is_ok());
    let output = service.export().ok().unwrap();
    round_trip(&output);
    assert_ne!(output, bytes);
    assert!(edit(&mut service, 1, 40, "ab").is_ok());
    assert_eq!(service.export().ok().unwrap(), bytes);
    assert!(edit(&mut service, 2, 30, "18446744073709551616").is_err());
    assert!(edit(&mut service, 2, 30, "18446744073709551614").is_ok());
    let Ok(Response::Children(page)) = service.request(Request::Children {
        parent: Some(0),
        offset: 1,
        limit: 1,
    }) else {
        panic!()
    };
    assert_eq!(page.total, 2);
    assert_eq!(page.nodes[0].value.as_deref(), Some("18446744073709551614"));
}

#[test]
fn failed_operations_preserve_document_and_revisions() {
    let bytes = root(&[44, 0]);
    let mut service = Service::default();
    let revision = service.open(&bytes).ok().unwrap().revision;
    assert!(service.open(&[255]).is_err());
    assert!(edit(&mut service, 1, 44, "yes").is_err());
    assert!(edit(&mut service, 1, 24, "1").is_err());
    assert!(edit(&mut service, 0, 2, "root").is_err());
    assert_eq!(service.summary().ok().unwrap().revision, revision);
    assert_eq!(service.export().ok().unwrap(), bytes);
    assert!(edit(&mut service, 1, 44, "true").is_ok());
    assert!(service
        .request(Request::SetValue {
            edit: EditRequest {
                node: 1,
                expected_tag: 44,
                revision,
                value: "false".into(),
                float: None,
            }
        })
        .is_err());
    assert!(service.request(Request::Close).is_ok());
    assert!(service.export().is_err());
}

#[test]
fn deterministic_malformed_corpus_never_panics() {
    let mut seed = 0x12345678u32;
    for length in 0..512 {
        let bytes: Vec<_> = (0..length)
            .map(|_| {
                seed ^= seed << 13;
                seed ^= seed >> 17;
                seed ^= seed << 5;
                seed as u8
            })
            .collect();
        let _ = Document::decode(&bytes);
    }
}

#[test]
fn transport_json_contract() {
    let mut service = Service::default();
    assert!(service.open(&root(&[44, 0])).is_ok());
    let Ok(Response::Children(page)) = service.request(Request::Children {
        parent: Some(0),
        offset: 0,
        limit: 10,
    }) else {
        panic!()
    };
    assert_eq!(page.nodes[0].tag, 44);
    assert_eq!(page.nodes[0].value.as_deref(), Some("false"));
    let edit = EditRequest {
        node: 1,
        expected_tag: 44,
        revision: 1,
        value: "true".into(),
        float: None,
    };
    assert!(matches!(
        service.request(Request::SetValue { edit }),
        Ok(Response::SetValue(_))
    ));
}

#[test]
fn toggling_a_boolean_changes_one_byte_and_toggling_back_restores_the_file() {
    let mut children = vec![24];
    children.extend_from_slice(&7i32.to_le_bytes());
    children.extend([44, 0]);
    children.push(40);
    children.extend(string(b"tail", false));
    let bytes = root(&children);
    let mut service = Service::default();
    assert!(service.open(&bytes).is_ok());
    assert!(edit(&mut service, 2, 44, "true").is_ok());
    let changed = service.export().ok().unwrap();
    assert_eq!(changed.len(), bytes.len());
    assert_eq!(bytes.iter().zip(&changed).filter(|(a, b)| a != b).count(), 1);
    assert!(Document::decode(&changed).is_ok());
    assert!(edit(&mut service, 2, 44, "false").is_ok());
    assert_eq!(service.export().ok().unwrap(), bytes);
}

#[test]
fn nesting_limit_counts_enclosing_containers() {
    let bytes = root(&[4, 46, 24, 1, 0, 0, 0, 5]);
    assert!(Document::decode(&bytes).is_ok());
    for (max_depth, accepted) in [(0, false), (1, false), (2, true)] {
        let limits = Limits { max_depth, ..Limits::default() };
        assert_eq!(Document::decode_with_limits(&bytes, limits).is_ok(), accepted, "{max_depth}");
    }
}

#[test]
fn replaced_strings_read_back_as_written() {
    let narrow = WireString { wide: false, bytes: b"abc".to_vec() };
    let latin = narrow.replace("h\u{e9}llo");
    assert!(!latin.wide);
    assert_eq!(latin.display(), "h\u{e9}llo");
    let wide = narrow.replace("Gr\u{fc}\u{df}e \u{20ac}\u{1d11e}");
    assert!(wide.wide);
    assert_eq!(wide.display(), "Gr\u{fc}\u{df}e \u{20ac}\u{1d11e}");
    assert_eq!(wide.replace("ab").display(), "ab");
    assert!(wide.replace("ab").wide);
}
