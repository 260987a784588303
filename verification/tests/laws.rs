use gk2_save_core::{
    Command, Document, EditRequest, FloatBits, Operation, Reply, Request, Response, Service, Template,
    TemplateField, TemplateValue, Workspace,
};

fn fixture() -> Vec<u8> {
    let mut b = vec![2, 46, 0, 0, 0, 0, 6];
    b.extend(1i64.to_le_bytes());
    b.extend([24, 7, 0, 0, 0, 7, 5]);
    b
}

fn message<T>(r: Result<T, gk2_save_core::Error>) -> String {
    match r {
        Ok(_) => panic!("expected an error"),
        Err(e) => e.0,
    }
}

fn edit(node: usize, tag: u8, revision: u32, value: &str, float: Option<FloatBits>) -> Request {
    Request::SetValue { edit: EditRequest { node, expected_tag: tag, revision, value: value.into(), float } }
}

#[test]
fn decoding_then_encoding_gives_back_the_bytes() {
    let bytes = fixture();
    let doc = Document::decode(&bytes).ok().unwrap();
    assert_eq!(doc.encode(), bytes);
}

#[test]
fn service_errors_name_their_cause() {
    let mut s = Service::default();
    assert_eq!(message(s.summary()), "No save is open");
    assert_eq!(message(s.request(edit(0, 0, 0, "1", None))), "No save is open");
    assert_eq!(message(s.request(edit(0, 0, 7, "1", None))), "Stale edit; reload the current document view");
    assert!(s.open(&fixture()).is_ok());
    assert_eq!(message(s.request(edit(9, 24, 1, "1", None))), "Unknown node");
    assert_eq!(message(s.request(edit(2, 25, 1, "1", None))), "Field type changed");
    assert_eq!(
        message(s.request(edit(2, 24, 1, "2147483648", None))),
        "Invalid value or value outside the original wire type's range"
    );
    assert_eq!(message(s.request(edit(1, 6, 1, "1", None))), "This wire value is read-only");
    assert_eq!(
        message(s.request(Request::Children { parent: None, offset: 0, limit: 0 })),
        "Page size must be 1..200"
    );
    assert_eq!(s.summary().ok().unwrap().revision, 1);
    assert!(s.request(edit(2, 24, 1, "-5", None)).is_ok());
    let Ok(Response::Children(page)) = s.request(Request::Children { parent: Some(1), offset: 0, limit: 5 }) else {
        panic!()
    };
    assert_eq!(page.nodes[0].value.as_deref(), Some("-5"));
    assert_eq!(page.nodes[0].kind, "i32");
}

#[test]
fn float_edits_take_bits_and_refuse_non_finite_values() {
    let bytes = vec![32, 0, 0, 128, 63];
    let mut s = Service::default();
    assert!(s.open(&bytes).is_ok());
    let Ok(Response::Children(page)) = s.request(Request::Children { parent: None, offset: 0, limit: 1 }) else {
        panic!()
    };
    assert_eq!(page.nodes[0].float, Some(FloatBits::Single(0x3f80_0000)));
    assert!(page.nodes[0].value.is_none());
    let infinite = Some(FloatBits::Single(0x7f80_0000));
    assert!(s.request(edit(0, 32, 1, "inf", infinite)).is_err());
    assert!(s.request(edit(0, 32, 1, "2", None)).is_err());
    assert!(s.request(edit(0, 32, 1, "2", Some(FloatBits::Single(0x4000_0000)))).is_ok());
    assert_eq!(s.export().ok().unwrap(), vec![32, 0, 0, 0, 64]);
}

#[test]
fn names_are_shown_and_booleans_and_hex_values_displayed() {
    let mut bytes = vec![4, 46, 43, 0];
    bytes.extend(2i32.to_le_bytes());
    bytes.extend(b"ok");
    bytes.push(1);
    bytes.push(42);
    bytes.extend([0xab; 16]);
    bytes.push(5);
    let mut s = Service::default();
    assert!(s.open(&bytes).is_ok());
    let Ok(Response::Children(page)) = s.request(Request::Children { parent: Some(0), offset: 0, limit: 10 }) else {
        panic!()
    };
    assert_eq!(page.total, 2);
    assert_eq!(page.nodes[0].name.as_deref(), Some("ok"));
    assert_eq!(page.nodes[0].value.as_deref(), Some("true"));
    assert_eq!(page.nodes[1].kind, "guid");
    assert_eq!(page.nodes[1].value.as_deref(), Some("abababababababababababababababab"));
    let Ok(Response::Children(roots)) = s.request(Request::Children { parent: None, offset: 0, limit: 10 }) else {
        panic!()
    };
    assert_eq!(roots.nodes[0].tree_fields.len(), 1);
    assert_eq!(roots.nodes[0].tree_fields[0].value, "true");
}

#[test]
fn failed_transaction_changes_nothing_and_stale_revisions_are_refused() {
    let bytes = fixture();
    let mut w = Workspace::default();
    let id = w.open(&bytes).ok().unwrap().document_id;
    let bad = vec![
        Operation::Assign { node: 2, tag: 24, value: "5".into(), float: None },
        Operation::Move { node: 2, index: 4 },
    ];
    assert_eq!(message(w.transact(id, 1, bad)), "Invalid sibling position");
    assert_eq!(w.export(id).ok().unwrap(), bytes);
    let summary = w.summary(id).ok().unwrap();
    assert_eq!(summary.revision, 1);
    assert!(!summary.can_undo && !summary.dirty);
    assert_eq!(message(w.transact(id, 7, vec![Operation::Remove { node: 2 }])), "Stale revision. Refresh before applying this edit.");
    assert_eq!(message(w.transact(id, 1, vec![])), "A transaction must contain 1..1000 operations");
    assert_eq!(message(w.history(id, 1, false)), "No history available");
    assert_eq!(message(w.transact(id, 1, vec![Operation::Remove { node: 0 }])), "Cannot remove the root");
    assert_eq!(message(w.transact(id, 1, vec![Operation::Retarget { node: 2, target: 0 }])), "Select an internal reference");
    assert_eq!(message(w.summary(99)), "Document is closed");
}

#[test]
fn undo_then_redo_gives_back_the_edit_and_the_saved_state() {
    let bytes = fixture();
    let mut w = Workspace::default();
    let id = w.open(&bytes).ok().unwrap().document_id;
    let set = |v: &str| vec![Operation::Assign { node: 2, tag: 24, value: v.into(), float: None }];
    let outcome = w.transact(id, 1, set("9")).ok().unwrap();
    assert_eq!(outcome.changed, vec![2]);
    assert!(outcome.summary.dirty);
    let edited = w.export(id).ok().unwrap();
    assert!(w.history(id, 2, false).is_ok());
    assert!(!w.summary(id).ok().unwrap().dirty);
    assert_eq!(w.export(id).ok().unwrap(), bytes);
    assert!(w.history(id, 3, true).is_ok());
    assert_eq!(w.export(id).ok().unwrap(), edited);
    assert_eq!(w.summary(id).ok().unwrap().revision, 4);
}

#[test]
fn inserted_scalars_and_moves_land_where_asked() {
    let bytes = fixture();
    let mut w = Workspace::default();
    let id = w.open(&bytes).ok().unwrap().document_id;
    let insert = Operation::Insert {
        parent: 1,
        index: 0,
        name: None,
        kind: "u8".into(),
        value: "200".into(),
        float: None,
    };
    assert!(w.transact(id, 1, vec![insert, Operation::Move { node: 2, index: 0 }]).is_ok());
    let Ok(Reply::Page(page)) = w.request(id, Command::Children { parent: Some(1), offset: 0, limit: 10 }) else {
        panic!()
    };
    assert_eq!(page.total, 2);
    assert_eq!(page.nodes[0].id, 2);
    assert_eq!(page.nodes[1].value.as_deref(), Some("200"));
    let exported = w.export(id).ok().unwrap();
    let mut expected = vec![2, 46, 0, 0, 0, 0, 6];
    expected.extend(2i64.to_le_bytes());
    expected.extend([24, 7, 0, 0, 0, 18, 200, 7, 5]);
    assert_eq!(exported, expected);
    let named = Operation::Insert {
        parent: 1,
        index: 0,
        name: Some("x".into()),
        kind: "i32".into(),
        value: "1".into(),
        float: None,
    };
    assert_eq!(message(w.transact(id, 2, vec![named])), "Array elements must be unnamed");
    let unknown = Operation::Insert { parent: 0, index: 0, name: None, kind: "i128".into(), value: "1".into(), float: None };
    assert_eq!(message(w.transact(id, 2, vec![unknown])), "Unsupported scalar type");
}

#[test]
fn templates_build_typed_nodes_with_fresh_objects() {
    let mut w = Workspace::default();
    w.templates.push(Template {
        id: "point".into(),
        declared_type: "Point, Game".into(),
        reference: true,
        fields: vec![
            TemplateField { name: Some("x".into()), kind: "i32".into(), value: "0".into(), float: None },
            TemplateField { name: None, kind: "f32".into(), value: "0".into(), float: Some(FloatBits::Single(0)) },
        ],
    });
    let bytes = fixture();
    let id = w.open(&bytes).ok().unwrap().document_id;
    let op = Operation::Template {
        parent: 0,
        index: 1,
        name: Some("p".into()),
        template: "point".into(),
        values: vec![TemplateValue { key: "x".into(), value: "12".into(), float: None }],
    };
    let outcome = w.transact(id, 1, vec![op]).ok().unwrap();
    assert_eq!(outcome.changed.len(), 4);
    let exported = w.export(id).ok().unwrap();
    let reopened = Document::decode(&exported).ok().unwrap();
    assert_eq!(reopened.type_count(), 1);
    assert_eq!(reopened.object_count(), 2);
    let missing = Operation::Template { parent: 0, index: 0, name: None, template: "nothing".into(), values: vec![] };
    assert_eq!(message(w.transact(id, 2, vec![missing])), "Unknown template");
}

#[test]
fn closing_a_document_frees_its_handle() {
    let mut w = Workspace::default();
    let id = w.open(&fixture()).ok().unwrap().document_id;
    assert!(matches!(w.request(id, Command::Close), Ok(Reply::Closed(c)) if c == id));
    assert_eq!(message(w.request(id, Command::Summary)), "Document is closed");
    let other = w.open(&fixture()).ok().unwrap().document_id;
    let Ok(Reply::Nodes(nodes)) = w.request(other, Command::Nodes { ids: vec![0, 2] }) else {
        panic!()
    };
    assert_eq!(nodes[1].value.as_deref(), Some("7"));
}
