use gk2_save_core::history::{reachable, root_hash};
use gk2_save_core::workspace::{apply, Journal};
use gk2_save_core::{Command, Document, FloatBits, Operation, Reply, Template, TemplateField, Workspace};

fn fixture() -> Vec<u8> {
    let mut b = vec![2, 46, 0, 0, 0, 0, 6];
    b.extend(1i64.to_le_bytes());
    b.extend([24, 7, 0, 0, 0, 7, 5]);
    b
}

fn transact(w: &mut Workspace, id: u32, revision: u32, operations: Vec<Operation>) -> bool {
    w.request(id, Command::Transact { revision, operations }).is_ok()
}

fn set(node: usize, tag: u8, value: &str) -> Operation {
    Operation::Assign { node, tag, value: value.into(), float: None }
}

fn insert_i32(parent: usize, index: usize, value: &str) -> Operation {
    Operation::Insert {
        parent,
        index,
        name: None,
        kind: "i32".into(),
        value: value.into(),
        float: None,
    }
}

fn export(w: &mut Workspace, id: u32) -> Vec<u8> {
    w.export(id).ok().unwrap()
}

fn children(w: &mut Workspace, id: u32, parent: usize) -> Vec<(usize, Option<usize>)> {
    let Ok(Reply::Page(page)) = w.request(id, Command::Children { parent: Some(parent), offset: 0, limit: 100 }) else {
        panic!()
    };
    page.nodes.iter().map(|n| (n.id, n.reference_target)).collect()
}

#[test]
fn independent_atomic_history() {
    let bytes = fixture();
    let mut w = Workspace::default();
    let a = w.open(&bytes).ok().unwrap().document_id;
    let b = w.open(&bytes).ok().unwrap().document_id;
    assert!(transact(&mut w, a, 1, vec![set(2, 24, "9")]));
    assert_eq!(export(&mut w, b), bytes);
    assert_ne!(export(&mut w, a), bytes);
    let before = export(&mut w, a);
    for revision in [1, 2] {
        assert!(!transact(&mut w, a, revision, vec![set(2, 24, "10"), Operation::Remove { node: 0 }]));
        assert_eq!(export(&mut w, a), before);
    }
    assert!(w.request(a, Command::Undo { revision: 2 }).is_ok());
    assert_eq!(export(&mut w, a), bytes);
    assert!(w.request(a, Command::Redo { revision: 3 }).is_ok());
    assert_eq!(export(&mut w, a), before);
    assert!(w.request(a, Command::Close).is_ok());
    assert!(w.export(a).is_err());
    assert_eq!(export(&mut w, b), bytes);
}

#[test]
fn array_insert_duplicate_remove_and_undo() {
    let bytes = fixture();
    let mut w = Workspace::default();
    let id = w.open(&bytes).ok().unwrap().document_id;
    assert!(transact(&mut w, id, 1, vec![Operation::Duplicate { node: 1 }, insert_i32(1, 1, "42")]));
    assert!(Document::decode(&export(&mut w, id)).is_ok());
    assert!(w.request(id, Command::Undo { revision: 2 }).is_ok());
    assert_eq!(export(&mut w, id), bytes);
    assert!(transact(&mut w, id, 3, vec![insert_i32(1, 1, "15")]));
    assert!(Document::decode(&export(&mut w, id)).is_ok());
}

#[test]
fn reject_dangling_reference() {
    let bytes = vec![
        2, 46, 0, 0, 0, 0, 2, 46, 1, 0, 0, 0, 10, 1, 0, 0, 0, 5, 10, 1, 0, 0, 0, 5,
    ];
    let mut w = Workspace::default();
    let id = w.open(&bytes).ok().unwrap().document_id;
    assert!(!transact(&mut w, id, 1, vec![Operation::Remove { node: 1 }]));
    assert_eq!(export(&mut w, id), bytes);
    assert!(transact(
        &mut w,
        id,
        1,
        vec![Operation::Remove { node: 1 }, Operation::Retarget { node: 4, target: 0 }]
    ));
    assert!(Document::decode(&export(&mut w, id)).is_ok());
    assert!(w.request(id, Command::Undo { revision: 2 }).is_ok());
    assert_eq!(export(&mut w, id), bytes);
}

fn string(s: &str) -> Vec<u8> {
    let mut b = vec![0];
    b.extend((s.len() as i32).to_le_bytes());
    b.extend(s.as_bytes());
    b
}

#[test]
fn clone_cycles_shared_references_and_relocate_type_declaration() {
    let mut child = vec![2, 47];
    child.extend(0i32.to_le_bytes());
    child.extend(string("Example, Tests"));
    child.extend(1i32.to_le_bytes());
    child.extend([10, 1, 0, 0, 0, 10, 0, 0, 0, 0, 5]);
    let second = vec![2, 48, 0, 0, 0, 0, 2, 0, 0, 0, 10, 1, 0, 0, 0, 5];
    let mut bytes = vec![2, 46, 0, 0, 0, 0];
    bytes.extend(child);
    bytes.extend(second);
    bytes.push(5);
    let mut w = Workspace::default();
    let id = w.open(&bytes).ok().unwrap().document_id;
    let roots = children(&mut w, id, 0);
    let first = roots[0].0;
    let second = roots[1].0;
    assert!(transact(&mut w, id, 1, vec![Operation::Duplicate { node: first }]));
    let siblings = children(&mut w, id, 0);
    let clone = siblings[1].0;
    let refs = children(&mut w, id, clone);
    assert_eq!(refs[0].1, Some(clone));
    assert_eq!(refs[1].1, Some(0));
    assert!(Document::decode(&export(&mut w, id)).is_ok());
    assert!(w.request(id, Command::Undo { revision: 2 }).is_ok());
    assert_eq!(export(&mut w, id), bytes);
    let refs = children(&mut w, id, second);
    let reference = refs[0].0;
    assert!(transact(
        &mut w,
        id,
        3,
        vec![Operation::Remove { node: first }, Operation::Retarget { node: reference, target: 0 }]
    ));
    let edited = export(&mut w, id);
    assert!(Document::decode(&edited).is_ok());
    assert!(edited
        .windows(b"Example, Tests".len())
        .any(|w| w == b"Example, Tests"));
    assert!(w.request(id, Command::Undo { revision: 4 }).is_ok());
    assert_eq!(export(&mut w, id), bytes);
}

#[test]
fn depth_limit_rejects_new_container_and_restores_journal() {
    let mut bytes = [4, 46].repeat(256);
    bytes.extend([24, 1, 0, 0, 0]);
    bytes.extend(vec![5; 256]);
    let mut w = Workspace::default();
    let id = w.open(&bytes).ok().unwrap().document_id;
    let insert = |kind: &str| Operation::Insert {
        parent: 255,
        index: 0,
        name: None,
        kind: kind.into(),
        value: "2".into(),
        float: None,
    };
    assert!(w.transact(id, 1, vec![insert("i32"), insert("array")]).is_err());
    assert_eq!(w.export(id).ok().unwrap(), bytes);
    assert_eq!(w.summary(id).ok().unwrap().revision, 1);
    assert!(w.transact(id, 1, vec![insert("i32")]).is_ok());
    assert!(Document::decode(&w.export(id).ok().unwrap()).is_ok());
    assert!(w.history(id, 2, false).is_ok());
    assert_eq!(w.export(id).ok().unwrap(), bytes);
}

#[test]
fn summary_size_is_lazy_and_noop_preserves_history_and_saved_state() {
    let bytes = [4, 46, 24, 1, 0, 0, 0, 5];
    let mut w = Workspace::default();
    let id = w.open(&bytes).ok().unwrap().document_id;
    assert_eq!(w.summary(id).ok().unwrap().encoded_bytes, Some(bytes.len()));
    let edit = |value: &str| vec![set(1, 24, value)];
    let result = w.transact(id, 1, edit("2")).ok().unwrap();
    assert!(result.summary.encoded_bytes.is_none());
    assert!(!w.summary(id).ok().unwrap().can_redo);
    let edited = w.export(id).ok().unwrap();
    assert_eq!(w.summary(id).ok().unwrap().encoded_bytes, Some(edited.len()));
    assert!(w.mark_saved(id, 2).is_ok());
    assert!(!w.summary(id).ok().unwrap().dirty);
    assert!(w.transact(id, 2, edit("2")).is_ok());
    assert_eq!(w.summary(id).ok().unwrap().revision, 2);
    assert_eq!(w.summary(id).ok().unwrap().encoded_bytes, Some(edited.len()));
    assert!(w.history(id, 2, false).is_ok());
    assert!(w.summary(id).ok().unwrap().dirty);
    assert_eq!(w.export(id).ok().unwrap(), bytes);
    assert!(w.transact(id, 3, edit("1")).is_ok());
    assert!(w.summary(id).ok().unwrap().can_redo);
    assert!(w.history(id, 3, true).is_ok());
    assert!(!w.summary(id).ok().unwrap().dirty);
}

fn atom_template() -> Template {
    Template {
        id: "game-res-atom".into(),
        declared_type: "GameResAtom, Assembly-CSharp".into(),
        reference: false,
        fields: vec![
            TemplateField { name: Some("type".into()), kind: "string".into(), value: "".into(), float: None },
            TemplateField { name: Some("value".into()), kind: "f32".into(), value: "0".into(), float: Some(FloatBits::Single(0)) },
        ],
    }
}

#[test]
fn structural_journal_matches_full_rebuild_across_batches_and_history() {
    let bytes = vec![2, 46, 0, 0, 0, 0, 2, 46, 1, 0, 0, 0, 10, 1, 0, 0, 0, 24, 7, 0, 0, 0, 5, 10, 1, 0, 0, 0, 5];
    let mut w = Workspace::default();
    w.templates.push(atom_template());
    let id = w.open(&bytes).ok().unwrap().document_id;
    let mut seed = 1729u64;
    for step in 0..250usize {
        seed = seed.wrapping_mul(6364136223846793005).wrapping_add(1);
        let (node, tag, revision, mut candidate) = {
            let s = &w.sessions[&id];
            let mut ids = reachable(&s.doc).ok().unwrap();
            ids.sort_unstable();
            let node = ids[(seed >> 16) as usize % ids.len()];
            (node, s.doc.records[node].tag, s.revision, s.doc.clone())
        };
        let make = || {
            let op = match step % 7 {
                0 => Operation::Insert { parent: 0, index: 0, name: None, kind: "i32".into(), value: step.to_string(), float: None },
                1 => Operation::Remove { node },
                2 => Operation::Duplicate { node },
                3 => Operation::Move { node, index: 0 },
                4 => Operation::Retarget { node, target: 0 },
                5 => Operation::Assign { node, tag, value: step.to_string(), float: None },
                _ => Operation::Template { parent: 0, index: 0, name: None, template: "game-res-atom".into(), values: vec![] },
            };
            let mut operations = vec![op];
            // A mixture of valid batches, rollback after mutation, and dangling references.
            if step % 11 == 0 {
                operations.push(Operation::Remove { node: 0 });
            }
            operations
        };
        let mut journal = Journal::begin(&candidate);
        let expected = make()
            .into_iter()
            .try_for_each(|op| apply(&mut candidate, &mut journal, op, &w.templates).map_err(|e| e.0))
            .and_then(|_| candidate.rebuild().map_err(|e| e.0));
        let original = export(&mut w, id);
        let result = w.request(id, Command::Transact { revision, operations: make() });
        assert_eq!(result.is_ok(), expected.is_ok(), "step {step}: {expected:?}");
        assert_eq!(export(&mut w, id), if expected.is_ok() { candidate.encode() } else { original });
        let s = &w.sessions[&id];
        assert_eq!(s.current, root_hash(&s.doc));
        if step % 3 == 0 && w.summary(id).ok().unwrap().can_undo {
            let edited = export(&mut w, id);
            let revision = w.summary(id).ok().unwrap().revision;
            assert!(w.request(id, Command::Undo { revision }).is_ok());
            let revision = w.summary(id).ok().unwrap().revision;
            assert!(w.request(id, Command::Redo { revision }).is_ok());
            assert_eq!(export(&mut w, id), edited);
        }
    }
}
