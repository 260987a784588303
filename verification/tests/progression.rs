use gk2_save_core::inventory::{append, node};
use gk2_save_core::progression::{Edit, Progression, TalentUnlock, TechnologyRewards};
use gk2_save_core::workspace::Journal;
use gk2_save_core::{Command, Document, Error, Operation, Reply, Template, TemplateField, TransactOutcome, Workspace};

fn list(doc: &mut Document, j: &mut Journal, owner: usize, name: &str, values: &[&str]) -> usize {
    let holder = node(doc, j, owner, Some(name), None, false).unwrap();
    let array = append(doc, j, holder, None, "array", "", None).unwrap();
    for v in values {
        append(doc, j, array, None, "string", v, None).unwrap();
    }
    array
}

fn fixture() -> Vec<u8> {
    let mut doc = Document::decode(&[4, 46, 5]).unwrap();
    let mut j = Journal::begin(&doc);
    let knowledge = node(&mut doc, &mut j, 0, Some("knowledgeSystem"), None, false).unwrap();
    list(&mut doc, &mut j, knowledge, "unlockedTechs", &["fire"]);
    for name in ["unlockedCrafts", "unlockedAlchemyFormulas", "unlockedBuildings", "unlockedTownBuildings"] {
        list(&mut doc, &mut j, knowledge, name, &[]);
    }
    let system = node(&mut doc, &mut j, 0, Some("talentSystemData"), None, false).unwrap();
    let data = node(&mut doc, &mut j, system, Some("talentData"), None, false).unwrap();
    let branches = append(&mut doc, &mut j, data, None, "array", "", None).unwrap();
    let branch = node(&mut doc, &mut j, branches, None, Some("TalentData, Assembly-CSharp"), true).unwrap();
    append(&mut doc, &mut j, branch, Some("id"), "string", "talent_red", None).unwrap();
    append(&mut doc, &mut j, branch, Some("curExp"), "i32", "5", None).unwrap();
    append(&mut doc, &mut j, branch, Some("curTalentLevel"), "i32", "1", None).unwrap();
    append(&mut doc, &mut j, branch, Some("talentExpPoints"), "i32", "0", None).unwrap();
    append(&mut doc, &mut j, branch, Some("curTalentValue"), "i32", "10", None).unwrap();
    list(&mut doc, &mut j, branch, "studiedLevelUps", &[]);
    list(&mut doc, &mut j, branch, "inspirationsProgression", &[]);
    let perks = node(&mut doc, &mut j, 0, Some("perkSystemData"), None, false).unwrap();
    list(&mut doc, &mut j, perks, "activePerks", &[]);
    doc.rebuild().unwrap();
    doc.encode()
}

fn field(name: &str, kind: &str, value: &str) -> TemplateField {
    TemplateField { name: Some(name.into()), kind: kind.into(), value: value.into(), float: None }
}

fn workspace(bytes: &[u8]) -> (Workspace, u32) {
    let mut w = Workspace::default();
    w.templates.push(Template {
        id: "inspiration-progress".into(),
        declared_type: "InspirationProgress, Assembly-CSharp".into(),
        reference: true,
        fields: vec![field("id", "string", ""), field("currentValue", "i32", "0"), field("completionGoalValue", "i32", "0")],
    });
    let id = w.open(bytes).unwrap().document_id;
    (w, id)
}

fn progression(w: &mut Workspace, id: u32) -> Progression {
    match w.request(id, Command::Progression) {
        Ok(Reply::Progression(p)) => p,
        _ => panic!("progression unavailable"),
    }
}

fn transact(w: &mut Workspace, id: u32, action: Edit) -> Result<TransactOutcome, Error> {
    let revision = w.summary(id).unwrap().revision;
    match w.request(id, Command::Transact { revision, operations: vec![Operation::Progression { action }] }) {
        Ok(Reply::Transacted(o)) => Ok(o),
        Ok(_) => panic!("unexpected reply"),
        Err(e) => Err(e),
    }
}

fn refusal(r: Result<TransactOutcome, Error>) -> String {
    r.err().unwrap().0
}

fn undo(w: &mut Workspace, id: u32) {
    let revision = w.summary(id).unwrap().revision;
    assert!(w.request(id, Command::Undo { revision }).is_ok());
}

fn technologies(ids: &[&str], crafts: &[&str]) -> Edit {
    Edit::UnlockTechnologies {
        ids: ids.iter().map(|s| s.to_string()).collect(),
        rewards: TechnologyRewards {
            crafts: crafts.iter().map(|s| s.to_string()).collect(),
            alchemy_formulas: vec![],
            buildings: vec![],
            town_buildings: vec![],
            perks: vec![],
        },
    }
}

#[test]
fn progression_lists_technologies_and_branches() {
    let (mut w, id) = workspace(&fixture());
    let p = progression(&mut w, id);
    assert_eq!(p.unlocked_technologies, vec!["fire".to_string()]);
    assert_eq!(p.talents.len(), 1);
    let t = &p.talents[0];
    assert_eq!((t.id.as_str(), t.cur_exp.as_str(), t.cur_talent_value.as_str()), ("talent_red", "5", "10"));
    assert!(t.studied_level_ups.is_empty() && t.inspirations.is_empty());
}

#[test]
fn unlocking_technologies_keeps_each_id_once_and_undoes() {
    let bytes = fixture();
    let (mut w, id) = workspace(&bytes);
    transact(&mut w, id, technologies(&["wheel", "fire", "wheel"], &["cart"])).unwrap();
    assert_eq!(progression(&mut w, id).unlocked_technologies, vec!["fire".to_string(), "wheel".to_string()]);
    undo(&mut w, id);
    assert_eq!(w.export(id).unwrap(), bytes);
    assert_eq!(refusal(transact(&mut w, id, technologies(&[], &[]))), "Select 1..500 technologies");
    assert_eq!(refusal(transact(&mut w, id, technologies(&["ok", ""], &[]))), "Invalid progression ID");
    assert_eq!(refusal(transact(&mut w, id, technologies(&["ok"], &[&"x".repeat(257)]))), "Invalid progression ID");
    assert_eq!(w.export(id).unwrap(), bytes);
}

#[test]
fn studied_levels_add_their_talent_value_once() {
    let (mut w, id) = workspace(&fixture());
    let levels = |ids: &[(&str, i32)]| Edit::UnlockTalentLevels {
        talent: "talent_red".into(),
        levels: ids.iter().map(|(i, v)| TalentUnlock { id: i.to_string(), talent_value: *v }).collect(),
    };
    transact(&mut w, id, levels(&[("l1", 3), ("l2", 4)])).unwrap();
    let t = progression(&mut w, id).talents.remove(0);
    assert_eq!(t.cur_talent_value, "17");
    assert_eq!(t.studied_level_ups, vec!["l1".to_string(), "l2".to_string()]);
    transact(&mut w, id, levels(&[("l1", 3)])).unwrap();
    assert_eq!(progression(&mut w, id).talents[0].cur_talent_value, "17");
    assert_eq!(refusal(transact(&mut w, id, levels(&[]))), "Select 1..500 talent levels");
    assert_eq!(refusal(transact(&mut w, id, levels(&[("l3", i32::MAX)]))), "Talent value overflow");
    let unknown = Edit::UnlockTalentLevels { talent: "talent_blue".into(), levels: vec![TalentUnlock { id: "x".into(), talent_value: 1 }] };
    assert_eq!(refusal(transact(&mut w, id, unknown)), "Unknown talent branch");
}

#[test]
fn talent_counters_take_nonnegative_integers() {
    let (mut w, id) = workspace(&fixture());
    let set = |field: &str, value: &str| Edit::SetTalent { talent: "talent_red".into(), field: field.into(), value: value.into() };
    transact(&mut w, id, set("curExp", "42")).unwrap();
    assert_eq!(progression(&mut w, id).talents[0].cur_exp, "42");
    assert_eq!(refusal(transact(&mut w, id, set("bogus", "1"))), "Unknown talent field");
    assert_eq!(refusal(transact(&mut w, id, set("curExp", "-1"))), "Enter a nonnegative integer");
    assert_eq!(refusal(transact(&mut w, id, set("curExp", "x"))), "Enter a 32-bit integer");
}

#[test]
fn inspirations_are_added_once_then_updated() {
    let bytes = fixture();
    let (mut w, id) = workspace(&bytes);
    let inspire = |current: &str, goal: &str| Edit::SetInspiration {
        talent: "talent_red".into(),
        id: "editor_verification".into(),
        current_value: current.into(),
        completion_goal_value: goal.into(),
    };
    transact(&mut w, id, inspire("2", "3")).unwrap();
    Document::decode(&w.export(id).unwrap()).unwrap();
    undo(&mut w, id);
    assert_eq!(w.export(id).unwrap(), bytes);
    transact(&mut w, id, inspire("2", "3")).unwrap();
    transact(&mut w, id, inspire("3", "3")).unwrap();
    let inspirations = progression(&mut w, id).talents.remove(0).inspirations;
    assert_eq!(inspirations.len(), 1);
    assert_eq!(
        (inspirations[0].id.as_str(), inspirations[0].current_value.as_str(), inspirations[0].completion_goal_value.as_str()),
        ("editor_verification", "3", "3")
    );
    let empty = Edit::SetInspiration { talent: "talent_red".into(), id: "".into(), current_value: "1".into(), completion_goal_value: "1".into() };
    assert_eq!(refusal(transact(&mut w, id, empty)), "Invalid inspiration ID");
    let mut bare = Workspace::default();
    let other = bare.open(&bytes).unwrap().document_id;
    assert_eq!(refusal(transact(&mut bare, other, inspire("1", "1"))), "Unknown template");
}

#[test]
fn unlocking_known_technologies_again_changes_nothing() {
    let (mut w, id) = workspace(&fixture());
    transact(&mut w, id, technologies(&["wheel"], &["cart"])).unwrap();
    let revision = w.summary(id).unwrap().revision;
    let bytes = w.export(id).unwrap();
    transact(&mut w, id, technologies(&["fire", "wheel"], &["cart"])).unwrap();
    assert_eq!(w.export(id).unwrap(), bytes);
    assert_eq!(w.summary(id).unwrap().revision, revision);
    assert_eq!(progression(&mut w, id).unlocked_technologies, vec!["fire".to_string(), "wheel".to_string()]);
}
