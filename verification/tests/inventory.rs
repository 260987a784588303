use gk2_save_core::drops::Shown;
use gk2_save_core::inventory::{allowed as admits, append, array, new_item, node, Cache, Catalog, Definition, Edit, Snapshot};
use gk2_save_core::workspace::{field, text, Journal};
use gk2_save_core::service::view;
use gk2_save_core::{Command, Document, Error, FloatBits, Operation, Reply, TransactOutcome, Workspace};

fn definition(stack: i32, size: &str, groups: &[&str], is_bag: bool, capacity: i32, durability: bool, allowed: Option<&[&str]>) -> Definition {
    Definition {
        family: None,
        stack,
        size: size.into(),
        groups: groups.iter().map(|g| g.to_string()).collect(),
        is_bag,
        capacity,
        durability,
        allowed: allowed.map(|a| a.iter().map(|g| g.to_string()).collect()),
    }
}

fn catalog() -> Catalog {
    Catalog {
        items: vec![
            ("apple".into(), definition(10, "Small", &["food"], false, 0, false, None)),
            ("bag".into(), definition(1, "Small", &[], true, 2, false, Some(&["apple"]))),
            ("log".into(), definition(1, "Big", &[], false, 0, false, None)),
            ("tool".into(), definition(1, "Small", &["tool"], false, 0, true, None)),
        ],
    }
}

fn fixture() -> Vec<u8> {
    let mut doc = Document::decode(&[4, 46, 5]).unwrap();
    let mut j = Journal::begin(&doc);
    let p = node(&mut doc, &mut j, 0, Some("playerData"), None, false).unwrap();
    let inv = node(&mut doc, &mut j, p, Some("inventory"), Some("Inventory, Assembly-CSharp"), true).unwrap();
    let d = definition(1, "Small", &[], false, 3, false, None);
    let item = new_item(&mut doc, &mut j, inv, "inventory", 1, "11111111-1111-4111-8111-111111111111", &d, false).unwrap();
    doc.records[item].name = Some(text("inventoryItem"));
    doc.records[item].tag = 1;
    doc.rebuild().unwrap();
    doc.encode()
}

fn open_with_catalog(bytes: &[u8]) -> (Workspace, u32) {
    let mut w = Workspace::default();
    let id = w.open(bytes).unwrap().document_id;
    assert!(matches!(w.request(id, Command::InventoryCatalog { catalog: catalog() }), Ok(Reply::CatalogLoaded)));
    (w, id)
}

fn inventories(w: &mut Workspace, id: u32) -> Snapshot {
    match w.request(id, Command::Inventories) {
        Ok(Reply::Inventories(s)) => s,
        _ => panic!("inventories unavailable"),
    }
}

fn allowed(s: &Snapshot, k: usize) -> Vec<String> {
    s.rules[s.inventories[k].rule].allowed.clone()
}

fn run(w: &mut Workspace, id: u32, operations: Vec<Operation>) -> Result<TransactOutcome, Error> {
    let revision = w.summary(id).unwrap().revision;
    match w.request(id, Command::Transact { revision, operations }) {
        Ok(Reply::Transacted(o)) => Ok(o),
        Ok(_) => panic!("unexpected reply"),
        Err(e) => Err(e),
    }
}

fn edit(container: usize, action: Edit, out_of_bounds: bool) -> Operation {
    Operation::Inventory { container, action, out_of_bounds }
}

fn transact(w: &mut Workspace, id: u32, container: usize, action: Edit, out_of_bounds: bool) -> Result<TransactOutcome, Error> {
    run(w, id, vec![edit(container, action, out_of_bounds)])
}

fn put(item: &str, node: Option<usize>, count: &str, guid: &str) -> Edit {
    Edit::Put { node, item: item.into(), count: count.into(), guid: guid.into() }
}

fn history(w: &mut Workspace, id: u32, redo: bool) -> TransactOutcome {
    let revision = w.summary(id).unwrap().revision;
    let command = if redo { Command::Redo { revision } } else { Command::Undo { revision } };
    match w.request(id, command) {
        Ok(Reply::Transacted(o)) => o,
        _ => panic!("history unavailable"),
    }
}

fn full_durability(d: &Option<Shown>) -> bool {
    matches!(d, Some(Shown::Number(FloatBits::Single(0x3f80_0000))))
}

#[test]
fn incremental_results_history_and_failed_batches() {
    let bytes = fixture();
    let (mut w, id) = open_with_catalog(&bytes);
    let snapshot = inventories(&mut w, id);
    let c = snapshot.inventories[0].node;
    assert!(snapshot.inventories[0].rule < snapshot.rules.len());
    assert_eq!(snapshot.rules.len(), 1);
    let tool = || put("tool", None, "1", "55555555-5555-4555-8555-555555555555");
    let invalid = edit(c, Edit::Capacity { value: "-1".into() }, true);
    assert!(run(&mut w, id, vec![edit(c, tool(), false), invalid]).is_err());
    assert_eq!(w.export(id).unwrap(), bytes);
    let result = transact(&mut w, id, c, tool(), false).unwrap();
    let updates = result.inventory.unwrap();
    assert_eq!(updates.upsert.len(), 1);
    assert!(updates.rules.is_empty());
    assert!(!result.inventory_invalidated);
    assert!(result.general.is_none());
    let after = w.export(id).unwrap();
    assert_eq!(Some(after.len()), w.summary(id).unwrap().encoded_bytes);
    history(&mut w, id, false);
    assert_eq!(w.export(id).unwrap(), bytes);
    assert!(!w.summary(id).unwrap().dirty);
    let redone = history(&mut w, id, true);
    assert_eq!(redone.inventory.unwrap().upsert.len(), 1);
    assert_eq!(w.export(id).unwrap(), after);
    Document::decode(&after).unwrap();
}

#[test]
fn inventory_insertion_limits_durability_bags_and_undo() {
    let bytes = fixture();
    let (mut w, id) = open_with_catalog(&bytes);
    let inv = inventories(&mut w, id);
    let c = inv.inventories[0].node;
    assert_eq!(inv.inventories[0].kind, "Player");
    assert!(!allowed(&inv, 0).contains(&"log".to_string()));
    let guid = "22222222-2222-4222-8222-222222222222";
    assert!(transact(&mut w, id, c, put("apple", None, "11", guid), false).is_err());
    assert_eq!(w.export(id).unwrap(), bytes);
    transact(&mut w, id, c, put("tool", None, "1", guid), false).unwrap();
    let exported = w.export(id).unwrap();
    Document::decode(&exported).unwrap();
    let inv = inventories(&mut w, id);
    assert!(full_durability(&inv.inventories[0].items[0].durability));
    history(&mut w, id, false);
    assert_eq!(w.export(id).unwrap(), bytes);
    transact(&mut w, id, c, put("bag", None, "1", guid), false).unwrap();
    let inv = inventories(&mut w, id);
    assert_eq!(inv.inventories[1].kind, "Bag");
    assert_eq!(allowed(&inv, 1), vec!["apple".to_string()]);
    assert!(transact(&mut w, id, c, Edit::Capacity { value: "5".into() }, false).is_err());
    transact(&mut w, id, c, Edit::Capacity { value: "5".into() }, true).unwrap();
    let item = inv.inventories[0].items[0].node;
    transact(&mut w, id, c, Edit::Remove { node: item }, false).unwrap();
    assert!(inventories(&mut w, id).inventories[0].items.is_empty());
    assert!(transact(&mut w, id, c, Edit::Remove { node: item }, false).is_err());
}

#[test]
fn deletion_replacement_and_guid_indexes_survive_history() {
    let bytes = fixture();
    let (mut w, id) = open_with_catalog(&bytes);
    let c = inventories(&mut w, id).inventories[0].node;
    let first = "44444444-4444-4444-8444-444444444444";
    let second = "55555555-5555-4555-8555-555555555555";
    let inserted = transact(&mut w, id, c, put("bag", None, "1", first), false).unwrap();
    let bag = inserted.inventory.unwrap().upsert.iter().find(|v| v.kind == "Bag").unwrap().node;
    transact(&mut w, id, bag, put("apple", None, "1", second), false).unwrap();
    let populated = w.export(id).unwrap();
    let removed = transact(&mut w, id, c, Edit::Remove { node: bag }, false).unwrap();
    assert_eq!(removed.inventory.as_ref().unwrap().removed, vec![bag]);
    assert!(!removed.inventory_invalidated);
    assert!(removed.deleted.len() > 12);
    history(&mut w, id, false);
    assert_eq!(w.export(id).unwrap(), populated);
    assert!(transact(&mut w, id, c, put("apple", None, "1", second), false).is_err());
    history(&mut w, id, true);
    // A removed nested item's identity is available again; discarded redo records stay allocated.
    let result = transact(&mut w, id, c, put("apple", None, "1", second), false).unwrap();
    let item = result.inventory.unwrap().upsert[0].items[0].node;
    let apple = w.export(id).unwrap();
    let replaced = transact(&mut w, id, c, put("tool", Some(item), "1", first), false).unwrap();
    assert!(!replaced.inventory_invalidated);
    assert!(replaced.deleted.contains(&item));
    assert!(full_durability(&replaced.inventory.unwrap().upsert[0].items[0].durability));
    let tool = w.export(id).unwrap();
    history(&mut w, id, false);
    assert_eq!(w.export(id).unwrap(), apple);
    history(&mut w, id, true);
    assert_eq!(w.export(id).unwrap(), tool);
    // Redo restores the identity, including newly introduced type definitions.
    assert!(transact(&mut w, id, c, put("apple", None, "1", first), false).is_err());
    assert_eq!(w.export(id).unwrap(), tool);
}

#[test]
fn unchanged_amount_keeps_identity_and_atomic_batch_rejects() {
    let (mut w, id) = open_with_catalog(&fixture());
    let c = inventories(&mut w, id).inventories[0].node;
    transact(&mut w, id, c, put("apple", None, "2", "33333333-3333-4333-8333-333333333333"), false).unwrap();
    let item = inventories(&mut w, id).inventories[0].items[0].node;
    let before = w.export(id).unwrap();
    transact(&mut w, id, c, put("apple", Some(item), "2", "unused"), false).unwrap();
    assert_eq!(w.export(id).unwrap(), before);
    let capacity = edit(c, Edit::Capacity { value: "9".into() }, true);
    assert!(run(&mut w, id, vec![capacity, edit(c, Edit::Remove { node: 0 }, false)]).is_err());
    assert_eq!(w.export(id).unwrap(), before);
    transact(&mut w, id, c, put("apple", Some(item), "50", "unused"), true).unwrap();
    assert_eq!(inventories(&mut w, id).inventories[0].items[0].count, 50);
}

#[test]
fn world_whitelist_and_blacklist_and_large_items() {
    let mut doc = Document::decode(&fixture()).unwrap();
    let mut j = Journal::begin(&doc);
    let world = node(&mut doc, &mut j, 0, Some("worldData"), None, false).unwrap();
    let list = node(&mut doc, &mut j, world, Some("wgoDataList"), None, false).unwrap();
    let owner = node(&mut doc, &mut j, list, None, Some("WgoData, Assembly-CSharp"), true).unwrap();
    append(&mut doc, &mut j, owner, Some("id"), "string", "wood_container", None).unwrap();
    let inv = node(&mut doc, &mut j, owner, Some("inventory"), Some("Inventory, Assembly-CSharp"), true).unwrap();
    let definition = definition(1, "Small", &[], false, 2, false, None);
    let container = new_item(&mut doc, &mut j, inv, "inventory", 1, "44444444-4444-4444-8444-444444444444", &definition, false).unwrap();
    doc.records[container].name = Some(text("inventoryItem"));
    doc.records[container].tag = 1;
    let props = field(&doc, container, "properties").unwrap();
    let array = array(&doc, props).unwrap();
    let prop = node(&mut doc, &mut j, array, None, Some("WhiteListFilterSerializedItemProperty, Assembly-CSharp"), true).unwrap();
    let filter = node(&mut doc, &mut j, prop, Some("whiteList"), Some("WhiteListItemFilter, Assembly-CSharp"), true).unwrap();
    let ids = node(&mut doc, &mut j, filter, Some("itemsIds"), None, false).unwrap();
    let ids = append(&mut doc, &mut j, ids, None, "array", "", None).unwrap();
    append(&mut doc, &mut j, ids, None, "string", "log", None).unwrap();
    let groups = node(&mut doc, &mut j, filter, Some("groupsIds"), None, false).unwrap();
    append(&mut doc, &mut j, groups, None, "array", "", None).unwrap();
    doc.rebuild().unwrap();
    let catalog = catalog();
    let read = |doc: &Document| Cache::build(doc, &catalog).unwrap().snapshot(doc).unwrap();
    let inventories = read(&doc);
    assert_eq!(inventories.inventories[0].kind, "Player");
    assert_eq!(allowed(&inventories, 1), vec!["log".to_string()]);
    let black = node(&mut doc, &mut j, array, None, Some("BlackListFilterSerializedItemProperty, Assembly-CSharp"), true).unwrap();
    let filter = node(&mut doc, &mut j, black, Some("blackList"), Some("BlackListItemFilter, Assembly-CSharp"), true).unwrap();
    let ids = node(&mut doc, &mut j, filter, Some("itemsIds"), None, false).unwrap();
    let ids = append(&mut doc, &mut j, ids, None, "array", "", None).unwrap();
    append(&mut doc, &mut j, ids, None, "string", "log", None).unwrap();
    let groups = node(&mut doc, &mut j, filter, Some("groupsIds"), None, false).unwrap();
    append(&mut doc, &mut j, groups, None, "array", "", None).unwrap();
    doc.rebuild().unwrap();
    assert!(allowed(&read(&doc), 1).is_empty());
}

fn message(r: Result<TransactOutcome, Error>) -> String {
    match r {
        Err(e) => e.0,
        Ok(_) => panic!("edit was accepted"),
    }
}

#[test]
fn catalog_validation_rules() {
    assert!(catalog().validate().is_ok());
    assert!(Catalog { items: vec![] }.validate().is_ok());
    let invalid = |c: Catalog| c.validate().err().unwrap().0;
    let mut c = catalog();
    c.items[0].1.stack = 0;
    assert_eq!(invalid(c), "Invalid inventory catalog");
    let mut c = catalog();
    c.items[1].1.capacity = -1;
    assert_eq!(invalid(c), "Invalid inventory catalog");
    let mut c = catalog();
    c.items[3].0 = format!("tool{}", "é".repeat(511));
    assert_eq!(invalid(c), "Invalid inventory catalog");
    let mut c = catalog();
    c.items[3].0 = format!("tool{}", "é".repeat(510));
    assert!(c.validate().is_ok());
    let mut c = catalog();
    c.items.swap(0, 1);
    assert_eq!(invalid(c), "Invalid inventory catalog");
    let (mut w, id) = open_with_catalog(&fixture());
    let mut c = catalog();
    c.items[0].1.stack = 0;
    assert_eq!(w.request(id, Command::InventoryCatalog { catalog: c }).err().unwrap().0, "Invalid inventory catalog");
}

#[test]
fn allowed_items_of_the_player_inventory() {
    let doc = Document::decode(&fixture()).unwrap();
    let catalog = catalog();
    let container = Cache::build(&doc, &catalog).unwrap().snapshot(&doc).unwrap().inventories[0].node;
    assert!(!admits(&doc, &catalog, container, "").unwrap());
    assert!(!admits(&doc, &catalog, container, "empty").unwrap());
    assert_eq!(admits(&doc, &catalog, container, "pear").err().unwrap().0, "Item definition unavailable");
    assert!(!admits(&doc, &catalog, container, "log").unwrap());
    assert!(admits(&doc, &catalog, container, "apple").unwrap());
    let mut odd = catalog;
    odd.items[0].1.size = "Huge".into();
    assert!(!admits(&doc, &odd, container, "apple").unwrap());
}

#[test]
fn refused_inventory_edits_name_their_reason() {
    let bytes = fixture();
    let (mut w, id) = open_with_catalog(&bytes);
    let c = inventories(&mut w, id).inventories[0].node;
    let g = |k: u32| format!("{:08x}-1111-4111-8111-111111111111", k);
    let capacity = |v: &str| Edit::Capacity { value: v.into() };
    assert_eq!(message(transact(&mut w, id, c, capacity("x"), true)), "Capacity must be an integer");
    assert_eq!(
        message(transact(&mut w, id, c, capacity("-1"), true)),
        "Enable out of bounds edits; capacity cannot be smaller than its contents"
    );
    assert_eq!(message(transact(&mut w, id, c, put("apple", None, "x", &g(1)), false)), "Amount must be an integer");
    assert_eq!(message(transact(&mut w, id, c, put("pear", None, "1", &g(1)), false)), "Item definition unavailable");
    assert_eq!(message(transact(&mut w, id, c, put("apple", None, "0", &g(1)), true)), "Amount exceeds the item stack size");
    assert_eq!(message(transact(&mut w, id, c, put("log", None, "1", &g(1)), false)), "Item is not allowed in this inventory");
    assert_eq!(message(transact(&mut w, id, c, put("apple", None, "1", "not-a-guid"), false)), "Invalid item GUID");
    assert_eq!(message(transact(&mut w, id, c, Edit::Remove { node: 0 }, false)), "Item is not in this inventory");
    assert_eq!(message(transact(&mut w, id, 0, Edit::Remove { node: 0 }, false)), "Unsupported inventory");
    assert_eq!(w.export(id).unwrap(), bytes);
    for k in 1..=3 {
        transact(&mut w, id, c, put("apple", None, "1", &g(k)), false).unwrap();
    }
    assert_eq!(message(transact(&mut w, id, c, put("apple", None, "1", &g(4)), false)), "Inventory is full");
    transact(&mut w, id, c, capacity("4"), true).unwrap();
    assert_eq!(message(transact(&mut w, id, c, put("apple", None, "1", &g(1).to_uppercase()), false)), "Duplicate item GUID");
    transact(&mut w, id, c, put("apple", None, "1", &g(4)), false).unwrap();
    assert_eq!(inventories(&mut w, id).inventories[0].items.len(), 4);
    assert_eq!(inventories(&mut w, id).inventories[0].capacity, 4);
}

#[test]
fn family_members_change_in_place() {
    let mut w = Workspace::default();
    let id = w.open(&fixture()).unwrap().document_id;
    let mut c = catalog();
    let mut axe = definition(1, "Small", &["tool"], false, 0, false, None);
    axe.family = Some("axe".into());
    let mut better = definition(1, "Small", &["tool"], false, 0, false, None);
    better.family = Some("axe".into());
    c.items.insert(1, ("axe_1".into(), axe));
    c.items.insert(2, ("axe_2".into(), better));
    assert!(matches!(w.request(id, Command::InventoryCatalog { catalog: c }), Ok(Reply::CatalogLoaded)));
    let container = inventories(&mut w, id).inventories[0].node;
    transact(&mut w, id, container, put("axe_1", None, "1", "66666666-6666-4666-8666-666666666666"), false).unwrap();
    let slot = inventories(&mut w, id).inventories[0].items[0].node;
    let changed = transact(&mut w, id, container, put("axe_2", Some(slot), "1", "not used"), false).unwrap();
    assert!(changed.deleted.is_empty());
    let after = inventories(&mut w, id);
    assert_eq!(after.inventories[0].items[0].node, slot);
    assert_eq!(after.inventories[0].items[0].id, "axe_2");
}

#[test]
fn inventories_of_a_closed_document_are_refused() {
    let (mut w, id) = open_with_catalog(&fixture());
    assert!(w.request(id, Command::Close).is_ok());
    assert_eq!(w.request(id, Command::Inventories).err().unwrap().0, "Document is closed");
}

#[test]
fn fill_size_follows_the_number_of_slots() {
    let bytes = fixture();
    let (mut w, id) = open_with_catalog(&bytes);
    let c = inventories(&mut w, id).inventories[0].node;
    transact(&mut w, id, c, put("apple", None, "3", "22222222-2222-4222-8222-222222222222"), false).unwrap();
    transact(&mut w, id, c, put("tool", None, "1", "33333333-3333-4333-8333-333333333333"), false).unwrap();
    let doc = Document::decode(&w.export(id).unwrap()).unwrap();
    let fill = field(&doc, c, "inventoryFillSize").unwrap();
    assert_eq!(view(&doc, fill).value.as_deref(), Some("2"));
    let item = inventories(&mut w, id).inventories[0].items[0].node;
    transact(&mut w, id, c, Edit::Remove { node: item }, false).unwrap();
    let doc = Document::decode(&w.export(id).unwrap()).unwrap();
    let fill = field(&doc, c, "inventoryFillSize").unwrap();
    assert_eq!(view(&doc, fill).value.as_deref(), Some("1"));
}
