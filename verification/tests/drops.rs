use gk2_save_core::drops::{Edit, Shown};
use gk2_save_core::{Command, FloatBits, Operation, Reply, Workspace};

fn text(s: &str) -> Vec<u8> {
    let mut b = vec![0];
    b.extend((s.len() as i32).to_le_bytes());
    b.extend(s.as_bytes());
    b
}

fn named(name: &str, children: Vec<u8>) -> Vec<u8> {
    [vec![3], text(name), vec![46], children, vec![5]].concat()
}

fn unnamed(children: Vec<u8>) -> Vec<u8> {
    [vec![4, 46], children, vec![5]].concat()
}

fn array(items: Vec<Vec<u8>>) -> Vec<u8> {
    let count = items.len() as i64;
    [vec![6], count.to_le_bytes().to_vec(), items.concat(), vec![7]].concat()
}

fn string_field(name: &str, value: &str) -> Vec<u8> {
    [vec![39], text(name), text(value)].concat()
}

fn i32_field(name: &str, value: i32) -> Vec<u8> {
    [vec![23], text(name), value.to_le_bytes().to_vec()].concat()
}

fn f32_field(name: &str, value: f32) -> Vec<u8> {
    [vec![31], text(name), value.to_bits().to_le_bytes().to_vec()].concat()
}

fn drop_entry(item: &str, count: i32) -> Vec<u8> {
    unnamed(
        [
            named("item", [string_field("id", item), i32_field("count", count)].concat()),
            i32_field("dropType", 0),
            named("pos", [f32_field("x", 1.0), f32_field("y", 2.0), f32_field("z", 3.0)].concat()),
        ]
        .concat(),
    )
}

fn save(drops: Vec<Vec<u8>>) -> Vec<u8> {
    let scene = unnamed(
        [
            string_field("id", "scene1"),
            named("droppedItems", array(drops)),
            named("queuedDrops", array(vec![])),
        ]
        .concat(),
    );
    unnamed(named("worldData", named("gameSceneDataList", array(vec![scene]))))
}

fn drops(w: &mut Workspace, id: u32) -> Vec<gk2_save_core::drops::DropEntry> {
    let Ok(Reply::Drops(entries)) = w.request(id, Command::Drops) else {
        panic!()
    };
    entries
}

#[test]
fn drops_are_listed_and_removed_together() {
    let bytes = save(vec![drop_entry("apple", 3), drop_entry("pear", 1)]);
    let mut w = Workspace::default();
    let id = w.open(&bytes).ok().unwrap().document_id;
    let found = drops(&mut w, id);
    assert_eq!(found.len(), 2);
    assert_eq!(found[0].count, 3);
    assert_eq!(found[0].kind, "Item");
    assert_eq!(found[0].source, "Dropped");
    assert!(matches!(&found[0].id, Shown::Text(t) if t == "apple"));
    assert!(matches!(&found[0].world, Shown::Text(t) if t == "scene1"));
    assert_eq!(found[0].x, FloatBits::Single(1.0f32.to_bits()));
    assert_eq!(found[0].z, FloatBits::Single(3.0f32.to_bits()));
    let first = found[0].node;
    let twice = Operation::Drops { action: Edit::Remove { nodes: vec![first, first] } };
    assert_eq!(w.transact(id, 1, vec![twice]).err().unwrap().0, "A drop was selected more than once");
    let none = Operation::Drops { action: Edit::Remove { nodes: vec![] } };
    assert_eq!(w.transact(id, 1, vec![none]).err().unwrap().0, "Select between 1 and 100,000 drops");
    let other = Operation::Drops { action: Edit::Remove { nodes: vec![0] } };
    assert_eq!(w.transact(id, 1, vec![other]).err().unwrap().0, "A selected drop is no longer available");
    let remove = Operation::Drops { action: Edit::Remove { nodes: vec![first] } };
    assert!(w.transact(id, 1, vec![remove]).is_ok());
    let left = drops(&mut w, id);
    assert_eq!(left.len(), 1);
    assert!(matches!(&left[0].id, Shown::Text(t) if t == "pear"));
    assert_eq!(w.export(id).ok().unwrap(), save(vec![drop_entry("pear", 1)]));
    assert!(w.history(id, 2, false).is_ok());
    assert_eq!(w.export(id).ok().unwrap(), bytes);
}

#[test]
fn drops_need_the_expected_layout() {
    let bytes = unnamed(named("worldData", vec![]));
    let mut w = Workspace::default();
    let id = w.open(&bytes).ok().unwrap().document_id;
    assert_eq!(
        w.request(id, Command::Drops).err().unwrap().0,
        "Missing or ambiguous field: gameSceneDataList"
    );
}
