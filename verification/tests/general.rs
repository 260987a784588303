use gk2_save_core::drops::Shown;
use gk2_save_core::general::GeneralValue;
use gk2_save_core::{Command, FloatBits, Operation, Reply, Template, TemplateField, Workspace};

fn string(s: &str) -> Vec<u8> {
    let mut b = vec![0];
    b.extend((s.len() as i32).to_le_bytes());
    b.extend(s.as_bytes());
    b
}

fn value_node(name: &str, children: Vec<u8>) -> Vec<u8> {
    let mut b = vec![if name.is_empty() { 4 } else { 3 }];
    if !name.is_empty() {
        b.extend(string(name));
    }
    b.push(46);
    b.extend(children);
    b.push(5);
    b
}

fn atom_template() -> Template {
    Template {
        id: "game-res-atom".into(),
        declared_type: "GameResAtom, Assembly-CSharp".into(),
        reference: false,
        fields: vec![
            TemplateField { name: Some("type".into()), kind: "string".into(), value: "".into(), float: None },
            TemplateField {
                name: Some("value".into()),
                kind: "f32".into(),
                value: "0".into(),
                float: Some(FloatBits::Single(0)),
            },
        ],
    }
}

fn general_value(key: &str, value: &str) -> GeneralValue {
    GeneralValue {
        key: key.into(),
        value: value.into(),
        number: value.parse::<f64>().ok().map(f64::to_bits),
        single: value.parse::<f32>().ok().map(|n| FloatBits::Single(n.to_bits())),
    }
}

fn fields(w: &mut Workspace, id: u32) -> Vec<gk2_save_core::general::GeneralField> {
    let Ok(Reply::General(fields)) = w.request(id, Command::General) else {
        panic!()
    };
    fields
}

#[test]
fn general_resource_insert_float_precision_and_malformed_mapping() {
    let mut hp = vec![23];
    hp.extend(string("hp"));
    hp.extend(75i32.to_le_bytes());
    hp.push(23);
    hp.extend(string("maxHpValue"));
    hp.extend(100i32.to_le_bytes());
    let array = vec![6, 0, 0, 0, 0, 0, 0, 0, 0, 7];
    let res = [value_node("resType", array.clone()), value_node("resValues", array)].concat();
    let bytes = value_node(
        "",
        value_node("playerData", [value_node("hpComponent", hp), value_node("res", res)].concat()),
    );
    let mut w = Workspace::default();
    w.templates.push(atom_template());
    let id = w.open(&bytes).ok().unwrap().document_id;
    let values = vec![general_value("energy", "0.1"), general_value("hp", "110"), general_value("money", "12345")];
    assert!(w.transact(id, 1, vec![Operation::General { values }]).is_ok());
    let read = fields(&mut w, id);
    assert!(read.iter().all(|f| f.error.is_none()));
    let energy = read.iter().find(|f| f.key == "energy").unwrap();
    assert!(matches!(energy.value, Some(Shown::Number(FloatBits::Single(b))) if b == 0.1f32.to_bits()));
    let encoded = w.export(id).ok().unwrap();
    let reopened = w.open(&encoded).ok().unwrap().document_id;
    let read = fields(&mut w, reopened);
    let money = read.iter().find(|f| f.key == "money").unwrap();
    assert!(matches!(money.value, Some(Shown::Number(FloatBits::Single(b))) if b == 12345f32.to_bits()));
    let hp = read.iter().find(|f| f.key == "hp").unwrap();
    assert!(matches!(&hp.value, Some(Shown::Text(t)) if t == "110"));
    let invalid = vec![general_value("max_hp", "0"), general_value("money", "55")];
    assert!(w.transact(id, 2, vec![Operation::General { values: invalid }]).is_err());
    assert_eq!(w.export(id).ok().unwrap(), encoded);
    assert!(w.history(id, 2, false).is_ok());
    assert_eq!(w.export(id).ok().unwrap(), bytes);
}

#[test]
fn general_values_must_be_known_finite_and_nonnegative() {
    let bytes = value_node("", value_node("playerData", vec![]));
    let mut w = Workspace::default();
    let id = w.open(&bytes).ok().unwrap().document_id;
    let read = fields(&mut w, id);
    assert_eq!(read.len(), 10);
    assert_eq!(read[0].error.as_deref(), Some("Missing or ambiguous field: hpComponent"));
    let check = |w: &mut Workspace, key: &str, value: &str| {
        w.transact(id, 1, vec![Operation::General { values: vec![general_value(key, value)] }]).err().unwrap().0
    };
    assert_eq!(check(&mut w, "money", "lots"), "Enter a finite nonnegative number");
    assert_eq!(check(&mut w, "money", "-1"), "Enter a finite nonnegative value; maximum health must be positive");
    assert_eq!(check(&mut w, "money", "inf"), "Enter a finite nonnegative value; maximum health must be positive");
    assert_eq!(check(&mut w, "max_hp", "-0"), "Enter a finite nonnegative value; maximum health must be positive");
    assert_eq!(check(&mut w, "gold", "1"), "Unknown General field");
    assert_eq!(check(&mut w, "money", "-0"), "Missing or ambiguous field: res");
}
