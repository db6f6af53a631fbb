use servery::errors::ServiceError;
use servery::registry::{NewServer, Registry};
use servery::storage::{from_text, load, to_text};

fn payload(name: &str) -> NewServer {
    NewServer {
        name: name.to_string(),
        version: None,
        mods: Vec::new(),
    }
}

#[test]
fn duplicate_explicit_id_is_rejected_and_store_unchanged() {
    let mut reg = Registry::new();
    assert!(reg.insert_with_id(7, payload("one")).is_ok());
    let second = reg.insert_with_id(7, payload("two"));
    assert_eq!(second, Err(ServiceError::DuplicateIdentity(7)));
    let with_id = reg.all().iter().filter(|s| s.id == 7).count();
    assert_eq!(with_id, 1);
    assert_eq!(reg.all().len(), 1);
    assert_eq!(reg.all()[0].name, "one");
}

#[test]
fn assigned_inserts_yield_distinct_ids_and_lookups() {
    let mut reg = Registry::new();
    let mut ids = Vec::new();
    for k in 0..5 {
        ids.push(reg.insert(payload(&format!("srv{}", k))));
    }
    assert_eq!(reg.all().len(), 5);
    for (k, id) in ids.iter().enumerate() {
        for other in ids[k + 1..].iter() {
            assert_ne!(id, other);
        }
        let found = reg.by_id(*id).expect("assigned id must be found");
        assert_eq!(found.name, format!("srv{}", k));
    }
}

#[test]
fn assigned_id_fills_the_smallest_gap() {
    let mut reg = Registry::new();
    assert!(reg.insert_with_id(0, payload("a")).is_ok());
    assert!(reg.insert_with_id(1, payload("b")).is_ok());
    assert!(reg.insert_with_id(3, payload("d")).is_ok());
    assert_eq!(reg.insert(payload("c")), 2);
    assert_eq!(reg.insert(payload("e")), 4);
}

#[test]
fn load_without_prior_state_gives_an_empty_registry() {
    let reg = load(None).expect("bootstrap must succeed");
    assert!(reg.all().is_empty());
}

#[test]
fn insert_then_reload_round_trips_the_record_exactly() {
    let mut reg = load(None).expect("bootstrap must succeed");
    let id = reg.insert(NewServer {
        name: "factory".to_string(),
        version: Some("1.16.5".to_string()),
        mods: vec![
            "https://example.test/mods/a.jar".to_string(),
            "https://example.test/mods/b.jar".to_string(),
        ],
    });
    let text = to_text(&reg);
    let back = from_text(&text).expect("own encoding must decode");
    assert_eq!(back.all().len(), 1);
    let rec = back.by_id(id).expect("record must survive the round trip");
    assert_eq!(rec.id, id);
    assert_eq!(rec.name, "factory");
    assert_eq!(rec.version.as_deref(), Some("1.16.5"));
    assert_eq!(
        rec.mods,
        vec![
            "https://example.test/mods/a.jar".to_string(),
            "https://example.test/mods/b.jar".to_string(),
        ]
    );
}

#[test]
fn awkward_characters_survive_the_round_trip() {
    let mut reg = Registry::new();
    reg.insert(NewServer {
        name: "we{ird}\nna+me-0042:\u{263a}".to_string(),
        version: Some(String::new()),
        mods: vec![String::new(), "x".repeat(40)],
    });
    reg.insert(payload(""));
    let text = to_text(&reg);
    let back = from_text(&text).expect("own encoding must decode");
    assert_eq!(back.all().len(), 2);
    assert_eq!(back.all()[0].name, "we{ird}\nna+me-0042:\u{263a}");
    assert_eq!(back.all()[0].version.as_deref(), Some(""));
    assert_eq!(back.all()[0].mods, vec![String::new(), "x".repeat(40)]);
    assert_eq!(back.all()[1].name, "");
}

#[test]
fn malformed_state_is_a_storage_error() {
    match from_text("not a registry") {
        Err(e) => assert_eq!(e, ServiceError::Storage),
        Ok(_) => panic!("malformed state must be rejected"),
    }
    match from_text("") {
        Err(e) => assert_eq!(e, ServiceError::Storage),
        Ok(_) => panic!("empty state must be rejected"),
    }
    // A correct prefix with trailing garbage is malformed too.
    let text = to_text(&Registry::new());
    match from_text(&format!("{}zzz", text)) {
        Err(e) => assert_eq!(e, ServiceError::Storage),
        Ok(_) => panic!("trailing garbage must be rejected"),
    }
}

#[test]
fn truncated_state_is_a_storage_error() {
    let mut reg = Registry::new();
    reg.insert(payload("whole"));
    let text = to_text(&reg);
    let truncated: String = text.chars().take(text.chars().count() - 1).collect();
    match from_text(&truncated) {
        Err(e) => assert_eq!(e, ServiceError::Storage),
        Ok(_) => panic!("truncated state must be rejected"),
    }
}

#[test]
fn count_beyond_the_records_is_a_storage_error() {
    // The empty registry's text ends in its zero record count; raising the
    // count without supplying a record must be rejected.
    let text = to_text(&Registry::new());
    let mut lying: String = text.chars().take(text.chars().count() - 1).collect();
    lying.push('1');
    match from_text(&lying) {
        Err(e) => assert_eq!(e, ServiceError::Storage),
        Ok(_) => panic!("a count beyond the records must be rejected"),
    }
}

#[test]
fn reloaded_registry_keeps_allocating_fresh_ids() {
    let mut reg = Registry::new();
    reg.insert(payload("first"));
    reg.insert(payload("second"));
    let mut back = from_text(&to_text(&reg)).expect("own encoding must decode");
    let next = back.insert(payload("third"));
    assert_eq!(next, 2);
    assert_eq!(back.all().len(), 3);
}

#[test]
fn empty_registry_round_trips() {
    let reg = Registry::new();
    let back = from_text(&to_text(&reg)).expect("own encoding must decode");
    assert!(back.all().is_empty());
}
