use racing::car::{contains_name, CarAttribute, CarError, CarMetadata, CarRegistry, InstantiateMsg, MAX_LIMIT};
use racing::text::parse_u128;
use racing::types::GetQResponse;

fn names(v: &[&str]) -> Vec<String> {
    v.iter().map(|s| s.to_string()).collect()
}

fn registry() -> CarRegistry {
    CarRegistry::instantiate(InstantiateMsg { admin: "admin".to_string() })
}

fn metadata(name: &str) -> CarMetadata {
    CarMetadata {
        name: name.to_string(),
        description: Some("fast".to_string()),
        image_uri: None,
        attributes: Some(vec![CarAttribute { trait_type: "Speed".to_string(), value: "High".to_string() }]),
    }
}

fn owners(reg: &CarRegistry, id: u128) -> Vec<String> {
    reg.query_owner_of(id).unwrap().owners
}

#[test]
fn minting_assigns_consecutive_ids() {
    let mut reg = registry();
    assert_eq!(reg.execute_mint(names(&["alice"]), None, 10), 0);
    assert_eq!(reg.execute_mint(names(&["bob", "carol"]), Some(metadata("Zoom")), 11), 1);
    assert_eq!(owners(&reg, 0), names(&["alice"]));
    assert_eq!(owners(&reg, 1), names(&["bob", "carol"]));
    let info = reg.query_nft_info(1).unwrap();
    assert_eq!(info.car_id, "1");
    assert_eq!(info.metadata.unwrap().name, "Zoom");
    assert_eq!(reg.query_all_tokens().tokens, names(&["0", "1"]));
}

#[test]
fn unknown_cars_are_not_found() {
    let reg = registry();
    assert!(matches!(reg.query_owner_of(3), Err(CarError::CarNotFound { car_id: 3 })));
    assert!(matches!(reg.query_nft_info(0), Err(CarError::CarNotFound { car_id: 0 })));
    assert!(matches!(reg.query_car_info(Some(7), None, None), Err(CarError::CarNotFound { car_id: 7 })));
    assert!(matches!(reg.check_owner(0, &"a".to_string()), Err(CarError::CarNotFound { car_id: 0 })));
    assert_eq!(reg.query_all_tokens().tokens.len(), 0);
}

#[test]
fn only_owners_may_change_a_car() {
    let mut reg = registry();
    reg.execute_mint(names(&["alice"]), None, 1);
    let mallory = "mallory".to_string();
    assert!(matches!(reg.check_owner(0, &mallory), Err(CarError::Unauthorized)));
    assert!(reg.check_owner(0, &"alice".to_string()).is_ok());
    assert!(matches!(reg.execute_update_owner(&mallory, 0, names(&["mallory"]), true), Err(CarError::Unauthorized)));
    assert!(matches!(reg.execute_update_car_metadata(&mallory, 0, metadata("x")), Err(CarError::Unauthorized)));
    assert!(matches!(reg.execute_transfer(&mallory, 0, "mallory".to_string()), Err(CarError::Unauthorized)));
    assert!(matches!(reg.execute_transfer(&mallory, 5, "mallory".to_string()), Err(CarError::CarNotFound { car_id: 5 })));
    assert_eq!(owners(&reg, 0), names(&["alice"]));
    assert!(reg.query_nft_info(0).unwrap().metadata.is_none());
}

#[test]
fn adding_owners_skips_existing_names() {
    let mut reg = registry();
    reg.execute_mint(names(&["alice", "bob"]), None, 1);
    let alice = "alice".to_string();
    assert!(reg.execute_update_owner(&alice, 0, names(&["bob", "carol", "carol", "dave"]), true).is_ok());
    assert_eq!(owners(&reg, 0), names(&["alice", "bob", "carol", "dave"]));
}

#[test]
fn removing_owners_keeps_at_least_one() {
    let mut reg = registry();
    reg.execute_mint(names(&["alice", "bob", "carol"]), None, 1);
    let alice = "alice".to_string();
    assert!(reg.execute_update_owner(&alice, 0, names(&["bob", "zed"]), false).is_ok());
    assert_eq!(owners(&reg, 0), names(&["alice", "carol"]));
    assert!(matches!(
        reg.execute_update_owner(&alice, 0, names(&["alice", "carol"]), false),
        Err(CarError::CarHasNoOwners { car_id: 0 })
    ));
    assert_eq!(owners(&reg, 0), names(&["alice", "carol"]));
    // An owner may remove itself while others remain.
    assert!(reg.execute_update_owner(&alice, 0, names(&["alice"]), false).is_ok());
    assert_eq!(owners(&reg, 0), names(&["carol"]));
}

#[test]
fn metadata_update_and_transfer() {
    let mut reg = registry();
    reg.execute_mint(names(&["alice", "bob"]), Some(metadata("Old")), 1);
    reg.execute_mint(names(&["zoe"]), None, 2);
    let bob = "bob".to_string();
    assert!(reg.execute_update_car_metadata(&bob, 0, metadata("New")).is_ok());
    assert_eq!(reg.query_nft_info(0).unwrap().metadata.unwrap().name, "New");
    assert!(reg.execute_transfer(&bob, 0, "erin".to_string()).is_ok());
    assert_eq!(owners(&reg, 0), names(&["erin"]));
    assert_eq!(reg.query_nft_info(0).unwrap().metadata.unwrap().name, "New");
    // Other cars are untouched.
    assert_eq!(owners(&reg, 1), names(&["zoe"]));
    // The former owners lost the car.
    assert!(matches!(reg.execute_transfer(&bob, 0, "bob".to_string()), Err(CarError::Unauthorized)));
}

#[test]
fn car_info_pages() {
    let mut reg = registry();
    for i in 0..40 {
        reg.execute_mint(vec![format!("owner{}", i)], None, i);
    }
    let one = reg.query_car_info(Some(5), None, None).unwrap();
    assert_eq!(one.len(), 1);
    assert_eq!(one[0].car_id, "5");
    assert_eq!(one[0].owners, names(&["owner5"]));
    let first = reg.query_car_info(None, None, None).unwrap();
    assert_eq!(first.len() as u32, MAX_LIMIT);
    assert_eq!(first[0].car_id, "0");
    assert_eq!(first[31].car_id, "31");
    let page = reg.query_car_info(None, Some(10), Some(3)).unwrap();
    let ids: Vec<&str> = page.iter().map(|c| c.car_id.as_str()).collect();
    assert_eq!(ids, vec!["11", "12", "13"]);
    assert_eq!(reg.query_car_info(None, Some(38), None).unwrap().len(), 1);
    assert_eq!(reg.query_car_info(None, Some(39), None).unwrap().len(), 0);
    assert_eq!(reg.query_all_tokens().tokens.len(), 40);
    assert_eq!(reg.query_all_tokens().tokens[39], "39");
}

#[test]
fn name_lookup() {
    let list = names(&["a", "bb", "c"]);
    assert!(contains_name(&list, &"bb".to_string()));
    assert!(!contains_name(&list, &"b".to_string()));
    assert!(!contains_name(&Vec::new(), &"a".to_string()));
}

#[test]
fn car_registry_parts_round_trip() {
    let mut reg = registry();
    reg.execute_mint(names(&["alice"]), Some(metadata("Zoom")), 5);
    let (admin, cars) = reg.into_parts();
    assert_eq!(admin, "admin");
    assert_eq!(cars.len(), 1);
    assert_eq!(cars[0].created_at, 5);
    let reg = CarRegistry::from_parts(admin, cars);
    assert_eq!(owners(&reg, 0), names(&["alice"]));
}

fn stored_q_table() -> CarRegistry {
    registry().with_q_table(vec![
        (1, "a".to_string(), [1, 2, 3, 4]),
        (2, "a".to_string(), [9, 9, 9, 9]),
        (1, "b".to_string(), [5, 6, 7, 8]),
        (1, "a".to_string(), [-1, 0, 1, 2]),
    ])
}

fn invalid_id(r: Result<GetQResponse, CarError>) -> Option<String> {
    match r {
        Err(CarError::InvalidCarId { car_id }) => Some(car_id),
        _ => None,
    }
}

#[test]
fn q_values_of_one_state() {
    let reg = stored_q_table();
    let r = reg.query_q_values("1".to_string(), Some("b".to_string())).unwrap();
    assert_eq!(r.car_id, "1");
    assert_eq!(r.q_values.len(), 1);
    assert_eq!(r.q_values[0].state_hash, "b");
    assert_eq!(r.q_values[0].action_values, [5, 6, 7, 8]);
    // The later entry for the same car and state is the stored one.
    let r = reg.query_q_values("1".to_string(), Some("a".to_string())).unwrap();
    assert_eq!(r.q_values[0].action_values, [-1, 0, 1, 2]);
    // A state without stored values answers zeros.
    let r = reg.query_q_values("2".to_string(), Some("b".to_string())).unwrap();
    assert_eq!(r.q_values.len(), 1);
    assert_eq!(r.q_values[0].state_hash, "b");
    assert_eq!(r.q_values[0].action_values, [0, 0, 0, 0]);
}

#[test]
fn full_q_table_of_a_car() {
    let reg = stored_q_table();
    let r = reg.query_q_values("1".to_string(), None).unwrap();
    assert_eq!(r.car_id, "1");
    let mut entries: Vec<(String, [i32; 4])> =
        r.q_values.iter().map(|e| (e.state_hash.clone(), e.action_values)).collect();
    entries.sort();
    assert_eq!(entries, vec![("a".to_string(), [-1, 0, 1, 2]), ("b".to_string(), [5, 6, 7, 8])]);
    let r = reg.query_q_values("2".to_string(), None).unwrap();
    assert_eq!(r.q_values.len(), 1);
    assert_eq!(r.q_values[0].action_values, [9, 9, 9, 9]);
    // A car with no stored values has an empty table.
    assert!(reg.query_q_values("7".to_string(), None).unwrap().q_values.is_empty());
}

#[test]
fn car_ids_must_be_decimal_u128() {
    let reg = stored_q_table();
    for bad in ["", "abc", "-1", "1a", " 1", "+", "340282366920938463463374607431768211456"] {
        assert_eq!(invalid_id(reg.query_q_values(bad.to_string(), None)), Some(bad.to_string()));
    }
    // A leading plus sign is read as `str::parse` reads it; the answer keeps the text.
    let r = reg.query_q_values("+1".to_string(), Some("b".to_string())).unwrap();
    assert_eq!(r.car_id, "+1");
    assert_eq!(r.q_values[0].action_values, [5, 6, 7, 8]);
    let max = reg.query_q_values("340282366920938463463374607431768211455".to_string(), None).unwrap();
    assert!(max.q_values.is_empty());
}

#[test]
fn decimal_text_parsing() {
    assert_eq!(parse_u128(&"0".to_string()), Some(0));
    assert_eq!(parse_u128(&"007".to_string()), Some(7));
    assert_eq!(parse_u128(&"+42".to_string()), Some(42));
    assert_eq!(parse_u128(&u128::MAX.to_string()), Some(u128::MAX));
    assert_eq!(parse_u128(&"1_000".to_string()), None);
    assert_eq!(parse_u128(&"\u{663}".to_string()), None);
}
