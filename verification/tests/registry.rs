use shadps4_launcher::registry::{GameBridge, NotFound};

#[test]
fn a_new_table_knows_no_process() {
    let bridge: GameBridge<String> = GameBridge::new();
    assert_eq!(bridge.len(), 0);
    assert_eq!(bridge.get(1), Err(NotFound { pid: 1 }));
}

#[test]
fn a_process_is_found_under_its_id_until_it_is_removed() {
    let mut bridge: GameBridge<String> = GameBridge::new();
    bridge.insert(4711, "game".to_string());
    bridge.insert(42, "other".to_string());
    assert_eq!(bridge.len(), 2);
    assert_eq!(bridge.get(4711), Ok(&"game".to_string()));
    assert_eq!(bridge.get(42), Ok(&"other".to_string()));
    assert_eq!(bridge.get(43), Err(NotFound { pid: 43 }));
    assert_eq!(bridge.remove(4711), Ok("game".to_string()));
    assert_eq!(bridge.get(4711), Err(NotFound { pid: 4711 }));
    assert_eq!(bridge.get(42), Ok(&"other".to_string()));
    assert_eq!(bridge.len(), 1);
}

#[test]
fn a_process_can_be_removed_only_once() {
    let mut bridge: GameBridge<u8> = GameBridge::new();
    bridge.insert(7, 1);
    assert_eq!(bridge.remove(7), Ok(1));
    assert_eq!(bridge.remove(7), Err(NotFound { pid: 7 }));
    assert_eq!(bridge.remove(8), Err(NotFound { pid: 8 }));
}

#[test]
fn a_second_process_under_one_id_takes_the_place_of_the_first() {
    let mut bridge: GameBridge<u8> = GameBridge::new();
    bridge.insert(7, 1);
    bridge.insert(7, 2);
    assert_eq!(bridge.len(), 1);
    assert_eq!(bridge.get(7), Ok(&2));
}
