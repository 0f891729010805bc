use steamlet::commands::{play_by_alias, play_by_id, remove_command, set_command};
use steamlet::store::AliasStore;

#[test]
fn set_then_lookup_round_trip() {
    let mut store = AliasStore::new();
    let outcome = set_command(&mut store, "ets2", 227300);
    assert!(outcome.persist);
    assert_eq!(store.lookup("ets2"), Some(227300));
    assert_eq!(store.lookup("ETS2"), Some(227300));
    assert_eq!(store.lookup("Ets2"), Some(227300));
}

#[test]
fn set_normalizes_case_and_stores_lowercase() {
    let mut store = AliasStore::new();
    let outcome = set_command(&mut store, "ETS2", 227300);
    assert!(outcome.persist);
    assert_eq!(store.lookup("ets2"), Some(227300));
    assert_eq!(store.entry_name_at(0).as_str(), "ets2");
}

#[test]
fn set_trims_whitespace() {
    let mut store = AliasStore::new();
    set_command(&mut store, "  Portal 2  ", 620);
    assert_eq!(store.entry_name_at(0).as_str(), "portal 2");
    assert_eq!(store.lookup("portal 2"), Some(620));
}

#[test]
fn set_twice_keeps_one_entry() {
    let mut store = AliasStore::new();
    set_command(&mut store, "ets2", 227300);
    set_command(&mut store, "ets2", 227300);
    assert_eq!(store.count(), 1);
    assert_eq!(store.lookup("ets2"), Some(227300));
}

#[test]
fn set_last_write_wins() {
    let mut store = AliasStore::new();
    set_command(&mut store, "game", 1);
    set_command(&mut store, "game", 2);
    assert_eq!(store.count(), 1);
    assert_eq!(store.lookup("game"), Some(2));
}

#[test]
fn set_message_reports_alias_id_and_count() {
    let mut store = AliasStore::new();
    let outcome = set_command(&mut store, "ETS2", 227300);
    assert_eq!(
        outcome.message.as_str(),
        "Alias 'ets2' successfully set to 227300; total aliases = 1"
    );
}

#[test]
fn empty_alias_is_rejected() {
    let mut store = AliasStore::new();
    let outcome = set_command(&mut store, "   ", 1);
    assert!(!outcome.persist);
    assert_eq!(outcome.message.as_str(), "Alias must not be empty");
    assert_eq!(store.count(), 0);
}

#[test]
fn removal_partitions_found_and_missing() {
    let mut store = AliasStore::new();
    set_command(&mut store, "a", 1);
    set_command(&mut store, "b", 2);
    let requested = vec![String::from("a"), String::from("z")];
    let outcome = remove_command(&mut store, &requested);
    assert!(outcome.persist);
    assert_eq!(outcome.not_found.len(), 1);
    assert_eq!(outcome.not_found[0].as_str(), "Alias 'z' not found");
    assert_eq!(
        outcome.message.as_str(),
        "Aliases 'a' successfully removed; total aliases = 1"
    );
    assert_eq!(store.lookup("a"), None);
    assert_eq!(store.lookup("b"), Some(2));
    assert_eq!(store.count(), 1);
}

#[test]
fn removal_joins_names_in_request_order() {
    let mut store = AliasStore::new();
    set_command(&mut store, "a", 1);
    set_command(&mut store, "b", 2);
    set_command(&mut store, "c", 3);
    let requested = vec![String::from("c"), String::from("a")];
    let outcome = remove_command(&mut store, &requested);
    assert_eq!(
        outcome.message.as_str(),
        "Aliases 'c, a' successfully removed; total aliases = 1"
    );
    assert_eq!(store.count(), 1);
    assert_eq!(store.lookup("b"), Some(2));
}

#[test]
fn removal_matches_case_sensitively() {
    let mut store = AliasStore::new();
    set_command(&mut store, "ets2", 227300);
    let requested = vec![String::from("ETS2")];
    let outcome = remove_command(&mut store, &requested);
    assert!(!outcome.persist);
    assert_eq!(outcome.not_found[0].as_str(), "Alias 'ETS2' not found");
    assert_eq!(store.count(), 1);
}

#[test]
fn empty_removal_set_reports_and_keeps_store() {
    let mut store = AliasStore::new();
    set_command(&mut store, "a", 1);
    let requested = vec![String::from("z")];
    let outcome = remove_command(&mut store, &requested);
    assert!(!outcome.persist);
    assert_eq!(outcome.not_found.len(), 1);
    assert_eq!(outcome.not_found[0].as_str(), "Alias 'z' not found");
    assert_eq!(
        outcome.message.as_str(),
        "Nothing to be removed; total aliases = 1"
    );
    assert_eq!(store.count(), 1);
}

#[test]
fn play_by_alias_reports_hit_and_miss() {
    let mut store = AliasStore::new();
    set_command(&mut store, "ets2", 227300);
    let hit = play_by_alias(&store, "ETS2");
    assert_eq!(hit.launch, Some(227300));
    assert_eq!(hit.message.as_str(), "Starting ets2 (227300)");
    let miss = play_by_alias(&store, "nope");
    assert_eq!(miss.launch, None);
    assert_eq!(miss.message.as_str(), "Could not find alias 'nope'");
}

#[test]
fn play_by_id_parses_like_the_standard_library() {
    let ok = play_by_id("227300");
    assert_eq!(ok.launch, Some(227300));
    assert_eq!(ok.message.as_str(), "Starting application with ID '227300'");

    let plus = play_by_id("+42");
    assert_eq!(plus.launch, "+42".parse::<u32>().ok());
    assert_eq!(plus.launch, Some(42));

    for bad in ["abc", "", "-1", "12a", "4294967296", "+"] {
        let outcome = play_by_id(bad);
        assert_eq!(outcome.launch, bad.parse::<u32>().ok());
        assert_eq!(outcome.launch, None);
        assert_eq!(outcome.message.as_str(), "Steam ID must be a number");
    }

    let max = play_by_id("4294967295");
    assert_eq!(max.launch, Some(u32::MAX));
}
