use steamlet::commands::{data_file_name, list_lines, set_command, write_error_message};
use steamlet::launch::plan_launch;
use steamlet::store::AliasStore;

#[test]
fn malformed_text_yields_empty_store_and_recovers() {
    let store = AliasStore::load_from_text("this is { not json");
    assert_eq!(store.count(), 0);

    let mut store = store;
    let outcome = set_command(&mut store, "ets2", 227300);
    assert!(outcome.persist);
    let text = store.to_json_text().expect("serialization should succeed");
    let reloaded = AliasStore::load_from_text(text.as_str());
    assert_eq!(reloaded.count(), 1);
    assert_eq!(reloaded.lookup("ets2"), Some(227300));
}

#[test]
fn empty_text_yields_empty_store() {
    let store = AliasStore::load_from_text("");
    assert_eq!(store.count(), 0);
}

#[test]
fn json_round_trip_preserves_all_entries() {
    let mut store = AliasStore::new();
    set_command(&mut store, "ets2", 227300);
    set_command(&mut store, "euro truck simulator 2", 227300);
    set_command(&mut store, "portal", 400);
    let text = store.to_json_text().expect("serialization should succeed");
    let reloaded = AliasStore::load_from_text(text.as_str());
    assert_eq!(reloaded.count(), 3);
    assert_eq!(reloaded.lookup("ets2"), Some(227300));
    assert_eq!(reloaded.lookup("euro truck simulator 2"), Some(227300));
    assert_eq!(reloaded.lookup("portal"), Some(400));
}

#[test]
fn load_parses_a_plain_json_object() {
    let text = "{\n  \"ets2\": 227300,\n  \"portal\": 400\n}";
    let store = AliasStore::load_from_text(text);
    assert_eq!(store.count(), 2);
    assert_eq!(store.lookup("ets2"), Some(227300));
    assert_eq!(store.lookup("portal"), Some(400));
}

#[test]
fn serialized_text_is_a_pretty_printed_object() {
    let mut store = AliasStore::new();
    set_command(&mut store, "ets2", 227300);
    let text = store.to_json_text().expect("serialization should succeed");
    assert_eq!(text.as_str(), "{\n  \"ets2\": 227300\n}");
}

#[test]
fn list_is_sorted_regardless_of_insertion_order() {
    let mut store = AliasStore::new();
    set_command(&mut store, "b", 2);
    set_command(&mut store, "a", 1);
    set_command(&mut store, "c", 3);
    let lines = list_lines(&store);
    assert_eq!(lines.len(), 3);
    assert_eq!(lines[0].as_str(), "a\t\t\t\t1");
    assert_eq!(lines[1].as_str(), "b\t\t\t\t2");
    assert_eq!(lines[2].as_str(), "c\t\t\t\t3");
}

#[test]
fn long_alias_is_listed_on_two_lines() {
    let mut store = AliasStore::new();
    set_command(&mut store, "euro truck simulator 2", 227300);
    let lines = list_lines(&store);
    assert_eq!(lines.len(), 2);
    assert_eq!(lines[0].as_str(), "euro truck simulator 2");
    assert_eq!(lines[1].as_str(), "\t\t\t\t227300");
}

#[test]
fn seventeen_character_alias_still_fits_one_line() {
    let mut store = AliasStore::new();
    set_command(&mut store, "a234567890123456 q", 7);
    // 18 characters round up to a width of 5 tabs and split; 17 stay.
    set_command(&mut store, "a23456789012345 q", 8);
    let lines = list_lines(&store);
    assert_eq!(lines.len(), 3);
    assert_eq!(lines[0].as_str(), "a23456789012345 q\t\t\t\t8");
    assert_eq!(lines[1].as_str(), "a234567890123456 q");
    assert_eq!(lines[2].as_str(), "\t\t\t\t7");
}

#[test]
fn launch_plan_probes_for_the_sandboxed_package() {
    let listing = "Name Application ID Version\nSteam com.valvesoftware.Steam 1.0";
    let plan = plan_launch(listing, 227300);
    assert!(plan.sandboxed);
    assert_eq!(plan.deep_link.as_str(), "steam://run/227300");

    let bare = plan_launch("Name Application ID Version\n", 400);
    assert!(!bare.sandboxed);
    assert_eq!(bare.deep_link.as_str(), "steam://run/400");
}

#[test]
fn fixed_names_and_messages() {
    assert_eq!(data_file_name(), "steamlet.json");
    assert_eq!(
        write_error_message().as_str(),
        "Error while writing to steamlet.json"
    );
}

#[test]
fn end_to_end_scenario() {
    // Fresh environment: nothing on disk yet.
    let mut store = AliasStore::new();

    let set = set_command(&mut store, "ets2", 227300);
    assert!(set.persist);
    assert_eq!(
        set.message.as_str(),
        "Alias 'ets2' successfully set to 227300; total aliases = 1"
    );
    let text = store.to_json_text().expect("serialization should succeed");

    // A later invocation loads the file back and plays the alias.
    let loaded = AliasStore::load_from_text(text.as_str());
    let play = steamlet::commands::play_by_alias(&loaded, "ets2");
    assert_eq!(play.launch, Some(227300));
    let plan = plan_launch("", 227300);
    assert_eq!(plan.deep_link.as_str(), "steam://run/227300");

    // A final invocation removes the alias again.
    let mut loaded = loaded;
    let outcome = steamlet::commands::remove_command(&mut loaded, &vec![String::from("ets2")]);
    assert!(outcome.persist);
    assert_eq!(
        outcome.message.as_str(),
        "Aliases 'ets2' successfully removed; total aliases = 0"
    );
    assert_eq!(loaded.count(), 0);
}
