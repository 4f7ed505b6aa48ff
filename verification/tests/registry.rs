use atlas::registry::{path_key, PersistedState};

#[test]
fn vault_registry_deduplicates_paths() {
    let directory = tempfile::tempdir().unwrap();
    let path = directory.path().to_string_lossy().into_owned();
    let mut state = PersistedState::default();
    state.register(path.clone());
    state.register(path);
    assert_eq!(state.vaults.len(), 1);
}

#[test]
fn forgetting_a_vault_does_not_delete_it() {
    let directory = tempfile::tempdir().unwrap();
    let path = directory.path().to_string_lossy().into_owned();
    let mut state = PersistedState::default();
    state.register(path.clone());
    state.forget(&path);
    assert!(directory.path().exists());
    assert!(state.vaults.is_empty());
}

#[test]
fn registered_vaults_are_ordered_ignoring_case_and_separators() {
    let mut state = PersistedState::default();
    state.register("/vaults/Zeta".to_owned());
    state.register("/vaults/alpha".to_owned());
    state.register("C:\\vaults\\Beta".to_owned());
    assert_eq!(state.vaults, ["/vaults/alpha", "/vaults/Zeta", "C:\\vaults\\Beta"]);
    assert_eq!(path_key("C:\\Vaults\\Beta"), "c:/vaults/beta");
}

#[test]
fn deduplicate_sorts_and_drops_repeats() {
    let mut state = PersistedState {
        vaults: vec!["/b".to_owned(), "/a".to_owned(), "/b".to_owned(), "/A".to_owned()],
    };
    state.deduplicate();
    assert_eq!(state.vaults, ["/a", "/A", "/b"]);
}

#[test]
fn registering_keeps_the_list_ordered_and_without_repeats() {
    let mut state = PersistedState::default();
    for path in ["/vaults/Zeta", "/vaults/alpha", "/vaults/Beta", "/vaults/alpha"] {
        state.register(path.to_owned());
    }
    assert_eq!(state.vaults, vec!["/vaults/alpha", "/vaults/Beta", "/vaults/Zeta"]);
    let keys: Vec<String> = state.vaults.iter().map(|path| path_key(path)).collect();
    let mut sorted = keys.clone();
    sorted.sort();
    assert_eq!(keys, sorted);
}

#[test]
fn vaults_are_the_same_place_whatever_the_separators() {
    let mut state = PersistedState::default();
    state.register("/vaults/one".to_owned());
    state.register("/vaults//one/".to_owned());
    assert_eq!(state.vaults, ["/vaults/one"]);
    state.register("./notes".to_owned());
    state.register("notes".to_owned());
    assert_eq!(state.vaults.len(), 3);
    state.forget("/vaults/./one/");
    assert_eq!(state.vaults, ["./notes", "notes"]);
    let mut listed = PersistedState {
        vaults: vec!["/a/".to_owned(), "/b".to_owned(), "/a".to_owned()],
    };
    listed.deduplicate();
    assert_eq!(listed.vaults, ["/a", "/b"]);
}
