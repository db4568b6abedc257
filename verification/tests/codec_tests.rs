use encounter_counter::codec::SavedState;
use encounter_counter::state::EncounterState;

fn sample_state() -> EncounterState {
    let mut st = EncounterState::default();
    st.encounters = 42;
    st.last_encounter = vec!["pidgey".to_string(), "zubat".to_string()];
    st.mon_stats = vec![("pidgey".to_string(), 40), ("zubat".to_string(), 2)];
    st.debug = true;
    st.in_encounter = true;
    st.is_not_counted = false;
    st.unsaved_encounters = 3;
    st
}

#[test]
fn default_state_has_the_expected_document() {
    let sv = SavedState { state: EncounterState::default(), crashed: false };
    assert_eq!(
        sv.to_json(),
        "{\"state\":{\"encounters\":0,\"last_encounter\":[],\"mon_stats\":{},\
         \"debug\":false,\"in_encounter\":false,\"is_not_counted\":true,\
         \"unsaved_encounters\":0},\"crashed\":false}"
    );
}

#[test]
fn sample_state_has_the_expected_document() {
    let sv = SavedState { state: sample_state(), crashed: true };
    assert_eq!(
        sv.to_json(),
        "{\"state\":{\"encounters\":42,\"last_encounter\":[\"pidgey\",\"zubat\"],\
         \"mon_stats\":{\"pidgey\":40,\"zubat\":2},\"debug\":true,\"in_encounter\":true,\
         \"is_not_counted\":false,\"unsaved_encounters\":3},\"crashed\":true}"
    );
}

#[test]
fn save_then_load_returns_the_same_state() {
    let sv = SavedState { state: sample_state(), crashed: false };
    let text = sv.to_json();
    let (loaded, migrated) = SavedState::from_json(&text).unwrap();
    assert!(!migrated);
    assert!(!loaded.crashed);
    assert_eq!(loaded.state, sample_state());
}

#[test]
fn crashed_flag_round_trips() {
    let sv = SavedState { state: EncounterState::default(), crashed: true };
    let (loaded, migrated) = SavedState::from_json(&sv.to_json()).unwrap();
    assert!(loaded.crashed);
    assert!(!migrated);
}

#[test]
fn awkward_names_round_trip() {
    let mut st = EncounterState::default();
    st.in_encounter = true;
    st.is_not_counted = false;
    st.last_encounter = vec!["a\"b\\c".to_string(), "tab\there".to_string()];
    st.mon_stats = vec![
        ("a\"b\\c".to_string(), 1),
        ("tab\there".to_string(), 1),
        ("low\u{1f}char".to_string(), 1),
    ];
    st.encounters = 3;
    let sv = SavedState { state: st.clone(), crashed: false };
    let text = sv.to_json();
    let (loaded, _) = SavedState::from_json(&text).unwrap();
    assert_eq!(loaded.state, st);
}

#[test]
fn control_characters_are_escaped_in_the_document() {
    let mut st = EncounterState::default();
    st.in_encounter = true;
    st.is_not_counted = false;
    st.last_encounter = vec!["a\u{1f}b".to_string()];
    st.encounters = 1;
    let text = SavedState { state: st, crashed: false }.to_json();
    assert!(text.contains("a\\u001fb"));
}

#[test]
fn largest_counts_round_trip() {
    let mut st = EncounterState::default();
    st.encounters = u32::MAX;
    st.unsaved_encounters = u32::MAX;
    st.mon_stats = vec![("pidgey".to_string(), u32::MAX)];
    let (loaded, _) = SavedState::from_json(&SavedState { state: st.clone(), crashed: false }.to_json())
        .unwrap();
    assert_eq!(loaded.state, st);
}

#[test]
fn legacy_document_loads_and_reports_migration() {
    let legacy = "{\"encounters\":3,\"last_encounter\":[\"pidgey\"],\"mon_stats\":\
                  {\"pidgey\":3},\"debug\":false,\"in_encounter\":true,\
                  \"is_not_counted\":false,\"unsaved_encounters\":3}";
    let (loaded, migrated) = SavedState::from_json(legacy).unwrap();
    assert!(migrated);
    assert!(!loaded.crashed);
    assert_eq!(loaded.state.encounters, 3);
    assert_eq!(loaded.state.last_encounter, vec!["pidgey".to_string()]);
    assert_eq!(loaded.state.mon_stats, vec![("pidgey".to_string(), 3)]);
    assert!(loaded.state.in_encounter);
    assert!(!loaded.state.is_not_counted);
    assert_eq!(loaded.state.unsaved_encounters, 3);

    // Re-saving writes the envelope form: the document gains the "state" key
    // and loads without migration.
    let rewritten = loaded.to_json();
    assert!(rewritten.starts_with("{\"state\":"));
    let (again, migrated_again) = SavedState::from_json(&rewritten).unwrap();
    assert!(!migrated_again);
    assert_eq!(again.state, loaded.state);
}

#[test]
fn escaped_names_in_a_stored_document_are_decoded() {
    let legacy = "{\"encounters\":1,\"last_encounter\":[\"a\\tb\"],\"mon_stats\":{},\
                  \"debug\":false,\"in_encounter\":true,\"is_not_counted\":false,\
                  \"unsaved_encounters\":1}";
    let (loaded, _) = SavedState::from_json(legacy).unwrap();
    assert_eq!(loaded.state.last_encounter, vec!["a\tb".to_string()]);
}

#[test]
fn unreadable_documents_are_corrupt() {
    assert!(SavedState::from_json("").is_err());
    assert!(SavedState::from_json("{}").is_err());
    assert!(SavedState::from_json("not a state file").is_err());
    assert!(SavedState::from_json("{\"state\":").is_err());
    // A counter too large for the schema.
    assert!(SavedState::from_json(
        "{\"encounters\":4294967296,\"last_encounter\":[],\"mon_stats\":{},\
         \"debug\":false,\"in_encounter\":false,\"is_not_counted\":true,\
         \"unsaved_encounters\":0}"
    )
    .is_err());
    // Trailing content after a well-formed document.
    let good = SavedState { state: EncounterState::default(), crashed: false }.to_json();
    let mut trailing = good.clone();
    trailing.push('x');
    assert!(SavedState::from_json(&trailing).is_err());
    // The reader takes only the compact canonical layout: inserted spaces
    // make the document unreadable.
    let spaced = good.replace(":", ": ");
    assert!(SavedState::from_json(&spaced).is_err());
}
