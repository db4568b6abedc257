use encounter_counter::state::next_delay_ms;
use encounter_counter::state::stat_count;
use encounter_counter::state::EncounterState;

fn lines(texts: &[&str]) -> Vec<String> {
    texts.iter().map(|t| t.to_string()).collect()
}

fn count_of(state: &EncounterState, name: &str) -> u32 {
    stat_count(&state.mon_stats, &name.to_string())
}

#[test]
fn default_state_is_idle_and_empty() {
    let st = EncounterState::default();
    assert_eq!(st.encounters, 0);
    assert!(st.last_encounter.is_empty());
    assert!(st.mon_stats.is_empty());
    assert!(!st.debug);
    assert!(!st.in_encounter);
    assert!(st.is_not_counted);
    assert_eq!(st.unsaved_encounters, 0);
}

#[test]
fn cycle_sequence_counts_exactly_once() {
    let mut st = EncounterState::default();
    let empty = lines(&[]);

    // Cycle 1: trigger absent.
    let r1 = st.encounter_process(&lines(&["nothing here"]), &empty).unwrap();
    assert_eq!(r1, (false, false));
    assert!(!st.in_encounter);
    assert_eq!(st.encounters, 0);

    // Cycle 2: trigger present, species not yet visible.
    let r2 = st
        .encounter_process(&lines(&["A wild PIDGEY appeared!"]), &empty)
        .unwrap();
    assert_eq!(r2, (false, false));
    assert!(st.in_encounter);
    assert!(st.is_not_counted);
    assert_eq!(st.encounters, 0);

    // Cycle 3: species visible; counted now.
    let r3 = st
        .encounter_process(&empty, &lines(&["PIDGEY Lv.5"]))
        .unwrap();
    assert_eq!(r3, (true, false));
    assert_eq!(st.encounters, 1);
    assert!(!st.is_not_counted);
    assert_eq!(st.last_encounter, vec!["pidgey".to_string()]);
    assert_eq!(count_of(&st, "pidgey"), 1);
    assert_eq!(st.unsaved_encounters, 1);

    // Cycle 4: the same species text persists; no further mutation.
    let r4 = st
        .encounter_process(&empty, &lines(&["PIDGEY Lv.5"]))
        .unwrap();
    assert_eq!(r4, (false, false));
    assert_eq!(st.encounters, 1);
    assert_eq!(st.unsaved_encounters, 1);
    assert!(!st.is_not_counted);

    // Cycle 5: species text gone; back to idle and re-armed.
    let r5 = st.encounter_process(&empty, &empty).unwrap();
    assert_eq!(r5, (false, false));
    assert!(!st.in_encounter);
    assert!(st.is_not_counted);
    assert_eq!(st.encounters, 1);
    assert!(st.last_encounter.is_empty());
}

#[test]
fn double_battle_counts_both_creatures() {
    let mut st = EncounterState::default();
    st.encounter_process(&lines(&["A wild pair appeared!"]), &lines(&["PIDGEY Lv.5 ZUBAT Lv.7"]))
        .unwrap();
    assert_eq!(st.encounters, 2);
    assert_eq!(
        st.last_encounter,
        vec!["pidgey".to_string(), "zubat".to_string()]
    );
    assert_eq!(count_of(&st, "pidgey"), 1);
    assert_eq!(count_of(&st, "zubat"), 1);
}

#[test]
fn save_requested_exactly_at_threshold() {
    let mut st = EncounterState::default();
    let empty = lines(&[]);
    for round in 1..=5u32 {
        let (detected, save) = st
            .encounter_process(&lines(&["A wild RATTATA appeared!"]), &lines(&["RATTATA Lv.3"]))
            .unwrap();
        assert!(detected);
        if round < 5 {
            assert!(!save, "no save before the fifth unsaved encounter");
        } else {
            assert!(save, "the fifth unsaved encounter requests a save");
        }
        // The encounter leaves the screen.
        st.encounter_process(&empty, &empty).unwrap();
    }
    assert_eq!(st.unsaved_encounters, 5);
    st.mark_saved();
    assert_eq!(st.unsaved_encounters, 0);
    assert_eq!(st.encounters, 5);
    assert_eq!(count_of(&st, "rattata"), 5);
}

#[test]
fn tally_total_matches_cumulative_count() {
    let mut st = EncounterState::default();
    let empty = lines(&[]);
    let cycles: Vec<Vec<String>> = vec![
        lines(&["PIDGEY Lv.5"]),
        lines(&["PIDGEY Lv.6 PIDGEY Lv.6"]),
        lines(&["ZUBAT Niv.9", "ODDISH Nv.12"]),
    ];
    for species_lines in cycles {
        st.encounter_process(&lines(&["A wild thing appeared!"]), &species_lines)
            .unwrap();
        st.encounter_process(&empty, &empty).unwrap();
    }
    let total: u64 = st.mon_stats.iter().map(|p| p.1 as u64).sum();
    assert_eq!(total, st.encounters as u64);
    assert_eq!(st.encounters, 5);
    assert_eq!(count_of(&st, "pidgey"), 3);
    assert_eq!(count_of(&st, "zubat"), 1);
    assert_eq!(count_of(&st, "oddish"), 1);
}

#[test]
fn full_counter_refuses_overflow_untouched() {
    let mut st = EncounterState::default();
    st.encounters = u32::MAX;
    st.in_encounter = true;
    let before = st.clone();
    let r = st.observe_top(&lines(&["PIDGEY Lv.5"]));
    assert!(r.is_none());
    assert_eq!(st, before);
}

#[test]
fn observe_bottom_only_opens_an_encounter() {
    let mut st = EncounterState::default();
    st.observe_bottom(&lines(&["A wild ZUBAT appeared!"]));
    assert!(st.in_encounter);
    assert!(st.is_not_counted);
    assert_eq!(st.encounters, 0);
    // A second trigger sighting changes nothing.
    st.observe_bottom(&lines(&["A wild ZUBAT appeared!"]));
    assert!(st.in_encounter);
    assert_eq!(st.encounters, 0);
}

#[test]
fn stat_count_reads_first_entry_or_zero() {
    let st = EncounterState::default();
    assert_eq!(count_of(&st, "pidgey"), 0);
    let mut st2 = EncounterState::default();
    st2.mon_stats.push(("pidgey".to_string(), 7));
    st2.mon_stats.push(("zubat".to_string(), 2));
    assert_eq!(count_of(&st2, "pidgey"), 7);
    assert_eq!(count_of(&st2, "zubat"), 2);
    assert_eq!(count_of(&st2, "oddish"), 0);
}

#[test]
fn polling_delay_slows_after_a_count() {
    assert_eq!(next_delay_ms(true), 100);
    assert_eq!(next_delay_ms(false), 10);
}
