use encounter_counter::classify::extract_species;
use encounter_counter::classify::game_exist;
use encounter_counter::classify::has_wild_trigger;

fn lines(texts: &[&str]) -> Vec<String> {
    texts.iter().map(|t| t.to_string()).collect()
}

#[test]
fn trigger_found_in_matching_line() {
    assert!(has_wild_trigger(&lines(&["A wild PIDGEY appeared!"])));
}

#[test]
fn trigger_is_case_insensitive() {
    assert!(has_wild_trigger(&lines(&["A WILD RATTATA APPEARED"])));
    assert!(has_wild_trigger(&lines(&["a WiLd thing"])));
}

#[test]
fn trigger_found_in_any_line() {
    assert!(has_wild_trigger(&lines(&["menu", "hp 23/40", "A wild ZUBAT appeared!"])));
}

#[test]
fn trigger_absent_when_no_line_matches() {
    assert!(!has_wild_trigger(&lines(&["trainer wants to battle", "run away"])));
    assert!(!has_wild_trigger(&lines(&[])));
    assert!(!has_wild_trigger(&lines(&["", ""])));
}

#[test]
fn trigger_is_a_plain_substring_test() {
    // Any occurrence of the phrase counts, even inside a longer word.
    assert!(has_wild_trigger(&lines(&["a wilderness"])));
    // The words in the other order do not.
    assert!(!has_wild_trigger(&lines(&["wild a"])));
}

#[test]
fn extract_species_reads_marker_pairs() {
    let got = extract_species(&lines(&["PIDGEY Lv.5", "RATTATA Nv.3", "short x Niv.2"]));
    assert_eq!(got, vec!["pidgey".to_string(), "rattata".to_string()]);
}

#[test]
fn extract_species_requires_name_longer_than_one() {
    let got = extract_species(&lines(&["x Lv.9"]));
    assert!(got.is_empty());
}

#[test]
fn extract_species_accepts_spaced_marker() {
    let got = extract_species(&lines(&["MAGIKARP Lv. 30"]));
    assert_eq!(got, vec!["magikarp".to_string()]);
}

#[test]
fn extract_species_keeps_duplicates_and_order() {
    let got = extract_species(&lines(&["PIDGEY Lv.5 PIDGEY Lv.7", "ZUBAT Niv.11"]));
    assert_eq!(
        got,
        vec!["pidgey".to_string(), "pidgey".to_string(), "zubat".to_string()]
    );
}

#[test]
fn extract_species_ignores_lines_without_markers() {
    let got = extract_species(&lines(&["A wild PIDGEY appeared!", "", "what will you do"]));
    assert!(got.is_empty());
}

#[test]
fn extract_species_ignores_marker_without_predecessor() {
    let got = extract_species(&lines(&["Lv.5 PIDGEY"]));
    assert!(got.is_empty());
}

#[test]
fn game_exist_matches_app_name_or_title() {
    assert!(game_exist("PokeMMO", "whatever"));
    assert!(game_exist("java", "whatever"));
    assert!(game_exist("firefox", "POKEMMO"));
    assert!(game_exist("firefox", "Java"));
    assert!(!game_exist("firefox", "browser"));
    assert!(!game_exist("pokemmo launcher", "my pokemmo window"));
}
