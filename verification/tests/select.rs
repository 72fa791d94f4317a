use im_switch::registry::parse_im_modules;
use im_switch::select::row_matches;
use im_switch::select::should_switch;
use im_switch::select::choose_activation;

#[test]
fn row_matches_trims_the_query() {
    assert!(row_matches("xim", " im "));
    assert!(row_matches("xim", "xim"));
    assert!(!row_matches("xim", "ibus"));
}

#[test]
fn empty_or_blank_query_matches_every_row() {
    assert!(row_matches("anything", ""));
    assert!(row_matches("anything", "   \t"));
}

#[test]
fn switch_needed_unless_already_current() {
    assert!(!should_switch(&Some(String::from("xim")), "xim"));
    assert!(should_switch(&Some(String::from("xim")), "fcitx"));
    assert!(should_switch(&None, "xim"));
}

#[test]
fn activation_prefers_an_exact_identifier() {
    let mods = parse_im_modules(
        "\"xim\" \"X Input Method\"\n\"ibus\" \"Intelligent Input Bus\"\n\"simple\" \"Simple\"\n",
    );
    // sorted order: ibus, simple, xim
    let chosen = choose_activation(&mods, " xim ");
    assert_eq!(chosen, Some(2));
    assert_eq!(mods[2].id, "xim");
}

#[test]
fn activation_falls_back_to_the_first_visible_row() {
    let mods = parse_im_modules(
        "\"xim\" \"X Input Method\"\n\"ibus\" \"Intelligent Input Bus\"\n\"simple\" \"Simple\"\n",
    );
    // sorted order: ibus, simple, xim; "im" is no identifier and occurs in
    // "simple" and "xim": the first of those wins
    let chosen = choose_activation(&mods, "im");
    assert_eq!(chosen, Some(1));
    assert_eq!(mods[1].id, "simple");
    // "x" only occurs in "xim"
    assert_eq!(choose_activation(&mods, "x"), Some(2));
}

#[test]
fn activation_with_no_matching_row_picks_nothing() {
    let mods = parse_im_modules("\"xim\" \"X Input Method\"\n");
    assert_eq!(choose_activation(&mods, "fcitx"), None);
    let empty = parse_im_modules("");
    assert_eq!(choose_activation(&empty, ""), None);
}

#[test]
fn blank_entry_text_activates_the_first_row() {
    let mods = parse_im_modules("\"xim\" \"X Input Method\"\n\"ibus\" \"Bus\"\n");
    assert_eq!(choose_activation(&mods, "  "), Some(0));
    assert_eq!(mods[0].id, "ibus");
}
