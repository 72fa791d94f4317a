use im_switch::registry::parse_im_modules;

#[test]
fn parses_valid_lines_and_sorts_by_identifier() {
    let text = "\"xim\" \"X Input Method\" \"ko:ja:th\"\n\"gtk-im-context-simple\" \"Simple\" \"\"\n\"am-et\" \"Amharic\" \"am\"\n";
    let mods = parse_im_modules(text);
    assert_eq!(mods.len(), 3);
    assert_eq!(mods[0].id, "am-et");
    assert_eq!(mods[0].description, "Amharic");
    assert_eq!(mods[1].id, "gtk-im-context-simple");
    assert_eq!(mods[1].description, "Simple");
    assert_eq!(mods[2].id, "xim");
    assert_eq!(mods[2].description, "X Input Method");
}

#[test]
fn skips_lines_without_a_leading_quote() {
    let text = "# GTK immodules file\n\n\"xim\" \"X Input Method\"\nnot a module line\n";
    let mods = parse_im_modules(text);
    assert_eq!(mods.len(), 1);
    assert_eq!(mods[0].id, "xim");
}

#[test]
fn skips_lines_without_a_second_field() {
    let text = "\"solo\"\n\"pair\" \"Pair Description\" \"\"\n";
    let mods = parse_im_modules(text);
    assert_eq!(mods.len(), 1);
    assert_eq!(mods[0].id, "pair");
    assert_eq!(mods[0].description, "Pair Description");
}

#[test]
fn two_field_line_keeps_its_closing_quote() {
    // with no third field the separator scan ends at the line's end, so the
    // final quote stays part of the description, as splitting on `" "` does
    let mods = parse_im_modules("\"xim\" \"X Input Method\"\n");
    assert_eq!(mods.len(), 1);
    assert_eq!(mods[0].description, "X Input Method\"");
}

#[test]
fn empty_text_yields_no_modules() {
    let mods = parse_im_modules("");
    assert_eq!(mods.len(), 0);
}

#[test]
fn strips_carriage_returns_from_ended_lines() {
    let text = "\"b\" \"Second\" \"\"\r\n\"a\" \"First\" \"\"\r\n";
    let mods = parse_im_modules(text);
    assert_eq!(mods.len(), 2);
    assert_eq!(mods[0].id, "a");
    assert_eq!(mods[0].description, "First");
    assert_eq!(mods[1].id, "b");
    assert_eq!(mods[1].description, "Second");
}

#[test]
fn last_line_needs_no_line_ending() {
    let text = "\"wayland\" \"Wayland\" \"\"";
    let mods = parse_im_modules(text);
    assert_eq!(mods.len(), 1);
    assert_eq!(mods[0].id, "wayland");
    assert_eq!(mods[0].description, "Wayland");
}

#[test]
fn third_field_and_beyond_are_ignored() {
    let text = "\"ibus\" \"Intelligent Input Bus\" \"ja:ko\" \"extra\" \"more\"\n";
    let mods = parse_im_modules(text);
    assert_eq!(mods.len(), 1);
    assert_eq!(mods[0].id, "ibus");
    assert_eq!(mods[0].description, "Intelligent Input Bus");
}

#[test]
fn equal_identifiers_sort_by_description() {
    let text = "\"dup\" \"Zed\" \"\"\n\"dup\" \"Alpha\" \"\"\n";
    let mods = parse_im_modules(text);
    assert_eq!(mods.len(), 2);
    assert_eq!(mods[0].description, "Alpha");
    assert_eq!(mods[1].description, "Zed");
}
