use prusa_config::document::{ConfigFile, Property, Section};

fn prop(key: &str, value: Option<Vec<&str>>) -> Property {
    Property {
        key: key.to_string(),
        value: value.map(|v| v.iter().map(|t| t.to_string()).collect()),
    }
}

fn parse_ok(text: &str) -> ConfigFile {
    ConfigFile::parse(text).expect("parsing is total")
}

#[test]
fn empty_input_gives_empty_file() {
    let f = parse_ok("");
    assert_eq!(f.properties.len(), 0);
    assert_eq!(f.sections.len(), 0);
}

#[test]
fn multi_value_property_parses_into_tokens() {
    let f = parse_ok("nozzle_diameter = 0.4;0.6");
    assert_eq!(f.properties, vec![prop("nozzle_diameter", Some(vec!["0.4", "0.6"]))]);
    assert_eq!(f.sections.len(), 0);
}

#[test]
fn multi_value_property_formats_back() {
    let f = ConfigFile {
        properties: vec![prop("nozzle_diameter", Some(vec!["0.4", "0.6"]))],
        sections: vec![],
    };
    let mut out = String::new();
    f.format(&mut out);
    assert_eq!(out, "nozzle_diameter = 0.4;0.6\n");
}

#[test]
fn bare_key_with_equals_parses_to_none() {
    let f = parse_ok("foo =");
    assert_eq!(f.properties, vec![prop("foo", None)]);
}

#[test]
fn bare_key_without_equals_parses_to_none() {
    let f = parse_ok("foo");
    assert_eq!(f.properties, vec![prop("foo", None)]);
}

#[test]
fn bare_key_formats_with_empty_value() {
    let f = ConfigFile { properties: vec![prop("foo", None)], sections: vec![] };
    let mut out = String::new();
    f.format(&mut out);
    assert_eq!(out, "foo = \n");
}

#[test]
fn end_to_end_parse_and_format() {
    let text = "version = 1\n\n[printer:MK3S]\nnozzle_diameter = 0.4\n";
    let f = parse_ok(text);
    assert_eq!(f.properties, vec![prop("version", Some(vec!["1"]))]);
    assert_eq!(f.sections.len(), 1);
    assert_eq!(f.sections[0].name, "printer:MK3S");
    assert_eq!(f.sections[0].properties, vec![prop("nozzle_diameter", Some(vec!["0.4"]))]);
    let mut out = String::new();
    f.format(&mut out);
    assert_eq!(out, text);
}

#[test]
fn comments_and_blank_lines_are_skipped() {
    let f = parse_ok("# leading comment\n\n  # indented comment\nkey = v\n");
    assert_eq!(f.properties, vec![prop("key", Some(vec!["v"]))]);
    assert_eq!(f.sections.len(), 0);
}

#[test]
fn whitespace_around_key_and_value_is_trimmed() {
    let f = parse_ok("   spaced key   =   a value  \n");
    assert_eq!(f.properties, vec![prop("spaced key", Some(vec!["a value"]))]);
}

#[test]
fn tokens_are_not_individually_trimmed() {
    let f = parse_ok("k = a ; b\n");
    assert_eq!(f.properties, vec![prop("k", Some(vec!["a ", " b"]))]);
}

#[test]
fn empty_tokens_survive_splitting() {
    let f = parse_ok("k = a;;b\n");
    assert_eq!(f.properties, vec![prop("k", Some(vec!["a", "", "b"]))]);
    let g = parse_ok("k = 0.4;\n");
    assert_eq!(g.properties, vec![prop("k", Some(vec!["0.4", ""]))]);
}

#[test]
fn empty_raw_value_normalizes_to_none() {
    let f = parse_ok("k =    \n");
    assert_eq!(f.properties, vec![prop("k", None)]);
}

#[test]
fn malformed_lines_are_skipped_not_fatal() {
    let r = ConfigFile::parse("[unterminated\n[]\n= no key\nok = 1\n");
    let f = r.expect("malformed lines never abort parsing");
    assert_eq!(f.properties, vec![prop("ok", Some(vec!["1"]))]);
    assert_eq!(f.sections.len(), 0);
}

#[test]
fn header_with_bracket_inside_is_malformed() {
    let f = parse_ok("[a]b]\nk = 1\n");
    assert_eq!(f.sections.len(), 0);
    assert_eq!(f.properties, vec![prop("k", Some(vec!["1"]))]);
}

#[test]
fn last_section_is_closed_at_end_of_input() {
    let f = parse_ok("[last]\nk = 1");
    assert_eq!(f.sections.len(), 1);
    assert_eq!(f.sections[0].name, "last");
    assert_eq!(f.sections[0].properties, vec![prop("k", Some(vec!["1"]))]);
}

#[test]
fn duplicate_entries_are_preserved_in_order() {
    let f = parse_ok("k = 1\nk = 2\n[s]\nk = 3\n[s]\nk = 4\n");
    assert_eq!(f.properties, vec![prop("k", Some(vec!["1"])), prop("k", Some(vec!["2"]))]);
    assert_eq!(f.sections.len(), 2);
    assert_eq!(f.sections[0].properties, vec![prop("k", Some(vec!["3"]))]);
    assert_eq!(f.sections[1].properties, vec![prop("k", Some(vec!["4"]))]);
}

#[test]
fn carriage_returns_are_trimmed() {
    let f = parse_ok("a = 1\r\n[s]\r\nb = 2\r\n");
    assert_eq!(f.properties, vec![prop("a", Some(vec!["1"]))]);
    assert_eq!(f.sections[0].name, "s");
    assert_eq!(f.sections[0].properties, vec![prop("b", Some(vec!["2"]))]);
}

#[test]
fn value_may_contain_equals_sign() {
    let f = parse_ok("k = a=b\n");
    assert_eq!(f.properties, vec![prop("k", Some(vec!["a=b"]))]);
}

#[test]
fn parse_format_parse_is_stable() {
    let text = "g = 1;2\nbare\n# note\n[b]\nx = 9\n[a]\ny = 8\n";
    let once = parse_ok(text);
    let mut out = String::new();
    once.format(&mut out);
    let twice = parse_ok(&out);
    assert_eq!(once, twice);
}

#[test]
fn format_then_parse_restores_document() {
    let doc = ConfigFile {
        properties: vec![prop("version", Some(vec!["1"])), prop("bare", None)],
        sections: vec![
            Section {
                name: "printer:MK3S".to_string(),
                properties: vec![prop("nozzle_diameter", Some(vec!["0.4", "0.6"]))],
            },
            Section { name: "filament".to_string(), properties: vec![] },
        ],
    };
    let mut out = String::new();
    doc.format(&mut out);
    assert_eq!(parse_ok(&out), doc);
}
