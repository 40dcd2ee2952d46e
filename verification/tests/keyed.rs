use prusa_config::document::{ConfigFile, ConfigMap, Property, Section};
use prusa_config::printers::has_printer_and_nozzle;
use prusa_config::settings::{Repository, Settings};
use prusa_config::write::format_ini;

fn prop(key: &str, value: Option<Vec<&str>>) -> Property {
    Property {
        key: key.to_string(),
        value: value.map(|v| v.iter().map(|t| t.to_string()).collect()),
    }
}

fn parse_ok(text: &str) -> ConfigFile {
    ConfigFile::parse(text).expect("parsing is total")
}

#[test]
fn to_map_keeps_later_duplicate_key() {
    let f = parse_ok("[s]\nk = old\nk = new\n");
    let m = f.to_map();
    assert_eq!(m.sections.len(), 1);
    assert_eq!(m.sections[0].properties, vec![prop("k", Some(vec!["new"]))]);
}

#[test]
fn to_map_keeps_later_duplicate_global_key() {
    let f = parse_ok("k = old\nk = new\nother = 1\n");
    let m = f.to_map();
    assert_eq!(m.properties, vec![prop("k", Some(vec!["new"])), prop("other", Some(vec!["1"]))]);
}

#[test]
fn to_map_replaces_duplicate_section_whole() {
    let f = parse_ok("[s]\na = 1\nb = 2\n[s]\nc = 3\n");
    let m = f.to_map();
    assert_eq!(m.sections.len(), 1);
    assert_eq!(m.sections[0].name, "s");
    assert_eq!(m.sections[0].properties, vec![prop("c", Some(vec!["3"]))]);
}

#[test]
fn to_file_sorts_sections_by_name() {
    let m = ConfigMap {
        properties: vec![],
        sections: vec![
            Section { name: "zeta".to_string(), properties: vec![] },
            Section { name: "alpha".to_string(), properties: vec![] },
            Section { name: "beta:1".to_string(), properties: vec![] },
        ],
    };
    let f = m.to_file();
    let names: Vec<&str> = f.sections.iter().map(|s| s.name.as_str()).collect();
    assert_eq!(names, vec!["alpha", "beta:1", "zeta"]);
}

#[test]
fn to_file_keeps_global_property_order() {
    let m = ConfigMap {
        properties: vec![prop("b", Some(vec!["2"])), prop("a", Some(vec!["1"]))],
        sections: vec![],
    };
    let f = m.to_file();
    assert_eq!(f.properties, vec![prop("b", Some(vec!["2"])), prop("a", Some(vec!["1"]))]);
}

#[test]
fn round_trip_through_map_preserves_entries() {
    let doc = ConfigFile {
        properties: vec![prop("version", Some(vec!["1"]))],
        sections: vec![
            Section {
                name: "filament".to_string(),
                properties: vec![prop("diameter", Some(vec!["1.75"]))],
            },
            Section {
                name: "printer:MK3S".to_string(),
                properties: vec![prop("nozzle_diameter", Some(vec!["0.4"]))],
            },
        ],
    };
    let m = doc.to_map();
    let m2 = m.to_file().to_map();
    assert_eq!(m2, m);
}

#[test]
fn has_printer_and_nozzle_adds_new_printer() {
    let mut printers: Vec<Property> = Vec::new();
    has_printer_and_nozzle(&mut printers, "model:MK3S", "0.4");
    assert_eq!(printers, vec![prop("model:MK3S", Some(vec!["0.4"]))]);
}

#[test]
fn has_printer_and_nozzle_appends_missing_nozzle() {
    let mut printers = vec![prop("model:MK3S", Some(vec!["0.4"]))];
    has_printer_and_nozzle(&mut printers, "model:MK3S", "0.6");
    assert_eq!(printers, vec![prop("model:MK3S", Some(vec!["0.4", "0.6"]))]);
}

#[test]
fn has_printer_and_nozzle_keeps_known_nozzle() {
    let mut printers = vec![prop("model:MK3S", Some(vec!["0.4", "0.6"]))];
    has_printer_and_nozzle(&mut printers, "model:MK3S", "0.6");
    assert_eq!(printers, vec![prop("model:MK3S", Some(vec!["0.4", "0.6"]))]);
}

#[test]
fn has_printer_and_nozzle_fills_bare_entry() {
    let mut printers = vec![prop("model:MK3S", None)];
    has_printer_and_nozzle(&mut printers, "model:MK3S", "0.4");
    assert_eq!(printers, vec![prop("model:MK3S", Some(vec!["0.4"]))]);
}

#[test]
fn format_ini_writes_one_line_per_pair() {
    let mut out = String::new();
    format_ini(
        &mut out,
        vec![
            ("url".to_string(), "https://example.invalid".to_string()),
            ("count".to_string(), "3".to_string()),
        ],
    );
    assert_eq!(out, "url = https://example.invalid\ncount = 3\n");
}

#[test]
fn format_ini_appends_after_existing_text() {
    let mut out = String::from("# header\n");
    format_ini(&mut out, vec![("a".to_string(), "1".to_string())]);
    assert_eq!(out, "# header\na = 1\n");
}

#[test]
fn repository_default_points_at_example_source() {
    let r = Repository::default();
    assert_eq!(r.url, "https://github.com/Square-face/example_prusa_config.git");
    assert_eq!(r.last_updated, None);
    assert_eq!(r.last_commit, None);
}

#[test]
fn settings_default_uses_default_repository() {
    let s = Settings::default();
    assert_eq!(s.source.url, "https://github.com/Square-face/example_prusa_config.git");
    assert_eq!(s.source.last_updated, None);
    assert_eq!(s.source.last_commit, None);
}
