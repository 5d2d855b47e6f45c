use comicinfo_generator::import::{
    alias_for_lowercase, import_config, import_fields, import_kind, import_python, json_kind,
    legacy_field_alias, migrate_config, parse_py_tuple_block, parse_py_tuple_fields, read_python,
    ImportKind, JsonKind,
};
use comicinfo_generator::json::safe_json_load;
use comicinfo_generator::state::{AppConfig, ComicMode, PrefixMode};

fn value(cfg: &AppConfig, tag: &str) -> Option<String> {
    cfg.metadata_fields.iter().find(|p| p.0 == tag).map(|p| p.1.clone())
}

fn row(cells: &[&str]) -> Vec<String> {
    cells.iter().map(|s| s.to_string()).collect()
}

#[test]
fn titles_are_read_from_json() {
    let titles = safe_json_load(Some("{\"2\": \"B\", \"1\": \"A\", \"2\": \"C\"}"));
    assert_eq!(titles.get("1"), Some(&"A".to_string()));
    assert_eq!(titles.get("2"), Some(&"C".to_string()));
    assert!(safe_json_load(None).is_empty());
    assert!(safe_json_load(Some("not json")).is_empty());
    assert!(safe_json_load(Some("{\"1\": 2}")).is_empty());
    assert!(safe_json_load(Some("[\"1\"]")).is_empty());
}

#[test]
fn tuples_are_read() {
    assert_eq!(parse_py_tuple_fields("1, 3.5, 1"), row(&["1", "3.5", "1"]));
    assert_eq!(parse_py_tuple_fields("\"a, b\", 'c'"), row(&["a, b", "'c'"]));
    assert_eq!(parse_py_tuple_fields("\"x\\n\\\"y\\\"\\\\\", 2"), row(&["x\n\"y\"\\", "2"]));
    assert_eq!(parse_py_tuple_fields(""), row(&[]));
    assert_eq!(parse_py_tuple_fields("1,"), row(&["1"]));
}

#[test]
fn a_tuple_is_read_as_it_was_written() {
    let fields = row(&["1", "3", "He said \"no\" \\ and\nleft"]);
    let written: Vec<String> = fields
        .iter()
        .map(|f| format!("\"{}\"", f.replace('\\', "\\\\").replace('"', "\\\"").replace('\n', "\\n")))
        .collect();
    assert_eq!(parse_py_tuple_fields(&written.join(", ")), fields);
}

#[test]
fn python_files_are_taken_over() {
    let data = "CONSTANT_METADATA = {\n    \"Series\": \"My Series\",\n    \"writer\": \"W\",\n    \
                \"Unknown\": \"U\",\n}\nSUMMARY = \"A summary\"\nVOLUME_RULES = [\n    (1, 3.5, 1),\n    \
                (4, 8, 2),\n]\n";
    let pairs = read_python(data);
    assert!(pairs.contains(&("Series".to_string(), "My Series".to_string())));
    let mut cfg = AppConfig::default();
    let items = import_python(&mut cfg, data);
    assert_eq!(value(&cfg, "Series"), Some("My Series".to_string()));
    assert_eq!(cfg.volume_rules, vec![row(&["1", "3.5", "1"]), row(&["4", "8", "2"])]);
    // What the file does not hold stays.
    assert_eq!(value(&cfg, "LanguageISO"), Some("en".to_string()));
    assert_eq!(cfg.date_rules, AppConfig::default().date_rules);
    assert_eq!(items[0], ("Volume Rules".to_string(), "2 rule(s)".to_string()));
    assert_eq!(
        parse_py_tuple_block(data, "VOLUME_RULES"),
        vec![row(&["1", "3.5", "1"]), row(&["4", "8", "2"])]
    );
    assert_eq!(parse_py_tuple_block(data, "DATE_RULES"), Vec::<Vec<String>>::new());
}

#[test]
fn json_files_are_told_apart() {
    assert_eq!(json_kind("nonsense"), JsonKind::Invalid);
    assert_eq!(import_kind("PY", "{}"), ImportKind::Python);
    assert_eq!(import_kind("json", "{}"), ImportKind::Json(JsonKind::Fields));
    assert_eq!(import_kind("", "x = 1"), ImportKind::Json(JsonKind::Invalid));
    assert_eq!(json_kind("{\"Series\": \"x\"}"), JsonKind::Fields);
    assert_eq!(json_kind("[1]"), JsonKind::NoObject);
    assert_eq!(json_kind("{\"folder\": 1}"), JsonKind::Config);
    assert_eq!(json_kind("{\"prefix_mode\": \"auto\"}"), JsonKind::Config);
}

#[test]
fn fields_are_taken_over_from_json() {
    let mut cfg = AppConfig::default();
    let items = import_fields(&mut cfg, "{\"Writer\": \"W\", \"Count\": 3, \"summary\": \"S\", \"x\": \"y\"}");
    assert_eq!(value(&cfg, "Writer"), Some("W".to_string()));
    assert_eq!(value(&cfg, "Count"), Some(String::new()));
    assert_eq!(cfg.summary, "S");
    assert_eq!(
        items,
        vec![
            ("Writer".to_string(), "W".to_string()),
            ("Summary".to_string(), "S".to_string())
        ]
    );
}

#[test]
fn configurations_are_merged() {
    let mut cfg = AppConfig::default();
    cfg.folder = "/old".to_string();
    cfg.csep = "~".to_string();
    let mut incoming = AppConfig::default();
    incoming.folder = " ".to_string();
    incoming.titles_json = "/titles.json".to_string();
    incoming.volume_rules = vec![row(&["1", "2", "9"])];
    incoming.date_rules = vec![];
    incoming.dry_run = true;
    incoming.mode = ComicMode::Manhwa;
    incoming.use_vol = false;
    incoming.prefix_mode = PrefixMode::Custom;
    incoming.custom_pfx = "Part".to_string();
    incoming.csep_on = true;
    incoming.csep = "".to_string();
    let data = "{\"folder\": \" \", \"titles_json\": \"/titles.json\", \"volume_rules\": [[\"1\", \"2\", \"9\"]], \
        \"date_rules\": [], \"dry_run\": true, \"mode\": \"manhwa\", \"use_vol\": false, \
        \"prefix_mode\": \"custom\", \"custom_pfx\": \"Part\", \"csep_on\": true, \"csep\": \"\"}";
    let items = import_config(&mut cfg, data, &incoming);
    assert_eq!(cfg.folder, "/old");
    assert_eq!(cfg.titles_json, "/titles.json");
    assert_eq!(cfg.volume_rules, vec![row(&["1", "2", "9"])]);
    assert_eq!(cfg.date_rules, AppConfig::default().date_rules);
    assert!(!cfg.dry_run);
    assert_eq!(cfg.mode, ComicMode::Manhwa);
    assert!(!cfg.use_vol && cfg.use_vol_date && cfg.use_vol_summ);
    assert_eq!(cfg.prefix_mode, PrefixMode::Custom);
    assert_eq!(cfg.custom_pfx, "Part");
    assert!(cfg.csep_on);
    assert_eq!(cfg.csep, "~");
    let shown: Vec<(&str, &str)> = items.iter().map(|i| (i.0.as_str(), i.1.as_str())).collect();
    assert_eq!(
        shown,
        [
            ("Volume Rules", "1 rule(s)"),
            ("Titles JSON", "/titles.json"),
            ("Mode", "Manhwa / Manhua"),
            ("Volume Number", "off"),
            ("Number Prefix", "custom"),
            ("Custom Prefix", "Part"),
            ("Override Separator", "on"),
        ]
    );
}

#[test]
fn what_a_configuration_does_not_hold_stays() {
    let mut cfg = AppConfig::default();
    cfg.volume_rules = vec![row(&["1", "5", "7"])];
    cfg.date_rules = vec![row(&["1", "1", "1999", "2", "3"])];
    cfg.summ_rules = vec![row(&["1", "1", "Mine"])];
    cfg.prefix_mode = PrefixMode::Volume;
    cfg.mode = ComicMode::Manhwa;
    cfg.csep_on = true;
    // What the JSON does not hold was read as it is by default.
    let mut incoming = AppConfig::default();
    incoming.folder = "/x".to_string();
    let items = import_config(&mut cfg, "{\"folder\":\"/x\"}", &incoming);
    assert_eq!(cfg.folder, "/x");
    assert_eq!(cfg.volume_rules, vec![row(&["1", "5", "7"])]);
    assert_eq!(cfg.date_rules, vec![row(&["1", "1", "1999", "2", "3"])]);
    assert_eq!(cfg.summ_rules, vec![row(&["1", "1", "Mine"])]);
    assert_eq!(cfg.prefix_mode, PrefixMode::Volume);
    assert_eq!(cfg.mode, ComicMode::Manhwa);
    assert!(cfg.csep_on);
    assert_eq!(items, vec![("CBZ Folder".to_string(), "/x".to_string())]);
}

#[test]
fn older_configurations_are_brought_up_to_date() {
    let mut cfg = AppConfig::default();
    migrate_config(&mut cfg, "{\"series\": \"Old\", \"Genre\": \"G\", \"Summary\": \"no\", \"year\": 3}");
    assert_eq!(value(&cfg, "Series"), Some("Old".to_string()));
    assert_eq!(value(&cfg, "Genre"), Some("G".to_string()));
    assert_eq!(cfg.summary, "");
    assert!(!cfg.community_rating_10_scale);
    migrate_config(&mut cfg, "{\"rating\": \"8\"}");
    assert_eq!(value(&cfg, "CommunityRating"), Some("8".to_string()));
    assert!(cfg.community_rating_10_scale);
    let before = cfg.metadata_fields.clone();
    migrate_config(&mut cfg, "[]");
    assert_eq!(cfg.metadata_fields, before);
}

#[test]
fn older_names_stand_for_tags() {
    assert_eq!(legacy_field_alias("SERIES"), Some(("Series", false)));
    assert_eq!(alias_for_lowercase("series"), Some(("Series", false)));
    assert_eq!(legacy_field_alias("no such name"), None);
}
