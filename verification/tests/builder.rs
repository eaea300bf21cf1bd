use fugue::builder::resolve_local;
use fugue::builder::{
    load_development_definition, lookup_loaded, resolve_asset_path, resolve_development_path, InventionBuilder,
    LoadError, ModuleRegistry,
};
use fugue::invention::{DevelopmentSpec, Invention, InventionConnection, ModuleSpec};
use fugue::json::Json;

fn s(text: &str) -> String {
    text.to_string()
}

fn invention(modules: &[&str]) -> Invention {
    Invention {
        version: s("1.0.0"),
        title: None,
        description: None,
        developments: Vec::new(),
        assets: Vec::new(),
        modules: modules
            .iter()
            .map(|id| ModuleSpec { id: s(id), module_type: s("vca"), config: Json::Null })
            .collect(),
        connections: Vec::new(),
        inputs: Vec::new(),
        outputs: Vec::new(),
        controls: Vec::new(),
        source_path: None,
    }
}

fn connection(from: &str, from_port: Option<&str>, to: &str, to_port: Option<&str>) -> InventionConnection {
    InventionConnection {
        from: s(from),
        to: s(to),
        from_port: from_port.map(s),
        to_port: to_port.map(s),
    }
}

fn development(name: &str, path: Option<&str>, definition: Option<Invention>) -> DevelopmentSpec {
    DevelopmentSpec { name: s(name), path: path.map(s), definition: definition.map(Box::new) }
}

#[test]
fn registry_registers_each_type_once() {
    let mut registry = ModuleRegistry::new();
    assert!(!registry.has_type("vca"));
    registry.register(&s("vca"));
    registry.register(&s("dac"));
    registry.register(&s("vca"));
    assert_eq!(registry.types, vec![s("vca"), s("dac")]);
    assert!(registry.has_type("dac"));
    let builder = InventionBuilder::with_registry(48_000, registry);
    assert_eq!(builder.sample_rate, 48_000);
    assert!(builder.registered.is_empty());
    assert!(InventionBuilder::new(44_100).registry.types.is_empty());
}

#[test]
fn validation_reports_the_first_bad_connection() {
    let builder = InventionBuilder::new(48_000);
    let mut doc = invention(&["osc", "dac"]);
    doc.connections.push(connection("osc", Some("audio"), "dac", Some("audio")));
    assert_eq!(builder.validate_invention(&doc), Ok(()));

    doc.connections.push(connection("lfo", Some("out"), "dac", Some("audio")));
    doc.connections.push(connection("osc", Some("audio"), "nowhere", Some("audio")));
    assert_eq!(builder.validate_invention(&doc), Err(s("Unknown source module: lfo")));

    let mut doc = invention(&["osc", "dac"]);
    doc.connections.push(connection("osc", Some("audio"), "nowhere", Some("audio")));
    assert_eq!(builder.validate_invention(&doc), Err(s("Unknown destination module: nowhere")));

    let mut doc = invention(&["osc", "dac"]);
    doc.connections.push(connection("osc", None, "dac", Some("audio")));
    assert_eq!(builder.validate_invention(&doc), Err(s("Missing from_port in connection from osc")));

    let mut doc = invention(&["osc", "dac"]);
    doc.connections.push(connection("osc", Some("audio"), "dac", None));
    assert_eq!(builder.validate_invention(&doc), Err(s("Missing to_port in connection to dac")));
}

#[test]
fn relative_paths_need_a_source_file() {
    assert_eq!(
        resolve_development_path(&None, &s("voices/lead.json")),
        Err(s("Relative development path 'voices/lead.json' requires the parent invention to be loaded from a file"))
    );
    assert_eq!(
        resolve_asset_path(&None, &s("score.json")),
        Err(s("Relative asset path 'score.json' requires the parent invention to be loaded from a file"))
    );
    assert_eq!(resolve_asset_path(&None, &s("/abs/score.json")), Ok(s("/abs/score.json")));
    let joined = resolve_asset_path(&Some(s("/songs/groove.json")), &s("score.json")).unwrap();
    assert_eq!(joined, "/songs/score.json");
    let kept = resolve_development_path(&Some(s("/songs/groove.json")), &s("/lib/lead.json")).unwrap();
    assert_eq!(kept, "/lib/lead.json");
}

#[test]
fn development_sources_are_exclusive() {
    let doc = invention(&[]);
    let inline = invention(&["o"]);
    match load_development_definition(&doc, &development("lead", None, Some(inline)), &Vec::new()) {
        Ok(def) => assert_eq!(def.modules[0].id, "o"),
        _ => panic!("inline definitions load"),
    }
    match load_development_definition(&doc, &development("lead", Some("lead.json"), Some(invention(&[]))), &Vec::new()) {
        Err(LoadError::Invalid(m)) => {
            assert_eq!(m, "Development 'lead' must set either 'path' or 'definition', not both")
        }
        _ => panic!("both sources are refused"),
    }
    match load_development_definition(&doc, &development("lead", None, None), &Vec::new()) {
        Err(LoadError::Invalid(m)) => assert_eq!(m, "Development 'lead' must set either 'path' or 'definition'"),
        _ => panic!("a missing source is refused"),
    }
}

#[test]
fn path_developments_ask_for_their_file_once() {
    let mut doc = invention(&[]);
    doc.source_path = Some(s("/songs/groove.json"));
    let spec = development("lead", Some("voices/lead.json"), None);
    let wanted = match load_development_definition(&doc, &spec, &Vec::new()) {
        Err(LoadError::NeedsFile(path)) => path,
        _ => panic!("the file is asked for"),
    };
    assert_eq!(wanted, "/songs/voices/lead.json");
    let loaded = vec![(wanted, invention(&["voice"]))];
    match load_development_definition(&doc, &spec, &loaded) {
        Ok(def) => assert_eq!(def.modules[0].id, "voice"),
        _ => panic!("a loaded file is used"),
    }
}

#[test]
fn developments_register_once_across_nested_builds() {
    let mut doc = invention(&[]);
    doc.developments.push(development("pad", None, Some(invention(&["a"]))));
    doc.developments.push(development("lead", None, Some(invention(&["b"]))));
    doc.developments.push(development("pad", None, Some(invention(&["c"]))));
    let mut builder =
        InventionBuilder::with_registry_and_registered(48_000, ModuleRegistry::new(), vec![s("lead")]);
    let registered = match builder.register_developments(&doc, &Vec::new()) {
        Ok(list) => list,
        Err(_) => panic!("inline developments register"),
    };
    assert_eq!(registered.len(), 1);
    assert_eq!(registered[0].0, "pad");
    assert_eq!(registered[0].1.modules[0].id, "a");
    assert_eq!(builder.registered, vec![s("lead"), s("pad")]);
    assert!(builder.registry.has_type("pad"));
    assert!(!builder.registry.has_type("lead"));
}

#[test]
fn local_asset_paths_resolve_against_the_invention_directory() {
    let base = Some(s("/songs"));
    assert_eq!(resolve_local(&s("https://example.com/kick.wav"), &base), "https://example.com/kick.wav");
    assert_eq!(resolve_local(&s("http://example.com/kick.wav"), &base), "http://example.com/kick.wav");
    assert_eq!(resolve_local(&s("/abs/kick.wav"), &base), "/abs/kick.wav");
    assert_eq!(resolve_local(&s("loops/melody.wav"), &base), "/songs/loops/melody.wav");
    assert_eq!(resolve_local(&s("loops/melody.wav"), &None), "loops/melody.wav");
}

#[test]
fn lookup_takes_the_first_document_read_from_a_path() {
    let loaded = vec![
        (s("/songs/other.json"), invention(&["x"])),
        (s("/songs/lead.json"), invention(&["first"])),
        (s("/songs/lead.json"), invention(&["second"])),
    ];
    match lookup_loaded(&loaded, &s("/songs/lead.json")) {
        Ok(def) => assert_eq!(def.modules[0].id, "first"),
        _ => panic!("a loaded path is found"),
    }
    match lookup_loaded(&loaded, &s("/songs/pad.json")) {
        Err(LoadError::NeedsFile(path)) => assert_eq!(path, "/songs/pad.json"),
        _ => panic!("a path not read yet is asked for"),
    }
}

#[test]
fn relative_development_paths_need_a_source_file() {
    let doc = invention(&[]);
    let spec = development("lead", Some("voices/lead.json"), None);
    match load_development_definition(&doc, &spec, &Vec::new()) {
        Err(LoadError::Invalid(m)) => assert_eq!(
            m,
            "Relative development path 'voices/lead.json' requires the parent invention to be loaded from a file"
        ),
        _ => panic!("a relative path without a source file is refused"),
    }
}

#[test]
fn registration_stops_at_the_first_file_to_read() {
    let mut doc = invention(&[]);
    doc.developments.push(development("pad", None, Some(invention(&["a"]))));
    doc.developments.push(development("lead", Some("/lib/lead.json"), None));
    let mut builder = InventionBuilder::with_registry_and_registered(48_000, ModuleRegistry::new(), Vec::new());
    match builder.register_developments(&doc, &Vec::new()) {
        Err(LoadError::NeedsFile(path)) => assert_eq!(path, "/lib/lead.json"),
        _ => panic!("the path-based development asks for its file"),
    }
}
