use fresh::i18n::{message_key_of, MessageLeaf, RuntimeBackend};

fn leaf(path: &[&str], text: &str) -> MessageLeaf {
    MessageLeaf {
        path: path.iter().map(|s| s.to_string()).collect(),
        text: text.to_string(),
    }
}

#[test]
fn test_backend_available_locales() {
    let backend = RuntimeBackend::new();
    let locales = backend.available_locales();
    assert_eq!(locales.len(), 14);
    assert!(locales.iter().any(|l| *l == "en"));
    assert!(locales.iter().any(|l| *l == "es"));
}

#[test]
fn nested_keys_are_joined_with_dots() {
    let key = message_key_of(&vec!["action".to_string(), "copy".to_string()]);
    assert_eq!(key.as_deref(), Some("action.copy"));
    assert_eq!(message_key_of(&vec!["simple".to_string()]).as_deref(), Some("simple"));
    assert_eq!(message_key_of(&vec!["_version".to_string()]), None);
    assert_eq!(message_key_of(&vec!["a".to_string(), "_meta".to_string()]), None);
}

#[test]
fn loaded_locale_translates_its_messages() {
    let mut backend = RuntimeBackend::default();
    let leaves = vec![
        leaf(&["action", "copy"], "Copy"),
        leaf(&["action", "paste"], "Paste"),
        leaf(&["simple"], "value"),
        leaf(&["_version"], "1.0"),
    ];
    assert!(backend.translate("en", "action.copy").is_none());
    assert!(!backend.is_loaded("en"));
    assert!(backend.ensure_loaded("en", &leaves));
    assert!(backend.is_loaded("en"));
    assert_eq!(backend.translate("en", "action.copy").as_deref(), Some("Copy"));
    assert_eq!(backend.translate("en", "action.paste").as_deref(), Some("Paste"));
    assert_eq!(backend.translate("en", "simple").as_deref(), Some("value"));
    assert!(backend.translate("en", "_version").is_none());
    assert!(backend.translate("en", "nonexistent.key").is_none());
    assert!(backend.translate("de", "action.copy").is_none());
}

#[test]
fn locales_load_once_and_only_when_shipped() {
    let mut backend = RuntimeBackend::new();
    assert!(backend.ensure_loaded("es", &vec![leaf(&["k"], "uno")]));
    assert!(!backend.ensure_loaded("es", &vec![leaf(&["k"], "dos")]));
    assert_eq!(backend.translate("es", "k").as_deref(), Some("uno"));
    assert!(!backend.ensure_loaded("xx", &vec![leaf(&["k"], "v")]));
    assert!(!backend.is_loaded("xx"));
    assert!(backend.is_available("pt-BR"));
    assert!(!backend.is_available("pt"));
}

fn english_leaves() -> Vec<MessageLeaf> {
    vec![
        leaf(&["_version"], "1.0"),
        leaf(&["action", "copy"], "Copy"),
        leaf(&["action", "paste"], "Paste"),
        leaf(&["view", "compose"], "Compose"),
        leaf(&["view", "mode"], "View mode: %{mode}"),
    ]
}

#[test]
fn test_backend_translate() {
    let mut backend = RuntimeBackend::new();
    backend.ensure_loaded("en", &english_leaves());

    let result = backend.translate("en", "action.copy");
    assert!(result.is_some());

    let result = backend.translate("en", "nonexistent.key");
    assert!(result.is_none());
}

#[test]
fn test_lazy_loading() {
    let mut backend = RuntimeBackend::new();

    backend.ensure_loaded("en", &english_leaves());
    backend.translate("en", "action.copy");
    assert!(backend.is_loaded("en"));

    assert!(!backend.ensure_loaded("en", &english_leaves()));
    backend.translate("en", "action.paste");
}

fn leaves_of(value: &serde_json::Value, path: &mut Vec<String>, out: &mut Vec<MessageLeaf>) {
    match value {
        serde_json::Value::Object(map) => {
            for (key, val) in map {
                path.push(key.clone());
                leaves_of(val, path, out);
                path.pop();
            }
        }
        serde_json::Value::String(s) => out.push(MessageLeaf { path: path.clone(), text: s.clone() }),
        _ => {}
    }
}

fn parse_locale(locale: &str, json: &str) -> RuntimeBackend {
    let value: serde_json::Value = serde_json::from_str(json).expect("Valid JSON");
    let mut leaves = Vec::new();
    leaves_of(&value, &mut Vec::new(), &mut leaves);
    let mut backend = RuntimeBackend::new();
    backend.ensure_loaded(locale, &leaves);
    backend
}

#[test]
fn test_flatten_nested_json() {
    let json = r#"{
            "action": {
                "copy": "Copy",
                "paste": "Paste"
            },
            "simple": "value"
        }"#;
    let parsed = parse_locale("en", json);
    assert_eq!(parsed.translate("en", "action.copy").as_deref(), Some("Copy"));
    assert_eq!(parsed.translate("en", "action.paste").as_deref(), Some("Paste"));
    assert_eq!(parsed.translate("en", "simple").as_deref(), Some("value"));
}

#[test]
fn test_skip_metadata_keys() {
    let json = r#"{
            "_version": "1.0",
            "key": "value"
        }"#;
    let parsed = parse_locale("en", json);
    assert!(parsed.translate("en", "_version").is_none());
    assert_eq!(parsed.translate("en", "key").as_deref(), Some("value"));
}
