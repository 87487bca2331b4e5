use aio_base_backend::json_value::JsonValue;
use aio_base_backend::aio_protocal_types::{AioIndex, AioIndexManager, Method, Source};

fn index(id: &str, description: &str, keywords: &[&str]) -> AioIndex {
    AioIndex {
        id: id.to_string(),
        description: description.to_string(),
        transport: vec!["stdio".to_string()],
        methods: vec![Method {
            name: "remember".to_string(),
            description: "Stores a memory".to_string(),
            required_params: None,
            input_schema: None,
        }],
        source: Source { author: "Ada".to_string(), version: "1.0.0".to_string(), github: "".to_string() },
        keywords: keywords.iter().map(|k| k.to_string()).collect(),
        scenarios: vec!["keep notes".to_string()],
    }
}

#[test]
fn test_aio_index() {
    let mut manager = AioIndexManager::new();
    manager
        .create(index("1743948342885", "This service provides MCP services related to memory", &["memory", "notes"]))
        .unwrap();
    let result = manager.read("1743948342885");
    assert!(result.is_some());
    let index = result.unwrap();
    assert_eq!(index.id, "1743948342885");
    assert_eq!(index.description, "This service provides MCP services related to memory");
    assert_eq!(index.keywords.len(), 2);
}

#[test]
fn create_refuses_duplicate_ids() {
    let mut manager = AioIndexManager::new();
    manager.create(index("a", "first", &[])).unwrap();
    assert_eq!(manager.create(index("a", "second", &[])).unwrap_err(), "Index with ID a already exists");
    assert_eq!(manager.read("a").unwrap().description, "first");
    assert_eq!(manager.count(), 1);
}

#[test]
fn keyword_search_exact_then_partial() {
    let mut manager = AioIndexManager::new();
    manager.create(index("m1", "one", &["Memory"])).unwrap();
    manager.create(index("m2", "two", &["memorybank"])).unwrap();
    manager.create(index("m3", "three", &["other"])).unwrap();
    let found = manager.search_by_keyword("MEMORY");
    let ids: Vec<String> = found.iter().map(|x| x.id.clone()).collect();
    assert_eq!(ids, vec!["m1".to_string(), "m2".to_string()]);
    assert!(manager.search_by_keyword("nothing").is_empty());
}

#[test]
fn update_and_delete_move_keywords() {
    let mut manager = AioIndexManager::new();
    manager.create(index("m1", "one", &["alpha"])).unwrap();
    manager.update("m1", index("m1", "uno", &["beta"])).unwrap();
    assert!(manager.search_by_keyword("alpha").is_empty());
    assert_eq!(manager.search_by_keyword("beta").len(), 1);
    assert_eq!(manager.read("m1").unwrap().description, "uno");
    assert_eq!(manager.update("zz", index("zz", "x", &[])).unwrap_err(), "Index with ID zz does not exist");
    manager.delete("m1").unwrap();
    assert!(manager.read("m1").is_none());
    assert!(manager.search_by_keyword("beta").is_empty());
    assert_eq!(manager.delete("m1").unwrap_err(), "Index with ID m1 does not exist");
}

#[test]
fn full_text_search_and_paging() {
    let mut manager = AioIndexManager::new();
    manager.create(index("b", "Weather data", &[])).unwrap();
    manager.create(index("a", "Memory", &[])).unwrap();
    let all = manager.list_all();
    assert_eq!(all[0].id, "a");
    assert_eq!(all[1].id, "b");
    assert_eq!(manager.search_full_text("WEATHER").len(), 1);
    assert_eq!(manager.search_full_text("ada").len(), 2);
    assert_eq!(manager.search_full_text("stores a").len(), 2);
    assert!(manager.search_full_text("").is_empty());
    let page = manager.get_indices_paginated(1, 5);
    assert_eq!(page.len(), 1);
    assert_eq!(page[0].id, "b");
}

fn prop<'a>(props: &'a [(String, aio_base_backend::aio_protocal_types::SchemaProperty)], name: &str) -> &'a aio_base_backend::aio_protocal_types::SchemaProperty {
    &props.iter().find(|(k, _)| k == name).unwrap().1
}

#[test]
fn test_create_from_json() {
    let mut manager = AioIndexManager::new();
    let json_str = r#"
    {
        "description": "Test Service",
        "author": "Test Author",
        "version": "1.0.0",
        "github": "https://github.com/test",
        "transport": ["http", "https"],
        "methods": [
            {
                "name": "test_method",
                "description": "Test Method",
                "parameters": ["param1", "param2"],
                "inputSchema": {
                    "type": "object",
                    "properties": {
                        "nested": {
                            "type": "object",
                            "properties": {
                                "deep": {
                                    "type": "string",
                                    "description": "Deeply nested property"
                                }
                            }
                        },
                        "array": {
                            "type": "array",
                            "items": {
                                "type": "object",
                                "properties": {
                                    "name": {
                                        "type": "string"
                                    }
                                }
                            }
                        }
                    },
                    "required": ["nested"]
                }
            }
        ],
        "source": {
            "author": "Source Author",
            "version": "1.0.0",
            "github": "https://github.com/source"
        },
        "functional_keywords": ["test", "keyword"],
        "scenario_phrases": ["test scenario"]
    }"#;

    assert!(manager.create_from_json("test_id", json_str).is_ok());
    let index = manager.read("test_id").unwrap();
    assert_eq!(index.id, "test_id");
    assert_eq!(index.description, "Test Service");
    assert_eq!(index.source.author, "Source Author");
    assert_eq!(index.source.version, "1.0.0");
    assert_eq!(index.source.github, "https://github.com/source");
    assert_eq!(index.transport, vec!["http", "https"]);
    assert_eq!(index.keywords, vec!["test", "keyword"]);
    assert_eq!(index.scenarios, vec!["test scenario"]);
    assert_eq!(index.methods.len(), 1);
    let method = &index.methods[0];
    assert_eq!(method.name, "test_method");
    assert_eq!(method.description, "Test Method");
    assert_eq!(method.required_params, Some(vec!["param1".to_string(), "param2".to_string()]));
    let input_schema = method.input_schema.as_ref().unwrap();
    assert_eq!(input_schema.schema_type, "object");
    assert!(input_schema.required.as_ref().unwrap().contains(&"nested".to_string()));
    let nested = prop(&input_schema.properties, "nested");
    assert_eq!(nested.property_type, "object");
    let deep = prop(nested.properties.as_ref().unwrap(), "deep");
    assert_eq!(deep.property_type, "string");
    assert_eq!(deep.description.as_ref().unwrap(), "Deeply nested property");
    let array = prop(&input_schema.properties, "array");
    assert_eq!(array.property_type, "array");
    let items = array.items.as_ref().unwrap();
    assert_eq!(items.property_type, "object");
    let name = prop(items.properties.as_ref().unwrap(), "name");
    assert_eq!(name.property_type, "string");
    assert!(manager.search_by_keyword("keyword").len() == 1);
}

#[test]
fn create_from_json_refuses_bad_documents() {
    let mut manager = AioIndexManager::new();
    assert!(manager.create_from_json("x", "{not json").unwrap_err().starts_with("JSON parsing error: "));
    assert_eq!(manager.create_from_json("x", "[1, 2]").unwrap_err(), "Invalid JSON: expected object");
    assert!(manager.create_from_json("x", "{}").is_ok());
    let x = manager.read("x").unwrap();
    assert_eq!(x.description, "");
    assert!(x.methods.is_empty());
    assert_eq!(x.source.author, "");
    assert_eq!(manager.create_from_json("x", "{}").unwrap_err(), "Index with ID x already exists");
}

#[test]
fn update_document_replaces_the_description() {
    let mut m = AioIndexManager::new();
    m.create(index("svc", "old words", &["memory"])).unwrap();
    assert_eq!(m.update_aio_index("svc", r#"{"description": "new words", "other": 1}"#), Ok(()));
    let x = m.read("svc").unwrap();
    assert_eq!(x.description, "new words");
    assert_eq!(x.keywords, vec!["memory".to_string()]);
    assert_eq!(m.search_by_keyword("memory").len(), 1);
    assert_eq!(m.update_aio_index("svc", r#"{"description": 5}"#), Ok(()));
    assert_eq!(m.read("svc").unwrap().description, "new words");
}

#[test]
fn update_document_refusals_come_in_order() {
    let mut m = AioIndexManager::new();
    m.create(index("svc", "old words", &["memory"])).unwrap();
    let bad = m.update_aio_index("nope", "not json").unwrap_err();
    assert!(bad.starts_with("Invalid JSON: "));
    assert_ne!(bad, "Invalid JSON: expected object");
    assert_eq!(m.update_aio_index("nope", "{}"), Err("Index with ID nope not found".to_string()));
    assert_eq!(m.update_aio_index("svc", "[1, 2]"), Err("Invalid JSON: expected object".to_string()));
    assert_eq!(m.read("svc").unwrap().description, "old words");
}

#[test]
fn create_from_value_and_update_from_value_take_parsed_documents() {
    let mut manager = AioIndexManager::new();
    let doc = JsonValue::Object(vec![
        ("description".to_string(), JsonValue::Str("Parsed".to_string())),
        ("functional_keywords".to_string(), JsonValue::Array(vec![JsonValue::Str("Alpha".to_string())])),
    ]);
    assert!(manager.create_from_value("p1", doc).is_ok());
    assert_eq!(manager.read("p1").unwrap().description, "Parsed");
    assert_eq!(manager.create_from_value("p2", JsonValue::Null).unwrap_err(), "Invalid JSON: expected object");
    assert!(manager.read("p2").is_none());
    let upd = JsonValue::Object(vec![("description".to_string(), JsonValue::Str("Changed".to_string()))]);
    assert!(manager.update_from_value("p1", upd).is_ok());
    assert_eq!(manager.read("p1").unwrap().description, "Changed");
    assert_eq!(manager.update_from_value("nope", JsonValue::Bool(true)).unwrap_err(), "Index with ID nope not found");
    assert_eq!(manager.update_from_value("p1", JsonValue::Bool(true)).unwrap_err(), "Invalid JSON: expected object");
}
