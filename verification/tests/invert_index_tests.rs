use aio_base_backend::aio_invert_index_types::{
    confidence_ge, split_words, validate_items, InvertedIndexItem, InvertedIndexStore,
};

fn item(keyword: &str, mcp: &str, method: &str, confidence: f32, standard_match: &str) -> InvertedIndexItem {
    InvertedIndexItem {
        keyword: keyword.to_string(),
        keyword_group: "group1".to_string(),
        mcp_name: mcp.to_string(),
        method_name: method.to_string(),
        source_field: "field1".to_string(),
        confidence: confidence.to_bits(),
        standard_match: standard_match.to_string(),
    }
}

fn grouped(keyword: &str, group: &str, mcp: &str, confidence: f32) -> InvertedIndexItem {
    let mut it = item(keyword, mcp, "run", confidence, "exact");
    it.keyword_group = group.to_string();
    it
}

#[test]
fn test_store_and_retrieve_with_standard_match() {
    let mut store = InvertedIndexStore::new();
    let test_item = item("test", "mcp1", "", 0.95, "exact");
    store.store_items(vec![test_item.clone()]).unwrap();

    let items = store.get_all_items();
    assert_eq!(items.len(), 1);
    assert_eq!(items[0].standard_match, "exact");
}

#[test]
fn test_find_by_keyword_with_standard_match() {
    let mut store = InvertedIndexStore::new();
    let test_items = vec![item("test", "mcp1", "", 0.95, "exact"), item("test", "mcp2", "", 0.85, "partial")];
    store.store_items(test_items).unwrap();

    let items = store.find_by_keyword("test");
    assert_eq!(items.len(), 2);
    assert!(items.iter().any(|item| item.standard_match == "exact"));
    assert!(items.iter().any(|item| item.standard_match == "partial"));
}

#[test]
fn test_find_by_mcp_name_with_standard_match() {
    let mut store = InvertedIndexStore::new();
    let test_item = item("test", "mcp1", "", 0.95, "exact");
    store.store_items(vec![test_item.clone()]).unwrap();

    let items = store.find_by_mcp_name("mcp1");
    assert_eq!(items.len(), 1);
    assert_eq!(items[0].standard_match, "exact");
}

#[test]
fn empty_standard_match_refuses_the_whole_list() {
    let mut store = InvertedIndexStore::new();
    let r = store.store_items(vec![item("a", "m1", "", 0.9, "exact"), item("b", "m2", "", 0.9, "")]);
    assert_eq!(r, Err("standard_match field cannot be empty".to_string()));
    assert!(store.get_all_items().is_empty());
    assert!(store.get_all_keywords().is_empty());
}

#[test]
fn validation_names_the_first_keyword_without_standard_match() {
    let ok = vec![item("a", "m1", "", 0.9, "exact")];
    assert_eq!(validate_items(&ok), Ok(()));
    let bad = vec![item("a", "m1", "", 0.9, "exact"), item("b", "m2", "", 0.9, ""), item("c", "m3", "", 0.9, "")];
    assert_eq!(validate_items(&bad), Err("Invalid item: standard_match is empty for keyword b".to_string()));
}

#[test]
fn help_methods_are_filed_under_help_for_their_mcp() {
    let mut store = InvertedIndexStore::new();
    store.store_items(vec![item("anything", "weather", "help", 0.9, "true")]).unwrap();
    let all = store.get_all_items();
    assert_eq!(all.len(), 1);
    assert_eq!(all[0].keyword, "help-for-weather");
    assert_eq!(store.get_all_keywords(), vec!["help-for-weather".to_string()]);
}

#[test]
fn items_walk_in_key_order_and_a_key_is_stored_once() {
    let mut store = InvertedIndexStore::new();
    store
        .store_items(vec![
            item("zeta", "m1", "", 0.5, "x"),
            item("alpha", "m2", "", 0.5, "x"),
            item("zeta", "m1", "", 0.7, "x"),
        ])
        .unwrap();
    let all = store.get_all_items();
    assert_eq!(all.len(), 2);
    assert_eq!(all[0].keyword, "alpha");
    assert_eq!(all[1].keyword, "zeta");
    assert_eq!(all[1].confidence, 0.7f32.to_bits());
    assert_eq!(store.get_all_keywords(), vec!["alpha".to_string(), "zeta".to_string()]);
}

#[test]
fn keyword_search_ranks_items_meeting_more_words_first() {
    let mut store = InvertedIndexStore::new();
    store
        .store_items(vec![
            item("weather", "m1", "", 0.9, "x"),
            item("weather-forecast", "m2", "", 0.9, "x"),
            item("news", "m3", "", 0.9, "x"),
        ])
        .unwrap();
    let found = store.find_by_keyword("Weather-Forecast");
    assert_eq!(found.len(), 2);
    assert_eq!(found[0].mcp_name, "m2");
    assert_eq!(found[1].mcp_name, "m1");
    assert!(store.find_by_keyword("sports").is_empty());
}

#[test]
fn keyword_search_looks_at_the_whole_key() {
    let mut store = InvertedIndexStore::new();
    store.store_items(vec![item("alpha", "beta-tool", "", 0.9, "exact")]).unwrap();
    assert_eq!(store.find_by_keyword("beta").len(), 1);
    assert_eq!(store.find_by_keyword("EXACT").len(), 1);
}

#[test]
fn group_and_confidence_filters() {
    let mut store = InvertedIndexStore::new();
    store
        .store_items(vec![grouped("a", "g1", "m1", 0.2), grouped("b", "g2", "m2", 0.8), grouped("c", "g1", "m3", 0.5)])
        .unwrap();
    let g1 = store.find_by_keyword_group("g1");
    assert_eq!(g1.iter().map(|i| i.mcp_name.as_str()).collect::<Vec<_>>(), vec!["m1", "m3"]);
    let high = store.find_by_confidence(0.5f32.to_bits());
    assert_eq!(high.iter().map(|i| i.mcp_name.as_str()).collect::<Vec<_>>(), vec!["m2", "m3"]);
    assert!(store.find_by_confidence(f32::NAN.to_bits()).is_empty());
    assert_eq!(store.find_by_confidence((-1.0f32).to_bits()).len(), 3);
}

#[test]
fn confidence_comparison_follows_the_numbers() {
    assert!(confidence_ge(0.8f32.to_bits(), 0.7f32.to_bits()));
    assert!(!confidence_ge(0.6f32.to_bits(), 0.7f32.to_bits()));
    assert!(confidence_ge(0.0f32.to_bits(), (-0.0f32).to_bits()));
    assert!(confidence_ge((-0.5f32).to_bits(), (-2.0f32).to_bits()));
    assert!(!confidence_ge((-2.0f32).to_bits(), (-0.5f32).to_bits()));
    assert!(!confidence_ge(f32::NAN.to_bits(), 0.0f32.to_bits()));
}

#[test]
fn delete_by_mcp_name_removes_exactly_the_items_of_that_mcp() {
    let mut store = InvertedIndexStore::new();
    store
        .store_items(vec![item("k1", "m1", "", 0.9, "m1"), item("k2", "m1", "", 0.9, "exact"), item("k3", "m2", "", 0.9, "m1")])
        .unwrap();
    assert_eq!(store.delete_by_mcp_name("m1"), Ok(()));
    let left = store.get_all_items();
    assert_eq!(left.len(), 1);
    assert_eq!(left[0].keyword, "k3");
    assert_eq!(left[0].mcp_name, "m2");
    assert_eq!(store.get_all_keywords(), vec!["k3".to_string()]);
    assert!(store.find_by_mcp_name("m1").is_empty());
}

#[test]
fn several_keywords_give_one_item_per_mcp_most_found_first() {
    let mut store = InvertedIndexStore::new();
    store
        .store_items(vec![
            item("weather", "m1", "", 0.6, "x"),
            item("forecast", "m2", "", 0.9, "x"),
            item("weather-forecast", "m2", "", 0.8, "y"),
            item("forecast-rain", "m3", "", 0.1, "x"),
        ])
        .unwrap();
    let kws = vec!["weather".to_string(), "forecast".to_string()];
    let found = store.find_by_keywords(&kws, 0.5f32.to_bits());
    assert_eq!(found.iter().map(|i| i.mcp_name.as_str()).collect::<Vec<_>>(), vec!["m2", "m1"]);
    assert_eq!(found[0].keyword, "weather-forecast");
}

#[test]
fn strategy_picks_the_best_match() {
    let mut store = InvertedIndexStore::new();
    store
        .store_items(vec![
            item("get_weather", "m1", "run", 0.9, "false"),
            item("weather-report", "m2", "run", 0.8, "true"),
            item("weather", "m3", "help", 0.95, "true"),
            item("weather-now", "m4", "run", 0.5, "true"),
        ])
        .unwrap();
    let best = store.find_by_keywords_strategy(&vec!["Weather_Report".to_string()]).unwrap();
    assert_eq!(best.mcp_name, "m2");
    assert!(store.find_by_keywords_strategy(&vec![]).is_none());
    assert!(store.find_by_keywords_strategy(&vec!["sports".to_string()]).is_none());
}

#[test]
fn words_split_at_dashes_and_underscores() {
    assert_eq!(split_words("Get_Weather-Now", false), vec!["get", "weather", "now"]);
    assert_eq!(split_words("Get_Weather-Now", true), vec!["get_weather", "now"]);
    assert_eq!(split_words("", true), vec![""]);
    assert_eq!(split_words("a--b", true), vec!["a", "", "b"]);
}
