//! The revision store and the dynamic field engine.

use cms_core::inputs::StringMap;
use cms_core::parse::FieldContent;
use cms_core::store::Store;
use cms_core::CoreError;

fn story_store() -> Store {
    let mut store = Store::new();
    store
        .create_node_type("story", "Story", "A short piece", "Write a story")
        .unwrap();
    store
}

#[test]
fn create_content_rejects_unknown_type() {
    let mut store = Store::new();
    let got = store.create_content("story", "t", "b", "b", 1, false, false, 10);
    assert!(matches!(got, Err(CoreError::ValidationError)));
}

#[test]
fn create_content_points_head_at_first_revision() {
    let mut store = story_store();
    let (nid, vid) = store
        .create_content("story", "Hello", "Body text", "Body text", 1, true, false, 100)
        .unwrap();
    let head = store.find_with_body(nid).unwrap();
    assert_eq!(head.vid, vid);
    assert_eq!(head.title, "Hello");
    assert_eq!(head.body, "Body text");
    assert_eq!(head.teaser, "Body text");
    assert!(head.promote);
    assert!(!head.sticky);
    assert!(head.published);
}

#[test]
fn teaser_of_revision_cuts_at_blank_line() {
    let mut store = story_store();
    let body = "first part\n\nsecond part";
    let (nid, _) = store
        .create_content("story", "T", body, body, 1, false, false, 100)
        .unwrap();
    let head = store.find_with_body(nid).unwrap();
    assert_eq!(head.teaser, "first part");
    assert_eq!(head.body, body);
}

#[test]
fn update_content_keeps_history_and_repoints_head() {
    let mut store = story_store();
    let (nid, v1) = store
        .create_content("story", "One", "b1", "b1", 1, false, false, 100)
        .unwrap();
    let v2 = store
        .update_content(nid, "Two", "b2", "b2", 1, false, false, 200)
        .unwrap();
    let v3 = store
        .update_content(nid, "Three", "b3", "b3", 1, false, true, 300)
        .unwrap();
    assert!(v1 != v2 && v2 != v3 && v1 != v3);
    let head = store.find_with_body(nid).unwrap();
    assert_eq!(head.vid, v3);
    assert_eq!(head.title, "Three");
    assert_eq!(head.body, "b3");
    assert!(head.sticky);
    assert_eq!(head.created, 100);
    assert_eq!(head.changed, 300);
}

#[test]
fn update_content_unknown_item_is_not_found() {
    let mut store = story_store();
    let got = store.update_content(99, "t", "b", "b", 1, false, false, 10);
    assert!(matches!(got, Err(CoreError::NotFound)));
}

fn schema_with_fields(store: &mut Store) {
    store.create_field("summary", "text", 1, None).unwrap();
    store.create_field("rating", "integer", 1, None).unwrap();
    store.create_field("tags", "text", 5, None).unwrap();
    store
        .create_field_instance("summary", "story", "Summary", None, true, 0, "textfield")
        .unwrap();
    store
        .create_field_instance("rating", "story", "Rating", None, false, 1, "textfield")
        .unwrap();
    store
        .create_field_instance("tags", "story", "Tags", None, false, 2, "textfield")
        .unwrap();
}

#[test]
fn list_fields_orders_by_weight_then_label() {
    let mut store = story_store();
    store.create_field("b_field", "text", 1, None).unwrap();
    store.create_field("a_field", "text", 1, None).unwrap();
    store.create_field("c_field", "text", 1, None).unwrap();
    store
        .create_field_instance("b_field", "story", "Beta", None, false, 5, "w")
        .unwrap();
    store
        .create_field_instance("a_field", "story", "Alpha", None, false, 5, "w")
        .unwrap();
    store
        .create_field_instance("c_field", "story", "Aaa", None, false, -1, "w")
        .unwrap();
    let fields = store.list_fields("story");
    let labels: Vec<&str> = fields.iter().map(|f| f.label.as_str()).collect();
    assert_eq!(labels, ["Aaa", "Alpha", "Beta"]);
}

#[test]
fn save_values_stores_parsed_inputs_per_field() {
    let mut store = story_store();
    schema_with_fields(&mut store);
    let (nid, vid) = store
        .create_content("story", "T", "b", "b", 1, false, false, 100)
        .unwrap();
    let mut inputs = StringMap::new();
    inputs.insert("field_summary", "a fine piece");
    inputs.insert("field_rating", "8");
    inputs.insert("field_tags_0", "one");
    inputs.insert("field_tags_1", "two");
    store.save_values(nid, vid, "story", &inputs);
    let loaded = store.load_values("story", vid);
    assert_eq!(loaded.len(), 3);
    assert_eq!(loaded[0].field_name, "summary");
    assert_eq!(loaded[0].values.len(), 1);
    match &loaded[0].values[0].content {
        FieldContent::Text(s) => assert_eq!(s, "a fine piece"),
        _ => panic!("summary must be text"),
    }
    assert_eq!(loaded[1].field_name, "rating");
    assert!(matches!(loaded[1].values[0].content, FieldContent::Int(8)));
    assert_eq!(loaded[2].field_name, "tags");
    assert_eq!(loaded[2].values.len(), 2);
    assert_eq!(loaded[2].values[0].delta, 0);
    assert_eq!(loaded[2].values[1].delta, 1);
}

#[test]
fn save_values_drops_bad_numbers_silently() {
    let mut store = story_store();
    schema_with_fields(&mut store);
    let (nid, vid) = store
        .create_content("story", "T", "b", "b", 1, false, false, 100)
        .unwrap();
    let mut inputs = StringMap::new();
    inputs.insert("field_rating", "not a number");
    store.save_values(nid, vid, "story", &inputs);
    let loaded = store.load_values("story", vid);
    assert_eq!(loaded[1].field_name, "rating");
    assert_eq!(loaded[1].values.len(), 0);
}

#[test]
fn save_values_skips_empty_inputs() {
    let mut store = story_store();
    schema_with_fields(&mut store);
    let (nid, vid) = store
        .create_content("story", "T", "b", "b", 1, false, false, 100)
        .unwrap();
    let mut inputs = StringMap::new();
    inputs.insert("field_summary", "");
    store.save_values(nid, vid, "story", &inputs);
    let loaded = store.load_values("story", vid);
    assert_eq!(loaded[0].values.len(), 0);
}

#[test]
fn save_values_compacts_multi_value_gaps() {
    let mut store = story_store();
    schema_with_fields(&mut store);
    let (nid, vid) = store
        .create_content("story", "T", "b", "b", 1, false, false, 100)
        .unwrap();
    let mut inputs = StringMap::new();
    inputs.insert("field_tags_0", "first");
    inputs.insert("field_tags_3", "second");
    store.save_values(nid, vid, "story", &inputs);
    let loaded = store.load_values("story", vid);
    assert_eq!(loaded[2].values.len(), 2);
    assert_eq!(loaded[2].values[0].delta, 0);
    assert_eq!(loaded[2].values[1].delta, 1);
    match &loaded[2].values[1].content {
        FieldContent::Text(s) => assert_eq!(s, "second"),
        _ => panic!("tags must be text"),
    }
}

#[test]
fn save_values_twice_keeps_only_second_set() {
    let mut store = story_store();
    schema_with_fields(&mut store);
    let (nid, vid) = store
        .create_content("story", "T", "b", "b", 1, false, false, 100)
        .unwrap();
    let mut first = StringMap::new();
    first.insert("field_summary", "old");
    first.insert("field_tags_0", "a");
    first.insert("field_tags_1", "b");
    first.insert("field_tags_2", "c");
    store.save_values(nid, vid, "story", &first);
    let mut second = StringMap::new();
    second.insert("field_summary", "new");
    second.insert("field_tags_0", "only");
    store.save_values(nid, vid, "story", &second);
    let loaded = store.load_values("story", vid);
    match &loaded[0].values[0].content {
        FieldContent::Text(s) => assert_eq!(s, "new"),
        _ => panic!("summary must be text"),
    }
    assert_eq!(loaded[0].values.len(), 1);
    assert_eq!(loaded[2].values.len(), 1);
    match &loaded[2].values[0].content {
        FieldContent::Text(s) => assert_eq!(s, "only"),
        _ => panic!("tags must be text"),
    }
}

#[test]
fn old_revision_values_survive_later_edits() {
    let mut store = story_store();
    schema_with_fields(&mut store);
    let (nid, v1) = store
        .create_content("story", "T", "b1", "b1", 1, false, false, 100)
        .unwrap();
    let mut inputs = StringMap::new();
    inputs.insert("field_summary", "first words");
    store.save_values(nid, v1, "story", &inputs);
    let v2 = store
        .update_content(nid, "T", "b2", "b2", 1, false, false, 200)
        .unwrap();
    let v3 = store
        .update_content(nid, "T", "b3", "b3", 1, false, false, 300)
        .unwrap();
    let mut later = StringMap::new();
    later.insert("field_summary", "third words");
    store.save_values(nid, v3, "story", &later);
    let first = store.load_values("story", v1);
    match &first[0].values[0].content {
        FieldContent::Text(s) => assert_eq!(s, "first words"),
        _ => panic!("summary must be text"),
    }
    let second = store.load_values("story", v2);
    assert_eq!(second[0].values.len(), 0);
    let third = store.load_values("story", v3);
    match &third[0].values[0].content {
        FieldContent::Text(s) => assert_eq!(s, "third words"),
        _ => panic!("summary must be text"),
    }
}

#[test]
fn required_field_is_reported_before_any_write() {
    let mut store = story_store();
    schema_with_fields(&mut store);
    let empty = StringMap::new();
    let missing = store.first_missing_required("story", &empty);
    assert_eq!(missing.as_deref(), Some("Summary"));
    let mut inputs = StringMap::new();
    inputs.insert("field_summary", "given");
    assert!(store.first_missing_required("story", &inputs).is_none());
}

#[test]
fn delete_content_cascades_to_revisions_and_values() {
    let mut store = story_store();
    schema_with_fields(&mut store);
    let (nid, vid) = store
        .create_content("story", "T", "b", "b", 1, false, false, 100)
        .unwrap();
    let mut inputs = StringMap::new();
    inputs.insert("field_summary", "words");
    store.save_values(nid, vid, "story", &inputs);
    store.delete_content(nid).unwrap();
    assert!(store.find_by_nid(nid).is_none());
    assert!(store.find_with_body(nid).is_none());
    let loaded = store.load_values("story", vid);
    assert_eq!(loaded[0].values.len(), 0);
    assert!(matches!(store.delete_content(nid), Err(CoreError::NotFound)));
}

#[test]
fn duplicate_schema_names_are_rejected() {
    let mut store = story_store();
    assert!(matches!(
        store.create_node_type("story", "Again", "", ""),
        Err(CoreError::ValidationError)
    ));
    store.create_field("summary", "text", 1, None).unwrap();
    assert!(matches!(
        store.create_field("summary", "text", 1, None),
        Err(CoreError::ValidationError)
    ));
    store
        .create_field_instance("summary", "story", "Summary", None, false, 0, "w")
        .unwrap();
    assert!(matches!(
        store.create_field_instance("summary", "story", "Summary", None, false, 0, "w"),
        Err(CoreError::ValidationError)
    ));
    assert!(matches!(
        store.create_field_instance("absent", "story", "Absent", None, false, 0, "w"),
        Err(CoreError::ValidationError)
    ));
}

#[test]
fn set_published_toggles_the_head() {
    let mut store = story_store();
    let (nid, _) = store
        .create_content("story", "T", "b", "b", 1, false, false, 100)
        .unwrap();
    store.set_published(nid, false).unwrap();
    assert!(!store.find_by_nid(nid).unwrap().published);
    store.set_published(nid, true).unwrap();
    assert!(store.find_by_nid(nid).unwrap().published);
}
