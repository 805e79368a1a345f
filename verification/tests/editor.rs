use turboripent::editor::{parse_key_values, render_key_values, EditorController};
use turboripent::entity::{classnames_from_entities, EntityDictionary};

fn dict(pairs: &[(&str, &str)]) -> EntityDictionary {
    let mut d = EntityDictionary::empty();
    for (k, v) in pairs {
        d.insert(k.to_string(), v.to_string());
    }
    d
}

// ─── parse_key_values ────────────────────────────────────────────────────────

#[test]
fn test_parse_kv_basic() {
    let result = parse_key_values("key=value");
    assert_eq!(result.len(), 1);
    assert_eq!(result.get("key").unwrap(), "value");
}

#[test]
fn test_parse_kv_multiple() {
    let result = parse_key_values("k1=v1\nk2=v2");
    assert_eq!(result.len(), 2);
    assert_eq!(result.get("k1").unwrap(), "v1");
    assert_eq!(result.get("k2").unwrap(), "v2");
}

#[test]
fn test_parse_kv_empty() {
    let result = parse_key_values("");
    assert!(result.is_empty());
}

#[test]
fn test_parse_kv_no_equals() {
    let result = parse_key_values("noequalssign");
    assert!(result.is_empty(), "lines without '=' should be skipped");
}

#[test]
fn test_parse_kv_whitespace() {
    let result = parse_key_values("  key  =  val  ");
    assert_eq!(result.len(), 1);
    assert_eq!(result.get("key").unwrap(), "val");
}

#[test]
fn test_parse_kv_duplicate() {
    let result = parse_key_values("k=v1\nk=v2");
    assert_eq!(result.get("k").unwrap(), "v2", "last value should win");
}

#[test]
fn test_parse_kv_empty_key() {
    let result = parse_key_values("=value");
    assert_eq!(result.get("").unwrap(), "value", "empty key is allowed");
}

#[test]
fn test_parse_kv_empty_value() {
    let result = parse_key_values("key=");
    assert_eq!(result.get("key").unwrap(), "", "empty value is allowed");
}

// ─── render_key_values ───────────────────────────────────────────────────────

#[test]
fn test_render_kv_single() {
    let mut dict = EntityDictionary::empty();
    dict.insert("key".into(), "value".into());
    assert_eq!(render_key_values(&dict), "key=value");
}

#[test]
fn test_render_kv_empty() {
    assert_eq!(render_key_values(&EntityDictionary::empty()), "");
}

#[test]
fn test_render_kv_sorted() {
    let mut dict = EntityDictionary::empty();
    dict.insert("z".into(), "last".into());
    dict.insert("a".into(), "first".into());
    dict.insert("m".into(), "middle".into());
    let out = render_key_values(&dict);
    assert_eq!(out, "a=first\r\nm=middle\r\nz=last", "keys should be sorted alphabetically");
}

#[test]
fn test_render_kv_roundtrip() {
    let mut dict = EntityDictionary::empty();
    dict.insert("name".into(), "test".into());
    dict.insert("origin".into(), "0 0 0".into());
    dict.insert("classname".into(), "info_player_start".into());

    let rendered = render_key_values(&dict);
    let reparsed = parse_key_values(&rendered);
    assert!(dict.same_entries(&reparsed), "render → parse should produce identical dict");
}

// ─── classnames_from_entities ────────────────────────────────────────────────

#[test]
fn test_classname_present() {
    let mut dict = EntityDictionary::empty();
    dict.insert("classname".into(), "light".into());
    dict.insert("origin".into(), "0 0 0".into());

    let names = classnames_from_entities(&[dict]);
    assert_eq!(names, vec!["light"]);
}

#[test]
fn test_classname_missing() {
    let mut dict = EntityDictionary::empty();
    dict.insert("origin".into(), "0 0 0".into());

    let names = classnames_from_entities(&[dict]);
    assert_eq!(names, vec!["<no classname>"]);
}

#[test]
fn test_classname_empty_string() {
    let mut dict = EntityDictionary::empty();
    dict.insert("classname".into(), "".into());

    let names = classnames_from_entities(&[dict]);
    assert_eq!(names, vec!["<no classname>"]);
}

#[test]
fn test_classname_empty_vec() {
    let names = classnames_from_entities(&[]);
    assert!(names.is_empty());
}

// ─── The editor's state ──────────────────────────────────────────────────────

fn sample() -> Vec<EntityDictionary> {
    vec![
        dict(&[("classname", "worldspawn"), ("wad", "test.wad")]),
        dict(&[("classname", "light"), ("origin", "0 0 0")]),
        dict(&[("classname", "func_wall"), ("model", "*1")]),
    ]
}

#[test]
fn editor_empty_filter_lists_all() {
    let mut c = EditorController::new(&sample());
    c.populate_list();
    assert_eq!(c.filtered_idxs(), &vec![0, 1, 2]);
    assert_eq!(c.selected_entity(), Some(0));
    assert_eq!(c.shown_classname(), "worldspawn");
}

#[test]
fn editor_filter_is_case_insensitive_and_trimmed() {
    let c = EditorController::new(&sample());
    assert_eq!(c.compute_filtered_idxs("  LIGHT "), vec![1]);
    assert_eq!(c.compute_filtered_idxs("*1"), vec![2]);
    assert_eq!(c.compute_filtered_idxs("wad"), vec![0]);
    assert_eq!(c.compute_filtered_idxs("nothing"), Vec::<usize>::new());
}

#[test]
fn editor_rows_are_sorted_pairs() {
    let mut c = EditorController::new(&sample());
    c.select_entity(1);
    let rows: Vec<(String, String)> = c.rows().clone();
    assert_eq!(
        rows,
        vec![
            ("classname".to_string(), "light".to_string()),
            ("origin".to_string(), "0 0 0".to_string())
        ]
    );
    assert!(!c.has_pending_row_edits());
}

#[test]
fn editor_undo_restores_and_redo_replays() {
    let mut c = EditorController::new(&sample());
    c.populate_list();
    let new_idx = c.create_entity();
    assert_eq!(new_idx, 3);
    assert_eq!(c.entities().len(), 4);
    assert_eq!(c.entities()[3].get_classname(), "new_entity");
    assert!(c.undo(""));
    assert_eq!(c.entities().len(), 3);
    assert!(c.redo(""));
    assert_eq!(c.entities().len(), 4);
    assert!(!c.redo(""));
}

#[test]
fn editor_undo_with_nothing_only_commits() {
    let mut c = EditorController::new(&sample());
    assert!(!c.undo(""));
    assert_eq!(c.entities().len(), 3);
}

#[test]
fn editor_property_edit_commits_on_select() {
    let mut c = EditorController::new(&sample());
    c.populate_list();
    // rows of worldspawn: classname, wad
    assert!(!c.property_changed(1, false, "other.wad".to_string()));
    assert!(c.has_pending_row_edits());
    c.on_list_select(1);
    assert_eq!(c.selected_entity(), Some(1));
    assert_eq!(c.entities()[0].get("wad").unwrap(), "other.wad");
    // the pending edit was one undo step
    assert!(c.undo(""));
    assert_eq!(c.entities()[0].get("wad").unwrap(), "test.wad");
}

#[test]
fn editor_classname_edit_relabels() {
    let mut c = EditorController::new(&sample());
    c.populate_list();
    assert!(c.property_changed(0, false, "info_target".to_string()));
    assert_eq!(c.sync_entity_list_label(), Some(0));
    assert_eq!(c.shown_classname(), "info_target");
    // a blank class name keeps the label
    assert!(c.property_changed(0, false, "   ".to_string()));
    assert_eq!(c.sync_entity_list_label(), Some(0));
    assert_eq!(c.shown_classname(), "info_target");
}

#[test]
fn editor_flags_set_and_cleared() {
    let mut c = EditorController::new(&sample());
    c.select_entity(1);
    c.flag_changed(4, true);
    assert_eq!(c.entities()[1].get_spawnflags(), Some(4));
    assert!(c.rows().iter().any(|(k, v)| k == "spawnflags" && v == "4"));
    c.flag_changed(1, true);
    assert_eq!(c.entities()[1].get_spawnflags(), Some(5));
    c.flag_changed(4, false);
    c.flag_changed(1, false);
    assert_eq!(c.entities()[1].get_spawnflags(), None);
    assert!(c.entities()[1].get("spawnflags").is_none());
}

#[test]
fn editor_clone_delete_and_rows() {
    let mut c = EditorController::new(&sample());
    assert_eq!(c.clone_entity(), None);
    c.select_entity(2);
    assert_eq!(c.clone_entity(), Some(3));
    assert!(c.entities()[3].same_entries(&c.entities()[2]));
    c.select_entity(0);
    assert!(c.delete_entity());
    assert_eq!(c.entities().len(), 3);
    assert_eq!(c.entities()[0].get_classname(), "light");
    c.select_entity(0);
    let row = c.add_property_row();
    assert_eq!(row, 2);
    assert!(c.property_changed(row, true, "  target ".to_string()) == false);
    assert!(c.property_changed(row, false, "t1".to_string()) == false);
    c.commit_rows();
    assert_eq!(c.entities()[0].get("target").unwrap(), "t1");
    assert!(c.delete_property_row(row));
    assert!(c.entities()[0].get("target").is_none());
    assert!(!c.delete_property_row(99));
}

#[test]
fn editor_close_compares_with_saved() {
    let mut c = EditorController::new(&sample());
    assert!(c.on_close());
    c.create_entity();
    assert!(!c.on_close());
    c.mark_saved();
    assert!(c.on_close());
}

#[test]
fn editor_updating_views_ignores_edits() {
    let mut c = EditorController::new(&sample());
    c.populate_list();
    c.set_updating_views(true);
    assert!(!c.property_changed(0, false, "x".to_string()));
    c.apply_filter("light");
    assert_eq!(c.filtered_idxs(), &vec![0, 1, 2]);
    c.set_updating_views(false);
    c.apply_filter("light");
    assert_eq!(c.filtered_idxs(), &vec![1]);
    assert_eq!(c.selected_entity(), Some(1));
    assert_eq!(c.set_active_entity(0), None);
    assert_eq!(c.list_position(1), Some(0));
}
