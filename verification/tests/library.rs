use turboripent::bsp::{BspFile, LumpIdx};
use turboripent::editor::{parse_key_values, render_key_values, EditorController};
use turboripent::entity::EntityDictionary;
use turboripent::error::RipError;
use turboripent::menu::{
    batch_actions, clean_prompt_input, run_mode, split_args, Menu, RunMode,
};
use turboripent::normalise::normalise_entities;
use turboripent::report::EntityReport;
use turboripent::rip::{
    entities_into_bsp, entities_of_bsp, has_extension, repair_bsp, split_entities, ExtractTarget,
    FileKind, ImportSource, RipAction,
};

fn put_i32(buf: &mut [u8], at: usize, v: i32) {
    buf[at..at + 4].copy_from_slice(&v.to_le_bytes());
}

/// A BSP with the given entity lump bytes and `models` brush models.
fn bsp_with(ent_bytes: &[u8], models: usize) -> BspFile {
    let header_size = 124;
    let mut bytes = vec![0u8; header_size];
    put_i32(&mut bytes, 0, 30);
    put_i32(&mut bytes, 4, header_size as i32);
    put_i32(&mut bytes, 8, ent_bytes.len() as i32);
    put_i32(&mut bytes, 4 + 14 * 8, (header_size + ent_bytes.len()) as i32);
    put_i32(&mut bytes, 8 + 14 * 8, (models * 64) as i32);
    bytes.extend_from_slice(ent_bytes);
    bytes.extend_from_slice(&vec![7u8; models * 64]);
    BspFile::from_content(bytes).unwrap()
}

fn dict(pairs: &[(&str, &str)]) -> EntityDictionary {
    let mut d = EntityDictionary::empty();
    for (k, v) in pairs {
        d.insert(k.to_string(), v.to_string());
    }
    d
}

// ─── Text written then read ──────────────────────────────────────────────────

#[test]
fn text_roundtrip_keeps_order_and_drops_empty() {
    let es = vec![
        dict(&[("classname", "worldspawn"), ("wad", "a.wad")]),
        EntityDictionary::empty(),
        dict(&[("origin", "1 2 3"), ("classname", "light")]),
    ];
    let txt = EntityDictionary::to_txt(&es);
    assert_eq!(
        txt,
        "{\n\"classname\" \"worldspawn\"\n\"wad\" \"a.wad\"\n}\n{\n\"origin\" \"1 2 3\"\n\"classname\" \"light\"\n}\n"
    );
    let back = EntityDictionary::from_ent_txt(&txt);
    assert_eq!(back.len(), 2);
    assert!(back[0].same_entries(&es[0]));
    assert!(back[1].same_entries(&es[2]));
    assert_eq!(back[1].pairs()[0].0, "origin");
}

#[test]
fn reparse_is_stable() {
    let txt = "junk {\"a\" \"1\" \"b\"} {\"classname\" \"x\" \"a\" \"2\" \"a\" \"3\"}";
    let first = EntityDictionary::from_ent_txt(txt);
    let again = EntityDictionary::from_ent_txt(&EntityDictionary::to_txt(&first));
    assert_eq!(first.len(), 2);
    assert_eq!(again.len(), 2);
    for (a, b) in first.iter().zip(again.iter()) {
        assert!(a.same_entries(b));
    }
    assert_eq!(first[1].get("a").unwrap(), "3");
}

// ─── Import then extract ─────────────────────────────────────────────────────

#[test]
fn extract_after_import_gives_written_text() {
    let bsp = bsp_with(b"{\n\"classname\" \"worldspawn\"\n}\n\0", 2);
    let src = "{\"classname\" \"worldspawn\"}\n{\n\"model\" \"*5\"\n\"classname\" \"door\"\n}\n{\n\"model\" \"*1\"\n\"classname\" \"func_wall\"\n}";
    let (bsp, dropped) = ImportSource::Text(src.into()).with(bsp).unwrap();
    assert_eq!(dropped, vec![("door".to_string(), 5usize)]);
    let text = ExtractTarget::Text.with(&bsp, false).unwrap();
    assert_eq!(
        text,
        "{\n\"classname\" \"worldspawn\"\n}\n{\n\"model\" \"*1\"\n\"classname\" \"func_wall\"\n}\n"
    );
    let ents = entities_of_bsp(&bsp).unwrap();
    assert_eq!(ents.len(), 2);
    assert_eq!(ents[1].get_model_index(), Some(1));
}

#[test]
fn entities_into_bsp_then_out() {
    let bsp = bsp_with(b"\0", 1);
    let es = vec![dict(&[("classname", "worldspawn")]), dict(&[("classname", "light"), ("spawnflags", "3")])];
    let (bsp, dropped) = entities_into_bsp(&es, bsp).unwrap();
    assert!(dropped.is_empty());
    let back = entities_of_bsp(&bsp).unwrap();
    assert_eq!(back.len(), 2);
    assert!(back[1].same_entries(&es[1]));
    assert_eq!(back[1].get_spawnflags(), Some(3));
}

#[test]
fn repair_bsp_normalises_text() {
    let bsp = bsp_with(b"{\"classname\" \"light\" \"origin\" \"0 0 0\"}\0", 1);
    let (bsp, _) = repair_bsp(bsp).unwrap();
    let text = ExtractTarget::Text.with(&bsp, false).unwrap();
    assert_eq!(text, "{\n\"classname\" \"light\"\n\"origin\" \"0 0 0\"\n}\n");
    let empty = bsp_with(b"", 1);
    assert_eq!(repair_bsp(empty).err(), Some(RipError::EmptyEntityLump));
}

#[test]
fn split_parts_hold_each_entity_once() {
    let all = "{\n\"classname\" \"worldspawn\"\n}\n{\n\"classname\" \"light\"\n}\n{\n\"model\" \"*2\"\n\"classname\" \"func_door\"\n}\n{\n}\n";
    let (p, b) = split_entities(all);
    assert_eq!(p, "{\n\"classname\" \"light\"\n}\n");
    assert_eq!(b, "{\n\"classname\" \"worldspawn\"\n}\n{\n\"model\" \"*2\"\n\"classname\" \"func_door\"\n}\n");
}

// ─── Lumps ───────────────────────────────────────────────────────────────────

#[test]
fn replace_lump_lays_lumps_out_again() {
    let mut bsp = bsp_with(b"abc", 1);
    let models = bsp.slice_lump(LumpIdx::Models).to_vec();
    assert_eq!(bsp.replace_lump(LumpIdx::Entities, b"hello world"), Ok(()));
    assert_eq!(bsp.slice_lump(LumpIdx::Entities), b"hello world");
    assert_eq!(bsp.slice_lump(LumpIdx::Models), &models[..]);
    assert_eq!(bsp.header.lumps[0].0, 124);
    assert_eq!(bsp.header.lumps[14].0, 124 + 11);
    assert_eq!(bsp.content.len(), 124 + 11 + 64);
}

#[test]
fn from_content_names_first_bad_lump() {
    let mut bytes = vec![0u8; 124];
    put_i32(&mut bytes, 0, 30);
    put_i32(&mut bytes, 4 + 3 * 8, -4);
    put_i32(&mut bytes, 4 + 5 * 8, 100);
    put_i32(&mut bytes, 8 + 5 * 8, 100);
    assert_eq!(BspFile::from_content(bytes).err(), Some(RipError::LumpOutOfBounds(3)));
}

// ─── Errors ──────────────────────────────────────────────────────────────────

#[test]
fn error_messages() {
    assert_eq!(RipError::FileSizeMismatch.to_string(), "File size doesn't match expected BSP version");
    assert_eq!(
        RipError::UnsupportedVersion(-29).to_string(),
        "Unsupported BSP version: -29. Requires BSP version: 30."
    );
    assert_eq!(RipError::LumpOutOfBounds(14).to_string(), "Lump 14 out of bounds");
    assert_eq!(RipError::BufferTooSmall.to_string(), "Buffer too small for a BSP header");
    assert_eq!(RipError::LumpTooLarge.to_string(), "Lump data too large for a BSP file");
    assert_eq!(RipError::EmptyEntityLump.to_string(), "Entity lump is empty: data size is 0");
    assert_eq!(RipError::InvalidUtf8.to_string(), "Entity lump is not valid UTF-8");
    assert_eq!(
        RipError::SingleNeedsOutputPath.to_string(),
        "ExtractTarget::Single requires an output path"
    );
    assert_eq!(
        RipError::SplitNeedsOutputPath.to_string(),
        "ExtractTarget::Split requires an output path"
    );
    assert_eq!(
        RipError::UnsupportedFileType("txt".into()).to_string(),
        "Unsupported file type 'txt'. Requires ENT/BSP."
    );
    assert!(RipError::NotAFile.to_string().contains("Unsupported file type"));
}

// ─── File kinds ──────────────────────────────────────────────────────────────

#[test]
fn file_kinds() {
    assert_eq!(FileKind::from_extension(Some("ent")), Ok(FileKind::Ent));
    assert_eq!(FileKind::from_extension(Some("entp")), Ok(FileKind::PointEnt));
    assert_eq!(FileKind::from_extension(Some("entm")), Ok(FileKind::BrushEnt));
    assert_eq!(FileKind::from_extension(Some("bsp")), Ok(FileKind::Bsp));
    assert_eq!(FileKind::from_extension(Some("BSP")), Err(RipError::UnsupportedFileType("BSP".into())));
    assert_eq!(FileKind::from_extension(None), Err(RipError::NotAFile));
    assert_eq!(FileKind::Bsp.rip_action(), RipAction::Extract);
    assert_eq!(FileKind::Ent.rip_action(), RipAction::Import);
    assert_eq!(FileKind::BrushEnt.rip_action(), RipAction::SplitImport);
    assert_eq!(FileKind::PointEnt.extension(), "entp");
    assert!(FileKind::Ent.is_entity_text());
    assert!(!FileKind::Bsp.is_entity_text());
}

#[test]
fn extensions_ignore_ascii_case() {
    assert!(has_extension(Some("BsP"), &["bsp"]));
    assert!(!has_extension(Some("bsp2"), &["bsp"]));
    assert!(!has_extension(None, &["bsp"]));
    assert!(has_extension(Some("ENTM"), &["ent", "entm"]));
}

// ─── Menu and command line ───────────────────────────────────────────────────

#[test]
fn menu_flags() {
    assert_eq!(Menu::from_flag("-e"), Some(Menu::Extract));
    assert_eq!(Menu::from_flag("-export"), Some(Menu::Extract));
    assert_eq!(Menu::from_flag("-si"), Some(Menu::SplitImport));
    assert_eq!(Menu::from_flag("-info"), Some(Menu::Stats));
    assert_eq!(Menu::from_flag("-gui"), Some(Menu::Edit));
    assert_eq!(Menu::from_flag("Close"), Some(Menu::Close));
    assert_eq!(Menu::from_flag("-H"), None);
    assert_eq!(Menu::from_flag("level.bsp"), None);
    assert_eq!(Menu::SplitExtract.name(), "SplitExtract");
    assert_eq!(Menu::variants().len(), 9);
    assert!(Menu::Repair.is_batch_action());
    assert!(!Menu::Stats.is_batch_action());
}

#[test]
fn menu_help_text() {
    let text = Menu::help_text();
    assert!(text.starts_with("\tExtract: Extract an entity list (.ent file) from a BSP file\n"));
    assert!(!text.contains("Close"));
    assert!(!text.contains("Usage Information"));
    assert_eq!(text.lines().count(), 7);
}

#[test]
fn command_line() {
    let words: Vec<String> = vec!["-e".into(), "a.bsp".into(), "-si".into(), "b.bsp".into()];
    let (flags, values) = split_args(&words);
    assert_eq!(flags, vec![Menu::Extract, Menu::SplitImport]);
    assert_eq!(values, vec!["a.bsp".to_string(), "b.bsp".to_string()]);
    assert_eq!(run_mode(&flags, true), RunMode::Batch);
    assert_eq!(batch_actions(&flags), vec![Menu::Extract, Menu::SplitImport]);
    assert_eq!(run_mode(&[Menu::Extract, Menu::Help], true), RunMode::Help);
    assert_eq!(run_mode(&[Menu::Stats, Menu::Repair], true), RunMode::Repair);
    assert_eq!(run_mode(&[], true), RunMode::Rip);
    assert_eq!(run_mode(&[], false), RunMode::Interactive);
    assert_eq!(run_mode(&[Menu::Edit], false), RunMode::Edit);
}

#[test]
fn prompt_input_cleaning() {
    assert_eq!(clean_prompt_input("  \"C:\\maps\\a.bsp\"  ", false), "C:\\maps\\a.bsp");
    assert_eq!(clean_prompt_input("'/tmp/my\\ map.bsp'", true), "/tmp/my map.bsp");
    assert_eq!(clean_prompt_input("x\\", true), "x\\");
    assert_eq!(clean_prompt_input("\"a'", false), "\"a'");
    assert_eq!(clean_prompt_input("", true), "");
}

// ─── Normalisation and reports ───────────────────────────────────────────────

#[test]
fn normalise_exact_output() {
    assert_eq!(
        normalise_entities("x{\"a\" b }{\"k\" \"v\n\"m\" \"one\" \"two\"\n"),
        "{\n\"a\" \"b\"\n}\n{\n\"k\" \"v\"\n\"m\" \"one two\"\n}\n"
    );
}

#[test]
fn report_text() {
    let bsp = bsp_with(b"{\n\"classname\" \"worldspawn\"\n}\n{\n\"model\" \"*2\"\n}\n\0", 4);
    let r = EntityReport::generate(&bsp);
    assert_eq!(r.unused_model_indices, vec![1, 3]);
    assert_eq!(
        r.to_string(),
        "  Point entities:             0\n  Brush entities:             2\n  Total entities:             2\n  Brush models in lump:       4\n\n  [Unused brush models]  2\n    model *1 exists but no entity references it\n    model *3 exists but no entity references it\n\n"
    );
    let bad = bsp_with(&[0xFF, 0xFE], 1);
    assert_eq!(EntityReport::generate(&bad).total_entities, 0);
}

// ─── Entities ────────────────────────────────────────────────────────────────

#[test]
fn spawnflags_roundtrip() {
    let mut e = dict(&[("classname", "light")]);
    e.set_spawnflags(4294967295);
    assert_eq!(e.get_spawnflags(), Some(u32::MAX));
    assert_eq!(e.get("spawnflags").unwrap(), "4294967295");
    e.set_spawnflags(0);
    assert_eq!(e.get_spawnflags(), None);
    assert!(!e.contains_key("spawnflags"));
}

#[test]
fn model_index_forms() {
    assert_eq!(dict(&[("model", "*12")]).get_model_index(), Some(12));
    assert_eq!(dict(&[("model", "*-1")]).get_model_index(), None);
    assert_eq!(dict(&[("model", "models/a.mdl")]).get_model_index(), None);
    assert_eq!(dict(&[("classname", "worldspawn"), ("model", "x")]).get_model_index(), Some(0));
    assert_eq!(dict(&[("classname", "")]).get_classname(), "<no classname>");
}

#[test]
fn kv_pairs_sorted_and_rebuilt() {
    let e = dict(&[("z", "1"), ("a", "2"), ("m", "3")]);
    let rows = e.to_kv_pairs();
    assert_eq!(
        rows,
        vec![("a".to_string(), "2".to_string()), ("m".to_string(), "3".to_string()), ("z".to_string(), "1".to_string())]
    );
    let d = EntityDictionary::from_kv_pairs(&[(" k ", "v"), ("", "dropped"), ("k", "w")]);
    assert_eq!(d.len(), 1);
    assert_eq!(d.get("k").unwrap(), "w");
    let n = EntityDictionary::new("info_target");
    assert_eq!(n.get_classname(), "info_target");
    let mut r = n.copied();
    r.remove("classname");
    assert!(r.is_empty());
    assert_eq!(n.len(), 1);
}

#[test]
fn editor_undo_after_snapshot() {
    let es = vec![dict(&[("classname", "a")]), dict(&[("classname", "b")])];
    let mut c = EditorController::new(&es);
    c.select_entity(0);
    c.push_undo();
    assert!(c.delete_entity());
    assert!(c.delete_entity());
    assert_eq!(c.entities().len(), 0);
    assert!(c.undo(""));
    assert_eq!(c.entities().len(), 1);
    assert!(c.undo(""));
    assert_eq!(c.entities().len(), 2);
}

// ─── Written text through normalise and import ──────────────────────────────

#[test]
fn normalise_written_text_adds_blank_line() {
    let es = vec![dict(&[("classname", "worldspawn"), ("wad", "a.wad")]), dict(&[("classname", "light")])];
    let txt = EntityDictionary::to_txt(&es);
    assert_eq!(
        normalise_entities(&txt),
        "{\n\n\"classname\" \"worldspawn\"\n\"wad\" \"a.wad\"\n}\n{\n\n\"classname\" \"light\"\n}\n"
    );
}

#[test]
fn import_of_written_text_reads_back_same() {
    let es = vec![
        dict(&[("classname", "worldspawn"), ("wad", "a.wad")]),
        dict(&[("classname", "func_wall"), ("model", "*1")]),
        dict(&[("classname", "func_door"), ("model", "*7")]),
        dict(&[("origin", "1 2 3"), ("classname", "light")]),
    ];
    let txt = EntityDictionary::to_txt(&es);
    let (bsp, dropped) = ImportSource::Text(txt).with(bsp_with(b"\0", 2)).unwrap();
    assert_eq!(dropped, vec![("func_door".to_string(), 7usize)]);
    let back = entities_of_bsp(&bsp).unwrap();
    assert_eq!(back.len(), 3);
    assert_eq!(back[0].pairs(), es[0].pairs());
    assert_eq!(back[1].pairs(), es[1].pairs());
    assert_eq!(back[2].pairs(), es[3].pairs());
}

#[test]
fn key_values_roundtrip_keeps_pairs() {
    let e = dict(&[("wad", "a.wad;b.wad"), ("", "empty key"), ("origin", "0 0 0"), ("k", "")]);
    let back = parse_key_values(&render_key_values(&e));
    assert!(back.same_entries(&e));
}

#[test]
fn undo_reverts_each_edit() {
    let es = vec![dict(&[("classname", "a"), ("spawnflags", "1")]), dict(&[("classname", "b")])];
    let mut c = EditorController::new(&es);
    c.select_entity(0);
    c.flag_changed(2, true);
    assert_eq!(c.entities()[0].get_spawnflags(), Some(3));
    assert!(c.undo(""));
    assert_eq!(c.entities()[0].get_spawnflags(), Some(1));
    c.select_entity(1);
    assert!(c.delete_property_row(0));
    assert!(c.entities()[1].is_empty());
    assert!(c.undo(""));
    assert_eq!(c.entities()[1].get_classname(), "b");
}

#[test]
fn import_lays_lumps_out_from_header() {
    let bsp = bsp_with(b"{\n\"classname\" \"worldspawn\"\n}\n\0", 1);
    let (bsp, _) = ImportSource::Text("{\n\"classname\" \"light\"\n}\n".into()).with(bsp).unwrap();
    let written = "{\n\"classname\" \"light\"\n}\n\0".len() as i32;
    assert_eq!((bsp.header.lumps[0].0, bsp.header.lumps[0].1), (124, written));
    for j in 1..14 {
        assert_eq!((bsp.header.lumps[j].0, bsp.header.lumps[j].1), (124 + written, 0));
    }
    assert_eq!((bsp.header.lumps[14].0, bsp.header.lumps[14].1), (124 + written, 64));
    assert_eq!(bsp.content.len(), 124 + written as usize + 64);
}

#[test]
fn rows_from_entity_rebuild_it() {
    let e = dict(&[("classname", "light"), ("origin", "1 2 3"), ("_light", "255 255 255 200")]);
    e.keys_are_distinct();
    let rows = e.to_kv_pairs();
    let refs: Vec<(&str, &str)> = rows.iter().map(|(k, v)| (k.as_str(), v.as_str())).collect();
    let back = EntityDictionary::from_kv_pairs(&refs);
    assert!(back.same_entries(&e));
    assert_eq!(back.pairs(), &rows);
}
