use turboripent::bsp::{BspFile, BspHeader, Lump, LumpIdx, HEADER_SIZE};
use turboripent::entity::{is_brush_ent, EntityDictionary};
use turboripent::error::RipError;
use turboripent::normalise::normalise_entities;
use turboripent::report::EntityReport;
use turboripent::rip::{split_entities, ExtractTarget, ImportSource};

// ─── Helpers ─────────────────────────────────────────────────────────────────

fn strip_null(data: &[u8]) -> &str {
    let d = if data.last() == Some(&0) { &data[..data.len() - 1] } else { data };
    std::str::from_utf8(d).unwrap()
}

fn put_i32(buf: &mut [u8], at: usize, v: i32) {
    buf[at..at + 4].copy_from_slice(&v.to_le_bytes());
}

fn synthetic_bsp(ent_data: &str) -> BspFile {
    let header_size: usize = 4 + 15 * 8;
    let mut bytes = vec![0u8; header_size];
    put_i32(&mut bytes, 0, 30);
    let ent_bytes = if ent_data.ends_with('\0') {
        ent_data.as_bytes().to_vec()
    } else {
        let mut b = ent_data.as_bytes().to_vec();
        b.push(0);
        b
    };
    // Two models (each 64 bytes) so *1 is a valid reference
    let model_bytes = vec![0u8; 128];
    for i in 0..15 {
        let (off, len) = if i == usize::from(LumpIdx::Entities) {
            (header_size as i32, ent_bytes.len() as i32)
        } else if i == usize::from(LumpIdx::Models) {
            ((header_size + ent_bytes.len()) as i32, model_bytes.len() as i32)
        } else {
            (0, 0)
        };
        put_i32(&mut bytes, 4 + i * 8, off);
        put_i32(&mut bytes, 8 + i * 8, len);
    }
    bytes.extend_from_slice(&ent_bytes);
    bytes.extend_from_slice(&model_bytes);
    BspFile::from_content(bytes).unwrap()
}

fn import(bsp: BspFile, src: ImportSource) -> BspFile {
    match src.with(bsp) {
        Ok((b, _)) => b,
        Err(e) => panic!("{}", e.to_string()),
    }
}

fn dict(pairs: &[(&str, &str)]) -> EntityDictionary {
    let mut d = EntityDictionary::empty();
    for (k, v) in pairs {
        d.insert(k.to_string(), v.to_string());
    }
    d
}

// ─── parse / serialise ───────────────────────────────────────────────────────

#[test]
fn test_parse_single_block() {
    let input = "{\n\"classname\" \"worldspawn\"\n\"wad\" \"test.wad\"\n}\n";
    let blocks = EntityDictionary::from_ent_txt(input);
    assert_eq!(blocks.len(), 1);
    assert_eq!(blocks[0].get("classname").unwrap(), "worldspawn");
    assert_eq!(blocks[0].get("wad").unwrap(), "test.wad");
}

#[test]
fn test_parse_multiple_blocks() {
    let input = "{\n\"classname\" \"worldspawn\"\n}\n{\n\"classname\" \"light\"\n\"origin\" \"128 128 0\"\n}\n";
    let blocks = EntityDictionary::from_ent_txt(input);
    assert_eq!(blocks.len(), 2);
    assert_eq!(blocks[0].get("classname").unwrap(), "worldspawn");
    assert_eq!(blocks[1].get("classname").unwrap(), "light");
}

#[test]
fn test_serialize_empty() {
    assert_eq!(EntityDictionary::to_txt(&[]), "");
}

#[test]
fn test_serialize_single() {
    let mut d = EntityDictionary::empty();
    d.insert("classname".into(), "info_player_deathmatch".into());
    d.insert("origin".into(), "0 0 0".into());
    let out = EntityDictionary::to_txt(&[d]);
    assert!(out.starts_with("{\n"));
    assert!(out.contains("\"classname\" \"info_player_deathmatch\""));
    assert!(out.ends_with("}\n"));
}

#[test]
fn test_serialize_parse_roundtrip() {
    let mut e1 = EntityDictionary::empty();
    e1.insert("classname".into(), "worldspawn".into());
    e1.insert("wad".into(), "test.wad".into());
    let mut e2 = EntityDictionary::empty();
    e2.insert("classname".into(), "light".into());
    e2.insert("origin".into(), "0 128 256".into());

    let serialized = EntityDictionary::to_txt(&[e1, e2]);
    let reparsed = EntityDictionary::from_ent_txt(&serialized);
    assert_eq!(reparsed.len(), 2);
    assert_eq!(reparsed[0].get("classname").unwrap(), "worldspawn");
    assert_eq!(reparsed[1].get("origin").unwrap(), "0 128 256");
}

// ─── import (in memory) ──────────────────────────────────────────────────────

#[test]
fn test_import_text_replaces_lump() {
    let old = "{\n\"classname\" \"worldspawn\"\n}\n";
    let new = "{\n\"classname\" \"light\"\n\"origin\" \"64 64 0\"\n}\n";
    let bsp = import(synthetic_bsp(old), ImportSource::Text(new.into()));
    let lump_str = strip_null(bsp.slice_lump(LumpIdx::Entities));
    assert!(lump_str.contains("\"classname\" \"light\""));
    assert!(lump_str.contains("\"origin\" \"64 64 0\""));
}

#[test]
fn test_import_adds_null_terminator() {
    let old = "{\n\"classname\" \"worldspawn\"\n}\n";
    let new = "{\n\"classname\" \"light\"\n}";
    let bsp = import(synthetic_bsp(old), ImportSource::Text(new.into()));
    let lump = bsp.slice_lump(LumpIdx::Entities);
    assert_eq!(lump.last(), Some(&0), "entity lump must end with null byte");
}

#[test]
fn test_import_split_combines() {
    let old = "{\n\"classname\" \"worldspawn\"\n}\n";
    let point = "{\n\"classname\" \"info_player_deathmatch\"\n\"origin\" \"0 0 0\"\n}\n";
    let brush = "{\n\"model\" \"*1\"\n\"classname\" \"func_wall\"\n}\n";
    let bsp = import(synthetic_bsp(old), ImportSource::Split(point.into(), brush.into()));
    let lump_str = strip_null(bsp.slice_lump(LumpIdx::Entities));
    assert!(lump_str.contains("info_player_deathmatch"));
    assert!(lump_str.contains("func_wall"));
}

#[test]
fn test_import_text_with_existing_null() {
    let old = "{\n\"classname\" \"worldspawn\"\n}\n";
    let new = "{\n\"classname\" \"light\"\n}\n\0";
    let bsp = import(synthetic_bsp(old), ImportSource::Text(new.into()));
    let lump = bsp.slice_lump(LumpIdx::Entities);
    assert_eq!(lump.last(), Some(&0), "must end with null");
    assert_eq!(lump.iter().filter(|&&b| b == 0).count(), 1, "no double null");
}

#[test]
fn test_import_empty_text() {
    let old = "{\n\"classname\" \"worldspawn\"\n}\n";
    let bsp = import(synthetic_bsp(old), ImportSource::Text(String::new()));
    let lump = bsp.slice_lump(LumpIdx::Entities);
    assert_eq!(lump, &[0u8], "empty text should produce single null byte");
}

#[test]
fn test_import_all_entities_filtered() {
    let bad = "{\n\"classname\" \"bad\"\n\"model\" \"*999\"\n}\n";
    let bsp = import(synthetic_bsp("{\n\"classname\" \"worldspawn\"\n}\n"), ImportSource::Text(bad.into()));
    let lump = bsp.slice_lump(LumpIdx::Entities);
    assert_eq!(lump, &[0u8], "all entities filtered should produce single null byte");
}

#[test]
fn test_import_discards_bad_model_ref() {
    let bad = "{\n\"classname\" \"worldspawn\"\n}\n{\n\"model\" \"*999\"\n\"classname\" \"bad\"\n}\n";
    let (bsp, dropped) = ImportSource::Text(bad.into())
        .with(synthetic_bsp("{\n\"classname\" \"worldspawn\"\n}\n"))
        .unwrap();
    let text = strip_null(bsp.slice_lump(LumpIdx::Entities));
    assert!(!text.contains("*999"));
    assert_eq!(dropped, vec![("bad".to_string(), 999usize)]);
}

#[test]
fn import_keeps_other_lumps() {
    let bsp = synthetic_bsp("{\n\"classname\" \"worldspawn\"\n}\n");
    let models_before = bsp.slice_lump(LumpIdx::Models).to_vec();
    let bsp = import(bsp, ImportSource::Single("{\n\"classname\" \"light\"\n}\n".into()));
    assert_eq!(bsp.slice_lump(LumpIdx::Models), &models_before[..]);
    let reread = BspFile::from_content(bsp.content.clone()).unwrap();
    assert_eq!(strip_null(reread.slice_lump(LumpIdx::Entities)), "{\n\"classname\" \"light\"\n}\n");
}

// ─── BSP header validation ───────────────────────────────────────────────────

#[test]
fn test_load_bsp_version_29() {
    let mut buf = vec![0u8; 124];
    put_i32(&mut buf, 0, 29);
    match BspFile::from_content(buf) {
        Err(e) => assert!(e.to_string().contains("Unsupported BSP version")),
        Ok(_) => panic!("expected error for version 29"),
    }
}

#[test]
fn test_load_bsp_version_zero() {
    match BspFile::from_content(vec![0u8; 124]) {
        Err(e) => assert!(e.to_string().contains("Unsupported BSP version")),
        Ok(_) => panic!("expected error for version 0"),
    }
}

#[test]
fn test_load_bsp_truncated() {
    match BspFile::from_content(vec![0u8; 100]) {
        Err(e) => assert!(e.to_string().contains("doesn't match") || e.to_string().contains("size")),
        Ok(_) => panic!("expected error for truncated file"),
    }
}

#[test]
fn test_load_bsp_lump_out_of_bounds() {
    let mut buf = vec![0u8; 200];
    put_i32(&mut buf, 0, 30);
    put_i32(&mut buf, 4, 124);
    put_i32(&mut buf, 8, 999_999);
    match BspFile::from_content(buf) {
        Err(e) => {
            assert!(e.to_string().contains("out of bounds"));
            assert_eq!(e, RipError::LumpOutOfBounds(0));
        }
        Ok(_) => panic!("expected error for OOB lump"),
    }
}

// ─── entity text parsing edge cases ──────────────────────────────────────────

#[test]
fn test_parse_braces_in_quoted_values() {
    let input = "{\n\"classname\" \"worldspawn\"\n}\n{\n\"sounds\" \"{CRACK1\"\n\"classname\" \"light\"\n}\n";
    let blocks = EntityDictionary::from_ent_txt(input);
    assert!(blocks.iter().any(|d| d.get("classname").map(|s| s.as_str()) == Some("worldspawn")));
}

#[test]
fn test_parse_no_braces() {
    let input = "\"classname\" \"worldspawn\"\n\"wad\" \"test.wad\"\n";
    let blocks = EntityDictionary::from_ent_txt(input);
    assert!(blocks.is_empty());
}

#[test]
fn test_parse_trailing_garbage() {
    let input = "{\n\"classname\" \"worldspawn\"\n}\nsome trailing junk";
    let blocks = EntityDictionary::from_ent_txt(input);
    assert_eq!(blocks.len(), 1);
    assert_eq!(blocks[0].get("classname").unwrap(), "worldspawn");
}

#[test]
fn test_parse_duplicate_keys() {
    let input = "{\n\"classname\" \"worldspawn\"\n\"classname\" \"overwritten\"\n}\n";
    let blocks = EntityDictionary::from_ent_txt(input);
    assert_eq!(blocks.len(), 1);
    assert_eq!(blocks[0].get("classname").unwrap(), "overwritten");
}

#[test]
fn test_parse_odd_number_of_quotes() {
    let input = "{\n\"classname\" \"worldspawn\"\n\"orphan\n}\n";
    let blocks = EntityDictionary::from_ent_txt(input);
    assert_eq!(blocks.len(), 1);
    assert_eq!(blocks[0].get("classname").unwrap(), "worldspawn");
    assert_eq!(blocks[0].len(), 1, "only classname should be present");
}

// ─── extract (in memory) ─────────────────────────────────────────────────────

fn empty_entity_lump_bsp() -> BspFile {
    let mut buf = vec![0u8; 124];
    put_i32(&mut buf, 0, 30);
    BspFile::from_content(buf).unwrap()
}

#[test]
fn test_extract_empty_lump() {
    let bsp = empty_entity_lump_bsp();
    let result = ExtractTarget::Single.with(&bsp, true);
    assert!(result.is_err());
    assert!(result.unwrap_err().to_string().contains("data size is 0"));
}

#[test]
fn test_extract_entity_lump_non_utf8() {
    let header_size = 4 + 15 * 8;
    let mut bytes = vec![0u8; header_size + 10];
    put_i32(&mut bytes, 0, 30);
    put_i32(&mut bytes, 4, header_size as i32);
    put_i32(&mut bytes, 8, 10);
    bytes[header_size..].copy_from_slice(&[0xFF, 0xFE, 0x00, 0x01, 0x02, 0x03, 0x04, 0x05, 0x06, 0x07]);
    let bsp = BspFile::from_content(bytes).unwrap();
    let result = ExtractTarget::Single.with(&bsp, true);
    assert!(result.is_err());
    assert_eq!(result.unwrap_err(), RipError::InvalidUtf8);
}

#[test]
fn test_extract_split_all_point() {
    let entities = "{\n\"classname\" \"worldspawn\"\n\"wad\" \"test.wad\"\n}\n{\n\"classname\" \"light\"\n\"origin\" \"0 0 0\"\n}\n";
    let bsp = synthetic_bsp(entities);
    let all = ExtractTarget::Split.with(&bsp, true).unwrap();
    let (point_text, brush_text) = split_entities(&all);
    assert!(!point_text.contains("worldspawn"));
    assert!(point_text.contains("light"));
    assert!(brush_text.contains("worldspawn"));
    assert!(!brush_text.contains("light"));
}

#[test]
fn test_extract_split_only_point_plus_worldspawn() {
    let entities = "{\n\"classname\" \"worldspawn\"\n\"wad\" \"test.wad\"\n}\n{\n\"classname\" \"light\"\n\"origin\" \"0 0 0\"\n}\n{\n\"classname\" \"info_player_deathmatch\"\n\"origin\" \"128 128 0\"\n}\n";
    let bsp = synthetic_bsp(entities);
    let all = ExtractTarget::Split.with(&bsp, true).unwrap();
    let (point_text, brush_text) = split_entities(&all);
    assert!(point_text.contains("light"));
    assert!(point_text.contains("info_player_deathmatch"));
    assert!(!point_text.contains("worldspawn"));
    assert!(brush_text.contains("worldspawn"));
    assert!(!brush_text.contains("light"));
    assert!(!brush_text.contains("info_player_deathmatch"));
}

#[test]
fn extract_needs_output_path() {
    let bsp = synthetic_bsp("{\n\"classname\" \"worldspawn\"\n}\n");
    assert_eq!(ExtractTarget::Single.with(&bsp, false).unwrap_err(), RipError::SingleNeedsOutputPath);
    assert_eq!(ExtractTarget::Split.with(&bsp, false).unwrap_err(), RipError::SplitNeedsOutputPath);
    assert_eq!(ExtractTarget::Text.with(&bsp, false).unwrap(), "{\n\"classname\" \"worldspawn\"\n}\n");
}

// ─── normalise_entities ──────────────────────────────────────────────────────

#[test]
fn test_validate_missing_trailing_quote() {
    let input = "{\n\"origin\" \"128 64 256\n}\n";
    let fixed = normalise_entities(input);
    let blocks = EntityDictionary::from_ent_txt(&fixed);
    assert_eq!(blocks[0].get("origin").unwrap(), "128 64 256");
}

#[test]
fn test_validate_inner_quotes() {
    let input = "{\n\"message\" \"He said \"hello\"\"\n}\n";
    let fixed = normalise_entities(input);
    let blocks = EntityDictionary::from_ent_txt(&fixed);
    assert!(!blocks[0].get("message").unwrap().contains('"'));
}

#[test]
fn test_validate_outside_braces_stripped() {
    let input = "junk\n{\n\"classname\" \"worldspawn\"\n}\ntrash\n";
    let fixed = normalise_entities(input);
    let blocks = EntityDictionary::from_ent_txt(&fixed);
    assert_eq!(blocks.len(), 1);
}

#[test]
fn test_validate_tight_packing() {
    let input = "{\n\"classname\" \"worldspawn\"\n}{\n\"classname\" \"light\"\n}\n";
    let fixed = normalise_entities(input);
    let blocks = EntityDictionary::from_ent_txt(&fixed);
    assert_eq!(blocks.len(), 2);
}

#[test]
fn test_validate_single_line_block() {
    let input = "{\"classname\" \"light\" \"origin\" \"0 0 0\"}\n";
    let fixed = normalise_entities(input);
    let blocks = EntityDictionary::from_ent_txt(&fixed);
    assert_eq!(blocks.len(), 1);
    assert_eq!(blocks[0].get("classname").unwrap(), "light");
}

#[test]
fn test_validate_dangling_brace() {
    let input = "{\n\"classname\" \"worldspawn\"\n";
    let fixed = normalise_entities(input);
    let blocks = EntityDictionary::from_ent_txt(&fixed);
    assert_eq!(blocks.len(), 1);
    assert_eq!(blocks[0].get("classname").unwrap(), "worldspawn");
}

#[test]
fn test_validate_crlf() {
    let input = "{\r\n\"classname\" \"worldspawn\"\r\n}\r\n";
    let fixed = normalise_entities(input);
    let blocks = EntityDictionary::from_ent_txt(&fixed);
    assert_eq!(blocks.len(), 1);
    assert_eq!(blocks[0].get("classname").unwrap(), "worldspawn");
}

#[test]
fn test_normalise_empty_input() {
    assert_eq!(normalise_entities(""), "");
}

#[test]
fn test_normalise_negative_depth() {
    let result = normalise_entities("}\n}\n}\n");
    assert!(!result.is_empty());
}

// ─── is_brush_ent ────────────────────────────────────────────────────────────

#[test]
fn test_is_brush_ent_worldspawn() {
    let d = dict(&[("classname", "worldspawn")]);
    assert!(is_brush_ent(&d));
}

#[test]
fn test_is_brush_ent_model_star_valid() {
    let d = dict(&[("classname", "func_wall"), ("model", "*1")]);
    assert!(is_brush_ent(&d));
}

#[test]
fn test_is_brush_ent_point_entity() {
    let d = dict(&[("classname", "light"), ("origin", "0 0 0")]);
    assert!(!is_brush_ent(&d));
}

#[test]
fn test_is_brush_ent_empty_dict() {
    assert!(!is_brush_ent(&EntityDictionary::empty()));
}

#[test]
fn test_is_brush_ent_model_star_alone() {
    let d = dict(&[("model", "*")]);
    assert!(!is_brush_ent(&d));
}

#[test]
fn test_is_brush_ent_no_relevant_keys() {
    let d = dict(&[("origin", "0 0 0")]);
    assert!(!is_brush_ent(&d));
}

// ─── Lump ────────────────────────────────────────────────────────────────────

#[test]
fn test_lump_range_normal() {
    let l = Lump(100, 50);
    assert_eq!(l.range(), 100..150);
}

#[test]
fn test_lump_range_zero_length() {
    let l = Lump(100, 0);
    assert_eq!(l.range(), 100..100);
}

#[test]
fn test_lump_length() {
    let l = Lump(10, 42);
    assert_eq!(l.length(), 42);
}

// ─── BspHeader::from_bytes ───────────────────────────────────────────────────

#[test]
fn test_header_from_bytes_valid() {
    let mut buf = vec![0u8; 4 + 15 * 8];
    buf[..4].copy_from_slice(&30i32.to_le_bytes());
    let header = BspHeader::from_bytes(&buf).unwrap();
    assert_eq!(header.version, 30);
    assert_eq!(header.lumps[0].0, 0);
}

#[test]
fn test_header_from_bytes_empty_input() {
    let result = BspHeader::from_bytes(&[]);
    assert!(result.is_err());
    assert!(result.unwrap_err().to_string().contains("File size doesn't match"));
}

#[test]
fn test_header_from_bytes_wrong_version() {
    let buf = vec![0u8; 4 + 15 * 8];
    let result = BspHeader::from_bytes(&buf);
    assert!(result.is_err());
    assert!(result.unwrap_err().to_string().contains("Unsupported BSP version"));
}

#[test]
fn test_header_from_bytes_negative_lump_values() {
    let mut buf = vec![0u8; 4 + 15 * 8];
    buf[..4].copy_from_slice(&30i32.to_le_bytes());
    buf[4..8].copy_from_slice(&(-1i32).to_le_bytes());
    buf[8..12].copy_from_slice(&100i32.to_le_bytes());
    let header = BspHeader::from_bytes(&buf).unwrap();
    assert_eq!(header.lumps[0].0, -1);
    assert_eq!(header.lumps[0].1, 100);
}

#[test]
fn header_bytes_roundtrip() {
    let mut buf = vec![0u8; HEADER_SIZE];
    put_i32(&mut buf, 0, 30);
    put_i32(&mut buf, 4, 124);
    put_i32(&mut buf, 8, 7);
    put_i32(&mut buf, 116, -5);
    let header = BspHeader::from_bytes(&buf).unwrap();
    assert_eq!(header.to_bytes(), buf);
    let mut small = vec![9u8; 10];
    assert_eq!(header.write_to(&mut small), Err(RipError::BufferTooSmall));
    assert_eq!(&small[..], &buf[..10]);
    let mut big = vec![9u8; HEADER_SIZE + 2];
    assert_eq!(header.write_to(&mut big), Ok(()));
    assert_eq!(&big[..HEADER_SIZE], &buf[..]);
    assert_eq!(&big[HEADER_SIZE..], &[9u8, 9u8]);
}

// ─── EntityReport ────────────────────────────────────────────────────────────

fn make_bsp_for_report(ent_text: &str, model_count: usize) -> BspFile {
    let header_size = 4 + 15 * 8;
    let mut ent_bytes = ent_text.as_bytes().to_vec();
    if !ent_bytes.is_empty() && ent_bytes.last() != Some(&0) {
        ent_bytes.push(0);
    }
    let model_bytes = vec![0u8; model_count * 64];
    let content_len = header_size + ent_bytes.len() + model_bytes.len();
    let mut content = vec![0u8; content_len];
    content[..4].copy_from_slice(&30i32.to_le_bytes());
    let mut lumps = [Lump(0, 0); 15];
    lumps[usize::from(LumpIdx::Entities)] = Lump(header_size as i32, ent_bytes.len() as i32);
    lumps[usize::from(LumpIdx::Models)] =
        Lump((header_size + ent_bytes.len()) as i32, model_bytes.len() as i32);
    for i in 0..15 {
        let offset = 4 + i * 8;
        content[offset..offset + 4].copy_from_slice(&lumps[i].0.to_le_bytes());
        content[offset + 4..offset + 8].copy_from_slice(&lumps[i].1.to_le_bytes());
    }
    content[header_size..header_size + ent_bytes.len()].copy_from_slice(&ent_bytes);
    BspFile::from_content(content).unwrap()
}

#[test]
fn test_entity_report_generate_basic() {
    let entities = "{\n\"classname\" \"worldspawn\"\n}\n{\n\"classname\" \"light\"\n\"origin\" \"0 0 0\"\n}\n";
    let bsp = make_bsp_for_report(entities, 1);
    let report = EntityReport::generate(&bsp);
    assert_eq!(report.total_entities, 2);
    assert_eq!(report.point_entities, 1);
    assert_eq!(report.brush_entities, 1);
    assert_eq!(report.total_brush_models, 1);
    assert!(report.unused_model_indices.is_empty());
}

#[test]
fn test_entity_report_unused_model_indices() {
    let entities = "{\n\"classname\" \"worldspawn\"\n}\n{\n\"classname\" \"func_wall\"\n\"model\" \"*1\"\n}\n";
    let bsp = make_bsp_for_report(entities, 3);
    let report = EntityReport::generate(&bsp);
    assert_eq!(report.total_entities, 2);
    assert_eq!(report.total_brush_models, 3);
    assert_eq!(report.unused_model_indices, vec![2]);
}

#[test]
fn test_entity_report_no_unused_models() {
    let entities = "{\n\"classname\" \"worldspawn\"\n}\n{\n\"classname\" \"func_wall\"\n\"model\" \"*1\"\n}\n";
    let bsp = make_bsp_for_report(entities, 2);
    let report = EntityReport::generate(&bsp);
    assert_eq!(report.total_entities, 2);
    assert_eq!(report.total_brush_models, 2);
    assert!(report.unused_model_indices.is_empty());
}

#[test]
fn test_entity_report_display_none() {
    let entities = "{\n\"classname\" \"worldspawn\"\n}\n";
    let bsp = make_bsp_for_report(entities, 1);
    let report = EntityReport::generate(&bsp);
    let out = report.to_string();
    assert!(out.contains("(none)"));
}

#[test]
fn test_entity_report_display_some() {
    let entities = "{\n\"classname\" \"worldspawn\"\n}\n";
    let bsp = make_bsp_for_report(entities, 3);
    let report = EntityReport::generate(&bsp);
    let out = report.to_string();
    assert!(out.contains("model *1 exists"));
    assert!(out.contains("model *2 exists"));
}

// ─── repair and import sources (in memory) ──────────────────────────────────

#[test]
fn test_repair_ent_file() {
    let malformed = "{\"classname\" \"light\" \"origin\" \"0 0 0\"}\n";
    let fixed = normalise_entities(malformed);
    assert!(fixed.contains("{\n"));
    assert!(fixed.contains("\"classname\" \"light\""));
}

#[test]
fn test_repair_unsupported_extension() {
    let result = turboripent::rip::FileKind::from_extension(Some("txt"));
    assert!(result.is_err());
    assert!(result.unwrap_err().to_string().contains("Unsupported file type"));
}

#[test]
fn test_repair_no_extension() {
    let result = turboripent::rip::FileKind::from_extension(None);
    assert!(result.is_err());
    assert!(result.unwrap_err().to_string().contains("Unsupported file type"));
}

#[test]
fn test_import_source_file() {
    let old = "{\n\"classname\" \"worldspawn\"\n}\n";
    let new = "{\n\"classname\" \"light\"\n\"origin\" \"64 64 0\"\n}\n";
    let bsp = import(synthetic_bsp(old), ImportSource::Single(new.into()));
    let lump_str = strip_null(bsp.slice_lump(LumpIdx::Entities));
    assert!(lump_str.contains("\"classname\" \"light\""));
}
