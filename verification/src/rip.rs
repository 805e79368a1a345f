//! Taking the entity text out of a BSP file and putting it back in, and the
//! file kinds the tool works on.

use vstd::prelude::*;
use vstd::slice::slice_subrange;
use vstd::utf8::{valid_utf8, decode_utf8, encode_utf8};
use crate::bsp::{BspFile, LumpIdx, MODEL_SIZE, LUMP_COUNT, new_offset, new_len};
use crate::entity::{EntityDictionary, Entry, model_index_of, classname_of, distinct_keys};
use crate::ent::{
    parse_entities,
    entities_text,
    entity_text,
    entries_text,
    dict_views,
    nonempty_entities,
    clean_entries,
    lemma_parsed_clean,
    law_text_roundtrip,
    lemma_blocks_roundtrip,
    clean_text,
};
use crate::normalise::{normalised, normalise_entities, line_safe_entries, spaced, law_normalise_written};
use crate::error::RipError;
use crate::text::{str_chars, string_from_chars, push_str, chars_eq};

verus! {

broadcast use vstd::string::group_string_axioms, vstd::slice::group_slice_axioms;

/// Calls `std::str::from_utf8`: it succeeds exactly when the bytes are valid
/// UTF-8, and the text it then gives is the one the bytes encode.
#[verifier::external_body]
pub(crate) fn utf8_str(bytes: &[u8]) -> (r: Option<&str>)
    ensures
        r is Some <==> valid_utf8(bytes@),
        r matches Some(s) ==> s@ == decode_utf8(bytes@),
{
    std::str::from_utf8(bytes).ok()
}

// ---------------------------------------------------------------------------
// Extraction
// ---------------------------------------------------------------------------

/// The bytes of an entity lump less its one closing NUL byte, where it has
/// one.
pub open spec fn lump_text_bytes(data: Seq<u8>) -> Seq<u8> {
    if data.len() > 0 && data.last() == 0 {
        data.drop_last()
    } else {
        data
    }
}

/// The entity text an entity lump holds: an error for an empty lump or for
/// bytes that are not UTF-8.
pub open spec fn lump_text(data: Seq<u8>) -> Result<Seq<char>, RipError> {
    if data.len() == 0 {
        Err(RipError::EmptyEntityLump)
    } else if !valid_utf8(lump_text_bytes(data)) {
        Err(RipError::InvalidUtf8)
    } else {
        Ok(decode_utf8(lump_text_bytes(data)))
    }
}

/// Whether an entity uses a brush model (the world does).
pub open spec fn is_brush(e: Seq<Entry>) -> bool {
    model_index_of(e) is Some
}

/// The entities that use a brush model (`brush`) or that do not, in order.
pub open spec fn select(es: Seq<Seq<Entry>>, brush: bool) -> Seq<Seq<Entry>>
    decreases es.len(),
{
    if es.len() == 0 {
        Seq::empty()
    } else {
        let prev = select(es.drop_last(), brush);
        if is_brush(es.last()) == brush {
            prev.push(es.last())
        } else {
            prev
        }
    }
}

proof fn lemma_entities_text_push(es: Seq<Seq<Entry>>, e: Seq<Entry>)
    ensures
        entities_text(es.push(e)) == entities_text(es) + entity_text(e),
{
    assert(es.push(e).drop_last() =~= es);
}

proof fn lemma_entities_text_one(e: Seq<Entry>)
    ensures
        entities_text(seq![e]) == entity_text(e),
{
    lemma_entities_text_push(Seq::empty(), e);
    assert(Seq::<Seq<Entry>>::empty().push(e) =~= seq![e]);
    assert(entities_text(Seq::<Seq<Entry>>::empty()) =~= Seq::<char>::empty());
}

/// Where extracted entity text goes.
#[derive(Debug, Clone, Copy, PartialEq, Eq, Structural)]
pub enum ExtractTarget {
    /// Only handed back.
    Text,
    /// Also written to one `.ent` file.
    Single,
    /// Also written as `.entp` (point entities) and `.entm` (brush
    /// entities) files.
    Split,
}

impl ExtractTarget {
    /// The entity text of a BSP file: the entity lump less its closing NUL
    /// byte, read as UTF-8. Writing to a file, which `Single` and `Split`
    /// do, needs an output path.
    pub fn with(&self, bsp: &BspFile, has_output_path: bool) -> (r: Result<String, RipError>)
        requires
            bsp.wf(),
        ensures
            match lump_text(bsp.lump_data(LumpIdx::Entities.pos())) {
                Err(e) => r == Err::<String, RipError>(e),
                Ok(t) => if *self == ExtractTarget::Single && !has_output_path {
                    r == Err::<String, RipError>(RipError::SingleNeedsOutputPath)
                } else if *self == ExtractTarget::Split && !has_output_path {
                    r == Err::<String, RipError>(RipError::SplitNeedsOutputPath)
                } else {
                    r matches Ok(s) && s@ == t
                },
            },
    {
        let data = bsp.slice_lump(LumpIdx::Entities);
        if data.len() == 0 {
            return Err(RipError::EmptyEntityLump);
        }
        let body: &[u8] = if data[data.len() - 1] == 0 {
            slice_subrange(data, 0, data.len() - 1)
        } else {
            data
        };
        assert(body@ == lump_text_bytes(data@));
        let text = match utf8_str(body) {
            Some(s) => s.to_owned(),
            None => {
                return Err(RipError::InvalidUtf8);
            },
        };
        match self {
            ExtractTarget::Text => Ok(text),
            ExtractTarget::Single => {
                if !has_output_path {
                    Err(RipError::SingleNeedsOutputPath)
                } else {
                    Ok(text)
                }
            },
            ExtractTarget::Split => {
                if !has_output_path {
                    Err(RipError::SplitNeedsOutputPath)
                } else {
                    Ok(text)
                }
            },
        }
    }
}

/// Parts an entity text into the text of its point entities and that of its
/// brush entities (the world among them), each entity as one block, in
/// order.
pub fn split_entities(all_ents: &str) -> (r: (String, String))
    ensures
        r.0@ == entities_text(select(parse_entities(all_ents@), false)),
        r.1@ == entities_text(select(parse_entities(all_ents@), true)),
{
    let ents = EntityDictionary::make_iter(all_ents);
    let ghost es = dict_views(ents@);
    let mut point: Vec<char> = Vec::new();
    let mut brush: Vec<char> = Vec::new();
    let mut i: usize = 0;
    assert(es.take(0) =~= Seq::<Seq<Entry>>::empty());
    while i < ents.len()
        invariant
            0 <= i <= ents@.len(),
            es == dict_views(ents@),
            es == parse_entities(all_ents@),
            point@ == entities_text(select(es.take(i as int), false)),
            brush@ == entities_text(select(es.take(i as int), true)),
        decreases ents@.len() - i,
    {
        let ghost t = es.take(i + 1);
        assert(t.drop_last() =~= es.take(i as int));
        assert(t.last() == ents@[i as int]@);
        let is_b = ents[i].get_model_index().is_some();
        let line = EntityDictionary::to_txt(slice_subrange(ents.as_slice(), i, i + 1));
        assert(dict_views(ents@.subrange(i as int, i + 1)) =~= seq![ents@[i as int]@]);
        proof {
            lemma_entities_text_one(ents@[i as int]@);
            lemma_entities_text_push(select(es.take(i as int), true), ents@[i as int]@);
            lemma_entities_text_push(select(es.take(i as int), false), ents@[i as int]@);
        }
        if is_b {
            push_str(&mut brush, line.as_str());
        } else {
            push_str(&mut point, line.as_str());
        }
        i = i + 1;
    }
    assert(es.take(es.len() as int) =~= es);
    (string_from_chars(point.as_slice()), string_from_chars(brush.as_slice()))
}

// ---------------------------------------------------------------------------
// Import
// ---------------------------------------------------------------------------

/// Whether an entity may stay in a file with `models` brush models: a point
/// entity, the world, or one whose model exists.
pub open spec fn keeps(e: Seq<Entry>, models: nat) -> bool {
    match model_index_of(e) {
        None => true,
        Some(i) => i == 0 || i < models,
    }
}

/// The entities that may stay in a file with `models` brush models, in
/// order.
pub open spec fn kept_entities(es: Seq<Seq<Entry>>, models: nat) -> Seq<Seq<Entry>>
    decreases es.len(),
{
    if es.len() == 0 {
        Seq::empty()
    } else {
        let prev = kept_entities(es.drop_last(), models);
        if keeps(es.last(), models) {
            prev.push(es.last())
        } else {
            prev
        }
    }
}

/// The class name and the missing model of each entity that may not stay,
/// in order.
pub open spec fn discarded(es: Seq<Seq<Entry>>, models: nat) -> Seq<(Seq<char>, nat)>
    decreases es.len(),
{
    if es.len() == 0 {
        Seq::empty()
    } else {
        let prev = discarded(es.drop_last(), models);
        if keeps(es.last(), models) {
            prev
        } else {
            prev.push((classname_of(es.last()), model_index_of(es.last()).unwrap()))
        }
    }
}

/// The character sequences and numbers of a list of discarded entities.
pub open spec fn discard_views(v: Seq<(String, usize)>) -> Seq<(Seq<char>, nat)> {
    v.map_values(|p: (String, usize)| (p.0@, p.1 as nat))
}

/// Number of brush models in a BSP file.
pub open spec fn model_count(b: BspFile) -> nat {
    b.lump_data(LumpIdx::Models.pos()).len() / (MODEL_SIZE as nat)
}

/// `t` closed with a NUL character, unless it already ends with one.
pub open spec fn with_nul(t: Seq<char>) -> Seq<char> {
    if t.len() > 0 && t.last() == '\0' {
        t
    } else {
        t.push('\0')
    }
}

/// The entity text an import writes: the source normalised and read, the
/// entities whose model is missing left out, the rest written as blocks and
/// closed with a NUL character.
pub open spec fn imported_text(src: Seq<char>, models: nat) -> Seq<char> {
    with_nul(entities_text(kept_entities(parse_entities(normalised(src)), models)))
}

/// Leaves out the entities whose brush model a file with `models` models
/// lacks, and hands back the class name and model of each one left out.
fn strip_invalid_brushents(entities: &mut Vec<EntityDictionary>, models: usize) -> (r: Vec<
    (String, usize),
>)
    ensures
        dict_views(final(entities)@) == kept_entities(dict_views(old(entities)@), models as nat),
        discard_views(r@) == discarded(dict_views(old(entities)@), models as nat),
{
    let mut rest: Vec<EntityDictionary> = Vec::new();
    std::mem::swap(&mut rest, entities);
    let ghost all = dict_views(rest@);
    let ghost n = rest@.len() as int;
    let mut dropped: Vec<(String, usize)> = Vec::new();
    assert(all.take(0) =~= Seq::<Seq<Entry>>::empty());
    assert(dict_views(entities@) =~= Seq::<Seq<Entry>>::empty());
    assert(dict_views(rest@) =~= all.skip(0));
    while rest.len() > 0
        invariant
            n == all.len(),
            rest@.len() <= n,
            dict_views(rest@) == all.skip(n - rest@.len()),
            dict_views(entities@) == kept_entities(all.take(n - rest@.len()), models as nat),
            discard_views(dropped@) == discarded(all.take(n - rest@.len()), models as nat),
        decreases rest@.len(),
    {
        let ghost k = n - rest@.len();
        let ghost before_rest = rest@;
        let e = rest.remove(0);
        assert(dict_views(before_rest)[0] == all.skip(k)[0]);
        assert(e@ == all[k]);
        assert(dict_views(rest@) =~= all.skip(k + 1)) by {
            assert(dict_views(rest@) =~= dict_views(before_rest).drop_first());
        }
        let ghost t = all.take(k + 1);
        assert(t.drop_last() =~= all.take(k));
        assert(t.last() == e@);
        let idx = e.get_model_index();
        let keep = match idx {
            None => true,
            Some(i) => i == 0 || i < models,
        };
        if keep {
            let ghost before = dict_views(entities@);
            entities.push(e);
            assert(dict_views(entities@) =~= before.push(e@));
        } else {
            let ghost before = discard_views(dropped@);
            let name = e.get_classname().to_owned();
            let i = match idx {
                Some(i) => i,
                None => 0,
            };
            dropped.push((name, i));
            assert(discard_views(dropped@) =~= before.push((classname_of(e@), i as nat)));
        }
    }
    assert(all.take(n) =~= all);
    dropped
}

/// Where imported entity text comes from: given text, the text of one
/// `.ent` file, or the texts of an `.entp` (point entities) and an `.entm`
/// (brush entities) file.
pub enum ImportSource {
    Text(String),
    Single(String),
    Split(String, String),
}

/// The entity text an import source gives: the two texts of a split source
/// are joined with a line feed.
pub open spec fn source_text(src: ImportSource) -> Seq<char> {
    match src {
        ImportSource::Text(t) => t@,
        ImportSource::Single(t) => t@,
        ImportSource::Split(p, b) => p@ + seq!['\n'] + b@,
    }
}

/// `r` is what importing the entity text `src` into `bsp` gives: the file
/// with `imported_text` as its entity lump and every other lump as it was,
/// all lumps laid out again in index order right after the header, and the
/// entities left out; or an error when the rebuilt file would be too large
/// for its offsets.
pub open spec fn imports(
    bsp: BspFile,
    src: Seq<char>,
    r: Result<(BspFile, Vec<(String, usize)>), RipError>,
) -> bool {
    let models = model_count(bsp);
    let bytes = encode_utf8(imported_text(src, models));
    &&& (r is Ok <==> new_offset(
        bsp.header,
        LumpIdx::Entities.pos(),
        bytes.len() as int,
        LUMP_COUNT as int,
    ) <= i32::MAX)
    &&& (r is Err ==> r == Err::<(BspFile, Vec<(String, usize)>), RipError>(
        RipError::LumpTooLarge,
    ))
    &&& (r matches Ok((b, d)) ==> {
        &&& b.wf()
        &&& b.header.version == bsp.header.version
        &&& b.content@.len() == new_offset(
            bsp.header,
            LumpIdx::Entities.pos(),
            bytes.len() as int,
            LUMP_COUNT as int,
        )
        &&& forall|j: int|
            0 <= j < LUMP_COUNT ==> (#[trigger] b.header.lumps@[j]).0 == new_offset(
                bsp.header,
                LumpIdx::Entities.pos(),
                bytes.len() as int,
                j,
            ) && b.header.lumps@[j].1 == new_len(
                bsp.header,
                LumpIdx::Entities.pos(),
                bytes.len() as int,
                j,
            )
        &&& b.lump_data(LumpIdx::Entities.pos()) == bytes
        &&& forall|j: int| 0 < j < LUMP_COUNT ==> #[trigger] b.lump_data(j) == bsp.lump_data(j)
        &&& discard_views(d@) == discarded(parse_entities(normalised(src)), models)
    })
}

impl ImportSource {
    /// Puts the entity text of the source into a BSP file in place of its
    /// entity lump: the text is normalised and read, entities that use a
    /// brush model the file lacks are left out (and listed with their
    /// class name and model), the rest are written as blocks, closed with a
    /// NUL character. Fails when the rebuilt file would be too large for
    /// its offsets.
    pub fn with(self, bsp: BspFile) -> (r: Result<(BspFile, Vec<(String, usize)>), RipError>)
        requires
            bsp.wf(),
        ensures
            imports(bsp, source_text(self), r),
    {
        let ghost src = source_text(self);
        let ent_txt: String = match self {
            ImportSource::Text(t) => t,
            ImportSource::Single(t) => t,
            ImportSource::Split(p, b) => {
                let mut c = str_chars(p.as_str());
                c.push('\n');
                push_str(&mut c, b.as_str());
                string_from_chars(c.as_slice())
            },
        };
        assert(ent_txt@ == src);
        let fixed = normalise_entities(ent_txt.as_str());
        let mut entities = EntityDictionary::from_ent_txt(fixed.as_str());
        let models = bsp.slice_lump(LumpIdx::Models).len() / MODEL_SIZE;
        let dropped = strip_invalid_brushents(&mut entities, models);
        let out = EntityDictionary::to_txt(entities.as_slice());
        let mut oc = str_chars(out.as_str());
        if !(oc.len() > 0 && oc[oc.len() - 1] == '\0') {
            oc.push('\0');
        }
        let text = string_from_chars(oc.as_slice());
        assert(text@ == imported_text(src, models as nat));
        let mut bsp = bsp;
        match bsp.replace_lump(LumpIdx::Entities, text.as_str().as_bytes()) {
            Ok(()) => Ok((bsp, dropped)),
            Err(e) => Err(e),
        }
    }
}

/// Repairs the entities of a BSP file: its entity text is normalised and
/// imported again.
pub fn repair_bsp(bsp: BspFile) -> (r: Result<(BspFile, Vec<(String, usize)>), RipError>)
    requires
        bsp.wf(),
    ensures
        match lump_text(bsp.lump_data(LumpIdx::Entities.pos())) {
            Err(e) => r == Err::<(BspFile, Vec<(String, usize)>), RipError>(e),
            Ok(t) => imports(bsp, normalised(t), r),
        },
{
    let text = match ExtractTarget::Text.with(&bsp, false) {
        Ok(t) => t,
        Err(e) => {
            return Err(e);
        },
    };
    let fixed = normalise_entities(text.as_str());
    ImportSource::Text(fixed).with(bsp)
}

// ---------------------------------------------------------------------------
// File kinds
// ---------------------------------------------------------------------------

/// Extension of an entity file.
pub const EXT_ENT: &'static str = "ent";

/// Extension of a point entity file.
pub const EXT_POINT_ENT: &'static str = "entp";

/// Extension of a brush entity file.
pub const EXT_BRUSH_ENT: &'static str = "entm";

/// Extension of a BSP file.
pub const EXT_BSP: &'static str = "bsp";

/// The kinds of file the tool reads and writes.
#[derive(Debug, Clone, Copy, PartialEq, Eq, Structural)]
pub enum FileKind {
    /// Entity text (`.ent`).
    Ent,
    /// Point entity text (`.entp`).
    PointEnt,
    /// Brush entity text (`.entm`).
    BrushEnt,
    /// A BSP file (`.bsp`).
    Bsp,
}

/// The extension of a kind of file.
pub open spec fn kind_ext(k: FileKind) -> Seq<char> {
    match k {
        FileKind::Ent => seq!['e', 'n', 't'],
        FileKind::PointEnt => seq!['e', 'n', 't', 'p'],
        FileKind::BrushEnt => seq!['e', 'n', 't', 'm'],
        FileKind::Bsp => seq!['b', 's', 'p'],
    }
}

/// The kind of file with extension `e`, where there is one.
pub open spec fn kind_of(e: Seq<char>) -> Option<FileKind> {
    if e == kind_ext(FileKind::Ent) {
        Some(FileKind::Ent)
    } else if e == kind_ext(FileKind::PointEnt) {
        Some(FileKind::PointEnt)
    } else if e == kind_ext(FileKind::BrushEnt) {
        Some(FileKind::BrushEnt)
    } else if e == kind_ext(FileKind::Bsp) {
        Some(FileKind::Bsp)
    } else {
        None
    }
}

proof fn lemma_ext_literals()
    ensures
        EXT_ENT@ == kind_ext(FileKind::Ent),
        EXT_POINT_ENT@ == kind_ext(FileKind::PointEnt),
        EXT_BRUSH_ENT@ == kind_ext(FileKind::BrushEnt),
        EXT_BSP@ == kind_ext(FileKind::Bsp),
{
    reveal_strlit("ent");
    reveal_strlit("entp");
    reveal_strlit("entm");
    reveal_strlit("bsp");
    assert(EXT_ENT@ =~= kind_ext(FileKind::Ent));
    assert(EXT_POINT_ENT@ =~= kind_ext(FileKind::PointEnt));
    assert(EXT_BRUSH_ENT@ =~= kind_ext(FileKind::BrushEnt));
    assert(EXT_BSP@ =~= kind_ext(FileKind::Bsp));
}

/// What `rip` does with a file of a given kind.
#[derive(Debug, Clone, Copy, PartialEq, Eq, Structural)]
pub enum RipAction {
    /// Extract a BSP file's entities to an `.ent` file beside it.
    Extract,
    /// Import an `.ent` file into the BSP file beside it.
    Import,
    /// Import the `.entp` and `.entm` files into the BSP file beside them.
    SplitImport,
}

impl FileKind {
    /// The kind of file with the given extension (compared exactly): an
    /// error for another extension, or for none, as a folder has.
    pub fn from_extension(ext: Option<&str>) -> (r: Result<FileKind, RipError>)
        ensures
            match ext {
                None => r == Err::<FileKind, RipError>(RipError::NotAFile),
                Some(e) => match kind_of(e@) {
                    Some(k) => r == Ok::<FileKind, RipError>(k),
                    None => r matches Err(RipError::UnsupportedFileType(s)) && s@ == e@,
                },
            },
    {
        proof {
            lemma_ext_literals();
        }
        let e = match ext {
            None => {
                return Err(RipError::NotAFile);
            },
            Some(e) => e,
        };
        let ec = str_chars(e);
        if chars_eq(ec.as_slice(), str_chars(EXT_ENT).as_slice()) {
            Ok(FileKind::Ent)
        } else if chars_eq(ec.as_slice(), str_chars(EXT_POINT_ENT).as_slice()) {
            Ok(FileKind::PointEnt)
        } else if chars_eq(ec.as_slice(), str_chars(EXT_BRUSH_ENT).as_slice()) {
            Ok(FileKind::BrushEnt)
        } else if chars_eq(ec.as_slice(), str_chars(EXT_BSP).as_slice()) {
            Ok(FileKind::Bsp)
        } else {
            Err(RipError::UnsupportedFileType(e.to_owned()))
        }
    }

    /// The extension of this kind of file.
    pub fn extension(&self) -> (r: &'static str)
        ensures
            r@ == kind_ext(*self),
    {
        proof {
            lemma_ext_literals();
        }
        match self {
            FileKind::Ent => EXT_ENT,
            FileKind::PointEnt => EXT_POINT_ENT,
            FileKind::BrushEnt => EXT_BRUSH_ENT,
            FileKind::Bsp => EXT_BSP,
        }
    }

    /// Whether the file holds entity text (`.ent`, `.entp` or `.entm`).
    pub fn is_entity_text(&self) -> (r: bool)
        ensures
            r == (*self != FileKind::Bsp),
    {
        !matches!(self, FileKind::Bsp)
    }

    /// What `rip` does with this kind of file: extract from a BSP file,
    /// import an `.ent` file, import the split pair for an `.entp` or
    /// `.entm` file.
    pub fn rip_action(&self) -> (r: RipAction)
        ensures
            r == match *self {
                FileKind::Bsp => RipAction::Extract,
                FileKind::Ent => RipAction::Import,
                _ => RipAction::SplitImport,
            },
    {
        match self {
            FileKind::Bsp => RipAction::Extract,
            FileKind::Ent => RipAction::Import,
            _ => RipAction::SplitImport,
        }
    }
}

/// The entities of a BSP file's entity text.
pub fn entities_of_bsp(bsp: &BspFile) -> (r: Result<Vec<EntityDictionary>, RipError>)
    requires
        bsp.wf(),
    ensures
        match lump_text(bsp.lump_data(LumpIdx::Entities.pos())) {
            Err(e) => r == Err::<Vec<EntityDictionary>, RipError>(e),
            Ok(t) => r matches Ok(v) && dict_views(v@) == parse_entities(t),
        },
{
    match ExtractTarget::Text.with(bsp, false) {
        Ok(t) => Ok(EntityDictionary::from_ent_txt(t.as_str())),
        Err(e) => Err(e),
    }
}

/// Puts a list of entities into a BSP file in place of its entity text.
pub fn entities_into_bsp(entities: &[EntityDictionary], bsp: BspFile) -> (r: Result<
    (BspFile, Vec<(String, usize)>),
    RipError,
>)
    requires
        bsp.wf(),
    ensures
        imports(bsp, entities_text(dict_views(entities@)), r),
{
    let text = EntityDictionary::to_txt(entities);
    ImportSource::Text(text).with(bsp)
}

/// `a` and `b` are the same character, or the same ASCII letter in either
/// case.
pub open spec fn same_ignoring_ascii_case(a: char, b: char) -> bool {
    ||| a == b
    ||| ('A' <= a <= 'Z' && (b as u32) == (a as u32) + 32)
    ||| ('A' <= b <= 'Z' && (a as u32) == (b as u32) + 32)
}

/// `a` and `b` are equal but for the case of ASCII letters.
pub open spec fn eq_ignoring_ascii_case(a: Seq<char>, b: Seq<char>) -> bool {
    a.len() == b.len() && forall|i: int| 0 <= i < a.len() ==> same_ignoring_ascii_case(#[trigger] a[i], b[i])
}

fn chars_eq_ignoring_ascii_case(a: &[char], b: &[char]) -> (r: bool)
    ensures
        r == eq_ignoring_ascii_case(a@, b@),
{
    if a.len() != b.len() {
        return false;
    }
    let mut i: usize = 0;
    while i < a.len()
        invariant
            0 <= i <= a@.len(),
            a@.len() == b@.len(),
            forall|q: int| 0 <= q < i ==> same_ignoring_ascii_case(#[trigger] a@[q], b@[q]),
        decreases a@.len() - i,
    {
        let x = a[i];
        let y = b[i];
        let same = x == y || ('A' <= x && x <= 'Z' && (y as u32) == (x as u32) + 32) || ('A' <= y
            && y <= 'Z' && (x as u32) == (y as u32) + 32);
        if !same {
            return false;
        }
        i = i + 1;
    }
    true
}

/// Whether a file's extension is one of `extensions`, ignoring the case of
/// ASCII letters; a file without an extension has none of them.
pub fn has_extension(ext: Option<&str>, extensions: &[&str]) -> (r: bool)
    ensures
        r == match ext {
            None => false,
            Some(e) => exists|k: int|
                0 <= k < extensions@.len() && eq_ignoring_ascii_case(e@, #[trigger] extensions@[k]@),
        },
{
    let e = match ext {
        None => {
            return false;
        },
        Some(e) => e,
    };
    let ec = str_chars(e);
    let mut k: usize = 0;
    while k < extensions.len()
        invariant
            0 <= k <= extensions@.len(),
            ext == Some(e),
            ec@ == e@,
            forall|q: int| 0 <= q < k ==> !eq_ignoring_ascii_case(e@, #[trigger] extensions@[q]@),
        decreases extensions@.len() - k,
    {
        let xc = str_chars(extensions[k]);
        if chars_eq_ignoring_ascii_case(ec.as_slice(), xc.as_slice()) {
            assert(eq_ignoring_ascii_case(e@, extensions@[k as int]@));
            return true;
        }
        k = k + 1;
    }
    false
}

// ---------------------------------------------------------------------------
// What an import writes, read back
// ---------------------------------------------------------------------------

proof fn lemma_entities_text_end(es: Seq<Seq<Entry>>)
    ensures
        entities_text(es).len() == 0 || entities_text(es).last() == '\n',
    decreases es.len(),
{
    if es.len() > 0 {
        lemma_entities_text_end(es.drop_last());
        let e = es.last();
        if e.len() > 0 {
            let et = seq!['{', '\n'] + entries_text(e) + seq!['}', '\n'];
            assert(entity_text(e) == et);
            assert((entities_text(es.drop_last()) + et).last() == et.last());
        } else {
            assert(entity_text(e) =~= Seq::<char>::empty());
            assert(entities_text(es) =~= entities_text(es.drop_last()));
        }
    }
}

proof fn lemma_encode_concat(a: Seq<char>, b: Seq<char>)
    ensures
        encode_utf8(a + b) == encode_utf8(a) + encode_utf8(b),
    decreases a.len(),
{
    if a.len() == 0 {
        assert(a + b =~= b);
        assert(encode_utf8(a) =~= Seq::<u8>::empty());
        assert(encode_utf8(a) + encode_utf8(b) =~= encode_utf8(b));
    } else {
        lemma_encode_concat(a.drop_first(), b);
        assert((a + b).drop_first() =~= a.drop_first() + b);
        assert((a + b)[0] == a[0]);
        let c = vstd::utf8::encode_scalar(a[0] as u32);
        assert(encode_utf8(a + b) == c + encode_utf8(a.drop_first() + b));
        assert(encode_utf8(a) == c + encode_utf8(a.drop_first()));
        assert(c + (encode_utf8(a.drop_first()) + encode_utf8(b)) =~= (c + encode_utf8(
            a.drop_first(),
        )) + encode_utf8(b));
    }
}

/// Reading back a lump that holds entity text closed with a NUL character
/// gives the entity text.
proof fn lemma_lump_text_of_written(x: Seq<char>)
    requires
        x.len() == 0 || x.last() == '\n',
    ensures
        lump_text(encode_utf8(with_nul(x))) == Ok::<Seq<char>, RipError>(x),
{
    broadcast use vstd::utf8::encode_utf8_valid_utf8, vstd::utf8::encode_utf8_decode_utf8;

    let nul = seq!['\0'];
    assert(with_nul(x) =~= x + nul);
    lemma_encode_concat(x, nul);
    assert(nul.drop_first() =~= Seq::<char>::empty());
    assert(('\0' as u32) == 0u32);
    assert(((0u32 & 0x7F) as u8) == 0u8) by (bit_vector);
    assert(vstd::utf8::leading_byte_width_1(0u32) == 0u8);
    assert(vstd::utf8::encode_scalar(0u32) =~= seq![0u8]);
    assert(encode_utf8(nul.drop_first()) =~= Seq::<u8>::empty());
    assert(encode_utf8(nul) == vstd::utf8::encode_scalar(nul[0] as u32) + encode_utf8(
        nul.drop_first(),
    ));
    assert(encode_utf8(nul) =~= seq![0u8]);
    let data = encode_utf8(x) + seq![0u8];
    assert(encode_utf8(with_nul(x)) == data);
    assert(data.len() > 0 && data.last() == 0);
    assert(data.drop_last() =~= encode_utf8(x));
    assert(lump_text_bytes(data) == encode_utf8(x));
}

proof fn lemma_kept_clean(es: Seq<Seq<Entry>>, models: nat)
    requires
        forall|i: int| 0 <= i < es.len() ==> distinct_keys(#[trigger] es[i]) && clean_entries(es[i]),
    ensures
        forall|i: int|
            0 <= i < kept_entities(es, models).len() ==> distinct_keys(
                #[trigger] kept_entities(es, models)[i],
            ) && clean_entries(kept_entities(es, models)[i]),
        forall|i: int|
            0 <= i < kept_entities(es, models).len() ==> keeps(
                #[trigger] kept_entities(es, models)[i],
                models,
            ),
        kept_entities(es, models).len() + discarded(es, models).len() == es.len(),
    decreases es.len(),
{
    if es.len() > 0 {
        let es1 = es.drop_last();
        assert forall|i: int| 0 <= i < es1.len() implies distinct_keys(#[trigger] es1[i])
            && clean_entries(es1[i]) by {
            assert(es1[i] == es[i]);
        }
        lemma_kept_clean(es1, models);
        assert(distinct_keys(es[es.len() - 1]) && clean_entries(es[es.len() - 1]));
        let prev = kept_entities(es1, models);
        let k = kept_entities(es, models);
        assert forall|i: int| 0 <= i < k.len() implies distinct_keys(#[trigger] k[i])
            && clean_entries(k[i]) && keeps(k[i], models) by {
            if i < prev.len() {
                assert(k[i] == prev[i]);
            }
        }
    }
}

proof fn lemma_select_clean(es: Seq<Seq<Entry>>, brush: bool)
    requires
        forall|i: int| 0 <= i < es.len() ==> distinct_keys(#[trigger] es[i]) && clean_entries(es[i]),
    ensures
        forall|i: int|
            0 <= i < select(es, brush).len() ==> distinct_keys(#[trigger] select(es, brush)[i])
                && clean_entries(select(es, brush)[i]) && is_brush(select(es, brush)[i]) == brush,
        select(es, true).len() + select(es, false).len() == es.len(),
    decreases es.len(),
{
    if es.len() > 0 {
        let es1 = es.drop_last();
        assert forall|i: int| 0 <= i < es1.len() implies distinct_keys(#[trigger] es1[i])
            && clean_entries(es1[i]) by {
            assert(es1[i] == es[i]);
        }
        lemma_select_clean(es1, brush);
        lemma_select_clean(es1, !brush);
        assert(distinct_keys(es[es.len() - 1]) && clean_entries(es[es.len() - 1]));
        let prev = select(es1, brush);
        let k = select(es, brush);
        assert forall|i: int| 0 <= i < k.len() implies distinct_keys(#[trigger] k[i])
            && clean_entries(k[i]) && is_brush(k[i]) == brush by {
            if i < prev.len() {
                assert(k[i] == prev[i]);
            }
        }
    }
}

/// Extracting the entity text from a file that an import wrote gives back
/// what the import wrote before its closing NUL: the kept entities of the
/// normalised source, each as a block.
pub proof fn law_extract_after_import(src: Seq<char>, models: nat)
    ensures
        lump_text(encode_utf8(imported_text(src, models))) == Ok::<Seq<char>, RipError>(
            entities_text(kept_entities(parse_entities(normalised(src)), models)),
        ),
{
    lemma_entities_text_end(kept_entities(parse_entities(normalised(src)), models));
    lemma_lump_text_of_written(entities_text(kept_entities(parse_entities(normalised(src)), models)));
}

/// The entities read back from what an import wrote are the kept entities
/// of the normalised source, in order and with the same pairs, less those
/// without pairs; each of them uses no brush model the file lacks; and each
/// entity of the source is either kept or listed as discarded.
pub proof fn law_import_reads_back(src: Seq<char>, models: nat)
    ensures
        ({
            let es = parse_entities(normalised(src));
            let kept = kept_entities(es, models);
            &&& parse_entities(entities_text(kept)) == nonempty_entities(kept)
            &&& forall|i: int| 0 <= i < kept.len() ==> keeps(#[trigger] kept[i], models)
            &&& kept.len() + discarded(es, models).len() == es.len()
        }),
{
    let es = parse_entities(normalised(src));
    lemma_parsed_clean(normalised(src));
    lemma_kept_clean(es, models);
    law_text_roundtrip(kept_entities(es, models));
}

/// Reading back each part of a split extraction gives the point entities,
/// or the brush entities, of the whole text, in order, less those without
/// pairs; every entity goes to exactly one part.
pub proof fn law_split_parts(all_ents: Seq<char>)
    ensures
        ({
            let es = parse_entities(all_ents);
            &&& parse_entities(entities_text(select(es, false))) == nonempty_entities(
                select(es, false),
            )
            &&& parse_entities(entities_text(select(es, true))) == nonempty_entities(
                select(es, true),
            )
            &&& forall|i: int|
                0 <= i < select(es, false).len() ==> !is_brush(#[trigger] select(es, false)[i])
            &&& forall|i: int|
                0 <= i < select(es, true).len() ==> is_brush(#[trigger] select(es, true)[i])
            &&& select(es, true).len() + select(es, false).len() == es.len()
        }),
{
    let es = parse_entities(all_ents);
    lemma_parsed_clean(all_ents);
    lemma_select_clean(es, false);
    lemma_select_clean(es, true);
    law_text_roundtrip(select(es, false));
    law_text_roundtrip(select(es, true));
}

proof fn lemma_kept_nonempty(es: Seq<Seq<Entry>>, models: nat)
    ensures
        nonempty_entities(kept_entities(nonempty_entities(es), models)) == kept_entities(
            nonempty_entities(es),
            models,
        ),
        forall|i: int|
            0 <= i < nonempty_entities(es).len() ==> exists|j: int|
                0 <= j < es.len() && #[trigger] nonempty_entities(es)[i] == es[j],
    decreases es.len(),
{
    if es.len() > 0 {
        let es1 = es.drop_last();
        lemma_kept_nonempty(es1, models);
        let n1 = nonempty_entities(es1);
        let n = nonempty_entities(es);
        assert forall|i: int| 0 <= i < n.len() implies exists|j: int|
            0 <= j < es.len() && #[trigger] n[i] == es[j] by {
            if i < n1.len() {
                assert(n[i] == n1[i]);
                let j = choose|j: int| 0 <= j < es1.len() && n1[i] == es1[j];
                assert(es[j] == es1[j]);
            } else {
                assert(n[i] == es[es.len() - 1]);
            }
        }
        if es.last().len() > 0 {
            let k1 = kept_entities(n1, models);
            assert(n.drop_last() =~= n1);
            if keeps(es.last(), models) {
                assert(kept_entities(n, models) == k1.push(es.last()));
                assert(k1.push(es.last()).drop_last() =~= k1);
            } else {
                assert(kept_entities(n, models) == k1);
            }
        }
    }
}

/// Entity text in the form extraction gives (a block per entity with pairs,
/// a `"key" "value"` line per pair, no quote, brace or line break in a key
/// or value, no key twice in an entity) goes through an import unchanged
/// but for the entities whose brush model the file lacks: the import writes
/// those blocks, and reading back what it wrote gives those entities, in
/// order and with their pairs in order.
pub proof fn law_import_written_text(es: Seq<Seq<Entry>>, models: nat)
    requires
        forall|i: int|
            0 <= i < es.len() ==> distinct_keys(#[trigger] es[i]) && line_safe_entries(es[i]),
    ensures
        parse_entities(normalised(entities_text(es))) == nonempty_entities(es),
        lump_text(encode_utf8(imported_text(entities_text(es), models))) == Ok::<
            Seq<char>,
            RipError,
        >(entities_text(kept_entities(nonempty_entities(es), models))),
        parse_entities(entities_text(kept_entities(nonempty_entities(es), models)))
            == kept_entities(nonempty_entities(es), models),
{
    law_normalise_written(es);
    assert(clean_text(spaced())) by {
        let g = spaced();
        if g.contains('"') {
            let k = choose|k: int| 0 <= k < g.len() && g[k] == '"';
        }
        if g.contains('{') {
            let k = choose|k: int| 0 <= k < g.len() && g[k] == '{';
        }
        if g.contains('}') {
            let k = choose|k: int| 0 <= k < g.len() && g[k] == '}';
        }
    }
    assert forall|i: int| 0 <= i < es.len() implies distinct_keys(#[trigger] es[i]) && clean_entries(
        es[i],
    ) by {
        assert(line_safe_entries(es[i]));
        assert forall|t: int| 0 <= t < es[i].len() implies crate::ent::clean_entry(
            #[trigger] es[i][t],
        ) by {
            assert(crate::normalise::line_safe(es[i][t].0) && crate::normalise::line_safe(
                es[i][t].1,
            ));
        }
    }
    lemma_blocks_roundtrip(spaced(), es);
    law_extract_after_import(entities_text(es), models);
    law_import_reads_back(entities_text(es), models);
    lemma_kept_nonempty(es, models);
}


/// What an import keeps and leaves out, stated by the number of brush
/// models alone.
proof fn lemma_kept_models(es: Seq<Seq<Entry>>, models: nat)
    ensures
        forall|i: int|
            0 <= i < kept_entities(es, models).len() ==> match model_index_of(
                #[trigger] kept_entities(es, models)[i],
            ) {
                Some(n) => n == 0 || n < models,
                None => true,
            },
        forall|i: int|
            0 <= i < discarded(es, models).len() ==> (#[trigger] discarded(es, models)[i]).1 != 0
                && discarded(es, models)[i].1 >= models,
        forall|j: int|
            0 <= j < es.len() ==> match model_index_of(#[trigger] es[j]) {
                Some(n) => if n != 0 && n >= models {
                    discarded(es, models).contains((classname_of(es[j]), n))
                } else {
                    kept_entities(es, models).contains(es[j])
                },
                None => kept_entities(es, models).contains(es[j]),
            },
    decreases es.len(),
{
    if es.len() > 0 {
        let es1 = es.drop_last();
        lemma_kept_models(es1, models);
        let k1 = kept_entities(es1, models);
        let d1 = discarded(es1, models);
        let k = kept_entities(es, models);
        let d = discarded(es, models);
        let x = es.last();
        assert forall|i: int| 0 <= i < k.len() implies match model_index_of(#[trigger] k[i]) {
            Some(n) => n == 0 || n < models,
            None => true,
        } by {
            if i < k1.len() {
                assert(k[i] == k1[i]);
            } else {
                assert(k[i] == x);
            }
        }
        assert forall|i: int| 0 <= i < d.len() implies (#[trigger] d[i]).1 != 0 && d[i].1 >= models by {
            if i < d1.len() {
                assert(d[i] == d1[i]);
            }
        }
        assert forall|j: int| 0 <= j < es.len() implies match model_index_of(#[trigger] es[j]) {
            Some(n) => if n != 0 && n >= models {
                d.contains((classname_of(es[j]), n))
            } else {
                k.contains(es[j])
            },
            None => k.contains(es[j]),
        } by {
            if j < es1.len() {
                assert(es[j] == es1[j]);
                if k1.contains(es[j]) {
                    let q = choose|q: int| 0 <= q < k1.len() && k1[q] == es[j];
                    assert(k[q] == k1[q]);
                }
                if model_index_of(es[j]) is Some {
                    let n = model_index_of(es[j]).unwrap();
                    if n != 0 && n >= models {
                        let q = choose|q: int| 0 <= q < d1.len() && d1[q] == (classname_of(es[j]), n);
                        assert(d[q] == d1[q]);
                    }
                }
            } else {
                assert(es[j] == x);
                if keeps(x, models) {
                    assert(k[k1.len() as int] == x);
                } else {
                    assert(d[d1.len() as int] == (classname_of(x), model_index_of(x).unwrap()));
                }
            }
        }
    }
}

/// An import keeps exactly the entities whose brush model exists in the
/// file (point entities, the world's model 0, and models below the model
/// count): every entity read back from what it writes uses such a model,
/// each entity it leaves out uses a model of at least the model count, and
/// each entity of the normalised source is either read back or listed as
/// left out with its class name and model.
pub proof fn law_import_keeps_existing_models(src: Seq<char>, models: nat)
    ensures
        ({
            let es = parse_entities(normalised(src));
            let written = parse_entities(entities_text(kept_entities(es, models)));
            let left = discarded(es, models);
            &&& forall|i: int|
                0 <= i < written.len() ==> match model_index_of(#[trigger] written[i]) {
                    Some(n) => n == 0 || n < models,
                    None => true,
                }
            &&& forall|i: int|
                0 <= i < left.len() ==> (#[trigger] left[i]).1 != 0 && left[i].1 >= models
            &&& forall|j: int|
                0 <= j < es.len() ==> match model_index_of(#[trigger] es[j]) {
                    Some(n) => if n != 0 && n >= models {
                        left.contains((classname_of(es[j]), n))
                    } else {
                        es[j].len() > 0 ==> written.contains(es[j])
                    },
                    None => es[j].len() > 0 ==> written.contains(es[j]),
                }
        }),
{
    let es = parse_entities(normalised(src));
    let kept = kept_entities(es, models);
    law_import_reads_back(src, models);
    lemma_kept_models(es, models);
    lemma_kept_nonempty(kept, models);
    let written = parse_entities(entities_text(kept));
    assert(written == nonempty_entities(kept));
    assert forall|i: int| 0 <= i < written.len() implies match model_index_of(#[trigger] written[i]) {
        Some(n) => n == 0 || n < models,
        None => true,
    } by {
        let j = choose|j: int| 0 <= j < kept.len() && nonempty_entities(kept)[i] == kept[j];
        assert(written[i] == kept[j]);
    }
    assert forall|j: int| 0 <= j < es.len() && es[j].len() > 0 && kept.contains(es[j]) implies written.contains(
        #[trigger] es[j],
    ) by {
        let q = choose|q: int| 0 <= q < kept.len() && kept[q] == es[j];
        lemma_nonempty_has(kept, q);
    }
}

/// Each entity with pairs is among the entities with pairs.
proof fn lemma_nonempty_has(es: Seq<Seq<Entry>>, q: int)
    requires
        0 <= q < es.len(),
        es[q].len() > 0,
    ensures
        nonempty_entities(es).contains(es[q]),
    decreases es.len(),
{
    let es1 = es.drop_last();
    let n = nonempty_entities(es);
    let n1 = nonempty_entities(es1);
    if q < es1.len() {
        assert(es1[q] == es[q]);
        lemma_nonempty_has(es1, q);
        let k = choose|k: int| 0 <= k < n1.len() && n1[k] == es[q];
        if es.last().len() == 0 {
            assert(n == n1);
        } else {
            assert(n[k] == n1[k]);
        }
    } else {
        assert(es[q] == es.last());
        assert(n[n1.len() as int] == es[q]);
    }
}

} // verus!
