//! The state behind the interactive entity editor: the entities, the filtered
//! list, the selected entity and its key/value rows, and undo and redo. The
//! screen itself lies outside; it calls these operations and redraws from
//! the state they leave.

use vstd::prelude::*;
use crate::entity::{
    EntityDictionary,
    Entry,
    classname_of,
    kv_rows,
    pair_views,
    str_pair_views,
    sorted_entries,
    spawnflags_of,
    with_spawnflags,
    classname_key,
    no_classname,
    spawnflags_key,
    same_map,
    distinct_keys,
    lemma_key_literals,
    insert_all,
    lemma_sorted_entries_same_map,
};
use crate::ent::dict_views;
use crate::text::{
    trim,
    lowercase,
    has_substring,
    decimal,
    str_chars,
    trim_chars,
    chars_eq,
    contains_chars,
    string_from_chars,
    to_lowercase,
    is_blank,
    lines,
    lines_chars,
    push_chars,
    split,
    strip_cr,
    lemma_split_concat,
    lemma_split_no_sep,
    lemma_split_len,
};

verus! {

broadcast use vstd::string::group_string_axioms, vstd::slice::group_slice_axioms;

// ---------------------------------------------------------------------------
// The model
// ---------------------------------------------------------------------------

/// A snapshot for undo and redo: the entities and the selected one.
pub type Snap = (Seq<Seq<Entry>>, Option<usize>);

/// The editor's state as plain values.
pub struct EditorModel {
    /// The entities being edited.
    pub entities: Seq<Seq<Entry>>,
    /// The entities as last saved.
    pub saved: Seq<Seq<Entry>>,
    /// Positions of the entities the list shows.
    pub filtered: Seq<usize>,
    /// The entity the property table shows.
    pub selected: Option<usize>,
    /// The rows of the property table.
    pub rows: Seq<Entry>,
    /// The label of the selected entity in the list.
    pub shown: Seq<char>,
    /// Set while the screen is being redrawn: edits reported then are
    /// ignored.
    pub updating: bool,
    /// Snapshots to go back to, the latest last.
    pub undo: Seq<Snap>,
    /// Snapshots to go forward to, the latest last.
    pub redo: Seq<Snap>,
}

/// The filter as it is matched: trimmed and lower-cased.
pub open spec fn filter_key(filter: Seq<char>) -> Seq<char> {
    lowercase(trim(filter))
}

/// An entity matches a matched filter `f`: `f` is empty, or occurs in the
/// lower-cased class name, or in a lower-cased key or value.
pub open spec fn matches_filter(e: Seq<Entry>, f: Seq<char>) -> bool {
    ||| f.len() == 0
    ||| has_substring(lowercase(classname_of(e)), f)
    ||| exists|i: int|
        0 <= i < e.len() && (has_substring(lowercase(e[i].0), f) || has_substring(
            lowercase(e[i].1),
            f,
        ))
}

/// Positions of the entities that match `f`, ascending.
pub open spec fn filtered(es: Seq<Seq<Entry>>, f: Seq<char>) -> Seq<usize>
    decreases es.len(),
{
    if es.len() == 0 {
        Seq::empty()
    } else {
        let prev = filtered(es.drop_last(), f);
        if matches_filter(es.last(), f) {
            prev.push((es.len() - 1) as usize)
        } else {
            prev
        }
    }
}

/// The first position at which `x` occurs in `s`.
pub open spec fn position(s: Seq<usize>, x: usize) -> Option<nat>
    decreases s.len(),
{
    if s.len() == 0 {
        None
    } else if s[0] == x {
        Some(0)
    } else {
        match position(s.drop_first(), x) {
            Some(p) => Some(p + 1),
            None => None,
        }
    }
}

/// The value of the first row whose trimmed key is `classname`.
pub open spec fn classname_row(rows: Seq<Entry>) -> Option<Seq<char>>
    decreases rows.len(),
{
    if rows.len() == 0 {
        None
    } else if trim(rows[0].0) == classname_key() {
        Some(rows[0].1)
    } else {
        classname_row(rows.drop_first())
    }
}

/// The label the rows give an entity: the class name row's value where it
/// is not blank, `<no classname>` otherwise.
pub open spec fn shown_for(rows: Seq<Entry>) -> Seq<char> {
    match classname_row(rows) {
        Some(v) => if trim(v).len() > 0 {
            v
        } else {
            no_classname()
        },
        None => no_classname(),
    }
}

/// The rows of the selected entity: its pairs sorted by key, or none.
pub open spec fn rows_of(es: Seq<Seq<Entry>>, selected: Option<usize>) -> Seq<Entry> {
    match selected {
        Some(i) => if i < es.len() {
            sorted_entries(es[i as int])
        } else {
            Seq::empty()
        },
        None => Seq::empty(),
    }
}

/// The position of the first row whose key is exactly `k`.
pub open spec fn row_with_key(rows: Seq<Entry>, k: Seq<char>) -> Option<nat>
    decreases rows.len(),
{
    if rows.len() == 0 {
        None
    } else if rows[0].0 == k {
        Some(0)
    } else {
        match row_with_key(rows.drop_first(), k) {
            Some(p) => Some(p + 1),
            None => None,
        }
    }
}

/// Both lists hold the same entities, each with the same keys and values.
pub open spec fn same_entity_lists(a: Seq<Seq<Entry>>, b: Seq<Seq<Entry>>) -> bool {
    a.len() == b.len() && forall|i: int| 0 <= i < a.len() ==> same_map(#[trigger] a[i], b[i])
}

/// The state of a fresh editor.
pub open spec fn model_new(es: Seq<Seq<Entry>>) -> EditorModel {
    EditorModel {
        entities: es,
        saved: es,
        filtered: Seq::empty(),
        selected: None,
        rows: Seq::empty(),
        shown: Seq::empty(),
        updating: false,
        undo: Seq::empty(),
        redo: Seq::empty(),
    }
}

/// The rows and label loaded from the selected entity.
pub open spec fn model_load_rows(m: EditorModel) -> EditorModel {
    let rows = rows_of(m.entities, m.selected);
    EditorModel { rows: rows, shown: shown_for(rows), ..m }
}

/// Whether the rows differ from the selected entity's sorted pairs.
pub open spec fn model_pending(m: EditorModel) -> bool {
    match m.selected {
        None => false,
        Some(i) => m.rows != rows_of(m.entities, Some(i)),
    }
}

/// The rows written back into the selected entity.
pub open spec fn model_commit(m: EditorModel) -> EditorModel {
    match m.selected {
        Some(i) => if i < m.entities.len() {
            EditorModel { entities: m.entities.update(i as int, kv_rows(m.rows)), ..m }
        } else {
            m
        },
        None => m,
    }
}

/// A snapshot pushed for undo; redo forgotten.
pub open spec fn model_push_undo(m: EditorModel) -> EditorModel {
    EditorModel { undo: m.undo.push((m.entities, m.selected)), redo: Seq::empty(), ..m }
}

/// Entity `i` selected and its rows loaded.
pub open spec fn model_select(m: EditorModel, i: usize) -> EditorModel {
    model_load_rows(EditorModel { selected: Some(i), ..m })
}

/// The list rebuilt for a filter, and the first entity it shows selected.
pub open spec fn model_rebuild(m: EditorModel, filter: Seq<char>) -> EditorModel {
    let fl = filtered(m.entities, filter_key(filter));
    let m1 = EditorModel { filtered: fl, ..m };
    if fl.len() > 0 {
        model_select(m1, fl[0])
    } else {
        EditorModel { selected: None, rows: Seq::empty(), ..m1 }
    }
}

/// A snapshot restored: its entities, the list rebuilt for the filter, and
/// its selection where that is still an entity, else the first listed one.
pub open spec fn model_restore(m: EditorModel, s: Snap, filter: Seq<char>) -> EditorModel {
    let fl = filtered(s.0, filter_key(filter));
    let effective = match s.1 {
        Some(i) => if i < s.0.len() {
            Some(i)
        } else if fl.len() > 0 {
            Some(fl[0])
        } else {
            None
        },
        None => if fl.len() > 0 {
            Some(fl[0])
        } else {
            None
        },
    };
    let m1 = EditorModel { entities: s.0, filtered: fl, selected: effective, ..m };
    match effective {
        Some(i) => model_select(m1, i),
        None => EditorModel { rows: Seq::empty(), ..m1 },
    }
}

/// Undo: the rows committed, then the latest undo snapshot restored and the
/// state it replaces kept for redo.
pub open spec fn model_undo(m: EditorModel, filter: Seq<char>) -> EditorModel {
    let c = model_commit(m);
    if c.undo.len() == 0 {
        c
    } else {
        let c1 = EditorModel {
            undo: c.undo.drop_last(),
            redo: c.redo.push((c.entities, c.selected)),
            ..c
        };
        model_restore(c1, c.undo.last(), filter)
    }
}

/// Redo: the latest redo snapshot restored and the state it replaces kept
/// for undo.
pub open spec fn model_redo(m: EditorModel, filter: Seq<char>) -> EditorModel {
    if m.redo.len() == 0 {
        m
    } else {
        let m1 = EditorModel {
            redo: m.redo.drop_last(),
            undo: m.undo.push((m.entities, m.selected)),
            ..m
        };
        model_restore(m1, m.redo.last(), filter)
    }
}

/// The filter applied: the rows committed and the list rebuilt, unless the
/// screen is being redrawn.
pub open spec fn model_apply_filter(m: EditorModel, filter: Seq<char>) -> EditorModel {
    if m.updating {
        m
    } else {
        model_rebuild(model_commit(m), filter)
    }
}

/// A new entity with only the class name `new_entity` added at the end,
/// after the rows were committed and a snapshot taken.
pub open spec fn model_create(m: EditorModel) -> EditorModel {
    let p = model_push_undo(model_commit(m));
    EditorModel { entities: p.entities.push(seq![(classname_key(), "new_entity"@)]), ..p }
}

/// A copy of the selected entity added at the end, after the rows were
/// committed and a snapshot taken; with no selected entity, only the
/// commit.
pub open spec fn model_clone(m: EditorModel) -> EditorModel {
    let c = model_commit(m);
    match c.selected {
        Some(i) => if i < c.entities.len() {
            let p = model_push_undo(c);
            EditorModel { entities: p.entities.push(c.entities[i as int]), ..p }
        } else {
            c
        },
        None => c,
    }
}

/// The selected entity removed, after the rows were committed and a
/// snapshot taken; with no selected entity, only the commit.
pub open spec fn model_delete(m: EditorModel) -> EditorModel {
    let c = model_commit(m);
    match c.selected {
        Some(i) => {
            let p = model_push_undo(c);
            if i < p.entities.len() {
                EditorModel { entities: p.entities.remove(i as int), ..p }
            } else {
                p
            }
        },
        None => c,
    }
}

/// An empty row added, after the rows were committed and a snapshot taken.
pub open spec fn model_add_row(m: EditorModel) -> EditorModel {
    let p = model_push_undo(model_commit(m));
    EditorModel { rows: p.rows.push((Seq::empty(), Seq::empty())), ..p }
}

/// A row removed after a snapshot, and the rows committed.
pub open spec fn model_delete_row(m: EditorModel, row: usize) -> EditorModel {
    if row < m.rows.len() {
        let p = model_push_undo(m);
        model_commit(EditorModel { rows: p.rows.remove(row as int), ..p })
    } else {
        m
    }
}

/// The row after an edit of its key (`is_key`) or value.
pub open spec fn edited_row(r: Entry, is_key: bool, value: Seq<char>) -> Entry {
    if is_key {
        (value, r.1)
    } else {
        (r.0, value)
    }
}

/// A key or a value of a row edited, unless the screen is being redrawn or
/// there is no such row.
pub open spec fn model_property_changed(
    m: EditorModel,
    row: usize,
    is_key: bool,
    value: Seq<char>,
) -> EditorModel {
    if m.updating || row >= m.rows.len() {
        m
    } else {
        EditorModel {
            rows: m.rows.update(row as int, edited_row(m.rows[row as int], is_key, value)),
            ..m
        }
    }
}

/// Whether an edit touches the class name row, before or after: the list
/// label then follows it.
pub open spec fn property_relabels(m: EditorModel, row: usize, is_key: bool, value: Seq<char>) -> bool {
    !m.updating && row < m.rows.len() && (trim(m.rows[row as int].0) == classname_key() || trim(
        edited_row(m.rows[row as int], is_key, value).0,
    ) == classname_key())
}

/// The list label of the selected entity set from its class name row,
/// where that is not blank and the list shows the entity.
pub open spec fn model_sync_label(m: EditorModel) -> EditorModel {
    match m.selected {
        None => m,
        Some(i) => match position(m.filtered, i) {
            None => m,
            Some(_) => {
                let cand = match classname_row(m.rows) {
                    Some(v) => v,
                    None => Seq::empty(),
                };
                if trim(cand).len() > 0 {
                    EditorModel { shown: cand, ..m }
                } else {
                    m
                }
            },
        },
    }
}

/// The spawn flags of entity `i`, 0 where it has none or there is no such
/// entity.
pub open spec fn flags_of(es: Seq<Seq<Entry>>, i: usize) -> u32 {
    if i < es.len() {
        match spawnflags_of(es[i as int]) {
            Some(f) => f as u32,
            None => 0,
        }
    } else {
        0
    }
}

/// Flags with the bits of `mask` set or cleared.
pub open spec fn new_flags(flags: u32, mask: u32, checked: bool) -> u32 {
    if checked {
        flags | mask
    } else {
        flags & !mask
    }
}

/// The rows with the `spawnflags` row set to the flags (blank for 0), or a
/// row added for flags other than 0.
pub open spec fn flag_rows(rows: Seq<Entry>, flags: u32) -> Seq<Entry> {
    let value = if flags == 0 {
        Seq::empty()
    } else {
        decimal(flags as nat)
    };
    match row_with_key(rows, spawnflags_key()) {
        Some(p) => rows.update(p as int, (rows[p as int].0, value)),
        None => if flags != 0 {
            rows.push((spawnflags_key(), value))
        } else {
            rows
        },
    }
}

/// A spawn flag ticked or cleared for the selected entity: the rows
/// committed, a snapshot taken, the flags set on the entity and in its
/// rows.
pub open spec fn model_flag_changed(m: EditorModel, mask: u32, checked: bool) -> EditorModel {
    if m.updating {
        m
    } else {
        match m.selected {
            None => m,
            Some(i) => {
                let f = new_flags(flags_of(m.entities, i), mask, checked);
                let p = model_push_undo(model_commit(m));
                let es = if i < p.entities.len() {
                    p.entities.update(i as int, with_spawnflags(p.entities[i as int], f as nat))
                } else {
                    p.entities
                };
                EditorModel { entities: es, rows: flag_rows(p.rows, f), ..p }
            },
        }
    }
}

/// The entity at a list position selected: pending row edits committed
/// (after a snapshot), unless the screen is being redrawn, there is no such
/// position, or the entity is selected already.
pub open spec fn model_list_select(m: EditorModel, pos: usize) -> EditorModel {
    if m.updating || pos >= m.filtered.len() {
        m
    } else {
        let i = m.filtered[pos as int];
        if m.selected == Some(i) {
            m
        } else {
            let p = if model_pending(m) {
                model_push_undo(m)
            } else {
                m
            };
            model_select(model_commit(p), i)
        }
    }
}

/// The saved entities set to the current ones.
pub open spec fn model_mark_saved(m: EditorModel) -> EditorModel {
    EditorModel { saved: m.entities, ..m }
}

/// Undo right after a snapshot was taken gives back the entities of that
/// moment.
pub proof fn law_undo_after_push(m: EditorModel, filter: Seq<char>)
    ensures
        model_undo(model_push_undo(m), filter).entities == m.entities,
        model_undo(model_push_undo(m), filter).undo == m.undo,
{
}

/// Undo right after an edit gives back the entities as they were before it
/// (with the rows committed, for the edits that commit them first): for
/// adding, copying or removing an entity, adding or removing a row, and
/// setting a spawn flag.
pub proof fn law_undo_reverts_edit(m: EditorModel, filter: Seq<char>, row: usize, mask: u32, checked: bool)
    ensures
        model_undo(model_create(m), filter).entities == model_commit(m).entities,
        model_commit(m).selected matches Some(i) && i < model_commit(m).entities.len()
            ==> model_undo(model_clone(m), filter).entities == model_commit(m).entities,
        m.selected is Some ==> model_undo(model_delete(m), filter).entities == model_commit(m).entities,
        model_undo(model_add_row(m), filter).entities == model_commit(m).entities,
        row < m.rows.len() ==> model_undo(model_delete_row(m, row), filter).entities == m.entities,
        !m.updating && m.selected is Some ==> model_undo(model_flag_changed(m, mask, checked), filter).entities
            == model_commit(m).entities,
{
}

/// Redo right after an undo gives back the entities the undo replaced, once
/// the rows were committed, and leaves the redo stack as it was.
pub proof fn law_redo_after_undo(m: EditorModel, filter: Seq<char>)
    requires
        m.undo.len() > 0,
    ensures
        model_redo(model_undo(m, filter), filter).entities == model_commit(m).entities,
        model_redo(model_undo(m, filter), filter).redo == m.redo,
{
    let c = model_commit(m);
    assert(c.undo == m.undo);
    assert(c.redo == m.redo);
    let u = model_undo(m, filter);
    assert(u.redo == m.redo.push((c.entities, c.selected)));
    assert(u.redo.drop_last() =~= m.redo);
}

proof fn lemma_kv_rows_distinct(rows: Seq<Entry>)
    ensures
        distinct_keys(kv_rows(rows)),
    decreases rows.len(),
{
    if rows.len() > 0 {
        lemma_kv_rows_distinct(rows.drop_last());
        let k = trim(rows.last().0);
        if k.len() > 0 {
            crate::entity::lemma_insert_entry(kv_rows(rows.drop_last()), k, rows.last().1);
        }
    }
}

/// Right after the rows are loaded there are no pending row edits.
pub proof fn law_loaded_rows_not_pending(m: EditorModel)
    ensures
        !model_pending(model_load_rows(m)),
{
}

/// Ticking or clearing a spawn flag leaves the selected entity with exactly
/// the new flags, read back as none for 0, and its `spawnflags` row (where
/// it has one) showing them.
pub proof fn law_flag_read_back(m: EditorModel, mask: u32, checked: bool)
    requires
        !m.updating,
        m.selected is Some,
        m.selected.unwrap() < m.entities.len(),
        forall|k: int| 0 <= k < m.entities.len() ==> distinct_keys(#[trigger] m.entities[k]),
    ensures
        ({
            let i = m.selected.unwrap();
            let f = new_flags(flags_of(m.entities, i), mask, checked);
            let r = model_flag_changed(m, mask, checked);
            &&& spawnflags_of(r.entities[i as int]) == (if f == 0 {
                None::<nat>
            } else {
                Some(f as nat)
            })
            &&& r.entities.len() == m.entities.len()
            &&& forall|k: int| 0 <= k < m.entities.len() && k != i ==> #[trigger] r.entities[k] == m.entities[k]
        }),
{
    let i = m.selected.unwrap();
    let f = new_flags(flags_of(m.entities, i), mask, checked);
    let c = model_commit(m);
    lemma_kv_rows_distinct(m.rows);
    assert(distinct_keys(c.entities[i as int]));
    crate::entity::law_spawnflags_roundtrip(c.entities[i as int], f as nat);
}

/// Cloning with an entity selected appends a copy of that entity as it
/// stands once the rows are written back into it: the copy equals the
/// selected entity, which holds the rows; every other entity stays.
pub proof fn law_clone_copies_committed(m: EditorModel)
    requires
        m.selected matches Some(i) && i < m.entities.len(),
    ensures
        ({
            let i = m.selected.unwrap() as int;
            let r = model_clone(m);
            &&& r.entities.len() == m.entities.len() + 1
            &&& r.entities.last() == r.entities[i]
            &&& r.entities[i] == kv_rows(m.rows)
            &&& forall|j: int|
                0 <= j < m.entities.len() && j != i ==> #[trigger] r.entities[j] == m.entities[j]
            &&& r.selected == m.selected
        }),
{
}

/// An empty filter lists every entity, in order; any filter lists every
/// entity that matches it and no other, in ascending order.
pub proof fn law_filter(es: Seq<Seq<Entry>>, f: Seq<char>)
    requires
        es.len() <= usize::MAX,
    ensures
        forall|i: int|
            0 <= i < es.len() ==> (matches_filter(#[trigger] es[i], f) <==> filtered(es, f).contains(
                i as usize,
            )),
        f.len() == 0 ==> filtered(es, f) == Seq::new(es.len(), |i: int| i as usize),
        forall|k: int|
            0 <= k < filtered(es, f).len() ==> (#[trigger] filtered(es, f)[k]) < es.len()
                && matches_filter(es[filtered(es, f)[k] as int], f),
        forall|k: int, l: int|
            0 <= k < l < filtered(es, f).len() ==> (#[trigger] filtered(es, f)[k]) < (
            #[trigger] filtered(es, f)[l]),
    decreases es.len(),
{
    if es.len() > 0 {
        let e1 = es.drop_last();
        law_filter(e1, f);
        let prev = filtered(e1, f);
        let fl = filtered(es, f);
        if f.len() == 0 {
            assert(fl =~= Seq::new(es.len(), |i: int| i as usize));
        }
        assert forall|k: int| 0 <= k < fl.len() implies (#[trigger] fl[k]) < es.len()
            && matches_filter(es[fl[k] as int], f) by {
            if k < prev.len() {
                assert(fl[k] == prev[k]);
                assert(es[prev[k] as int] == e1[prev[k] as int]);
            } else {
                assert(fl[k] == (es.len() - 1) as usize);
                assert(es[es.len() - 1] == es.last());
            }
        }
        assert forall|k: int, l: int| 0 <= k < l < fl.len() implies (#[trigger] fl[k]) < (
        #[trigger] fl[l]) by {
            if l < prev.len() {
                assert(fl[k] == prev[k] && fl[l] == prev[l]);
            } else {
                assert(fl[k] == prev[k]);
                assert(fl[l] == (es.len() - 1) as usize);
            }
        }
        assert forall|i: int| 0 <= i < es.len() implies (matches_filter(#[trigger] es[i], f)
            <==> fl.contains(i as usize)) by {
            if i < e1.len() {
                assert(es[i] == e1[i]);
                assert(matches_filter(e1[i], f) <==> prev.contains(i as usize));
                if prev.contains(i as usize) {
                    let k = choose|k: int| 0 <= k < prev.len() && prev[k] == i as usize;
                    assert(fl[k] == prev[k]);
                }
                if fl.contains(i as usize) {
                    let k = choose|k: int| 0 <= k < fl.len() && fl[k] == i as usize;
                    if k < prev.len() {
                        assert(fl[k] == prev[k]);
                    } else {
                        assert(fl[k] == (es.len() - 1) as usize);
                    }
                }
            } else {
                assert(es[i] == es.last());
                if matches_filter(es.last(), f) {
                    assert(fl[prev.len() as int] == i as usize);
                }
                if fl.contains(i as usize) {
                    let k = choose|k: int| 0 <= k < fl.len() && fl[k] == i as usize;
                    if k < prev.len() {
                        assert(fl[k] == prev[k]);
                        assert(prev[k] < e1.len());
                    }
                }
            }
        }
    } else {
        assert(filtered(es, f) =~= Seq::new(es.len(), |i: int| i as usize));
    }
}

// ---------------------------------------------------------------------------
// The controller
// ---------------------------------------------------------------------------

/// A snapshot for undo and redo.
struct UndoState {
    entities: Vec<EntityDictionary>,
    selected_entity: Option<usize>,
}

spec fn snap_views(v: Seq<UndoState>) -> Seq<Snap> {
    v.map_values(|u: UndoState| (dict_views(u.entities@), u.selected_entity))
}

/// The state behind the editor screen.
pub struct EditorController {
    entities: Vec<EntityDictionary>,
    saved: Vec<EntityDictionary>,
    filtered_idxs: Vec<usize>,
    selected_entity: Option<usize>,
    rows: Vec<(String, String)>,
    shown_classname: String,
    updating_views: bool,
    undo_stack: Vec<UndoState>,
    redo_stack: Vec<UndoState>,
}

impl View for EditorController {
    type V = EditorModel;

    closed spec fn view(&self) -> EditorModel {
        EditorModel {
            entities: dict_views(self.entities@),
            saved: dict_views(self.saved@),
            filtered: self.filtered_idxs@,
            selected: self.selected_entity,
            rows: pair_views(self.rows@),
            shown: self.shown_classname@,
            updating: self.updating_views,
            undo: snap_views(self.undo_stack@),
            redo: snap_views(self.redo_stack@),
        }
    }
}

/// Copies of a list of entities.
pub fn copy_entities(v: &[EntityDictionary]) -> (r: Vec<EntityDictionary>)
    ensures
        dict_views(r@) == dict_views(v@),
{
    let mut out: Vec<EntityDictionary> = Vec::new();
    let mut i: usize = 0;
    while i < v.len()
        invariant
            0 <= i <= v@.len(),
            dict_views(out@) == dict_views(v@).take(i as int),
        decreases v@.len() - i,
    {
        let ghost before = dict_views(out@);
        let c = v[i].copied();
        out.push(c);
        assert(dict_views(out@) =~= before.push(c@));
        assert(dict_views(v@).take(i + 1) =~= dict_views(v@).take(i as int).push(v@[i as int]@));
        i = i + 1;
    }
    assert(dict_views(v@).take(v@.len() as int) =~= dict_views(v@));
    out
}

/// Whether an entity matches a filter that is already trimmed and
/// lower-cased.
fn entity_matches(e: &EntityDictionary, f: &[char]) -> (r: bool)
    ensures
        r == matches_filter(e@, f@),
{
    if f.len() == 0 {
        return true;
    }
    let cn = to_lowercase(e.get_classname());
    if contains_chars(str_chars(cn.as_str()).as_slice(), f) {
        return true;
    }
    let pairs = e.pairs();
    let mut j: usize = 0;
    while j < pairs.len()
        invariant
            0 <= j <= pairs@.len(),
            pair_views(pairs@) == e@,
            f@.len() > 0,
            !has_substring(lowercase(classname_of(e@)), f@),
            forall|q: int|
                0 <= q < j ==> !(has_substring(lowercase(#[trigger] e@[q].0), f@) || has_substring(
                    lowercase(e@[q].1),
                    f@,
                )),
        decreases pairs@.len() - j,
    {
        assert(e@[j as int] == (pairs@[j as int].0@, pairs@[j as int].1@));
        let lk = to_lowercase(pairs[j].0.as_str());
        let lv = to_lowercase(pairs[j].1.as_str());
        if contains_chars(str_chars(lk.as_str()).as_slice(), f) || contains_chars(
            str_chars(lv.as_str()).as_slice(),
            f,
        ) {
            return true;
        }
        j = j + 1;
    }
    false
}

/// The label the rows give an entity.
fn shown_of_rows(rows: &Vec<(String, String)>) -> (r: String)
    ensures
        r@ == shown_for(pair_views(rows@)),
{
    proof {
        lemma_key_literals();
    }
    let ghost pv = pair_views(rows@);
    let ck = str_chars("classname");
    let mut j: usize = 0;
    assert(pv.subrange(0, pv.len() as int) =~= pv);
    while j < rows.len()
        invariant
            0 <= j <= rows@.len(),
            pv == pair_views(rows@),
            ck@ == classname_key(),
            classname_row(pv) == classname_row(pv.subrange(j as int, pv.len() as int)),
        decreases rows@.len() - j,
    {
        let ghost sub = pv.subrange(j as int, pv.len() as int);
        assert(sub[0] == pv[j as int]);
        assert(sub.drop_first() =~= pv.subrange(j + 1, pv.len() as int));
        let k = trim_chars(str_chars(rows[j].0.as_str()).as_slice());
        assert(pv[j as int] == (rows@[j as int].0@, rows@[j as int].1@));
        if chars_eq(k.as_slice(), ck.as_slice()) {
            assert(classname_row(sub) == Some(pv[j as int].1));
            let v = str_chars(rows[j].1.as_str());
            assert(v@ == pv[j as int].1);
            assert(classname_row(pv) == Some(v@));
            if is_blank(v.as_slice()) {
                proof {
                    lemma_key_literals();
                }
                return "<no classname>".to_owned();
            } else {
                return rows[j].1.clone();
            }
        }
        j = j + 1;
    }
    assert(pv.subrange(pv.len() as int, pv.len() as int) =~= Seq::<Entry>::empty());
    "<no classname>".to_owned()
}

/// Whether two lists of rows hold the same keys and values in the same
/// order.
fn rows_equal(a: &Vec<(String, String)>, b: &Vec<(String, String)>) -> (r: bool)
    ensures
        r == (pair_views(a@) == pair_views(b@)),
{
    if a.len() != b.len() {
        assert(pair_views(a@).len() != pair_views(b@).len());
        return false;
    }
    let mut i: usize = 0;
    while i < a.len()
        invariant
            0 <= i <= a@.len(),
            a@.len() == b@.len(),
            forall|q: int| 0 <= q < i ==> #[trigger] pair_views(a@)[q] == pair_views(b@)[q],
        decreases a@.len() - i,
    {
        let ak = str_chars(a[i].0.as_str());
        let bk = str_chars(b[i].0.as_str());
        let av = str_chars(a[i].1.as_str());
        let bv = str_chars(b[i].1.as_str());
        if !chars_eq(ak.as_slice(), bk.as_slice()) || !chars_eq(av.as_slice(), bv.as_slice()) {
            assert(pair_views(a@)[i as int] != pair_views(b@)[i as int]);
            return false;
        }
        i = i + 1;
    }
    assert(pair_views(a@) =~= pair_views(b@));
    true
}

impl EditorController {
    /// An editor on the given entities, all of them saved.
    pub fn new(entities: &[EntityDictionary]) -> (r: Self)
        ensures
            r@ == model_new(dict_views(entities@)),
    {
        let r = EditorController {
            entities: copy_entities(entities),
            saved: copy_entities(entities),
            filtered_idxs: Vec::new(),
            selected_entity: None,
            rows: Vec::new(),
            shown_classname: String::new(),
            updating_views: false,
            undo_stack: Vec::new(),
            redo_stack: Vec::new(),
        };
        assert(r@.rows =~= Seq::<Entry>::empty());
        assert(r@.undo =~= Seq::<Snap>::empty());
        assert(r@.redo =~= Seq::<Snap>::empty());
        r
    }

    /// The entities being edited.
    pub fn entities(&self) -> (r: &Vec<EntityDictionary>)
        ensures
            dict_views(r@) == self@.entities,
    {
        &self.entities
    }

    /// Positions of the entities the list shows.
    pub fn filtered_idxs(&self) -> (r: &Vec<usize>)
        ensures
            r@ == self@.filtered,
    {
        &self.filtered_idxs
    }

    /// The selected entity.
    pub fn selected_entity(&self) -> (r: Option<usize>)
        ensures
            r == self@.selected,
    {
        self.selected_entity
    }

    /// The rows of the property table.
    pub fn rows(&self) -> (r: &Vec<(String, String)>)
        ensures
            pair_views(r@) == self@.rows,
    {
        &self.rows
    }

    /// The label of the selected entity in the list.
    pub fn shown_classname(&self) -> (r: &String)
        ensures
            r@ == self@.shown,
    {
        &self.shown_classname
    }

    /// Whether the screen is being redrawn.
    pub fn updating_views(&self) -> (r: bool)
        ensures
            r == self@.updating,
    {
        self.updating_views
    }

    /// Marks the screen as being redrawn, or not.
    pub fn set_updating_views(&mut self, updating: bool)
        ensures
            final(self)@ == (EditorModel { updating: updating, ..old(self)@ }),
    {
        self.updating_views = updating;
    }

    /// Positions of the entities that match a filter: those whose class
    /// name, or one of whose keys or values, holds the trimmed filter, both
    /// lower-cased; all of them for a blank filter.
    pub fn compute_filtered_idxs(&self, filter: &str) -> (r: Vec<usize>)
        ensures
            r@ == filtered(self@.entities, filter_key(filter@)),
            forall|i: int|
                0 <= i < self@.entities.len() ==> (matches_filter(
                    #[trigger] self@.entities[i],
                    filter_key(filter@),
                ) <==> r@.contains(i as usize)),
            forall|k: int, l: int| 0 <= k < l < r@.len() ==> (#[trigger] r@[k]) < (#[trigger] r@[l]),
    {
        let count = self.entities.len();
        proof {
            assert(self@.entities.len() == count);
            law_filter(self@.entities, filter_key(filter@));
        }
        let trimmed = trim_chars(str_chars(filter).as_slice());
        let key = to_lowercase(string_from_chars(trimmed.as_slice()).as_str());
        let f = str_chars(key.as_str());
        let ghost es = self@.entities;
        let mut out: Vec<usize> = Vec::new();
        let mut i: usize = 0;
        assert(es.take(0) =~= Seq::<Seq<Entry>>::empty());
        while i < self.entities.len()
            invariant
                0 <= i <= self.entities@.len(),
                es == dict_views(self.entities@),
                f@ == filter_key(filter@),
                out@ == filtered(es.take(i as int), f@),
            decreases self.entities@.len() - i,
        {
            let ghost t = es.take(i + 1);
            assert(t.drop_last() =~= es.take(i as int));
            assert(t.last() == self.entities@[i as int]@);
            if entity_matches(&self.entities[i], f.as_slice()) {
                out.push(i);
            }
            i = i + 1;
        }
        assert(es.take(es.len() as int) =~= es);
        out
    }

    /// Loads the rows of the selected entity, sorted by key, and its label.
    pub fn load_rows(&mut self)
        ensures
            final(self)@ == model_load_rows(old(self)@),
    {
        let rows = match self.selected_entity {
            Some(idx) => {
                if idx < self.entities.len() {
                    self.entities[idx].to_kv_pairs()
                } else {
                    Vec::new()
                }
            },
            None => Vec::new(),
        };
        assert(pair_views(rows@) =~= rows_of(self@.entities, self@.selected));
        self.rows = rows;
        self.shown_classname = shown_of_rows(&self.rows);
    }

    /// Whether the rows differ from the selected entity's sorted pairs.
    pub fn has_pending_row_edits(&self) -> (r: bool)
        ensures
            r == model_pending(self@),
    {
        match self.selected_entity {
            None => false,
            Some(idx) => {
                let expected = if idx < self.entities.len() {
                    self.entities[idx].to_kv_pairs()
                } else {
                    Vec::new()
                };
                assert(pair_views(expected@) =~= rows_of(self@.entities, Some(idx)));
                !rows_equal(&self.rows, &expected)
            },
        }
    }

    /// Writes the rows back into the selected entity: keys trimmed, rows
    /// with an empty key dropped, a later row for a key winning.
    pub fn commit_rows(&mut self)
        ensures
            final(self)@ == model_commit(old(self)@),
    {
        let idx = match self.selected_entity {
            Some(idx) => idx,
            None => {
                return ;
            },
        };
        if idx < self.entities.len() {
            let mut pairs: Vec<(&str, &str)> = Vec::new();
            let mut j: usize = 0;
            while j < self.rows.len()
                invariant
                    0 <= j <= self.rows@.len(),
                    str_pair_views(pairs@) == pair_views(self.rows@).take(j as int),
                decreases self.rows@.len() - j,
            {
                let ghost before = str_pair_views(pairs@);
                let kj = self.rows[j].0.as_str();
                let vj = self.rows[j].1.as_str();
                pairs.push((kj, vj));
                assert(str_pair_views(pairs@) =~= before.push((kj@, vj@)));
                assert(pair_views(self.rows@)[j as int] == (kj@, vj@));
                assert(pair_views(self.rows@).take(j + 1) =~= pair_views(self.rows@).take(
                    j as int,
                ).push(pair_views(self.rows@)[j as int]));
                j = j + 1;
            }
            assert(pair_views(self.rows@).take(self.rows@.len() as int) =~= pair_views(self.rows@));
            let d = EntityDictionary::from_kv_pairs(pairs.as_slice());
            let ghost before = dict_views(self.entities@);
            self.entities.set(idx, d);
            assert(dict_views(self.entities@) =~= before.update(idx as int, d@));
        }
    }

    /// Takes a snapshot of the entities and the selection for undo, and
    /// forgets what could be redone.
    pub fn push_undo(&mut self)
        ensures
            final(self)@ == model_push_undo(old(self)@),
    {
        let snap = UndoState {
            entities: copy_entities(&self.entities),
            selected_entity: self.selected_entity,
        };
        let ghost before = snap_views(self.undo_stack@);
        self.undo_stack.push(snap);
        assert(snap_views(self.undo_stack@) =~= before.push((self@.entities, self@.selected)));
        self.redo_stack = Vec::new();
        assert(snap_views(self.redo_stack@) =~= Seq::<Snap>::empty());
    }
}

impl EditorController {
    /// Selects an entity and loads its rows.
    pub fn select_entity(&mut self, idx: usize)
        ensures
            final(self)@ == model_select(old(self)@, idx),
    {
        self.selected_entity = Some(idx);
        self.load_rows();
    }

    /// Rebuilds the list for a filter and selects the first entity it shows,
    /// or none.
    pub fn rebuild_list(&mut self, filter: &str)
        ensures
            final(self)@ == model_rebuild(old(self)@, filter@),
    {
        self.filtered_idxs = self.compute_filtered_idxs(filter);
        if self.filtered_idxs.len() > 0 {
            let idx = self.filtered_idxs[0];
            self.select_entity(idx);
        } else {
            self.selected_entity = None;
            self.rows = Vec::new();
            assert(pair_views(self.rows@) =~= Seq::<Entry>::empty());
        }
    }

    /// Fills the list with every entity.
    pub fn populate_list(&mut self)
        ensures
            final(self)@ == model_rebuild(old(self)@, ""@),
    {
        self.rebuild_list("");
    }

    /// Applies a filter typed into the filter box.
    pub fn apply_filter(&mut self, filter: &str)
        ensures
            final(self)@ == model_apply_filter(old(self)@, filter@),
    {
        if self.updating_views {
            return ;
        }
        self.commit_rows();
        self.rebuild_list(filter);
    }

    /// The position in the list of an entity, where the list shows it.
    pub fn list_position(&self, idx: usize) -> (r: Option<usize>)
        ensures
            match position(self@.filtered, idx) {
                Some(p) => r == Some(p as usize),
                None => r is None,
            },
    {
        let ghost fl = self.filtered_idxs@;
        let mut p: usize = 0;
        assert(fl.subrange(0, fl.len() as int) =~= fl);
        while p < self.filtered_idxs.len()
            invariant
                0 <= p <= fl.len(),
                fl == self.filtered_idxs@,
                match position(fl, idx) {
                    Some(q) => match position(fl.subrange(p as int, fl.len() as int), idx) {
                        Some(q2) => q == q2 + p,
                        None => false,
                    },
                    None => position(fl.subrange(p as int, fl.len() as int), idx) is None,
                },
            decreases fl.len() - p,
        {
            let ghost sub = fl.subrange(p as int, fl.len() as int);
            assert(sub[0] == fl[p as int]);
            assert(sub.drop_first() =~= fl.subrange(p + 1, fl.len() as int));
            if self.filtered_idxs[p] == idx {
                return Some(p);
            }
            p = p + 1;
        }
        assert(fl.subrange(p as int, fl.len() as int) =~= Seq::<usize>::empty());
        None
    }

    /// Moves the selection onto an entity the list shows, and hands back its
    /// position in the list; an entity the list does not show changes
    /// nothing.
    pub fn set_active_entity(&mut self, idx: usize) -> (r: Option<usize>)
        ensures
            match position(old(self)@.filtered, idx) {
                Some(p) => r == Some(p as usize) && final(self)@ == model_select(old(self)@, idx),
                None => r is None && final(self)@ == old(self)@,
            },
    {
        let pos = self.list_position(idx);
        if pos.is_some() {
            self.select_entity(idx);
        }
        pos
    }

    fn restore(&mut self, state: UndoState, filter: &str)
        ensures
            final(self)@ == model_restore(
                old(self)@,
                (dict_views(state.entities@), state.selected_entity),
                filter@,
            ),
    {
        self.entities = state.entities;
        self.selected_entity = state.selected_entity;
        self.filtered_idxs = self.compute_filtered_idxs(filter);
        let effective = match self.selected_entity {
            Some(i) => {
                if i < self.entities.len() {
                    Some(i)
                } else if self.filtered_idxs.len() > 0 {
                    Some(self.filtered_idxs[0])
                } else {
                    None
                }
            },
            None => {
                if self.filtered_idxs.len() > 0 {
                    Some(self.filtered_idxs[0])
                } else {
                    None
                }
            },
        };
        self.selected_entity = effective;
        match effective {
            Some(idx) => self.select_entity(idx),
            None => {
                self.rows = Vec::new();
                assert(pair_views(self.rows@) =~= Seq::<Entry>::empty());
            },
        }
    }

    /// Undo: commits the rows, then goes back to the latest snapshot,
    /// keeping the current state for redo. Hands back whether there was a
    /// snapshot.
    pub fn undo(&mut self, filter: &str) -> (r: bool)
        ensures
            final(self)@ == model_undo(old(self)@, filter@),
            r == (old(self)@.undo.len() > 0),
    {
        self.commit_rows();
        let ghost c = self@;
        let ghost u = self.undo_stack@;
        let state = match self.undo_stack.pop() {
            Some(s) => s,
            None => {
                return false;
            },
        };
        assert(snap_views(self.undo_stack@) =~= c.undo.drop_last());
        assert((dict_views(state.entities@), state.selected_entity) == c.undo.last());
        let snap = UndoState {
            entities: copy_entities(&self.entities),
            selected_entity: self.selected_entity,
        };
        let ghost before = snap_views(self.redo_stack@);
        self.redo_stack.push(snap);
        assert(snap_views(self.redo_stack@) =~= before.push((c.entities, c.selected)));
        self.restore(state, filter);
        true
    }

    /// Redo: goes forward to the latest redo snapshot, keeping the current
    /// state for undo. Hands back whether there was a snapshot.
    pub fn redo(&mut self, filter: &str) -> (r: bool)
        ensures
            final(self)@ == model_redo(old(self)@, filter@),
            r == (old(self)@.redo.len() > 0),
    {
        let ghost c = self@;
        let state = match self.redo_stack.pop() {
            Some(s) => s,
            None => {
                return false;
            },
        };
        assert(snap_views(self.redo_stack@) =~= c.redo.drop_last());
        assert((dict_views(state.entities@), state.selected_entity) == c.redo.last());
        let snap = UndoState {
            entities: copy_entities(&self.entities),
            selected_entity: self.selected_entity,
        };
        let ghost before = snap_views(self.undo_stack@);
        self.undo_stack.push(snap);
        assert(snap_views(self.undo_stack@) =~= before.push((c.entities, c.selected)));
        self.restore(state, filter);
        true
    }
}

/// Whether two lists hold the same entities, each with the same keys and
/// values.
pub fn same_entity_lists_exec(a: &Vec<EntityDictionary>, b: &Vec<EntityDictionary>) -> (r: bool)
    ensures
        r == same_entity_lists(dict_views(a@), dict_views(b@)),
{
    if a.len() != b.len() {
        return false;
    }
    let mut i: usize = 0;
    while i < a.len()
        invariant
            0 <= i <= a@.len(),
            a@.len() == b@.len(),
            forall|q: int| 0 <= q < i ==> same_map(#[trigger] dict_views(a@)[q], dict_views(b@)[q]),
        decreases a@.len() - i,
    {
        if !a[i].same_entries(&b[i]) {
            assert(!same_map(dict_views(a@)[i as int], dict_views(b@)[i as int]));
            return false;
        }
        i = i + 1;
    }
    true
}

impl EditorController {
    /// Adds an entity with only the class name `new_entity`, after
    /// committing the rows and taking a snapshot; hands back its position.
    pub fn create_entity(&mut self) -> (r: usize)
        requires
            old(self)@.entities.len() < usize::MAX,
        ensures
            final(self)@ == model_create(old(self)@),
            r == old(self)@.entities.len(),
    {
        self.commit_rows();
        self.push_undo();
        let e = EntityDictionary::new("new_entity");
        let ghost before = dict_views(self.entities@);
        self.entities.push(e);
        proof {
            lemma_key_literals();
        }
        assert(dict_views(self.entities@) =~= before.push(seq![(classname_key(), "new_entity"@)]));
        self.entities.len() - 1
    }

    /// Adds a copy of the selected entity, after committing the rows and
    /// taking a snapshot; hands back its position, or none where no entity
    /// is selected.
    pub fn clone_entity(&mut self) -> (r: Option<usize>)
        requires
            old(self)@.entities.len() < usize::MAX,
        ensures
            final(self)@ == model_clone(old(self)@),
            r == (match old(self)@.selected {
                Some(i) => if i < old(self)@.entities.len() {
                    Some(old(self)@.entities.len() as usize)
                } else {
                    None::<usize>
                },
                None => None::<usize>,
            }),
            r matches Some(n) ==> old(self)@.selected matches Some(i) && final(self)@.entities[n as int]
                == final(self)@.entities[i as int] && final(self)@.entities[i as int] == kv_rows(
                old(self)@.rows,
            ),
    {
        proof {
            if old(self)@.selected matches Some(i) && i < old(self)@.entities.len() {
                law_clone_copies_committed(old(self)@);
            }
        }
        self.commit_rows();
        let idx = match self.selected_entity {
            Some(i) => i,
            None => {
                return None;
            },
        };
        if idx >= self.entities.len() {
            return None;
        }
        let copy = self.entities[idx].copied();
        self.push_undo();
        let ghost before = dict_views(self.entities@);
        self.entities.push(copy);
        assert(dict_views(self.entities@) =~= before.push(copy@));
        Some(self.entities.len() - 1)
    }

    /// Removes the selected entity, after committing the rows and taking a
    /// snapshot; hands back whether an entity was selected.
    pub fn delete_entity(&mut self) -> (r: bool)
        ensures
            final(self)@ == model_delete(old(self)@),
            r == (old(self)@.selected is Some),
    {
        self.commit_rows();
        let idx = match self.selected_entity {
            Some(i) => i,
            None => {
                return false;
            },
        };
        self.push_undo();
        if idx < self.entities.len() {
            let ghost before = dict_views(self.entities@);
            let _ = self.entities.remove(idx);
            assert(dict_views(self.entities@) =~= before.remove(idx as int));
        }
        true
    }

    /// Adds an empty row, after committing the rows and taking a snapshot;
    /// hands back its position.
    pub fn add_property_row(&mut self) -> (r: usize)
        requires
            old(self)@.rows.len() < usize::MAX,
        ensures
            final(self)@ == model_add_row(old(self)@),
            r == old(self)@.rows.len(),
    {
        self.commit_rows();
        self.push_undo();
        let ghost before = pair_views(self.rows@);
        let n = self.rows.len();
        self.rows.push((String::new(), String::new()));
        assert(pair_views(self.rows@) =~= before.push((Seq::empty(), Seq::empty())));
        n
    }

    /// Removes a row after taking a snapshot, then commits the rows; hands
    /// back whether there was such a row.
    pub fn delete_property_row(&mut self, row: usize) -> (r: bool)
        ensures
            final(self)@ == model_delete_row(old(self)@, row),
            r == (row < old(self)@.rows.len()),
    {
        if row >= self.rows.len() {
            return false;
        }
        self.push_undo();
        let ghost before = pair_views(self.rows@);
        let _ = self.rows.remove(row);
        assert(pair_views(self.rows@) =~= before.remove(row as int));
        self.commit_rows();
        true
    }

    /// Records an edit of a row's key (`is_key`) or value; hands back
    /// whether the list label should follow it, which it should where the
    /// row was or has become the class name row.
    pub fn property_changed(&mut self, row: usize, is_key: bool, value: String) -> (r: bool)
        ensures
            final(self)@ == model_property_changed(old(self)@, row, is_key, value@),
            r == property_relabels(old(self)@, row, is_key, value@),
    {
        proof {
            lemma_key_literals();
        }
        if self.updating_views || row >= self.rows.len() {
            return false;
        }
        let ck = str_chars("classname");
        let was = chars_eq(trim_chars(str_chars(self.rows[row].0.as_str()).as_slice()).as_slice(), ck.as_slice());
        let ghost before = pair_views(self.rows@);
        let mut rows: Vec<(String, String)> = Vec::new();
        std::mem::swap(&mut rows, &mut self.rows);
        let (k, v) = rows.remove(row);
        let new_row = if is_key {
            (value, v)
        } else {
            (k, value)
        };
        let now = chars_eq(trim_chars(str_chars(new_row.0.as_str()).as_slice()).as_slice(), ck.as_slice());
        rows.insert(row, new_row);
        self.rows = rows;
        assert(pair_views(self.rows@) =~= before.update(
            row as int,
            edited_row(before[row as int], is_key, value@),
        ));
        was || now
    }

    /// Sets the list label of the selected entity from its class name row,
    /// where that is not blank; hands back the entity's position in the
    /// list, where the list shows it.
    pub fn sync_entity_list_label(&mut self) -> (r: Option<usize>)
        ensures
            final(self)@ == model_sync_label(old(self)@),
            r == (match old(self)@.selected {
                Some(i) => match position(old(self)@.filtered, i) {
                    Some(p) => Some(p as usize),
                    None => None::<usize>,
                },
                None => None::<usize>,
            }),
    {
        proof {
            lemma_key_literals();
        }
        let idx = match self.selected_entity {
            Some(i) => i,
            None => {
                return None;
            },
        };
        let pos = self.list_position(idx);
        if pos.is_none() {
            return None;
        }
        let ghost pv = pair_views(self.rows@);
        let ck = str_chars("classname");
        let mut candidate: Vec<char> = Vec::new();
        let mut j: usize = 0;
        assert(pv.subrange(0, pv.len() as int) =~= pv);
        let mut found = false;
        while j < self.rows.len() && !found
            invariant
                0 <= j <= self.rows@.len(),
                pv == pair_views(self.rows@),
                ck@ == classname_key(),
                found ==> classname_row(pv) == Some(candidate@),
                !found ==> classname_row(pv) == classname_row(pv.subrange(j as int, pv.len() as int)),
                !found ==> candidate@ == Seq::<char>::empty(),
            decreases self.rows@.len() - j,
        {
            let ghost sub = pv.subrange(j as int, pv.len() as int);
            assert(sub[0] == pv[j as int]);
            assert(sub.drop_first() =~= pv.subrange(j + 1, pv.len() as int));
            assert(pv[j as int] == (self.rows@[j as int].0@, self.rows@[j as int].1@));
            let k = trim_chars(str_chars(self.rows[j].0.as_str()).as_slice());
            if chars_eq(k.as_slice(), ck.as_slice()) {
                candidate = str_chars(self.rows[j].1.as_str());
                found = true;
            }
            j = j + 1;
        }
        if !found {
            assert(pv.subrange(j as int, pv.len() as int) =~= Seq::<Entry>::empty());
        }
        if !is_blank(candidate.as_slice()) {
            self.shown_classname = string_from_chars(candidate.as_slice());
        }
        pos
    }

    /// Ticks (`checked`) or clears the bits of `mask` in the spawn flags of
    /// the selected entity: the rows are committed and a snapshot taken
    /// first, then the flags are set on the entity (0 removes the key) and
    /// in its `spawnflags` row.
    #[verifier::spinoff_prover]
    pub fn flag_changed(&mut self, mask: u32, checked: bool)
        ensures
            final(self)@ == model_flag_changed(old(self)@, mask, checked),
    {
        proof {
            lemma_key_literals();
        }
        if self.updating_views {
            return ;
        }
        let idx = match self.selected_entity {
            Some(i) => i,
            None => {
                return ;
            },
        };
        let old_flags: u32 = if idx < self.entities.len() {
            match self.entities[idx].get_spawnflags() {
                Some(f) => f,
                None => 0,
            }
        } else {
            0
        };
        self.commit_rows();
        self.push_undo();
        let flags: u32 = if checked {
            old_flags | mask
        } else {
            old_flags & !mask
        };
        if idx < self.entities.len() {
            let mut es: Vec<EntityDictionary> = Vec::new();
            std::mem::swap(&mut es, &mut self.entities);
            let ghost before = dict_views(es@);
            let mut e = es.remove(idx);
            e.set_spawnflags(flags);
            es.insert(idx, e);
            assert(dict_views(es@) =~= before.update(idx as int, with_spawnflags(before[idx as int], flags as nat)));
            self.entities = es;
        }
        let value: String = if flags == 0 {
            String::new()
        } else {
            crate::text::u32_to_string(flags)
        };
        let ghost pv = pair_views(self.rows@);
        let sk = str_chars("spawnflags");
        let mut j: usize = 0;
        let mut at: Option<usize> = None;
        assert(pv.subrange(0, pv.len() as int) =~= pv);
        while j < self.rows.len() && at.is_none()
            invariant
                0 <= j <= self.rows@.len(),
                pv == pair_views(self.rows@),
                sk@ == spawnflags_key(),
                at matches Some(p) ==> row_with_key(pv, spawnflags_key()) == Some(p as nat) && p < pv.len(),
                at is None ==> row_with_key(pv, spawnflags_key()) == (match row_with_key(
                    pv.subrange(j as int, pv.len() as int),
                    spawnflags_key(),
                ) {
                    Some(q) => Some((q + j) as nat),
                    None => None::<nat>,
                }),
            decreases self.rows@.len() - j,
        {
            let ghost sub = pv.subrange(j as int, pv.len() as int);
            assert(sub[0] == pv[j as int]);
            assert(sub.drop_first() =~= pv.subrange(j + 1, pv.len() as int));
            assert(pv[j as int] == (self.rows@[j as int].0@, self.rows@[j as int].1@));
            let k = str_chars(self.rows[j].0.as_str());
            if chars_eq(k.as_slice(), sk.as_slice()) {
                at = Some(j);
            }
            j = j + 1;
        }
        if at.is_none() {
            assert(pv.subrange(j as int, pv.len() as int) =~= Seq::<Entry>::empty());
        }
        let ghost vv = if flags == 0 {
            Seq::<char>::empty()
        } else {
            decimal(flags as nat)
        };
        assert(value@ == vv);
        match at {
            Some(p) => {
                let mut rows: Vec<(String, String)> = Vec::new();
                std::mem::swap(&mut rows, &mut self.rows);
                let (k, _v) = rows.remove(p);
                rows.insert(p, (k, value));
                self.rows = rows;
                assert(pair_views(self.rows@) =~= pv.update(p as int, (pv[p as int].0, vv)));
            },
            None => {
                if flags != 0 {
                    self.rows.push(("spawnflags".to_owned(), value));
                    assert(pair_views(self.rows@) =~= pv.push((spawnflags_key(), vv)));
                }
            },
        }
    }

    /// Selects the entity at a list position, committing pending row edits
    /// first (after a snapshot); nothing happens while the screen is being
    /// redrawn, for a position past the list, or for the entity already
    /// selected.
    pub fn on_list_select(&mut self, pos: usize)
        ensures
            final(self)@ == model_list_select(old(self)@, pos),
    {
        if self.updating_views || pos >= self.filtered_idxs.len() {
            return ;
        }
        let idx = self.filtered_idxs[pos];
        if self.selected_entity == Some(idx) {
            return ;
        }
        if self.has_pending_row_edits() {
            self.push_undo();
        }
        self.commit_rows();
        self.select_entity(idx);
    }

    /// Commits the rows and tells whether the entities are as last saved.
    pub fn on_close(&mut self) -> (r: bool)
        ensures
            final(self)@ == model_commit(old(self)@),
            r == same_entity_lists(final(self)@.entities, final(self)@.saved),
    {
        self.commit_rows();
        same_entity_lists_exec(&self.entities, &self.saved)
    }

    /// Records that the current entities were saved.
    pub fn mark_saved(&mut self)
        ensures
            final(self)@ == model_mark_saved(old(self)@),
    {
        self.saved = copy_entities(&self.entities);
    }
}

// ---------------------------------------------------------------------------
// Key/value lines
// ---------------------------------------------------------------------------

/// The position of the first `c` in `s`.
pub open spec fn first_index(s: Seq<char>, c: char) -> Option<nat>
    decreases s.len(),
{
    if s.len() == 0 {
        None
    } else if s[0] == c {
        Some(0)
    } else {
        match first_index(s.drop_first(), c) {
            Some(p) => Some(p + 1),
            None => None,
        }
    }
}

/// The pair one `key=value` line gives: both sides of the first `=`,
/// trimmed; none for a line without `=`.
pub open spec fn line_pair(line: Seq<char>) -> Option<Entry> {
    match first_index(line, '=') {
        Some(p) => Some((trim(line.take(p as int)), trim(line.skip(p + 1 as int)))),
        None => None,
    }
}

/// The pairs of the lines that hold an `=`, in order.
pub open spec fn line_pairs(ls: Seq<Seq<char>>) -> Seq<Entry>
    decreases ls.len(),
{
    if ls.len() == 0 {
        Seq::empty()
    } else {
        match line_pair(ls.last()) {
            Some(p) => line_pairs(ls.drop_last()).push(p),
            None => line_pairs(ls.drop_last()),
        }
    }
}

/// The entity that `key=value` lines describe: a later line for a key wins.
pub open spec fn parsed_key_values(text: Seq<char>) -> Seq<Entry> {
    insert_all(Seq::empty(), line_pairs(lines(text)))
}

/// `key=value` for each pair, joined by CR LF.
pub open spec fn joined_key_values(e: Seq<Entry>) -> Seq<char>
    decreases e.len(),
{
    if e.len() == 0 {
        Seq::empty()
    } else if e.len() == 1 {
        e[0].0 + seq!['='] + e[0].1
    } else {
        joined_key_values(e.drop_last()) + seq!['\r', '\n'] + e.last().0 + seq!['='] + e.last().1
    }
}

/// Reads `key=value` lines: each side of the first `=` trimmed, lines
/// without `=` skipped, an empty key allowed, a later line for a key
/// winning.
pub fn parse_key_values(text: &str) -> (r: EntityDictionary)
    ensures
        r@ == parsed_key_values(text@),
{
    let ls = lines_chars(str_chars(text).as_slice());
    let ghost lv = lines(text@);
    let mut d = EntityDictionary::empty();
    let mut i: usize = 0;
    assert(lv.take(0) =~= Seq::<Seq<char>>::empty());
    while i < ls.len()
        invariant
            0 <= i <= ls@.len(),
            crate::text::views(ls@) == lv,
            ls@.len() == lv.len(),
            d@ == insert_all(Seq::empty(), line_pairs(lv.take(i as int))),
        decreases ls@.len() - i,
    {
        let line = &ls[i];
        let ghost lw = lv.take(i + 1);
        assert(lw.drop_last() =~= lv.take(i as int));
        assert(lw.last() == line@);
        let mut p: usize = 0;
        assert(line@.subrange(0, line@.len() as int) =~= line@);
        while p < line.len() && line[p] != '='
            invariant
                0 <= p <= line@.len(),
                first_index(line@, '=') == (match first_index(
                    line@.subrange(p as int, line@.len() as int),
                    '=',
                ) {
                    Some(q) => Some((q + p) as nat),
                    None => None::<nat>,
                }),
            decreases line@.len() - p,
        {
            let ghost sub = line@.subrange(p as int, line@.len() as int);
            assert(sub[0] == line@[p as int]);
            assert(sub.drop_first() =~= line@.subrange(p + 1, line@.len() as int));
            p = p + 1;
        }
        if p < line.len() {
            let ghost sub = line@.subrange(p as int, line@.len() as int);
            assert(sub[0] == line@[p as int]);
            assert(first_index(line@, '=') == Some(p as nat));
            let mut left: Vec<char> = Vec::new();
            let mut right: Vec<char> = Vec::new();
            let mut q: usize = 0;
            while q < line.len()
                invariant
                    0 <= p < line@.len(),
                    0 <= q <= line@.len(),
                    left@ == line@.take(if q < p {
                        q as int
                    } else {
                        p as int
                    }),
                    right@ == (if q <= p + 1 {
                        Seq::<char>::empty()
                    } else {
                        line@.subrange(p + 1, q as int)
                    }),
                decreases line@.len() - q,
            {
                if q < p {
                    left.push(line[q]);
                    assert(left@ =~= line@.take(q + 1));
                } else if q > p {
                    right.push(line[q]);
                    assert(right@ =~= line@.subrange(p + 1, q + 1));
                }
                q = q + 1;
            }
            if line.len() == p + 1 {
                assert(line@.skip(p + 1) =~= Seq::<char>::empty());
            } else {
                assert(line@.subrange(p + 1, line@.len() as int) =~= line@.skip(p + 1));
            }
            let k = trim_chars(left.as_slice());
            let v = trim_chars(right.as_slice());
            assert(left@ == line@.take(p as int));
            assert(right@ == line@.skip(p + 1 as int));
            let ghost pr = (k@, v@);
            assert(line_pair(line@) == Some(pr));
            let ghost prev = line_pairs(lv.take(i as int));
            assert(line_pairs(lw) == prev.push(pr));
            assert(line_pairs(lw).drop_last() =~= prev);
            d.insert(string_from_chars(k.as_slice()), string_from_chars(v.as_slice()));
        } else {
            assert(line@.subrange(p as int, line@.len() as int) =~= Seq::<char>::empty());
            assert(line_pair(line@) is None);
            assert(line_pairs(lw) == line_pairs(lv.take(i as int)));
        }
        i = i + 1;
    }
    assert(lv.take(lv.len() as int) =~= lv);
    d
}

/// Writes an entity as `key=value` lines sorted by key, joined by CR LF.
pub fn render_key_values(dict: &EntityDictionary) -> (r: String)
    ensures
        r@ == joined_key_values(sorted_entries(dict@)),
{
    let pairs = dict.to_kv_pairs();
    let ghost e = pair_views(pairs@);
    let mut out: Vec<char> = Vec::new();
    let mut i: usize = 0;
    assert(e.take(0) =~= Seq::<Entry>::empty());
    while i < pairs.len()
        invariant
            0 <= i <= pairs@.len(),
            e == pair_views(pairs@),
            out@ == joined_key_values(e.take(i as int)),
        decreases pairs@.len() - i,
    {
        let ghost t = e.take(i + 1);
        assert(t.drop_last() =~= e.take(i as int));
        assert(t.last() == e[i as int]);
        assert(e[i as int] == (pairs@[i as int].0@, pairs@[i as int].1@));
        let ghost before = out@;
        if i > 0 {
            out.push('\r');
            out.push('\n');
        }
        push_chars(&mut out, str_chars(pairs[i].0.as_str()).as_slice());
        out.push('=');
        push_chars(&mut out, str_chars(pairs[i].1.as_str()).as_slice());
        if i == 0 {
            assert(t =~= seq![e[0]]);
            assert(out@ =~= joined_key_values(t));
        } else {
            assert(out@ =~= joined_key_values(t));
        }
        i = i + 1;
    }
    assert(e.take(e.len() as int) =~= e);
    string_from_chars(out.as_slice())
}

/// One `key=value` line.
pub open spec fn kv_text(p: Entry) -> Seq<char> {
    p.0 + seq!['='] + p.1
}

/// No key holds `=`, no key or value holds a line feed, and none has white
/// space round it.
pub open spec fn plain_key_values(e: Seq<Entry>) -> bool {
    forall|i: int|
        0 <= i < e.len() ==> !(#[trigger] e[i]).0.contains('=') && !e[i].0.contains('\n')
            && !e[i].1.contains('\n') && trim(e[i].0) == e[i].0 && trim(e[i].1) == e[i].1
}

proof fn lemma_kv_text_no_lf(p: Entry)
    requires
        !p.0.contains('\n'),
        !p.1.contains('\n'),
    ensures
        !kv_text(p).contains('\n'),
{
    let t = kv_text(p);
    if t.contains('\n') {
        let k = choose|k: int| 0 <= k < t.len() && t[k] == '\n';
        if k < p.0.len() {
            assert(p.0[k] == '\n');
        } else if k == p.0.len() {
            assert(t[k] == '=');
        } else {
            assert(p.1[k - p.0.len() - 1] == '\n');
        }
    }
}

proof fn lemma_split_joined(e: Seq<Entry>)
    requires
        e.len() > 0,
        plain_key_values(e),
    ensures
        split(joined_key_values(e), '\n') == Seq::new(
            e.len(),
            |i: int| if i < e.len() - 1 {
                kv_text(e[i]).push('\r')
            } else {
                kv_text(e[i])
            },
        ),
    decreases e.len(),
{
    let want = Seq::new(
        e.len(),
        |i: int| if i < e.len() - 1 {
            kv_text(e[i]).push('\r')
        } else {
            kv_text(e[i])
        },
    );
    lemma_kv_text_no_lf(e[e.len() - 1]);
    if e.len() == 1 {
        assert(joined_key_values(e) == kv_text(e[0]));
        lemma_split_no_sep(kv_text(e[0]), '\n');
        assert(split(joined_key_values(e), '\n') =~= want);
    } else {
        let e1 = e.drop_last();
        assert(plain_key_values(e1)) by {
            assert forall|i: int| 0 <= i < e1.len() implies !(#[trigger] e1[i]).0.contains('=')
                && !e1[i].0.contains('\n') && !e1[i].1.contains('\n') && trim(e1[i].0) == e1[i].0
                && trim(e1[i].1) == e1[i].1 by {
                assert(e1[i] == e[i]);
            }
        }
        lemma_split_joined(e1);
        let j1 = joined_key_values(e1);
        let a = j1.push('\r');
        let b = kv_text(e.last());
        assert(joined_key_values(e) =~= a + seq!['\n'] + b);
        lemma_split_concat(a, b, '\n');
        lemma_split_no_sep(b, '\n');
        lemma_split_len(j1, '\n');
        assert(a.drop_last() =~= j1);
        let prev = split(j1, '\n');
        assert(split(a, '\n') == prev.update(prev.len() - 1, prev.last().push('\r')));
        assert(split(joined_key_values(e), '\n') =~= want) by {
            assert forall|i: int| 0 <= i < e.len() implies #[trigger] split(
                joined_key_values(e),
                '\n',
            )[i] == want[i] by {
                if i < e1.len() {
                    assert(e1[i] == e[i]);
                }
            }
        }
    }
}

proof fn lemma_lines_joined(e: Seq<Entry>)
    requires
        plain_key_values(e),
    ensures
        lines(joined_key_values(e)) == e.map_values(|p: Entry| kv_text(p)),
{
    if e.len() == 0 {
        assert(joined_key_values(e) =~= Seq::<char>::empty());
        assert(lines(joined_key_values(e)) =~= e.map_values(|p: Entry| kv_text(p)));
    } else {
        lemma_split_joined(e);
        let p = split(joined_key_values(e), '\n');
        assert(p.last() == kv_text(e[e.len() - 1]));
        assert(p.last()[e[e.len() - 1].0.len() as int] == '=');
        assert forall|i: int| 0 <= i < e.len() - 1 implies strip_cr(#[trigger] p[i]) == kv_text(
            e[i],
        ) by {
            assert(p[i] == kv_text(e[i]).push('\r'));
            assert(p[i].drop_last() =~= kv_text(e[i]));
        }
        assert(lines(joined_key_values(e)) =~= e.map_values(|p: Entry| kv_text(p)));
    }
}

proof fn lemma_first_eq(k: Seq<char>, v: Seq<char>)
    requires
        !k.contains('='),
    ensures
        first_index(k + seq!['='] + v, '=') == Some(k.len()),
    decreases k.len(),
{
    let t = k + seq!['='] + v;
    if k.len() == 0 {
        assert(t[0] == '=');
    } else {
        assert(t[0] == k[0]);
        assert(k[0] != '=') by {
            if k[0] == '=' {
                assert(k.contains('='));
            }
        }
        assert(!k.drop_first().contains('=')) by {
            if k.drop_first().contains('=') {
                let j = choose|j: int| 0 <= j < k.drop_first().len() && k.drop_first()[j] == '=';
                assert(k[j + 1] == '=');
            }
        }
        lemma_first_eq(k.drop_first(), v);
        assert(t.drop_first() =~= k.drop_first() + seq!['='] + v);
    }
}

proof fn lemma_line_pairs_of(e: Seq<Entry>)
    requires
        plain_key_values(e),
    ensures
        line_pairs(e.map_values(|p: Entry| kv_text(p))) == e,
    decreases e.len(),
{
    if e.len() > 0 {
        let e1 = e.drop_last();
        assert(plain_key_values(e1)) by {
            assert forall|i: int| 0 <= i < e1.len() implies !(#[trigger] e1[i]).0.contains('=')
                && !e1[i].0.contains('\n') && !e1[i].1.contains('\n') && trim(e1[i].0) == e1[i].0
                && trim(e1[i].1) == e1[i].1 by {
                assert(e1[i] == e[i]);
            }
        }
        lemma_line_pairs_of(e1);
        let ls = e.map_values(|p: Entry| kv_text(p));
        assert(ls.drop_last() =~= e1.map_values(|p: Entry| kv_text(p)));
        let last = e[e.len() - 1];
        assert(ls.last() == kv_text(last));
        lemma_first_eq(last.0, last.1);
        let t = kv_text(last);
        assert(t.take(last.0.len() as int) =~= last.0);
        assert(t.skip(last.0.len() + 1 as int) =~= last.1);
        assert(line_pair(t) == Some(last));
        assert(e1.push(last) =~= e);
    }
}

/// Writing an entity as `key=value` lines and reading them back gives the
/// same keys with the same values, where no key holds `=`, no key or value
/// holds a line feed, and none has white space round it.
pub proof fn law_key_values_roundtrip(e: Seq<Entry>)
    requires
        distinct_keys(e),
        plain_key_values(e),
    ensures
        same_map(parsed_key_values(joined_key_values(sorted_entries(e))), e),
{
    let s = sorted_entries(e);
    lemma_sorted_entries_same_map(e);
    crate::entity::lemma_sorted_entries_elems(e);
    assert(plain_key_values(s)) by {
        assert forall|i: int| 0 <= i < s.len() implies !(#[trigger] s[i]).0.contains('=')
            && !s[i].0.contains('\n') && !s[i].1.contains('\n') && trim(s[i].0) == s[i].0 && trim(
            s[i].1,
        ) == s[i].1 by {
            assert(s.contains(s[i]));
            assert(e.contains(s[i]));
            let j = choose|j: int| 0 <= j < e.len() && e[j] == s[i];
        }
    }
    lemma_lines_joined(s);
    lemma_line_pairs_of(s);
    crate::ent::lemma_insert_all_distinct(s);
    assert(parsed_key_values(joined_key_values(s)) == s);
}

} // verus!
