//! Counts of the entities of a BSP file and of the brush models nothing uses.

use vstd::prelude::*;
use vstd::slice::slice_subrange;
use vstd::utf8::{valid_utf8, decode_utf8};
use crate::bsp::{BspFile, LumpIdx, MODEL_SIZE};
use crate::entity::{EntityDictionary, Entry, model_index_of};
use crate::ent::{parse_entities, dict_views};
use crate::rip::{lump_text_bytes, select, model_count, utf8_str};
use crate::text::{decimal, push_str, push_decimal, string_from_chars};

verus! {

broadcast use vstd::string::group_string_axioms, vstd::slice::group_slice_axioms;

/// The entity text a report reads from an entity lump: the lump less its
/// closing NUL byte, or nothing where that is not UTF-8.
pub open spec fn report_text(data: Seq<u8>) -> Seq<char> {
    if valid_utf8(lump_text_bytes(data)) {
        decode_utf8(lump_text_bytes(data))
    } else {
        Seq::empty()
    }
}

/// Some entity uses brush model `i`.
pub open spec fn model_used(es: Seq<Seq<Entry>>, i: nat) -> bool {
    exists|k: int| 0 <= k < es.len() && model_index_of(es[k]) == Some(i)
}

/// The brush models from 1 up to below `m` that no entity uses, ascending.
pub open spec fn unused_upto(es: Seq<Seq<Entry>>, m: nat) -> Seq<nat>
    decreases m,
{
    if m <= 1 {
        Seq::empty()
    } else {
        let prev = unused_upto(es, (m - 1) as nat);
        if model_used(es, (m - 1) as nat) {
            prev
        } else {
            prev.push((m - 1) as nat)
        }
    }
}

/// The numbers of a list of model indices.
pub open spec fn index_views(v: Seq<usize>) -> Seq<nat> {
    v.map_values(|i: usize| i as nat)
}

/// Counts of the entities of a BSP file.
pub struct EntityReport {
    pub total_entities: usize,
    pub point_entities: usize,
    pub brush_entities: usize,
    pub total_brush_models: usize,
    /// Brush models (the world's, 0, aside) that no entity uses, ascending.
    pub unused_model_indices: Vec<usize>,
}

impl EntityReport {
    /// Counts the entities of a BSP file: all of them, those without and
    /// with a brush model, the brush models in the file, and the models no
    /// entity uses. An entity lump that is not UTF-8 counts as empty. The
    /// file must hold at least the world's brush model.
    pub fn generate(bsp: &BspFile) -> (r: Self)
        requires
            bsp.wf(),
            model_count(*bsp) >= 1,
        ensures
            ({
                let es = parse_entities(report_text(bsp.lump_data(LumpIdx::Entities.pos())));
                &&& r.total_entities == es.len()
                &&& r.point_entities + r.brush_entities == r.total_entities
                &&& r.point_entities == select(es, false).len()
                &&& r.brush_entities == select(es, true).len()
                &&& r.total_brush_models == model_count(*bsp)
                &&& index_views(r.unused_model_indices@) == unused_upto(es, model_count(*bsp))
            }),
    {
        let data = bsp.slice_lump(LumpIdx::Entities);
        let model_count = bsp.slice_lump(LumpIdx::Models).len() / MODEL_SIZE;
        let body: &[u8] = if data.len() > 0 && data[data.len() - 1] == 0 {
            slice_subrange(data, 0, data.len() - 1)
        } else {
            data
        };
        assert(body@ == lump_text_bytes(data@));
        let text = match utf8_str(body) {
            Some(s) => s,
            None => "",
        };
        proof {
            reveal_strlit("");
        }
        assert(text@ == report_text(data@));
        let entities = EntityDictionary::from_ent_txt(text);
        let ghost es = dict_views(entities@);
        let mut used: Vec<bool> = Vec::new();
        let mut i: usize = 0;
        while i < model_count
            invariant
                0 <= i <= model_count,
                used@.len() == i,
                forall|q: int| 0 <= q < i ==> !used@[q],
            decreases model_count - i,
        {
            used.push(false);
            i = i + 1;
        }
        used.set(0, true);
        let mut point: usize = 0;
        let mut brush: usize = 0;
        let mut j: usize = 0;
        assert(es.take(0) =~= Seq::<Seq<Entry>>::empty());
        while j < entities.len()
            invariant
                0 <= j <= entities@.len(),
                es == dict_views(entities@),
                model_count >= 1,
                used@.len() == model_count,
                used@[0],
                forall|q: int|
                    1 <= q < model_count ==> (#[trigger] used@[q] <==> model_used(
                        es.take(j as int),
                        q as nat,
                    )),
                point == select(es.take(j as int), false).len(),
                brush == select(es.take(j as int), true).len(),
                point + brush == j,
            decreases entities@.len() - j,
        {
            let ghost t = es.take(j + 1);
            assert(t.drop_last() =~= es.take(j as int));
            assert(t.last() == entities@[j as int]@);
            let idx = entities[j].get_model_index();
            match idx {
                Some(m) => {
                    brush = brush + 1;
                    if m < model_count {
                        used.set(m, true);
                    }
                },
                None => {
                    point = point + 1;
                },
            }
            assert forall|q: int| 1 <= q < model_count implies (#[trigger] used@[q]
                <==> model_used(t, q as nat)) by {
                if model_used(es.take(j as int), q as nat) {
                    let k = choose|k: int|
                        0 <= k < es.take(j as int).len() && model_index_of(es.take(j as int)[k])
                            == Some(q as nat);
                    assert(t[k] == es.take(j as int)[k]);
                }
                if model_used(t, q as nat) {
                    let k = choose|k: int|
                        0 <= k < t.len() && model_index_of(t[k]) == Some(q as nat);
                    if k < j {
                        assert(t[k] == es.take(j as int)[k]);
                    }
                }
            }
            j = j + 1;
        }
        assert(es.take(es.len() as int) =~= es);
        let mut unused: Vec<usize> = Vec::new();
        let mut m: usize = 1;
        assert(index_views(unused@) =~= unused_upto(es, 1));
        while m < model_count
            invariant
                1 <= m <= model_count,
                used@.len() == model_count,
                forall|q: int|
                    1 <= q < model_count ==> (#[trigger] used@[q] <==> model_used(
                        es,
                        q as nat,
                    )),
                index_views(unused@) == unused_upto(es, m as nat),
            decreases model_count - m,
        {
            let ghost before = index_views(unused@);
            if !used[m] {
                unused.push(m);
                assert(index_views(unused@) =~= before.push(m as nat));
            }
            m = m + 1;
        }
        EntityReport {
            total_entities: entities.len(),
            point_entities: point,
            brush_entities: brush,
            total_brush_models: model_count,
            unused_model_indices: unused,
        }
    }
}

/// The models a report lists as unused are exactly those from 1 up to below
/// `m` that no entity uses, each once, in ascending order.
pub proof fn law_unused_models(es: Seq<Seq<Entry>>, m: nat)
    ensures
        forall|k: int|
            0 <= k < unused_upto(es, m).len() ==> 1 <= #[trigger] unused_upto(es, m)[k] < m
                && !model_used(es, unused_upto(es, m)[k]),
        forall|i: nat| 1 <= i < m && !model_used(es, i) ==> unused_upto(es, m).contains(i),
        forall|k: int, l: int|
            0 <= k < l < unused_upto(es, m).len() ==> #[trigger] unused_upto(es, m)[k]
                < #[trigger] unused_upto(es, m)[l],
    decreases m,
{
    if m > 1 {
        let m1 = (m - 1) as nat;
        law_unused_models(es, m1);
        let prev = unused_upto(es, m1);
        let u = unused_upto(es, m);
        assert forall|k: int| 0 <= k < u.len() implies 1 <= #[trigger] u[k] < m && !model_used(
            es,
            u[k],
        ) by {
            if k < prev.len() {
                assert(u[k] == prev[k]);
            }
        }
        assert forall|i: nat| 1 <= i < m && !model_used(es, i) implies u.contains(i) by {
            if i < m1 {
                assert(prev.contains(i));
                let k = choose|k: int| 0 <= k < prev.len() && prev[k] == i;
                assert(u[k] == prev[k]);
            } else {
                assert(u[u.len() - 1] == i);
            }
        }
        assert forall|k: int, l: int| 0 <= k < l < u.len() implies #[trigger] u[k] < #[trigger] u[l] by {
            if l < prev.len() {
                assert(u[k] == prev[k] && u[l] == prev[l]);
            } else {
                assert(u[k] == prev[k]);
            }
        }
    }
}

/// `n` right-aligned in five columns, as `{:>5}` writes it.
pub open spec fn padded5(n: nat) -> Seq<char> {
    let d = decimal(n);
    if d.len() < 5 {
        Seq::new((5 - d.len()) as nat, |i: int| ' ') + d
    } else {
        d
    }
}

/// One line per unused model.
pub open spec fn unused_lines(v: Seq<usize>) -> Seq<char>
    decreases v.len(),
{
    if v.len() == 0 {
        Seq::empty()
    } else {
        unused_lines(v.drop_last()) + "    model *"@ + decimal(v.last() as nat)
            + " exists but no entity references it\n"@
    }
}

/// The text of a report.
pub open spec fn report_lines(r: EntityReport) -> Seq<char> {
    "  Point entities:         "@ + padded5(r.point_entities as nat) + "\n"@
        + "  Brush entities:         "@ + padded5(r.brush_entities as nat) + "\n"@
        + "  Total entities:         "@ + padded5(r.total_entities as nat) + "\n"@
        + "  Brush models in lump:   "@ + padded5(r.total_brush_models as nat) + "\n"@ + "\n"@ + (
    if r.unused_model_indices@.len() == 0 {
        "  [Unused brush models]  0\n"@ + "    (none)\n"@
    } else {
        "  [Unused brush models]  "@ + decimal(r.unused_model_indices@.len()) + "\n"@
            + unused_lines(r.unused_model_indices@)
    }) + "\n"@
}

/// Appends `n` right-aligned in five columns.
fn push_padded5(out: &mut Vec<char>, n: usize)
    ensures
        final(out)@ == old(out)@ + padded5(n as nat),
{
    let mut d: Vec<char> = Vec::new();
    push_decimal(&mut d, n as u64);
    assert(d@ =~= decimal(n as nat));
    let mut k: usize = d.len();
    let ghost start = out@;
    while k < 5
        invariant
            k >= d@.len(),
            k > 5 ==> k == d@.len(),
            out@ == start + Seq::new((k - d@.len()) as nat, |i: int| ' '),
        decreases 5 - k,
    {
        out.push(' ');
        k = k + 1;
        assert(out@ =~= start + Seq::new((k - d@.len()) as nat, |i: int| ' '));
    }
    let ghost spaces = out@;
    let mut i: usize = 0;
    while i < d.len()
        invariant
            0 <= i <= d@.len(),
            out@ == spaces + d@.take(i as int),
        decreases d@.len() - i,
    {
        out.push(d[i]);
        i = i + 1;
        assert(out@ =~= spaces + d@.take(i as int));
    }
    assert(d@.take(d@.len() as int) =~= d@);
    if d.len() < 5 {
        assert(out@ =~= start + padded5(n as nat));
    } else {
        assert(Seq::new((k - d@.len()) as nat, |i: int| ' ') =~= Seq::<char>::empty());
        assert(out@ =~= start + padded5(n as nat));
    }
}

impl EntityReport {
    /// The report as text: the counts right-aligned, then the unused brush
    /// models, one per line, or `(none)`.
    pub fn to_string(&self) -> (r: String)
        ensures
            r@ == report_lines(*self),
    {
        let mut out: Vec<char> = Vec::new();
        push_str(&mut out, "  Point entities:         ");
        push_padded5(&mut out, self.point_entities);
        push_str(&mut out, "\n");
        push_str(&mut out, "  Brush entities:         ");
        push_padded5(&mut out, self.brush_entities);
        push_str(&mut out, "\n");
        push_str(&mut out, "  Total entities:         ");
        push_padded5(&mut out, self.total_entities);
        push_str(&mut out, "\n");
        push_str(&mut out, "  Brush models in lump:   ");
        push_padded5(&mut out, self.total_brush_models);
        push_str(&mut out, "\n");
        push_str(&mut out, "\n");
        let ghost head = out@;
        if self.unused_model_indices.len() == 0 {
            push_str(&mut out, "  [Unused brush models]  0\n");
            push_str(&mut out, "    (none)\n");
        } else {
            push_str(&mut out, "  [Unused brush models]  ");
            push_decimal(&mut out, self.unused_model_indices.len() as u64);
            push_str(&mut out, "\n");
            let ghost mid = out@;
            let v = &self.unused_model_indices;
            let mut i: usize = 0;
            assert(v@.take(0) =~= Seq::<usize>::empty());
            while i < v.len()
                invariant
                    0 <= i <= v@.len(),
                    out@ == mid + unused_lines(v@.take(i as int)),
                decreases v@.len() - i,
            {
                let ghost before = out@;
                push_str(&mut out, "    model *");
                push_decimal(&mut out, v[i] as u64);
                push_str(&mut out, " exists but no entity references it\n");
                let ghost t = v@.take(i + 1);
                assert(t.drop_last() =~= v@.take(i as int));
                assert(t.last() == v@[i as int]);
                assert(out@ =~= mid + unused_lines(t));
                i = i + 1;
            }
            assert(v@.take(v@.len() as int) =~= v@);
        }
        push_str(&mut out, "\n");
        assert(out@ =~= report_lines(*self));
        string_from_chars(out.as_slice())
    }
}

} // verus!
