//! The entity text format: blocks in braces, each a list of quoted keys and
//! values.

use vstd::prelude::*;
use crate::entity::{
    EntityDictionary,
    Entry,
    insert_all,
    insert_entry,
    distinct_keys,
    pair_views,
    lemma_insert_entry,
    has_key,
    key_pos,
};
use crate::text::{
    split,
    split_chars,
    views,
    str_chars,
    string_from_chars,
    push_chars,
    lemma_split_len,
    lemma_split_chars,
};

verus! {

broadcast use vstd::string::group_string_axioms, vstd::slice::group_slice_axioms;

// ---------------------------------------------------------------------------
// Reading
// ---------------------------------------------------------------------------

/// The key/value pairs in the inside of one block: the text between every
/// second and third quote is a key, that between every fourth and fifth its
/// value; a key without a value is dropped.
pub open spec fn block_pairs(inner: Seq<char>) -> Seq<Entry> {
    let q = split(inner, '"');
    Seq::new((q.len() / 4) as nat, |t: int| (q[4 * t + 1], q[4 * t + 3]))
}

proof fn lemma_block_pairs(inner: Seq<char>)
    ensures
        block_pairs(inner).len() == split(inner, '"').len() / 4,
        forall|t: int|
            0 <= t < block_pairs(inner).len() ==> #[trigger] block_pairs(inner)[t] == (
                split(inner, '"')[4 * t + 1],
                split(inner, '"')[4 * t + 3],
            ),
{
}

/// The entity that the inside of one block describes: its pairs set in
/// order, so that a later value for a key wins.
pub open spec fn block_entries(inner: Seq<char>) -> Seq<Entry> {
    insert_all(Seq::empty(), block_pairs(inner))
}

/// The insides of the blocks among the pieces that follow each `{`: the
/// text up to the first `}`, for each piece that has one.
pub open spec fn blocks_of(pieces: Seq<Seq<char>>) -> Seq<Seq<char>>
    decreases pieces.len(),
{
    if pieces.len() == 0 {
        Seq::empty()
    } else {
        let prev = blocks_of(pieces.drop_last());
        let sp = split(pieces.last(), '}');
        if sp.len() > 1 {
            prev.push(sp[0])
        } else {
            prev
        }
    }
}

/// The insides of the blocks of an entity text.
pub open spec fn ent_blocks(txt: Seq<char>) -> Seq<Seq<char>> {
    blocks_of(split(txt, '{').drop_first())
}

/// The entities an entity text describes, in order.
pub open spec fn parse_entities(txt: Seq<char>) -> Seq<Seq<Entry>> {
    ent_blocks(txt).map_values(|b: Seq<char>| block_entries(b))
}

/// The pairs of a list of entities.
pub open spec fn dict_views(v: Seq<EntityDictionary>) -> Seq<Seq<Entry>> {
    v.map_values(|d: EntityDictionary| d@)
}

// ---------------------------------------------------------------------------
// Writing
// ---------------------------------------------------------------------------

/// One line of an entity block: `"key" "value"` and a newline.
pub open spec fn kv_line(k: Seq<char>, v: Seq<char>) -> Seq<char> {
    seq!['"'] + k + seq!['"', ' ', '"'] + v + seq!['"', '\n']
}

/// The lines of all pairs, in order.
pub open spec fn entries_text(e: Seq<Entry>) -> Seq<char>
    decreases e.len(),
{
    if e.len() == 0 {
        Seq::empty()
    } else {
        entries_text(e.drop_last()) + kv_line(e.last().0, e.last().1)
    }
}

/// One entity as a block; an entity without pairs is left out.
pub open spec fn entity_text(e: Seq<Entry>) -> Seq<char> {
    if e.len() == 0 {
        Seq::empty()
    } else {
        seq!['{', '\n'] + entries_text(e) + seq!['}', '\n']
    }
}

/// The blocks of all entities, in order.
pub open spec fn entities_text(es: Seq<Seq<Entry>>) -> Seq<char>
    decreases es.len(),
{
    if es.len() == 0 {
        Seq::empty()
    } else {
        entities_text(es.drop_last()) + entity_text(es.last())
    }
}

/// The entities that have at least one pair, in order.
pub open spec fn nonempty_entities(es: Seq<Seq<Entry>>) -> Seq<Seq<Entry>>
    decreases es.len(),
{
    if es.len() == 0 {
        Seq::empty()
    } else {
        let prev = nonempty_entities(es.drop_last());
        if es.last().len() == 0 {
            prev
        } else {
            prev.push(es.last())
        }
    }
}

impl EntityDictionary {
    fn from_block_chars(inner: &[char]) -> (r: Self)
        ensures
            r@ == block_entries(inner@),
    {
        let q = split_chars(inner, '"');
        let ghost qs = split(inner@, '"');
        assert(views(q@) == qs);
        let mut this = EntityDictionary::empty();
        let mut t: usize = 0;
        let npairs: usize = q.len() / 4;
        proof {
            lemma_block_pairs(inner@);
        }
        assert(block_pairs(inner@).take(0) =~= Seq::<Entry>::empty());
        while t < npairs
            invariant
                0 <= t <= npairs,
                npairs == qs.len() / 4,
                views(q@) == qs,
                q@.len() == qs.len(),
                this@ == insert_all(Seq::empty(), block_pairs(inner@).take(t as int)),
                block_pairs(inner@).len() == npairs,
                forall|t2: int|
                    0 <= t2 < npairs ==> #[trigger] block_pairs(inner@)[t2] == (qs[4 * t2 + 1], qs[4 * t2 + 3]),
            decreases npairs - t,
        {
            assert(4 * t + 3 < qs.len());
            assert(block_pairs(inner@).len() == npairs);
            assert(q@[4 * t + 1]@ == qs[4 * t + 1]);
            assert(q@[4 * t + 3]@ == qs[4 * t + 3]);
            let key = string_from_chars(q[4 * t + 1].as_slice());
            let value = string_from_chars(q[4 * t + 3].as_slice());
            let ghost prev = this@;
            this.insert(key, value);
            let ghost ps = block_pairs(inner@).take(t + 1);
            assert(ps.drop_last() =~= block_pairs(inner@).take(t as int));
            assert(ps.last() == (qs[4 * t + 1], qs[4 * t + 3]));
            t = t + 1;
        }
        assert(block_pairs(inner@).take(npairs as int) =~= block_pairs(inner@));
        this
    }

    /// The entity that the inside of one block describes.
    pub fn from_ent_block(ent_block: &str) -> (r: Self)
        ensures
            r@ == block_entries(ent_block@),
    {
        let cs = str_chars(ent_block);
        Self::from_block_chars(cs.as_slice())
    }

    /// The entities of an entity text, one per block: the text between a
    /// `{` and the next `}`.
    pub fn make_iter(ent_txt: &str) -> (r: Vec<Self>)
        ensures
            dict_views(r@) == parse_entities(ent_txt@),
    {
        let cs = str_chars(ent_txt);
        let pieces = split_chars(cs.as_slice(), '{');
        let ghost ps = split(ent_txt@, '{');
        proof {
            lemma_split_len(ent_txt@, '{');
        }
        let mut out: Vec<Self> = Vec::new();
        let mut i: usize = 1;
        assert(ps.subrange(1, 1) =~= Seq::<Seq<char>>::empty());
        assert(dict_views(out@) =~= blocks_of(ps.subrange(1, 1)).map_values(
            |b: Seq<char>| block_entries(b),
        ));
        while i < pieces.len()
            invariant
                1 <= i <= pieces@.len(),
                views(pieces@) == ps,
                pieces@.len() == ps.len(),
                dict_views(out@) == blocks_of(ps.subrange(1, i as int)).map_values(
                    |b: Seq<char>| block_entries(b),
                ),
            decreases pieces@.len() - i,
        {
            assert(pieces@[i as int]@ == ps[i as int]);
            let sp = split_chars(pieces[i].as_slice(), '}');
            let ghost sub = ps.subrange(1, i + 1);
            assert(sub.drop_last() =~= ps.subrange(1, i as int));
            assert(sub.last() == ps[i as int]);
            if sp.len() > 1 {
                assert(sp@[0]@ == split(ps[i as int], '}')[0]);
                let d = Self::from_block_chars(sp[0].as_slice());
                let ghost before = dict_views(out@);
                out.push(d);
                assert(dict_views(out@) =~= before.push(d@));
            }
            assert(dict_views(out@) =~= blocks_of(sub).map_values(|b: Seq<char>| block_entries(b)));
            i = i + 1;
        }
        assert(ps.subrange(1, ps.len() as int) =~= ps.drop_first());
        out
    }

    /// The entities of an entity text.
    pub fn from_ent_txt(ent_txt: &str) -> (r: Vec<Self>)
        ensures
            dict_views(r@) == parse_entities(ent_txt@),
    {
        Self::make_iter(ent_txt)
    }

    /// The entity text of a list of entities: a block per entity that has
    /// pairs, a `"key" "value"` line per pair.
    pub fn to_txt(entities: &[Self]) -> (r: String)
        ensures
            r@ == entities_text(dict_views(entities@)),
    {
        let mut buf: Vec<char> = Vec::new();
        let mut i: usize = 0;
        assert(dict_views(entities@).take(0) =~= Seq::<Seq<Entry>>::empty());
        while i < entities.len()
            invariant
                0 <= i <= entities@.len(),
                buf@ == entities_text(dict_views(entities@).take(i as int)),
            decreases entities@.len() - i,
        {
            let ghost es = dict_views(entities@).take(i + 1);
            assert(es.drop_last() =~= dict_views(entities@).take(i as int));
            assert(es.last() == entities@[i as int]@);
            let kv = &entities[i];
            if !kv.is_empty() {
                let ghost start = buf@;
                buf.push('{');
                buf.push('\n');
                let pairs = kv.pairs();
                let ghost e = kv@;
                let mut j: usize = 0;
                assert(e.take(0) =~= Seq::<Entry>::empty());
                assert(buf@ =~= start + seq!['{', '\n'] + entries_text(e.take(0)));
                while j < pairs.len()
                    invariant
                        0 <= j <= pairs@.len(),
                        pair_views(pairs@) == e,
                        buf@ == start + seq!['{', '\n'] + entries_text(e.take(j as int)),
                    decreases pairs@.len() - j,
                {
                    let ghost before = buf@;
                    let k = str_chars(pairs[j].0.as_str());
                    let v = str_chars(pairs[j].1.as_str());
                    buf.push('"');
                    push_chars(&mut buf, k.as_slice());
                    buf.push('"');
                    buf.push(' ');
                    buf.push('"');
                    push_chars(&mut buf, v.as_slice());
                    buf.push('"');
                    buf.push('\n');
                    let ghost et = e.take(j + 1);
                    assert(et.drop_last() =~= e.take(j as int));
                    assert(et.last() == e[j as int]);
                    assert(e[j as int] == (pairs@[j as int].0@, pairs@[j as int].1@));
                    assert(buf@ =~= before + kv_line(k@, v@));
                    j = j + 1;
                }
                assert(e.take(pairs@.len() as int) =~= e);
                buf.push('}');
                buf.push('\n');
                assert(buf@ =~= start + entity_text(e));
            }
            i = i + 1;
        }
        assert(dict_views(entities@).take(entities@.len() as int) =~= dict_views(entities@));
        string_from_chars(buf.as_slice())
    }
}

// ---------------------------------------------------------------------------
// Writing then reading
// ---------------------------------------------------------------------------

/// No quote and no brace in `s`: it can stand between quotes in a block.
pub open spec fn clean_text(s: Seq<char>) -> bool {
    !s.contains('"') && !s.contains('{') && !s.contains('}')
}

/// The key and the value can stand between quotes in a block.
pub open spec fn clean_entry(p: Entry) -> bool {
    clean_text(p.0) && clean_text(p.1)
}

/// Every key and value of `e` can stand between quotes in a block.
pub open spec fn clean_entries(e: Seq<Entry>) -> bool {
    forall|i: int| 0 <= i < e.len() ==> clean_entry(#[trigger] e[i])
}

/// The pieces that splitting a newline and then the lines of `e` at the
/// quotes gives.
spec fn quote_pieces(g: Seq<char>, e: Seq<Entry>) -> Seq<Seq<char>>
    decreases e.len(),
{
    if e.len() == 0 {
        seq![g]
    } else {
        quote_pieces(g, e.drop_last()) + seq![e.last().0, seq![' '], e.last().1, seq!['\n']]
    }
}

proof fn lemma_no_sep_concat(a: Seq<char>, b: Seq<char>, c: char)
    requires
        !a.contains(c),
        !b.contains(c),
    ensures
        !(a + b).contains(c),
{
    if (a + b).contains(c) {
        let k = choose|k: int| 0 <= k < (a + b).len() && (a + b)[k] == c;
        if k < a.len() {
            assert(a[k] == c);
        } else {
            assert(b[k - a.len()] == c);
        }
    }
}

proof fn lemma_clean_prefix(e: Seq<Entry>)
    requires
        clean_entries(e),
        e.len() > 0,
    ensures
        clean_entries(e.drop_last()),
{
    let e1 = e.drop_last();
    assert forall|i: int| 0 <= i < e1.len() implies clean_entry(#[trigger] e1[i]) by {
        assert(e1[i] == e[i]);
    }
}

proof fn lemma_entries_text_clean(e: Seq<Entry>, c: char)
    requires
        clean_entries(e),
        c == '{' || c == '}',
    ensures
        !entries_text(e).contains(c),
    decreases e.len(),
{
    if e.len() > 0 {
        let e1 = e.drop_last();
        lemma_clean_prefix(e);
        lemma_entries_text_clean(e1, c);
        let k = e.last().0;
        let v = e.last().1;
        assert(clean_entry(e[e.len() - 1]));
        assert(!seq!['"'].contains(c)) by {
            if seq!['"'].contains(c) {
                let m = choose|m: int| 0 <= m < 1 && seq!['"'][m] == c;
            }
        }
        assert(!seq!['"', ' ', '"'].contains(c)) by {
            if seq!['"', ' ', '"'].contains(c) {
                let m = choose|m: int| 0 <= m < 3 && seq!['"', ' ', '"'][m] == c;
            }
        }
        assert(!seq!['"', '\n'].contains(c)) by {
            if seq!['"', '\n'].contains(c) {
                let m = choose|m: int| 0 <= m < 2 && seq!['"', '\n'][m] == c;
            }
        }
        lemma_no_sep_concat(seq!['"'], k, c);
        lemma_no_sep_concat(seq!['"'] + k, seq!['"', ' ', '"'], c);
        lemma_no_sep_concat(seq!['"'] + k + seq!['"', ' ', '"'], v, c);
        lemma_no_sep_concat(seq!['"'] + k + seq!['"', ' ', '"'] + v, seq!['"', '\n'], c);
        lemma_no_sep_concat(entries_text(e1), kv_line(k, v), c);
    }
}

proof fn lemma_single_no_sep(x: char, c: char)
    requires
        x != c,
    ensures
        !seq![x].contains(c),
        crate::text::split(seq![x], c) == seq![seq![x]],
{
    if seq![x].contains(c) {
        let m = choose|m: int| 0 <= m < 1 && seq![x][m] == c;
    }
    crate::text::lemma_split_no_sep(seq![x], c);
}

proof fn lemma_quote_split(g: Seq<char>, e: Seq<Entry>)
    requires
        clean_entries(e),
        !g.contains('"'),
    ensures
        split(g + entries_text(e), '"') == quote_pieces(g, e),
    decreases e.len(),
{
    let q = '"';
    if e.len() == 0 {
        assert(g + entries_text(e) =~= g);
        crate::text::lemma_split_no_sep(g, q);
    } else {
        let e1 = e.drop_last();
        assert(clean_entries(e1)) by {
            assert forall|i: int| 0 <= i < e1.len() implies clean_text(#[trigger] e1[i].0)
                && clean_text(e1[i].1) by {
                assert(e1[i] == e[i]);
                assert(clean_text(e[i].0) && clean_text(e[i].1));
            }
        }
        lemma_quote_split(g, e1);
        let k = e.last().0;
        let v = e.last().1;
        assert(clean_entry(e[e.len() - 1]));
        let a = g + entries_text(e1);
        let b3 = v + seq![q] + seq!['\n'];
        let b2 = seq![' '] + seq![q] + b3;
        let b = k + seq![q] + b2;
        assert(g + entries_text(e) =~= a + seq![q] + b);
        crate::text::lemma_split_concat(a, b, q);
        crate::text::lemma_split_concat(k, b2, q);
        crate::text::lemma_split_concat(seq![' '], b3, q);
        crate::text::lemma_split_concat(v, seq!['\n'], q);
        crate::text::lemma_split_no_sep(k, q);
        crate::text::lemma_split_no_sep(v, q);
        lemma_single_no_sep(' ', q);
        lemma_single_no_sep('\n', q);
        assert(split(b, q) =~= seq![k, seq![' '], v, seq!['\n']]);
    }
}

proof fn lemma_quote_pieces(g: Seq<char>, e: Seq<Entry>)
    ensures
        quote_pieces(g, e).len() == 4 * e.len() + 1,
        forall|t: int|
            #![trigger e[t]]
            0 <= t < e.len() ==> quote_pieces(g, e)[4 * t + 1] == e[t].0 && quote_pieces(g, e)[4
                * t + 3] == e[t].1,
    decreases e.len(),
{
    if e.len() > 0 {
        let e1 = e.drop_last();
        lemma_quote_pieces(g, e1);
        let prev = quote_pieces(g, e1);
        let tail = seq![e.last().0, seq![' '], e.last().1, seq!['\n']];
        let qp = quote_pieces(g, e);
        assert(qp == prev + tail);
        assert forall|t: int| #![trigger e[t]] 0 <= t < e.len() implies qp[4 * t + 1] == e[t].0
            && qp[4 * t + 3] == e[t].1 by {
            if t < e1.len() {
                assert(qp[4 * t + 1] == prev[4 * t + 1]);
                assert(qp[4 * t + 3] == prev[4 * t + 3]);
                assert(e1[t] == e[t]);
            } else {
                assert(t == e1.len());
                assert(qp[4 * t + 1] == tail[0]);
                assert(qp[4 * t + 3] == tail[2]);
                assert(e[t] == e.last());
            }
        }
    }
}

pub(crate) proof fn lemma_insert_all_distinct(e: Seq<Entry>)
    requires
        distinct_keys(e),
    ensures
        insert_all(Seq::empty(), e) == e,
    decreases e.len(),
{
    if e.len() > 0 {
        let e1 = e.drop_last();
        assert(distinct_keys(e1)) by {
            assert forall|i: int, j: int|
                0 <= i < e1.len() && 0 <= j < e1.len() && i != j implies e1[i].0 != e1[j].0 by {
                assert(e1[i] == e[i]);
                assert(e1[j] == e[j]);
            }
        }
        lemma_insert_all_distinct(e1);
        assert(e1 =~= e.drop_last());
        assert(!crate::entity::has_key(e1, e.last().0)) by {
            if crate::entity::has_key(e1, e.last().0) {
                let i = choose|i: int| 0 <= i < e1.len() && e1[i].0 == e.last().0;
                assert(e[i].0 == e[e.len() - 1].0);
            }
        }
        assert(e1.push((e.last().0, e.last().1)) =~= e);
    }
}

/// A block with `g` between its `{` and its lines; an entity without pairs
/// gives none.
pub open spec fn block_text(g: Seq<char>, e: Seq<Entry>) -> Seq<char> {
    if e.len() == 0 {
        Seq::empty()
    } else {
        seq!['{'] + g + entries_text(e) + seq!['}', '\n']
    }
}

/// The blocks of all entities, each with `g` after its `{`.
pub open spec fn blocks_text(g: Seq<char>, es: Seq<Seq<Entry>>) -> Seq<char>
    decreases es.len(),
{
    if es.len() == 0 {
        Seq::empty()
    } else {
        blocks_text(g, es.drop_last()) + block_text(g, es.last())
    }
}

proof fn lemma_entities_text_blocks(es: Seq<Seq<Entry>>)
    ensures
        entities_text(es) == blocks_text(seq!['\n'], es),
    decreases es.len(),
{
    if es.len() > 0 {
        lemma_entities_text_blocks(es.drop_last());
        let e = es.last();
        if e.len() > 0 {
            assert(entity_text(e) =~= block_text(seq!['\n'], e));
        }
    }
}

/// Reading the block that holds `g` and then the lines of `e` gives `e`
/// back.
proof fn lemma_block_roundtrip(g: Seq<char>, e: Seq<Entry>)
    requires
        distinct_keys(e),
        clean_entries(e),
        !g.contains('"'),
    ensures
        block_entries(g + entries_text(e)) == e,
{
    let inner = g + entries_text(e);
    lemma_quote_split(g, e);
    lemma_quote_pieces(g, e);
    lemma_block_pairs(inner);
    assert(block_pairs(inner) =~= e);
    lemma_insert_all_distinct(e);
}

/// Writing entities as text and reading the text back gives the same
/// entities, in the same order with their pairs in the same order, less
/// those without pairs (which are not written), provided no key or value
/// holds a quote or a brace.
pub proof fn law_text_roundtrip(es: Seq<Seq<Entry>>)
    requires
        forall|i: int|
            0 <= i < es.len() ==> distinct_keys(#[trigger] es[i]) && clean_entries(es[i]),
    ensures
        parse_entities(entities_text(es)) == nonempty_entities(es),
{
    lemma_entities_text_blocks(es);
    lemma_single_no_sep('\n', '"');
    lemma_single_no_sep('\n', '{');
    lemma_single_no_sep('\n', '}');
    lemma_blocks_roundtrip(seq!['\n'], es);
}

/// Reading blocks written with `g` after each `{` gives the entities back,
/// less those without pairs, where `g` holds no quote or brace.
#[verifier::spinoff_prover]
#[verifier::rlimit(40)]
pub(crate) proof fn lemma_blocks_roundtrip(g: Seq<char>, es: Seq<Seq<Entry>>)
    requires
        clean_text(g),
        forall|i: int|
            0 <= i < es.len() ==> distinct_keys(#[trigger] es[i]) && clean_entries(es[i]),
    ensures
        split(blocks_text(g, es), '{').len() >= 1,
        parse_entities(blocks_text(g, es)) == nonempty_entities(es),
    decreases es.len(),
{
    let t = blocks_text(g, es);
    lemma_split_len(t, '{');
    if es.len() == 0 {
        assert(t =~= Seq::<char>::empty());
        assert(split(t, '{') =~= seq![Seq::<char>::empty()]);
        assert(split(t, '{').drop_first() =~= Seq::<Seq<char>>::empty());
        assert(parse_entities(t) =~= Seq::<Seq<Entry>>::empty());
    } else {
        let es1 = es.drop_last();
        let e = es.last();
        assert forall|i: int| 0 <= i < es1.len() implies distinct_keys(#[trigger] es1[i])
            && clean_entries(es1[i]) by {
            assert(es1[i] == es[i]);
        }
        assert(distinct_keys(es[es.len() - 1]) && clean_entries(es[es.len() - 1]));
        lemma_blocks_roundtrip(g, es1);
        let t1 = blocks_text(g, es1);
        lemma_split_len(t1, '{');
        if e.len() == 0 {
            assert(t =~= t1);
        } else {
            let inner = g + entries_text(e);
            let rest = inner + seq!['}'] + seq!['\n'];
            assert(t =~= t1 + seq!['{'] + rest);
            crate::text::lemma_split_concat(t1, rest, '{');
            lemma_entries_text_clean(e, '{');
            lemma_entries_text_clean(e, '}');
            lemma_single_no_sep('\n', '{');
            lemma_single_no_sep('\n', '}');
            lemma_single_no_sep('}', '{');
            lemma_no_sep_concat(g, entries_text(e), '{');
            lemma_no_sep_concat(g, entries_text(e), '}');
            lemma_no_sep_concat(inner, seq!['}'], '{');
            lemma_no_sep_concat(inner + seq!['}'], seq!['\n'], '{');
            crate::text::lemma_split_no_sep(rest, '{');
            let p1 = split(t1, '{');
            assert(split(t, '{') =~= p1.push(rest));
            assert(split(t, '{').drop_first() =~= p1.drop_first().push(rest));
            crate::text::lemma_split_concat(inner, seq!['\n'], '}');
            crate::text::lemma_split_no_sep(inner, '}');
            assert(split(rest, '}') =~= seq![inner, seq!['\n']]);
            let pieces = p1.drop_first().push(rest);
            assert(pieces.drop_last() =~= p1.drop_first());
            assert(ent_blocks(t) =~= ent_blocks(t1).push(inner));
            lemma_block_roundtrip(g, e);
            assert(parse_entities(t) =~= parse_entities(t1).push(e));
        }
    }
}

// ---------------------------------------------------------------------------
// Reading, writing, reading again
// ---------------------------------------------------------------------------

proof fn lemma_insert_all_clean(e: Seq<Entry>, ps: Seq<Entry>)
    requires
        distinct_keys(e),
        clean_entries(e),
        forall|t: int| 0 <= t < ps.len() ==> clean_entry(#[trigger] ps[t]),
    ensures
        distinct_keys(insert_all(e, ps)),
        clean_entries(insert_all(e, ps)),
    decreases ps.len(),
{
    if ps.len() > 0 {
        let ps1 = ps.drop_last();
        assert forall|t: int| 0 <= t < ps1.len() implies clean_entry(#[trigger] ps1[t]) by {
            assert(ps1[t] == ps[t]);
        }
        lemma_insert_all_clean(e, ps1);
        let prev = insert_all(e, ps1);
        let k = ps.last().0;
        let v = ps.last().1;
        assert(clean_entry(ps[ps.len() - 1]));
        lemma_insert_entry(prev, k, v);
        let r = insert_entry(prev, k, v);
        assert forall|i: int| 0 <= i < r.len() implies clean_entry(#[trigger] r[i]) by {
            if has_key(prev, k) {
                if i != key_pos(prev, k) {
                    assert(r[i] == prev[i]);
                }
            } else if i < prev.len() {
                assert(r[i] == prev[i]);
            }
        }
    }
}

proof fn lemma_quote_piece_clean(b: Seq<char>, i: int)
    requires
        !b.contains('{'),
        !b.contains('}'),
        0 <= i < split(b, '"').len(),
    ensures
        clean_text(split(b, '"')[i]),
{
    lemma_split_chars(b, '"');
    let p = split(b, '"')[i];
    if p.contains('"') {
        let j = choose|j: int| 0 <= j < p.len() && p[j] == '"';
        assert(split(b, '"')[i][j] != '"');
    }
    if p.contains('{') {
        let j = choose|j: int| 0 <= j < p.len() && p[j] == '{';
        assert(b.contains(split(b, '"')[i][j]));
    }
    if p.contains('}') {
        let j = choose|j: int| 0 <= j < p.len() && p[j] == '}';
        assert(b.contains(split(b, '"')[i][j]));
    }
}

proof fn lemma_block_entries_clean(b: Seq<char>)
    requires
        !b.contains('{'),
        !b.contains('}'),
    ensures
        distinct_keys(block_entries(b)),
        clean_entries(block_entries(b)),
{
    lemma_block_pairs(b);
    let ps = block_pairs(b);
    assert forall|t: int| 0 <= t < ps.len() implies clean_entry(#[trigger] ps[t]) by {
        lemma_quote_piece_clean(b, 4 * t + 1);
        lemma_quote_piece_clean(b, 4 * t + 3);
    }
    lemma_insert_all_clean(Seq::empty(), ps);
}

proof fn lemma_blocks_clean(pieces: Seq<Seq<char>>)
    requires
        forall|k: int| 0 <= k < pieces.len() ==> !(#[trigger] pieces[k]).contains('{'),
    ensures
        forall|i: int|
            0 <= i < blocks_of(pieces).len() ==> !(#[trigger] blocks_of(pieces)[i]).contains('{')
                && !blocks_of(pieces)[i].contains('}'),
    decreases pieces.len(),
{
    if pieces.len() > 0 {
        let p1 = pieces.drop_last();
        assert forall|k: int| 0 <= k < p1.len() implies !(#[trigger] p1[k]).contains('{') by {
            assert(p1[k] == pieces[k]);
        }
        lemma_blocks_clean(p1);
        let last = pieces.last();
        assert(!pieces[pieces.len() - 1].contains('{'));
        let sp = split(last, '}');
        lemma_split_chars(last, '}');
        lemma_split_len(last, '}');
        if sp.len() > 1 {
            let b = sp[0];
            assert(!b.contains('}')) by {
                if b.contains('}') {
                    let j = choose|j: int| 0 <= j < b.len() && b[j] == '}';
                    assert(sp[0][j] != '}');
                }
            }
            assert(!b.contains('{')) by {
                if b.contains('{') {
                    let j = choose|j: int| 0 <= j < b.len() && b[j] == '{';
                    assert(last.contains(sp[0][j]));
                }
            }
            let prev = blocks_of(p1);
            assert(blocks_of(pieces) == prev.push(b));
            assert forall|i: int| 0 <= i < blocks_of(pieces).len() implies !(
            #[trigger] blocks_of(pieces)[i]).contains('{') && !blocks_of(pieces)[i].contains('}') by {
                if i < prev.len() {
                    assert(blocks_of(pieces)[i] == prev[i]);
                }
            }
        }
    }
}

/// Each entity read from any text has no key twice, and no quote or brace in
/// a key or a value.
pub proof fn lemma_parsed_clean(txt: Seq<char>)
    ensures
        forall|i: int|
            0 <= i < parse_entities(txt).len() ==> distinct_keys(#[trigger] parse_entities(txt)[i])
                && clean_entries(parse_entities(txt)[i]),
{
    let all = split(txt, '{');
    lemma_split_chars(txt, '{');
    lemma_split_len(txt, '{');
    let pieces = all.drop_first();
    assert forall|k: int| 0 <= k < pieces.len() implies !(#[trigger] pieces[k]).contains('{') by {
        assert(pieces[k] == all[k + 1]);
        if pieces[k].contains('{') {
            let j = choose|j: int| 0 <= j < pieces[k].len() && pieces[k][j] == '{';
            assert(all[k + 1][j] != '{');
        }
    }
    lemma_blocks_clean(pieces);
    let bl = ent_blocks(txt);
    assert forall|i: int| 0 <= i < parse_entities(txt).len() implies distinct_keys(
        #[trigger] parse_entities(txt)[i],
    ) && clean_entries(parse_entities(txt)[i]) by {
        assert(parse_entities(txt)[i] == block_entries(bl[i]));
        lemma_block_entries_clean(bl[i]);
    }
}

/// Writing the entities read from any text and reading the result again
/// gives those entities back, in order, less the ones without pairs.
pub proof fn law_reparse(txt: Seq<char>)
    ensures
        parse_entities(entities_text(parse_entities(txt))) == nonempty_entities(parse_entities(txt)),
{
    lemma_parsed_clean(txt);
    law_text_roundtrip(parse_entities(txt));
}

} // verus!
