//! Repair of entity text: first the braces are put on lines of their own
//! and every open block is closed, then each line inside a block is
//! rewritten as a well-formed `"key" "value"` line where that can be done.

use vstd::prelude::*;
use crate::ent::{
    clean_entries,
    kv_line,
    entries_text,
    entity_text,
    entities_text,
    block_text,
    blocks_text,
    clean_text,
    parse_entities,
    nonempty_entities,
    law_text_roundtrip,
};
use crate::entity::{Entry, distinct_keys};
use crate::text::{
    split,
    split_chars,
    views,
    trim,
    trim_chars,
    lines,
    lines_chars,
    str_chars,
    string_from_chars,
    push_chars,
    lemma_split_len,
    strip_cr,
};

verus! {

broadcast use vstd::string::group_string_axioms, vstd::slice::group_slice_axioms;

// ---------------------------------------------------------------------------
// First pass: structure
// ---------------------------------------------------------------------------

/// The state of the first pass: the text so far, whether a quote is open,
/// and how many blocks are open.
pub type ScanState = (Seq<char>, bool, int);

/// `out` ends with a line feed.
pub open spec fn ends_with_lf(out: Seq<char>) -> bool {
    out.len() > 0 && out.last() == '\n'
}

/// One character of the first pass: carriage returns go; quotes toggle the
/// quote state and stay; outside quotes a `{` opens a block on a line of its
/// own and a `}` closes one on a line of its own; other characters stay
/// only inside a block.
pub open spec fn scan_step(st: ScanState, c: char) -> ScanState {
    let (out, in_quote, depth) = st;
    if c == '\r' {
        st
    } else if c == '"' {
        (out.push('"'), !in_quote, depth)
    } else if c == '{' && !in_quote {
        let out1 = if out.len() > 0 && !ends_with_lf(out) {
            out.push('\n')
        } else {
            out
        };
        (out1 + seq!['{', '\n'], in_quote, (if depth < 0 {
            0
        } else {
            depth
        }) + 1)
    } else if c == '}' && !in_quote {
        let out1 = if !ends_with_lf(out) {
            out.push('\n')
        } else {
            out
        };
        (out1 + seq!['}', '\n'], in_quote, depth - 1)
    } else if depth > 0 {
        (out.push(c), in_quote, depth)
    } else {
        st
    }
}

/// The first pass over `s`, character by character.
pub open spec fn scan(s: Seq<char>) -> ScanState
    decreases s.len(),
{
    if s.len() == 0 {
        (Seq::empty(), false, 0)
    } else {
        scan_step(scan(s.drop_last()), s.last())
    }
}

/// `out` with a `}` line for each of `depth` blocks still open.
pub open spec fn close_blocks(out: Seq<char>, depth: int) -> Seq<char>
    decreases depth,
{
    if depth <= 0 {
        out
    } else {
        close_blocks(out + seq!['}', '\n'], depth - 1)
    }
}

/// The text after the first pass.
pub open spec fn structure(s: Seq<char>) -> Seq<char> {
    close_blocks(scan(s).0, scan(s).2)
}

// ---------------------------------------------------------------------------
// Second pass: lines
// ---------------------------------------------------------------------------

/// The pieces `q[a]`, ..., `q[b - 1]` one after the other.
pub open spec fn concat_range(q: Seq<Seq<char>>, a: int, b: int) -> Seq<char>
    decreases b - a,
{
    if a >= b {
        Seq::empty()
    } else {
        concat_range(q, a, b - 1) + q[b - 1]
    }
}

/// A `"key" "value"` line for each of the first `m` groups of four quotes:
/// the key between the first two quotes of the group, the value between
/// the last two.
pub open spec fn pairs_upto(q: Seq<Seq<char>>, m: int) -> Seq<char>
    decreases m,
{
    if m <= 0 {
        Seq::empty()
    } else {
        pairs_upto(q, m - 1) + kv_line(q[4 * (m - 1) + 1], q[4 * (m - 1) + 3])
    }
}

/// What one line of the first pass's text becomes, and whether a block is
/// open after it. A line that is just `{` or `}` stays and opens or closes
/// a block; a non-blank line inside a block is cut at its quotes and
/// rewritten by how many quotes it holds:
/// two: `"key" value` gets quotes round its trimmed value (dropped if that
/// is empty); three: the value's closing quote is added; four: the line
/// stays; five to seven: the text after the third quote, less the last
/// piece, becomes the value (dropped if empty); otherwise each group of
/// four quotes gives a pair. Any other line stays.
pub open spec fn fix_line(line: Seq<char>, in_block: bool) -> (Seq<char>, bool) {
    let t = trim(line);
    if t == seq!['{'] {
        (line.push('\n'), true)
    } else if t == seq!['}'] {
        (line.push('\n'), false)
    } else if in_block && t.len() > 0 {
        let q = split(t, '"');
        let n = q.len() - 1;
        if n == 2 {
            if trim(q[2]).len() > 0 {
                (kv_line(q[1], trim(q[2])), in_block)
            } else {
                (Seq::empty(), in_block)
            }
        } else if n == 3 {
            (kv_line(q[1], q[3]), in_block)
        } else if n == 4 {
            (line.push('\n'), in_block)
        } else if 5 <= n <= 7 {
            let clean = concat_range(q, 3, n);
            if clean.len() > 0 {
                (kv_line(q[1], clean), in_block)
            } else {
                (Seq::empty(), in_block)
            }
        } else {
            (pairs_upto(q, n / 4), in_block)
        }
    } else {
        (line.push('\n'), in_block)
    }
}

/// The second pass over the lines, one after the other.
pub open spec fn fix_lines(ls: Seq<Seq<char>>) -> (Seq<char>, bool)
    decreases ls.len(),
{
    if ls.len() == 0 {
        (Seq::empty(), false)
    } else {
        let (out, in_block) = fix_lines(ls.drop_last());
        let (piece, next) = fix_line(ls.last(), in_block);
        (out + piece, next)
    }
}

/// Entity text after both passes.
pub open spec fn normalised(s: Seq<char>) -> Seq<char> {
    fix_lines(lines(structure(s))).0
}

// ---------------------------------------------------------------------------
// Text in the form that is written
// ---------------------------------------------------------------------------

/// `s` fits between quotes on one line of a block: no quote, brace, line
/// feed or carriage return.
pub open spec fn line_safe(s: Seq<char>) -> bool {
    clean_text(s) && !s.contains('\n') && !s.contains('\r')
}

/// Every key and value of `e` fits between quotes on one line of a block.
pub open spec fn line_safe_entries(e: Seq<Entry>) -> bool {
    forall|i: int| 0 <= i < e.len() ==> line_safe((#[trigger] e[i]).0) && line_safe(e[i].1)
}

/// The first pass from a given state.
spec fn scan_from(st: ScanState, s: Seq<char>) -> ScanState
    decreases s.len(),
{
    if s.len() == 0 {
        st
    } else {
        scan_step(scan_from(st, s.drop_last()), s.last())
    }
}

proof fn lemma_scan_from_concat(st: ScanState, a: Seq<char>, b: Seq<char>)
    ensures
        scan_from(st, a + b) == scan_from(scan_from(st, a), b),
    decreases b.len(),
{
    if b.len() == 0 {
        assert(a + b =~= a);
    } else {
        lemma_scan_from_concat(st, a, b.drop_last());
        assert((a + b).drop_last() =~= a + b.drop_last());
        assert((a + b).last() == b.last());
    }
}

proof fn lemma_scan_is_from(s: Seq<char>)
    ensures
        scan(s) == scan_from((Seq::empty(), false, 0), s),
    decreases s.len(),
{
    if s.len() > 0 {
        lemma_scan_is_from(s.drop_last());
    }
}

proof fn lemma_lacks_drop_last(s: Seq<char>, c: char)
    requires
        s.len() > 0,
        !s.contains(c),
    ensures
        !s.drop_last().contains(c),
        s.last() != c,
{
    if s.drop_last().contains(c) {
        let k = choose|k: int| 0 <= k < s.drop_last().len() && s.drop_last()[k] == c;
        assert(s[k] == c);
    }
    assert(s[s.len() - 1] == s.last());
}

/// Inside a block, text without carriage returns, quotes and braces is
/// copied as it is.
proof fn lemma_scan_plain(out: Seq<char>, q: bool, d: int, s: Seq<char>)
    requires
        d > 0,
        !s.contains('\r'),
        !s.contains('"'),
        !s.contains('{'),
        !s.contains('}'),
    ensures
        scan_from((out, q, d), s) == (out + s, q, d),
    decreases s.len(),
{
    if s.len() == 0 {
        assert(out + s =~= out);
    } else {
        lemma_lacks_drop_last(s, '\r');
        lemma_lacks_drop_last(s, '"');
        lemma_lacks_drop_last(s, '{');
        lemma_lacks_drop_last(s, '}');
        lemma_scan_plain(out, q, d, s.drop_last());
        assert((out + s.drop_last()).push(s.last()) =~= out + s);
    }
}

proof fn lemma_scan_one(st: ScanState, c: char)
    ensures
        scan_from(st, seq![c]) == scan_step(st, c),
{
    assert(seq![c].drop_last() =~= Seq::<char>::empty());
    assert(seq![c].last() == c);
    assert(scan_from(st, Seq::<char>::empty()) == st);
    assert(scan_from(st, seq![c]) == scan_step(scan_from(st, seq![c].drop_last()), seq![c].last()));
}

proof fn lemma_one_lacks(x: char, c: char)
    requires
        x != c,
    ensures
        !seq![x].contains(c),
{
    if seq![x].contains(c) {
        let k = choose|k: int| 0 <= k < 1 && seq![x][k] == c;
    }
}

proof fn lemma_line_safe_lacks(s: Seq<char>)
    requires
        line_safe(s),
    ensures
        !s.contains('\r'),
        !s.contains('"'),
        !s.contains('{'),
        !s.contains('}'),
{
}

/// A `"key" "value"` line inside a block is copied as it is, and leaves no
/// quote open.
proof fn lemma_scan_kv_line(out: Seq<char>, d: int, k: Seq<char>, v: Seq<char>)
    requires
        d > 0,
        line_safe(k),
        line_safe(v),
    ensures
        scan_from((out, false, d), kv_line(k, v)) == (out + kv_line(k, v), false, d),
{
    let qt = seq!['"'];
    let sp = seq![' '];
    let lf = seq!['\n'];
    assert(kv_line(k, v) =~= qt + k + qt + sp + qt + v + qt + lf);
    lemma_one_lacks(' ', '\r');
    lemma_one_lacks(' ', '"');
    lemma_one_lacks(' ', '{');
    lemma_one_lacks(' ', '}');
    lemma_one_lacks('\n', '\r');
    lemma_one_lacks('\n', '"');
    lemma_one_lacks('\n', '{');
    lemma_one_lacks('\n', '}');
    let st0 = (out, false, d);
    lemma_scan_one(st0, '"');
    assert(out.push('"') =~= out + qt);
    lemma_scan_plain(out + qt, true, d, k);
    let s2 = (out + qt + k, true, d);
    lemma_scan_one(s2, '"');
    assert((out + qt + k).push('"') =~= out + qt + k + qt);
    lemma_scan_plain(out + qt + k + qt, false, d, sp);
    let s4 = (out + qt + k + qt + sp, false, d);
    lemma_scan_one(s4, '"');
    assert((out + qt + k + qt + sp).push('"') =~= out + qt + k + qt + sp + qt);
    lemma_scan_plain(out + qt + k + qt + sp + qt, true, d, v);
    let s6 = (out + qt + k + qt + sp + qt + v, true, d);
    lemma_scan_one(s6, '"');
    assert((out + qt + k + qt + sp + qt + v).push('"') =~= out + qt + k + qt + sp + qt + v + qt);
    let s7 = (out + qt + k + qt + sp + qt + v + qt, false, d);
    lemma_scan_plain(out + qt + k + qt + sp + qt + v + qt, false, d, lf);
    lemma_scan_from_concat(st0, qt, k);
    lemma_scan_from_concat(st0, qt + k, qt);
    lemma_scan_from_concat(st0, qt + k + qt, sp);
    lemma_scan_from_concat(st0, qt + k + qt + sp, qt);
    lemma_scan_from_concat(st0, qt + k + qt + sp + qt, v);
    lemma_scan_from_concat(st0, qt + k + qt + sp + qt + v, qt);
    lemma_scan_from_concat(st0, qt + k + qt + sp + qt + v + qt, lf);
    assert(out + qt + k + qt + sp + qt + v + qt + lf =~= out + kv_line(k, v));
}

proof fn lemma_scan_entries(out: Seq<char>, d: int, e: Seq<Entry>)
    requires
        d > 0,
        line_safe_entries(e),
    ensures
        scan_from((out, false, d), entries_text(e)) == (out + entries_text(e), false, d),
    decreases e.len(),
{
    if e.len() == 0 {
        assert(entries_text(e) =~= Seq::<char>::empty());
        assert(out + entries_text(e) =~= out);
    } else {
        let e1 = e.drop_last();
        assert(line_safe_entries(e1)) by {
            assert forall|i: int| 0 <= i < e1.len() implies line_safe((#[trigger] e1[i]).0)
                && line_safe(e1[i].1) by {
                assert(e1[i] == e[i]);
            }
        }
        assert(line_safe(e[e.len() - 1].0) && line_safe(e[e.len() - 1].1));
        lemma_scan_entries(out, d, e1);
        lemma_scan_from_concat((out, false, d), entries_text(e1), kv_line(e.last().0, e.last().1));
        lemma_scan_kv_line(out + entries_text(e1), d, e.last().0, e.last().1);
        assert(out + entries_text(e1) + kv_line(e.last().0, e.last().1) =~= out + entries_text(e));
    }
}

proof fn lemma_entries_text_ends(e: Seq<Entry>)
    requires
        e.len() > 0,
    ensures
        entries_text(e).len() > 0,
        entries_text(e).last() == '\n',
{
    let l = kv_line(e.last().0, e.last().1);
    assert(entries_text(e) == entries_text(e.drop_last()) + l);
    assert(l.last() == '\n');
}

/// The blocks as the first pass writes them: a blank line after each `{`.
pub open spec fn spaced() -> Seq<char> {
    seq!['\n', '\n']
}

proof fn lemma_scan_entity(out: Seq<char>, e: Seq<Entry>)
    requires
        e.len() > 0,
        out.len() == 0 || out.last() == '\n',
        line_safe_entries(e),
    ensures
        scan_from((out, false, 0int), entity_text(e)) == (out + block_text(spaced(), e), false, 0int),
{
    let ob = seq!['{'];
    let cb = seq!['}'];
    let lf = seq!['\n'];
    let x = entries_text(e);
    assert(entity_text(e) =~= ob + lf + x + cb + lf);
    let st0 = (out, false, 0int);
    lemma_scan_one(st0, '{');
    assert(scan_from(st0, ob) == (out + seq!['{', '\n'], false, 1int));
    lemma_one_lacks('\n', '\r');
    lemma_one_lacks('\n', '"');
    lemma_one_lacks('\n', '{');
    lemma_one_lacks('\n', '}');
    lemma_scan_plain(out + seq!['{', '\n'], false, 1, lf);
    let o2 = out + seq!['{', '\n'] + lf;
    lemma_scan_entries(o2, 1, e);
    let o3 = o2 + x;
    lemma_entries_text_ends(e);
    assert(o3.last() == '\n');
    lemma_scan_one((o3, false, 1int), '}');
    assert(ends_with_lf(o3));
    assert(scan_from((o3, false, 1int), cb) == (o3 + seq!['}', '\n'], false, 0int));
    let o4 = o3 + seq!['}', '\n'];
    lemma_scan_one((o4, false, 0int), '\n');
    assert(scan_from((o4, false, 0int), lf) == (o4, false, 0int));
    lemma_scan_from_concat(st0, ob, lf);
    lemma_scan_from_concat(st0, ob + lf, x);
    lemma_scan_from_concat(st0, ob + lf + x, cb);
    lemma_scan_from_concat(st0, ob + lf + x + cb, lf);
    assert(o4 =~= out + block_text(spaced(), e));
}

proof fn lemma_blocks_text_ends(g: Seq<char>, es: Seq<Seq<Entry>>)
    ensures
        blocks_text(g, es).len() == 0 || blocks_text(g, es).last() == '\n',
    decreases es.len(),
{
    if es.len() > 0 {
        lemma_blocks_text_ends(g, es.drop_last());
        let e = es.last();
        if e.len() > 0 {
            let b = block_text(g, e);
            assert(b.last() == '\n');
            assert((blocks_text(g, es.drop_last()) + b).last() == b.last());
        } else {
            assert(blocks_text(g, es) =~= blocks_text(g, es.drop_last()));
        }
    }
}

/// The first pass over text in the written form adds a blank line after
/// each `{` and changes nothing else.
proof fn lemma_structure_written(es: Seq<Seq<Entry>>)
    requires
        forall|i: int| 0 <= i < es.len() ==> line_safe_entries(#[trigger] es[i]),
    ensures
        scan(entities_text(es)) == (blocks_text(spaced(), es), false, 0int),
        structure(entities_text(es)) == blocks_text(spaced(), es),
    decreases es.len(),
{
    if es.len() == 0 {
        assert(entities_text(es) =~= Seq::<char>::empty());
        assert(blocks_text(spaced(), es) =~= Seq::<char>::empty());
    } else {
        let es1 = es.drop_last();
        assert forall|i: int| 0 <= i < es1.len() implies line_safe_entries(#[trigger] es1[i]) by {
            assert(es1[i] == es[i]);
        }
        assert(line_safe_entries(es[es.len() - 1]));
        lemma_structure_written(es1);
        let e = es.last();
        let t1 = entities_text(es1);
        lemma_scan_is_from(t1);
        lemma_scan_is_from(entities_text(es));
        lemma_scan_from_concat((Seq::empty(), false, 0), t1, entity_text(e));
        if e.len() > 0 {
            lemma_blocks_text_ends(spaced(), es1);
            lemma_scan_entity(blocks_text(spaced(), es1), e);
        } else {
            assert(entity_text(e) =~= Seq::<char>::empty());
            assert(t1 + entity_text(e) =~= t1);
            assert(blocks_text(spaced(), es) =~= blocks_text(spaced(), es1));
        }
        assert(entities_text(es) == t1 + entity_text(e));
    }
    assert(structure(entities_text(es)) == close_blocks(scan(entities_text(es)).0, scan(entities_text(es)).2));
}

/// A `"key" "value"` line without its line feed.
pub open spec fn kv_row(k: Seq<char>, v: Seq<char>) -> Seq<char> {
    seq!['"'] + k + seq!['"', ' ', '"'] + v + seq!['"']
}

/// The `"key" "value"` lines of an entity, without line feeds.
spec fn entry_rows(e: Seq<Entry>) -> Seq<Seq<char>> {
    e.map_values(|p: Entry| kv_row(p.0, p.1))
}

/// The lines of one block as the first pass writes it.
spec fn block_lines(e: Seq<Entry>) -> Seq<Seq<char>> {
    if e.len() == 0 {
        Seq::empty()
    } else {
        seq![seq!['{'], Seq::<char>::empty()] + entry_rows(e) + seq![seq!['}']]
    }
}

/// The lines of all blocks as the first pass writes them.
spec fn blocks_lines(es: Seq<Seq<Entry>>) -> Seq<Seq<char>>
    decreases es.len(),
{
    if es.len() == 0 {
        Seq::empty()
    } else {
        blocks_lines(es.drop_last()) + block_lines(es.last())
    }
}

/// Lines, each followed by a line feed.
spec fn join_lines(ls: Seq<Seq<char>>) -> Seq<char>
    decreases ls.len(),
{
    if ls.len() == 0 {
        Seq::empty()
    } else {
        join_lines(ls.drop_last()) + ls.last() + seq!['\n']
    }
}

proof fn lemma_join_concat(a: Seq<Seq<char>>, b: Seq<Seq<char>>)
    ensures
        join_lines(a + b) == join_lines(a) + join_lines(b),
    decreases b.len(),
{
    if b.len() == 0 {
        assert(a + b =~= a);
        assert(join_lines(a) + join_lines(b) =~= join_lines(a));
    } else {
        lemma_join_concat(a, b.drop_last());
        assert((a + b).drop_last() =~= a + b.drop_last());
        assert((a + b).last() == b.last());
        assert(join_lines(a) + join_lines(b) =~= join_lines(a) + join_lines(b.drop_last()) + b.last()
            + seq!['\n']);
    }
}

proof fn lemma_join_one(x: Seq<char>)
    ensures
        join_lines(seq![x]) == x + seq!['\n'],
{
    assert(seq![x].drop_last() =~= Seq::<Seq<char>>::empty());
    assert(join_lines(Seq::<Seq<char>>::empty()) =~= Seq::<char>::empty());
    assert(Seq::<char>::empty() + x + seq!['\n'] =~= x + seq!['\n']);
}

proof fn lemma_entries_join(e: Seq<Entry>)
    ensures
        entries_text(e) == join_lines(entry_rows(e)),
    decreases e.len(),
{
    if e.len() == 0 {
        assert(entry_rows(e) =~= Seq::<Seq<char>>::empty());
    } else {
        let e1 = e.drop_last();
        lemma_entries_join(e1);
        assert(entry_rows(e).drop_last() =~= entry_rows(e1));
        assert(entry_rows(e).last() == kv_row(e.last().0, e.last().1));
        assert(kv_line(e.last().0, e.last().1) =~= kv_row(e.last().0, e.last().1) + seq!['\n']);
        assert(entries_text(e) =~= join_lines(entry_rows(e)));
    }
}

proof fn lemma_block_join(e: Seq<Entry>)
    requires
        e.len() > 0,
    ensures
        block_text(spaced(), e) == join_lines(block_lines(e)),
{
    let head = seq![seq!['{'], Seq::<char>::empty()];
    let tail = seq![seq!['}']];
    lemma_join_concat(head + entry_rows(e), tail);
    lemma_join_concat(head, entry_rows(e));
    lemma_entries_join(e);
    lemma_join_one(seq!['}']);
    assert(head.drop_last() =~= seq![seq!['{']]);
    lemma_join_one(seq!['{']);
    assert(join_lines(head) =~= seq!['{', '\n', '\n']);
    assert(block_text(spaced(), e) =~= join_lines(block_lines(e)));
}

proof fn lemma_blocks_join(es: Seq<Seq<Entry>>)
    ensures
        blocks_text(spaced(), es) == join_lines(blocks_lines(es)),
    decreases es.len(),
{
    if es.len() > 0 {
        lemma_blocks_join(es.drop_last());
        lemma_join_concat(blocks_lines(es.drop_last()), block_lines(es.last()));
        if es.last().len() > 0 {
            lemma_block_join(es.last());
        } else {
            assert(block_lines(es.last()) =~= Seq::<Seq<char>>::empty());
            assert(join_lines(block_lines(es.last())) =~= Seq::<char>::empty());
            assert(blocks_text(spaced(), es) =~= blocks_text(spaced(), es.drop_last()));
        }
    } else {
        assert(blocks_lines(es) =~= Seq::<Seq<char>>::empty());
    }
}

proof fn lemma_split_join(ls: Seq<Seq<char>>, l: Seq<char>)
    requires
        forall|i: int| 0 <= i < ls.len() ==> !(#[trigger] ls[i]).contains('\n'),
        !l.contains('\n'),
    ensures
        split(join_lines(ls) + l, '\n') == ls.push(l),
    decreases ls.len(),
{
    if ls.len() == 0 {
        assert(join_lines(ls) + l =~= l);
        crate::text::lemma_split_no_sep(l, '\n');
        assert(ls.push(l) =~= seq![l]);
    } else {
        let ls1 = ls.drop_last();
        assert forall|i: int| 0 <= i < ls1.len() implies !(#[trigger] ls1[i]).contains('\n') by {
            assert(ls1[i] == ls[i]);
        }
        assert(!ls[ls.len() - 1].contains('\n'));
        lemma_split_join(ls1, ls.last());
        let a = join_lines(ls1) + ls.last();
        assert(join_lines(ls) + l =~= a + seq!['\n'] + l);
        crate::text::lemma_split_concat(a, l, '\n');
        crate::text::lemma_split_no_sep(l, '\n');
        assert(ls1.push(ls.last()) + seq![l] =~= ls.push(l));
    }
}

proof fn lemma_lines_join(ls: Seq<Seq<char>>)
    requires
        forall|i: int|
            0 <= i < ls.len() ==> !(#[trigger] ls[i]).contains('\n') && (ls[i].len() == 0
                || ls[i].last() != '\r'),
    ensures
        lines(join_lines(ls)) == ls,
{
    lemma_one_lacks_empty('\n');
    lemma_split_join(ls, Seq::empty());
    assert(join_lines(ls) + Seq::<char>::empty() =~= join_lines(ls));
    let p = split(join_lines(ls), '\n');
    assert(p == ls.push(Seq::<char>::empty()));
    assert forall|i: int| 0 <= i < ls.len() implies #[trigger] lines(join_lines(ls))[i] == ls[i] by {
        assert(p[i] == ls[i]);
        assert(strip_cr(ls[i]) == ls[i]);
    }
    assert(lines(join_lines(ls)) =~= ls);
}

proof fn lemma_one_lacks_empty(c: char)
    ensures
        !Seq::<char>::empty().contains(c),
{
}

proof fn lemma_row_lines(k: Seq<char>, v: Seq<char>)
    requires
        line_safe(k),
        line_safe(v),
    ensures
        !kv_row(k, v).contains('\n'),
        kv_row(k, v).len() > 0,
        kv_row(k, v).last() == '"',
        kv_row(k, v)[0] == '"',
{
    let r = kv_row(k, v);
    if r.contains('\n') {
        let j = choose|j: int| 0 <= j < r.len() && r[j] == '\n';
        if 1 <= j < 1 + k.len() {
            assert(k[j - 1] == '\n');
        } else if 4 + k.len() <= j < 4 + k.len() + v.len() {
            assert(v[j - 4 - k.len()] == '\n');
        }
    }
}

proof fn lemma_blocks_lines_fit(es: Seq<Seq<Entry>>)
    requires
        forall|i: int| 0 <= i < es.len() ==> line_safe_entries(#[trigger] es[i]),
    ensures
        forall|i: int|
            0 <= i < blocks_lines(es).len() ==> !(#[trigger] blocks_lines(es)[i]).contains('\n')
                && (blocks_lines(es)[i].len() == 0 || blocks_lines(es)[i].last() != '\r'),
    decreases es.len(),
{
    if es.len() > 0 {
        let es1 = es.drop_last();
        assert forall|i: int| 0 <= i < es1.len() implies line_safe_entries(#[trigger] es1[i]) by {
            assert(es1[i] == es[i]);
        }
        lemma_blocks_lines_fit(es1);
        let e = es.last();
        assert(line_safe_entries(es[es.len() - 1]));
        let prev = blocks_lines(es1);
        let bl = block_lines(e);
        lemma_one_lacks('{', '\n');
        lemma_one_lacks('}', '\n');
        assert forall|i: int| 0 <= i < blocks_lines(es).len() implies !(
        #[trigger] blocks_lines(es)[i]).contains('\n') && (blocks_lines(es)[i].len() == 0
            || blocks_lines(es)[i].last() != '\r') by {
            if i < prev.len() {
                assert(blocks_lines(es)[i] == prev[i]);
            } else {
                let j = i - prev.len();
                assert(blocks_lines(es)[i] == bl[j]);
                if 2 <= j < 2 + e.len() {
                    let p = e[j - 2];
                    assert(bl[j] == kv_row(p.0, p.1));
                    assert(line_safe(p.0) && line_safe(p.1));
                    lemma_row_lines(p.0, p.1);
                }
            }
        }
    } else {
        assert(blocks_lines(es) =~= Seq::<Seq<char>>::empty());
    }
}

/// The second pass from a given state.
spec fn fix_from(st: (Seq<char>, bool), ls: Seq<Seq<char>>) -> (Seq<char>, bool)
    decreases ls.len(),
{
    if ls.len() == 0 {
        st
    } else {
        let (out, in_block) = fix_from(st, ls.drop_last());
        let (piece, next) = fix_line(ls.last(), in_block);
        (out + piece, next)
    }
}

proof fn lemma_fix_is_from(ls: Seq<Seq<char>>)
    ensures
        fix_lines(ls) == fix_from((Seq::empty(), false), ls),
    decreases ls.len(),
{
    if ls.len() > 0 {
        lemma_fix_is_from(ls.drop_last());
    }
}

proof fn lemma_fix_from_concat(st: (Seq<char>, bool), a: Seq<Seq<char>>, b: Seq<Seq<char>>)
    ensures
        fix_from(st, a + b) == fix_from(fix_from(st, a), b),
    decreases b.len(),
{
    if b.len() == 0 {
        assert(a + b =~= a);
    } else {
        lemma_fix_from_concat(st, a, b.drop_last());
        assert((a + b).drop_last() =~= a + b.drop_last());
        assert((a + b).last() == b.last());
    }
}

proof fn lemma_fix_one(st: (Seq<char>, bool), l: Seq<char>)
    ensures
        fix_from(st, seq![l]) == (st.0 + fix_line(l, st.1).0, fix_line(l, st.1).1),
{
    assert(seq![l].drop_last() =~= Seq::<Seq<char>>::empty());
    assert(seq![l].last() == l);
    assert(fix_from(st, Seq::<Seq<char>>::empty()) == st);
}

proof fn lemma_trim_plain(s: Seq<char>)
    requires
        s.len() > 0,
        !crate::text::is_ws(s[0]),
        !crate::text::is_ws(s.last()),
    ensures
        trim(s) == s,
{
    assert(crate::text::trim_start(s) == s);
    assert(crate::text::trim_end(s) == s);
}

proof fn lemma_fix_row(k: Seq<char>, v: Seq<char>)
    requires
        line_safe(k),
        line_safe(v),
    ensures
        fix_line(kv_row(k, v), true) == (kv_row(k, v).push('\n'), true),
{
    let r = kv_row(k, v);
    let q = '"';
    lemma_row_lines(k, v);
    assert(!crate::text::is_ws('"'));
    lemma_trim_plain(r);
    assert(r.len() >= 5);
    let e = Seq::<char>::empty();
    let b3 = v + seq![q] + e;
    let b2 = seq![' '] + seq![q] + b3;
    let b = k + seq![q] + b2;
    assert(r =~= e + seq![q] + b);
    crate::text::lemma_split_concat(e, b, q);
    crate::text::lemma_split_concat(k, b2, q);
    crate::text::lemma_split_concat(seq![' '], b3, q);
    crate::text::lemma_split_concat(v, e, q);
    lemma_line_safe_lacks(k);
    lemma_line_safe_lacks(v);
    crate::text::lemma_split_no_sep(k, q);
    crate::text::lemma_split_no_sep(v, q);
    crate::text::lemma_split_no_sep(e, q);
    lemma_one_lacks(' ', q);
    crate::text::lemma_split_no_sep(seq![' '], q);
    assert(split(r, q) =~= seq![e, k, seq![' '], v, e]);
}

proof fn lemma_fix_rows(out: Seq<char>, e: Seq<Entry>)
    requires
        line_safe_entries(e),
    ensures
        fix_from((out, true), entry_rows(e)) == (out + join_lines(entry_rows(e)), true),
    decreases e.len(),
{
    if e.len() == 0 {
        assert(entry_rows(e) =~= Seq::<Seq<char>>::empty());
        assert(out + join_lines(entry_rows(e)) =~= out);
    } else {
        let e1 = e.drop_last();
        assert(line_safe_entries(e1)) by {
            assert forall|i: int| 0 <= i < e1.len() implies line_safe((#[trigger] e1[i]).0)
                && line_safe(e1[i].1) by {
                assert(e1[i] == e[i]);
            }
        }
        lemma_fix_rows(out, e1);
        assert(entry_rows(e).drop_last() =~= entry_rows(e1));
        let p = e.last();
        assert(line_safe(e[e.len() - 1].0) && line_safe(e[e.len() - 1].1));
        assert(entry_rows(e).last() == kv_row(p.0, p.1));
        lemma_fix_row(p.0, p.1);
        assert(out + join_lines(entry_rows(e1)) + kv_row(p.0, p.1).push('\n') =~= out + join_lines(
            entry_rows(e),
        ));
    }
}

proof fn lemma_fix_block(out: Seq<char>, e: Seq<Entry>)
    requires
        e.len() > 0,
        line_safe_entries(e),
    ensures
        fix_from((out, false), block_lines(e)) == (out + block_text(spaced(), e), false),
{
    let ob = seq!['{'];
    let cb = seq!['}'];
    let em = Seq::<char>::empty();
    let rows = entry_rows(e);
    assert(block_lines(e) =~= seq![ob] + seq![em] + rows + seq![cb]);
    assert(!crate::text::is_ws('{'));
    assert(!crate::text::is_ws('}'));
    lemma_trim_plain(ob);
    lemma_trim_plain(cb);
    assert(trim(em) =~= em);
    lemma_fix_one((out, false), ob);
    let o1 = out + ob.push('\n');
    lemma_fix_one((o1, true), em);
    let o2 = o1 + em.push('\n');
    lemma_fix_rows(o2, e);
    let o3 = o2 + join_lines(rows);
    lemma_fix_one((o3, true), cb);
    lemma_fix_from_concat((out, false), seq![ob], seq![em]);
    lemma_fix_from_concat((out, false), seq![ob] + seq![em], rows);
    lemma_fix_from_concat((out, false), seq![ob] + seq![em] + rows, seq![cb]);
    lemma_entries_join(e);
    assert(o3 + cb.push('\n') =~= out + block_text(spaced(), e));
}

proof fn lemma_fix_blocks(es: Seq<Seq<Entry>>)
    requires
        forall|i: int| 0 <= i < es.len() ==> line_safe_entries(#[trigger] es[i]),
    ensures
        fix_lines(blocks_lines(es)) == (blocks_text(spaced(), es), false),
    decreases es.len(),
{
    lemma_fix_is_from(blocks_lines(es));
    if es.len() == 0 {
        assert(blocks_lines(es) =~= Seq::<Seq<char>>::empty());
    } else {
        let es1 = es.drop_last();
        assert forall|i: int| 0 <= i < es1.len() implies line_safe_entries(#[trigger] es1[i]) by {
            assert(es1[i] == es[i]);
        }
        lemma_fix_blocks(es1);
        lemma_fix_is_from(blocks_lines(es1));
        lemma_fix_from_concat((Seq::empty(), false), blocks_lines(es1), block_lines(es.last()));
        if es.last().len() > 0 {
            assert(line_safe_entries(es[es.len() - 1]));
            lemma_fix_block(blocks_text(spaced(), es1), es.last());
        } else {
            assert(block_lines(es.last()) =~= Seq::<Seq<char>>::empty());
            assert(blocks_text(spaced(), es) =~= blocks_text(spaced(), es1));
        }
    }
}

/// Normalising entity text in the form it is written in, with no line break
/// in a key or value, only puts a blank line after each `{`.
pub proof fn law_normalise_written(es: Seq<Seq<Entry>>)
    requires
        forall|i: int| 0 <= i < es.len() ==> line_safe_entries(#[trigger] es[i]),
    ensures
        normalised(entities_text(es)) == blocks_text(spaced(), es),
{
    lemma_structure_written(es);
    lemma_blocks_join(es);
    lemma_blocks_lines_fit(es);
    lemma_lines_join(blocks_lines(es));
    lemma_fix_blocks(es);
}

// ---------------------------------------------------------------------------
// Pairs packed on one line
// ---------------------------------------------------------------------------

/// The `"key" "value"` pairs of `e` one after the other on a single line,
/// a space between each two.
pub open spec fn packed_pairs(e: Seq<Entry>) -> Seq<char>
    decreases e.len(),
{
    if e.len() == 0 {
        Seq::empty()
    } else if e.len() == 1 {
        kv_row(e[0].0, e[0].1)
    } else {
        packed_pairs(e.drop_last()) + seq![' '] + kv_row(e.last().0, e.last().1)
    }
}

/// An entity written on a single line: `{`, its packed pairs, `}`.
pub open spec fn packed_entity(e: Seq<Entry>) -> Seq<char> {
    seq!['{'] + packed_pairs(e) + seq!['}']
}

proof fn lemma_scan_row(out: Seq<char>, d: int, k: Seq<char>, v: Seq<char>)
    requires
        d > 0,
        line_safe(k),
        line_safe(v),
    ensures
        scan_from((out, false, d), kv_row(k, v)) == (out + kv_row(k, v), false, d),
{
    let qt = seq!['"'];
    let sp = seq![' '];
    assert(kv_row(k, v) =~= qt + k + qt + sp + qt + v + qt);
    lemma_one_lacks(' ', '\r');
    lemma_one_lacks(' ', '"');
    lemma_one_lacks(' ', '{');
    lemma_one_lacks(' ', '}');
    let st0 = (out, false, d);
    lemma_scan_one(st0, '"');
    assert(out.push('"') =~= out + qt);
    lemma_scan_plain(out + qt, true, d, k);
    let s2 = (out + qt + k, true, d);
    lemma_scan_one(s2, '"');
    assert((out + qt + k).push('"') =~= out + qt + k + qt);
    lemma_scan_plain(out + qt + k + qt, false, d, sp);
    let s4 = (out + qt + k + qt + sp, false, d);
    lemma_scan_one(s4, '"');
    assert((out + qt + k + qt + sp).push('"') =~= out + qt + k + qt + sp + qt);
    lemma_scan_plain(out + qt + k + qt + sp + qt, true, d, v);
    let s6 = (out + qt + k + qt + sp + qt + v, true, d);
    lemma_scan_one(s6, '"');
    assert((out + qt + k + qt + sp + qt + v).push('"') =~= out + qt + k + qt + sp + qt + v + qt);
    lemma_scan_from_concat(st0, qt, k);
    lemma_scan_from_concat(st0, qt + k, qt);
    lemma_scan_from_concat(st0, qt + k + qt, sp);
    lemma_scan_from_concat(st0, qt + k + qt + sp, qt);
    lemma_scan_from_concat(st0, qt + k + qt + sp + qt, v);
    lemma_scan_from_concat(st0, qt + k + qt + sp + qt + v, qt);
    assert(out + qt + k + qt + sp + qt + v + qt =~= out + kv_row(k, v));
}

proof fn lemma_line_safe_first(e: Seq<Entry>)
    requires
        e.len() > 0,
        line_safe_entries(e),
    ensures
        line_safe_entries(e.drop_last()),
        line_safe(e.last().0),
        line_safe(e.last().1),
{
    let e1 = e.drop_last();
    assert forall|i: int| 0 <= i < e1.len() implies line_safe((#[trigger] e1[i]).0) && line_safe(
        e1[i].1,
    ) by {
        assert(e1[i] == e[i]);
    }
    assert(line_safe(e[e.len() - 1].0) && line_safe(e[e.len() - 1].1));
}

proof fn lemma_packed_facts(e: Seq<Entry>)
    requires
        e.len() > 0,
        line_safe_entries(e),
    ensures
        packed_pairs(e).len() > 0,
        packed_pairs(e)[0] == '"',
        packed_pairs(e).last() == '"',
        !packed_pairs(e).contains('\n'),
    decreases e.len(),
{
    lemma_line_safe_first(e);
    if e.len() == 1 {
        assert(e[0] == e.last());
        lemma_row_lines(e[0].0, e[0].1);
    } else {
        let e1 = e.drop_last();
        lemma_packed_facts(e1);
        let p1 = packed_pairs(e1);
        let r = kv_row(e.last().0, e.last().1);
        lemma_row_lines(e.last().0, e.last().1);
        let p = packed_pairs(e);
        assert(p == p1 + seq![' '] + r);
        assert(p[0] == p1[0]);
        assert(p.last() == r.last());
        if p.contains('\n') {
            let j = choose|j: int| 0 <= j < p.len() && p[j] == '\n';
            if j < p1.len() {
                assert(p1[j] == '\n');
            } else if j == p1.len() {
                assert(p[j] == ' ');
            } else {
                assert(r[j - p1.len() - 1] == '\n');
            }
        }
    }
}

proof fn lemma_scan_packed(out: Seq<char>, d: int, e: Seq<Entry>)
    requires
        d > 0,
        e.len() > 0,
        line_safe_entries(e),
    ensures
        scan_from((out, false, d), packed_pairs(e)) == (out + packed_pairs(e), false, d),
    decreases e.len(),
{
    lemma_line_safe_first(e);
    if e.len() == 1 {
        assert(e[0] == e.last());
        lemma_scan_row(out, d, e[0].0, e[0].1);
    } else {
        let e1 = e.drop_last();
        let p1 = packed_pairs(e1);
        let sp = seq![' '];
        let r = kv_row(e.last().0, e.last().1);
        lemma_scan_packed(out, d, e1);
        lemma_one_lacks(' ', '\r');
        lemma_one_lacks(' ', '"');
        lemma_one_lacks(' ', '{');
        lemma_one_lacks(' ', '}');
        lemma_scan_plain(out + p1, false, d, sp);
        lemma_scan_row(out + p1 + sp, d, e.last().0, e.last().1);
        lemma_scan_from_concat((out, false, d), p1, sp);
        lemma_scan_from_concat((out, false, d), p1 + sp, r);
        assert(out + p1 + sp + r =~= out + packed_pairs(e));
    }
}

proof fn lemma_split_row(k: Seq<char>, v: Seq<char>)
    requires
        line_safe(k),
        line_safe(v),
    ensures
        split(kv_row(k, v), '"') == seq![Seq::<char>::empty(), k, seq![' '], v, Seq::<char>::empty()],
{
    let r = kv_row(k, v);
    let q = '"';
    let e = Seq::<char>::empty();
    let b3 = v + seq![q] + e;
    let b2 = seq![' '] + seq![q] + b3;
    let b = k + seq![q] + b2;
    assert(r =~= e + seq![q] + b);
    crate::text::lemma_split_concat(e, b, q);
    crate::text::lemma_split_concat(k, b2, q);
    crate::text::lemma_split_concat(seq![' '], b3, q);
    crate::text::lemma_split_concat(v, e, q);
    lemma_line_safe_lacks(k);
    lemma_line_safe_lacks(v);
    crate::text::lemma_split_no_sep(k, q);
    crate::text::lemma_split_no_sep(v, q);
    crate::text::lemma_split_no_sep(e, q);
    lemma_one_lacks(' ', q);
    crate::text::lemma_split_no_sep(seq![' '], q);
    assert(split(r, q) =~= seq![e, k, seq![' '], v, e]);
}

proof fn lemma_split_packed(e: Seq<Entry>)
    requires
        e.len() > 0,
        line_safe_entries(e),
    ensures
        split(packed_pairs(e), '"').len() == 4 * e.len() + 1,
        forall|j: int|
            0 <= j < e.len() ==> split(packed_pairs(e), '"')[4 * j + 1] == (#[trigger] e[j]).0
                && split(packed_pairs(e), '"')[4 * j + 3] == e[j].1,
    decreases e.len(),
{
    lemma_line_safe_first(e);
    let qc = '"';
    let em = Seq::<char>::empty();
    if e.len() == 1 {
        assert(e[0] == e.last());
        lemma_split_row(e[0].0, e[0].1);
    } else {
        let e1 = e.drop_last();
        lemma_split_packed(e1);
        lemma_packed_facts(e1);
        let p1 = packed_pairs(e1);
        let (k, v) = (e.last().0, e.last().1);
        let a = p1.drop_last();
        assert(p1 =~= a + seq![qc] + em);
        crate::text::lemma_split_concat(a, em, qc);
        crate::text::lemma_split_no_sep(em, qc);
        let s1 = split(p1, qc);
        assert(split(a, qc) =~= s1.drop_last());
        let rest = k + seq![qc] + seq![' '] + seq![qc] + v + seq![qc];
        lemma_split_row(k, v);
        assert(kv_row(k, v) =~= em + seq![qc] + rest);
        crate::text::lemma_split_concat(em, rest, qc);
        let sr = split(rest, qc);
        assert(seq![em] + sr == seq![em, k, seq![' '], v, em]);
        assert((seq![em] + sr).drop_first() =~= sr);
        assert(seq![em, k, seq![' '], v, em].drop_first() =~= seq![k, seq![' '], v, em]);
        assert(sr =~= seq![k, seq![' '], v, em]);
        let p = packed_pairs(e);
        assert(p =~= a + seq![qc] + (seq![' '] + seq![qc] + rest));
        crate::text::lemma_split_concat(a, seq![' '] + seq![qc] + rest, qc);
        crate::text::lemma_split_concat(seq![' '], rest, qc);
        lemma_one_lacks(' ', qc);
        crate::text::lemma_split_no_sep(seq![' '], qc);
        let sp = split(p, qc);
        assert(sp =~= s1.drop_last() + seq![seq![' ']] + seq![k, seq![' '], v, em]);
        assert forall|j: int| 0 <= j < e.len() implies sp[4 * j + 1] == (#[trigger] e[j]).0 && sp[4
            * j + 3] == e[j].1 by {
            if j < e1.len() {
                assert(e[j] == e1[j]);
                assert(sp[4 * j + 1] == s1[4 * j + 1]);
                assert(sp[4 * j + 3] == s1[4 * j + 3]);
            }
        }
    }
}

proof fn lemma_pairs_upto_entries(q: Seq<Seq<char>>, e: Seq<Entry>, m: int)
    requires
        q.len() == 4 * e.len() + 1,
        forall|j: int| 0 <= j < e.len() ==> q[4 * j + 1] == (#[trigger] e[j]).0 && q[4 * j + 3] == e[j].1,
        0 <= m <= e.len(),
    ensures
        pairs_upto(q, m) == entries_text(e.take(m)),
    decreases m,
{
    if m == 0 {
        assert(e.take(0) =~= Seq::<Entry>::empty());
    } else {
        lemma_pairs_upto_entries(q, e, m - 1);
        assert(e.take(m).drop_last() =~= e.take(m - 1));
        assert(e.take(m).last() == e[m - 1]);
        assert(q[4 * (m - 1) + 1] == e[m - 1].0);
    }
}

/// An entity written on a single line, `{` and `}` round `"key" "value"`
/// pairs separated by spaces, is repaired into a block with one line per
/// pair, every pair kept in order; read back, it gives the entity again.
pub proof fn law_normalise_packed(e: Seq<Entry>)
    requires
        e.len() > 0,
        line_safe_entries(e),
    ensures
        normalised(packed_entity(e)) == entity_text(e),
        distinct_keys(e) ==> parse_entities(normalised(packed_entity(e))) == seq![e],
{
    let p = packed_pairs(e);
    lemma_packed_facts(e);
    let t = packed_entity(e);
    let ob = seq!['{'];
    let cb = seq!['}'];
    let lf = seq!['\n'];
    let em = Seq::<char>::empty();
    // First pass.
    lemma_scan_is_from(t);
    let st0 = (em, false, 0int);
    lemma_scan_one(st0, '{');
    assert(scan_from(st0, ob) == (seq!['{', '\n'], false, 1int)) by {
        assert(em + seq!['{', '\n'] =~= seq!['{', '\n']);
    }
    lemma_scan_packed(seq!['{', '\n'], 1, e);
    let o2 = seq!['{', '\n'] + p;
    assert(o2.last() == p.last());
    lemma_scan_one((o2, false, 1int), '}');
    let o3 = o2.push('\n') + seq!['}', '\n'];
    lemma_scan_from_concat(st0, ob, p);
    lemma_scan_from_concat(st0, ob + p, cb);
    assert(t =~= ob + p + cb);
    assert(scan(t) == (o3, false, 0int));
    assert(structure(t) == o3);
    // Its lines.
    let ls = seq![ob, p, cb];
    assert(ls.drop_last() =~= seq![ob, p]);
    assert(seq![ob, p].drop_last() =~= seq![ob]);
    lemma_join_one(ob);
    assert(ls.last() == cb);
    assert(seq![ob, p].last() == p);
    assert(join_lines(seq![ob, p]) == join_lines(seq![ob]) + p + lf);
    assert(join_lines(ls) == join_lines(seq![ob, p]) + cb + lf);
    assert(join_lines(ls) =~= o3);
    lemma_one_lacks('{', '\n');
    lemma_one_lacks('}', '\n');
    assert(lines(join_lines(ls)) == ls) by {
        lemma_lines_join(ls);
    }
    // Second pass.
    assert(!crate::text::is_ws('{'));
    assert(!crate::text::is_ws('}'));
    assert(!crate::text::is_ws('"'));
    lemma_trim_plain(ob);
    lemma_trim_plain(cb);
    lemma_trim_plain(p);
    let qs = split(p, '"');
    lemma_split_packed(e);
    let n = qs.len() - 1;
    assert(n == 4 * e.len());
    let (piece, next) = fix_line(p, true);
    if e.len() == 1 {
        assert(e[0] == e.last());
        assert(e.drop_last() =~= Seq::<Entry>::empty());
        assert(p.push('\n') =~= kv_line(e[0].0, e[0].1));
        assert(entries_text(e) == entries_text(e.drop_last()) + kv_line(e[0].0, e[0].1));
        assert(piece == entries_text(e));
    } else {
        assert(n / 4 == e.len());
        lemma_pairs_upto_entries(qs, e, e.len() as int);
        assert(e.take(e.len() as int) =~= e);
        assert(piece == entries_text(e));
    }
    lemma_fix_is_from(ls);
    let f0 = (em, false);
    lemma_fix_one(f0, ob);
    let f1 = (em + ob.push('\n'), true);
    lemma_fix_one(f1, p);
    let f2 = (f1.0 + entries_text(e), true);
    lemma_fix_one(f2, cb);
    lemma_fix_from_concat(f0, seq![ob], seq![p]);
    lemma_fix_from_concat(f0, seq![ob] + seq![p], seq![cb]);
    assert(seq![ob] + seq![p] + seq![cb] =~= ls);
    assert(f2.0 + cb.push('\n') =~= entity_text(e));
    assert(normalised(t) == entity_text(e));
    // Read back.
    if distinct_keys(e) {
        assert(clean_entries(e)) by {
            assert forall|i: int| 0 <= i < e.len() implies crate::ent::clean_entry(#[trigger] e[i]) by {
                assert(line_safe(e[i].0) && line_safe(e[i].1));
            }
        }
        assert(forall|i: int| 0 <= i < seq![e].len() ==> #[trigger] seq![e][i] == e);
        law_text_roundtrip(seq![e]);
        assert(seq![e].drop_last() =~= Seq::<Seq<Entry>>::empty());
        assert(entities_text(seq![e]) =~= entity_text(e)) by {
            assert(entities_text(Seq::<Seq<Entry>>::empty()) =~= Seq::<char>::empty());
        }
        assert(nonempty_entities(seq![e]) =~= seq![e]) by {
            assert(nonempty_entities(Seq::<Seq<Entry>>::empty()) =~= Seq::<Seq<Entry>>::empty());
        }
    }
}

// ---------------------------------------------------------------------------
// The passes
// ---------------------------------------------------------------------------

fn push_kv_line(out: &mut Vec<char>, k: &[char], v: &[char])
    ensures
        final(out)@ == old(out)@ + kv_line(k@, v@),
{
    out.push('"');
    push_chars(out, k);
    out.push('"');
    out.push(' ');
    out.push('"');
    push_chars(out, v);
    out.push('"');
    out.push('\n');
    assert(out@ =~= old(out)@ + kv_line(k@, v@));
}

fn structure_chars(s: &[char]) -> (r: Vec<char>)
    ensures
        r@ == structure(s@),
{
    let mut out: Vec<char> = Vec::new();
    let mut in_quote = false;
    let mut depth: i128 = 0;
    let mut i: usize = 0;
    assert(s@.take(0) =~= Seq::<char>::empty());
    while i < s.len()
        invariant
            0 <= i <= s@.len(),
            (out@, in_quote, depth as int) == scan(s@.take(i as int)),
            -(i as int) <= depth <= i,
        decreases s@.len() - i,
    {
        let c = s[i];
        assert(s@.take(i + 1).drop_last() =~= s@.take(i as int));
        assert(s@.take(i + 1).last() == c);
        let ghost before = out@;
        if c == '\r' {
        } else if c == '"' {
            in_quote = !in_quote;
            out.push(c);
        } else if c == '{' && !in_quote {
            if out.len() > 0 && out[out.len() - 1] != '\n' {
                out.push('\n');
            }
            out.push('{');
            out.push('\n');
            depth = (if depth < 0 {
                0
            } else {
                depth
            }) + 1;
            assert(out@ =~= (if before.len() > 0 && !ends_with_lf(before) {
                before.push('\n')
            } else {
                before
            }) + seq!['{', '\n']);
        } else if c == '}' && !in_quote {
            if !(out.len() > 0 && out[out.len() - 1] == '\n') {
                out.push('\n');
            }
            depth = depth - 1;
            out.push('}');
            out.push('\n');
            assert(out@ =~= (if !ends_with_lf(before) {
                before.push('\n')
            } else {
                before
            }) + seq!['}', '\n']);
        } else if depth > 0 {
            out.push(c);
        }
        i = i + 1;
    }
    assert(s@.take(s@.len() as int) =~= s@);
    let ghost base = out@;
    let ghost d0 = depth as int;
    while depth > 0
        invariant
            depth <= d0,
            close_blocks(base, d0) == close_blocks(out@, depth as int),
        decreases depth,
    {
        let ghost prev = out@;
        out.push('}');
        out.push('\n');
        assert(out@ =~= prev + seq!['}', '\n']);
        depth = depth - 1;
    }
    out
}

/// The pieces `q[a]`, ..., `q[b - 1]` appended to `out`.
fn push_range(out: &mut Vec<char>, q: &Vec<Vec<char>>, a: usize, b: usize)
    requires
        a <= b <= q@.len(),
    ensures
        final(out)@ == old(out)@ + concat_range(views(q@), a as int, b as int),
{
    let mut j: usize = a;
    assert(old(out)@ =~= old(out)@ + concat_range(views(q@), a as int, a as int));
    while j < b
        invariant
            a <= j <= b <= q@.len(),
            out@ == old(out)@ + concat_range(views(q@), a as int, j as int),
        decreases b - j,
    {
        let ghost prev = out@;
        push_chars(out, q[j].as_slice());
        assert(views(q@)[j as int] == q@[j as int]@);
        assert(out@ =~= old(out)@ + concat_range(views(q@), a as int, j + 1));
        j = j + 1;
    }
}

fn fix_line_chars(out: &mut Vec<char>, line: &[char], in_block: bool) -> (next: bool)
    ensures
        final(out)@ == old(out)@ + fix_line(line@, in_block).0,
        next == fix_line(line@, in_block).1,
{
    let t = trim_chars(line);
    let is_open = t.len() == 1 && t[0] == '{';
    let is_close = t.len() == 1 && t[0] == '}';
    assert(is_open == (t@ == seq!['{'])) by {
        if t@ == seq!['{'] {
            assert(t@[0] == '{');
        }
        if is_open {
            assert(t@ =~= seq!['{']);
        }
    }
    assert(is_close == (t@ == seq!['}'])) by {
        if t@ == seq!['}'] {
            assert(t@[0] == '}');
        }
        if is_close {
            assert(t@ =~= seq!['}']);
        }
    }
    if is_open {
        push_chars(out, line);
        out.push('\n');
        assert(out@ =~= old(out)@ + line@.push('\n'));
        return true;
    }
    if is_close {
        push_chars(out, line);
        out.push('\n');
        assert(out@ =~= old(out)@ + line@.push('\n'));
        return false;
    }
    if in_block && t.len() > 0 {
        let q = split_chars(t.as_slice(), '"');
        let ghost qs = split(t@, '"');
        proof {
            lemma_split_len(t@, '"');
        }
        assert(views(q@) == qs);
        let n = q.len() - 1;
        if n == 2 {
            assert(q@[1]@ == qs[1] && q@[2]@ == qs[2]);
            let v = trim_chars(q[2].as_slice());
            if v.len() > 0 {
                push_kv_line(out, q[1].as_slice(), v.as_slice());
            } else {
                assert(out@ =~= old(out)@ + Seq::<char>::empty());
            }
        } else if n == 3 {
            assert(q@[1]@ == qs[1] && q@[3]@ == qs[3]);
            push_kv_line(out, q[1].as_slice(), q[3].as_slice());
        } else if n == 4 {
            push_chars(out, line);
            out.push('\n');
            assert(out@ =~= old(out)@ + line@.push('\n'));
        } else if 5 <= n && n <= 7 {
            let mut clean: Vec<char> = Vec::new();
            push_range(&mut clean, &q, 3, n);
            assert(clean@ =~= concat_range(qs, 3, n as int));
            if clean.len() > 0 {
                assert(q@[1]@ == qs[1]);
                push_kv_line(out, q[1].as_slice(), clean.as_slice());
            } else {
                assert(out@ =~= old(out)@ + Seq::<char>::empty());
            }
        } else {
            let m = n / 4;
            let mut g: usize = 0;
            assert(old(out)@ =~= old(out)@ + pairs_upto(qs, 0));
            while g < m
                invariant
                    0 <= g <= m,
                    m == n / 4,
                    n == q@.len() - 1,
                    q@.len() == qs.len(),
                    views(q@) == qs,
                    out@ == old(out)@ + pairs_upto(qs, g as int),
                decreases m - g,
            {
                assert(4 * g + 3 < q@.len());
                assert(q@[4 * g + 1]@ == qs[4 * g + 1] && q@[4 * g + 3]@ == qs[4 * g + 3]);
                let ghost prev = out@;
                push_kv_line(out, q[4 * g + 1].as_slice(), q[4 * g + 3].as_slice());
                assert(out@ =~= old(out)@ + pairs_upto(qs, g + 1));
                g = g + 1;
            }
        }
        return in_block;
    }
    push_chars(out, line);
    out.push('\n');
    assert(out@ =~= old(out)@ + line@.push('\n'));
    in_block
}

/// Repairs entity text: braces on lines of their own, every open block
/// closed, text outside blocks dropped, carriage returns dropped, and each
/// line inside a block rewritten as a `"key" "value"` line where it can be.
pub fn normalise_entities(text: &str) -> (r: String)
    ensures
        r@ == normalised(text@),
{
    let cs = str_chars(text);
    let st = structure_chars(cs.as_slice());
    let ls = lines_chars(st.as_slice());
    let ghost lv = lines(structure(text@));
    let mut fixed: Vec<char> = Vec::new();
    let mut in_block = false;
    let mut i: usize = 0;
    assert(lv.take(0) =~= Seq::<Seq<char>>::empty());
    while i < ls.len()
        invariant
            0 <= i <= ls@.len(),
            views(ls@) == lv,
            ls@.len() == lv.len(),
            (fixed@, in_block) == fix_lines(lv.take(i as int)),
        decreases ls@.len() - i,
    {
        assert(lv.take(i + 1).drop_last() =~= lv.take(i as int));
        assert(lv.take(i + 1).last() == ls@[i as int]@);
        in_block = fix_line_chars(&mut fixed, ls[i].as_slice(), in_block);
        i = i + 1;
    }
    assert(lv.take(lv.len() as int) =~= lv);
    string_from_chars(fixed.as_slice())
}

} // verus!
