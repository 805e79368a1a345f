//! An entity: its key/value pairs, kept in the order they were first given,
//! with no key twice.

use vstd::prelude::*;
use crate::text::{
    str_chars,
    chars_eq,
    trim,
    trim_chars,
    parse_bounded,
    parse_decimal,
    decimal,
    u32_to_string,
    string_from_chars,
    lemma_parse_decimal_roundtrip,
    key_lt,
    chars_lt,
    lemma_key_lt_transitive,
    lemma_key_lt_total,
    views,
};

verus! {

broadcast use vstd::string::group_string_axioms, vstd::slice::group_slice_axioms;

/// One key/value pair, as character sequences.
pub type Entry = (Seq<char>, Seq<char>);

/// No key occurs twice.
pub open spec fn distinct_keys(e: Seq<Entry>) -> bool {
    forall|i: int, j: int| 0 <= i < e.len() && 0 <= j < e.len() && i != j ==> e[i].0 != e[j].0
}

/// Some pair has key `k`.
pub open spec fn has_key(e: Seq<Entry>, k: Seq<char>) -> bool {
    exists|i: int| 0 <= i < e.len() && e[i].0 == k
}

/// The position of the pair with key `k`.
pub open spec fn key_pos(e: Seq<Entry>, k: Seq<char>) -> int {
    choose|i: int| 0 <= i < e.len() && e[i].0 == k
}

/// The value of key `k`, if there is one.
pub open spec fn lookup(e: Seq<Entry>, k: Seq<char>) -> Option<Seq<char>> {
    if has_key(e, k) {
        Some(e[key_pos(e, k)].1)
    } else {
        None
    }
}

/// `e` with key `k` set to `v`: in place where `k` is already a key, at the
/// end where it is not.
pub open spec fn insert_entry(e: Seq<Entry>, k: Seq<char>, v: Seq<char>) -> Seq<Entry> {
    if has_key(e, k) {
        e.update(key_pos(e, k), (k, v))
    } else {
        e.push((k, v))
    }
}

/// `e` without key `k`.
pub open spec fn remove_entry(e: Seq<Entry>, k: Seq<char>) -> Seq<Entry> {
    if has_key(e, k) {
        e.remove(key_pos(e, k))
    } else {
        e
    }
}

/// The pairs of `ps` set one after the other, starting from `e`: a later
/// pair for the same key wins.
pub open spec fn insert_all(e: Seq<Entry>, ps: Seq<Entry>) -> Seq<Entry>
    decreases ps.len(),
{
    if ps.len() == 0 {
        e
    } else {
        let prev = insert_all(e, ps.drop_last());
        insert_entry(prev, ps.last().0, ps.last().1)
    }
}

/// The keys, in order.
pub open spec fn keys_of(e: Seq<Entry>) -> Seq<Seq<char>> {
    e.map_values(|p: Entry| p.0)
}

/// Both hold the same keys with the same values, in whatever order.
pub open spec fn same_map(a: Seq<Entry>, b: Seq<Entry>) -> bool {
    forall|k: Seq<char>| #[trigger] lookup(a, k) == lookup(b, k)
}

pub proof fn lemma_lookup_at(e: Seq<Entry>, i: int)
    requires
        distinct_keys(e),
        0 <= i < e.len(),
    ensures
        has_key(e, e[i].0),
        key_pos(e, e[i].0) == i,
        lookup(e, e[i].0) == Some(e[i].1),
{
    assert(has_key(e, e[i].0));
}

pub proof fn lemma_insert_entry(e: Seq<Entry>, k: Seq<char>, v: Seq<char>)
    requires
        distinct_keys(e),
    ensures
        distinct_keys(insert_entry(e, k, v)),
        has_key(insert_entry(e, k, v), k),
        lookup(insert_entry(e, k, v), k) == Some(v),
        forall|k2: Seq<char>| k2 != k ==> #[trigger] lookup(insert_entry(e, k, v), k2) == lookup(e, k2),
        insert_entry(e, k, v).len() == e.len() + (if has_key(e, k) { 0int } else { 1int }),
{
    let r = insert_entry(e, k, v);
    if has_key(e, k) {
        let p = key_pos(e, k);
        assert(r[p] == (k, v));
        assert forall|k2: Seq<char>| k2 != k implies #[trigger] lookup(r, k2) == lookup(e, k2) by {
            if has_key(e, k2) {
                let q = key_pos(e, k2);
                assert(r[q] == e[q]);
                lemma_lookup_at(r, q);
            } else {
                if has_key(r, k2) {
                    let q = key_pos(r, k2);
                    assert(e[q].0 == k2);
                }
            }
        }
        lemma_lookup_at(r, p);
    } else {
        assert(r[e.len() as int] == (k, v));
        assert forall|k2: Seq<char>| k2 != k implies #[trigger] lookup(r, k2) == lookup(e, k2) by {
            if has_key(e, k2) {
                let q = key_pos(e, k2);
                assert(r[q] == e[q]);
                lemma_lookup_at(r, q);
            } else {
                if has_key(r, k2) {
                    let q = key_pos(r, k2);
                    assert(e[q].0 == k2);
                }
            }
        }
        lemma_lookup_at(r, e.len() as int);
    }
}

pub proof fn lemma_remove_entry(e: Seq<Entry>, k: Seq<char>)
    requires
        distinct_keys(e),
    ensures
        distinct_keys(remove_entry(e, k)),
        !has_key(remove_entry(e, k), k),
        forall|k2: Seq<char>| k2 != k ==> #[trigger] lookup(remove_entry(e, k), k2) == lookup(e, k2),
{
    let r = remove_entry(e, k);
    if has_key(e, k) {
        let p = key_pos(e, k);
        assert forall|i: int| 0 <= i < r.len() implies #[trigger] r[i] == (if i < p {
            e[i]
        } else {
            e[i + 1]
        }) by {}
        assert forall|k2: Seq<char>| k2 != k implies #[trigger] lookup(r, k2) == lookup(e, k2) by {
            if has_key(e, k2) {
                let q = key_pos(e, k2);
                assert(q != p);
                let q2 = if q < p { q } else { q - 1 };
                assert(r[q2] == e[q]);
                lemma_lookup_at(r, q2);
            } else {
                if has_key(r, k2) {
                    let q = key_pos(r, k2);
                    if q < p {
                        assert(e[q].0 == k2);
                    } else {
                        assert(e[q + 1].0 == k2);
                    }
                }
            }
        }
        if has_key(r, k) {
            let q = key_pos(r, k);
            if q < p {
                assert(e[q].0 == k);
            } else {
                assert(e[q + 1].0 == k);
            }
        }
    }
}

/// The key/value pairs of one entity.
pub struct EntityDictionary {
    pairs: Vec<(String, String)>,
}

/// The character sequences of a list of string pairs.
pub open spec fn pair_views(v: Seq<(String, String)>) -> Seq<Entry> {
    v.map_values(|p: (String, String)| (p.0@, p.1@))
}

impl View for EntityDictionary {
    type V = Seq<Entry>;

    closed spec fn view(&self) -> Seq<Entry> {
        pair_views(self.pairs@)
    }
}

impl EntityDictionary {
    #[verifier::type_invariant]
    closed spec fn inv(self) -> bool {
        distinct_keys(pair_views(self.pairs@))
    }

    /// An entity with no pairs.
    pub fn empty() -> (r: Self)
        ensures
            r@ == Seq::<Entry>::empty(),
    {
        let r = EntityDictionary { pairs: Vec::new() };
        assert(r@ =~= Seq::<Entry>::empty());
        r
    }

    /// A copy with the same pairs.
    pub fn copied(&self) -> (r: Self)
        ensures
            r@ == self@,
    {
        proof {
            use_type_invariant(self);
        }
        let mut pairs: Vec<(String, String)> = Vec::new();
        let mut i: usize = 0;
        while i < self.pairs.len()
            invariant
                0 <= i <= self.pairs@.len(),
                pair_views(pairs@) == pair_views(self.pairs@).take(i as int),
            decreases self.pairs@.len() - i,
        {
            let k = self.pairs[i].0.clone();
            let v = self.pairs[i].1.clone();
            let ghost before = pair_views(pairs@);
            pairs.push((k, v));
            assert(pair_views(pairs@) =~= before.push((k@, v@)));
            assert(pair_views(self.pairs@).take(i + 1) =~= pair_views(self.pairs@).take(i as int).push(
                pair_views(self.pairs@)[i as int],
            ));
            i = i + 1;
        }
        assert(pair_views(self.pairs@).take(self.pairs@.len() as int) =~= pair_views(self.pairs@));
        EntityDictionary { pairs }
    }

    /// No key of the entity occurs twice.
    pub fn keys_are_distinct(&self)
        ensures
            distinct_keys(self@),
    {
        proof {
            use_type_invariant(self);
        }
    }

    /// Number of pairs.
    pub fn len(&self) -> (r: usize)
        ensures
            r == self@.len(),
    {
        self.pairs.len()
    }

    /// Whether there are no pairs.
    pub fn is_empty(&self) -> (r: bool)
        ensures
            r == (self@.len() == 0),
    {
        self.pairs.len() == 0
    }

    /// The pairs, in order.
    pub fn pairs(&self) -> (r: &Vec<(String, String)>)
        ensures
            pair_views(r@) == self@,
            distinct_keys(self@),
    {
        proof {
            use_type_invariant(self);
        }
        &self.pairs
    }

    fn find(&self, key: &[char]) -> (r: Option<usize>)
        ensures
            match r {
                Some(i) => i < self@.len() && self@[i as int].0 == key@ && has_key(self@, key@)
                    && key_pos(self@, key@) == i,
                None => !has_key(self@, key@),
            },
    {
        proof {
            use_type_invariant(self);
        }
        let mut i: usize = 0;
        while i < self.pairs.len()
            invariant
                0 <= i <= self.pairs@.len(),
                self@ == pair_views(self.pairs@),
                distinct_keys(self@),
                forall|j: int| 0 <= j < i ==> self@[j].0 != key@,
            decreases self.pairs@.len() - i,
        {
            let k = str_chars(self.pairs[i].0.as_str());
            if chars_eq(k.as_slice(), key) {
                proof {
                    lemma_lookup_at(self@, i as int);
                }
                return Some(i);
            }
            i = i + 1;
        }
        None
    }

    /// The value of a key, given as characters.
    pub fn get_chars(&self, key: &[char]) -> (r: Option<&String>)
        ensures
            match r {
                Some(v) => lookup(self@, key@) == Some(v@),
                None => lookup(self@, key@) is None,
            },
    {
        match self.find(key) {
            Some(i) => Some(&self.pairs[i].1),
            None => None,
        }
    }

    /// The value of a key.
    pub fn get(&self, key: &str) -> (r: Option<&String>)
        ensures
            match r {
                Some(v) => lookup(self@, key@) == Some(v@),
                None => lookup(self@, key@) is None,
            },
    {
        let k = str_chars(key);
        self.get_chars(k.as_slice())
    }

    /// Whether the key is present.
    pub fn contains_key(&self, key: &str) -> (r: bool)
        ensures
            r == has_key(self@, key@),
    {
        let k = str_chars(key);
        self.find(k.as_slice()).is_some()
    }

    /// Sets a key to a value: in place where the key is already present, as
    /// a new last pair where it is not.
    pub fn insert(&mut self, key: String, value: String)
        ensures
            final(self)@ == insert_entry(old(self)@, key@, value@),
    {
        proof {
            use_type_invariant(&*self);
            lemma_insert_entry(self@, key@, value@);
        }
        let kc = str_chars(key.as_str());
        match self.find(kc.as_slice()) {
            Some(i) => {
                let mut pairs: Vec<(String, String)> = Vec::new();
                std::mem::swap(&mut pairs, &mut self.pairs);
                let ghost before = pairs@;
                pairs.set(i, (key, value));
                assert(pair_views(pairs@) =~= insert_entry(pair_views(before), kc@, value@));
                self.pairs = pairs;
            },
            None => {
                let mut pairs: Vec<(String, String)> = Vec::new();
                std::mem::swap(&mut pairs, &mut self.pairs);
                let ghost before = pairs@;
                pairs.push((key, value));
                assert(pair_views(pairs@) =~= insert_entry(pair_views(before), kc@, value@));
                self.pairs = pairs;
            },
        }
    }

    /// Takes a key away.
    pub fn remove(&mut self, key: &str)
        ensures
            final(self)@ == remove_entry(old(self)@, key@),
    {
        proof {
            use_type_invariant(&*self);
            lemma_remove_entry(self@, key@);
        }
        let kc = str_chars(key);
        match self.find(kc.as_slice()) {
            Some(i) => {
                let mut pairs: Vec<(String, String)> = Vec::new();
                std::mem::swap(&mut pairs, &mut self.pairs);
                let ghost before = pairs@;
                let _ = pairs.remove(i);
                assert(pair_views(pairs@) =~= remove_entry(pair_views(before), kc@));
                self.pairs = pairs;
            },
            None => {},
        }
    }

    /// Whether both entities hold the same keys with the same values.
    pub fn same_entries(&self, other: &Self) -> (r: bool)
        ensures
            r == same_map(self@, other@),
    {
        proof {
            use_type_invariant(self);
            use_type_invariant(other);
        }
        if self.pairs.len() != other.pairs.len() {
            proof {
                if same_map(self@, other@) {
                    lemma_same_map_len(self@, other@);
                }
            }
            return false;
        }
        let mut i: usize = 0;
        while i < self.pairs.len()
            invariant
                0 <= i <= self@.len(),
                self@.len() == other@.len(),
                self@ == pair_views(self.pairs@),
                distinct_keys(self@),
                distinct_keys(other@),
                forall|j: int| 0 <= j < i ==> lookup(other@, #[trigger] self@[j].0) == Some(self@[j].1),
            decreases self@.len() - i,
        {
            let kc = str_chars(self.pairs[i].0.as_str());
            let vc = str_chars(self.pairs[i].1.as_str());
            proof {
                lemma_lookup_at(self@, i as int);
            }
            match other.get_chars(kc.as_slice()) {
                Some(v) => {
                    let ov = str_chars(v.as_str());
                    if !chars_eq(ov.as_slice(), vc.as_slice()) {
                        return false;
                    }
                },
                None => {
                    return false;
                },
            }
            i = i + 1;
        }
        proof {
            lemma_same_map_of_included(self@, other@);
        }
        true
    }
}

proof fn lemma_same_map_len(a: Seq<Entry>, b: Seq<Entry>)
    requires
        distinct_keys(a),
        distinct_keys(b),
        same_map(a, b),
    ensures
        a.len() == b.len(),
    decreases a.len(),
{
    // Every key of `a` is a key of `b` and the other way round, so the keys
    // of one are a permutation of the keys of the other.
    let ka = keys_of(a).to_set();
    let kb = keys_of(b).to_set();
    assert(ka =~= kb) by {
        assert forall|k: Seq<char>| ka.contains(k) implies kb.contains(k) by {
            let i = choose|i: int| 0 <= i < a.len() && #[trigger] keys_of(a)[i] == k;
            lemma_lookup_at(a, i);
            assert(lookup(b, k) is Some);
            let j = key_pos(b, k);
            assert(keys_of(b)[j] == k);
        }
        assert forall|k: Seq<char>| kb.contains(k) implies ka.contains(k) by {
            let i = choose|i: int| 0 <= i < b.len() && #[trigger] keys_of(b)[i] == k;
            lemma_lookup_at(b, i);
            assert(lookup(a, k) is Some);
            let j = key_pos(a, k);
            assert(keys_of(a)[j] == k);
        }
    }
    lemma_keys_no_dup(a);
    lemma_keys_no_dup(b);
    keys_of(a).unique_seq_to_set();
    keys_of(b).unique_seq_to_set();
}

proof fn lemma_keys_no_dup(a: Seq<Entry>)
    requires
        distinct_keys(a),
    ensures
        keys_of(a).no_duplicates(),
{
    let m = keys_of(a);
    assert forall|i: int, j: int| 0 <= i < m.len() && 0 <= j < m.len() && i != j implies m[i]
        != m[j] by {
        assert(m[i] == a[i].0);
        assert(m[j] == a[j].0);
    }
}

proof fn lemma_same_map_of_included(a: Seq<Entry>, b: Seq<Entry>)
    requires
        distinct_keys(a),
        distinct_keys(b),
        a.len() == b.len(),
        forall|j: int| 0 <= j < a.len() ==> lookup(b, #[trigger] a[j].0) == Some(a[j].1),
    ensures
        same_map(a, b),
{
    let ka = keys_of(a);
    let kb = keys_of(b);
    lemma_keys_no_dup(a);
    lemma_keys_no_dup(b);
    assert(ka.to_set().subset_of(kb.to_set())) by {
        assert forall|k: Seq<char>| ka.to_set().contains(k) implies kb.to_set().contains(k) by {
            let i = choose|i: int| 0 <= i < ka.len() && #[trigger] ka[i] == k;
            assert(a[i].0 == k);
            assert(lookup(b, k) is Some);
            let j = key_pos(b, k);
            assert(kb[j] == k);
        }
    }
    ka.unique_seq_to_set();
    kb.unique_seq_to_set();
    vstd::set_lib::lemma_subset_equality(ka.to_set(), kb.to_set());
    assert forall|k: Seq<char>| #[trigger] lookup(a, k) == lookup(b, k) by {
        if has_key(a, k) {
            let i = key_pos(a, k);
            lemma_lookup_at(a, i);
        } else if has_key(b, k) {
            let j = key_pos(b, k);
            assert(kb[j] == k);
            assert(kb.to_set().contains(k));
            assert(ka.to_set().contains(k));
            let i = choose|i: int| 0 <= i < ka.len() && #[trigger] ka[i] == k;
            assert(a[i].0 == k);
        }
    }
}

// ---------------------------------------------------------------------------
// Well-known keys
// ---------------------------------------------------------------------------

/// The key `classname`.
pub open spec fn classname_key() -> Seq<char> {
    seq!['c', 'l', 'a', 's', 's', 'n', 'a', 'm', 'e']
}

/// The label of an entity without a class name: `<no classname>`.
pub open spec fn no_classname() -> Seq<char> {
    seq!['<', 'n', 'o', ' ', 'c', 'l', 'a', 's', 's', 'n', 'a', 'm', 'e', '>']
}

/// The class name `worldspawn`.
pub open spec fn worldspawn() -> Seq<char> {
    seq!['w', 'o', 'r', 'l', 'd', 's', 'p', 'a', 'w', 'n']
}

/// The key `model`.
pub open spec fn model_key() -> Seq<char> {
    seq!['m', 'o', 'd', 'e', 'l']
}

/// The key `spawnflags`.
pub open spec fn spawnflags_key() -> Seq<char> {
    seq!['s', 'p', 'a', 'w', 'n', 'f', 'l', 'a', 'g', 's']
}

pub(crate) proof fn lemma_key_literals()
    ensures
        "classname"@ == classname_key(),
        "<no classname>"@ == no_classname(),
        "worldspawn"@ == worldspawn(),
        "model"@ == model_key(),
        "spawnflags"@ == spawnflags_key(),
{
    reveal_strlit("classname");
    reveal_strlit("<no classname>");
    reveal_strlit("worldspawn");
    reveal_strlit("model");
    reveal_strlit("spawnflags");
    assert("classname"@ =~= classname_key());
    assert("<no classname>"@ =~= no_classname());
    assert("worldspawn"@ =~= worldspawn());
    assert("model"@ =~= model_key());
    assert("spawnflags"@ =~= spawnflags_key());
}

/// The class name of an entity, or `<no classname>` where it has none or an
/// empty one.
pub open spec fn classname_of(e: Seq<Entry>) -> Seq<char> {
    match lookup(e, classname_key()) {
        Some(v) => if v.len() > 0 {
            v
        } else {
            no_classname()
        },
        None => no_classname(),
    }
}

/// The brush model an entity uses: 0 for the world, `n` for a `model` of
/// `*n`, none for a point entity.
pub open spec fn model_index_of(e: Seq<Entry>) -> Option<nat> {
    if classname_of(e) == worldspawn() {
        Some(0)
    } else {
        match lookup(e, model_key()) {
            Some(m) => if m.len() > 0 && m[0] == '*' {
                parse_bounded(m.drop_first(), usize::MAX as nat)
            } else {
                None
            },
            None => None,
        }
    }
}

/// The spawn flags of an entity, where it has readable ones.
pub open spec fn spawnflags_of(e: Seq<Entry>) -> Option<nat> {
    match lookup(e, spawnflags_key()) {
        Some(v) => parse_bounded(v, u32::MAX as nat),
        None => None,
    }
}

/// The entity with its spawn flags set to `f`: the key is dropped for 0.
pub open spec fn with_spawnflags(e: Seq<Entry>, f: nat) -> Seq<Entry> {
    if f == 0 {
        remove_entry(e, spawnflags_key())
    } else {
        insert_entry(e, spawnflags_key(), decimal(f))
    }
}

/// The pairs that rows of a key/value table give: each key trimmed, rows
/// with an empty key dropped, a later row for the same key winning.
pub open spec fn kv_rows(rows: Seq<Entry>) -> Seq<Entry>
    decreases rows.len(),
{
    if rows.len() == 0 {
        Seq::empty()
    } else {
        let prev = kv_rows(rows.drop_last());
        let k = trim(rows.last().0);
        if k.len() > 0 {
            insert_entry(prev, k, rows.last().1)
        } else {
            prev
        }
    }
}

/// The character sequences of a list of string-slice pairs.
pub open spec fn str_pair_views(v: Seq<(&str, &str)>) -> Seq<Entry> {
    v.map_values(|p: (&str, &str)| (p.0@, p.1@))
}

/// Setting the spawn flags and reading them back gives the flags, or none
/// for 0, which removes the key.
pub proof fn law_spawnflags_roundtrip(e: Seq<Entry>, f: nat)
    requires
        distinct_keys(e),
        f <= u32::MAX,
    ensures
        spawnflags_of(with_spawnflags(e, f)) == (if f == 0 {
            None::<nat>
        } else {
            Some(f)
        }),
{
    if f == 0 {
        lemma_remove_entry(e, spawnflags_key());
    } else {
        lemma_insert_entry(e, spawnflags_key(), decimal(f));
        lemma_parse_decimal_roundtrip(f, u32::MAX as nat);
    }
}

/// `s` with `x` placed right before the first pair whose key comes after
/// the key of `x`.
pub open spec fn insert_sorted(s: Seq<Entry>, x: Entry) -> Seq<Entry>
    decreases s.len(),
{
    if s.len() == 0 {
        seq![x]
    } else if key_lt(x.0, s[0].0) {
        seq![x] + s
    } else {
        seq![s[0]] + insert_sorted(s.drop_first(), x)
    }
}

/// The pairs sorted by key: each placed in turn, in the order of `e`, after
/// the pairs whose keys do not come after its own.
pub open spec fn sorted_entries(e: Seq<Entry>) -> Seq<Entry>
    decreases e.len(),
{
    if e.len() == 0 {
        Seq::empty()
    } else {
        insert_sorted(sorted_entries(e.drop_last()), e.last())
    }
}

proof fn lemma_insert_sorted_at(s: Seq<Entry>, x: Entry, p: int)
    requires
        0 <= p <= s.len(),
        forall|q: int| 0 <= q < p ==> !key_lt(x.0, #[trigger] s[q].0),
        p < s.len() ==> key_lt(x.0, s[p].0),
    ensures
        insert_sorted(s, x) == s.insert(p, x),
    decreases s.len(),
{
    if s.len() == 0 {
        assert(s.insert(p, x) =~= seq![x]);
    } else if key_lt(x.0, s[0].0) {
        assert(p == 0);
        assert(s.insert(0, x) =~= seq![x] + s);
    } else {
        assert(p > 0);
        let s1 = s.drop_first();
        assert forall|q: int| 0 <= q < p - 1 implies !key_lt(x.0, #[trigger] s1[q].0) by {
            assert(s1[q] == s[q + 1]);
        }
        if p - 1 < s1.len() {
            assert(s1[p - 1] == s[p]);
        }
        lemma_insert_sorted_at(s1, x, p - 1);
        assert(seq![s[0]] + s1.insert(p - 1, x) =~= s.insert(p, x));
    }
}

proof fn lemma_insert_sorted_elems(s: Seq<Entry>, x: Entry)
    ensures
        insert_sorted(s, x).len() == s.len() + 1,
        forall|y: Entry| #[trigger] insert_sorted(s, x).contains(y) <==> (s.contains(y) || y == x),
        distinct_keys(s) && !has_key(s, x.0) ==> distinct_keys(insert_sorted(s, x)),
    decreases s.len(),
{
    let r = insert_sorted(s, x);
    if s.len() == 0 {
        assert(r == seq![x]);
        assert forall|y: Entry| #[trigger] r.contains(y) <==> (s.contains(y) || y == x) by {
            if r.contains(y) {
                let k = choose|k: int| 0 <= k < r.len() && r[k] == y;
            }
            if y == x {
                assert(r[0] == x);
            }
        }
    } else if key_lt(x.0, s[0].0) {
        assert(r == seq![x] + s);
        assert forall|y: Entry| #[trigger] r.contains(y) <==> (s.contains(y) || y == x) by {
            if r.contains(y) {
                let k = choose|k: int| 0 <= k < r.len() && r[k] == y;
                if k > 0 {
                    assert(s[k - 1] == y);
                }
            }
            if s.contains(y) {
                let k = choose|k: int| 0 <= k < s.len() && s[k] == y;
                assert(r[k + 1] == y);
            }
            if y == x {
                assert(r[0] == x);
            }
        }
        if distinct_keys(s) && !has_key(s, x.0) {
            assert forall|i: int, j: int|
                0 <= i < r.len() && 0 <= j < r.len() && i != j implies r[i].0 != r[j].0 by {
                if i == 0 {
                    assert(s[j - 1].0 != x.0);
                } else if j == 0 {
                    assert(s[i - 1].0 != x.0);
                } else {
                    assert(r[i] == s[i - 1] && r[j] == s[j - 1]);
                }
            }
        }
    } else {
        let s1 = s.drop_first();
        lemma_insert_sorted_elems(s1, x);
        let t = insert_sorted(s1, x);
        assert(r == seq![s[0]] + t);
        assert forall|y: Entry| #[trigger] r.contains(y) <==> (s.contains(y) || y == x) by {
            if r.contains(y) {
                let k = choose|k: int| 0 <= k < r.len() && r[k] == y;
                if k == 0 {
                    assert(s[0] == y);
                } else {
                    assert(t[k - 1] == y);
                    assert(t.contains(y));
                    if s1.contains(y) {
                        let j = choose|j: int| 0 <= j < s1.len() && s1[j] == y;
                        assert(s[j + 1] == y);
                    }
                }
            }
            if s.contains(y) {
                let k = choose|k: int| 0 <= k < s.len() && s[k] == y;
                if k == 0 {
                    assert(r[0] == y);
                } else {
                    assert(s1[k - 1] == y);
                    assert(s1.contains(y));
                    assert(t.contains(y));
                    let j = choose|j: int| 0 <= j < t.len() && t[j] == y;
                    assert(r[j + 1] == y);
                }
            }
            if y == x {
                assert(t.contains(x));
                let j = choose|j: int| 0 <= j < t.len() && t[j] == x;
                assert(r[j + 1] == x);
            }
        }
        if distinct_keys(s) && !has_key(s, x.0) {
            assert(distinct_keys(s1)) by {
                assert forall|i: int, j: int|
                    0 <= i < s1.len() && 0 <= j < s1.len() && i != j implies s1[i].0 != s1[j].0 by {
                    assert(s1[i] == s[i + 1] && s1[j] == s[j + 1]);
                }
            }
            assert(!has_key(s1, x.0)) by {
                if has_key(s1, x.0) {
                    let j = choose|j: int| 0 <= j < s1.len() && s1[j].0 == x.0;
                    assert(s[j + 1].0 == x.0);
                }
            }
            assert forall|i: int, j: int|
                0 <= i < r.len() && 0 <= j < r.len() && i != j implies r[i].0 != r[j].0 by {
                if i == 0 || j == 0 {
                    let o = if i == 0 { j } else { i };
                    assert(t.contains(t[o - 1]));
                    assert(s.contains(t[o - 1]) || t[o - 1] == x);
                    if t[o - 1] == x {
                        assert(s[0].0 != x.0);
                    } else {
                        assert(s1.contains(t[o - 1]));
                        let q = choose|q: int| 0 <= q < s1.len() && s1[q] == t[o - 1];
                        assert(s[q + 1] == t[o - 1]);
                    }
                } else {
                    assert(r[i] == t[i - 1] && r[j] == t[j - 1]);
                }
            }
        }
    }
}

pub(crate) proof fn lemma_sorted_entries_elems(e: Seq<Entry>)
    ensures
        sorted_entries(e).len() == e.len(),
        forall|y: Entry| #[trigger] sorted_entries(e).contains(y) <==> e.contains(y),
        distinct_keys(e) ==> distinct_keys(sorted_entries(e)),
    decreases e.len(),
{
    if e.len() > 0 {
        let e1 = e.drop_last();
        lemma_sorted_entries_elems(e1);
        let s1 = sorted_entries(e1);
        lemma_insert_sorted_elems(s1, e.last());
        assert forall|y: Entry| #[trigger] sorted_entries(e).contains(y) <==> e.contains(y) by {
            if e1.contains(y) {
                let k = choose|k: int| 0 <= k < e1.len() && e1[k] == y;
                assert(e[k] == y);
            }
            if y == e.last() {
                assert(e[e.len() - 1] == y);
            }
            if e.contains(y) {
                let k = choose|k: int| 0 <= k < e.len() && e[k] == y;
                if k < e1.len() {
                    assert(e1[k] == y);
                }
            }
        }
        if distinct_keys(e) {
            assert(distinct_keys(e1)) by {
                assert forall|i: int, j: int|
                    0 <= i < e1.len() && 0 <= j < e1.len() && i != j implies e1[i].0 != e1[j].0 by {
                    assert(e1[i] == e[i] && e1[j] == e[j]);
                }
            }
            assert(!has_key(s1, e.last().0)) by {
                if has_key(s1, e.last().0) {
                    let j = choose|j: int| 0 <= j < s1.len() && s1[j].0 == e.last().0;
                    assert(s1.contains(s1[j]));
                    let k = choose|k: int| 0 <= k < e1.len() && e1[k] == s1[j];
                    assert(e[k] == e1[k]);
                    assert(e[e.len() - 1] == e.last());
                }
            }
        }
    }
}

/// Sorting the pairs by key keeps every key with its value: with no key
/// twice, the sorted pairs have no key twice and give every key the same
/// value.
pub proof fn lemma_sorted_entries_same_map(e: Seq<Entry>)
    requires
        distinct_keys(e),
    ensures
        distinct_keys(sorted_entries(e)),
        same_map(sorted_entries(e), e),
{
    let s = sorted_entries(e);
    lemma_sorted_entries_elems(e);
    assert forall|k: Seq<char>| #[trigger] lookup(s, k) == lookup(e, k) by {
        if has_key(e, k) {
            let i = key_pos(e, k);
            lemma_lookup_at(e, i);
            assert(e.contains(e[i]));
            assert(s.contains(e[i]));
            let j = choose|j: int| 0 <= j < s.len() && s[j] == e[i];
            lemma_lookup_at(s, j);
        } else if has_key(s, k) {
            let j = key_pos(s, k);
            assert(s.contains(s[j]));
            assert(e.contains(s[j]));
            let i = choose|i: int| 0 <= i < e.len() && e[i] == s[j];
            assert(e[i].0 == k);
        }
    }
}

impl EntityDictionary {
    /// An entity with only a class name.
    pub fn new(classname: &str) -> (r: Self)
        ensures
            r@ == seq![(classname_key(), classname@)],
    {
        let mut r = Self::empty();
        proof {
            lemma_key_literals();
        }
        r.insert("classname".to_owned(), classname.to_owned());
        assert(r@ =~= seq![(classname_key(), classname@)]);
        r
    }

    /// The class name, or `<no classname>` where there is none or an empty
    /// one.
    pub fn get_classname(&self) -> (r: &str)
        ensures
            r@ == classname_of(self@),
    {
        proof {
            lemma_key_literals();
        }
        match self.get("classname") {
            Some(v) => {
                if v.as_str().is_empty() {
                    "<no classname>"
                } else {
                    v.as_str()
                }
            },
            None => "<no classname>",
        }
    }

    /// The brush model the entity uses: 0 for the world, `n` for a `model`
    /// of `*n`, none for a point entity.
    pub fn get_model_index(&self) -> (r: Option<usize>)
        ensures
            match r {
                Some(i) => model_index_of(self@) == Some(i as nat),
                None => model_index_of(self@) is None,
            },
    {
        proof {
            lemma_key_literals();
        }
        let cn = str_chars(self.get_classname());
        let ws = str_chars("worldspawn");
        if chars_eq(cn.as_slice(), ws.as_slice()) {
            return Some(0);
        }
        match self.get("model") {
            Some(m) => {
                let mc = str_chars(m.as_str());
                if mc.len() > 0 && mc[0] == '*' {
                    let mut rest: Vec<char> = Vec::new();
                    let mut i: usize = 1;
                    while i < mc.len()
                        invariant
                            1 <= i <= mc@.len(),
                            rest@ == mc@.subrange(1, i as int),
                        decreases mc@.len() - i,
                    {
                        rest.push(mc[i]);
                        i = i + 1;
                        assert(rest@ =~= mc@.subrange(1, i as int));
                    }
                    assert(rest@ =~= mc@.drop_first());
                    match parse_decimal(rest.as_slice(), usize::MAX as u64) {
                        Some(v) => Some(v as usize),
                        None => None,
                    }
                } else {
                    None
                }
            },
            None => None,
        }
    }

    /// The spawn flags, where the entity has readable ones.
    pub fn get_spawnflags(&self) -> (r: Option<u32>)
        ensures
            match r {
                Some(f) => spawnflags_of(self@) == Some(f as nat),
                None => spawnflags_of(self@) is None,
            },
    {
        proof {
            lemma_key_literals();
        }
        match self.get("spawnflags") {
            Some(v) => {
                let vc = str_chars(v.as_str());
                match parse_decimal(vc.as_slice(), u32::MAX as u64) {
                    Some(f) => Some(f as u32),
                    None => None,
                }
            },
            None => None,
        }
    }

    /// Sets the spawn flags; 0 removes the key.
    pub fn set_spawnflags(&mut self, flags: u32)
        ensures
            final(self)@ == with_spawnflags(old(self)@, flags as nat),
    {
        proof {
            lemma_key_literals();
        }
        if flags == 0 {
            self.remove("spawnflags");
            return ;
        }
        self.insert("spawnflags".to_owned(), u32_to_string(flags));
    }

    /// The entity that the rows of a key/value table describe: each key
    /// trimmed, rows with an empty key dropped, a later row for the same key
    /// winning.
    pub fn from_kv_pairs(pairs: &[(&str, &str)]) -> (r: Self)
        ensures
            r@ == kv_rows(str_pair_views(pairs@)),
            distinct_keys(r@),
    {
        let mut this = Self::empty();
        let mut i: usize = 0;
        assert(str_pair_views(pairs@).take(0) =~= Seq::<Entry>::empty());
        while i < pairs.len()
            invariant
                0 <= i <= pairs@.len(),
                this@ == kv_rows(str_pair_views(pairs@).take(i as int)),
            decreases pairs@.len() - i,
        {
            let row = pairs[i];
            let kc = str_chars(row.0);
            let key = trim_chars(kc.as_slice());
            let ghost rows = str_pair_views(pairs@).take(i + 1);
            assert(rows.drop_last() =~= str_pair_views(pairs@).take(i as int));
            assert(rows.last() == (row.0@, row.1@));
            if key.len() > 0 {
                this.insert(string_from_chars(key.as_slice()), row.1.to_owned());
            }
            i = i + 1;
        }
        assert(str_pair_views(pairs@).take(pairs@.len() as int) =~= str_pair_views(pairs@));
        proof {
            use_type_invariant(&this);
        }
        this
    }

    /// The pairs, sorted by key.
    pub fn to_kv_pairs(&self) -> (r: Vec<(String, String)>)
        ensures
            distinct_keys(self@),
            pair_views(r@) == sorted_entries(self@),
            pair_views(r@).len() == self@.len(),
            forall|i: int| 0 <= i < r@.len() ==> self@.contains(#[trigger] pair_views(r@)[i]),
            forall|i: int, j: int|
                0 <= i < j < r@.len() ==> key_lt(
                    #[trigger] pair_views(r@)[i].0,
                    #[trigger] pair_views(r@)[j].0,
                ),
    {
        proof {
            use_type_invariant(self);
        }
        let mut out: Vec<(String, String)> = Vec::new();
        let mut keys: Vec<Vec<char>> = Vec::new();
        let mut i: usize = 0;
        while i < self.pairs.len()
            invariant
                0 <= i <= self@.len(),
                self@ == pair_views(self.pairs@),
                distinct_keys(self@),
                out@.len() == i,
                keys@.len() == i,
                pair_views(out@) == sorted_entries(self@.take(i as int)),
                forall|q: int| 0 <= q < i ==> #[trigger] views(keys@)[q] == pair_views(out@)[q].0,
                forall|q: int|
                    0 <= q < i ==> exists|m: int|
                        0 <= m < i && #[trigger] pair_views(out@)[q] == self@[m],
                forall|q: int, m: int|
                    0 <= q < m < i ==> key_lt(
                        #[trigger] pair_views(out@)[q].0,
                        #[trigger] pair_views(out@)[m].0,
                    ),
            decreases self@.len() - i,
        {
            let kc = str_chars(self.pairs[i].0.as_str());
            let ghost e = self@[i as int];
            assert(e.0 == kc@);
            let mut p: usize = 0;
            while p < keys.len() && !chars_lt(kc.as_slice(), keys[p].as_slice())
                invariant
                    0 <= p <= keys@.len(),
                    keys@.len() == i,
                    forall|q: int| 0 <= q < p ==> !key_lt(kc@, #[trigger] views(keys@)[q]),
                decreases keys@.len() - p,
            {
                assert(views(keys@)[p as int] == keys@[p as int]@);
                p = p + 1;
            }
            // The new key differs from every key placed so far.
            assert forall|q: int| 0 <= q < i implies #[trigger] pair_views(out@)[q].0 != kc@ by {
                let m = choose|m: int| 0 <= m < i && pair_views(out@)[q] == self@[m];
                assert(self@[m].0 != self@[i as int].0);
            }
            let ghost old_out = pair_views(out@);
            let ghost old_keys = views(keys@);
            proof {
                assert forall|q: int| 0 <= q < p implies !key_lt(e.0, #[trigger] old_out[q].0) by {
                    assert(old_keys[q] == old_out[q].0);
                }
                if p < i {
                    assert(old_keys[p as int] == old_out[p as int].0);
                }
                lemma_insert_sorted_at(old_out, e, p as int);
                assert(self@.take(i + 1).drop_last() =~= self@.take(i as int));
                assert(self@.take(i + 1).last() == e);
            }
            out.insert(p, (self.pairs[i].0.clone(), self.pairs[i].1.clone()));
            keys.insert(p, kc);
            assert(pair_views(out@) =~= old_out.insert(p as int, e));
            assert(views(keys@) =~= old_keys.insert(p as int, kc@));
            proof {
                if p < i {
                    assert(key_lt(kc@, old_keys[p as int]));
                }
                assert forall|q: int, m: int|
                    0 <= q < m < i + 1 implies key_lt(
                    #[trigger] pair_views(out@)[q].0,
                    #[trigger] pair_views(out@)[m].0,
                ) by {
                    let nv = pair_views(out@);
                    if q < p && m < p {
                        assert(nv[q] == old_out[q] && nv[m] == old_out[m]);
                    } else if q < p && m == p {
                        assert(nv[q] == old_out[q]);
                        assert(old_keys[q] == old_out[q].0);
                        assert(!key_lt(kc@, old_keys[q]));
                        lemma_key_lt_total(kc@, old_out[q].0);
                    } else if q < p && m > p {
                        assert(nv[q] == old_out[q] && nv[m] == old_out[m - 1]);
                        if q < m - 1 {
                        }
                    } else if q == p {
                        assert(nv[m] == old_out[m - 1]);
                        assert(old_keys[p as int] == old_out[p as int].0);
                        if m - 1 > p {
                            lemma_key_lt_transitive(kc@, old_out[p as int].0, old_out[m - 1].0);
                        }
                    } else {
                        assert(nv[q] == old_out[q - 1] && nv[m] == old_out[m - 1]);
                    }
                }
                assert forall|q: int| 0 <= q < i + 1 implies exists|m: int|
                    0 <= m < i + 1 && #[trigger] pair_views(out@)[q] == self@[m] by {
                    let nv = pair_views(out@);
                    if q < p {
                        assert(nv[q] == old_out[q]);
                        let m = choose|m: int| 0 <= m < i && old_out[q] == self@[m];
                        assert(nv[q] == self@[m]);
                    } else if q == p {
                        assert(nv[q] == self@[i as int]);
                    } else {
                        assert(nv[q] == old_out[q - 1]);
                        let m = choose|m: int| 0 <= m < i && old_out[q - 1] == self@[m];
                        assert(nv[q] == self@[m]);
                    }
                }
                assert forall|q: int| 0 <= q < i + 1 implies #[trigger] views(keys@)[q]
                    == pair_views(out@)[q].0 by {
                    if q < p {
                        assert(views(keys@)[q] == old_keys[q]);
                    } else if q > p {
                        assert(views(keys@)[q] == old_keys[q - 1]);
                    }
                }
            }
            i = i + 1;
        }
        assert(self@.take(self@.len() as int) =~= self@);
        proof {
            assert forall|q: int| 0 <= q < out@.len() implies self@.contains(
                #[trigger] pair_views(out@)[q],
            ) by {
                let m = choose|m: int| 0 <= m < i && pair_views(out@)[q] == self@[m];
            }
        }
        out
    }
}

/// A key that a row of a key/value table keeps as it is: not empty, with
/// no white space round it.
pub open spec fn row_key(k: Seq<char>) -> bool {
    k.len() > 0 && trim(k) == k
}

proof fn lemma_kv_rows_of_row_keys(s: Seq<Entry>)
    requires
        distinct_keys(s),
        forall|i: int| 0 <= i < s.len() ==> row_key(#[trigger] s[i].0),
    ensures
        kv_rows(s) == s,
    decreases s.len(),
{
    if s.len() > 0 {
        let s1 = s.drop_last();
        let x = s.last();
        assert(distinct_keys(s1)) by {
            assert forall|i: int, j: int|
                0 <= i < s1.len() && 0 <= j < s1.len() && i != j implies s1[i].0 != s1[j].0 by {
                assert(s1[i] == s[i] && s1[j] == s[j]);
            }
        }
        assert forall|i: int| 0 <= i < s1.len() implies row_key(#[trigger] s1[i].0) by {
            assert(s1[i] == s[i]);
        }
        lemma_kv_rows_of_row_keys(s1);
        assert(row_key(s[s.len() - 1].0));
        assert(!has_key(s1, x.0)) by {
            if has_key(s1, x.0) {
                let j = choose|j: int| 0 <= j < s1.len() && s1[j].0 == x.0;
                assert(s[j].0 == x.0);
            }
        }
        assert(s1.push(x) =~= s);
    }
}

/// Rows written from an entity (its pairs sorted by key) and read back give
/// the same pairs, so the rebuilt entity holds the same keys with the same
/// values, where every key is not empty and has no white space round it.
pub proof fn law_rows_roundtrip(e: Seq<Entry>)
    requires
        distinct_keys(e),
        forall|i: int| 0 <= i < e.len() ==> row_key(#[trigger] e[i].0),
    ensures
        kv_rows(sorted_entries(e)) == sorted_entries(e),
        same_map(kv_rows(sorted_entries(e)), e),
{
    lemma_sorted_entries_same_map(e);
    lemma_sorted_entries_elems(e);
    let s = sorted_entries(e);
    assert forall|i: int| 0 <= i < s.len() implies row_key(#[trigger] s[i].0) by {
        assert(s.contains(s[i]));
        assert(e.contains(s[i]));
        let j = choose|j: int| 0 <= j < e.len() && e[j] == s[i];
        assert(row_key(e[j].0));
    }
    lemma_kv_rows_of_row_keys(s);
}

/// The class names of a list of entities.
pub fn classnames_from_entities(entities: &[EntityDictionary]) -> (r: Vec<String>)
    ensures
        r@.len() == entities@.len(),
        forall|i: int| 0 <= i < r@.len() ==> #[trigger] r@[i]@ == classname_of(entities@[i]@),
{
    let mut out: Vec<String> = Vec::new();
    let mut i: usize = 0;
    while i < entities.len()
        invariant
            0 <= i <= entities@.len(),
            out@.len() == i,
            forall|q: int| 0 <= q < i ==> #[trigger] out@[q]@ == classname_of(entities@[q]@),
        decreases entities@.len() - i,
    {
        out.push(entities[i].get_classname().to_owned());
        i = i + 1;
    }
    out
}

/// Whether the entity uses a brush model (the world does).
pub fn is_brush_ent(ent: &EntityDictionary) -> (r: bool)
    ensures
        r == model_index_of(ent@) is Some,
{
    ent.get_model_index().is_some()
}

} // verus!
