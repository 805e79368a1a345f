//! Character-level helpers shared by the entity text routines: splitting on a
//! separator, trimming white space, decimal numbers, substring search.

use vstd::prelude::*;

verus! {

broadcast use vstd::string::group_string_axioms, vstd::slice::group_slice_axioms;

// ---------------------------------------------------------------------------
// Conversions between strings and character vectors
// ---------------------------------------------------------------------------

/// The characters of a string slice, one by one.
pub fn str_chars(s: &str) -> (v: Vec<char>)
    ensures
        v@ == s@,
{
    let mut v: Vec<char> = Vec::new();
    for c in it: s.chars()
        invariant
            v@ == it.seq().take(it.index()),
            it.seq() == s@,
    {
        v.push(c);
    }
    v
}

/// Calls `String::from_iter` on the characters of `v`; the string it builds
/// holds exactly those characters, in order.
#[verifier::external_body]
pub(crate) fn string_from_chars(v: &[char]) -> (s: String)
    ensures
        s@ == v@,
{
    String::from_iter(v.iter())
}

/// Appends the characters of `s` to `out`.
pub fn push_str(out: &mut Vec<char>, s: &str)
    ensures
        final(out)@ == old(out)@ + s@,
{
    let cs = str_chars(s);
    let mut i: usize = 0;
    while i < cs.len()
        invariant
            0 <= i <= cs@.len(),
            cs@ == s@,
            out@ == old(out)@ + cs@.take(i as int),
        decreases cs@.len() - i,
    {
        out.push(cs[i]);
        i = i + 1;
        assert(cs@.take(i as int) == cs@.take(i - 1).push(cs@[i - 1]));
    }
    assert(cs@.take(cs@.len() as int) == cs@);
}

/// Appends the characters of `s` to `out`.
pub fn push_chars(out: &mut Vec<char>, s: &[char])
    ensures
        final(out)@ == old(out)@ + s@,
{
    let mut i: usize = 0;
    while i < s.len()
        invariant
            0 <= i <= s@.len(),
            out@ == old(out)@ + s@.take(i as int),
        decreases s@.len() - i,
    {
        out.push(s[i]);
        i = i + 1;
        assert(s@.take(i as int) == s@.take(i - 1).push(s@[i - 1]));
    }
    assert(s@.take(s@.len() as int) == s@);
}

/// Whether two character sequences are equal.
pub fn chars_eq(a: &[char], b: &[char]) -> (r: bool)
    ensures
        r == (a@ == b@),
{
    if a.len() != b.len() {
        return false;
    }
    let mut i: usize = 0;
    while i < a.len()
        invariant
            0 <= i <= a@.len(),
            a@.len() == b@.len(),
            forall|j: int| 0 <= j < i ==> a@[j] == b@[j],
        decreases a@.len() - i,
    {
        if a[i] != b[i] {
            return false;
        }
        i = i + 1;
    }
    assert(a@ =~= b@);
    true
}

// ---------------------------------------------------------------------------
// Splitting on a separator
// ---------------------------------------------------------------------------

/// The pieces of `s` between the occurrences of `sep`, as `str::split` yields
/// them: one piece more than there are separators, empty pieces included.
pub open spec fn split(s: Seq<char>, sep: char) -> Seq<Seq<char>>
    decreases s.len(),
{
    if s.len() == 0 {
        seq![Seq::<char>::empty()]
    } else {
        let prev = split(s.drop_last(), sep);
        if s.last() == sep {
            prev.push(Seq::<char>::empty())
        } else {
            prev.update(prev.len() - 1, prev.last().push(s.last()))
        }
    }
}

/// A split always has at least one piece.
pub proof fn lemma_split_len(s: Seq<char>, sep: char)
    ensures
        split(s, sep).len() >= 1,
    decreases s.len(),
{
    if s.len() > 0 {
        lemma_split_len(s.drop_last(), sep);
    }
}

/// Without the separator, the whole sequence is the only piece.
pub proof fn lemma_split_no_sep(s: Seq<char>, sep: char)
    requires
        !s.contains(sep),
    ensures
        split(s, sep) == seq![s],
    decreases s.len(),
{
    if s.len() > 0 {
        assert(!s.drop_last().contains(sep)) by {
            if s.drop_last().contains(sep) {
                let k = choose|k: int| 0 <= k < s.drop_last().len() && s.drop_last()[k] == sep;
                assert(s[k] == sep);
            }
        }
        lemma_split_no_sep(s.drop_last(), sep);
        assert(s.last() != sep) by {
            assert(s[s.len() - 1] == s.last());
        }
        assert(s.drop_last().push(s.last()) =~= s);
        assert(split(s, sep) =~= seq![s]);
    } else {
        assert(s =~= Seq::<char>::empty());
    }
}

/// Splitting around one separator splits both sides apart.
pub proof fn lemma_split_concat(a: Seq<char>, b: Seq<char>, sep: char)
    ensures
        split(a + seq![sep] + b, sep) == split(a, sep) + split(b, sep),
    decreases b.len(),
{
    let s = a + seq![sep] + b;
    lemma_split_len(a, sep);
    lemma_split_len(b, sep);
    if b.len() == 0 {
        assert(s.drop_last() =~= a);
        assert(split(s, sep) =~= split(a, sep) + split(b, sep));
    } else {
        let b1 = b.drop_last();
        assert(s.drop_last() =~= a + seq![sep] + b1);
        lemma_split_concat(a, b1, sep);
        lemma_split_len(b1, sep);
        assert(s.last() == b.last());
        let pa = split(a, sep);
        let pb1 = split(b1, sep);
        if b.last() == sep {
            assert(split(s, sep) =~= pa + split(b, sep));
        } else {
            let prev = pa + pb1;
            assert(prev.last() == pb1.last());
            assert(prev.update(prev.len() - 1, prev.last().push(b.last())) =~= pa + pb1.update(
                pb1.len() - 1,
                pb1.last().push(b.last()),
            ));
        }
    }
}

/// Every character of a piece is a character of `s` other than `sep`.
pub proof fn lemma_split_chars(s: Seq<char>, sep: char)
    ensures
        forall|i: int, j: int|
            #![trigger split(s, sep)[i][j]]
            0 <= i < split(s, sep).len() && 0 <= j < split(s, sep)[i].len() ==> split(s, sep)[i][j]
                != sep && s.contains(split(s, sep)[i][j]),
    decreases s.len(),
{
    lemma_split_len(s, sep);
    if s.len() > 0 {
        let s1 = s.drop_last();
        lemma_split_chars(s1, sep);
        lemma_split_len(s1, sep);
        let p = split(s, sep);
        let prev = split(s1, sep);
        assert forall|i: int, j: int|
            #![trigger p[i][j]]
            0 <= i < p.len() && 0 <= j < p[i].len() implies p[i][j] != sep && s.contains(
            p[i][j],
        ) by {
            if s.last() == sep {
                if i < prev.len() {
                    assert(p[i] == prev[i]);
                    assert(prev[i][j] != sep && s1.contains(prev[i][j]));
                    let k = choose|k: int| 0 <= k < s1.len() && s1[k] == prev[i][j];
                    assert(s[k] == s1[k]);
                }
            } else if i < prev.len() - 1 || j < prev.last().len() {
                assert(p[i][j] == prev[i][j]);
                assert(prev[i][j] != sep && s1.contains(prev[i][j]));
                let k = choose|k: int| 0 <= k < s1.len() && s1[k] == prev[i][j];
                assert(s[k] == s1[k]);
            } else {
                assert(p[i][j] == s.last());
                assert(s[s.len() - 1] == s.last());
            }
        }
    }
}

/// The character sequences held by a vector of character vectors.
pub open spec fn views(v: Seq<Vec<char>>) -> Seq<Seq<char>> {
    v.map_values(|x: Vec<char>| x@)
}

/// Splits `s` at every occurrence of `sep`.
pub fn split_chars(s: &[char], sep: char) -> (r: Vec<Vec<char>>)
    ensures
        views(r@) == split(s@, sep),
{
    let mut pieces: Vec<Vec<char>> = Vec::new();
    let mut cur: Vec<char> = Vec::new();
    let mut i: usize = 0;
    assert(s@.take(0) =~= Seq::<char>::empty());
    assert(views(pieces@).push(cur@) =~= split(s@.take(0), sep));
    while i < s.len()
        invariant
            0 <= i <= s@.len(),
            views(pieces@).push(cur@) == split(s@.take(i as int), sep),
        decreases s@.len() - i,
    {
        let c = s[i];
        let ghost before = views(pieces@);
        let ghost prefix = s@.take(i as int);
        proof {
            lemma_split_len(prefix, sep);
        }
        assert(s@.take(i + 1).drop_last() =~= prefix);
        assert(s@.take(i + 1).last() == c);
        if c == sep {
            let done = cur;
            pieces.push(done);
            cur = Vec::new();
            assert(views(pieces@) =~= before.push(done@));
            assert(views(pieces@).push(cur@) =~= split(s@.take(i + 1), sep));
        } else {
            let ghost old_cur = cur@;
            cur.push(c);
            assert(views(pieces@).push(cur@) =~= before.push(old_cur).update(
                before.len() as int,
                old_cur.push(c),
            ));
        }
        i = i + 1;
    }
    assert(s@.take(s@.len() as int) =~= s@);
    let ghost before = views(pieces@);
    pieces.push(cur);
    assert(views(pieces@) =~= before.push(cur@));
    pieces
}

// ---------------------------------------------------------------------------
// White space and trimming
// ---------------------------------------------------------------------------

/// The characters with the Unicode `White_Space` property, those for which
/// `char::is_whitespace` holds.
pub open spec fn is_ws(c: char) -> bool {
    let u = c as u32;
    ||| 0x09 <= u <= 0x0d
    ||| u == 0x20
    ||| u == 0x85
    ||| u == 0xa0
    ||| u == 0x1680
    ||| 0x2000 <= u <= 0x200a
    ||| u == 0x2028
    ||| u == 0x2029
    ||| u == 0x202f
    ||| u == 0x205f
    ||| u == 0x3000
}

/// Whether `c` is white space.
pub fn char_is_ws(c: char) -> (r: bool)
    ensures
        r == is_ws(c),
{
    let u = c as u32;
    (0x09 <= u && u <= 0x0d) || u == 0x20 || u == 0x85 || u == 0xa0 || u == 0x1680 || (0x2000
        <= u && u <= 0x200a) || u == 0x2028 || u == 0x2029 || u == 0x202f || u == 0x205f || u
        == 0x3000
}

/// `s` without its leading white space.
pub open spec fn trim_start(s: Seq<char>) -> Seq<char>
    decreases s.len(),
{
    if s.len() > 0 && is_ws(s[0]) {
        trim_start(s.drop_first())
    } else {
        s
    }
}

/// `s` without its trailing white space.
pub open spec fn trim_end(s: Seq<char>) -> Seq<char>
    decreases s.len(),
{
    if s.len() > 0 && is_ws(s.last()) {
        trim_end(s.drop_last())
    } else {
        s
    }
}

/// `s` without leading and trailing white space, as `str::trim` gives it.
pub open spec fn trim(s: Seq<char>) -> Seq<char> {
    trim_end(trim_start(s))
}

proof fn lemma_trim_start_skip(s: Seq<char>, i: int)
    requires
        0 <= i <= s.len(),
        forall|j: int| 0 <= j < i ==> is_ws(s[j]),
    ensures
        trim_start(s) == trim_start(s.skip(i)),
    decreases i,
{
    if i > 0 {
        assert(s.drop_first().skip(i - 1) =~= s.skip(i));
        lemma_trim_start_skip(s.drop_first(), i - 1);
    } else {
        assert(s.skip(0) =~= s);
    }
}

proof fn lemma_trim_end_take(s: Seq<char>, i: int)
    requires
        0 <= i <= s.len(),
        forall|j: int| i <= j < s.len() ==> is_ws(s[j]),
    ensures
        trim_end(s) == trim_end(s.take(i)),
    decreases s.len() - i,
{
    if i < s.len() {
        assert(s.drop_last().take(i) =~= s.take(i));
        lemma_trim_end_take(s.drop_last(), i);
    } else {
        assert(s.take(i) =~= s);
    }
}

/// `s` without leading and trailing white space.
pub fn trim_chars(s: &[char]) -> (r: Vec<char>)
    ensures
        r@ == trim(s@),
{
    let mut a: usize = 0;
    while a < s.len() && char_is_ws(s[a])
        invariant
            0 <= a <= s@.len(),
            forall|j: int| 0 <= j < a ==> is_ws(s@[j]),
        decreases s@.len() - a,
    {
        a = a + 1;
    }
    proof {
        lemma_trim_start_skip(s@, a as int);
    }
    let ghost t = s@.skip(a as int);
    assert(trim_start(s@) == t) by {
        if t.len() > 0 {
            assert(t[0] == s@[a as int]);
        }
    }
    let mut b: usize = s.len();
    while b > a && char_is_ws(s[b - 1])
        invariant
            a <= b <= s@.len(),
            forall|j: int| b <= j < s@.len() ==> is_ws(s@[j]),
        decreases b,
    {
        b = b - 1;
    }
    proof {
        lemma_trim_end_take(t, b - a);
        assert(t.take(b - a) =~= s@.subrange(a as int, b as int));
        if b > a {
            assert(s@.subrange(a as int, b as int).last() == s@[b - 1]);
        }
    }
    let mut r: Vec<char> = Vec::new();
    let mut i: usize = a;
    while i < b
        invariant
            a <= i <= b <= s@.len(),
            r@ == s@.subrange(a as int, i as int),
        decreases b - i,
    {
        r.push(s[i]);
        i = i + 1;
        assert(r@ =~= s@.subrange(a as int, i as int));
    }
    r
}

/// Whether `s` is nothing but white space.
pub fn is_blank(s: &[char]) -> (r: bool)
    ensures
        r == (trim(s@).len() == 0),
{
    let t = trim_chars(s);
    t.len() == 0
}

// ---------------------------------------------------------------------------
// Decimal numbers
// ---------------------------------------------------------------------------

/// An ASCII decimal digit.
pub open spec fn is_digit(c: char) -> bool {
    '0' <= c && c <= '9'
}

/// The value of a string of decimal digits, most significant first.
pub open spec fn digits_value(s: Seq<char>) -> nat
    decreases s.len(),
{
    if s.len() == 0 {
        0
    } else {
        digits_value(s.drop_last()) * 10 + ((s.last() as u32) - ('0' as u32)) as nat
    }
}

/// The digits of an unsigned number as `str::parse` reads it: the text
/// without one leading `+`.
pub open spec fn unsigned_digits(s: Seq<char>) -> Seq<char> {
    if s.len() > 0 && s[0] == '+' {
        s.drop_first()
    } else {
        s
    }
}

/// Every character is a decimal digit.
pub open spec fn all_digits(d: Seq<char>) -> bool {
    forall|i: int| 0 <= i < d.len() ==> is_digit(#[trigger] d[i])
}

/// The number that `str::parse` reads for an unsigned integer type, before
/// it is compared with the type's upper bound: an optional `+`, then at
/// least one decimal digit and nothing else.
pub open spec fn parse_unsigned(s: Seq<char>) -> Option<nat> {
    let d = unsigned_digits(s);
    if d.len() > 0 && all_digits(d) {
        Some(digits_value(d))
    } else {
        None
    }
}

/// What `str::parse::<T>` returns for an unsigned integer type whose largest
/// value is `max`.
pub open spec fn parse_bounded(s: Seq<char>, max: nat) -> Option<nat> {
    match parse_unsigned(s) {
        Some(n) => if n <= max {
            Some(n)
        } else {
            None
        },
        None => None,
    }
}

proof fn lemma_digits_value_prefix(s: Seq<char>, i: int)
    requires
        0 <= i <= s.len(),
        forall|j: int| 0 <= j < s.len() ==> is_digit(#[trigger] s[j]),
    ensures
        digits_value(s.take(i)) <= digits_value(s),
    decreases s.len() - i,
{
    if i < s.len() {
        assert(s.drop_last().take(i) =~= s.take(i));
        assert forall|j: int| 0 <= j < s.drop_last().len() implies is_digit(
            #[trigger] s.drop_last()[j],
        ) by {
            assert(s.drop_last()[j] == s[j]);
        }
        lemma_digits_value_prefix(s.drop_last(), i);
    } else {
        assert(s.take(i) =~= s);
    }
}

/// Reads an unsigned decimal number no greater than `max`, as `str::parse`
/// does for an unsigned integer type whose largest value is `max`.
pub fn parse_decimal(s: &[char], max: u64) -> (r: Option<u64>)
    ensures
        match r {
            Some(v) => parse_bounded(s@, max as nat) == Some(v as nat),
            None => parse_bounded(s@, max as nat) is None,
        },
{
    let start: usize = if s.len() > 0 && s[0] == '+' {
        1
    } else {
        0
    };
    let ghost d = unsigned_digits(s@);
    assert(d =~= s@.skip(start as int));
    if start >= s.len() {
        return None;
    }
    let mut v: u64 = 0;
    let mut i: usize = start;
    while i < s.len()
        invariant
            start <= i <= s@.len(),
            d == s@.skip(start as int),
            d == unsigned_digits(s@),
            forall|j: int| 0 <= j < i - start ==> is_digit(#[trigger] d[j]),
            v as nat == digits_value(d.take(i - start)),
            v <= max,
        decreases s@.len() - i,
    {
        let c = s[i];
        assert(d[i - start] == c);
        if !('0' <= c && c <= '9') {
            assert(!is_digit(c));
            assert(!is_digit(d[i - start]));
            assert(!all_digits(d));
            assert(parse_unsigned(s@) is None);
            return None;
        }
        let digit: u64 = ((c as u32) - ('0' as u32)) as u64;
        assert(d.take(i + 1 - start).drop_last() =~= d.take(i - start));
        assert(d.take(i + 1 - start).last() == c);
        let next: u128 = (v as u128) * 10 + (digit as u128);
        if next > max as u128 {
            assert(digits_value(d.take(i + 1 - start)) == next);
            proof {
                if all_digits(d) {
                    lemma_digits_value_prefix(d, i + 1 - start);
                    assert(parse_unsigned(s@) == Some(digits_value(d)));
                }
            }
            assert(parse_bounded(s@, max as nat) is None);
            return None;
        }
        v = next as u64;
        i = i + 1;
    }
    assert(d.take(d.len() as int) =~= d);
    Some(v)
}

/// The ASCII digit for a value below ten.
pub open spec fn digit_char(d: nat) -> char {
    if d == 0 {
        '0'
    } else if d == 1 {
        '1'
    } else if d == 2 {
        '2'
    } else if d == 3 {
        '3'
    } else if d == 4 {
        '4'
    } else if d == 5 {
        '5'
    } else if d == 6 {
        '6'
    } else if d == 7 {
        '7'
    } else if d == 8 {
        '8'
    } else {
        '9'
    }
}

/// The decimal digits of `n`, without leading zeros, as `to_string` writes
/// an unsigned integer.
pub open spec fn decimal(n: nat) -> Seq<char>
    decreases n,
{
    if n < 10 {
        seq![digit_char(n)]
    } else {
        decimal(n / 10).push(digit_char(n % 10))
    }
}

/// A signed integer as `to_string` writes it: a `-` before the digits of a
/// negative number.
pub open spec fn signed_decimal(n: int) -> Seq<char> {
    if n < 0 {
        seq!['-'] + decimal((-n) as nat)
    } else {
        decimal(n as nat)
    }
}

fn digit_of(d: u64) -> (c: char)
    requires
        d < 10,
    ensures
        c == digit_char(d as nat),
{
    match d {
        0 => '0',
        1 => '1',
        2 => '2',
        3 => '3',
        4 => '4',
        5 => '5',
        6 => '6',
        7 => '7',
        8 => '8',
        _ => '9',
    }
}

/// Appends the decimal digits of `n`.
pub fn push_decimal(out: &mut Vec<char>, n: u64)
    ensures
        final(out)@ == old(out)@ + decimal(n as nat),
    decreases n,
{
    if n >= 10 {
        push_decimal(out, n / 10);
    }
    let ghost mid = out@;
    out.push(digit_of(n % 10));
    assert(out@ =~= old(out)@ + decimal(n as nat));
}

/// Appends a signed integer as `to_string` writes it.
pub fn push_signed_decimal(out: &mut Vec<char>, n: i64)
    requires
        n > i64::MIN,
    ensures
        final(out)@ == old(out)@ + signed_decimal(n as int),
{
    if n < 0 {
        out.push('-');
        push_decimal(out, (-n) as u64);
        assert(out@ =~= old(out)@ + signed_decimal(n as int));
    } else {
        push_decimal(out, n as u64);
    }
}

/// The decimal text of an unsigned number, as `u32::to_string` writes it.
pub fn u32_to_string(n: u32) -> (r: String)
    ensures
        r@ == decimal(n as nat),
{
    let mut v: Vec<char> = Vec::new();
    push_decimal(&mut v, n as u64);
    assert(v@ =~= decimal(n as nat));
    string_from_chars(v.as_slice())
}

proof fn lemma_digit_char(d: nat)
    requires
        d < 10,
    ensures
        is_digit(digit_char(d)),
        (digit_char(d) as u32) - ('0' as u32) == d,
        digit_char(d) != '+',
{
}

/// The digits of a number read back as that number.
pub proof fn lemma_decimal_digits(n: nat)
    ensures
        decimal(n).len() >= 1,
        all_digits(decimal(n)),
        digits_value(decimal(n)) == n,
        decimal(n)[0] != '+',
    decreases n,
{
    if n < 10 {
        lemma_digit_char(n);
        assert(seq![digit_char(n)].drop_last() =~= Seq::<char>::empty());
        assert(digits_value(Seq::<char>::empty()) == 0);
    } else {
        lemma_decimal_digits(n / 10);
        lemma_digit_char(n % 10);
        let p = decimal(n / 10);
        let q = p.push(digit_char(n % 10));
        assert(q.drop_last() =~= p);
        assert(q.last() == digit_char(n % 10));
        assert(digits_value(q) == digits_value(p) * 10 + n % 10);
        assert((n / 10) * 10 + n % 10 == n);
        assert(q[0] == p[0]);
        assert forall|i: int| 0 <= i < q.len() implies is_digit(#[trigger] q[i]) by {
            if i < p.len() {
                assert(q[i] == p[i]);
            }
        }
    }
}

/// Reading back the decimal text of a number gives the number.
pub proof fn lemma_parse_decimal_roundtrip(n: nat, max: nat)
    requires
        n <= max,
    ensures
        parse_bounded(decimal(n), max) == Some(n),
{
    lemma_decimal_digits(n);
}

// ---------------------------------------------------------------------------
// Substrings and case
// ---------------------------------------------------------------------------

/// `needle` occurs in `hay` at position `i`.
pub open spec fn occurs_at(hay: Seq<char>, needle: Seq<char>, i: int) -> bool {
    0 <= i && i + needle.len() <= hay.len() && hay.subrange(i, i + needle.len()) == needle
}

/// `needle` occurs somewhere in `hay`, as `str::contains` checks.
pub open spec fn has_substring(hay: Seq<char>, needle: Seq<char>) -> bool {
    exists|i: int| occurs_at(hay, needle, i)
}

/// Whether `needle` occurs in `hay`.
pub fn contains_chars(hay: &[char], needle: &[char]) -> (r: bool)
    ensures
        r == has_substring(hay@, needle@),
{
    if needle.len() > hay.len() {
        return false;
    }
    let mut i: usize = 0;
    while i <= hay.len() - needle.len()
        invariant
            needle@.len() <= hay@.len(),
            0 <= i <= hay@.len() - needle@.len() + 1,
            forall|k: int| 0 <= k < i ==> !occurs_at(hay@, needle@, k),
        decreases hay@.len() - i,
    {
        assert(i + needle@.len() <= hay@.len());
        let mut j: usize = 0;
        let mut same = true;
        while j < needle.len()
            invariant
                i + needle@.len() <= hay@.len(),
                0 <= j <= needle@.len(),
                same == (forall|m: int| 0 <= m < j ==> hay@[i + m] == needle@[m]),
            decreases needle@.len() - j,
        {
            assert(i + j < hay.len());
            if hay[i + j] != needle[j] {
                same = false;
            }
            j = j + 1;
        }
        if same {
            assert(hay@.subrange(i as int, i + needle@.len()) =~= needle@);
            assert(occurs_at(hay@, needle@, i as int));
            return true;
        }
        assert(!occurs_at(hay@, needle@, i as int)) by {
            if hay@.subrange(i as int, i + needle@.len()) == needle@ {
                assert forall|m: int| 0 <= m < needle@.len() implies hay@[i + m] == needle@[m] by {
                    assert(hay@.subrange(i as int, i + needle@.len())[m] == hay@[i + m]);
                }
            }
        }
        i = i + 1;
    }
    assert(!has_substring(hay@, needle@));
    false
}

/// The result of `str::to_lowercase` on a string: its full Unicode lower-case
/// mapping.
pub uninterp spec fn lowercase(s: Seq<char>) -> Seq<char>;

/// Calls `str::to_lowercase`; the result depends on the characters of `s`
/// alone and is named `lowercase`.
#[verifier::external_body]
pub(crate) fn to_lowercase(s: &str) -> (r: String)
    ensures
        r@ == lowercase(s@),
{
    s.to_lowercase()
}

// ---------------------------------------------------------------------------
// Lines
// ---------------------------------------------------------------------------

/// `s` without one trailing carriage return.
pub open spec fn strip_cr(s: Seq<char>) -> Seq<char> {
    if s.len() > 0 && s.last() == '\r' {
        s.drop_last()
    } else {
        s
    }
}

/// The lines of `s`, as `str::lines` yields them: the text between line
/// feeds, without a carriage return right before a line feed, and with no
/// empty last line after a final line feed.
pub open spec fn lines(s: Seq<char>) -> Seq<Seq<char>> {
    let p = split(s, '\n');
    let n = if p.last().len() == 0 {
        p.len() - 1
    } else {
        p.len() as int
    };
    Seq::new(n as nat, |i: int| if i < p.len() - 1 { strip_cr(p[i]) } else { p[i] })
}

/// The lines of `s`.
pub fn lines_chars(s: &[char]) -> (r: Vec<Vec<char>>)
    ensures
        views(r@) == lines(s@),
{
    let p = split_chars(s, '\n');
    let ghost ps = split(s@, '\n');
    proof {
        lemma_split_len(s@, '\n');
    }
    assert(p@[p@.len() - 1]@ == ps.last());
    let n: usize = if p[p.len() - 1].len() == 0 {
        p.len() - 1
    } else {
        p.len()
    };
    let mut out: Vec<Vec<char>> = Vec::new();
    let mut i: usize = 0;
    assert(lines(s@).len() == n);
    assert(views(out@) =~= lines(s@).take(0));
    while i < n
        invariant
            0 <= i <= n,
            lines(s@).len() == n,
            ps == split(s@, '\n'),
            n <= p@.len(),
            p@.len() == ps.len(),
            views(p@) == ps,
            n == (if ps.last().len() == 0 {
                ps.len() - 1
            } else {
                ps.len() as int
            }),
            views(out@) == lines(s@).take(i as int),
        decreases n - i,
    {
        assert(p@[i as int]@ == ps[i as int]);
        let piece = &p[i];
        let mut line: Vec<char> = Vec::new();
        push_chars(&mut line, piece.as_slice());
        if i < p.len() - 1 && piece.len() > 0 && piece[piece.len() - 1] == '\r' {
            line.pop();
            assert(line@ =~= strip_cr(ps[i as int]));
        } else {
            assert(line@ =~= (if i < ps.len() - 1 {
                strip_cr(ps[i as int])
            } else {
                ps[i as int]
            }));
        }
        assert(lines(s@)[i as int] == (if i < ps.len() - 1 {
            strip_cr(ps[i as int])
        } else {
            ps[i as int]
        }));
        assert(line@ == lines(s@)[i as int]);
        let ghost before = views(out@);
        out.push(line);
        assert(views(out@) =~= lines(s@).take(i + 1)) by {
            assert(views(out@) =~= before.push(line@));
        }
        i = i + 1;
    }
    assert(lines(s@).take(n as int) =~= lines(s@));
    out
}

// ---------------------------------------------------------------------------
// Ordering
// ---------------------------------------------------------------------------

/// `a` comes strictly before `b` in lexicographic order of code points,
/// which is the order of `String`s (their UTF-8 bytes sort the same way).
pub open spec fn key_lt(a: Seq<char>, b: Seq<char>) -> bool
    decreases a.len(),
{
    if a.len() == 0 {
        b.len() > 0
    } else if b.len() == 0 {
        false
    } else if a[0] != b[0] {
        (a[0] as u32) < (b[0] as u32)
    } else {
        key_lt(a.drop_first(), b.drop_first())
    }
}

pub proof fn lemma_key_lt_irreflexive(a: Seq<char>)
    ensures
        !key_lt(a, a),
    decreases a.len(),
{
    if a.len() > 0 {
        lemma_key_lt_irreflexive(a.drop_first());
    }
}

pub proof fn lemma_key_lt_transitive(a: Seq<char>, b: Seq<char>, c: Seq<char>)
    requires
        key_lt(a, b),
        key_lt(b, c),
    ensures
        key_lt(a, c),
    decreases a.len(),
{
    if a.len() > 0 && b.len() > 0 && c.len() > 0 && a[0] == b[0] && b[0] == c[0] {
        lemma_key_lt_transitive(a.drop_first(), b.drop_first(), c.drop_first());
    }
}

pub proof fn lemma_key_lt_total(a: Seq<char>, b: Seq<char>)
    requires
        a != b,
    ensures
        key_lt(a, b) || key_lt(b, a),
    decreases a.len(),
{
    if a.len() > 0 && b.len() > 0 && a[0] == b[0] {
        if a.drop_first() == b.drop_first() {
            assert(a =~= seq![a[0]] + a.drop_first());
            assert(b =~= seq![b[0]] + b.drop_first());
        }
        lemma_key_lt_total(a.drop_first(), b.drop_first());
    } else if a.len() == 0 && b.len() == 0 {
        assert(a =~= b);
    } else if a.len() > 0 && b.len() > 0 {
        if (a[0] as u32) == (b[0] as u32) {
            vstd::utf8::char_u32_cast(a[0], a[0] as u32);
            vstd::utf8::char_u32_cast(b[0], b[0] as u32);
        }
    }
}

/// Whether `a` comes strictly before `b`.
pub fn chars_lt(a: &[char], b: &[char]) -> (r: bool)
    ensures
        r == key_lt(a@, b@),
{
    let mut i: usize = 0;
    assert(a@.skip(0) =~= a@);
    assert(b@.skip(0) =~= b@);
    while i < a.len() && i < b.len() && a[i] == b[i]
        invariant
            0 <= i <= a@.len(),
            i <= b@.len(),
            key_lt(a@, b@) == key_lt(a@.skip(i as int), b@.skip(i as int)),
        decreases a@.len() - i,
    {
        assert(a@.skip(i as int).drop_first() =~= a@.skip(i + 1));
        assert(b@.skip(i as int).drop_first() =~= b@.skip(i + 1));
        i = i + 1;
    }
    if i == a.len() {
        i < b.len()
    } else if i == b.len() {
        false
    } else {
        assert(a@.skip(i as int)[0] == a@[i as int]);
        assert(b@.skip(i as int)[0] == b@[i as int]);
        (a[i] as u32) < (b[i] as u32)
    }
}

} // verus!
