//! Header inference: per-key statistics over blocks of variant lines, an
//! associative merge of block results, and synthesis of header lines.

use vstd::prelude::*;
use crate::text::{
    all_digits, chars_of, is_digit, is_digit_exec, lower, lower_exec, lower_seq, parse_i64,
    parse_i64_spec, split_fields, split_on, strings_view, trail_start,
};

verus! {

/// What a value looks like: an integer, a (non-integer) number, or text.
#[derive(Clone, Copy, Debug, PartialEq, Eq, Structural)]
pub enum ValKind {
    Int,
    Float,
    Stringy,
}

pub open spec fn is_digit_or_dot(c: char) -> bool {
    is_digit(c) || c == '.'
}

pub open spec fn count_char(s: Seq<char>, c: char) -> nat
    decreases s.len(),
{
    if s.len() == 0 {
        0
    } else {
        count_char(s.drop_last(), c) + if s.last() == c { 1nat } else { 0nat }
    }
}

/// `Digit+ | Digit+ '.' Digit* | Digit* '.' Digit+`.
pub open spec fn mantissa_ok(m: Seq<char>) -> bool {
    &&& forall|i: int| 0 <= i < m.len() ==> is_digit_or_dot(#[trigger] m[i])
    &&& count_char(m, '.') <= 1
    &&& exists|i: int| 0 <= i < m.len() && is_digit(#[trigger] m[i])
}

/// `Sign? Digit+`.
pub open spec fn exponent_ok(x: Seq<char>) -> bool {
    let b = if x.len() > 0 && (x[0] == '+' || x[0] == '-') { x.drop_first() } else { x };
    b.len() > 0 && all_digits(b)
}

/// First index of `c` in `s` at or after `i`, or `s.len()`.
pub open spec fn index_of_from(s: Seq<char>, c: char, i: int) -> int
    decreases s.len() - i,
{
    if i < 0 || i >= s.len() {
        s.len() as int
    } else if s[i] == c {
        i
    } else {
        index_of_from(s, c, i + 1)
    }
}

/// The text of a decimal floating-point number as std reads one: an
/// optional sign, then "inf", "infinity" or "nan", or a mantissa with an
/// optional exponent, without regard to ASCII case.
pub open spec fn float_text(s: Seq<char>) -> bool {
    let b = if s.len() > 0 && (s[0] == '+' || s[0] == '-') { s.drop_first() } else { s };
    let l = lower_seq(b);
    let e = index_of_from(l, 'e', 0);
    ||| l == seq!['i', 'n', 'f']
    ||| l == seq!['i', 'n', 'f', 'i', 'n', 'i', 't', 'y']
    ||| l == seq!['n', 'a', 'n']
    ||| (mantissa_ok(l.subrange(0, e)) && (e == l.len() || exponent_ok(l.subrange(e + 1, l.len() as int))))
}

pub open spec fn classify_spec(s: Seq<char>) -> ValKind {
    if s.len() == 0 {
        ValKind::Stringy
    } else if parse_i64_spec(s) is Some {
        ValKind::Int
    } else if float_text(s) {
        ValKind::Float
    } else {
        ValKind::Stringy
    }
}

fn mantissa_check(l: &Vec<char>, e: usize) -> (r: bool)
    requires
        e <= l.len(),
    ensures
        r == mantissa_ok(l@.subrange(0, e as int)),
{
    let ghost m = l@.subrange(0, e as int);
    let mut dots: usize = 0;
    let mut any_digit = false;
    let mut i: usize = 0;
    while i < e
        invariant
            e <= l.len(),
            m == l@.subrange(0, e as int),
            i <= e,
            dots <= i,
            forall|k: int| 0 <= k < i ==> is_digit_or_dot(#[trigger] m[k]),
            dots as nat == count_char(m.subrange(0, i as int), '.'),
            any_digit == exists|k: int| 0 <= k < i && is_digit(#[trigger] m[k]),
        decreases e - i,
    {
        let c = l[i];
        assert(m[i as int] == c);
        if !(is_digit_exec(c) || c == '.') {
            return false;
        }
        assert(m.subrange(0, i + 1).drop_last() =~= m.subrange(0, i as int));
        if c == '.' {
            dots = dots + 1;
        }
        if is_digit_exec(c) {
            any_digit = true;
        }
        i = i + 1;
    }
    assert(m.subrange(0, e as int) =~= m);
    dots <= 1 && any_digit
}

fn exponent_check(l: &Vec<char>, a: usize) -> (r: bool)
    requires
        a <= l.len(),
    ensures
        r == exponent_ok(l@.subrange(a as int, l.len() as int)),
{
    let ghost x = l@.subrange(a as int, l.len() as int);
    let n = l.len();
    let b: usize = if a < n && (l[a] == '+' || l[a] == '-') { a + 1 } else { a };
    assert(l@.subrange(b as int, n as int) =~= (if x.len() > 0 && (x[0] == '+' || x[0] == '-') {
        x.drop_first()
    } else {
        x
    }));
    if b == n {
        return false;
    }
    assert(exponent_ok(x) == all_digits(l@.subrange(b as int, n as int)));
    let mut i: usize = b;
    while i < n
        invariant
            b <= i <= n == l.len(),
            x == l@.subrange(a as int, l.len() as int),
            exponent_ok(x) == all_digits(l@.subrange(b as int, n as int)),
            forall|k: int| b <= k < i ==> is_digit(#[trigger] l@[k]),
        decreases n - i,
    {
        if !is_digit_exec(l[i]) {
            assert(!is_digit(l@.subrange(b as int, n as int)[i - b]));
            return false;
        }
        i = i + 1;
    }
    assert forall|k: int| 0 <= k < n - b implies is_digit(
        #[trigger] l@.subrange(b as int, n as int)[k],
    ) by {
        assert(l@.subrange(b as int, n as int)[k] == l@[b + k]);
    }
    true
}

fn lit_is(l: &Vec<char>, lit: &str) -> (r: bool)
    ensures
        r == (l@ == lit@),
{
    let c = chars_of(lit);
    crate::text::chars_eq(l, &c)
}

/// Whether `s` reads as a floating-point number.
pub fn is_float_text(s: &str) -> (r: bool)
    ensures
        r == float_text(s@),
{
    let c = chars_of(s);
    let n = c.len();
    let a: usize = if n > 0 && (c[0] == '+' || c[0] == '-') { 1 } else { 0 };
    let ghost b = if s@.len() > 0 && (s@[0] == '+' || s@[0] == '-') {
        s@.drop_first()
    } else {
        s@
    };
    assert(c@.subrange(a as int, n as int) =~= b);
    let mut l: Vec<char> = Vec::new();
    let mut i: usize = a;
    while i < n
        invariant
            a <= i <= n == c.len(),
            l@ == lower_seq(c@.subrange(a as int, i as int)),
        decreases n - i,
    {
        l.push(lower_exec(c[i]));
        assert(lower_seq(c@.subrange(a as int, i + 1)) =~= lower_seq(
            c@.subrange(a as int, i as int),
        ).push(lower(c@[i as int])));
        i = i + 1;
    }
    assert(l@ == lower_seq(b));
    proof {
        reveal_strlit("inf");
        reveal_strlit("infinity");
        reveal_strlit("nan");
        assert("inf"@ =~= seq!['i', 'n', 'f']);
        assert("infinity"@ =~= seq!['i', 'n', 'f', 'i', 'n', 'i', 't', 'y']);
        assert("nan"@ =~= seq!['n', 'a', 'n']);
    }
    if lit_is(&l, "inf") || lit_is(&l, "infinity") || lit_is(&l, "nan") {
        return true;
    }
    let mut e: usize = 0;
    while e < l.len() && l[e] != 'e'
        invariant
            e <= l.len(),
            index_of_from(l@, 'e', 0) == index_of_from(l@, 'e', e as int),
        decreases l.len() - e,
    {
        e = e + 1;
    }
    if !mantissa_check(&l, e) {
        return false;
    }
    if e == l.len() {
        return true;
    }
    exponent_check(&l, e + 1)
}

/// Classifies one value: empty text is text, then integer, then number.
pub fn classify_value_token(tok: &str) -> (r: ValKind)
    ensures
        r == classify_spec(tok@),
{
    if tok.unicode_len() == 0 {
        return ValKind::Stringy;
    }
    if parse_i64(tok).is_some() {
        return ValKind::Int;
    }
    if is_float_text(tok) {
        return ValKind::Float;
    }
    ValKind::Stringy
}

/// Statistics of one INFO key over some lines.
#[derive(Clone, Copy, Debug, PartialEq, Eq, Structural)]
pub struct KeyStats {
    /// The key appeared bare (without "=").
    pub seen_as_flag: bool,
    /// Every value seen was an integer.
    pub all_int: bool,
    /// Some value seen was a non-integer number.
    pub any_float: bool,
    /// Every valued appearance had exactly one value.
    pub all_singleton: bool,
    /// Appearances whose value count equals the ALT count.
    pub matches_a: u64,
    /// Appearances whose value count equals the ALT count plus one.
    pub matches_r: u64,
    /// All appearances.
    pub samples: u64,
}

/// Counter sum, saturating at `u64::MAX`.
pub open spec fn sat_add(a: u64, b: u64) -> u64 {
    if a + b > u64::MAX {
        u64::MAX
    } else {
        (a + b) as u64
    }
}

/// The statistics of no appearance: the identity of the merge.
pub open spec fn stats_identity() -> KeyStats {
    KeyStats {
        seen_as_flag: false,
        all_int: true,
        any_float: false,
        all_singleton: true,
        matches_a: 0,
        matches_r: 0,
        samples: 0,
    }
}

/// The merge of two statistics: OR / AND on the flags, sums of counters.
pub open spec fn merge_spec(a: KeyStats, b: KeyStats) -> KeyStats {
    KeyStats {
        seen_as_flag: a.seen_as_flag || b.seen_as_flag,
        all_int: a.all_int && b.all_int,
        any_float: a.any_float || b.any_float,
        all_singleton: a.all_singleton && b.all_singleton,
        matches_a: sat_add(a.matches_a, b.matches_a),
        matches_r: sat_add(a.matches_r, b.matches_r),
        samples: sat_add(a.samples, b.samples),
    }
}

impl KeyStats {
    /// The statistics of no appearance.
    pub fn new() -> (r: KeyStats)
        ensures
            r == stats_identity(),
    {
        KeyStats {
            seen_as_flag: false,
            all_int: true,
            any_float: false,
            all_singleton: true,
            matches_a: 0,
            matches_r: 0,
            samples: 0,
        }
    }
}

impl Default for KeyStats {
    fn default() -> (r: KeyStats)
        ensures
            r == stats_identity(),
    {
        KeyStats::new()
    }
}

/// Merges the statistics of two groups of lines.
pub fn merge_keystats(a: KeyStats, b: &KeyStats) -> (r: KeyStats)
    ensures
        r == merge_spec(a, *b),
{
    KeyStats {
        seen_as_flag: a.seen_as_flag || b.seen_as_flag,
        all_int: a.all_int && b.all_int,
        any_float: a.any_float || b.any_float,
        all_singleton: a.all_singleton && b.all_singleton,
        matches_a: a.matches_a.saturating_add(b.matches_a),
        matches_r: a.matches_r.saturating_add(b.matches_r),
        samples: a.samples.saturating_add(b.samples),
    }
}

/// The merge is associative.
pub proof fn lemma_merge_assoc(a: KeyStats, b: KeyStats, c: KeyStats)
    ensures
        merge_spec(merge_spec(a, b), c) == merge_spec(a, merge_spec(b, c)),
{
}

/// The merge is commutative.
pub proof fn lemma_merge_comm(a: KeyStats, b: KeyStats)
    ensures
        merge_spec(a, b) == merge_spec(b, a),
{
}

/// The statistics of no appearance are the identity of the merge.
pub proof fn lemma_merge_identity(a: KeyStats)
    ensures
        merge_spec(stats_identity(), a) == a,
        merge_spec(a, stats_identity()) == a,
{
}

/// The last index holding key `k`.
pub open spec fn find_key<V>(t: Seq<(Seq<char>, V)>, k: Seq<char>) -> Option<int>
    decreases t.len(),
{
    if t.len() == 0 {
        None
    } else if t.last().0 == k {
        Some(t.len() - 1)
    } else {
        find_key(t.drop_last(), k)
    }
}

pub open spec fn unique_keys<V>(t: Seq<(Seq<char>, V)>) -> bool {
    forall|i: int, j: int| 0 <= i < j < t.len() ==> t[i].0 != t[j].0
}

/// Adds one appearance `d` of key `k` to an ordered table: merged into the
/// key's entry, or appended as a new entry.
pub open spec fn absorb(t: Seq<(Seq<char>, KeyStats)>, k: Seq<char>, d: KeyStats) -> Seq<(Seq<char>, KeyStats)> {
    match find_key(t, k) {
        Some(i) => t.update(i, (k, merge_spec(t[i].1, d))),
        None => t.push((k, d)),
    }
}

/// The table as a map from key to statistics.
pub open spec fn table_map<V>(t: Seq<(Seq<char>, V)>) -> Map<Seq<char>, V>
    decreases t.len(),
{
    if t.len() == 0 {
        Map::empty()
    } else {
        table_map(t.drop_last()).insert(t.last().0, t.last().1)
    }
}

pub open spec fn get_or_identity(m: Map<Seq<char>, KeyStats>, k: Seq<char>) -> KeyStats {
    if m.contains_key(k) {
        m[k]
    } else {
        stats_identity()
    }
}

/// One appearance added on the map level.
pub open spec fn map_absorb(m: Map<Seq<char>, KeyStats>, k: Seq<char>, d: KeyStats) -> Map<Seq<char>, KeyStats> {
    m.insert(k, merge_spec(get_or_identity(m, k), d))
}

/// The merge of two maps of statistics, key by key.
pub open spec fn merge_maps(a: Map<Seq<char>, KeyStats>, b: Map<Seq<char>, KeyStats>) -> Map<Seq<char>, KeyStats> {
    Map::new(
        |k: Seq<char>| a.contains_key(k) || b.contains_key(k),
        |k: Seq<char>| merge_spec(get_or_identity(a, k), get_or_identity(b, k)),
    )
}

pub proof fn lemma_find_key<V>(t: Seq<(Seq<char>, V)>, k: Seq<char>)
    requires
        unique_keys(t),
    ensures
        find_key(t, k) matches Some(i) ==> 0 <= i < t.len() && t[i].0 == k && table_map(t).contains_key(k)
            && table_map(t)[k] == t[i].1,
        find_key(t, k) is None ==> !table_map(t).contains_key(k) && forall|i: int|
            0 <= i < t.len() ==> #[trigger] t[i].0 != k,
    decreases t.len(),
{
    if t.len() > 0 {
        assert(unique_keys(t.drop_last()));
        lemma_find_key(t.drop_last(), k);
        if t.last().0 != k {
            if let Some(i) = find_key(t.drop_last(), k) {
                assert(t[i] == t.drop_last()[i]);
            } else {
                assert forall|i: int| 0 <= i < t.len() implies #[trigger] t[i].0 != k by {
                    if i < t.len() - 1 {
                        assert(t[i] == t.drop_last()[i]);
                    }
                }
            }
        }
    }
}

proof fn lemma_table_map_update<V>(t: Seq<(Seq<char>, V)>, i: int, v: V)
    requires
        unique_keys(t),
        0 <= i < t.len(),
    ensures
        table_map(t.update(i, (t[i].0, v))) == table_map(t).insert(t[i].0, v),
    decreases t.len(),
{
    let u = t.update(i, (t[i].0, v));
    if i == t.len() - 1 {
        assert(u.drop_last() =~= t.drop_last());
        assert(table_map(u) =~= table_map(t).insert(t[i].0, v));
    } else {
        assert(unique_keys(t.drop_last()));
        lemma_table_map_update(t.drop_last(), i, v);
        assert(u.drop_last() =~= t.drop_last().update(i, (t[i].0, v)));
        assert(t.drop_last()[i] == t[i]);
        assert(t.last().0 != t[i].0);
        assert(table_map(u) =~= table_map(t).insert(t[i].0, v));
    }
}

/// Absorbing keeps keys unique and agrees with absorbing on the map level.
pub proof fn lemma_absorb(t: Seq<(Seq<char>, KeyStats)>, k: Seq<char>, d: KeyStats)
    requires
        unique_keys(t),
    ensures
        unique_keys(absorb(t, k, d)),
        table_map(absorb(t, k, d)) == map_absorb(table_map(t), k, d),
{
    lemma_find_key(t, k);
    match find_key(t, k) {
        Some(i) => {
            lemma_table_map_update(t, i, merge_spec(t[i].1, d));
            let u = absorb(t, k, d);
            assert forall|a: int, b: int| 0 <= a < b < u.len() implies u[a].0 != u[b].0 by {
                assert(u[a].0 == t[a].0);
                assert(u[b].0 == t[b].0);
            }
        },
        None => {
            lemma_merge_identity(d);
            let u = absorb(t, k, d);
            assert(u.drop_last() =~= t);
            assert forall|a: int, b: int| 0 <= a < b < u.len() implies u[a].0 != u[b].0 by {
                if b < t.len() {
                    assert(u[a] == t[a] && u[b] == t[b]);
                } else {
                    assert(u[a] == t[a]);
                }
            }
        },
    }
}

/// Appearances absorbed, on the map level, starting from `m`.
pub open spec fn fold_obs(m: Map<Seq<char>, KeyStats>, obs: Seq<(Seq<char>, KeyStats)>) -> Map<Seq<char>, KeyStats>
    decreases obs.len(),
{
    if obs.len() == 0 {
        m
    } else {
        map_absorb(fold_obs(m, obs.drop_last()), obs.last().0, obs.last().1)
    }
}

/// Appearances absorbed, in order, into an ordered table.
pub open spec fn absorb_all(t: Seq<(Seq<char>, KeyStats)>, obs: Seq<(Seq<char>, KeyStats)>) -> Seq<(Seq<char>, KeyStats)>
    decreases obs.len(),
{
    if obs.len() == 0 {
        t
    } else {
        absorb(absorb_all(t, obs.drop_last()), obs.last().0, obs.last().1)
    }
}

proof fn lemma_absorb_merge(a: Map<Seq<char>, KeyStats>, b: Map<Seq<char>, KeyStats>, k: Seq<char>, d: KeyStats)
    ensures
        map_absorb(merge_maps(a, b), k, d) == merge_maps(a, map_absorb(b, k, d)),
{
    lemma_merge_assoc(get_or_identity(a, k), get_or_identity(b, k), d);
    lemma_merge_identity(stats_identity());
    assert(map_absorb(merge_maps(a, b), k, d) =~= merge_maps(a, map_absorb(b, k, d)));
}

proof fn lemma_merge_maps_empty(a: Map<Seq<char>, KeyStats>)
    ensures
        merge_maps(a, Map::empty()) == a,
{
    assert forall|k: Seq<char>| a.contains_key(k) implies merge_maps(a, Map::empty())[k] == a[k] by {
        lemma_merge_identity(a[k]);
    }
    assert(merge_maps(a, Map::empty()) =~= a);
}

/// Absorbing the appearances of `obs` into `m` merges `m` with their map.
pub proof fn lemma_fold_obs_merge(m: Map<Seq<char>, KeyStats>, obs: Seq<(Seq<char>, KeyStats)>)
    ensures
        fold_obs(m, obs) == merge_maps(m, fold_obs(Map::empty(), obs)),
    decreases obs.len(),
{
    if obs.len() == 0 {
        lemma_merge_maps_empty(m);
    } else {
        lemma_fold_obs_merge(m, obs.drop_last());
        lemma_absorb_merge(m, fold_obs(Map::empty(), obs.drop_last()), obs.last().0, obs.last().1);
    }
}

/// Splitting a run of appearances in two and merging the halves gives the
/// statistics of the whole run.
pub proof fn lemma_fold_obs_concat(a: Seq<(Seq<char>, KeyStats)>, b: Seq<(Seq<char>, KeyStats)>)
    ensures
        fold_obs(Map::empty(), a + b) == merge_maps(fold_obs(Map::empty(), a), fold_obs(Map::empty(), b)),
    decreases b.len(),
{
    if b.len() == 0 {
        assert(a + b =~= a);
        lemma_merge_maps_empty(fold_obs(Map::empty(), a));
    } else {
        lemma_fold_obs_concat(a, b.drop_last());
        assert((a + b).drop_last() =~= a + b.drop_last());
        assert((a + b).last() == b.last());
        lemma_absorb_merge(
            fold_obs(Map::empty(), a),
            fold_obs(Map::empty(), b.drop_last()),
            b.last().0,
            b.last().1,
        );
    }
}

/// The ordered table after absorbing `obs` has unique keys and, as a map,
/// is the map-level fold.
pub proof fn lemma_absorb_all(t: Seq<(Seq<char>, KeyStats)>, obs: Seq<(Seq<char>, KeyStats)>)
    requires
        unique_keys(t),
    ensures
        unique_keys(absorb_all(t, obs)),
        table_map(absorb_all(t, obs)) == fold_obs(table_map(t), obs),
    decreases obs.len(),
{
    if obs.len() > 0 {
        lemma_absorb_all(t, obs.drop_last());
        lemma_absorb(absorb_all(t, obs.drop_last()), obs.last().0, obs.last().1);
    }
}

/// A table with unique keys, absorbed entry by entry from nothing, is itself.
proof fn lemma_fold_table(t: Seq<(Seq<char>, KeyStats)>)
    requires
        unique_keys(t),
    ensures
        fold_obs(Map::empty(), t) == table_map(t),
    decreases t.len(),
{
    if t.len() > 0 {
        assert(unique_keys(t.drop_last()));
        lemma_fold_table(t.drop_last());
        lemma_find_key(t.drop_last(), t.last().0);
        if find_key(t.drop_last(), t.last().0) is Some {
            let i = find_key(t.drop_last(), t.last().0)->0;
            assert(t[i] == t.drop_last()[i]);
        }
        lemma_merge_identity(t.last().1);
    }
}

pub open spec fn entries_view(v: Seq<(String, KeyStats)>) -> Seq<(Seq<char>, KeyStats)> {
    v.map_values(|e: (String, KeyStats)| (e.0@, e.1))
}

/// Adds one appearance of key `k` to the table.
pub fn info_absorb(t: &mut Vec<(String, KeyStats)>, k: &str, d: KeyStats)
    requires
        unique_keys(entries_view(old(t)@)),
    ensures
        entries_view(final(t)@) == absorb(entries_view(old(t)@), k@, d),
        unique_keys(entries_view(final(t)@)),
{
    proof {
        lemma_absorb(entries_view(t@), k@, d);
    }
    let ks = k.to_owned();
    let ghost tv = entries_view(t@);
    let mut i: usize = t.len();
    assert(tv.subrange(0, i as int) =~= tv);
    while i > 0
        invariant
            i <= t.len(),
            t@ == old(t)@,
            tv == entries_view(t@),
            unique_keys(tv),
            ks@ == k@,
            find_key(tv, k@) == find_key(tv.subrange(0, i as int), k@),
        decreases i,
    {
        let ghost sub = tv.subrange(0, i as int);
        assert(sub.drop_last() =~= tv.subrange(0, i - 1));
        assert(sub.last() == tv[i - 1]);
        if t[i - 1].0 == ks {
            let merged = merge_keystats(t[i - 1].1, &d);
            t[i - 1] = (ks, merged);
            assert(entries_view(t@) =~= absorb(tv, k@, d));
            proof {
                lemma_absorb(tv, k@, d);
            }
            return;
        }
        i = i - 1;
    }
    t.push((ks, d));
    assert(entries_view(t@) =~= tv.push((k@, d)));
}

/// Merges the table of a later block into the table of an earlier one:
/// keys keep their first-appearance order and statistics merge per key.
pub fn merge_info_maps(a: Vec<(String, KeyStats)>, b: Vec<(String, KeyStats)>) -> (r: Vec<(String, KeyStats)>)
    requires
        unique_keys(entries_view(a@)),
        unique_keys(entries_view(b@)),
    ensures
        unique_keys(entries_view(r@)),
        entries_view(r@) == absorb_all(entries_view(a@), entries_view(b@)),
        table_map(entries_view(r@)) == merge_maps(table_map(entries_view(a@)), table_map(entries_view(b@))),
{
    let mut r = a;
    let mut i: usize = 0;
    while i < b.len()
        invariant
            i <= b.len(),
            unique_keys(entries_view(r@)),
            entries_view(r@) == absorb_all(entries_view(a@), entries_view(b@).subrange(0, i as int)),
        decreases b.len() - i,
    {
        let ghost sub = entries_view(b@).subrange(0, i + 1);
        assert(sub.drop_last() =~= entries_view(b@).subrange(0, i as int));
        info_absorb(&mut r, b[i].0.as_str(), b[i].1);
        i = i + 1;
    }
    proof {
        assert(entries_view(b@).subrange(0, i as int) =~= entries_view(b@));
        lemma_absorb_all(entries_view(a@), entries_view(b@));
        lemma_fold_obs_merge(table_map(entries_view(a@)), entries_view(b@));
        lemma_fold_table(entries_view(b@));
    }
    r
}

/// `s` without trailing white space.
pub open spec fn trim_end_spec(s: Seq<char>) -> Seq<char> {
    s.subrange(0, trail_start(s, s.len() as int, 0))
}

/// The number of non-empty pieces.
pub open spec fn count_nonempty(p: Seq<Seq<char>>) -> nat
    decreases p.len(),
{
    if p.len() == 0 {
        0
    } else {
        count_nonempty(p.drop_last()) + if p.last().len() > 0 { 1nat } else { 0nat }
    }
}

/// The number of alternate alleles in an ALT field.
pub open spec fn alt_count(alts: Seq<char>) -> nat {
    count_nonempty(split_on(alts, ','))
}

pub open spec fn all_int_vals(v: Seq<Seq<char>>) -> bool
    decreases v.len(),
{
    v.len() == 0 || (all_int_vals(v.drop_last()) && classify_spec(v.last()) == ValKind::Int)
}

pub open spec fn any_float_vals(v: Seq<Seq<char>>) -> bool
    decreases v.len(),
{
    v.len() > 0 && (any_float_vals(v.drop_last()) || classify_spec(v.last()) == ValKind::Float)
}

/// One appearance of a bare key.
pub open spec fn flag_delta() -> KeyStats {
    KeyStats { seen_as_flag: true, samples: 1, ..stats_identity() }
}

/// One appearance of a key with an empty value.
pub open spec fn empty_value_delta() -> KeyStats {
    KeyStats { samples: 1, ..stats_identity() }
}

/// One appearance of a key with the values `vals` on a line with `alt` ALT alleles.
pub open spec fn value_delta(vals: Seq<Seq<char>>, alt: nat) -> KeyStats {
    KeyStats {
        seen_as_flag: false,
        all_int: all_int_vals(vals),
        any_float: any_float_vals(vals),
        all_singleton: vals.len() == 1,
        matches_a: if vals.len() == alt { 1 } else { 0 },
        matches_r: if vals.len() == alt + 1 { 1 } else { 0 },
        samples: 1,
    }
}

pub open spec fn index_of(s: Seq<char>, c: char) -> int {
    index_of_from(s, c, 0)
}

/// The appearance an INFO item records, if any (empty items record none).
pub open spec fn item_obs(item: Seq<char>, alt: nat) -> Option<(Seq<char>, KeyStats)> {
    let e = index_of(item, '=');
    if item.len() == 0 {
        None
    } else if e == item.len() {
        Some((item, flag_delta()))
    } else {
        let v = item.subrange(e + 1, item.len() as int);
        if v.len() == 0 {
            Some((item.subrange(0, e), empty_value_delta()))
        } else {
            Some((item.subrange(0, e), value_delta(split_on(v, ','), alt)))
        }
    }
}

/// The appearances the INFO items record, in order.
pub open spec fn items_obs(items: Seq<Seq<char>>, alt: nat) -> Seq<(Seq<char>, KeyStats)>
    decreases items.len(),
{
    if items.len() == 0 {
        Seq::empty()
    } else {
        let r = items_obs(items.drop_last(), alt);
        match item_obs(items.last(), alt) {
            Some(o) => r.push(o),
            None => r,
        }
    }
}

/// The fields of a data line (`None` for blank and comment lines).
pub open spec fn data_fields(line: Seq<char>) -> Option<Seq<Seq<char>>> {
    let t = trim_end_spec(line);
    if t.len() == 0 || t[0] == '#' {
        None
    } else {
        Some(split_on(t, '\t'))
    }
}

/// The INFO appearances of one line; lines with fewer than eight fields record none.
pub open spec fn line_obs(line: Seq<char>) -> Seq<(Seq<char>, KeyStats)> {
    match data_fields(line) {
        Some(f) => if f.len() >= 8 {
            items_obs(split_on(f[7], ';'), alt_count(f[4]))
        } else {
            Seq::empty()
        },
        None => Seq::empty(),
    }
}

/// The INFO appearances of a run of lines, in order.
pub open spec fn lines_obs(lines: Seq<Seq<char>>) -> Seq<(Seq<char>, KeyStats)>
    decreases lines.len(),
{
    if lines.len() == 0 {
        Seq::empty()
    } else {
        lines_obs(lines.drop_last()) + line_obs(lines.last())
    }
}

/// The INFO statistics of a block, keys in first-appearance order.
pub open spec fn block_info(lines: Seq<Seq<char>>) -> Seq<(Seq<char>, KeyStats)> {
    absorb_all(Seq::empty(), lines_obs(lines))
}

pub proof fn lemma_absorb_all_concat(
    t: Seq<(Seq<char>, KeyStats)>,
    a: Seq<(Seq<char>, KeyStats)>,
    b: Seq<(Seq<char>, KeyStats)>,
)
    ensures
        absorb_all(t, a + b) == absorb_all(absorb_all(t, a), b),
    decreases b.len(),
{
    if b.len() == 0 {
        assert(a + b =~= a);
    } else {
        lemma_absorb_all_concat(t, a, b.drop_last());
        assert((a + b).drop_last() =~= a + b.drop_last());
    }
}

proof fn lemma_lines_obs_concat(a: Seq<Seq<char>>, b: Seq<Seq<char>>)
    ensures
        lines_obs(a + b) == lines_obs(a) + lines_obs(b),
    decreases b.len(),
{
    if b.len() == 0 {
        assert(a + b =~= a);
        assert(lines_obs(a) + lines_obs(b) =~= lines_obs(a));
    } else {
        lemma_lines_obs_concat(a, b.drop_last());
        assert((a + b).drop_last() =~= a + b.drop_last());
        assert(lines_obs(a + b) =~= lines_obs(a) + lines_obs(b));
    }
}

/// Block partitioning does not change the statistics: the INFO statistics
/// of two consecutive runs of lines, merged key by key, are those of the
/// lines taken as one block.
pub proof fn lemma_block_partition(a: Seq<Seq<char>>, b: Seq<Seq<char>>)
    ensures
        table_map(block_info(a + b)) == merge_maps(table_map(block_info(a)), table_map(block_info(b))),
        unique_keys(block_info(a + b)),
{
    lemma_lines_obs_concat(a, b);
    lemma_absorb_all(Seq::empty(), lines_obs(a + b));
    lemma_absorb_all(Seq::empty(), lines_obs(a));
    lemma_absorb_all(Seq::empty(), lines_obs(b));
    assert(table_map(Seq::<(Seq<char>, KeyStats)>::empty()) =~= Map::empty());
    lemma_fold_obs_concat(lines_obs(a), lines_obs(b));
}

/// `s` without trailing white space.
pub fn trim_end(s: &str) -> (r: String)
    ensures
        r@ == trim_end_spec(s@),
{
    let c = chars_of(s);
    let n = c.len();
    let mut b: usize = n;
    while b > 0 && crate::text::is_space_exec(c[b - 1])
        invariant
            b <= n == c.len(),
            c@ == s@,
            trail_start(c@, n as int, 0) == trail_start(c@, b as int, 0),
        decreases b,
    {
        b = b - 1;
    }
    s.substring_char(0, b).to_owned()
}

/// The number of non-empty texts in `p`.
pub fn count_nonempty_fields(p: &Vec<String>) -> (r: usize)
    ensures
        r as nat == count_nonempty(strings_view(p@)),
        r <= p.len(),
{
    let mut n: usize = 0;
    let mut i: usize = 0;
    while i < p.len()
        invariant
            i <= p.len(),
            n <= i,
            n as nat == count_nonempty(strings_view(p@.subrange(0, i as int))),
        decreases p.len() - i,
    {
        let ghost sub = strings_view(p@.subrange(0, i + 1));
        assert(sub.drop_last() =~= strings_view(p@.subrange(0, i as int)));
        assert(sub.last() == p@[i as int]@);
        if p[i].as_str().unicode_len() > 0 {
            n = n + 1;
        }
        i = i + 1;
    }
    assert(p@.subrange(0, i as int) =~= p@);
    n
}

/// The statistics of one valued appearance.
fn values_delta(vals: &Vec<String>, alt: usize) -> (r: KeyStats)
    ensures
        r == value_delta(strings_view(vals@), alt as nat),
{
    let ghost vv = strings_view(vals@);
    let mut all_int = true;
    let mut any_float = false;
    let mut i: usize = 0;
    while i < vals.len()
        invariant
            i <= vals.len(),
            vv == strings_view(vals@),
            all_int == all_int_vals(vv.subrange(0, i as int)),
            any_float == any_float_vals(vv.subrange(0, i as int)),
        decreases vals.len() - i,
    {
        let ghost sub = vv.subrange(0, i + 1);
        assert(sub.drop_last() =~= vv.subrange(0, i as int));
        assert(sub.last() == vals@[i as int]@);
        let k = classify_value_token(vals[i].as_str());
        if k != ValKind::Int {
            all_int = false;
        }
        if k == ValKind::Float {
            any_float = true;
        }
        i = i + 1;
    }
    assert(vv.subrange(0, i as int) =~= vv);
    let n = vals.len();
    KeyStats {
        seen_as_flag: false,
        all_int,
        any_float,
        all_singleton: n == 1,
        matches_a: if n == alt { 1 } else { 0 },
        matches_r: if n > 0 && n - 1 == alt { 1 } else { 0 },
        samples: 1,
    }
}

/// The key and the statistics that one INFO item records.
pub fn item_observation(item: &str, alt: usize) -> (r: Option<(String, KeyStats)>)
    ensures
        match r {
            Some((k, d)) => item_obs(item@, alt as nat) == Some((k@, d)),
            None => item_obs(item@, alt as nat) is None,
        },
{
    let c = chars_of(item);
    let n = c.len();
    if n == 0 {
        return None;
    }
    let mut e: usize = 0;
    while e < n && c[e] != '='
        invariant
            e <= n == c.len(),
            c@ == item@,
            index_of_from(c@, '=', 0) == index_of_from(c@, '=', e as int),
        decreases n - e,
    {
        e = e + 1;
    }
    if e == n {
        let mut d = KeyStats::new();
        d.seen_as_flag = true;
        d.samples = 1;
        return Some((item.to_owned(), d));
    }
    let key = item.substring_char(0, e).to_owned();
    let v = item.substring_char(e + 1, n);
    if v.unicode_len() == 0 {
        let mut d = KeyStats::new();
        d.samples = 1;
        return Some((key, d));
    }
    let vals = split_fields(v, ',');
    Some((key, values_delta(&vals, alt)))
}

/// Adds the INFO appearances of one line to the table.
pub fn absorb_line_info(line: &str, t: &mut Vec<(String, KeyStats)>)
    requires
        unique_keys(entries_view(old(t)@)),
    ensures
        unique_keys(entries_view(final(t)@)),
        entries_view(final(t)@) == absorb_all(entries_view(old(t)@), line_obs(line@)),
{
    let ghost t0 = entries_view(t@);
    let tr = trim_end(line);
    if tr.as_str().unicode_len() == 0 || tr.as_str().get_char(0) == '#' {
        assert(line_obs(line@) =~= Seq::empty());
        return;
    }
    let f = split_fields(tr.as_str(), '\t');
    if f.len() < 8 {
        assert(line_obs(line@) =~= Seq::empty());
        return;
    }
    let ghost fv = strings_view(f@);
    assert(fv[4] == f@[4]@ && fv[7] == f@[7]@);
    let alts = split_fields(f[4].as_str(), ',');
    let alt = count_nonempty_fields(&alts);
    let items = split_fields(f[7].as_str(), ';');
    let ghost iv = strings_view(items@);
    let mut j: usize = 0;
    while j < items.len()
        invariant
            j <= items.len(),
            iv == strings_view(items@),
            alt as nat == alt_count(fv[4]),
            line_obs(line@) == items_obs(iv, alt as nat),
            unique_keys(entries_view(t@)),
            entries_view(t@) == absorb_all(t0, items_obs(iv.subrange(0, j as int), alt as nat)),
        decreases items.len() - j,
    {
        let ghost sub = iv.subrange(0, j + 1);
        assert(sub.drop_last() =~= iv.subrange(0, j as int));
        assert(sub.last() == items@[j as int]@);
        match item_observation(items[j].as_str(), alt) {
            Some((k, d)) => {
                let ghost before = items_obs(iv.subrange(0, j as int), alt as nat);
                info_absorb(t, k.as_str(), d);
                assert(items_obs(sub, alt as nat) == before.push((k@, d)));
                assert(before.push((k@, d)).drop_last() =~= before);
            },
            None => {},
        }
        j = j + 1;
    }
    assert(iv.subrange(0, j as int) =~= iv);
}

/// What the first sample column shows of a FORMAT key: a value kind and
/// the number of values.
pub open spec fn fmt_view(v: Seq<(String, (ValKind, usize))>) -> Seq<(Seq<char>, (ValKind, nat))> {
    v.map_values(|e: (String, (ValKind, usize))| (e.0@, (e.1.0, e.1.1 as nat)))
}

/// First index at or after `i` holding `k` (or the length).
pub open spec fn first_pos(keys: Seq<Seq<char>>, k: Seq<char>, i: int) -> int
    decreases keys.len() - i,
{
    if i < 0 || i >= keys.len() {
        keys.len() as int
    } else if keys[i] == k {
        i
    } else {
        first_pos(keys, k, i + 1)
    }
}

/// Kind and cardinality of the sample value for `key` (the value at the
/// key's first position in FORMAT).
pub open spec fn fmt_value(keys: Seq<Seq<char>>, parts: Seq<Seq<char>>, key: Seq<char>) -> (ValKind, nat) {
    let pos = first_pos(keys, key, 0);
    let tok = if pos < parts.len() { parts[pos] } else { Seq::empty() };
    let vals = split_on(tok, ',');
    let card = count_nonempty(vals);
    (if card == 0 { ValKind::Stringy } else { classify_spec(vals[0]) }, card)
}

/// The FORMAT observations for the first `n` keys, empty keys left out.
pub open spec fn fmt_keys_obs(keys: Seq<Seq<char>>, parts: Seq<Seq<char>>, n: int) -> Seq<(Seq<char>, (ValKind, nat))>
    decreases n,
{
    if n <= 0 {
        Seq::empty()
    } else {
        let r = fmt_keys_obs(keys, parts, n - 1);
        if keys[n - 1].len() > 0 {
            r.push((keys[n - 1], fmt_value(keys, parts, keys[n - 1])))
        } else {
            r
        }
    }
}

/// The FORMAT observations of one line (lines with a sample column only).
pub open spec fn line_fmt_obs(line: Seq<char>) -> Seq<(Seq<char>, (ValKind, nat))> {
    match data_fields(line) {
        Some(f) => if f.len() >= 10 {
            let keys = split_on(f[8], ':');
            fmt_keys_obs(keys, split_on(f[9], ':'), keys.len() as int)
        } else {
            Seq::empty()
        },
        None => Seq::empty(),
    }
}

/// First writer wins: a key already present keeps its entry.
pub open spec fn fmt_absorb(t: Seq<(Seq<char>, (ValKind, nat))>, e: (Seq<char>, (ValKind, nat))) -> Seq<(Seq<char>, (ValKind, nat))> {
    if find_key(t, e.0) is Some {
        t
    } else {
        t.push(e)
    }
}

pub open spec fn fmt_absorb_all(t: Seq<(Seq<char>, (ValKind, nat))>, obs: Seq<(Seq<char>, (ValKind, nat))>) -> Seq<(Seq<char>, (ValKind, nat))>
    decreases obs.len(),
{
    if obs.len() == 0 {
        t
    } else {
        fmt_absorb(fmt_absorb_all(t, obs.drop_last()), obs.last())
    }
}

pub open spec fn lines_fmt_obs(lines: Seq<Seq<char>>) -> Seq<(Seq<char>, (ValKind, nat))>
    decreases lines.len(),
{
    if lines.len() == 0 {
        Seq::empty()
    } else {
        lines_fmt_obs(lines.drop_last()) + line_fmt_obs(lines.last())
    }
}

/// The FORMAT table of a block, keys in first-appearance order.
pub open spec fn block_format(lines: Seq<Seq<char>>) -> Seq<(Seq<char>, (ValKind, nat))> {
    fmt_absorb_all(Seq::empty(), lines_fmt_obs(lines))
}

/// The first data line of a block, without trailing white space.
pub open spec fn block_first_data(lines: Seq<Seq<char>>) -> Option<Seq<char>>
    decreases lines.len(),
{
    if lines.len() == 0 {
        None
    } else {
        match block_first_data(lines.drop_last()) {
            Some(x) => Some(x),
            None => if data_fields(lines.last()) is Some {
                Some(trim_end_spec(lines.last()))
            } else {
                None
            },
        }
    }
}

pub proof fn lemma_fmt_absorb_all_concat(
    t: Seq<(Seq<char>, (ValKind, nat))>,
    a: Seq<(Seq<char>, (ValKind, nat))>,
    b: Seq<(Seq<char>, (ValKind, nat))>,
)
    ensures
        fmt_absorb_all(t, a + b) == fmt_absorb_all(fmt_absorb_all(t, a), b),
    decreases b.len(),
{
    if b.len() == 0 {
        assert(a + b =~= a);
    } else {
        lemma_fmt_absorb_all_concat(t, a, b.drop_last());
        assert((a + b).drop_last() =~= a + b.drop_last());
    }
}

/// Adds one FORMAT observation (first writer wins).
fn format_absorb(t: &mut Vec<(String, (ValKind, usize))>, k: String, v: (ValKind, usize))
    ensures
        fmt_view(final(t)@) == fmt_absorb(fmt_view(old(t)@), (k@, (v.0, v.1 as nat))),
{
    let ghost tv = fmt_view(t@);
    let mut i: usize = t.len();
    assert(tv.subrange(0, i as int) =~= tv);
    while i > 0
        invariant
            i <= t.len(),
            t@ == old(t)@,
            tv == fmt_view(t@),
            find_key(tv, k@) == find_key(tv.subrange(0, i as int), k@),
        decreases i,
    {
        let ghost sub = tv.subrange(0, i as int);
        assert(sub.drop_last() =~= tv.subrange(0, i - 1));
        assert(sub.last() == tv[i - 1]);
        if t[i - 1].0 == k {
            return;
        }
        i = i - 1;
    }
    t.push((k, v));
    assert(fmt_view(t@) =~= tv.push((k@, (v.0, v.1 as nat))));
}

/// Position of the first key equal to `k`.
fn first_key_pos(keys: &Vec<String>, k: &String) -> (r: usize)
    ensures
        r as int == first_pos(strings_view(keys@), k@, 0),
{
    let ghost kv = strings_view(keys@);
    let mut i: usize = 0;
    while i < keys.len()
        invariant
            i <= keys.len(),
            kv == strings_view(keys@),
            first_pos(kv, k@, 0) == first_pos(kv, k@, i as int),
        decreases keys.len() - i,
    {
        assert(kv[i as int] == keys@[i as int]@);
        if keys[i] == *k {
            return i;
        }
        i = i + 1;
    }
    i
}

/// Adds the FORMAT observations of one line to the table.
pub fn absorb_line_format(line: &str, t: &mut Vec<(String, (ValKind, usize))>)
    ensures
        fmt_view(final(t)@) == fmt_absorb_all(fmt_view(old(t)@), line_fmt_obs(line@)),
{
    let ghost t0 = fmt_view(t@);
    let tr = trim_end(line);
    if tr.as_str().unicode_len() == 0 || tr.as_str().get_char(0) == '#' {
        assert(line_fmt_obs(line@) =~= Seq::empty());
        return;
    }
    let f = split_fields(tr.as_str(), '\t');
    if f.len() < 10 {
        assert(line_fmt_obs(line@) =~= Seq::empty());
        return;
    }
    let ghost fv = strings_view(f@);
    assert(fv[8] == f@[8]@ && fv[9] == f@[9]@);
    let keys = split_fields(f[8].as_str(), ':');
    let parts = split_fields(f[9].as_str(), ':');
    let ghost kv = strings_view(keys@);
    let ghost pv = strings_view(parts@);
    let mut j: usize = 0;
    while j < keys.len()
        invariant
            j <= keys.len(),
            kv == strings_view(keys@),
            pv == strings_view(parts@),
            line_fmt_obs(line@) == fmt_keys_obs(kv, pv, kv.len() as int),
            fmt_view(t@) == fmt_absorb_all(t0, fmt_keys_obs(kv, pv, j as int)),
        decreases keys.len() - j,
    {
        assert(kv[j as int] == keys@[j as int]@);
        if keys[j].as_str().unicode_len() > 0 {
            let pos = first_key_pos(&keys, &keys[j]);
            let vals = if pos < parts.len() {
                assert(pv[pos as int] == parts@[pos as int]@);
                split_fields(parts[pos].as_str(), ',')
            } else {
                split_fields("", ',')
            };
            proof {
                reveal_strlit("");
                assert(""@ =~= Seq::<char>::empty());
            }
            let card = count_nonempty_fields(&vals);
            let kind = if card == 0 {
                ValKind::Stringy
            } else {
                proof {
                    crate::text::lemma_split_nonempty(
                        if (pos as int) < pv.len() { pv[pos as int] } else { Seq::empty() },
                        ',',
                    );
                }
                assert(strings_view(vals@)[0] == vals@[0]@);
                classify_value_token(vals[0].as_str())
            };
            let ghost before = fmt_keys_obs(kv, pv, j as int);
            let ghost e = (kv[j as int], (kind, card as nat));
            assert(fmt_value(kv, pv, kv[j as int]) == (kind, card as nat));
            format_absorb(t, keys[j].clone(), (kind, card));
            assert(fmt_keys_obs(kv, pv, j + 1) == before.push(e));
            assert(before.push(e).drop_last() =~= before);
        }
        j = j + 1;
    }
}

/// The statistics of one block of lines.
pub struct BlockStats {
    /// INFO keys in first-appearance order with their statistics.
    pub info: Vec<(String, KeyStats)>,
    /// FORMAT keys in first-appearance order with the first sample's kind
    /// and cardinality.
    pub format: Vec<(String, (ValKind, usize))>,
    /// The first data line, without trailing white space.
    pub first_data: Option<String>,
}

impl BlockStats {
    /// Statistics of no lines.
    pub fn new() -> (r: BlockStats)
        ensures
            entries_view(r.info@) == Seq::<(Seq<char>, KeyStats)>::empty(),
            fmt_view(r.format@) == Seq::<(Seq<char>, (ValKind, nat))>::empty(),
            r.first_data is None,
    {
        let r = BlockStats { info: Vec::new(), format: Vec::new(), first_data: None };
        assert(entries_view(r.info@) =~= Seq::empty());
        assert(fmt_view(r.format@) =~= Seq::empty());
        r
    }
}

/// Computes the statistics of one block of variant lines.
pub fn block_stats(lines: &Vec<String>) -> (r: BlockStats)
    ensures
        entries_view(r.info@) == block_info(strings_view(lines@)),
        unique_keys(entries_view(r.info@)),
        fmt_view(r.format@) == block_format(strings_view(lines@)),
        crate::normalize::opt_view(r.first_data) == block_first_data(strings_view(lines@)),
{
    let mut st = BlockStats::new();
    let mut i: usize = 0;
    while i < lines.len()
        invariant
            i <= lines.len(),
            unique_keys(entries_view(st.info@)),
            entries_view(st.info@) == block_info(strings_view(lines@.subrange(0, i as int))),
            fmt_view(st.format@) == block_format(strings_view(lines@.subrange(0, i as int))),
            crate::normalize::opt_view(st.first_data) == block_first_data(
                strings_view(lines@.subrange(0, i as int)),
            ),
        decreases lines.len() - i,
    {
        let ghost prev = strings_view(lines@.subrange(0, i as int));
        let ghost next = strings_view(lines@.subrange(0, i + 1));
        assert(next.drop_last() =~= prev);
        assert(next.last() == lines@[i as int]@);
        let line = lines[i].as_str();
        proof {
            lemma_absorb_all_concat(Seq::empty(), lines_obs(prev), line_obs(line@));
            lemma_fmt_absorb_all_concat(Seq::empty(), lines_fmt_obs(prev), line_fmt_obs(line@));
        }
        absorb_line_info(line, &mut st.info);
        absorb_line_format(line, &mut st.format);
        if st.first_data.is_none() {
            let tr = trim_end(line);
            if tr.as_str().unicode_len() > 0 && tr.as_str().get_char(0) != '#' {
                st.first_data = Some(tr);
            }
        }
        i = i + 1;
    }
    assert(lines@.subrange(0, i as int) =~= lines@);
    st
}

/// Merges a first-writer-wins FORMAT table of a later block into an earlier one.
pub fn merge_format_maps(a: Vec<(String, (ValKind, usize))>, b: Vec<(String, (ValKind, usize))>) -> (r: Vec<(String, (ValKind, usize))>)
    ensures
        fmt_view(r@) == fmt_absorb_all(fmt_view(a@), fmt_view(b@)),
{
    let mut r = a;
    let mut i: usize = 0;
    while i < b.len()
        invariant
            i <= b.len(),
            fmt_view(r@) == fmt_absorb_all(fmt_view(a@), fmt_view(b@).subrange(0, i as int)),
        decreases b.len() - i,
    {
        let ghost sub = fmt_view(b@).subrange(0, i + 1);
        assert(sub.drop_last() =~= fmt_view(b@).subrange(0, i as int));
        format_absorb(&mut r, b[i].0.clone(), b[i].1);
        i = i + 1;
    }
    assert(fmt_view(b@).subrange(0, i as int) =~= fmt_view(b@));
    r
}

/// Merges the statistics of a later block into those of an earlier one.
/// Taken over consecutive blocks in file order, the result is the
/// statistics of all their lines as one block.
pub fn merge_block_stats(a: BlockStats, b: BlockStats) -> (r: BlockStats)
    requires
        unique_keys(entries_view(a.info@)),
        unique_keys(entries_view(b.info@)),
    ensures
        unique_keys(entries_view(r.info@)),
        entries_view(r.info@) == absorb_all(entries_view(a.info@), entries_view(b.info@)),
        table_map(entries_view(r.info@)) == merge_maps(
            table_map(entries_view(a.info@)),
            table_map(entries_view(b.info@)),
        ),
        fmt_view(r.format@) == fmt_absorb_all(fmt_view(a.format@), fmt_view(b.format@)),
        r.first_data == (if a.first_data is Some { a.first_data } else { b.first_data }),
{
    let first_data = if a.first_data.is_some() { a.first_data } else { b.first_data };
    BlockStats {
        info: merge_info_maps(a.info, b.info),
        format: merge_format_maps(a.format, b.format),
        first_data,
    }
}

/// The inferred Type of an INFO key.
pub open spec fn info_type_text(ks: KeyStats) -> Seq<char> {
    if ks.seen_as_flag {
        "Flag"@
    } else if ks.all_int && !ks.any_float {
        "Integer"@
    } else if ks.any_float {
        "Float"@
    } else {
        "String"@
    }
}

/// The inferred Number of an INFO key: "A" or "R" when at least half of
/// the appearances match, else "1" when always single-valued, else ".".
pub open spec fn info_number_text(ks: KeyStats) -> Seq<char> {
    if ks.seen_as_flag {
        "0"@
    } else if 2 * ks.matches_a >= ks.samples && ks.samples > 0 {
        "A"@
    } else if 2 * ks.matches_r >= ks.samples && ks.samples > 0 {
        "R"@
    } else if ks.all_singleton {
        "1"@
    } else {
        "."@
    }
}

pub open spec fn info_desc_text(ks: KeyStats, allow_empty: bool) -> Seq<char> {
    if allow_empty && ks.samples == 0 {
        ""@
    } else {
        "Inferred from body"@
    }
}

/// The INFO declaration line of key `id`.
pub open spec fn info_line_spec(id: Seq<char>, ks: KeyStats, allow_empty: bool) -> Seq<char> {
    "##INFO=<ID="@ + id + ",Number="@ + info_number_text(ks) + ",Type="@ + info_type_text(ks)
        + ",Description=\""@ + info_desc_text(ks, allow_empty) + "\">"@
}

fn info_type_str(ks: &KeyStats) -> (r: &'static str)
    ensures
        r@ == info_type_text(*ks),
{
    if ks.seen_as_flag {
        "Flag"
    } else if ks.all_int && !ks.any_float {
        "Integer"
    } else if ks.any_float {
        "Float"
    } else {
        "String"
    }
}

fn info_number_str(ks: &KeyStats) -> (r: &'static str)
    ensures
        r@ == info_number_text(*ks),
{
    let twice_a: u128 = 2 * (ks.matches_a as u128);
    let twice_r: u128 = 2 * (ks.matches_r as u128);
    if ks.seen_as_flag {
        "0"
    } else if twice_a >= ks.samples as u128 && ks.samples > 0 {
        "A"
    } else if twice_r >= ks.samples as u128 && ks.samples > 0 {
        "R"
    } else if ks.all_singleton {
        "1"
    } else {
        "."
    }
}

/// Builds the INFO declaration of key `id` from its statistics. With
/// `allow_empty`, a key never observed gets an empty Description.
pub fn infer_info_def_with_empty(id: &str, ks: &KeyStats, allow_empty: bool) -> (r: String)
    ensures
        r@ == info_line_spec(id@, *ks, allow_empty),
{
    let desc = if allow_empty && ks.samples == 0 { "" } else { "Inferred from body" };
    let mut out = "##INFO=<ID=".to_owned();
    out.append(id);
    out.append(",Number=");
    out.append(info_number_str(ks));
    out.append(",Type=");
    out.append(info_type_str(ks));
    out.append(",Description=\"");
    out.append(desc);
    out.append("\">");
    out
}

/// The FORMAT declaration line of key `id`, from the example value's kind
/// and cardinality.
pub open spec fn format_line_spec(id: Seq<char>, kind: Option<ValKind>, card: Option<usize>) -> Seq<char> {
    let number = match (kind, card) {
        (Some(_), Some(c)) => if c == 0 { "0"@ } else if c == 1 { "1"@ } else { "."@ },
        _ => "."@,
    };
    let typ = match kind {
        Some(ValKind::Int) => "Integer"@,
        Some(ValKind::Float) => "Float"@,
        _ => "String"@,
    };
    "##FORMAT=<ID="@ + id + ",Number="@ + number + ",Type="@ + typ
        + ",Description=\"Inferred from FORMAT column\">"@
}

/// Builds the FORMAT declaration of key `id`.
pub fn infer_format_def(id: &str, example_kind: Option<ValKind>, example_card: Option<usize>) -> (r: String)
    ensures
        r@ == format_line_spec(id@, example_kind, example_card),
{
    let number = match (example_kind, example_card) {
        (Some(_), Some(c)) => if c == 0 { "0" } else if c == 1 { "1" } else { "." },
        _ => ".",
    };
    let typ = match example_kind {
        Some(ValKind::Int) => "Integer",
        Some(ValKind::Float) => "Float",
        _ => "String",
    };
    let mut out = "##FORMAT=<ID=".to_owned();
    out.append(id);
    out.append(",Number=");
    out.append(number);
    out.append(",Type=");
    out.append(typ);
    out.append(",Description=\"Inferred from FORMAT column\">");
    out
}

/// The lines of consecutive blocks, in order.
pub open spec fn concat_blocks(parts: Seq<Seq<Seq<char>>>) -> Seq<Seq<char>>
    decreases parts.len(),
{
    if parts.len() == 0 {
        Seq::empty()
    } else {
        concat_blocks(parts.drop_last()) + parts.last()
    }
}

/// The INFO tables of consecutive blocks merged in order.
pub open spec fn merged_blocks(parts: Seq<Seq<Seq<char>>>) -> Seq<(Seq<char>, KeyStats)>
    decreases parts.len(),
{
    if parts.len() == 0 {
        Seq::empty()
    } else {
        absorb_all(merged_blocks(parts.drop_last()), block_info(parts.last()))
    }
}

/// Any partition of a body into consecutive blocks, with the block tables
/// merged in order, yields the statistics of the whole body.
pub proof fn lemma_any_partition(parts: Seq<Seq<Seq<char>>>)
    ensures
        unique_keys(merged_blocks(parts)),
        table_map(merged_blocks(parts)) == table_map(block_info(concat_blocks(parts))),
    decreases parts.len(),
{
    if parts.len() == 0 {
        assert(unique_keys(Seq::<(Seq<char>, KeyStats)>::empty()));
    } else {
        let prev = parts.drop_last();
        let last = parts.last();
        lemma_any_partition(prev);
        lemma_absorb_all(Seq::empty(), lines_obs(last));
        lemma_absorb_all(merged_blocks(prev), block_info(last));
        lemma_fold_obs_merge(table_map(merged_blocks(prev)), block_info(last));
        lemma_fold_table(block_info(last));
        lemma_block_partition(concat_blocks(prev), last);
    }
}

pub open spec fn merged_stats_format(bs: Seq<BlockStats>) -> Seq<(Seq<char>, (ValKind, nat))>
    decreases bs.len(),
{
    if bs.len() == 0 {
        Seq::empty()
    } else {
        fmt_absorb_all(merged_stats_format(bs.drop_last()), fmt_view(bs.last().format@))
    }
}

/// The first data line among the blocks, in order.
pub open spec fn merged_stats_first(bs: Seq<BlockStats>) -> Option<String>
    decreases bs.len(),
{
    if bs.len() == 0 {
        None
    } else {
        match merged_stats_first(bs.drop_last()) {
            Some(x) => Some(x),
            None => bs.last().first_data,
        }
    }
}

pub open spec fn merged_stats_info(bs: Seq<BlockStats>) -> Seq<(Seq<char>, KeyStats)>
    decreases bs.len(),
{
    if bs.len() == 0 {
        Seq::empty()
    } else {
        absorb_all(merged_stats_info(bs.drop_last()), entries_view(bs.last().info@))
    }
}

/// Reduces the statistics of consecutive blocks, in order, to the
/// statistics of their lines taken together.
pub fn merge_blocks(blocks: Vec<BlockStats>) -> (r: BlockStats)
    requires
        forall|i: int| 0 <= i < blocks.len() ==> unique_keys(#[trigger] entries_view(blocks@[i].info@)),
    ensures
        unique_keys(entries_view(r.info@)),
        entries_view(r.info@) == merged_stats_info(blocks@),
        fmt_view(r.format@) == merged_stats_format(blocks@),
        r.first_data == merged_stats_first(blocks@),
{
    let mut acc = BlockStats::new();
    assert(fmt_view(acc.format@) =~= Seq::empty());
    let mut rest = blocks;
    let ghost all = rest@;
    let n = rest.len();
    let mut i: usize = 0;
    assert(all.subrange(0, 0) =~= Seq::<BlockStats>::empty());
    assert(rest@ =~= all.subrange(0, all.len() as int));
    // consume the blocks front to back
    while rest.len() > 0
        invariant
            i + rest.len() == all.len(),
            all.len() == n,
            rest@ == all.subrange(i as int, all.len() as int),
            forall|j: int| 0 <= j < all.len() ==> unique_keys(#[trigger] entries_view(all[j].info@)),
            unique_keys(entries_view(acc.info@)),
            entries_view(acc.info@) == merged_stats_info(all.subrange(0, i as int)),
            fmt_view(acc.format@) == merged_stats_format(all.subrange(0, i as int)),
            acc.first_data == merged_stats_first(all.subrange(0, i as int)),
        decreases rest.len(),
    {
        let b = rest.remove(0);
        assert(b == all[i as int]);
        assert(all.subrange(0, i + 1).drop_last() =~= all.subrange(0, i as int));
        assert(rest@ =~= all.subrange(i + 1, all.len() as int));
        acc = merge_block_stats(acc, b);
        i = i + 1;
    }
    assert(all.subrange(0, i as int) =~= all);
    acc
}

proof fn lemma_fmt_absorb_all_has_keys(t: Seq<(Seq<char>, (ValKind, nat))>, obs: Seq<(Seq<char>, (ValKind, nat))>, i: int)
    requires
        0 <= i < obs.len(),
    ensures
        find_key(fmt_absorb_all(t, obs), obs[i].0) is Some,
    decreases obs.len(),
{
    let d = obs.drop_last();
    let u = fmt_absorb_all(t, d);
    if i < obs.len() - 1 {
        assert(d[i] == obs[i]);
        lemma_fmt_absorb_all_has_keys(t, d, i);
        if find_key(u, obs.last().0) is None {
            assert(u.push(obs.last()).drop_last() =~= u);
        }
    } else if find_key(u, obs.last().0) is None {
        assert(u.push(obs.last()).last() == obs.last());
    }
}

/// Absorbing a first-writer table built from `obs` is absorbing `obs`.
proof fn lemma_fmt_absorb_table(t: Seq<(Seq<char>, (ValKind, nat))>, obs: Seq<(Seq<char>, (ValKind, nat))>)
    ensures
        fmt_absorb_all(t, fmt_absorb_all(Seq::empty(), obs)) == fmt_absorb_all(t, obs),
    decreases obs.len(),
{
    if obs.len() > 0 {
        let d = obs.drop_last();
        let x = obs.last();
        lemma_fmt_absorb_table(t, d);
        let dt = fmt_absorb_all(Seq::empty(), d);
        if find_key(dt, x.0) is None {
            assert(dt.push(x).drop_last() =~= dt);
        } else {
            lemma_fmt_table_key_source(d, x.0);
            lemma_fmt_absorb_all_keeps_key_from(t, d, x.0);
        }
    }
}

/// A key of the first-writer table of `obs` is a key of some observation.
proof fn lemma_fmt_table_key_source(obs: Seq<(Seq<char>, (ValKind, nat))>, k: Seq<char>)
    ensures
        find_key(fmt_absorb_all(Seq::empty(), obs), k) is Some ==> exists|i: int| 0 <= i < obs.len() && #[trigger] obs[i].0 == k,
    decreases obs.len(),
{
    if obs.len() > 0 {
        let d = obs.drop_last();
        lemma_fmt_table_key_source(d, k);
        let u = fmt_absorb_all(Seq::empty(), d);
        if find_key(fmt_absorb_all(Seq::empty(), obs), k) is Some {
            if find_key(u, k) is Some {
                let i = choose|i: int| 0 <= i < d.len() && #[trigger] d[i].0 == k;
                assert(obs[i] == d[i]);
            } else {
                if find_key(u, obs.last().0) is None {
                    assert(u.push(obs.last()).drop_last() =~= u);
                    assert(obs[obs.len() - 1].0 == k);
                }
            }
        }
    }
}

proof fn lemma_fmt_absorb_all_keeps_key_from(t: Seq<(Seq<char>, (ValKind, nat))>, obs: Seq<(Seq<char>, (ValKind, nat))>, k: Seq<char>)
    requires
        exists|i: int| 0 <= i < obs.len() && #[trigger] obs[i].0 == k,
    ensures
        find_key(fmt_absorb_all(t, obs), k) is Some,
{
    let i = choose|i: int| 0 <= i < obs.len() && #[trigger] obs[i].0 == k;
    lemma_fmt_absorb_all_has_keys(t, obs, i);
}

proof fn lemma_lines_fmt_obs_concat(a: Seq<Seq<char>>, b: Seq<Seq<char>>)
    ensures
        lines_fmt_obs(a + b) == lines_fmt_obs(a) + lines_fmt_obs(b),
    decreases b.len(),
{
    if b.len() == 0 {
        assert(a + b =~= a);
        assert(lines_fmt_obs(a) + lines_fmt_obs(b) =~= lines_fmt_obs(a));
    } else {
        lemma_lines_fmt_obs_concat(a, b.drop_last());
        assert((a + b).drop_last() =~= a + b.drop_last());
        assert(lines_fmt_obs(a + b) =~= lines_fmt_obs(a) + lines_fmt_obs(b));
    }
}

/// Block partitioning keeps the FORMAT table: merging the table of a later
/// run of lines into that of an earlier one gives the table of both runs.
pub proof fn lemma_block_partition_format(a: Seq<Seq<char>>, b: Seq<Seq<char>>)
    ensures
        fmt_absorb_all(block_format(a), block_format(b)) == block_format(a + b),
{
    lemma_lines_fmt_obs_concat(a, b);
    lemma_fmt_absorb_all_concat(Seq::empty(), lines_fmt_obs(a), lines_fmt_obs(b));
    lemma_fmt_absorb_table(block_format(a), lines_fmt_obs(b));
}

/// Block partitioning keeps the first data line: it is the earlier run's,
/// or else the later run's.
pub proof fn lemma_block_partition_first(a: Seq<Seq<char>>, b: Seq<Seq<char>>)
    ensures
        block_first_data(a + b) == (match block_first_data(a) {
            Some(x) => Some(x),
            None => block_first_data(b),
        }),
    decreases b.len(),
{
    if b.len() == 0 {
        assert(a + b =~= a);
    } else {
        lemma_block_partition_first(a, b.drop_last());
        assert((a + b).drop_last() =~= a + b.drop_last());
    }
}

/// The FORMAT tables of consecutive blocks merged in order.
pub open spec fn merged_blocks_format(parts: Seq<Seq<Seq<char>>>) -> Seq<(Seq<char>, (ValKind, nat))>
    decreases parts.len(),
{
    if parts.len() == 0 {
        Seq::empty()
    } else {
        fmt_absorb_all(merged_blocks_format(parts.drop_last()), block_format(parts.last()))
    }
}

/// The first data line of consecutive blocks, taken in order.
pub open spec fn merged_blocks_first(parts: Seq<Seq<Seq<char>>>) -> Option<Seq<char>>
    decreases parts.len(),
{
    if parts.len() == 0 {
        None
    } else {
        match merged_blocks_first(parts.drop_last()) {
            Some(x) => Some(x),
            None => block_first_data(parts.last()),
        }
    }
}

/// Any partition of a body into consecutive blocks, reduced in order,
/// yields the FORMAT table and the first data line of the whole body.
pub proof fn lemma_any_partition_format_first(parts: Seq<Seq<Seq<char>>>)
    ensures
        merged_blocks_format(parts) == block_format(concat_blocks(parts)),
        merged_blocks_first(parts) == block_first_data(concat_blocks(parts)),
    decreases parts.len(),
{
    if parts.len() > 0 {
        lemma_any_partition_format_first(parts.drop_last());
        lemma_block_partition_format(concat_blocks(parts.drop_last()), parts.last());
        lemma_block_partition_first(concat_blocks(parts.drop_last()), parts.last());
    } else {
        assert(block_format(Seq::empty()) =~= Seq::empty());
    }
}

proof fn lemma_items_obs_contains(items: Seq<Seq<char>>, alt: nat, j: int)
    requires
        0 <= j < items.len(),
        item_obs(items[j], alt) is Some,
    ensures
        exists|m: int| 0 <= m < items_obs(items, alt).len() && #[trigger] items_obs(items, alt)[m]
            == item_obs(items[j], alt)->0,
    decreases items.len(),
{
    let d = items.drop_last();
    let r = items_obs(d, alt);
    if j < items.len() - 1 {
        assert(d[j] == items[j]);
        lemma_items_obs_contains(d, alt, j);
        let m = choose|m: int| 0 <= m < r.len() && #[trigger] r[m] == item_obs(items[j], alt)->0;
        assert(items_obs(items, alt)[m] == r[m]);
    } else {
        assert(items_obs(items, alt)[r.len() as int] == item_obs(items[j], alt)->0);
    }
}

proof fn lemma_lines_obs_contains(lines: Seq<Seq<char>>, i: int, m: int)
    requires
        0 <= i < lines.len(),
        0 <= m < line_obs(lines[i]).len(),
    ensures
        exists|q: int| 0 <= q < lines_obs(lines).len() && #[trigger] lines_obs(lines)[q] == line_obs(lines[i])[m],
    decreases lines.len(),
{
    let d = lines.drop_last();
    let r = lines_obs(d);
    if i < lines.len() - 1 {
        assert(d[i] == lines[i]);
        lemma_lines_obs_contains(d, i, m);
        let q = choose|q: int| 0 <= q < r.len() && #[trigger] r[q] == line_obs(lines[i])[m];
        assert(lines_obs(lines)[q] == r[q]);
    } else {
        assert(lines_obs(lines)[r.len() + m] == line_obs(lines[i])[m]);
    }
}

proof fn lemma_fold_flag(m0: Map<Seq<char>, KeyStats>, obs: Seq<(Seq<char>, KeyStats)>, q: int)
    requires
        0 <= q < obs.len(),
        obs[q].1.seen_as_flag,
    ensures
        fold_obs(m0, obs).contains_key(obs[q].0),
        fold_obs(m0, obs)[obs[q].0].seen_as_flag,
    decreases obs.len(),
{
    if q < obs.len() - 1 {
        assert(obs.drop_last()[q] == obs[q]);
        lemma_fold_flag(m0, obs.drop_last(), q);
    }
}

/// A key that appears bare (without "=") in the INFO column of any data
/// line is declared `Number=0,Type=Flag`, whatever its other appearances.
pub proof fn lemma_bare_key_is_flag(lines: Seq<Seq<char>>, i: int, j: int)
    requires
        0 <= i < lines.len(),
        data_fields(lines[i]) is Some,
        data_fields(lines[i])->0.len() >= 8,
        0 <= j < split_on(data_fields(lines[i])->0[7], ';').len(),
        split_on(data_fields(lines[i])->0[7], ';')[j].len() > 0,
        index_of(split_on(data_fields(lines[i])->0[7], ';')[j], '=') == split_on(
            data_fields(lines[i])->0[7],
            ';',
        )[j].len(),
    ensures
        ({
            let k = split_on(data_fields(lines[i])->0[7], ';')[j];
            let m = table_map(block_info(lines));
            &&& m.contains_key(k)
            &&& m[k].seen_as_flag
            &&& info_number_text(m[k]) == "0"@
            &&& info_type_text(m[k]) == "Flag"@
        }),
{
    let f = data_fields(lines[i])->0;
    let items = split_on(f[7], ';');
    let alt = alt_count(f[4]);
    lemma_items_obs_contains(items, alt, j);
    let mi = choose|mi: int| 0 <= mi < items_obs(items, alt).len() && #[trigger] items_obs(items, alt)[mi]
        == item_obs(items[j], alt)->0;
    lemma_lines_obs_contains(lines, i, mi);
    let obs = lines_obs(lines);
    let q = choose|q: int| 0 <= q < obs.len() && #[trigger] obs[q] == line_obs(lines[i])[mi];
    lemma_fold_flag(Map::empty(), obs, q);
    lemma_absorb_all(Seq::empty(), obs);
    assert(table_map(Seq::<(Seq<char>, KeyStats)>::empty()) =~= Map::empty());
}

/// One appearance with a single integer value whose count equals the ALT count.
pub open spec fn single_int_alt_delta(d: KeyStats) -> bool {
    &&& !d.seen_as_flag
    &&& d.all_int
    &&& !d.any_float
    &&& d.all_singleton
    &&& d.matches_a == 1
    &&& d.samples == 1
}

/// A single integer value on a line with one ALT allele records such an appearance.
pub proof fn lemma_single_int_value(v: Seq<char>)
    requires
        split_on(v, ',').len() == 1,
        classify_spec(split_on(v, ',')[0]) == ValKind::Int,
    ensures
        single_int_alt_delta(value_delta(split_on(v, ','), 1)),
{
    let vals = split_on(v, ',');
    assert(vals.drop_last().len() == 0);
    assert(vals.last() == vals[0]);
    assert(all_int_vals(vals.drop_last()));
    assert(!any_float_vals(vals.drop_last()));
    assert(all_int_vals(vals));
    assert(!any_float_vals(vals));
}

proof fn lemma_fold_single_int(m0: Map<Seq<char>, KeyStats>, obs: Seq<(Seq<char>, KeyStats)>, k: Seq<char>)
    requires
        !m0.contains_key(k),
        forall|q: int| 0 <= q < obs.len() && #[trigger] obs[q].0 == k ==> single_int_alt_delta(obs[q].1),
    ensures
        fold_obs(m0, obs).contains_key(k) ==> ({
            let ks = fold_obs(m0, obs)[k];
            &&& !ks.seen_as_flag
            &&& ks.all_int
            &&& !ks.any_float
            &&& ks.matches_a == ks.samples
            &&& ks.samples >= 1
        }),
    decreases obs.len(),
{
    if obs.len() > 0 {
        let d = obs.drop_last();
        assert forall|q: int| 0 <= q < d.len() && #[trigger] d[q].0 == k implies single_int_alt_delta(d[q].1) by {
            assert(d[q] == obs[q]);
        }
        lemma_fold_single_int(m0, d, k);
        if obs.last().0 == k {
            assert(obs[obs.len() - 1].0 == k);
        }
    }
}

/// A key whose every appearance in a body has one integer value matching
/// the ALT count (and that appears at least once) is declared
/// `Number=A,Type=Integer`.
pub proof fn lemma_alt_count_key_is_integer_a(lines: Seq<Seq<char>>, k: Seq<char>)
    requires
        exists|q: int| 0 <= q < lines_obs(lines).len() && #[trigger] lines_obs(lines)[q].0 == k,
        forall|q: int|
            0 <= q < lines_obs(lines).len() && #[trigger] lines_obs(lines)[q].0 == k ==> single_int_alt_delta(
                lines_obs(lines)[q].1,
            ),
    ensures
        table_map(block_info(lines)).contains_key(k),
        info_number_text(table_map(block_info(lines))[k]) == "A"@,
        info_type_text(table_map(block_info(lines))[k]) == "Integer"@,
{
    let obs = lines_obs(lines);
    let q = choose|q: int| 0 <= q < obs.len() && #[trigger] obs[q].0 == k;
    lemma_fold_single_int(Map::empty(), obs, k);
    lemma_fold_contains(Map::empty(), obs, q);
    lemma_absorb_all(Seq::empty(), obs);
    assert(table_map(Seq::<(Seq<char>, KeyStats)>::empty()) =~= Map::empty());
}

proof fn lemma_fold_contains(m0: Map<Seq<char>, KeyStats>, obs: Seq<(Seq<char>, KeyStats)>, q: int)
    requires
        0 <= q < obs.len(),
    ensures
        fold_obs(m0, obs).contains_key(obs[q].0),
    decreases obs.len(),
{
    if q < obs.len() - 1 {
        assert(obs.drop_last()[q] == obs[q]);
        lemma_fold_contains(m0, obs.drop_last(), q);
    }
}

} // verus!
