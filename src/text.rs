//! Character-level helpers shared by the parsers and rewriters.

use vstd::prelude::*;

verus! {

pub open spec fn is_digit(c: char) -> bool {
    '0' <= c && c <= '9'
}

pub open spec fn digit_value(c: char) -> nat {
    (c as nat - '0' as nat) as nat
}

/// The number written by a sequence of decimal digits (zero when empty).
pub open spec fn decimal_value(s: Seq<char>) -> nat
    decreases s.len(),
{
    if s.len() == 0 {
        0
    } else {
        decimal_value(s.drop_last()) * 10 + digit_value(s.last())
    }
}

pub open spec fn all_digits(s: Seq<char>) -> bool {
    forall|i: int| 0 <= i < s.len() ==> is_digit(#[trigger] s[i])
}

pub fn is_digit_exec(c: char) -> (r: bool)
    ensures
        r == is_digit(c),
{
    '0' <= c && c <= '9'
}

/// Once a prefix of a digit run is worth more than `b`, so is the run.
pub proof fn lemma_decimal_value_grows(s: Seq<char>, k: int)
    requires
        0 <= k <= s.len(),
    ensures
        decimal_value(s.subrange(0, k)) <= decimal_value(s),
    decreases s.len() - k,
{
    if k < s.len() {
        lemma_decimal_value_grows(s, k + 1);
        assert(s.subrange(0, k + 1).drop_last() =~= s.subrange(0, k));
    } else {
        assert(s.subrange(0, k) =~= s);
    }
}

/// The characters of `s`, in order.
pub fn chars_of(s: &str) -> (r: Vec<char>)
    ensures
        r@ == s@,
{
    let mut out: Vec<char> = Vec::new();
    for c in it: s.chars()
        invariant
            out@ == it.seq().subrange(0, it.index() as int),
    {
        out.push(c);
    }
    out
}

/// The fields of `s` separated by `sep`; there is always at least one.
pub open spec fn split_on(s: Seq<char>, sep: char) -> Seq<Seq<char>>
    decreases s.len(),
{
    if s.len() == 0 {
        seq![Seq::empty()]
    } else {
        let r = split_on(s.drop_last(), sep);
        if s.last() == sep {
            r.push(Seq::empty())
        } else {
            r.update(r.len() - 1, r.last().push(s.last()))
        }
    }
}

/// The fields joined with `sep` between consecutive ones.
pub open spec fn join_with(fields: Seq<Seq<char>>, sep: char) -> Seq<char>
    decreases fields.len(),
{
    if fields.len() == 0 {
        Seq::empty()
    } else if fields.len() == 1 {
        fields[0]
    } else {
        join_with(fields.drop_last(), sep).push(sep) + fields.last()
    }
}

pub open spec fn strings_view(v: Seq<String>) -> Seq<Seq<char>> {
    v.map_values(|f: String| f@)
}

pub proof fn lemma_split_nonempty(s: Seq<char>, sep: char)
    ensures
        split_on(s, sep).len() >= 1,
    decreases s.len(),
{
    if s.len() > 0 {
        lemma_split_nonempty(s.drop_last(), sep);
    }
}

/// The characters `from..to` of `s`; `ascii` tells that `s` is ASCII, where
/// slicing needs no walk over the text.
fn field_text(s: &str, ascii: bool, from: usize, to: usize) -> (r: String)
    requires
        ascii == s.is_ascii(),
        from <= to <= s@.len(),
    ensures
        r@ == s@.subrange(from as int, to as int),
{
    if ascii {
        s.substring_ascii(from, to).to_owned()
    } else {
        s.substring_char(from, to).to_owned()
    }
}

/// Splits `line` at every `sep`.
pub fn split_fields(line: &str, sep: char) -> (r: Vec<String>)
    ensures
        strings_view(r@) == split_on(line@, sep),
{
    let s = chars_of(line);
    let n = s.len();
    let ascii = line.is_ascii();
    let mut out: Vec<String> = Vec::new();
    let mut start: usize = 0;
    let mut i: usize = 0;
    proof {
        let e = s@.subrange(0, 0);
        assert(e =~= Seq::<char>::empty());
        assert(split_on(e, sep) == seq![Seq::<char>::empty()]);
        assert(strings_view(out@) =~= Seq::<Seq<char>>::empty());
        assert(strings_view(out@).push(e) =~= split_on(e, sep));
    }
    while i < n
        invariant
            n == s.len(),
            s@ == line@,
            ascii == line.is_ascii(),
            start <= i <= n,
            strings_view(out@).push(s@.subrange(start as int, i as int)) == split_on(
                s@.subrange(0, i as int),
                sep,
            ),
        decreases n - i,
    {
        proof {
            lemma_split_nonempty(s@.subrange(0, i as int), sep);
            assert(s@.subrange(0, i + 1).drop_last() =~= s@.subrange(0, i as int));
        }
        if s[i] == sep {
            let f = field_text(line, ascii, start, i);
            let ghost prev = out@;
            out.push(f);
            assert(strings_view(out@) =~= strings_view(prev).push(f@));
            start = i + 1;
            assert(s@.subrange(start as int, i + 1) =~= Seq::<char>::empty());
        } else {
            assert(s@.subrange(start as int, i + 1) =~= s@.subrange(start as int, i as int).push(
                s@[i as int],
            ));
        }
        i = i + 1;
    }
    let f = field_text(line, ascii, start, n);
    let ghost prev = out@;
    out.push(f);
    assert(s@.subrange(0, n as int) =~= s@);
    assert(strings_view(out@) =~= strings_view(prev).push(f@));
    out
}

/// The value of the digits `s[a..b]`, or `None` when it exceeds `u64::MAX`.
pub fn digits_u64(s: &Vec<char>, a: usize, b: usize) -> (r: Option<u64>)
    requires
        a <= b <= s.len(),
        all_digits(s@.subrange(a as int, b as int)),
    ensures
        decimal_value(s@.subrange(a as int, b as int)) <= u64::MAX ==> r == Some(
            decimal_value(s@.subrange(a as int, b as int)) as u64,
        ),
        decimal_value(s@.subrange(a as int, b as int)) > u64::MAX ==> r is None,
{
    let ghost t = s@.subrange(a as int, b as int);
    let mut v: u64 = 0;
    let mut i: usize = a;
    assert(t.subrange(0, 0) =~= Seq::<char>::empty());
    while i < b
        invariant
            a <= i <= b <= s.len(),
            t == s@.subrange(a as int, b as int),
            all_digits(t),
            v as nat == decimal_value(t.subrange(0, i - a)),
        decreases b - i,
    {
        let ghost k = i - a;
        assert(is_digit(t[k]));
        assert(t[k] == s@[i as int]);
        let d = s[i] as u64 - '0' as u64;
        assert(t.subrange(0, k + 1).drop_last() =~= t.subrange(0, k));
        if v > (u64::MAX - d) / 10 {
            proof {
                assert(v * 10 + d > u64::MAX) by (nonlinear_arith)
                    requires
                        v > (u64::MAX - d) / 10,
                        d <= 9,
                ;
                lemma_decimal_value_grows(t, k + 1);
            }
            return None;
        }
        v = v * 10 + d;
        i = i + 1;
    }
    assert(t.subrange(0, b - a) =~= t);
    Some(v)
}

/// The value a text gives when read as an unsigned integer: an optional
/// '+' then at least one digit, within `u64`.
pub open spec fn parse_u64_spec(s: Seq<char>) -> Option<u64> {
    let body = if s.len() > 0 && s[0] == '+' { s.drop_first() } else { s };
    if body.len() > 0 && all_digits(body) && decimal_value(body) <= u64::MAX {
        Some(decimal_value(body) as u64)
    } else {
        None
    }
}

/// The value a text gives when read as a signed integer: an optional sign
/// then at least one digit, within `i64`.
pub open spec fn parse_i64_spec(s: Seq<char>) -> Option<i64> {
    let neg = s.len() > 0 && s[0] == '-';
    let body = if s.len() > 0 && (s[0] == '+' || s[0] == '-') { s.drop_first() } else { s };
    if body.len() > 0 && all_digits(body) {
        if neg && decimal_value(body) <= 0x8000_0000_0000_0000 {
            Some((0 - decimal_value(body)) as i64)
        } else if !neg && decimal_value(body) <= 0x7fff_ffff_ffff_ffff {
            Some(decimal_value(body) as i64)
        } else {
            None
        }
    } else {
        None
    }
}

fn all_digits_in(s: &Vec<char>, a: usize, b: usize) -> (r: bool)
    requires
        a <= b <= s.len(),
    ensures
        r == all_digits(s@.subrange(a as int, b as int)),
{
    let mut i: usize = a;
    while i < b
        invariant
            a <= i <= b <= s.len(),
            all_digits(s@.subrange(a as int, i as int)),
        decreases b - i,
    {
        if !is_digit_exec(s[i]) {
            assert(!is_digit(s@.subrange(a as int, b as int)[i - a]));
            return false;
        }
        assert forall|k: int| 0 <= k < i + 1 - a implies is_digit(
            #[trigger] s@.subrange(a as int, i + 1)[k],
        ) by {
            if k < i - a {
                assert(s@.subrange(a as int, i + 1)[k] == s@.subrange(a as int, i as int)[k]);
            }
        }
        i = i + 1;
    }
    true
}

/// Reads `s` as an unsigned integer.
pub fn parse_u64(s: &str) -> (r: Option<u64>)
    ensures
        r == parse_u64_spec(s@),
{
    let c = chars_of(s);
    let n = c.len();
    let a: usize = if n > 0 && c[0] == '+' { 1 } else { 0 };
    assert(c@.subrange(a as int, n as int) =~= (if n > 0 && c@[0] == '+' {
        s@.drop_first()
    } else {
        s@
    }));
    if a == n || !all_digits_in(&c, a, n) {
        return None;
    }
    digits_u64(&c, a, n)
}

/// Reads `s` as a signed integer.
pub fn parse_i64(s: &str) -> (r: Option<i64>)
    ensures
        r == parse_i64_spec(s@),
{
    let c = chars_of(s);
    let n = c.len();
    let neg = n > 0 && c[0] == '-';
    let a: usize = if n > 0 && (c[0] == '+' || c[0] == '-') { 1 } else { 0 };
    let ghost body = c@.subrange(a as int, n as int);
    assert(body =~= (if n > 0 && (c@[0] == '+' || c@[0] == '-') {
        s@.drop_first()
    } else {
        s@
    }));
    if a == n || !all_digits_in(&c, a, n) {
        return None;
    }
    match digits_u64(&c, a, n) {
        None => None,
        Some(v) => {
            if neg && v <= 0x8000_0000_0000_0000 {
                if v == 0x8000_0000_0000_0000 {
                    Some(i64::MIN)
                } else {
                    Some(0 - (v as i64))
                }
            } else if !neg && v <= 0x7fff_ffff_ffff_ffff {
                Some(v as i64)
            } else {
                None
            }
        },
    }
}

pub open spec fn digit_char(d: nat) -> char {
    if d == 0 {
        '0'
    } else if d == 1 {
        '1'
    } else if d == 2 {
        '2'
    } else if d == 3 {
        '3'
    } else if d == 4 {
        '4'
    } else if d == 5 {
        '5'
    } else if d == 6 {
        '6'
    } else if d == 7 {
        '7'
    } else if d == 8 {
        '8'
    } else {
        '9'
    }
}

/// The shortest decimal text of `n`.
pub open spec fn decimal_text(n: nat) -> Seq<char>
    decreases n,
{
    if n < 10 {
        seq![digit_char(n)]
    } else {
        decimal_text(n / 10).push(digit_char(n % 10))
    }
}

fn digit_str(d: u64) -> (r: &'static str)
    requires
        d < 10,
    ensures
        r@ == seq![digit_char(d as nat)],
{
    proof {
        reveal_strlit("0");
        reveal_strlit("1");
        reveal_strlit("2");
        reveal_strlit("3");
        reveal_strlit("4");
        reveal_strlit("5");
        reveal_strlit("6");
        reveal_strlit("7");
        reveal_strlit("8");
        reveal_strlit("9");
    }
    let r = if d == 0 {
        "0"
    } else if d == 1 {
        "1"
    } else if d == 2 {
        "2"
    } else if d == 3 {
        "3"
    } else if d == 4 {
        "4"
    } else if d == 5 {
        "5"
    } else if d == 6 {
        "6"
    } else if d == 7 {
        "7"
    } else if d == 8 {
        "8"
    } else {
        "9"
    };
    assert(r@ =~= seq![digit_char(d as nat)]);
    r
}

/// The decimal text of `n`.
pub fn u64_text(n: u64) -> (r: String)
    ensures
        r@ == decimal_text(n as nat),
    decreases n,
{
    if n < 10 {
        digit_str(n).to_owned()
    } else {
        let mut out = u64_text(n / 10);
        out.append(digit_str(n % 10));
        assert(out@ =~= decimal_text(n as nat));
        out
    }
}

/// Joins `fields` with a tab between consecutive ones.
pub fn join_tab(fields: &Vec<String>) -> (r: String)
    ensures
        r@ == join_with(strings_view(fields@), '\t'),
{
    let mut out = String::new();
    let n = fields.len();
    let mut i: usize = 0;
    proof {
        reveal_strlit("\t");
    }
    assert(strings_view(fields@.subrange(0, 0)) =~= Seq::<Seq<char>>::empty());
    while i < n
        invariant
            n == fields.len(),
            i <= n,
            out@ == join_with(strings_view(fields@.subrange(0, i as int)), '\t'),
        decreases n - i,
    {
        let ghost prev = strings_view(fields@.subrange(0, i as int));
        let ghost next = strings_view(fields@.subrange(0, i + 1));
        assert(next.drop_last() =~= prev);
        assert(next.last() == fields@[i as int]@);
        proof {
            reveal_strlit("\t");
        }
        if i > 0 {
            out.append("\t");
        }
        out.append(fields[i].as_str());
        proof {
            if i == 0 {
                assert(out@ =~= next[0]);
            } else {
                assert(out@ =~= join_with(prev, '\t').push('\t') + next.last());
            }
        }
        i = i + 1;
    }
    assert(fields@.subrange(0, n as int) =~= fields@);
    out
}

/// `k` occurs in `s` as a contiguous piece.
pub open spec fn contains_seq(s: Seq<char>, k: Seq<char>) -> bool {
    exists|i: int| 0 <= i && i + k.len() <= s.len() && #[trigger] s.subrange(i, i + k.len()) == k
}

fn occurs_at(s: &Vec<char>, k: &Vec<char>, i: usize) -> (r: bool)
    requires
        i + k.len() <= s.len(),
    ensures
        r == (s@.subrange(i as int, i + k.len()) == k@),
{
    let mut j: usize = 0;
    while j < k.len()
        invariant
            i + k.len() <= s.len(),
            j <= k.len(),
            forall|t: int| 0 <= t < j ==> s@[i + t] == k@[t],
        decreases k.len() - j,
    {
        if s[i + j] != k[j] {
            assert(s@.subrange(i as int, i + k.len())[j as int] != k@[j as int]);
            return false;
        }
        j = j + 1;
    }
    assert(s@.subrange(i as int, i + k.len()) =~= k@);
    true
}

/// Whether `k` occurs in `s`.
pub fn str_contains(s: &str, k: &str) -> (r: bool)
    ensures
        r == contains_seq(s@, k@),
{
    let a = chars_of(s);
    let b = chars_of(k);
    chars_contain(&a, &b)
}

/// Whether `b` occurs in `a`.
pub fn chars_contain(a: &Vec<char>, b: &Vec<char>) -> (r: bool)
    ensures
        r == contains_seq(a@, b@),
{
    if b.len() > a.len() {
        return false;
    }
    let last = a.len() - b.len();
    let mut i: usize = 0;
    while i <= last
        invariant
            last + b.len() == a.len(),
            forall|t: int| 0 <= t < i ==> #[trigger] a@.subrange(t, t + b.len()) != b@,
        decreases last + 1 - i,
    {
        if occurs_at(&a, &b, i) {
            return true;
        }
        if i == last {
            return false;
        }
        i = i + 1;
    }
    false
}

/// White space as std's `char::is_whitespace` defines it: the Unicode
/// White_Space property.
pub open spec fn is_space(c: char) -> bool {
    ||| ('\u{9}' <= c && c <= '\u{d}')
    ||| c == ' '
    ||| c == '\u{85}'
    ||| c == '\u{a0}'
    ||| c == '\u{1680}'
    ||| ('\u{2000}' <= c && c <= '\u{200a}')
    ||| c == '\u{2028}'
    ||| c == '\u{2029}'
    ||| c == '\u{202f}'
    ||| c == '\u{205f}'
    ||| c == '\u{3000}'
}

pub fn is_space_exec(c: char) -> (r: bool)
    ensures
        r == is_space(c),
{
    ('\u{9}' <= c && c <= '\u{d}') || c == ' ' || c == '\u{85}' || c == '\u{a0}' || c == '\u{1680}'
        || ('\u{2000}' <= c && c <= '\u{200a}') || c == '\u{2028}' || c == '\u{2029}' || c
        == '\u{202f}' || c == '\u{205f}' || c == '\u{3000}'
}

pub open spec fn lead_end(s: Seq<char>, i: int) -> int
    decreases s.len() - i,
{
    if 0 <= i < s.len() && is_space(s[i]) {
        lead_end(s, i + 1)
    } else {
        i
    }
}

pub open spec fn trail_start(s: Seq<char>, j: int, lo: int) -> int
    decreases j - lo,
{
    if lo < j && j <= s.len() && is_space(s[j - 1]) {
        trail_start(s, j - 1, lo)
    } else {
        j
    }
}

/// `s` without leading and trailing white space.
pub open spec fn trim_spec(s: Seq<char>) -> Seq<char> {
    let a = lead_end(s, 0);
    s.subrange(a, trail_start(s, s.len() as int, a))
}

/// `s` without leading and trailing white space.
pub fn trim(s: &str) -> (r: String)
    ensures
        r@ == trim_spec(s@),
{
    let c = chars_of(s);
    let n = c.len();
    let mut a: usize = 0;
    while a < n && is_space_exec(c[a])
        invariant
            a <= n == c.len(),
            lead_end(c@, 0) == lead_end(c@, a as int),
        decreases n - a,
    {
        a = a + 1;
    }
    let mut b: usize = n;
    while b > a && is_space_exec(c[b - 1])
        invariant
            a <= b <= n == c.len(),
            trail_start(c@, n as int, a as int) == trail_start(c@, b as int, a as int),
        decreases b - a,
    {
        b = b - 1;
    }
    s.substring_char(a, b).to_owned()
}

/// ASCII lower-casing of one character; others are unchanged.
pub open spec fn lower(c: char) -> char {
    if 'A' <= c && c <= 'Z' {
        ((c as u8) + 32) as u8 as char
    } else {
        c
    }
}

pub open spec fn lower_seq(s: Seq<char>) -> Seq<char> {
    s.map_values(|c: char| lower(c))
}

pub fn lower_exec(c: char) -> (r: char)
    ensures
        r == lower(c),
{
    if 'A' <= c && c <= 'Z' {
        ((c as u8) + 32) as char
    } else {
        c
    }
}

/// The characters of `s`, ASCII lower-cased.
pub fn lower_chars(s: &str) -> (r: Vec<char>)
    ensures
        r@ == lower_seq(s@),
{
    let c = chars_of(s);
    let mut out: Vec<char> = Vec::new();
    let mut i: usize = 0;
    while i < c.len()
        invariant
            i <= c.len(),
            c@ == s@,
            out@ == lower_seq(c@.subrange(0, i as int)),
        decreases c.len() - i,
    {
        out.push(lower_exec(c[i]));
        assert(lower_seq(c@.subrange(0, i + 1)) =~= lower_seq(c@.subrange(0, i as int)).push(
            lower(c@[i as int]),
        ));
        i = i + 1;
    }
    assert(c@.subrange(0, i as int) =~= c@);
    out
}

/// Whether two character sequences are equal.
pub fn chars_eq(a: &Vec<char>, b: &Vec<char>) -> (r: bool)
    ensures
        r == (a@ == b@),
{
    if a.len() != b.len() {
        return false;
    }
    let mut i: usize = 0;
    while i < a.len()
        invariant
            a.len() == b.len(),
            i <= a.len(),
            forall|k: int| 0 <= k < i ==> a@[k] == b@[k],
        decreases a.len() - i,
    {
        if a[i] != b[i] {
            return false;
        }
        i = i + 1;
    }
    assert(a@ =~= b@);
    true
}

/// Index of the first `sep` in `s` (the length when there is none).
pub open spec fn first_sep(s: Seq<char>, sep: char) -> int
    decreases s.len(),
{
    if s.len() == 0 {
        0
    } else {
        let f = first_sep(s.drop_last(), sep);
        if f < s.len() - 1 {
            f
        } else if s.last() == sep {
            s.len() - 1
        } else {
            s.len() as int
        }
    }
}

pub proof fn lemma_first_sep(s: Seq<char>, sep: char, k: int)
    requires
        0 <= k <= s.len(),
        k < s.len() ==> s[k] == sep,
        forall|i: int| 0 <= i < k ==> s[i] != sep,
    ensures
        first_sep(s, sep) == k,
    decreases s.len(),
{
    if s.len() > 0 {
        let t = s.drop_last();
        if k < s.len() - 1 {
            lemma_first_sep(t, sep, k);
        } else {
            lemma_first_sep(t, sep, t.len() as int);
        }
    }
}

/// The first field is the text before the first separator; there is one
/// field exactly when there is no separator.
pub proof fn lemma_split_first(s: Seq<char>, sep: char)
    ensures
        0 <= first_sep(s, sep) <= s.len(),
        split_on(s, sep).len() >= 1,
        split_on(s, sep)[0] == s.subrange(0, first_sep(s, sep)),
        (split_on(s, sep).len() == 1) == (first_sep(s, sep) == s.len()),
    decreases s.len(),
{
    if s.len() == 0 {
        assert(s.subrange(0, 0) =~= Seq::<char>::empty());
    } else {
        let t = s.drop_last();
        lemma_split_first(t, sep);
        let r = split_on(t, sep);
        if s.last() == sep {
            assert(s.subrange(0, first_sep(s, sep)) =~= t.subrange(0, first_sep(t, sep)));
        } else if r.len() == 1 {
            assert(s.subrange(0, first_sep(s, sep)) =~= t.subrange(0, first_sep(t, sep)).push(s.last()));
        } else {
            assert(s.subrange(0, first_sep(s, sep)) =~= t.subrange(0, first_sep(t, sep)));
        }
    }
}

proof fn lemma_join_push_last(r: Seq<Seq<char>>, c: char, sep: char)
    requires
        r.len() >= 1,
    ensures
        join_with(r.update(r.len() - 1, r.last().push(c)), sep) == join_with(r, sep).push(c),
{
    let u = r.update(r.len() - 1, r.last().push(c));
    if r.len() >= 2 {
        assert(u.drop_last() =~= r.drop_last());
        assert(join_with(u, sep) =~= join_with(r, sep).push(c));
    }
}

/// Joining the fields of a text gives the text back.
pub proof fn lemma_join_split(s: Seq<char>, sep: char)
    ensures
        join_with(split_on(s, sep), sep) == s,
    decreases s.len(),
{
    if s.len() > 0 {
        let t = s.drop_last();
        lemma_join_split(t, sep);
        lemma_split_nonempty(t, sep);
        let r = split_on(t, sep);
        if s.last() == sep {
            assert(r.push(Seq::<char>::empty()).drop_last() =~= r);
            assert(join_with(r.push(Seq::<char>::empty()), sep) =~= s);
        } else {
            lemma_join_push_last(r, s.last(), sep);
            assert(t.push(s.last()) =~= s);
        }
    }
}

/// The first field of joined fields is the first field itself when that
/// holds no separator; with two or more fields there are two or more again.
pub proof fn lemma_split_join_first(g: Seq<Seq<char>>, sep: char)
    requires
        g.len() >= 1,
        forall|j: int| 0 <= j < g[0].len() ==> g[0][j] != sep,
    ensures
        split_on(join_with(g, sep), sep)[0] == g[0],
        g.len() >= 2 ==> split_on(join_with(g, sep), sep).len() >= 2,
    decreases g.len(),
{
    let s = join_with(g, sep);
    if g.len() == 1 {
        lemma_first_sep(s, sep, s.len() as int);
    } else {
        lemma_join_prefix(g, sep);
        assert forall|i: int| 0 <= i < g[0].len() implies s[i] != sep by {
            assert(s[i] == s.subrange(0, g[0].len() as int)[i]);
        }
        lemma_first_sep(s, sep, g[0].len() as int);
    }
    lemma_split_first(s, sep);
    assert(s.subrange(0, g[0].len() as int) =~= g[0]);
}

/// Joined fields start with the first field, then a separator when there
/// are two or more.
proof fn lemma_join_prefix(g: Seq<Seq<char>>, sep: char)
    requires
        g.len() >= 1,
    ensures
        join_with(g, sep).len() >= g[0].len(),
        join_with(g, sep).subrange(0, g[0].len() as int) == g[0],
        g.len() >= 2 ==> join_with(g, sep).len() > g[0].len() && join_with(g, sep)[g[0].len() as int] == sep,
    decreases g.len(),
{
    if g.len() >= 2 {
        let d = g.drop_last();
        lemma_join_prefix(d, sep);
        let j = join_with(d, sep);
        assert(join_with(g, sep) == j.push(sep) + g.last());
        assert(d[0] == g[0]);
        assert(join_with(g, sep).subrange(0, g[0].len() as int) =~= j.subrange(0, g[0].len() as int));
        if g.len() == 2 {
            assert(j == g[0]);
            assert(join_with(g, sep)[g[0].len() as int] == sep);
        } else {
            assert(join_with(g, sep)[g[0].len() as int] == j[g[0].len() as int]);
        }
    }
}

/// No field of a split text holds the separator.
pub proof fn lemma_split_no_sep(s: Seq<char>, sep: char)
    ensures
        forall|i: int, j: int|
            0 <= i < split_on(s, sep).len() && 0 <= j < split_on(s, sep)[i].len() ==> #[trigger] split_on(
                s,
                sep,
            )[i][j] != sep,
    decreases s.len(),
{
    if s.len() > 0 {
        lemma_split_no_sep(s.drop_last(), sep);
        lemma_split_nonempty(s.drop_last(), sep);
        let r = split_on(s.drop_last(), sep);
        let u = split_on(s, sep);
        assert forall|i: int, j: int| 0 <= i < u.len() && 0 <= j < u[i].len() implies #[trigger] u[i][j]
            != sep by {
            if s.last() == sep {
                if i < r.len() {
                    assert(u[i] == r[i]);
                }
            } else {
                if i < r.len() - 1 {
                    assert(u[i] == r[i]);
                } else {
                    assert(u[i] == r.last().push(s.last()));
                    if j < r.last().len() {
                        assert(u[i][j] == r[r.len() - 1][j]);
                    }
                }
            }
        }
    }
}

/// Lexicographic order by character code (the order of the UTF-8 bytes,
/// which is how std orders strings).
pub open spec fn seq_lt(a: Seq<char>, b: Seq<char>) -> bool
    decreases a.len(),
{
    if a.len() == 0 {
        b.len() > 0
    } else if b.len() == 0 {
        false
    } else if a[0] != b[0] {
        a[0] < b[0]
    } else {
        seq_lt(a.drop_first(), b.drop_first())
    }
}

pub proof fn lemma_seq_lt_irreflexive(a: Seq<char>)
    ensures
        !seq_lt(a, a),
    decreases a.len(),
{
    if a.len() > 0 {
        lemma_seq_lt_irreflexive(a.drop_first());
    }
}

pub proof fn lemma_seq_lt_transitive(a: Seq<char>, b: Seq<char>, c: Seq<char>)
    requires
        seq_lt(a, b),
        seq_lt(b, c),
    ensures
        seq_lt(a, c),
    decreases a.len(),
{
    if a.len() > 0 && b.len() > 0 && c.len() > 0 && a[0] == b[0] && b[0] == c[0] {
        lemma_seq_lt_transitive(a.drop_first(), b.drop_first(), c.drop_first());
    }
}

/// Two different sequences are ordered one way or the other, never both.
pub proof fn lemma_seq_lt_total(a: Seq<char>, b: Seq<char>)
    ensures
        a != b ==> (seq_lt(a, b) || seq_lt(b, a)),
        !(seq_lt(a, b) && seq_lt(b, a)),
    decreases a.len(),
{
    if a.len() > 0 && b.len() > 0 && a[0] == b[0] {
        lemma_seq_lt_total(a.drop_first(), b.drop_first());
        if a != b {
            assert(a.drop_first() != b.drop_first()) by {
                if a.drop_first() == b.drop_first() {
                    assert(a =~= seq![a[0]] + a.drop_first());
                    assert(b =~= seq![b[0]] + b.drop_first());
                }
            }
        }
    } else if a.len() == 0 && b.len() == 0 {
        assert(a =~= b);
    }
}

/// Whether `a` orders before `b`.
pub fn str_lt(a: &str, b: &str) -> (r: bool)
    ensures
        r == seq_lt(a@, b@),
{
    let x = chars_of(a);
    let y = chars_of(b);
    let mut i: usize = 0;
    assert(x@.subrange(0, x.len() as int) =~= x@);
    assert(y@.subrange(0, y.len() as int) =~= y@);
    while i < x.len() && i < y.len() && x[i] == y[i]
        invariant
            i <= x.len(),
            i <= y.len(),
            seq_lt(x@, y@) == seq_lt(x@.subrange(i as int, x.len() as int), y@.subrange(i as int, y.len() as int)),
        decreases x.len() - i,
    {
        let ghost xs = x@.subrange(i as int, x.len() as int);
        let ghost ys = y@.subrange(i as int, y.len() as int);
        assert(xs.drop_first() =~= x@.subrange(i + 1, x.len() as int));
        assert(ys.drop_first() =~= y@.subrange(i + 1, y.len() as int));
        i = i + 1;
    }
    assert(x@.subrange(0, x.len() as int) =~= x@);
    assert(y@.subrange(0, y.len() as int) =~= y@);
    if i == x.len() {
        i < y.len()
    } else if i == y.len() {
        false
    } else {
        x[i] < y[i]
    }
}

} // verus!
