//! Header synthesis: splitting a variant file's header from its body,
//! contig declarations from the reference table, and the assembled header.

use vstd::prelude::*;
use crate::infer::{
    index_of_from, info_line_spec, format_line_spec, infer_format_def, infer_info_def_with_empty,
    find_key, lemma_find_key, unique_keys, trim_end, trim_end_spec, KeyStats, ValKind,
};
use crate::normalize::{apply_ignore_rules, normalize_spec};
use crate::stores::ref_row;
use crate::text::{
    lemma_seq_lt_irreflexive, lemma_seq_lt_total, lemma_seq_lt_transitive, seq_lt, str_lt, chars_of, decimal_text, parse_u64, parse_u64_spec, split_fields, split_on, strings_view, trim,
    trim_spec, u64_text,
};

verus! {

/// `p` is a prefix of `s`.
pub open spec fn has_prefix(s: Seq<char>, p: Seq<char>) -> bool {
    p.len() <= s.len() && s.subrange(0, p.len() as int) == p
}

/// Whether `s` starts with `p`.
pub fn starts_with(s: &str, p: &str) -> (r: bool)
    ensures
        r == has_prefix(s@, p@),
{
    let a = chars_of(s);
    let b = chars_of(p);
    if b.len() > a.len() {
        return false;
    }
    let mut i: usize = 0;
    while i < b.len()
        invariant
            b.len() <= a.len(),
            i <= b.len(),
            a@ == s@,
            b@ == p@,
            forall|k: int| 0 <= k < i ==> a@[k] == b@[k],
        decreases b.len() - i,
    {
        if a[i] != b[i] {
            assert(a@.subrange(0, b.len() as int)[i as int] != b@[i as int]);
            return false;
        }
        i = i + 1;
    }
    assert(a@.subrange(0, b.len() as int) =~= b@);
    true
}

/// The column header line of a variant file.
pub open spec fn is_column_header(l: Seq<char>) -> bool {
    has_prefix(l, "#CHROM\t"@) || has_prefix(l, "#CHROM "@)
}

/// Index of the first line at or after `i` that does not start with "##".
pub open spec fn meta_end(lines: Seq<Seq<char>>, i: int) -> int
    decreases lines.len() - i,
{
    if 0 <= i < lines.len() && has_prefix(lines[i], "##"@) {
        meta_end(lines, i + 1)
    } else {
        i
    }
}

/// How a file splits into meta lines, an optional column header, and the
/// index where the body starts.
pub open spec fn header_split(lines: Seq<Seq<char>>) -> (Seq<Seq<char>>, Option<Seq<char>>, int) {
    let h = meta_end(lines, 0);
    let pre = lines.subrange(0, h).map_values(|l: Seq<char>| trim_end_spec(l));
    if h < lines.len() && is_column_header(lines[h]) {
        (pre, Some(trim_end_spec(lines[h])), h + 1)
    } else {
        (pre, None, h)
    }
}

/// Splits the lines of a variant file into its meta lines (trailing white
/// space removed), its column header, and the index where the body starts.
pub fn split_header_lines(lines: &Vec<String>) -> (r: (Vec<String>, Option<String>, usize))
    ensures
        strings_view(r.0@) == header_split(strings_view(lines@)).0,
        crate::normalize::opt_view(r.1) == header_split(strings_view(lines@)).1,
        r.2 as int == header_split(strings_view(lines@)).2,
{
    let ghost lv = strings_view(lines@);
    let mut pre: Vec<String> = Vec::new();
    let mut i: usize = 0;
    while i < lines.len() && starts_with(lines[i].as_str(), "##")
        invariant
            i <= lines.len(),
            lv == strings_view(lines@),
            meta_end(lv, 0) == meta_end(lv, i as int),
            strings_view(pre@) == lv.subrange(0, i as int).map_values(|l: Seq<char>| trim_end_spec(l)),
        decreases lines.len() - i,
    {
        assert(lv[i as int] == lines@[i as int]@);
        let t = trim_end(lines[i].as_str());
        let ghost before = strings_view(pre@);
        pre.push(t);
        assert(strings_view(pre@) =~= before.push(t@));
        assert(lv.subrange(0, i + 1).map_values(|l: Seq<char>| trim_end_spec(l)) =~= lv.subrange(
            0,
            i as int,
        ).map_values(|l: Seq<char>| trim_end_spec(l)).push(trim_end_spec(lv[i as int])));
        i = i + 1;
    }
    proof {
        if i < lines.len() {
            assert(lv[i as int] == lines@[i as int]@);
        }
    }
    if i < lines.len() && (starts_with(lines[i].as_str(), "#CHROM\t") || starts_with(
        lines[i].as_str(),
        "#CHROM ",
    )) {
        let h = trim_end(lines[i].as_str());
        (pre, Some(h), i + 1)
    } else {
        (pre, None, i)
    }
}

/// Entries seen through their keys' views.
pub open spec fn kv_view<V>(t: Seq<(String, V)>) -> Seq<(Seq<char>, V)> {
    t.map_values(|e: (String, V)| (e.0@, e.1))
}

/// Keys strictly ascending.
pub open spec fn keys_ascending<V>(t: Seq<(Seq<char>, V)>) -> bool {
    forall|i: int, j: int| 0 <= i < j < t.len() ==> seq_lt(t[i].0, t[j].0)
}

/// How many leading entries order before `k`: where `k` goes in a sorted table.
pub open spec fn lt_count<V>(t: Seq<(Seq<char>, V)>, k: Seq<char>) -> int
    decreases t.len(),
{
    if t.len() == 0 {
        0
    } else if seq_lt(t[0].0, k) {
        1 + lt_count(t.drop_first(), k)
    } else {
        0
    }
}

/// `e` inserted at its place by key.
pub open spec fn sort_insert<V>(t: Seq<(Seq<char>, V)>, e: (Seq<char>, V)) -> Seq<(Seq<char>, V)> {
    t.insert(lt_count(t, e.0), e)
}

/// The entries of `t` ordered by key.
pub open spec fn sorted_entries<V>(t: Seq<(Seq<char>, V)>) -> Seq<(Seq<char>, V)>
    decreases t.len(),
{
    if t.len() == 0 {
        Seq::empty()
    } else {
        sort_insert(sorted_entries(t.drop_last()), t.last())
    }
}

proof fn lemma_lt_count<V>(t: Seq<(Seq<char>, V)>, k: Seq<char>)
    ensures
        0 <= lt_count(t, k) <= t.len(),
        forall|i: int| 0 <= i < lt_count(t, k) ==> seq_lt(#[trigger] t[i].0, k),
        lt_count(t, k) < t.len() ==> !seq_lt(t[lt_count(t, k)].0, k),
    decreases t.len(),
{
    if t.len() > 0 && seq_lt(t[0].0, k) {
        lemma_lt_count(t.drop_first(), k);
        assert forall|i: int| 0 <= i < lt_count(t, k) implies seq_lt(#[trigger] t[i].0, k) by {
            if i > 0 {
                assert(t[i] == t.drop_first()[i - 1]);
            }
        }
    }
}

/// Inserting a new key at its place keeps the keys ascending.
pub proof fn lemma_sort_insert_ascending<V>(t: Seq<(Seq<char>, V)>, e: (Seq<char>, V))
    requires
        keys_ascending(t),
        forall|i: int| 0 <= i < t.len() ==> #[trigger] t[i].0 != e.0,
    ensures
        keys_ascending(sort_insert(t, e)),
{
    lemma_lt_count(t, e.0);
    let p = lt_count(t, e.0);
    let u = sort_insert(t, e);
    if p < t.len() {
        lemma_seq_lt_total(t[p].0, e.0);
    }
    assert forall|i: int| p <= i < t.len() implies seq_lt(e.0, #[trigger] t[i].0) by {
        if i > p {
            lemma_seq_lt_transitive(e.0, t[p].0, t[i].0);
        }
    }
    assert forall|i: int, j: int| 0 <= i < j < u.len() implies seq_lt(u[i].0, u[j].0) by {
        if j < p {
            assert(u[i] == t[i] && u[j] == t[j]);
        } else if j == p {
            assert(u[i] == t[i]);
        } else if i < p {
            assert(u[i] == t[i] && u[j] == t[j - 1]);
            lemma_seq_lt_transitive(t[i].0, e.0, t[j - 1].0);
        } else if i == p {
            assert(u[j] == t[j - 1]);
        } else {
            assert(u[i] == t[i - 1] && u[j] == t[j - 1]);
        }
    }
}

proof fn lemma_ascending_unique<V>(t: Seq<(Seq<char>, V)>)
    requires
        keys_ascending(t),
    ensures
        unique_keys(t),
{
    assert forall|i: int, j: int| 0 <= i < j < t.len() implies t[i].0 != t[j].0 by {
        lemma_seq_lt_irreflexive(t[i].0);
    }
}

proof fn lemma_sorted_entries<V>(t: Seq<(Seq<char>, V)>, k: Seq<char>)
    ensures
        sorted_entries(t).len() == t.len(),
        (forall|j: int| 0 <= j < t.len() ==> #[trigger] t[j].0 != k) ==> (forall|i: int|
            0 <= i < sorted_entries(t).len() ==> #[trigger] sorted_entries(t)[i].0 != k),
    decreases t.len(),
{
    if t.len() > 0 {
        let s = sorted_entries(t.drop_last());
        lemma_sorted_entries(t.drop_last(), k);
        lemma_lt_count(s, t.last().0);
        if forall|j: int| 0 <= j < t.len() ==> #[trigger] t[j].0 != k {
            assert forall|j: int| 0 <= j < t.drop_last().len() implies #[trigger] t.drop_last()[j].0 != k by {
                assert(t.drop_last()[j] == t[j]);
            }
            let p = lt_count(s, t.last().0);
            assert forall|i: int| 0 <= i < sorted_entries(t).len() implies #[trigger] sorted_entries(t)[i].0
                != k by {
                if i < p {
                    assert(sorted_entries(t)[i] == s[i]);
                } else if i > p {
                    assert(sorted_entries(t)[i] == s[i - 1]);
                }
            }
        }
    }
}

/// A table with unique keys, ordered by key, has ascending keys.
pub proof fn lemma_sorted_entries_ascending<V>(t: Seq<(Seq<char>, V)>)
    requires
        unique_keys(t),
    ensures
        keys_ascending(sorted_entries(t)),
    decreases t.len(),
{
    if t.len() > 0 {
        let d = t.drop_last();
        assert(unique_keys(d));
        lemma_sorted_entries_ascending(d);
        assert forall|j: int| 0 <= j < d.len() implies #[trigger] d[j].0 != t.last().0 by {
            assert(d[j] == t[j]);
        }
        lemma_sorted_entries(d, t.last().0);
        lemma_sort_insert_ascending(sorted_entries(d), t.last());
    }
}

/// Where key `k` goes in a table sorted by key.
fn sorted_pos<V>(t: &Vec<(String, V)>, k: &str) -> (p: usize)
    ensures
        p as int == lt_count(kv_view(t@), k@),
        p <= t.len(),
{
    let ghost v = kv_view(t@);
    let mut i: usize = 0;
    assert(v.subrange(0, v.len() as int) =~= v);
    while i < t.len() && str_lt(t[i].0.as_str(), k)
        invariant
            i <= t.len(),
            v == kv_view(t@),
            lt_count(v, k@) == i + lt_count(v.subrange(i as int, v.len() as int), k@),
        decreases t.len() - i,
    {
        let ghost w = v.subrange(i as int, v.len() as int);
        assert(w[0] == v[i as int]);
        assert(w.drop_first() =~= v.subrange(i + 1, v.len() as int));
        i = i + 1;
    }
    proof {
        let w = v.subrange(i as int, v.len() as int);
        if i < t.len() {
            assert(w[0] == v[i as int]);
        }
        lemma_lt_count(v, k@);
    }
    i
}

/// A copy of `t` ordered by key.
pub fn sorted_copy<V: Copy>(t: &Vec<(String, V)>) -> (r: Vec<(String, V)>)
    ensures
        kv_view(r@) == sorted_entries(kv_view(t@)),
{
    let mut r: Vec<(String, V)> = Vec::new();
    let mut i: usize = 0;
    assert(kv_view(r@) =~= sorted_entries(kv_view(t@).subrange(0, 0)));
    while i < t.len()
        invariant
            i <= t.len(),
            kv_view(r@) == sorted_entries(kv_view(t@).subrange(0, i as int)),
        decreases t.len() - i,
    {
        let ghost sub = kv_view(t@).subrange(0, i + 1);
        assert(sub.drop_last() =~= kv_view(t@).subrange(0, i as int));
        let k = t[i].0.clone();
        let v = t[i].1;
        let p = sorted_pos(&r, k.as_str());
        let ghost before = kv_view(r@);
        r.insert(p, (k, v));
        assert(kv_view(r@) =~= before.insert(p as int, (k@, v)));
        i = i + 1;
    }
    assert(kv_view(t@).subrange(0, i as int) =~= kv_view(t@));
    r
}

/// The contig a reference row contributes: its path and its end coordinate
/// (third column; zero when unreadable). Rows without a path give none.
pub open spec fn contig_row(line: Seq<char>) -> Option<(Seq<char>, u64)> {
    let f = split_on(trim_spec(line), '\t');
    match ref_row(line) {
        Some((_, _, p, _)) => if p.len() > 0 {
            Some(
                (
                    p,
                    match parse_u64_spec(trim_spec(f[2])) {
                        Some(e) => e,
                        None => 0,
                    },
                ),
            )
        } else {
            None
        },
        None => None,
    }
}

/// Adds `(k, v)` to a table, ordered by key, that keeps the largest value
/// per key.
pub open spec fn max_absorb(t: Seq<(Seq<char>, u64)>, k: Seq<char>, v: u64) -> Seq<(Seq<char>, u64)> {
    match find_key(t, k) {
        Some(i) => t.update(i, (k, if t[i].1 >= v { t[i].1 } else { v })),
        None => sort_insert(t, (k, v)),
    }
}

/// Contig ids (paths normalized at `level`; rejected paths left out) with
/// the largest end coordinate seen for each, in ascending order of id.
pub open spec fn contig_table_spec(lines: Seq<Seq<char>>, level: u8) -> Seq<(Seq<char>, u64)>
    decreases lines.len(),
{
    if lines.len() == 0 {
        Seq::empty()
    } else {
        let t = contig_table_spec(lines.drop_last(), level);
        match contig_row(lines.last()) {
            Some((p, e)) => match normalize_spec(p, level) {
                Some(id) => max_absorb(t, id, e),
                None => t,
            },
            None => t,
        }
    }
}

pub open spec fn contig_line_spec(id: Seq<char>, len: u64) -> Seq<char> {
    if len > 0 {
        "##contig=<ID="@ + id + ",length="@ + decimal_text(len as nat) + ">"@
    } else {
        "##contig=<ID="@ + id + ">"@
    }
}

/// The contig of one reference row.
pub fn reference_contig(line: &str) -> (r: Option<(String, u64)>)
    ensures
        match r {
            Some((p, e)) => contig_row(line@) == Some((p@, e)),
            None => contig_row(line@) is None,
        },
{
    let t = trim(line);
    let f = split_fields(t.as_str(), '\t');
    let ghost fv = strings_view(f@);
    if f.len() < 4 {
        return None;
    }
    assert(fv[0] == f@[0]@ && fv[2] == f@[2]@);
    assert(fv.last() == f@[f.len() - 1]@);
    if parse_u64(trim(f[0].as_str()).as_str()).is_none() {
        return None;
    }
    let p = trim(f[f.len() - 1].as_str());
    if p.as_str().unicode_len() == 0 {
        return None;
    }
    let e = match parse_u64(trim(f[2].as_str()).as_str()) {
        Some(e) => e,
        None => 0,
    };
    Some((p, e))
}

fn max_absorb_exec(t: &mut Vec<(String, u64)>, k: String, v: u64)
    requires
        keys_ascending(kv_view(old(t)@)),
    ensures
        kv_view(final(t)@) == max_absorb(kv_view(old(t)@), k@, v),
        keys_ascending(kv_view(final(t)@)),
{
    let ghost tv = kv_view(t@);
    let mut i: usize = t.len();
    assert(tv.subrange(0, i as int) =~= tv);
    while i > 0
        invariant
            i <= t.len(),
            t@ == old(t)@,
            tv == kv_view(t@),
            keys_ascending(tv),
            find_key(tv, k@) == find_key(tv.subrange(0, i as int), k@),
        decreases i,
    {
        let ghost sub = tv.subrange(0, i as int);
        assert(sub.drop_last() =~= tv.subrange(0, i - 1));
        assert(sub.last() == tv[i - 1]);
        if t[i - 1].0 == k {
            let m = if t[i - 1].1 >= v { t[i - 1].1 } else { v };
            t[i - 1] = (k, m);
            assert(kv_view(t@) =~= max_absorb(tv, k@, v));
            assert(keys_ascending(kv_view(t@))) by {
                assert forall|a: int, b: int| 0 <= a < b < kv_view(t@).len() implies seq_lt(
                    kv_view(t@)[a].0,
                    kv_view(t@)[b].0,
                ) by {
                    assert(kv_view(t@)[a].0 == tv[a].0 && kv_view(t@)[b].0 == tv[b].0);
                }
            }
            return;
        }
        i = i - 1;
    }
    proof {
        lemma_ascending_unique(tv);
        lemma_find_key(tv, k@);
        lemma_sort_insert_ascending(tv, (k@, v));
    }
    let p = sorted_pos(t, k.as_str());
    t.insert(p, (k, v));
    assert(kv_view(t@) =~= sort_insert(tv, (k@, v)));
}

/// Groups the paths of a reference table by their normalized id at
/// `level`, keeping the largest end coordinate of each id.
/// The table is ordered by id.
pub fn contig_table(lines: &Vec<String>, level: u8) -> (r: Vec<(String, u64)>)
    ensures
        kv_view(r@) == contig_table_spec(strings_view(lines@), level),
        keys_ascending(kv_view(r@)),
{
    let mut t: Vec<(String, u64)> = Vec::new();
    assert(kv_view(t@) =~= Seq::empty());
    let mut i: usize = 0;
    while i < lines.len()
        invariant
            i <= lines.len(),
            kv_view(t@) == contig_table_spec(strings_view(lines@.subrange(0, i as int)), level),
            keys_ascending(kv_view(t@)),
        decreases lines.len() - i,
    {
        let ghost next = strings_view(lines@.subrange(0, i + 1));
        assert(next.drop_last() =~= strings_view(lines@.subrange(0, i as int)));
        assert(next.last() == lines@[i as int]@);
        match reference_contig(lines[i].as_str()) {
            Some((p, e)) => match apply_ignore_rules(p.as_str(), level) {
                Some(id) => max_absorb_exec(&mut t, id, e),
                None => {},
            },
            None => {},
        }
        i = i + 1;
    }
    assert(lines@.subrange(0, i as int) =~= lines@);
    t
}

/// The contig declaration of `id` (with its length when positive).
pub fn contig_line(id: &str, len: u64) -> (r: String)
    ensures
        r@ == contig_line_spec(id@, len),
{
    let mut out = "##contig=<ID=".to_owned();
    out.append(id);
    if len > 0 {
        out.append(",length=");
        let n = u64_text(len);
        out.append(n.as_str());
    }
    out.append(">");
    out
}

/// The contig declarations of a contig table, in order.
pub fn contig_lines(t: &Vec<(String, u64)>) -> (r: Vec<String>)
    ensures
        strings_view(r@) == kv_view(t@).map_values(|e: (Seq<char>, u64)| contig_line_spec(e.0, e.1)),
{
    let mut out: Vec<String> = Vec::new();
    let mut i: usize = 0;
    while i < t.len()
        invariant
            i <= t.len(),
            strings_view(out@) == kv_view(t@).subrange(0, i as int).map_values(
                |e: (Seq<char>, u64)| contig_line_spec(e.0, e.1),
            ),
        decreases t.len() - i,
    {
        let l = contig_line(t[i].0.as_str(), t[i].1);
        let ghost before = strings_view(out@);
        out.push(l);
        assert(strings_view(out@) =~= before.push(l@));
        assert(kv_view(t@).subrange(0, i + 1).map_values(
            |e: (Seq<char>, u64)| contig_line_spec(e.0, e.1),
        ) =~= kv_view(t@).subrange(0, i as int).map_values(
            |e: (Seq<char>, u64)| contig_line_spec(e.0, e.1),
        ).push(contig_line_spec(t@[i as int].0@, t@[i as int].1)));
        i = i + 1;
    }
    assert(kv_view(t@).subrange(0, i as int) =~= kv_view(t@));
    out
}

/// The first meta line declaring the file format.
pub open spec fn fileformat_of(pre: Seq<Seq<char>>) -> Option<Seq<char>>
    decreases pre.len(),
{
    if pre.len() == 0 {
        None
    } else {
        match fileformat_of(pre.drop_last()) {
            Some(x) => Some(x),
            None => if has_prefix(pre.last(), "##fileformat="@) {
                Some(pre.last())
            } else {
                None
            },
        }
    }
}

/// Existing INFO, FORMAT and FILTER declarations are carried over.
pub open spec fn is_kept_decl(l: Seq<char>) -> bool {
    has_prefix(l, "##INFO=<ID="@) || has_prefix(l, "##FORMAT=<ID="@) || has_prefix(l, "##FILTER=<"@)
}

pub open spec fn kept_decls(pre: Seq<Seq<char>>) -> Seq<Seq<char>>
    decreases pre.len(),
{
    if pre.len() == 0 {
        Seq::empty()
    } else if is_kept_decl(pre.last()) {
        kept_decls(pre.drop_last()).push(pre.last())
    } else {
        kept_decls(pre.drop_last())
    }
}

/// The id a declaration line with `prefix` declares: the text after the
/// prefix up to the first comma.
pub open spec fn declared_id(l: Seq<char>, prefix: Seq<char>) -> Option<Seq<char>> {
    if has_prefix(l, prefix) {
        let rest = l.subrange(prefix.len() as int, l.len() as int);
        Some(rest.subrange(0, index_of_from(rest, ',', 0)))
    } else {
        None
    }
}

pub open spec fn declared(pre: Seq<Seq<char>>, prefix: Seq<char>, k: Seq<char>) -> bool {
    exists|i: int| 0 <= i < pre.len() && #[trigger] declared_id(pre[i], prefix) == Some(k)
}

/// INFO declarations for the inferred keys that the meta lines do not declare.
pub open spec fn new_info_lines(pre: Seq<Seq<char>>, info: Seq<(Seq<char>, KeyStats)>) -> Seq<Seq<char>>
    decreases info.len(),
{
    if info.len() == 0 {
        Seq::empty()
    } else {
        let r = new_info_lines(pre, info.drop_last());
        let e = info.last();
        if declared(pre, "##INFO=<ID="@, e.0) {
            r
        } else {
            r.push(info_line_spec(e.0, e.1, true))
        }
    }
}

/// FORMAT declarations for the inferred keys that the meta lines do not declare.
pub open spec fn new_format_lines(pre: Seq<Seq<char>>, fmt: Seq<(Seq<char>, (ValKind, usize))>) -> Seq<Seq<char>>
    decreases fmt.len(),
{
    if fmt.len() == 0 {
        Seq::empty()
    } else {
        let r = new_format_lines(pre, fmt.drop_last());
        let e = fmt.last();
        if declared(pre, "##FORMAT=<ID="@, e.0) {
            r
        } else {
            r.push(format_line_spec(e.0, Some(e.1.0), Some(e.1.1)))
        }
    }
}

/// The synthesized header: file format, source, contigs, carried-over
/// declarations, new INFO and FORMAT declarations (each ordered by key),
/// column header.
pub open spec fn header_spec(
    pre: Seq<Seq<char>>,
    column_header: Option<Seq<char>>,
    info: Seq<(Seq<char>, KeyStats)>,
    fmt: Seq<(Seq<char>, (ValKind, usize))>,
    contigs: Seq<Seq<char>>,
) -> Seq<Seq<char>> {
    let ff = match fileformat_of(pre) {
        Some(x) => x,
        None => "##fileformat=VCFv4.2"@,
    };
    let ch = match column_header {
        Some(x) => x,
        None => "#CHROM\tPOS\tID\tREF\tALT\tQUAL\tFILTER\tINFO\tFORMAT"@,
    };
    seq![ff, "##source=gfa2bin-aligner/header"@] + contigs + kept_decls(pre) + new_info_lines(
        pre,
        sorted_entries(info),
    ) + new_format_lines(pre, sorted_entries(fmt)) + seq![ch]
}

fn declared_id_is(l: &str, prefix: &str, k: &str) -> (r: bool)
    ensures
        r == (declared_id(l@, prefix@) == Some(k@)),
{
    if !starts_with(l, prefix) {
        return false;
    }
    let c = chars_of(l);
    let a = prefix.unicode_len();
    let ghost rest = l@.subrange(a as int, l@.len() as int);
    let mut e: usize = a;
    while e < c.len() && c[e] != ','
        invariant
            a <= e <= c.len(),
            c@ == l@,
            rest == c@.subrange(a as int, c@.len() as int),
            index_of_from(rest, ',', 0) == index_of_from(rest, ',', e - a),
        decreases c.len() - e,
    {
        assert(rest[e - a] == c@[e as int]);
        e = e + 1;
    }
    assert(rest.subrange(0, e - a) =~= l@.subrange(a as int, e as int));
    let id = l.substring_char(a, e);
    let kc = chars_of(k);
    let ic = chars_of(id);
    crate::text::chars_eq(&ic, &kc)
}

/// Whether a meta line with `prefix` declares `k`.
fn is_declared(pre: &Vec<String>, prefix: &str, k: &str) -> (r: bool)
    ensures
        r == declared(strings_view(pre@), prefix@, k@),
{
    let ghost pv = strings_view(pre@);
    let mut i: usize = 0;
    while i < pre.len()
        invariant
            i <= pre.len(),
            pv == strings_view(pre@),
            forall|j: int| 0 <= j < i ==> #[trigger] declared_id(pv[j], prefix@) != Some(k@),
        decreases pre.len() - i,
    {
        assert(pv[i as int] == pre@[i as int]@);
        if declared_id_is(pre[i].as_str(), prefix, k) {
            return true;
        }
        i = i + 1;
    }
    false
}

/// Assembles the header of the output file from the input's meta lines and
/// column header, the inferred INFO and FORMAT tables, and the contig lines.
/// Keys the meta lines already declare are not declared again.
pub fn synthesize_header(
    pre: &Vec<String>,
    column_header: &Option<String>,
    info: &Vec<(String, KeyStats)>,
    format: &Vec<(String, (ValKind, usize))>,
    contigs: &Vec<String>,
) -> (r: Vec<String>)
    ensures
        strings_view(r@) == header_spec(
            strings_view(pre@),
            crate::normalize::opt_view(*column_header),
            kv_view(info@),
            kv_view(format@),
            strings_view(contigs@),
        ),
{
    let info_s = sorted_copy(info);
    let format_s = sorted_copy(format);
    let ghost iv = kv_view(info_s@);
    let ghost fv = kv_view(format_s@);
    let ghost pv = strings_view(pre@);
    let mut out: Vec<String> = Vec::new();
    // file format line
    let mut ff: Option<String> = None;
    let mut i: usize = 0;
    while i < pre.len()
        invariant
            i <= pre.len(),
            pv == strings_view(pre@),
            crate::normalize::opt_view(ff) == fileformat_of(pv.subrange(0, i as int)),
        decreases pre.len() - i,
    {
        let ghost sub = pv.subrange(0, i + 1);
        assert(sub.drop_last() =~= pv.subrange(0, i as int));
        assert(sub.last() == pre@[i as int]@);
        if ff.is_none() && starts_with(pre[i].as_str(), "##fileformat=") {
            ff = Some(pre[i].clone());
        }
        i = i + 1;
    }
    assert(pv.subrange(0, i as int) =~= pv);
    let ghost ffv = match fileformat_of(pv) {
        Some(x) => x,
        None => "##fileformat=VCFv4.2"@,
    };
    let ghost cv = strings_view(contigs@);
    let ghost head = seq![ffv, "##source=gfa2bin-aligner/header"@];
    match ff {
        Some(x) => out.push(x),
        None => out.push("##fileformat=VCFv4.2".to_owned()),
    }
    out.push("##source=gfa2bin-aligner/header".to_owned());
    assert(strings_view(out@) =~= head);
    assert(cv.subrange(0, 0) =~= Seq::<Seq<char>>::empty());
    // contigs
    let mut j: usize = 0;
    while j < contigs.len()
        invariant
            j <= contigs.len(),
            cv == strings_view(contigs@),
            strings_view(out@) == head + cv.subrange(0, j as int),
        decreases contigs.len() - j,
    {
        let ghost before = strings_view(out@);
        out.push(contigs[j].clone());
        assert(strings_view(out@) =~= before.push(contigs@[j as int]@));
        assert(cv.subrange(0, j + 1) =~= cv.subrange(0, j as int).push(contigs@[j as int]@));
        assert(head + cv.subrange(0, j + 1) =~= (head + cv.subrange(0, j as int)).push(
            contigs@[j as int]@,
        ));
        j = j + 1;
    }
    assert(cv.subrange(0, j as int) =~= cv);
    assert(pv.subrange(0, 0) =~= Seq::<Seq<char>>::empty());
    assert(head + cv + kept_decls(pv.subrange(0, 0)) =~= head + cv);
    // carried-over declarations
    let mut i: usize = 0;
    while i < pre.len()
        invariant
            i <= pre.len(),
            pv == strings_view(pre@),
            strings_view(out@) == head + cv + kept_decls(pv.subrange(0, i as int)),
        decreases pre.len() - i,
    {
        let ghost sub = pv.subrange(0, i + 1);
        assert(sub.drop_last() =~= pv.subrange(0, i as int));
        assert(sub.last() == pre@[i as int]@);
        let l = pre[i].as_str();
        if starts_with(l, "##INFO=<ID=") || starts_with(l, "##FORMAT=<ID=") || starts_with(
            l,
            "##FILTER=<",
        ) {
            let ghost before = strings_view(out@);
            out.push(pre[i].clone());
            assert(strings_view(out@) =~= before.push(pre@[i as int]@));
            assert(head + cv + kept_decls(sub) =~= (head + cv + kept_decls(
                pv.subrange(0, i as int),
            )).push(pre@[i as int]@));
        }
        i = i + 1;
    }
    assert(pv.subrange(0, i as int) =~= pv);
    let ghost kd = kept_decls(pv);
    assert(iv.subrange(0, 0) =~= Seq::<(Seq<char>, KeyStats)>::empty());
    assert(head + cv + kd + new_info_lines(pv, iv.subrange(0, 0)) =~= head + cv + kd);
    // new INFO declarations
    let mut k: usize = 0;
    while k < info_s.len()
        invariant
            k <= info_s.len(),
            pv == strings_view(pre@),
            iv == kv_view(info_s@),
            strings_view(out@) == head + cv + kd + new_info_lines(pv, iv.subrange(0, k as int)),
        decreases info_s.len() - k,
    {
        let ghost sub = iv.subrange(0, k + 1);
        assert(sub.drop_last() =~= iv.subrange(0, k as int));
        assert(sub.last() == (info_s@[k as int].0@, info_s@[k as int].1));
        if !is_declared(pre, "##INFO=<ID=", info_s[k].0.as_str()) {
            let l = infer_info_def_with_empty(info_s[k].0.as_str(), &info_s[k].1, true);
            let ghost before = strings_view(out@);
            out.push(l);
            assert(strings_view(out@) =~= before.push(l@));
            assert(head + cv + kd + new_info_lines(pv, sub) =~= (head + cv + kd + new_info_lines(
                pv,
                iv.subrange(0, k as int),
            )).push(l@));
        }
        k = k + 1;
    }
    assert(iv.subrange(0, k as int) =~= iv);
    let ghost ni = new_info_lines(pv, iv);
    assert(fv.subrange(0, 0) =~= Seq::<(Seq<char>, (ValKind, usize))>::empty());
    assert(head + cv + kd + ni + new_format_lines(pv, fv.subrange(0, 0)) =~= head + cv + kd + ni);
    // new FORMAT declarations
    let mut k: usize = 0;
    while k < format_s.len()
        invariant
            k <= format_s.len(),
            pv == strings_view(pre@),
            fv == kv_view(format_s@),
            strings_view(out@) == head + cv + kd + ni + new_format_lines(pv, fv.subrange(0, k as int)),
        decreases format_s.len() - k,
    {
        let ghost sub = fv.subrange(0, k + 1);
        assert(sub.drop_last() =~= fv.subrange(0, k as int));
        assert(sub.last() == (format_s@[k as int].0@, format_s@[k as int].1));
        if !is_declared(pre, "##FORMAT=<ID=", format_s[k].0.as_str()) {
            let l = infer_format_def(
                format_s[k].0.as_str(),
                Some(format_s[k].1.0),
                Some(format_s[k].1.1),
            );
            let ghost before = strings_view(out@);
            out.push(l);
            assert(strings_view(out@) =~= before.push(l@));
            assert(head + cv + kd + ni + new_format_lines(pv, sub) =~= (head + cv + kd + ni
                + new_format_lines(pv, fv.subrange(0, k as int))).push(l@));
        }
        k = k + 1;
    }
    assert(fv.subrange(0, k as int) =~= fv);
    match column_header {
        Some(h) => out.push(h.clone()),
        None => out.push("#CHROM\tPOS\tID\tREF\tALT\tQUAL\tFILTER\tINFO\tFORMAT".to_owned()),
    }
    assert(strings_view(out@) =~= header_spec(
        pv,
        crate::normalize::opt_view(*column_header),
        kv_view(info@),
        kv_view(format@),
        strings_view(contigs@),
    ));
    out
}

} // verus!
