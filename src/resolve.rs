//! The coordinate resolver and the streaming rewrite of variant lines.
//!
//! Each data line is either dropped or emitted once, and exactly one of the
//! outcome counters `replaced`, `unmapped` and `skipped` moves with `total`.

use vstd::prelude::*;
use crate::normalize::{
    apply_ignore_rules, chr_token_spec, lemma_renormalize, lemma_std_name_no_tab, normalize_spec,
    opt_view,
};
use crate::stores::{AlnInfo, MappingContext};
use crate::text::{
    all_digits, chars_of, contains_seq, decimal_text, decimal_value, digits_u64, is_digit,
    is_digit_exec, join_tab, join_with, lemma_join_split, lemma_split_join_first,
    lemma_split_no_sep, parse_u64, parse_u64_spec, split_fields, split_on, str_contains,
    strings_view, trim, trim_spec, u64_text,
};

verus! {

broadcast use vstd::std_specs::hash::group_hash_axioms;

/// Distances above this mean the alignment position is already linear.
pub const LINEAR_DISTANCE_SENTINEL: i64 = 1_000_000_000;

/// Counters of one rewrite pass.
#[derive(Debug)]
pub struct StreamStats {
    pub total: u64,
    pub replaced: u64,
    pub skipped: u64,
    pub unmapped: u64,
    pub replaced_chrom: u64,
    pub replaced_pos: u64,
    pub replaced_id: u64,
    pub replaced_ref: u64,
    pub missing_start: u64,
    pub missing_seq: u64,
    pub used_ref_map: u64,
    pub used_aln_map: u64,
    /// Data lines with fewer than two fields, dropped without a record.
    pub malformed: u64,
}

impl StreamStats {
    /// All counters at zero.
    pub open spec fn zero() -> StreamStats {
        StreamStats {
            total: 0,
            replaced: 0,
            skipped: 0,
            unmapped: 0,
            replaced_chrom: 0,
            replaced_pos: 0,
            replaced_id: 0,
            replaced_ref: 0,
            missing_start: 0,
            missing_seq: 0,
            used_ref_map: 0,
            used_aln_map: 0,
            malformed: 0,
        }
    }

    /// The outcome counters reconcile with `total`, and the per-field
    /// counters never exceed the number of replaced records.
    pub open spec fn wf(&self) -> bool {
        &&& self.total == self.replaced + self.unmapped + self.skipped
        &&& self.replaced_chrom == self.replaced
        &&& self.replaced_pos <= self.replaced
        &&& self.replaced_id <= self.replaced
        &&& self.replaced_ref <= self.replaced
        &&& self.missing_start <= self.replaced
        &&& self.missing_seq <= self.replaced
        &&& self.used_ref_map <= self.replaced
        &&& self.used_aln_map <= self.replaced
    }

    pub fn new() -> (r: StreamStats)
        ensures
            r == StreamStats::zero(),
            r.wf(),
    {
        StreamStats {
            total: 0,
            replaced: 0,
            skipped: 0,
            unmapped: 0,
            replaced_chrom: 0,
            replaced_pos: 0,
            replaced_id: 0,
            replaced_ref: 0,
            missing_start: 0,
            missing_seq: 0,
            used_ref_map: 0,
            used_aln_map: 0,
            malformed: 0,
        }
    }
}

impl Default for StreamStats {
    fn default() -> (r: StreamStats)
        ensures
            r == StreamStats::zero(),
    {
        StreamStats::new()
    }
}

/// Some non-empty skip word occurs in `chrom`.
pub open spec fn should_skip_spec(chrom: Seq<char>, skip: Seq<Seq<char>>) -> bool {
    exists|i: int|
        0 <= i < skip.len() && skip[i].len() > 0 && contains_seq(chrom, #[trigger] skip[i])
}

/// Whether the raw CHROM field holds any non-empty skip word (case-sensitive).
pub fn should_skip_chrom(chrom: &str, skip: &Vec<String>) -> (r: bool)
    ensures
        r == should_skip_spec(chrom@, strings_view(skip@)),
{
    let mut i: usize = 0;
    while i < skip.len()
        invariant
            i <= skip.len(),
            forall|j: int|
                0 <= j < i ==> !(skip@[j]@.len() > 0 && contains_seq(chrom@, #[trigger] skip@[j]@)),
        decreases skip.len() - i,
    {
        let k = &skip[i];
        if k.as_str().unicode_len() > 0 && str_contains(chrom, k.as_str()) {
            assert(strings_view(skip@)[i as int] == skip@[i as int]@);
            return true;
        }
        i = i + 1;
    }
    assert forall|j: int|
        0 <= j < strings_view(skip@).len() && strings_view(skip@)[j].len() > 0 implies !contains_seq(
        chrom@,
        #[trigger] strings_view(skip@)[j],
    ) by {
        assert(strings_view(skip@)[j] == skip@[j]@);
    }
    false
}

/// End of the last digit run that ends at or before `n` (zero when none).
pub open spec fn last_run_end(s: Seq<char>, n: int) -> int
    decreases n,
{
    if n <= 0 {
        0
    } else if is_digit(s[n - 1]) {
        n
    } else {
        last_run_end(s, n - 1)
    }
}

/// Start of the digit run that ends at `e`.
pub open spec fn run_start(s: Seq<char>, e: int) -> int
    decreases e,
{
    if e > 0 && is_digit(s[e - 1]) {
        run_start(s, e - 1)
    } else {
        e
    }
}

/// The node id a CHROM text names: its last run of digits, when that fits
/// in `u64`. A plain integer is its own last run.
pub open spec fn node_id_from_chrom_spec(s: Seq<char>) -> Option<u64> {
    let e = last_run_end(s, s.len() as int);
    if e == 0 {
        None
    } else {
        let v = decimal_value(s.subrange(run_start(s, e), e));
        if v <= u64::MAX {
            Some(v as u64)
        } else {
            None
        }
    }
}

proof fn lemma_run_start(s: Seq<char>, e: int)
    requires
        0 <= e <= s.len(),
    ensures
        0 <= run_start(s, e) <= e,
        forall|k: int| run_start(s, e) <= k < e ==> is_digit(s[k]),
    decreases e,
{
    if e > 0 && is_digit(s[e - 1]) {
        lemma_run_start(s, e - 1);
    }
}

/// Parses a node id out of a CHROM text ("1234", "node_1234").
pub fn parse_node_id_from_chrom(chrom: &str) -> (r: Option<u64>)
    ensures
        r == node_id_from_chrom_spec(chrom@),
{
    let s = chars_of(chrom);
    let mut e: usize = s.len();
    while e > 0 && !is_digit_exec(s[e - 1])
        invariant
            e <= s.len(),
            s@ == chrom@,
            last_run_end(s@, s.len() as int) == last_run_end(s@, e as int),
        decreases e,
    {
        e = e - 1;
    }
    if e == 0 {
        return None;
    }
    let mut b: usize = e;
    while b > 0 && is_digit_exec(s[b - 1])
        invariant
            b <= e <= s.len(),
            run_start(s@, e as int) == run_start(s@, b as int),
        decreases b,
    {
        b = b - 1;
    }
    proof {
        lemma_run_start(s@, e as int);
        assert(all_digits(s@.subrange(b as int, e as int))) by {
            assert forall|k: int| 0 <= k < e - b implies is_digit(
                #[trigger] s@.subrange(b as int, e as int)[k],
            ) by {
                assert(s@.subrange(b as int, e as int)[k] == s@[b + k]);
            }
        }
    }
    digits_u64(&s, b, e)
}

/// The node id of a record: from CHROM, or else POS read as an integer.
pub open spec fn node_id_spec(f: Seq<Seq<char>>) -> Option<u64> {
    match node_id_from_chrom_spec(f[0]) {
        Some(k) => Some(k),
        None => parse_u64_spec(trim_spec(f[1])),
    }
}

/// The path of node `k`: the alignment table first, then the reference.
pub open spec fn chosen_path(ctx: &MappingContext, k: u64) -> Option<Seq<char>> {
    if ctx.alignment@.contains_key(k) {
        Some(ctx.alignment@[k].path@)
    } else if ctx.reference.node2path@.contains_key(k) {
        Some(ctx.reference.node2path@[k]@)
    } else {
        None
    }
}

/// The segment sequence of node `k`: the graph first, then the reference.
pub open spec fn segment_seq(ctx: &MappingContext, k: u64) -> Option<Seq<char>> {
    match ctx.graph {
        Some(g) if g@.contains_key(k) => Some(g@[k]@),
        _ => if ctx.reference.node2seq@.contains_key(k) {
            Some(ctx.reference.node2seq@[k]@)
        } else {
            None
        },
    }
}

/// The linear position of an alignment row: the position itself beyond the
/// sentinel distance, else the position plus `max(distance + 1, 0)`,
/// saturating at `u64::MAX`.
pub open spec fn aln_pos_spec(distance: i64, position: u64) -> u64 {
    if distance > LINEAR_DISTANCE_SENTINEL {
        position
    } else {
        let offset: int = if distance >= -1 { distance + 1 } else { 0 };
        if offset + position > u64::MAX {
            u64::MAX
        } else {
            (offset + position) as u64
        }
    }
}

/// The new POS of node `k`: from the alignment row, else the reference start.
pub open spec fn linear_pos(ctx: &MappingContext, k: u64) -> Option<u64> {
    if ctx.alignment@.contains_key(k) {
        Some(aln_pos_spec(ctx.alignment@[k].distance, ctx.alignment@[k].position))
    } else if ctx.reference.node2start@.contains_key(k) {
        Some(ctx.reference.node2start@[k])
    } else {
        None
    }
}

/// The node id of a record together with the path it maps to.
pub open spec fn mapped_path(ctx: &MappingContext, f: Seq<Seq<char>>) -> Option<(u64, Seq<char>)> {
    match node_id_spec(f) {
        None => None,
        Some(k) => match chosen_path(ctx, k) {
            None => None,
            Some(p) => Some((k, p)),
        },
    }
}

/// The fields of a resolved record: CHROM := `c`, ID := the old POS,
/// REF := the segment sequence, POS := the linear position (each where the
/// field exists and the value is known).
pub open spec fn replaced_fields(
    f: Seq<Seq<char>>,
    ctx: &MappingContext,
    k: u64,
    c: Seq<char>,
) -> Seq<Seq<char>> {
    let g0 = f.update(0, c);
    let g1 = if f.len() >= 3 { g0.update(2, f[1]) } else { g0 };
    let g2 = match segment_seq(ctx, k) {
        Some(q) => if f.len() >= 4 { g1.update(3, q) } else { g1 },
        None => g1,
    };
    match linear_pos(ctx, k) {
        Some(p) => g2.update(1, decimal_text(p as nat)),
        None => g2,
    }
}

pub open spec fn is_comment(line: Seq<char>) -> bool {
    line.len() > 0 && line[0] == '#'
}

/// What the rewriter emits for one line (`None`: the line is dropped).
pub open spec fn rewrite_spec(
    line: Seq<char>,
    ctx: &MappingContext,
    skip: Seq<Seq<char>>,
    level: u8,
) -> Option<Seq<char>> {
    let f = split_on(line, '\t');
    if is_comment(line) {
        Some(line)
    } else if f.len() < 2 || should_skip_spec(f[0], skip) {
        None
    } else {
        match mapped_path(ctx, f) {
            None => match normalize_spec(f[0], level) {
                Some(c) => Some(join_with(f.update(0, c), '\t')),
                None => None,
            },
            Some((k, p)) => match normalize_spec(p, level) {
                Some(c) => Some(join_with(replaced_fields(f, ctx, k, c), '\t')),
                None => None,
            },
        }
    }
}

pub open spec fn bump(n: u64, b: bool) -> u64 {
    if b { (n + 1) as u64 } else { n }
}

/// Counters after one dropped record.
pub open spec fn count_skipped(s: StreamStats) -> StreamStats {
    StreamStats { total: (s.total + 1) as u64, skipped: (s.skipped + 1) as u64, ..s }
}

/// Counters after one record passed through unmapped.
pub open spec fn count_unmapped(s: StreamStats) -> StreamStats {
    StreamStats { total: (s.total + 1) as u64, unmapped: (s.unmapped + 1) as u64, ..s }
}

/// Counters after one resolved record of node `k` with `n` fields.
pub open spec fn count_replaced(s: StreamStats, ctx: &MappingContext, k: u64, n: int) -> StreamStats {
    let from_aln = ctx.alignment@.contains_key(k);
    let from_ref = !from_aln && ctx.reference.node2start@.contains_key(k);
    let seq = segment_seq(ctx, k);
    StreamStats {
        total: (s.total + 1) as u64,
        replaced: (s.replaced + 1) as u64,
        replaced_chrom: (s.replaced_chrom + 1) as u64,
        replaced_id: bump(s.replaced_id, n >= 3),
        replaced_ref: bump(s.replaced_ref, seq is Some && n >= 4),
        missing_seq: bump(s.missing_seq, seq is None),
        replaced_pos: bump(s.replaced_pos, from_aln || from_ref),
        used_aln_map: bump(s.used_aln_map, from_aln),
        used_ref_map: bump(s.used_ref_map, from_ref),
        missing_start: bump(s.missing_start, !from_aln && !from_ref),
        ..s
    }
}

/// The counters after one line.
pub open spec fn count_line(
    s: StreamStats,
    line: Seq<char>,
    ctx: &MappingContext,
    skip: Seq<Seq<char>>,
    level: u8,
) -> StreamStats {
    let f = split_on(line, '\t');
    if is_comment(line) {
        s
    } else if f.len() < 2 {
        StreamStats { malformed: (s.malformed + 1) as u64, ..s }
    } else if should_skip_spec(f[0], skip) {
        count_skipped(s)
    } else {
        match mapped_path(ctx, f) {
            None => match normalize_spec(f[0], level) {
                Some(_) => count_unmapped(s),
                None => count_skipped(s),
            },
            Some((k, p)) => match normalize_spec(p, level) {
                Some(_) => count_replaced(s, ctx, k, f.len() as int),
                None => count_skipped(s),
            },
        }
    }
}

/// The linear position of an alignment row.
pub fn aln_pos(a: &AlnInfo) -> (r: u64)
    ensures
        r == aln_pos_spec(a.distance, a.position),
{
    if a.distance > LINEAR_DISTANCE_SENTINEL {
        a.position
    } else {
        let offset: u64 = if a.distance >= -1 { (a.distance + 1) as u64 } else { 0 };
        offset.saturating_add(a.position)
    }
}

/// Rewrites one line of a variant file. Comment lines come back verbatim;
/// data lines are resolved, passed through with a normalized CHROM, or
/// dropped (`None`), and `stats` records which.
pub fn rewrite_line(
    line: &str,
    ctx: &MappingContext,
    skip: &Vec<String>,
    level: u8,
    stats: &mut StreamStats,
) -> (r: Option<String>)
    requires
        old(stats).wf(),
        old(stats).total < u64::MAX,
        old(stats).malformed < u64::MAX,
    ensures
        opt_view(r) == rewrite_spec(line@, ctx, strings_view(skip@), level),
        *final(stats) == count_line(*old(stats), line@, ctx, strings_view(skip@), level),
        final(stats).wf(),
{
    if line.unicode_len() > 0 && line.get_char(0) == '#' {
        return Some(line.to_owned());
    }
    let mut fields = split_fields(line, '\t');
    let ghost f = strings_view(fields@);
    if fields.len() < 2 {
        stats.malformed = stats.malformed + 1;
        return None;
    }
    assert(f[0] == fields@[0]@ && f[1] == fields@[1]@);
    if should_skip_chrom(fields[0].as_str(), skip) {
        stats.total = stats.total + 1;
        stats.skipped = stats.skipped + 1;
        return None;
    }
    let node = match parse_node_id_from_chrom(fields[0].as_str()) {
        Some(k) => Some(k),
        None => parse_u64(trim(fields[1].as_str()).as_str()),
    };
    let mut found: Option<(u64, String)> = None;
    if let Some(k) = node {
        match ctx.alignment.get(&k) {
            Some(a) => {
                found = Some((k, a.path.clone()));
            },
            None => match ctx.reference.node2path.get(&k) {
                Some(p) => {
                    found = Some((k, p.clone()));
                },
                None => {},
            },
        }
    }
    match found {
        None => {
            assert(mapped_path(ctx, f) is None);
            match apply_ignore_rules(fields[0].as_str(), level) {
                None => {
                    stats.total = stats.total + 1;
                    stats.skipped = stats.skipped + 1;
                    None
                },
                Some(c) => {
                    let ghost cv = c@;
                    fields[0] = c;
                    assert(strings_view(fields@) =~= f.update(0, cv));
                    stats.total = stats.total + 1;
                    stats.unmapped = stats.unmapped + 1;
                    Some(join_tab(&fields))
                },
            }
        },
        Some((k, p)) => {
            assert(mapped_path(ctx, f) == Some((k, p@)));
            match apply_ignore_rules(p.as_str(), level) {
                None => {
                    stats.total = stats.total + 1;
                    stats.skipped = stats.skipped + 1;
                    None
                },
                Some(c) => {
                    let ghost cv = c@;
                    let n = fields.len();
                    let orig_pos = fields[1].clone();
                    fields[0] = c;
                    assert(strings_view(fields@) =~= f.update(0, cv));
                    if n >= 3 {
                        fields[2] = orig_pos;
                        stats.replaced_id = stats.replaced_id + 1;
                        assert(strings_view(fields@) =~= f.update(0, cv).update(2, f[1]));
                    }
                    let ghost g1 = strings_view(fields@);
                    let mut seq: Option<String> = None;
                    if let Some(g) = &ctx.graph {
                        if let Some(q) = g.get(&k) {
                            seq = Some(q.clone());
                        }
                    }
                    if seq.is_none() {
                        if let Some(q) = ctx.reference.node2seq.get(&k) {
                            seq = Some(q.clone());
                        }
                    }
                    assert(opt_view(seq) == segment_seq(ctx, k));
                    match seq {
                        Some(q) => {
                            if n >= 4 {
                                let ghost qv = q@;
                                fields[3] = q;
                                stats.replaced_ref = stats.replaced_ref + 1;
                                assert(strings_view(fields@) =~= g1.update(3, qv));
                            }
                        },
                        None => {
                            stats.missing_seq = stats.missing_seq + 1;
                        },
                    }
                    let ghost g2 = strings_view(fields@);
                    match ctx.alignment.get(&k) {
                        Some(a) => {
                            let t = u64_text(aln_pos(a));
                            let ghost tv = t@;
                            fields[1] = t;
                            assert(strings_view(fields@) =~= g2.update(1, tv));
                            stats.replaced_pos = stats.replaced_pos + 1;
                            stats.used_aln_map = stats.used_aln_map + 1;
                        },
                        None => match ctx.reference.node2start.get(&k) {
                            Some(st) => {
                                let t = u64_text(*st);
                                let ghost tv = t@;
                                fields[1] = t;
                                assert(strings_view(fields@) =~= g2.update(1, tv));
                                stats.replaced_pos = stats.replaced_pos + 1;
                                stats.used_ref_map = stats.used_ref_map + 1;
                            },
                            None => {
                                stats.missing_start = stats.missing_start + 1;
                            },
                        },
                    }
                    assert(strings_view(fields@) == replaced_fields(f, ctx, k, cv));
                    stats.total = stats.total + 1;
                    stats.replaced = stats.replaced + 1;
                    stats.replaced_chrom = stats.replaced_chrom + 1;
                    Some(join_tab(&fields))
                },
            }
        },
    }
}

/// The emitted lines of a whole body, in input order.
pub open spec fn rewrite_all(
    lines: Seq<Seq<char>>,
    ctx: &MappingContext,
    skip: Seq<Seq<char>>,
    level: u8,
) -> Seq<Seq<char>>
    decreases lines.len(),
{
    if lines.len() == 0 {
        Seq::empty()
    } else {
        let r = rewrite_all(lines.drop_last(), ctx, skip, level);
        match rewrite_spec(lines.last(), ctx, skip, level) {
            Some(o) => r.push(o),
            None => r,
        }
    }
}

/// The counters after a whole body, starting from `s`.
pub open spec fn count_all(
    s: StreamStats,
    lines: Seq<Seq<char>>,
    ctx: &MappingContext,
    skip: Seq<Seq<char>>,
    level: u8,
) -> StreamStats
    decreases lines.len(),
{
    if lines.len() == 0 {
        s
    } else {
        count_line(count_all(s, lines.drop_last(), ctx, skip, level), lines.last(), ctx, skip, level)
    }
}

/// One line keeps the counters well formed and moves `total` by at most one.
pub proof fn lemma_count_line_wf(
    s: StreamStats,
    line: Seq<char>,
    ctx: &MappingContext,
    skip: Seq<Seq<char>>,
    level: u8,
)
    requires
        s.wf(),
        s.total < u64::MAX,
    ensures
        count_line(s, line, ctx, skip, level).wf(),
        count_line(s, line, ctx, skip, level).total <= s.total + 1,
        count_line(s, line, ctx, skip, level).malformed <= s.malformed + 1,
{
}

/// Reconciliation: after any body, `total == replaced + unmapped + skipped`.
pub proof fn lemma_reconciliation(
    lines: Seq<Seq<char>>,
    ctx: &MappingContext,
    skip: Seq<Seq<char>>,
    level: u8,
)
    requires
        lines.len() < u64::MAX,
    ensures
        count_all(StreamStats::zero(), lines, ctx, skip, level).wf(),
        count_all(StreamStats::zero(), lines, ctx, skip, level).total <= lines.len(),
        count_all(StreamStats::zero(), lines, ctx, skip, level).total == count_all(
            StreamStats::zero(),
            lines,
            ctx,
            skip,
            level,
        ).replaced + count_all(StreamStats::zero(), lines, ctx, skip, level).unmapped + count_all(
            StreamStats::zero(),
            lines,
            ctx,
            skip,
            level,
        ).skipped,
    decreases lines.len(),
{
    if lines.len() > 0 {
        lemma_reconciliation(lines.drop_last(), ctx, skip, level);
        lemma_count_line_wf(
            count_all(StreamStats::zero(), lines.drop_last(), ctx, skip, level),
            lines.last(),
            ctx,
            skip,
            level,
        );
    }
}

/// Rewrites a whole body in one forward pass.
pub fn rewrite_lines(
    lines: &Vec<String>,
    ctx: &MappingContext,
    skip: &Vec<String>,
    level: u8,
) -> (r: (Vec<String>, StreamStats))
    requires
        lines.len() < u64::MAX,
    ensures
        strings_view(r.0@) == rewrite_all(strings_view(lines@), ctx, strings_view(skip@), level),
        r.1 == count_all(StreamStats::zero(), strings_view(lines@), ctx, strings_view(skip@), level),
        r.1.wf(),
{
    let mut out: Vec<String> = Vec::new();
    let mut stats = StreamStats::new();
    let mut i: usize = 0;
    while i < lines.len()
        invariant
            i <= lines.len() < u64::MAX,
            stats.wf(),
            stats.total <= i,
            stats.malformed <= i,
            strings_view(out@) == rewrite_all(
                strings_view(lines@.subrange(0, i as int)),
                ctx,
                strings_view(skip@),
                level,
            ),
            stats == count_all(
                StreamStats::zero(),
                strings_view(lines@.subrange(0, i as int)),
                ctx,
                strings_view(skip@),
                level,
            ),
        decreases lines.len() - i,
    {
        let ghost prev = strings_view(lines@.subrange(0, i as int));
        let ghost next = strings_view(lines@.subrange(0, i + 1));
        assert(next.drop_last() =~= prev);
        assert(next.last() == lines@[i as int]@);
        let ghost out_prev = strings_view(out@);
        match rewrite_line(lines[i].as_str(), ctx, skip, level, &mut stats) {
            Some(o) => {
                out.push(o);
                assert(strings_view(out@) =~= out_prev.push(o@));
            },
            None => {},
        }
        i = i + 1;
    }
    assert(lines@.subrange(0, i as int) =~= lines@);
    (out, stats)
}

pub open spec fn no_tab(s: Seq<char>) -> bool {
    forall|j: int| 0 <= j < s.len() ==> s[j] != '\t'
}

/// The normalized text of `src` holds no tab when `src` holds none.
proof fn lemma_normalized_no_tab(src: Seq<char>, level: u8)
    requires
        no_tab(src),
        normalize_spec(src, level) is Some,
    ensures
        no_tab(normalize_spec(src, level)->0),
{
    if level == 4 {
        lemma_std_name_no_tab(chr_token_spec(src).0->0);
    } else if level == 5 {
        let t = chr_token_spec(src).0->0;
        assert forall|j: int| 0 <= j < t.len() implies t[j] != '\t' by {
            if !(t.len() > 0 && crate::text::all_digits(t)) {
                assert(t.len() == 1);
            } else {
                assert(crate::text::is_digit(t[j]));
            }
        }
    }
}

/// Rewriting a rewritten line again leaves it unchanged when, on the
/// second pass, its node id (now read from the new CHROM, or from POS)
/// maps to no path and the new CHROM holds no skip word. This holds at
/// every level but five (whose bare labels carry no marker) and for path
/// names without tabs, as any path read from a table is.
pub proof fn lemma_rewrite_idempotent(
    line: Seq<char>,
    ctx: &MappingContext,
    skip: Seq<Seq<char>>,
    level: u8,
)
    requires
        level != 5,
        rewrite_spec(line, ctx, skip, level) is Some,
        match mapped_path(ctx, split_on(line, '\t')) {
            Some((_, p)) => no_tab(p),
            None => true,
        },
        mapped_path(ctx, split_on(rewrite_spec(line, ctx, skip, level)->0, '\t')) is None,
        !should_skip_spec(split_on(rewrite_spec(line, ctx, skip, level)->0, '\t')[0], skip),
    ensures
        rewrite_spec(rewrite_spec(line, ctx, skip, level)->0, ctx, skip, level) == rewrite_spec(
            line,
            ctx,
            skip,
            level,
        ),
{
    let out = rewrite_spec(line, ctx, skip, level)->0;
    if !is_comment(line) {
        let f = split_on(line, '\t');
        lemma_split_no_sep(line, '\t');
        assert(no_tab(f[0]));
        let src = match mapped_path(ctx, f) {
            Some((_, p)) => p,
            None => f[0],
        };
        let c = normalize_spec(src, level)->0;
        lemma_normalized_no_tab(src, level);
        lemma_renormalize(src, level);
        let g = match mapped_path(ctx, f) {
            Some((k, _)) => replaced_fields(f, ctx, k, c),
            None => f.update(0, c),
        };
        assert(g.len() == f.len() && g[0] == c);
        assert(out == join_with(g, '\t'));
        lemma_split_join_first(g, '\t');
        let f2 = split_on(out, '\t');
        if !is_comment(out) {
            lemma_join_split(out, '\t');
            assert(f2.update(0, c) =~= f2);
        }
    }
}

} // verus!
