//! Whole variant records, for callers that hold a body in memory.

use std::collections::{HashMap, VecDeque};
use vstd::prelude::*;
use crate::text::{contains_seq, parse_u64, parse_u64_spec, split_fields, split_on, str_contains, strings_view};

verus! {

broadcast use vstd::std_specs::hash::group_hash_axioms;

/// One data line of a variant file.
pub struct VcfRecord {
    pub chrom: String,
    /// POS read as an integer (zero when unreadable).
    pub pos: u64,
    /// The fields after POS.
    pub rest: Vec<String>,
    /// The full input line.
    pub raw: String,
}

/// The record a data line holds: lines with fewer than two fields hold none.
pub open spec fn record_of(line: Seq<char>, r: VcfRecord) -> bool {
    let f = split_on(line, '\t');
    &&& f.len() >= 2
    &&& r.chrom@ == f[0]
    &&& r.pos == match parse_u64_spec(f[1]) {
        Some(v) => v,
        None => 0,
    }
    &&& strings_view(r.rest@) == f.subrange(2, f.len() as int)
    &&& r.raw@ == line
}

/// Reads one data line as a record.
pub fn parse_vcf_record(line: &str) -> (r: Option<VcfRecord>)
    ensures
        r is None <==> split_on(line@, '\t').len() < 2,
        r matches Some(rec) ==> record_of(line@, rec),
{
    let f = split_fields(line, '\t');
    let ghost fv = strings_view(f@);
    if f.len() < 2 {
        return None;
    }
    assert(fv[0] == f@[0]@ && fv[1] == f@[1]@);
    let pos = match parse_u64(f[1].as_str()) {
        Some(v) => v,
        None => 0,
    };
    let chrom = f[0].clone();
    let mut rest: Vec<String> = Vec::new();
    let mut i: usize = 2;
    while i < f.len()
        invariant
            2 <= i <= f.len(),
            fv == strings_view(f@),
            strings_view(rest@) == fv.subrange(2, i as int),
        decreases f.len() - i,
    {
        let ghost before = strings_view(rest@);
        rest.push(f[i].clone());
        assert(strings_view(rest@) =~= before.push(fv[i as int]));
        assert(fv.subrange(2, i + 1) =~= fv.subrange(2, i as int).push(fv[i as int]));
        i = i + 1;
    }
    Some(VcfRecord { chrom, pos, rest, raw: line.to_owned() })
}

/// A record is dropped when its POS names a node whose path holds any of
/// the keywords.
pub open spec fn record_dropped(r: VcfRecord, node2path: Map<u64, String>, kw: Seq<Seq<char>>) -> bool {
    node2path.contains_key(r.pos) && exists|i: int|
        0 <= i < kw.len() && contains_seq(node2path[r.pos]@, #[trigger] kw[i])
}

/// The records that are kept, in order.
pub open spec fn kept_records(rs: Seq<VcfRecord>, node2path: Map<u64, String>, kw: Seq<Seq<char>>) -> Seq<VcfRecord>
    decreases rs.len(),
{
    if rs.len() == 0 {
        Seq::empty()
    } else if record_dropped(rs[0], node2path, kw) {
        kept_records(rs.drop_first(), node2path, kw)
    } else {
        seq![rs[0]] + kept_records(rs.drop_first(), node2path, kw)
    }
}

fn path_has_keyword(path: &String, kw: &Vec<String>) -> (r: bool)
    ensures
        r == exists|i: int| 0 <= i < kw.len() && contains_seq(path@, #[trigger] strings_view(kw@)[i]),
{
    let mut i: usize = 0;
    while i < kw.len()
        invariant
            i <= kw.len(),
            forall|j: int| 0 <= j < i ==> !contains_seq(path@, #[trigger] strings_view(kw@)[j]),
        decreases kw.len() - i,
    {
        assert(strings_view(kw@)[i as int] == kw@[i as int]@);
        if str_contains(path.as_str(), kw[i].as_str()) {
            return true;
        }
        i = i + 1;
    }
    false
}

/// Keeps the records whose node path (looked up by POS) holds none of the
/// keywords; records of unknown nodes are kept. Order is preserved.
pub fn filter_records_by_path(
    records: Vec<VcfRecord>,
    node2path: &HashMap<u64, String>,
    skip_keywords: &Vec<String>,
) -> (r: Vec<VcfRecord>)
    ensures
        r@ == kept_records(records@, node2path@, strings_view(skip_keywords@)),
{
    let ghost all = records@;
    let ghost kw = strings_view(skip_keywords@);
    let n = records.len();
    let mut rest = records;
    let mut kept: VecDeque<VcfRecord> = VecDeque::new();
    assert(all.subrange(n as int, n as int) =~= Seq::<VcfRecord>::empty());
    assert(rest@ =~= all.subrange(0, n as int));
    while rest.len() > 0
        invariant
            rest.len() <= n == all.len(),
            rest@ == all.subrange(0, rest.len() as int),
            kw == strings_view(skip_keywords@),
            kept@ == kept_records(all.subrange(rest.len() as int, n as int), node2path@, kw),
        decreases rest.len(),
    {
        let i = rest.len();
        let x = rest.pop().unwrap();
        assert(x == all[i - 1]);
        assert(rest@ =~= all.subrange(0, i - 1));
        let ghost sub = all.subrange(i - 1, n as int);
        assert(sub.drop_first() =~= all.subrange(i as int, n as int));
        assert(sub[0] == x);
        let drop = match node2path.get(&x.pos) {
            Some(p) => path_has_keyword(p, skip_keywords),
            None => false,
        };
        assert(drop == record_dropped(x, node2path@, kw));
        if !drop {
            kept.push_front(x);
            assert(kept@ =~= seq![x] + kept_records(all.subrange(i as int, n as int), node2path@, kw));
        }
    }
    let ghost total = kept@;
    let mut out: Vec<VcfRecord> = Vec::new();
    while kept.len() > 0
        invariant
            out@ + kept@ == total,
        decreases kept.len(),
    {
        let ghost before = kept@;
        let x = kept.pop_front().unwrap();
        out.push(x);
        assert(out@ + kept@ =~= total);
    }
    assert(all.subrange(0, n as int) =~= all);
    assert(out@ =~= total);
    out
}

} // verus!
