//! Read-once mapping stores: the reference extraction table and the
//! alignment table, and the context that carries them through a run.

use std::collections::HashMap;
use vstd::prelude::*;
use crate::text::{
    chars_contain, chars_eq, chars_of, contains_seq, lower_chars, lower_seq, parse_i64,
    parse_i64_spec, parse_u64, parse_u64_spec, split_fields, split_on, strings_view, trim,
    trim_spec,
};

verus! {

/// One alignment row: the path a node lies on, its signed distance, and
/// its position.
#[derive(Clone, Debug)]
pub struct AlnInfo {
    pub path: String,
    pub distance: i64,
    pub position: u64,
}

/// Tables built from the reference extraction table, keyed by node id.
pub struct ReferenceStore {
    pub node2path: HashMap<u64, String>,
    pub node2start: HashMap<u64, u64>,
    pub node2seq: HashMap<u64, String>,
}

/// Everything the resolver consults for one run. The stores are built once
/// and only read afterwards.
pub struct MappingContext {
    pub reference: ReferenceStore,
    pub alignment: HashMap<u64, AlnInfo>,
    /// Segment sequences taken from the graph itself, when a graph is given.
    pub graph: Option<HashMap<u64, String>>,
}

broadcast use vstd::std_specs::hash::group_hash_axioms;

/// A map of texts seen through the texts' views.
pub open spec fn text_map(m: Map<u64, String>) -> Map<u64, Seq<char>> {
    m.map_values(|s: String| s@)
}

/// One row of the reference table: node, start, path (last column) and,
/// in the six-column form, the sequence (fourth column). Fields are
/// trimmed. Rows with fewer than four columns or a non-numeric node are
/// not rows; this also passes over the header, whose first column is "node".
pub open spec fn ref_row(line: Seq<char>) -> Option<(u64, Option<u64>, Seq<char>, Option<Seq<char>>)> {
    let f = split_on(trim_spec(line), '\t');
    if f.len() < 4 {
        None
    } else {
        match parse_u64_spec(trim_spec(f[0])) {
            None => None,
            Some(k) => Some(
                (
                    k,
                    parse_u64_spec(trim_spec(f[1])),
                    trim_spec(f.last()),
                    if f.len() >= 6 { Some(trim_spec(f[3])) } else { None },
                ),
            ),
        }
    }
}

pub open spec fn step_paths(m: Map<u64, Seq<char>>, line: Seq<char>) -> Map<u64, Seq<char>> {
    match ref_row(line) {
        Some((k, _, p, _)) => if p.len() > 0 { m.insert(k, p) } else { m },
        None => m,
    }
}

pub open spec fn step_starts(m: Map<u64, u64>, line: Seq<char>) -> Map<u64, u64> {
    match ref_row(line) {
        Some((k, Some(v), _, _)) => m.insert(k, v),
        _ => m,
    }
}

pub open spec fn step_seqs(m: Map<u64, Seq<char>>, line: Seq<char>) -> Map<u64, Seq<char>> {
    match ref_row(line) {
        Some((k, _, _, Some(q))) => if q.len() > 0 { m.insert(k, q) } else { m },
        _ => m,
    }
}

/// node -> path after reading `lines` (a later row wins).
pub open spec fn ref_paths(lines: Seq<Seq<char>>) -> Map<u64, Seq<char>>
    decreases lines.len(),
{
    if lines.len() == 0 {
        Map::empty()
    } else {
        step_paths(ref_paths(lines.drop_last()), lines.last())
    }
}

/// node -> start after reading `lines`.
pub open spec fn ref_starts(lines: Seq<Seq<char>>) -> Map<u64, u64>
    decreases lines.len(),
{
    if lines.len() == 0 {
        Map::empty()
    } else {
        step_starts(ref_starts(lines.drop_last()), lines.last())
    }
}

/// node -> sequence after reading `lines`.
pub open spec fn ref_seqs(lines: Seq<Seq<char>>) -> Map<u64, Seq<char>>
    decreases lines.len(),
{
    if lines.len() == 0 {
        Map::empty()
    } else {
        step_seqs(ref_seqs(lines.drop_last()), lines.last())
    }
}

impl ReferenceStore {
    pub fn new() -> (r: ReferenceStore)
        ensures
            r.node2path@ == Map::<u64, String>::empty(),
            r.node2start@ == Map::<u64, u64>::empty(),
            r.node2seq@ == Map::<u64, String>::empty(),
    {
        ReferenceStore { node2path: HashMap::new(), node2start: HashMap::new(), node2seq: HashMap::new() }
    }

    /// Adds one row of the reference table; a malformed row changes nothing.
    pub fn add_row(&mut self, line: &str)
        ensures
            text_map(final(self).node2path@) == step_paths(text_map(old(self).node2path@), line@),
            final(self).node2start@ == step_starts(old(self).node2start@, line@),
            text_map(final(self).node2seq@) == step_seqs(text_map(old(self).node2seq@), line@),
    {
        let t = trim(line);
        let f = split_fields(t.as_str(), '\t');
        let ghost fv = strings_view(f@);
        if f.len() < 4 {
            return;
        }
        assert(fv[0] == f@[0]@ && fv[1] == f@[1]@ && fv[3] == f@[3]@);
        assert(fv.last() == f@[f.len() - 1]@);
        let node = match parse_u64(trim(f[0].as_str()).as_str()) {
            None => {
                return;
            },
            Some(k) => k,
        };
        if let Some(v) = parse_u64(trim(f[1].as_str()).as_str()) {
            self.node2start.insert(node, v);
        }
        let p = trim(f[f.len() - 1].as_str());
        if p.as_str().unicode_len() > 0 {
            let ghost pv = p@;
            let ghost before = self.node2path@;
            self.node2path.insert(node, p);
            assert(text_map(self.node2path@) =~= text_map(before).insert(node, pv));
        }
        if f.len() >= 6 {
            let q = trim(f[3].as_str());
            if q.as_str().unicode_len() > 0 {
                let ghost qv = q@;
                let ghost before = self.node2seq@;
                self.node2seq.insert(node, q);
                assert(text_map(self.node2seq@) =~= text_map(before).insert(node, qv));
            }
        }
    }
}

/// Builds the reference store from the lines of a reference table.
pub fn load_reference(lines: &Vec<String>) -> (r: ReferenceStore)
    ensures
        text_map(r.node2path@) == ref_paths(strings_view(lines@)),
        r.node2start@ == ref_starts(strings_view(lines@)),
        text_map(r.node2seq@) == ref_seqs(strings_view(lines@)),
{
    let mut store = ReferenceStore::new();
    assert(text_map(store.node2path@) =~= Map::empty());
    assert(text_map(store.node2seq@) =~= Map::empty());
    let mut i: usize = 0;
    while i < lines.len()
        invariant
            i <= lines.len(),
            text_map(store.node2path@) == ref_paths(strings_view(lines@.subrange(0, i as int))),
            store.node2start@ == ref_starts(strings_view(lines@.subrange(0, i as int))),
            text_map(store.node2seq@) == ref_seqs(strings_view(lines@.subrange(0, i as int))),
        decreases lines.len() - i,
    {
        let ghost next = strings_view(lines@.subrange(0, i + 1));
        assert(next.drop_last() =~= strings_view(lines@.subrange(0, i as int)));
        assert(next.last() == lines@[i as int]@);
        store.add_row(lines[i].as_str());
        i = i + 1;
    }
    assert(lines@.subrange(0, i as int) =~= lines@);
    store
}

/// Column indices of the alignment table, taken from its header.
#[derive(Clone, Copy, Debug)]
pub struct AlnColumns {
    pub node: Option<usize>,
    pub path: Option<usize>,
    pub distance: Option<usize>,
    pub position: Option<usize>,
}

pub const KIND_NODE: u8 = 0;
pub const KIND_PATH: u8 = 1;
pub const KIND_DISTANCE: u8 = 2;
pub const KIND_POSITION: u8 = 3;
pub const KIND_NONE: u8 = 4;

/// Which column a header name denotes, compared without regard to ASCII case.
pub open spec fn column_kind_spec(name: Seq<char>) -> u8 {
    let l = lower_seq(name);
    if l == seq!['n', 'o', 'd', 'e'] || l == seq!['i', 'd'] || l == seq!['s', 'e', 'g', 'm', 'e', 'n', 't']
        || l == seq!['s', 'e', 'g'] {
        KIND_NODE
    } else if l == seq!['p', 'a', 't', 'h'] || l == seq!['c', 'h', 'r', 'o', 'm'] || l == seq![
        'n',
        'a',
        'm',
        'e',
    ] {
        KIND_PATH
    } else if l == seq!['d', 'i', 's', 't', 'a', 'n', 'c', 'e'] || l == seq!['d', 'i', 's', 't']
        || l == seq!['o', 'f', 'f', 's', 'e', 't'] {
        KIND_DISTANCE
    } else if l == seq!['p', 'o', 's', 'i', 't', 'i', 'o', 'n'] || l == seq!['p', 'o', 's'] {
        KIND_POSITION
    } else {
        KIND_NONE
    }
}

fn lower_is(l: &Vec<char>, lit: &str) -> (r: bool)
    ensures
        r == (l@ == lit@),
{
    let c = chars_of(lit);
    chars_eq(l, &c)
}

/// Which column a header name denotes.
pub fn column_kind(name: &str) -> (r: u8)
    ensures
        r == column_kind_spec(name@),
{
    let l = lower_chars(name);
    proof {
        reveal_strlit("node");
        reveal_strlit("id");
        reveal_strlit("segment");
        reveal_strlit("seg");
        reveal_strlit("path");
        reveal_strlit("chrom");
        reveal_strlit("name");
        reveal_strlit("distance");
        reveal_strlit("dist");
        reveal_strlit("offset");
        reveal_strlit("position");
        reveal_strlit("pos");
        assert("node"@ =~= seq!['n', 'o', 'd', 'e']);
        assert("id"@ =~= seq!['i', 'd']);
        assert("segment"@ =~= seq!['s', 'e', 'g', 'm', 'e', 'n', 't']);
        assert("seg"@ =~= seq!['s', 'e', 'g']);
        assert("path"@ =~= seq!['p', 'a', 't', 'h']);
        assert("chrom"@ =~= seq!['c', 'h', 'r', 'o', 'm']);
        assert("name"@ =~= seq!['n', 'a', 'm', 'e']);
        assert("distance"@ =~= seq!['d', 'i', 's', 't', 'a', 'n', 'c', 'e']);
        assert("dist"@ =~= seq!['d', 'i', 's', 't']);
        assert("offset"@ =~= seq!['o', 'f', 'f', 's', 'e', 't']);
        assert("position"@ =~= seq!['p', 'o', 's', 'i', 't', 'i', 'o', 'n']);
        assert("pos"@ =~= seq!['p', 'o', 's']);
    }
    if lower_is(&l, "node") || lower_is(&l, "id") || lower_is(&l, "segment") || lower_is(&l, "seg") {
        KIND_NODE
    } else if lower_is(&l, "path") || lower_is(&l, "chrom") || lower_is(&l, "name") {
        KIND_PATH
    } else if lower_is(&l, "distance") || lower_is(&l, "dist") || lower_is(&l, "offset") {
        KIND_DISTANCE
    } else if lower_is(&l, "position") || lower_is(&l, "pos") {
        KIND_POSITION
    } else {
        KIND_NONE
    }
}

/// The first index at or after `i` whose name denotes `kind`.
pub open spec fn first_column(f: Seq<Seq<char>>, kind: u8, i: int) -> Option<usize>
    decreases f.len() - i,
{
    if i < 0 || i >= f.len() {
        None
    } else if column_kind_spec(f[i]) == kind {
        Some(i as usize)
    } else {
        first_column(f, kind, i + 1)
    }
}

/// The columns a header row names.
pub open spec fn header_columns(f: Seq<Seq<char>>) -> AlnColumns {
    AlnColumns {
        node: first_column(f, KIND_NODE, 0),
        path: first_column(f, KIND_PATH, 0),
        distance: first_column(f, KIND_DISTANCE, 0),
        position: first_column(f, KIND_POSITION, 0),
    }
}

/// A first row is a header when its first field holds "node" or "id" (any case).
pub open spec fn is_header_row(f0: Seq<char>) -> bool {
    contains_seq(lower_seq(f0), seq!['n', 'o', 'd', 'e']) || contains_seq(lower_seq(f0), seq!['i', 'd'])
}

/// One data row of the alignment table read with `cols` (defaults: node 0,
/// distance 1, position 2, path the last column but at least 4). Missing
/// or unreadable distance and position read as zero, a missing path as "".
pub open spec fn aln_row(f: Seq<Seq<char>>, cols: AlnColumns) -> Option<(u64, (Seq<char>, i64, u64))> {
    let node_i: int = match cols.node { Some(i) => i as int, None => 0 };
    let dist_i: int = match cols.distance { Some(i) => i as int, None => 1 };
    let pos_i: int = match cols.position { Some(i) => i as int, None => 2 };
    let path_i: int = match cols.path {
        Some(i) => i as int,
        None => if f.len() - 1 > 4 { f.len() - 1 } else { 4 },
    };
    if f.len() <= node_i {
        None
    } else {
        match parse_u64_spec(trim_spec(f[node_i])) {
            None => None,
            Some(k) => Some(
                (
                    k,
                    (
                        if f.len() > path_i { trim_spec(f[path_i]) } else { Seq::empty() },
                        if f.len() > dist_i {
                            match parse_i64_spec(trim_spec(f[dist_i])) {
                                Some(d) => d,
                                None => 0,
                            }
                        } else {
                            0
                        },
                        if f.len() > pos_i {
                            match parse_u64_spec(trim_spec(f[pos_i])) {
                                Some(p) => p,
                                None => 0,
                            }
                        } else {
                            0
                        },
                    ),
                ),
            ),
        }
    }
}

pub open spec fn aln_view(m: Map<u64, AlnInfo>) -> Map<u64, (Seq<char>, i64, u64)> {
    m.map_values(|a: AlnInfo| (a.path@, a.distance, a.position))
}

/// The state of reading an alignment table line by line.
pub struct AlignmentLoader {
    pub columns: AlnColumns,
    /// A non-empty row has been seen (so the header question is settled).
    pub started: bool,
    pub rows: HashMap<u64, AlnInfo>,
}

pub open spec fn no_columns() -> AlnColumns {
    AlnColumns { node: None, path: None, distance: None, position: None }
}

/// The loader state after one more line: `(columns, started, rows)`.
pub open spec fn aln_step(
    st: (AlnColumns, bool, Map<u64, (Seq<char>, i64, u64)>),
    line: Seq<char>,
) -> (AlnColumns, bool, Map<u64, (Seq<char>, i64, u64)>) {
    let t = trim_spec(line);
    let f = split_on(t, '\t');
    if t.len() == 0 {
        st
    } else if !st.1 && is_header_row(f[0]) {
        (header_columns(f), true, st.2)
    } else {
        match aln_row(f, st.0) {
            Some((k, v)) => (st.0, true, st.2.insert(k, v)),
            None => (st.0, true, st.2),
        }
    }
}

/// The loader state after `lines`.
pub open spec fn aln_load(lines: Seq<Seq<char>>) -> (AlnColumns, bool, Map<u64, (Seq<char>, i64, u64)>)
    decreases lines.len(),
{
    if lines.len() == 0 {
        (no_columns(), false, Map::empty())
    } else {
        aln_step(aln_load(lines.drop_last()), lines.last())
    }
}

impl AlignmentLoader {
    pub open spec fn state(&self) -> (AlnColumns, bool, Map<u64, (Seq<char>, i64, u64)>) {
        (self.columns, self.started, aln_view(self.rows@))
    }

    pub fn new() -> (r: AlignmentLoader)
        ensures
            r.state() == aln_load(Seq::empty()),
    {
        let r = AlignmentLoader {
            columns: AlnColumns { node: None, path: None, distance: None, position: None },
            started: false,
            rows: HashMap::new(),
        };
        assert(aln_view(r.rows@) =~= Map::empty());
        r
    }

    /// Reads one line: the header if it is the first non-empty one and looks
    /// like a header, else a data row (last duplicate wins).
    pub fn add_line(&mut self, line: &str)
        ensures
            final(self).state() == aln_step(old(self).state(), line@),
    {
        let t = trim(line);
        if t.as_str().unicode_len() == 0 {
            return;
        }
        let f = split_fields(t.as_str(), '\t');
        let ghost fv = strings_view(f@);
        proof {
            crate::text::lemma_split_nonempty(t@, '\t');
        }
        assert(fv[0] == f@[0]@);
        if !self.started {
            let l0 = lower_chars(f[0].as_str());
            let node_lit = chars_of("node");
            let id_lit = chars_of("id");
            proof {
                reveal_strlit("node");
                reveal_strlit("id");
                assert(node_lit@ =~= seq!['n', 'o', 'd', 'e']);
                assert(id_lit@ =~= seq!['i', 'd']);
            }
            if chars_contain(&l0, &node_lit) || chars_contain(&l0, &id_lit) {
                self.columns = columns_of_header(&f);
                self.started = true;
                return;
            }
        }
        self.started = true;
        let cols = self.columns;
        let n = f.len();
        let node_i: usize = match cols.node { Some(i) => i, None => 0 };
        let dist_i: usize = match cols.distance { Some(i) => i, None => 1 };
        let pos_i: usize = match cols.position { Some(i) => i, None => 2 };
        let path_i: usize = match cols.path {
            Some(i) => i,
            None => if n - 1 > 4 { n - 1 } else { 4 },
        };
        if n <= node_i {
            return;
        }
        assert(fv[node_i as int] == f@[node_i as int]@);
        let node = match parse_u64(trim(f[node_i].as_str()).as_str()) {
            None => {
                return;
            },
            Some(k) => k,
        };
        let path = if n > path_i {
            assert(fv[path_i as int] == f@[path_i as int]@);
            trim(f[path_i].as_str())
        } else {
            String::new()
        };
        let distance: i64 = if n > dist_i {
            assert(fv[dist_i as int] == f@[dist_i as int]@);
            match parse_i64(trim(f[dist_i].as_str()).as_str()) {
                Some(d) => d,
                None => 0,
            }
        } else {
            0
        };
        let position: u64 = if n > pos_i {
            assert(fv[pos_i as int] == f@[pos_i as int]@);
            match parse_u64(trim(f[pos_i].as_str()).as_str()) {
                Some(p) => p,
                None => 0,
            }
        } else {
            0
        };
        let ghost before = self.rows@;
        let info = AlnInfo { path, distance, position };
        let ghost iv = (info.path@, distance, position);
        self.rows.insert(node, info);
        assert(aln_view(self.rows@) =~= aln_view(before).insert(node, iv));
    }
}

/// The columns a header row names (the first match of each kind).
fn columns_of_header(f: &Vec<String>) -> (r: AlnColumns)
    ensures
        r == header_columns(strings_view(f@)),
{
    let ghost fv = strings_view(f@);
    let mut cols = AlnColumns { node: None, path: None, distance: None, position: None };
    let mut i: usize = f.len();
    while i > 0
        invariant
            i <= f.len(),
            fv == strings_view(f@),
            cols.node == first_column(fv, KIND_NODE, i as int),
            cols.path == first_column(fv, KIND_PATH, i as int),
            cols.distance == first_column(fv, KIND_DISTANCE, i as int),
            cols.position == first_column(fv, KIND_POSITION, i as int),
        decreases i,
    {
        i = i - 1;
        assert(fv[i as int] == f@[i as int]@);
        let k = column_kind(f[i].as_str());
        if k == KIND_NODE {
            cols.node = Some(i);
        } else if k == KIND_PATH {
            cols.path = Some(i);
        } else if k == KIND_DISTANCE {
            cols.distance = Some(i);
        } else if k == KIND_POSITION {
            cols.position = Some(i);
        }
    }
    cols
}

/// Builds the alignment table (node -> row) from its lines.
pub fn load_alignment(lines: &Vec<String>) -> (r: HashMap<u64, AlnInfo>)
    ensures
        aln_view(r@) == aln_load(strings_view(lines@)).2,
{
    let mut ld = AlignmentLoader::new();
    let mut i: usize = 0;
    while i < lines.len()
        invariant
            i <= lines.len(),
            ld.state() == aln_load(strings_view(lines@.subrange(0, i as int))),
        decreases lines.len() - i,
    {
        let ghost next = strings_view(lines@.subrange(0, i + 1));
        assert(next.drop_last() =~= strings_view(lines@.subrange(0, i as int)));
        assert(next.last() == lines@[i as int]@);
        ld.add_line(lines[i].as_str());
        i = i + 1;
    }
    assert(lines@.subrange(0, i as int) =~= lines@);
    ld.rows
}

} // verus!
