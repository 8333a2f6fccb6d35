use std::collections::HashMap;

use gfa2bin_aligner::resolve::{
    aln_pos, parse_node_id_from_chrom, rewrite_line, rewrite_lines, should_skip_chrom, StreamStats,
};
use gfa2bin_aligner::stores::{load_alignment, load_reference, AlnInfo, MappingContext};

fn lines(v: &[&str]) -> Vec<String> {
    v.iter().map(|s| s.to_string()).collect()
}

fn ctx(reference: &[&str], alignment: &[&str]) -> MappingContext {
    MappingContext {
        reference: load_reference(&lines(reference)),
        alignment: load_alignment(&lines(alignment)),
        graph: None,
    }
}

fn reconciles(s: &StreamStats) -> bool {
    s.total == s.replaced + s.unmapped + s.skipped
}

#[test]
fn reference_row_resolves_record() {
    let c = ctx(&["10\t0\t5\tACGTG\t5\tsample#0#chr1"], &[]);
    let mut st = StreamStats::new();
    let out = rewrite_line("10\t3\t.\tA\t.\t.\t.\t.", &c, &Vec::new(), 4, &mut st);
    assert_eq!(out, Some("chr1\t0\t3\tACGTG\t.\t.\t.\t.".to_string()));
    assert_eq!(st.total, 1);
    assert_eq!(st.replaced, 1);
    assert_eq!(st.replaced_ref, 1);
    assert_eq!(st.used_ref_map, 1);
    assert!(reconciles(&st));
}

#[test]
fn skip_words_drop_before_lookup() {
    let c = ctx(&["10\t0\t5\tACGTG\t5\tsample#0#chr1"], &[]);
    let skip = vec!["random".to_string()];
    let mut st = StreamStats::new();
    assert_eq!(rewrite_line("node10_random\t3\t.\tA", &c, &skip, 4, &mut st), None);
    assert_eq!(rewrite_line("chr1_random\t3\t.\tA", &c, &skip, 0, &mut st), None);
    assert_eq!(st.skipped, 2);
    assert_eq!(st.total, 2);
    assert!(reconciles(&st));
}

#[test]
fn should_skip_is_substring_and_case_sensitive() {
    let skip = vec!["".to_string(), "Un".to_string()];
    assert!(should_skip_chrom("chrUn_1", &skip));
    assert!(!should_skip_chrom("chrun_1", &skip));
    assert!(!should_skip_chrom("chr1", &Vec::new()));
}

#[test]
fn node_id_from_chrom_text() {
    assert_eq!(parse_node_id_from_chrom("1234"), Some(1234));
    assert_eq!(parse_node_id_from_chrom("node_1234"), Some(1234));
    assert_eq!(parse_node_id_from_chrom("n12_x"), Some(12));
    assert_eq!(parse_node_id_from_chrom("chrX"), None);
    assert_eq!(parse_node_id_from_chrom("99999999999999999999999"), None);
}

#[test]
fn alignment_wins_over_reference() {
    let c = ctx(
        &["7\t40\t45\tACGTA\t5\tref#chr2"],
        &["node\tdist\tpos\tpath", "7\t4\t100\tchr3"],
    );
    let mut st = StreamStats::new();
    let out = rewrite_line("7\t9\tid\tN\tT", &c, &Vec::new(), 0, &mut st);
    assert_eq!(out, Some("chr3\t105\t9\tACGTA\tT".to_string()));
    assert_eq!(st.used_aln_map, 1);
    assert_eq!(st.used_ref_map, 0);
}

#[test]
fn pos_node_id_fallback() {
    let c = ctx(&["42\t7\t9\tGG\t2\tchr5"], &[]);
    let mut st = StreamStats::new();
    let out = rewrite_line("chrZ\t42\t.\tA", &c, &Vec::new(), 0, &mut st);
    assert_eq!(out, Some("chr5\t7\t42\tGG".to_string()));
}

#[test]
fn distance_sentinel_boundary() {
    let base = AlnInfo { path: "p".to_string(), distance: 1_000_000_000, position: 100 };
    assert_eq!(aln_pos(&base), 1_000_000_101);
    let over = AlnInfo { distance: 1_000_000_001, ..base.clone() };
    assert_eq!(aln_pos(&over), 100);
    let same_node = AlnInfo { distance: -1, ..base.clone() };
    assert_eq!(aln_pos(&same_node), 100);
    let clamped = AlnInfo { distance: -5, ..base.clone() };
    assert_eq!(aln_pos(&clamped), 100);
    let sat = AlnInfo { distance: 5, position: u64::MAX - 1, ..base };
    assert_eq!(aln_pos(&sat), u64::MAX);
}

#[test]
fn unmapped_and_rejected_records() {
    let c = ctx(&[], &[]);
    let mut st = StreamStats::new();
    assert_eq!(
        rewrite_line("sample#chr2\t5\t.\tA", &c, &Vec::new(), 4, &mut st),
        Some("chr2\t5\t.\tA".to_string())
    );
    assert_eq!(rewrite_line("scaffold\t5\t.\tA", &c, &Vec::new(), 4, &mut st), None);
    assert_eq!(st.unmapped, 1);
    assert_eq!(st.skipped, 1);
    assert_eq!(st.missing_seq, 0);
    assert!(reconciles(&st));
}

#[test]
fn path_rejected_by_policy_counts_as_skipped() {
    let c = ctx(&["3\t0\t1\tA\t1\tchrUn_x"], &[]);
    let mut st = StreamStats::new();
    assert_eq!(rewrite_line("3\t1\t.\tA", &c, &Vec::new(), 4, &mut st), None);
    assert_eq!(st.skipped, 1);
    assert_eq!(st.unmapped, 0);
}

#[test]
fn missing_sequence_and_start_counters() {
    let c = ctx(&[], &["5\t2\t50\tx\tchr3"]);
    let mut st = StreamStats::new();
    let out = rewrite_line("5\t1", &c, &Vec::new(), 0, &mut st);
    assert_eq!(out, Some("chr3\t53".to_string()));
    assert_eq!(st.missing_seq, 1);
    assert_eq!(st.replaced_id, 0);
    let c2 = ctx(&["8\tx\t1\tchr4"], &[]);
    let out2 = rewrite_line("8\t6\t.\tA", &c2, &Vec::new(), 0, &mut st);
    assert_eq!(out2, Some("chr4\t6\t6\tA".to_string()));
    assert_eq!(st.missing_start, 1);
}

#[test]
fn graph_sequence_preferred() {
    let mut c = ctx(&["10\t0\t5\tACGTG\t5\tchr1"], &[]);
    let mut g = HashMap::new();
    g.insert(10u64, "TTTTT".to_string());
    c.graph = Some(g);
    let mut st = StreamStats::new();
    let out = rewrite_line("10\t3\t.\tA", &c, &Vec::new(), 0, &mut st);
    assert_eq!(out, Some("chr1\t0\t3\tTTTTT".to_string()));
}

#[test]
fn comments_pass_and_short_lines_drop() {
    let c = ctx(&[], &[]);
    let body = lines(&["##meta", "#CHROM\tPOS", "lonely", "chr1\t5\t.\tA", "x\t1"]);
    let (out, st) = rewrite_lines(&body, &c, &Vec::new(), 1);
    assert_eq!(out, lines(&["##meta", "#CHROM\tPOS", "chr1\t5\t.\tA"]));
    assert_eq!(st.total, 2);
    assert_eq!(st.unmapped, 1);
    assert_eq!(st.skipped, 1);
    assert_eq!(st.malformed, 1);
    assert!(reconciles(&st));
}

#[test]
fn reconciliation_over_mixed_body() {
    let c = ctx(&["1\t0\t3\tAAA\t3\tchr1", "2\t3\t5\tCC\t2\tchrUn_2"], &[]);
    let skip = vec!["bad".to_string()];
    let body = lines(&[
        "1\t10\t.\tA\tT",
        "2\t11\t.\tA\tT",
        "bad3\t12\t.\tA\tT",
        "chr7\t13\t.\tA\tT",
        "contig\t14\t.\tA\tT",
    ]);
    let (out, st) = rewrite_lines(&body, &c, &skip, 4);
    assert_eq!(out.len(), 2);
    assert_eq!(st.total, 5);
    assert_eq!(st.replaced, 1);
    assert_eq!(st.unmapped, 1);
    assert_eq!(st.skipped, 3);
    assert!(reconciles(&st));
}

#[test]
fn rerun_of_unresolvable_output_is_unchanged() {
    let c = ctx(&["10\t0\t5\tACGTG\t5\tsample#0#chrX"], &[]);
    let first = rewrite_lines(&lines(&["10\t3\t.\tA\tT"]), &c, &Vec::new(), 4).0;
    assert_eq!(first, lines(&["chrX\t0\t3\tACGTG\tT"]));
    let second = rewrite_lines(&first, &c, &Vec::new(), 4).0;
    assert_eq!(second, first);
}

#[test]
fn reference_header_and_malformed_rows_skipped() {
    let r = load_reference(&lines(&[
        "node\tstart\tend\tseq\tlength\tpath",
        "",
        "abc\t1\t2\tchr1",
        "4\t1\t2",
        "5\t9\t12\tchr6",
    ]));
    assert_eq!(r.node2path.len(), 1);
    assert_eq!(r.node2path.get(&5), Some(&"chr6".to_string()));
    assert_eq!(r.node2start.get(&5), Some(&9));
    assert!(r.node2seq.is_empty());
}

#[test]
fn alignment_duplicates_last_wins_and_header_columns() {
    let a = load_alignment(&lines(&[
        "",
        "ID\tPosition\tChrom\tOffset",
        "3\t10\tchrA\t1",
        "3\t20\tchrB\t-7",
        "x\t1\tchrC\t0",
    ]));
    assert_eq!(a.len(), 1);
    let info = a.get(&3).unwrap();
    assert_eq!(info.path, "chrB");
    assert_eq!(info.position, 20);
    assert_eq!(info.distance, -7);
}

#[test]
fn alignment_default_columns_use_last_column_as_path() {
    let a = load_alignment(&lines(&["9\t-1\t30\tx\ty\tz\tchr8", "11\t0\t5"]));
    let nine = a.get(&9).unwrap();
    assert_eq!(nine.path, "chr8");
    assert_eq!(nine.distance, -1);
    assert_eq!(nine.position, 30);
    let eleven = a.get(&11).unwrap();
    assert_eq!(eleven.path, "");
    let c = MappingContext {
        reference: load_reference(&Vec::new()),
        alignment: a,
        graph: None,
    };
    let mut st = StreamStats::new();
    assert_eq!(
        rewrite_line("9\t1\t.\tA", &c, &Vec::new(), 4, &mut st),
        Some("chr8\t30\t1\tA".to_string())
    );
    assert_eq!(rewrite_line("11\t1\t.\tA", &c, &Vec::new(), 4, &mut st), None);
    assert_eq!(st.skipped, 1);
    assert_eq!(st.replaced, 1);
}

#[test]
fn table_fields_are_trimmed() {
    let r = load_reference(&lines(&["  12 \t 3 \t9\t chr2 "]));
    assert_eq!(r.node2path.get(&12), Some(&"chr2".to_string()));
    assert_eq!(r.node2start.get(&12), Some(&3));
}

#[test]
fn empty_body_counts_nothing() {
    let c = ctx(&[], &[]);
    let (out, st) = rewrite_lines(&Vec::new(), &c, &Vec::new(), 4);
    assert!(out.is_empty());
    assert_eq!(st.total, 0);
    assert!(reconciles(&st));
}

#[test]
fn unicode_white_space_is_trimmed() {
    let r = load_reference(&lines(&["\u{a0}13\u{2003}\t4\t9\tchr3\u{3000}"]));
    assert_eq!(r.node2path.get(&13), Some(&"chr3".to_string()));
    assert_eq!(r.node2start.get(&13), Some(&4));
}
