use std::collections::HashMap;

use gfa2bin_aligner::records::{filter_records_by_path, parse_vcf_record};

#[test]
fn record_fields_and_pos() {
    let r = parse_vcf_record("chr1\t42\trs1\tA\tG").unwrap();
    assert_eq!(r.chrom, "chr1");
    assert_eq!(r.pos, 42);
    assert_eq!(r.rest, vec!["rs1".to_string(), "A".to_string(), "G".to_string()]);
    assert_eq!(r.raw, "chr1\t42\trs1\tA\tG");
    assert_eq!(parse_vcf_record("chr1\tx").unwrap().pos, 0);
    assert!(parse_vcf_record("lonely").is_none());
}

#[test]
fn filter_by_node_path_keeps_order() {
    let recs = vec![
        parse_vcf_record("a\t1").unwrap(),
        parse_vcf_record("b\t2").unwrap(),
        parse_vcf_record("c\t3").unwrap(),
        parse_vcf_record("d\t4").unwrap(),
    ];
    let mut m = HashMap::new();
    m.insert(1u64, "chr1".to_string());
    m.insert(2u64, "chr2_random".to_string());
    m.insert(4u64, "chrUn_4".to_string());
    let kept = filter_records_by_path(recs, &m, &vec!["random".to_string(), "Un".to_string()]);
    let names: Vec<&str> = kept.iter().map(|r| r.chrom.as_str()).collect();
    assert_eq!(names, vec!["a", "c"]);
}
