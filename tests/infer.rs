use gfa2bin_aligner::header::{
    contig_lines, contig_table, split_header_lines, synthesize_header,
};
use gfa2bin_aligner::infer::{
    block_stats, classify_value_token, infer_format_def, infer_info_def_with_empty, merge_block_stats,
    merge_blocks, merge_keystats, KeyStats, ValKind,
};

fn lines(v: &[&str]) -> Vec<String> {
    v.iter().map(|s| s.to_string()).collect()
}

fn info_of<'a>(t: &'a [(String, KeyStats)], k: &str) -> &'a KeyStats {
    &t.iter().find(|e| e.0 == k).unwrap().1
}

#[test]
fn classify_values() {
    assert_eq!(classify_value_token("12"), ValKind::Int);
    assert_eq!(classify_value_token("-3"), ValKind::Int);
    assert_eq!(classify_value_token("+7"), ValKind::Int);
    assert_eq!(classify_value_token("1.5"), ValKind::Float);
    assert_eq!(classify_value_token("1e5"), ValKind::Float);
    assert_eq!(classify_value_token("-2.5E-3"), ValKind::Float);
    assert_eq!(classify_value_token(".5"), ValKind::Float);
    assert_eq!(classify_value_token("5."), ValKind::Float);
    assert_eq!(classify_value_token("inf"), ValKind::Float);
    assert_eq!(classify_value_token("NaN"), ValKind::Float);
    assert_eq!(classify_value_token("99999999999999999999"), ValKind::Float);
    assert_eq!(classify_value_token("."), ValKind::Stringy);
    assert_eq!(classify_value_token("1e"), ValKind::Stringy);
    assert_eq!(classify_value_token("abc"), ValKind::Stringy);
    assert_eq!(classify_value_token(""), ValKind::Stringy);
    for t in ["12", "1.5", "1e5", ".5", "5.", "inf", "NaN", ".", "1e", "abc", "+", "1.2.3"] {
        let is_float = t.parse::<f64>().is_ok() && t.parse::<i64>().is_err();
        assert_eq!(classify_value_token(t) == ValKind::Float, is_float, "{t}");
    }
}

#[test]
fn info_key_in_most_lines_matching_alt_count() {
    let mut body = Vec::new();
    for i in 0..10 {
        if i < 8 {
            body.push(format!("1\t{}\t.\tA\tG\t.\t.\tAC={};DP=10", 100 + i, i));
        } else {
            body.push(format!("1\t{}\t.\tA\tG\t.\t.\tDP=5", 100 + i));
        }
    }
    let st = block_stats(&body);
    let ac = info_of(&st.info, "AC");
    assert_eq!(ac.samples, 8);
    assert_eq!(ac.matches_a, 8);
    assert_eq!(
        infer_info_def_with_empty("AC", ac, true),
        "##INFO=<ID=AC,Number=A,Type=Integer,Description=\"Inferred from body\">"
    );
}

#[test]
fn bare_key_is_a_flag() {
    let body = lines(&[
        "1\t1\t.\tA\tG\t.\t.\tDB=1",
        "1\t2\t.\tA\tG\t.\t.\tDB",
        "1\t3\t.\tA\tG\t.\t.\tDB=2.5",
    ]);
    let st = block_stats(&body);
    let db = info_of(&st.info, "DB");
    assert!(db.seen_as_flag);
    assert_eq!(
        infer_info_def_with_empty("DB", db, true),
        "##INFO=<ID=DB,Number=0,Type=Flag,Description=\"Inferred from body\">"
    );
}

#[test]
fn number_r_dot_and_one() {
    let body = lines(&[
        "1\t1\t.\tA\tG,T\t.\t.\tAD=1,2,3;X=a,b,c,d;S=x;E=",
        "1\t2\t.\tA\tG,T\t.\t.\tAD=4,5,6;X=c;S=y",
    ]);
    let st = block_stats(&body);
    let ad = info_of(&st.info, "AD");
    assert_eq!(ad.matches_r, 2);
    assert!(infer_info_def_with_empty("AD", ad, true).contains("Number=R,Type=Integer"));
    let x = info_of(&st.info, "X");
    assert!(infer_info_def_with_empty("X", x, true).contains("Number=.,Type=String"));
    let s = info_of(&st.info, "S");
    assert!(infer_info_def_with_empty("S", s, true).contains("Number=1,Type=String"));
    let e = info_of(&st.info, "E");
    assert_eq!(e.samples, 1);
    assert_eq!(st.info.iter().map(|e| e.0.as_str()).collect::<Vec<_>>(), vec!["AD", "X", "S", "E"]);
}

#[test]
fn never_observed_key_has_empty_description() {
    let ks = KeyStats::new();
    assert_eq!(
        infer_info_def_with_empty("Q", &ks, true),
        "##INFO=<ID=Q,Number=1,Type=Integer,Description=\"\">"
    );
    assert_eq!(
        infer_info_def_with_empty("Q", &ks, false),
        "##INFO=<ID=Q,Number=1,Type=Integer,Description=\"Inferred from body\">"
    );
}

#[test]
fn format_keys_from_first_sample() {
    let body = lines(&["1\t1\t.\tA\tG\t.\t.\t.\tGT:DP:AD:FT\t0/1:12:3,4:", "1\t2\t.\tA\tG\t.\t.\t.\tGT:DP\t1/1:0.5"]);
    let st = block_stats(&body);
    assert_eq!(
        st.format,
        vec![
            ("GT".to_string(), (ValKind::Stringy, 1)),
            ("DP".to_string(), (ValKind::Int, 1)),
            ("AD".to_string(), (ValKind::Int, 2)),
            ("FT".to_string(), (ValKind::Stringy, 0)),
        ]
    );
    assert_eq!(
        infer_format_def("AD", Some(ValKind::Int), Some(2)),
        "##FORMAT=<ID=AD,Number=.,Type=Integer,Description=\"Inferred from FORMAT column\">"
    );
    assert_eq!(
        infer_format_def("FT", Some(ValKind::Stringy), Some(0)),
        "##FORMAT=<ID=FT,Number=0,Type=String,Description=\"Inferred from FORMAT column\">"
    );
    assert_eq!(
        infer_format_def("DP", Some(ValKind::Float), Some(1)),
        "##FORMAT=<ID=DP,Number=1,Type=Float,Description=\"Inferred from FORMAT column\">"
    );
}

#[test]
fn block_partition_gives_same_statistics() {
    let body = lines(&[
        "1\t1\t.\tA\tG\t.\t.\tAC=1;DP=3",
        "1\t2\t.\tA\tG,C\t.\t.\tAC=1,2;FL",
        "#comment",
        "1\t3\t.\tA\tG\t.\t.\tDP=2.5;NEW=x",
        "1\t4\t.\tA\tG\t.\t.\tAC=7;FL",
    ]);
    let whole = block_stats(&body);
    for cut in 0..=body.len() {
        let a = block_stats(&body[..cut].to_vec());
        let b = block_stats(&body[cut..].to_vec());
        let merged = merge_block_stats(a, b);
        assert_eq!(merged.info, whole.info, "cut at {cut}");
        assert_eq!(merged.first_data, whole.first_data);
    }
    let blocks = vec![
        block_stats(&body[..1].to_vec()),
        block_stats(&body[1..3].to_vec()),
        block_stats(&body[3..].to_vec()),
    ];
    assert_eq!(merge_blocks(blocks).info, whole.info);
    assert_eq!(whole.first_data, Some("1\t1\t.\tA\tG\t.\t.\tAC=1;DP=3".to_string()));
}

#[test]
fn merge_of_stats_sums_and_combines() {
    let a = KeyStats { seen_as_flag: false, all_int: true, any_float: false, all_singleton: true, matches_a: 2, matches_r: 0, samples: 3 };
    let b = KeyStats { seen_as_flag: true, all_int: false, any_float: true, all_singleton: false, matches_a: 1, matches_r: 1, samples: u64::MAX };
    let m = merge_keystats(a, &b);
    assert!(m.seen_as_flag && !m.all_int && m.any_float && !m.all_singleton);
    assert_eq!(m.matches_a, 3);
    assert_eq!(m.samples, u64::MAX);
    assert_eq!(merge_keystats(a, &b), merge_keystats(b, &a));
    assert_eq!(merge_keystats(KeyStats::new(), &a), a);
}

#[test]
fn header_split_and_synthesis() {
    let file = lines(&[
        "##fileformat=VCFv4.3",
        "##INFO=<ID=DP,Number=1,Type=Integer,Description=\"depth\">",
        "##FILTER=<ID=q10,Description=\"low\">",
        "##other=1",
        "#CHROM\tPOS\tID\tREF\tALT\tQUAL\tFILTER\tINFO  ",
        "1\t1\t.\tA\tG\t.\t.\tDP=3;AC=1",
    ]);
    let (pre, col, start) = split_header_lines(&file);
    assert_eq!(pre.len(), 4);
    assert_eq!(col, Some("#CHROM\tPOS\tID\tREF\tALT\tQUAL\tFILTER\tINFO".to_string()));
    assert_eq!(start, 5);
    let st = block_stats(&file[start..].to_vec());
    let contigs = contig_lines(&contig_table(
        &lines(&[
            "node\tstart\tend\tseq\tlength\tpath",
            "1\t0\t5\tAAAAA\t5\tGRCh38#chr1",
            "2\t5\t9\tCCCC\t4\tGRCh38#chr1",
            "3\t0\t7\tGGGGGGG\t7\tGRCh38#chr1_random",
            "4\t0\t0\tT\t0\tGRCh38#chrY",
            "5\t0\t3\tTTT\t3\tGRCh38#chrUn",
        ]),
        4,
    ));
    assert_eq!(contigs, lines(&["##contig=<ID=chr1,length=9>", "##contig=<ID=chrY>"]));
    let h = synthesize_header(&pre, &col, &st.info, &st.format, &contigs);
    assert_eq!(
        h,
        lines(&[
            "##fileformat=VCFv4.3",
            "##source=gfa2bin-aligner/header",
            "##contig=<ID=chr1,length=9>",
            "##contig=<ID=chrY>",
            "##INFO=<ID=DP,Number=1,Type=Integer,Description=\"depth\">",
            "##FILTER=<ID=q10,Description=\"low\">",
            "##INFO=<ID=AC,Number=A,Type=Integer,Description=\"Inferred from body\">",
            "#CHROM\tPOS\tID\tREF\tALT\tQUAL\tFILTER\tINFO",
        ])
    );
}

#[test]
fn header_defaults_without_meta() {
    let file = lines(&["1\t1\t.\tA\tG\t.\t.\tX"]);
    let (pre, col, start) = split_header_lines(&file);
    assert!(pre.is_empty());
    assert_eq!(col, None);
    assert_eq!(start, 0);
    let st = block_stats(&file);
    let h = synthesize_header(&pre, &col, &st.info, &st.format, &Vec::new());
    assert_eq!(h[0], "##fileformat=VCFv4.2");
    assert_eq!(h[2], "##INFO=<ID=X,Number=0,Type=Flag,Description=\"Inferred from body\">");
    assert_eq!(h[3], "#CHROM\tPOS\tID\tREF\tALT\tQUAL\tFILTER\tINFO\tFORMAT");
}

#[test]
fn contigs_come_in_ascending_id_order() {
    let t = contig_table(
        &lines(&["1\t0\t4\tb", "2\t0\t9\ta", "3\t4\t6\tb", "4\t0\t2\tchr10", "5\t0\t3\tchr2"]),
        0,
    );
    assert_eq!(
        contig_lines(&t),
        lines(&[
            "##contig=<ID=a,length=9>",
            "##contig=<ID=b,length=6>",
            "##contig=<ID=chr10,length=2>",
            "##contig=<ID=chr2,length=3>",
        ])
    );
}

#[test]
fn new_declarations_are_ordered_by_key() {
    let body = lines(&["1\t1\t.\tA\tG\t.\t.\tZK=1;AK=x;MK\tGT:AD\t0/1:1,2"]);
    let st = block_stats(&body);
    let h = synthesize_header(&Vec::new(), &None, &st.info, &st.format, &Vec::new());
    let ids: Vec<&str> = h
        .iter()
        .filter(|l| l.starts_with("##INFO") || l.starts_with("##FORMAT"))
        .map(|l| l.split(',').next().unwrap())
        .collect();
    assert_eq!(ids, vec!["##INFO=<ID=AK", "##INFO=<ID=MK", "##INFO=<ID=ZK", "##FORMAT=<ID=AD", "##FORMAT=<ID=GT"]);
}

#[test]
fn merged_blocks_keep_first_format_and_first_line() {
    let body = lines(&[
        "#c",
        "1\t1\t.\tA\tG\t.\t.\t.\tGT\t0/1",
        "1\t2\t.\tA\tG\t.\t.\t.\tGT:DP\t1:2.5",
    ]);
    let whole = block_stats(&body);
    let merged = merge_blocks(vec![
        block_stats(&body[..1].to_vec()),
        block_stats(&body[1..2].to_vec()),
        block_stats(&body[2..].to_vec()),
    ]);
    assert_eq!(merged.format, whole.format);
    assert_eq!(merged.format[0], ("GT".to_string(), (ValKind::Stringy, 1)));
    assert_eq!(merged.first_data, whole.first_data);
    assert_eq!(merged.first_data, Some("1\t1\t.\tA\tG\t.\t.\t.\tGT\t0/1".to_string()));
}
