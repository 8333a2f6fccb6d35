use gfa2bin_aligner::normalize::{apply_ignore_rules, extract_chr_token, is_std_human_chr_token};

fn norm(raw: &str, level: u8) -> Option<String> {
    apply_ignore_rules(raw, level)
}

#[test]
fn level_zero_keeps_everything() {
    for raw in ["", "chr1", "sample#0#chr1", "weird name", "GRCh38.chr12_random"] {
        assert_eq!(norm(raw, 0), Some(raw.to_string()));
    }
}

#[test]
fn unknown_levels_behave_as_zero() {
    assert_eq!(norm("contig_7", 6), Some("contig_7".to_string()));
    assert_eq!(norm("contig_7", 255), Some("contig_7".to_string()));
}

#[test]
fn decorated_name_at_levels_three_four_five() {
    assert_eq!(norm("GRCh38.chr12_random", 4), Some("chr12".to_string()));
    assert_eq!(norm("GRCh38.chr12_random", 5), Some("12".to_string()));
    assert_eq!(norm("GRCh38.chr12_random", 3), None);
}

#[test]
fn level_one_needs_marker_in_any_case() {
    assert_eq!(norm("CHR5", 1), Some("CHR5".to_string()));
    assert_eq!(norm("scaffold_5", 1), None);
}

#[test]
fn level_two_needs_token() {
    assert_eq!(norm("chrUn_gl000220", 2), None);
    assert_eq!(norm("chr30_alt", 2), Some("chr30_alt".to_string()));
    assert_eq!(norm("chrx", 2), Some("chrx".to_string()));
}

#[test]
fn level_four_standard_set_and_case() {
    assert_eq!(norm("sample#0#chr1", 4), Some("chr1".to_string()));
    assert_eq!(norm("chrx", 4), Some("chrX".to_string()));
    assert_eq!(norm("chrM", 5), Some("M".to_string()));
    assert_eq!(norm("chr23", 4), None);
    assert_eq!(norm("chr0", 4), None);
    assert_eq!(norm("chr22", 4), Some("chr22".to_string()));
    assert_eq!(norm("chr022", 4), Some("chr022".to_string()));
    assert_eq!(norm("1", 4), None);
}

#[test]
fn last_marker_anchors_token() {
    assert_eq!(norm("chrUn.chr7", 4), Some("chr7".to_string()));
    let t = extract_chr_token("GRCh38.chr12_random");
    assert_eq!(t.token, Some("12".to_string()));
    assert!(t.has_suffix);
    assert!(t.found_marker);
    let none = extract_chr_token("contig");
    assert_eq!(none.token, None);
    assert!(!none.found_marker);
}

#[test]
fn std_token_check() {
    assert!(is_std_human_chr_token("1"));
    assert!(is_std_human_chr_token("22"));
    assert!(is_std_human_chr_token("X"));
    assert!(!is_std_human_chr_token("x"));
    assert!(!is_std_human_chr_token("23"));
    assert!(!is_std_human_chr_token(""));
    assert!(!is_std_human_chr_token("99999999999999999999999"));
}

#[test]
fn level_four_output_is_stable_under_renormalization() {
    let once = norm("sample#1#chr9_alt", 4).unwrap();
    assert_eq!(norm(&once, 4), Some(once.clone()));
}
