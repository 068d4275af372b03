use barcode_join::error::JoinError;
use barcode_join::interner::PrimaryKeyMap;
use barcode_join::join::{
    derive_annotation, pack_key, Annotated, BarcodeJoin, Diagnostic, Recorded, UnmatchedPolicy,
};
use barcode_join::readname::name_to_readname_key;
use barcode_join::text::{has_prefix, split_fields, split_once};

fn strings(v: &[&str]) -> Vec<String> {
    v.iter().map(|s| s.to_string()).collect()
}

fn emitted(outcomes: &[Annotated]) -> Vec<String> {
    outcomes.iter().filter_map(|a| a.output.clone()).collect()
}

#[test]
fn intern_assigns_dense_ids_in_order() {
    let mut t = PrimaryKeyMap::new();
    assert_eq!(t.key_for_value("a"), 0);
    assert_eq!(t.key_for_value("b"), 1);
    assert_eq!(t.key_for_value("c"), 2);
    assert_eq!(t.len(), 3);
}

#[test]
fn intern_round_trip_and_idempotence() {
    let mut t = PrimaryKeyMap::new();
    let a = t.key_for_value("GGTT");
    let b = t.key_for_value("ACGT");
    assert_ne!(a, b);
    assert_eq!(t.value_for_key(a).unwrap(), "GGTT");
    assert_eq!(t.value_for_key(b).unwrap(), "ACGT");
    assert_eq!(t.key_for_value("GGTT"), a);
    assert_eq!(t.len(), 2);
    assert!(t.contains("ACGT"));
    assert!(!t.contains("TTTT"));
}

#[test]
fn resolve_unknown_id_is_absent() {
    let mut t = PrimaryKeyMap::new();
    assert!(t.value_for_key(0).is_none());
    t.key_for_value("x");
    assert!(t.value_for_key(1).is_none());
    assert!(t.value_for_key(65535).is_none());
}

#[test]
fn key_groups_first_four_fields() {
    let mut t = PrimaryKeyMap::new();
    let k = name_to_readname_key("@R1:A:B:C:1:2:3", &mut t).unwrap();
    assert_eq!(k, [0, 1, 2, 3]);
    assert_eq!(t.value_for_key(0).unwrap(), "@R1:A:B:C");
    assert_eq!(t.value_for_key(1).unwrap(), "1");
    assert_eq!(t.value_for_key(3).unwrap(), "3");
    let k2 = name_to_readname_key("@R1:A:B:C:2:2:9", &mut t).unwrap();
    assert_eq!(k2, [0, 2, 2, 4]);
}

#[test]
fn key_is_deterministic() {
    let mut t = PrimaryKeyMap::new();
    let k1 = name_to_readname_key("@M:7:FC:1:1101:15589:1333", &mut t).unwrap();
    let n = t.len();
    let k2 = name_to_readname_key("@M:7:FC:1:1101:15589:1333", &mut t).unwrap();
    assert_eq!(k1, k2);
    assert_eq!(t.len(), n);
}

#[test]
fn key_ignores_fields_after_seventh() {
    let mut t = PrimaryKeyMap::new();
    let k1 = name_to_readname_key("a:b:c:d:e:f:g", &mut t).unwrap();
    let k2 = name_to_readname_key("a:b:c:d:e:f:g:h", &mut t).unwrap();
    assert_eq!(k1, k2);
}

#[test]
fn key_of_short_name_is_malformed() {
    let mut t = PrimaryKeyMap::new();
    assert_eq!(name_to_readname_key("a:b:c:d:e:f", &mut t), Err(JoinError::MalformedReadName));
    assert_eq!(name_to_readname_key("", &mut t), Err(JoinError::MalformedReadName));
    assert_eq!(t.len(), 0);
}

#[test]
fn key_when_table_full() {
    let mut t = PrimaryKeyMap::new();
    for i in 0..65536u32 {
        t.key_for_value(&format!("s{}", i));
    }
    assert_eq!(t.len(), 65536);
    assert_eq!(name_to_readname_key("a:b:c:d:e:f:g", &mut t), Err(JoinError::TableFull));
}

#[test]
fn recognised_barcode_comment() {
    assert_eq!(derive_annotation("1:N:0:ACGT"), ("BC:Z:ACGT".to_string(), true));
    assert_eq!(derive_annotation("2:N:0:GGTT+AACC"), ("BC:Z:GGTT+AACC".to_string(), true));
    assert_eq!(derive_annotation("1:N:0:"), ("BC:Z:".to_string(), true));
}

#[test]
fn unrecognised_comment_is_wrapped_whole() {
    assert_eq!(derive_annotation("weirdformat"), ("XC:Z:weirdformat".to_string(), false));
    assert_eq!(derive_annotation("1:Y:0:ACGT"), ("XC:Z:1:Y:0:ACGT".to_string(), false));
    assert_eq!(derive_annotation(""), ("XC:Z:".to_string(), false));
}

#[test]
fn pack_key_places_each_field() {
    assert_eq!(pack_key(&[1, 2, 3, 4]), 0x0001_0002_0003_0004);
    assert_eq!(pack_key(&[65535, 65535, 65535, 65535]), u64::MAX);
    assert_ne!(pack_key(&[0, 0, 1, 0]), pack_key(&[0, 0, 0, 1]));
}

#[test]
fn splitting_helpers() {
    assert_eq!(split_fields("a::b", ':'), strings(&["a", "", "b"]));
    assert_eq!(split_fields("", ':'), strings(&[""]));
    assert_eq!(split_once("r1 c d", ' '), ("r1", Some("c d")));
    assert_eq!(split_once("r1", ' '), ("r1", None));
    assert!(has_prefix("BC:Z:AC", "BC:Z:"));
    assert!(!has_prefix("BC:", "BC:Z:"));
}

#[test]
fn stored_annotation_for_barcode() {
    let mut j = BarcodeJoin::new();
    assert_eq!(j.add_barcode_line("@R1:A:B:C:1:2:3 1:N:0:ACGT"), Ok(Recorded::Barcode));
    assert_eq!(j.index_len(), 1);
    assert_eq!(j.comment(0).unwrap(), "BC:Z:ACGT");
}

#[test]
fn stored_annotation_for_unrecognised_comment() {
    let mut j = BarcodeJoin::new();
    assert_eq!(j.add_barcode_line("@R1:A:B:C:1:2:3 weirdformat"), Ok(Recorded::Unrecognized));
    assert_eq!(j.comment(0).unwrap(), "XC:Z:weirdformat");
}

#[test]
fn barcode_line_errors() {
    let mut j = BarcodeJoin::new();
    assert_eq!(j.add_barcode_line(""), Ok(Recorded::Blank));
    assert_eq!(j.add_barcode_line("@R1:A:B:C:1:2:3"), Err(JoinError::MissingComment));
    assert_eq!(j.add_barcode_line("@R1:A:B 1:N:0:AC"), Err(JoinError::MalformedReadName));
    assert_eq!(j.index_len(), 0);
}

#[test]
fn same_annotation_twice_is_silent() {
    let mut j = BarcodeJoin::new();
    assert!(j.add_barcode_line("@R1:A:B:C:1:2:3 1:N:0:ACGT").is_ok());
    assert_eq!(j.add_barcode_line("@R1:A:B:C:1:2:3 2:N:0:ACGT"), Ok(Recorded::Barcode));
    assert_eq!(j.index_len(), 1);
    assert_eq!(j.comments_len(), 1);
}

#[test]
fn different_annotation_is_a_conflict() {
    let mut j = BarcodeJoin::new();
    assert!(j.add_barcode_line("@R1:A:B:C:1:2:3 1:N:0:ACGT").is_ok());
    assert_eq!(
        j.add_barcode_line("@R1:A:B:C:1:2:3 1:N:0:TTTT"),
        Err(JoinError::Conflict { old_comment: 0, new_comment: 1 })
    );
    assert_eq!(j.comment(0).unwrap(), "BC:Z:ACGT");
    assert_eq!(j.comment(1).unwrap(), "BC:Z:TTTT");
    assert_eq!(j.index_len(), 1);
}

#[test]
fn end_to_end_annotation() {
    let mut j = BarcodeJoin::new();
    assert!(j.add_barcode_line("@R1:A:B:C:1:2:3 1:N:0:GGTT").is_ok());
    let out = j
        .annotate_lines(&strings(&["@HD\tVN:1.6", "R1:A:B:C:1:2:3\tflag\t..."]), UnmatchedPolicy::Skip)
        .unwrap();
    assert_eq!(emitted(&out), strings(&["@HD\tVN:1.6", "R1:A:B:C:1:2:3\tflag\t...\tBC:Z:GGTT"]));
    assert_eq!(out[1].diagnostic, Diagnostic::Clean);
}

#[test]
fn unmatched_with_fallback() {
    let mut j = BarcodeJoin::new();
    let a = j.annotate_line("R9:A:B:C:1:2:3\tflag", UnmatchedPolicy::Fallback).unwrap();
    assert_eq!(a.output, Some("R9:A:B:C:1:2:3\tflag\tXC:Z:UNKNOWN".to_string()));
    assert_eq!(a.diagnostic, Diagnostic::Unmatched);
}

#[test]
fn unmatched_passed_through() {
    let mut j = BarcodeJoin::new();
    let a = j.annotate_line("R9:A:B:C:1:2:3\tflag", UnmatchedPolicy::PassThrough).unwrap();
    assert_eq!(a.output, Some("R9:A:B:C:1:2:3\tflag".to_string()));
    assert_eq!(a.diagnostic, Diagnostic::Unmatched);
}

#[test]
fn unmatched_skipped() {
    let mut j = BarcodeJoin::new();
    let a = j.annotate_line("R9:A:B:C:1:2:3\tflag", UnmatchedPolicy::Skip).unwrap();
    assert_eq!(a.output, None);
    assert_eq!(a.diagnostic, Diagnostic::Unmatched);
}

#[test]
fn unexpected_tag_is_reported() {
    let mut j = BarcodeJoin::new();
    assert!(j.add_barcode_line("@R1:A:B:C:1:2:3 odd").is_ok());
    let a = j.annotate_line("R1:A:B:C:1:2:3", UnmatchedPolicy::Skip).unwrap();
    assert_eq!(a.output, Some("R1:A:B:C:1:2:3\tXC:Z:odd".to_string()));
    assert_eq!(a.diagnostic, Diagnostic::UnexpectedTag);
}

#[test]
fn malformed_record_is_an_error() {
    let mut j = BarcodeJoin::new();
    assert_eq!(
        j.annotate_line("R1:A:B\tflag", UnmatchedPolicy::Fallback).err(),
        Some(JoinError::MalformedReadName)
    );
    assert_eq!(
        j.annotate_lines(&strings(&["@HD", "", "x"]), UnmatchedPolicy::Fallback).err(),
        Some(JoinError::MalformedReadName)
    );
}

fn mixed_join() -> (BarcodeJoin, Vec<String>) {
    let mut j = BarcodeJoin::new();
    assert!(j.add_barcode_line("@R1:A:B:C:1:2:3 1:N:0:AAAA").is_ok());
    assert!(j.add_barcode_line("@R2:A:B:C:1:2:4 2:N:0:CCCC").is_ok());
    let lines = strings(&[
        "@HD\tVN:1.6",
        "R2:A:B:C:1:2:4\tx",
        "@SQ\tSN:chr1",
        "R3:A:B:C:1:2:5\ty",
        "R1:A:B:C:1:2:3\tz",
    ]);
    (j, lines)
}

#[test]
fn order_kept_with_fallback() {
    let (mut j, lines) = mixed_join();
    let out = j.annotate_lines(&lines, UnmatchedPolicy::Fallback).unwrap();
    assert_eq!(out.len(), 5);
    assert_eq!(
        emitted(&out),
        strings(&[
            "@HD\tVN:1.6",
            "R2:A:B:C:1:2:4\tx\tBC:Z:CCCC",
            "@SQ\tSN:chr1",
            "R3:A:B:C:1:2:5\ty\tXC:Z:UNKNOWN",
            "R1:A:B:C:1:2:3\tz\tBC:Z:AAAA",
        ])
    );
    assert_eq!(out[3].diagnostic, Diagnostic::Unmatched);
}

#[test]
fn order_kept_with_pass_through() {
    let (mut j, lines) = mixed_join();
    let out = j.annotate_lines(&lines, UnmatchedPolicy::PassThrough).unwrap();
    assert_eq!(
        emitted(&out),
        strings(&[
            "@HD\tVN:1.6",
            "R2:A:B:C:1:2:4\tx\tBC:Z:CCCC",
            "@SQ\tSN:chr1",
            "R3:A:B:C:1:2:5\ty",
            "R1:A:B:C:1:2:3\tz\tBC:Z:AAAA",
        ])
    );
}

#[test]
fn order_kept_when_skipping() {
    let (mut j, lines) = mixed_join();
    let out = j.annotate_lines(&lines, UnmatchedPolicy::Skip).unwrap();
    assert_eq!(out.len(), 5);
    assert_eq!(
        emitted(&out),
        strings(&[
            "@HD\tVN:1.6",
            "R2:A:B:C:1:2:4\tx\tBC:Z:CCCC",
            "@SQ\tSN:chr1",
            "R1:A:B:C:1:2:3\tz\tBC:Z:AAAA",
        ])
    );
    assert_eq!(out[3].diagnostic, Diagnostic::Unmatched);
}

#[test]
fn barcodes_from_several_sources() {
    let mut j = BarcodeJoin::new();
    for line in ["@R1:A:B:C:1:2:3 1:N:0:AAAA", ""] {
        assert!(j.add_barcode_line(line).is_ok());
    }
    for line in ["@R2:A:B:C:1:2:4 1:N:0:AAAA", "@R1:A:B:C:1:2:3 1:N:0:AAAA"] {
        assert!(j.add_barcode_line(line).is_ok());
    }
    assert_eq!(j.index_len(), 2);
    assert_eq!(j.comments_len(), 1);
    assert_eq!(j.readname_parts_len(), 6);
}
