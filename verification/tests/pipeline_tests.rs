use capture_match::catalog::Record;
use capture_match::catalog::build_catalog;
use capture_match::classify::classify_streams;
use capture_match::correlate::correlate;

fn catalog(entries: &[(&str, u64)]) -> Vec<Record> {
    let v: Vec<(String, u64)> = entries.iter().map(|(p, s)| (p.to_string(), *s)).collect();
    build_catalog(&v).unwrap()
}

fn strings(v: &[&str]) -> Vec<String> {
    v.iter().map(|p| p.to_string()).collect()
}

#[test]
fn test_single_pair_within_threshold() {
    // One RGB and one NIR capture 100 ms apart, tolerance 200 ms.
    let rgb = catalog(&[("rgb/210101_120000000.iiq", 7)]);
    let nir = catalog(&[("nir/210101_120000100.iiq", 7)]);
    let r = classify_streams(rgb, nir, 200, false);
    assert_eq!(r.matched_count, 1);
    assert_eq!(r.matched_rgb, strings(&["rgb/210101_120000000.iiq"]));
    assert_eq!(r.matched_nir, strings(&["nir/210101_120000100.iiq"]));
    assert_eq!(r.unmatched_rgb, Vec::<String>::new());
    assert_eq!(r.unmatched_nir, Vec::<String>::new());
    assert_eq!(r.empty_rgb_count, 0);
    assert_eq!(r.empty_nir_count, 0);
    assert_eq!(r.rgb_total, 1);
    assert_eq!(r.nir_total, 1);
}

#[test]
fn test_one_match_and_two_strays() {
    // Only the first pair is within 200 ms; the late captures on each side
    // stay unmatched.
    let rgb = catalog(&[("rgb/210101_120000000.iiq", 7), ("rgb/210101_120001000.iiq", 7)]);
    let nir = catalog(&[("nir/210101_120000100.iiq", 7), ("nir/210101_120005000.iiq", 7)]);
    let r = classify_streams(rgb, nir, 200, false);
    assert_eq!(r.matched_count, 1);
    assert_eq!(r.matched_rgb, strings(&["rgb/210101_120000000.iiq"]));
    assert_eq!(r.matched_nir, strings(&["nir/210101_120000100.iiq"]));
    assert_eq!(r.unmatched_rgb, strings(&["rgb/210101_120001000.iiq"]));
    assert_eq!(r.unmatched_nir, strings(&["nir/210101_120005000.iiq"]));
    assert_eq!(r.empty_rgb_count, 0);
    assert_eq!(r.empty_nir_count, 0);
}

#[test]
fn test_zero_byte_file_goes_to_empty_only() {
    let rgb = catalog(&[("rgb/210101_120000000.iiq", 0)]);
    let nir = catalog(&[("nir/210101_120000100.iiq", 7)]);
    let r = classify_streams(rgb, nir, 200, false);
    assert_eq!(r.empty_rgb, strings(&["rgb/210101_120000000.iiq"]));
    assert_eq!(r.empty_rgb_count, 1);
    assert!(!r.matched_rgb.contains(&"rgb/210101_120000000.iiq".to_string()));
    assert!(!r.unmatched_rgb.contains(&"rgb/210101_120000000.iiq".to_string()));
    assert_eq!(r.matched_count, 0);
    assert_eq!(r.unmatched_nir, strings(&["nir/210101_120000100.iiq"]));
}

#[test]
fn test_two_nir_one_far_outside_threshold() {
    // One RGB record, two NIR records of which one is far outside the
    // tolerance: one match, exactly one stray NIR, no stray RGB.
    let rgb = catalog(&[("rgb/210101_120000000.iiq", 7)]);
    let nir = catalog(&[("nir/210101_120000100.iiq", 7), ("nir/210101_120005000.iiq", 7)]);
    let r = classify_streams(rgb, nir, 200, false);
    assert_eq!(r.matched_count, 1);
    assert_eq!(r.unmatched_nir, strings(&["nir/210101_120005000.iiq"]));
    assert_eq!(r.unmatched_rgb, Vec::<String>::new());
}

#[test]
fn test_every_record_in_exactly_one_bucket() {
    let rgb_entries = [
        ("rgb/210101_120000000.iiq", 7),
        ("rgb/210101_120001000.iiq", 7),
        ("rgb/210101_130000000.iiq", 0),
    ];
    let nir_entries = [
        ("nir/210101_120000100.iiq", 7),
        ("nir/210101_120005000.iiq", 7),
    ];
    let r = classify_streams(catalog(&rgb_entries), catalog(&nir_entries), 200, false);
    for (p, _) in rgb_entries.iter() {
        let p = p.to_string();
        let hits = r.matched_rgb.iter().filter(|q| **q == p).count()
            + r.unmatched_rgb.iter().filter(|q| **q == p).count()
            + r.empty_rgb.iter().filter(|q| **q == p).count();
        assert_eq!(hits, 1);
    }
    for (p, _) in nir_entries.iter() {
        let p = p.to_string();
        let hits = r.matched_nir.iter().filter(|q| **q == p).count()
            + r.unmatched_nir.iter().filter(|q| **q == p).count()
            + r.empty_nir.iter().filter(|q| **q == p).count();
        assert_eq!(hits, 1);
    }
}

#[test]
fn test_repeated_runs_identical() {
    let entries_rgb = [("rgb/210101_120000000.iiq", 7), ("rgb/210101_120001000.iiq", 7)];
    let entries_nir = [("nir/210101_120000100.iiq", 7), ("nir/210101_120005000.iiq", 7)];
    let a = classify_streams(catalog(&entries_rgb), catalog(&entries_nir), 200, false);
    let b = classify_streams(catalog(&entries_rgb), catalog(&entries_nir), 200, false);
    assert_eq!(a.matched_rgb, b.matched_rgb);
    assert_eq!(a.matched_nir, b.matched_nir);
    assert_eq!(a.unmatched_rgb, b.unmatched_rgb);
    assert_eq!(a.unmatched_nir, b.unmatched_nir);
    assert_eq!(a.empty_rgb, b.empty_rgb);
    assert_eq!(a.empty_nir, b.empty_nir);
    assert_eq!(a.matched_count, b.matched_count);
}

#[test]
fn test_zero_threshold_identical_instants() {
    let rgb = catalog(&[("rgb/210101_120000000.iiq", 7), ("rgb/210101_120001000.iiq", 7)]);
    let nir = catalog(&[("nir/210101_120000000.iiq", 7), ("nir/210101_120001000.iiq", 7)]);
    let r = classify_streams(rgb, nir, 0, false);
    assert_eq!(r.matched_count, 2);
    assert_eq!(r.unmatched_rgb, Vec::<String>::new());
    assert_eq!(r.unmatched_nir, Vec::<String>::new());
}

#[test]
fn test_empty_stream_leaves_other_unmatched() {
    let rgb = catalog(&[("rgb/210101_120000000.iiq", 7), ("rgb/210101_120001000.iiq", 7)]);
    let nir = catalog(&[]);
    let r = classify_streams(rgb, nir, 200, false);
    assert_eq!(r.matched_count, 0);
    assert_eq!(
        r.unmatched_rgb,
        strings(&["rgb/210101_120000000.iiq", "rgb/210101_120001000.iiq"])
    );
    assert_eq!(r.unmatched_nir, Vec::<String>::new());
    assert_eq!(r.rgb_total, 2);
    assert_eq!(r.nir_total, 0);
}

#[test]
fn test_stream_emptied_by_size_filter() {
    // The NIR stream has only a zero-byte capture: with keepEmpty off it is
    // empty after filtering, so the RGB record cannot match.
    let rgb = catalog(&[("rgb/210101_120000000.iiq", 7)]);
    let nir = catalog(&[("nir/210101_120000100.iiq", 0)]);
    let r = classify_streams(rgb, nir, 200, false);
    assert_eq!(r.matched_count, 0);
    assert_eq!(r.unmatched_rgb, strings(&["rgb/210101_120000000.iiq"]));
    assert_eq!(r.empty_nir, strings(&["nir/210101_120000100.iiq"]));
    assert_eq!(r.empty_nir_count, 1);
}

#[test]
fn test_keep_empty_lets_zero_byte_files_match() {
    // With keepEmpty set, zero-byte captures take part in pairing and no
    // degenerate lists are produced.
    let rgb = catalog(&[("rgb/210101_120000000.iiq", 7), ("rgb/210101_130000000.iiq", 0)]);
    let nir = catalog(&[("nir/210101_120000100.iiq", 7), ("nir/210101_130000100.iiq", 0)]);
    let r = classify_streams(rgb, nir, 200, true);
    assert_eq!(r.matched_count, 2);
    assert_eq!(r.empty_rgb_count, 0);
    assert_eq!(r.empty_nir_count, 0);
    assert_eq!(r.empty_rgb, Vec::<String>::new());
    assert_eq!(r.empty_nir, Vec::<String>::new());
    assert_eq!(r.unmatched_rgb, Vec::<String>::new());
    assert_eq!(r.unmatched_nir, Vec::<String>::new());
}

#[test]
fn test_no_keep_empty_splits_zero_byte_files() {
    let rgb = catalog(&[("rgb/210101_120000000.iiq", 7), ("rgb/210101_130000000.iiq", 0)]);
    let nir = catalog(&[("nir/210101_120000100.iiq", 7), ("nir/210101_130000100.iiq", 0)]);
    let r = classify_streams(rgb, nir, 200, false);
    assert_eq!(r.rgb_total, 2);
    assert_eq!(r.nir_total, 2);
    assert_eq!(r.matched_count, 1);
    assert_eq!(r.empty_rgb, strings(&["rgb/210101_130000000.iiq"]));
    assert_eq!(r.empty_nir, strings(&["nir/210101_130000100.iiq"]));
    assert_eq!(r.empty_rgb_count, 1);
    assert_eq!(r.empty_nir_count, 1);
}

#[test]
fn test_correlate_union_dedup() {
    // RGB at 12:00:00 and 12:00:01; NIR at 12:00:00 and 12:00:02. The pair
    // (first RGB, first NIR) comes out of both passes and is kept once; the
    // second RGB ties between the two NIR captures and takes the earlier.
    let rgb = catalog(&[("rgb/210101_120000000.iiq", 7), ("rgb/210101_120001000.iiq", 7)]);
    let nir = catalog(&[("nir/210101_120000000.iiq", 7), ("nir/210101_120002000.iiq", 7)]);
    let pairs = correlate(&rgb, &nir);
    assert_eq!(pairs.len(), 3);
    assert_eq!((pairs[0].rgb, pairs[0].nir, pairs[0].delta_ms), (0, 0, 0));
    assert_eq!((pairs[1].rgb, pairs[1].nir, pairs[1].delta_ms), (1, 0, 1000));
    assert_eq!((pairs[2].rgb, pairs[2].nir, pairs[2].delta_ms), (1, 1, 1000));
}

#[test]
fn test_tie_breaks_toward_earlier_capture() {
    // The RGB capture sits 100 ms from both NIR captures: the earlier one is
    // taken as its partner.
    let rgb = catalog(&[("rgb/210101_120001000.iiq", 7)]);
    let nir = catalog(&[("nir/210101_120000900.iiq", 7), ("nir/210101_120001100.iiq", 7)]);
    let pairs = correlate(&rgb, &nir);
    assert_eq!(pairs.len(), 2);
    assert_eq!((pairs[0].rgb, pairs[0].nir, pairs[0].delta_ms), (0, 0, 100));
    assert_eq!((pairs[1].rgb, pairs[1].nir, pairs[1].delta_ms), (0, 1, 100));
}

#[test]
fn test_out_of_order_catalogs_are_sorted() {
    // Catalog order is capture order reversed; pairing must still follow the
    // instants, not the catalog positions.
    let rgb = catalog(&[("rgb/210101_120005000.iiq", 7), ("rgb/210101_120000000.iiq", 7)]);
    let nir = catalog(&[("nir/210101_120000100.iiq", 7)]);
    let r = classify_streams(rgb, nir, 200, false);
    assert_eq!(r.matched_count, 1);
    assert_eq!(r.matched_rgb, strings(&["rgb/210101_120000000.iiq"]));
    assert_eq!(r.unmatched_rgb, strings(&["rgb/210101_120005000.iiq"]));
    assert_eq!(r.unmatched_nir, Vec::<String>::new());
}

#[test]
fn test_both_streams_empty() {
    let r = classify_streams(catalog(&[]), catalog(&[]), 200, false);
    assert_eq!(r.matched_count, 0);
    assert_eq!(r.rgb_total, 0);
    assert_eq!(r.nir_total, 0);
    assert_eq!(r.matched_rgb, Vec::<String>::new());
    assert_eq!(r.unmatched_rgb, Vec::<String>::new());
    assert_eq!(r.empty_rgb, Vec::<String>::new());
}
