use bamcov::partition::chunk_bounds;
use bamcov::bed::{parse_bed_line, parse_bed_lines, BedError};
use bamcov::region::{
    find_chrom, parse_region_spec, parse_region_text, resolve_specs, whole_genome, ChromInfo,
    RegionError, RegionSpec,
};
use bamcov::run::{Coverage, Range};
use bamcov::scan::{narrow_depth, scan_values, RegionScan, ScanError};
use bamcov::select::{quick_select, sort_select};
use bamcov::stats::{cov_stat, default_thresholds, parse_thresholds, Report, Selection, StatsError};

fn chroms() -> Vec<ChromInfo> {
    vec![
        ChromInfo { name: "chr1".to_string(), size: 1000 },
        ChromInfo { name: "chr2".to_string(), size: 500 },
    ]
}

fn run(length: u32, value: u16) -> Range {
    Range { length, value }
}

fn coverage_of(runs: &[Range]) -> Coverage {
    let mut c = Coverage::new();
    for r in runs {
        assert!(c.add_run(r.length, r.value));
    }
    c
}

fn mean(rep: &Report) -> f64 {
    rep.total_depth as f64 / rep.total_bases as f64
}

fn variance(rep: &Report) -> f64 {
    let m = mean(rep);
    rep.sum_sq as f64 / rep.total_bases as f64 - m * m
}

#[test]
fn region_text_chromosome_only() {
    let p = parse_region_text("chr1").unwrap();
    assert_eq!(p.chr, b"chr1".to_vec());
    assert_eq!(p.from, None);
    assert_eq!(p.to, None);
}

#[test]
fn region_text_from_to() {
    let p = parse_region_text("chr1:100-200").unwrap();
    assert_eq!(p.chr, b"chr1".to_vec());
    assert_eq!(p.from, Some(100));
    assert_eq!(p.to, Some(200));
}

#[test]
fn region_text_to_only() {
    let p = parse_region_text("chr1:500").unwrap();
    assert_eq!(p.from, None);
    assert_eq!(p.to, Some(500));
}

#[test]
fn region_text_open_end_rejected() {
    assert_eq!(parse_region_text("chr1:100-").unwrap_err(), RegionError::InvalidRegionSpec);
    let texts = vec!["chr1:100-".to_string()];
    assert_eq!(parse_region_spec(Some(&texts), &chroms()).unwrap_err(), RegionError::InvalidRegionSpec);
}

#[test]
fn region_text_overflow_rejected() {
    for bad in ["chr1:99999999999-5", "chr1:5-99999999999", "chr1:4294967296"] {
        assert_eq!(parse_region_text(bad).unwrap_err(), RegionError::InvalidRegionSpec, "{}", bad);
    }
    let p = parse_region_text("chr1:4294967295").unwrap();
    assert_eq!(p.to, Some(u32::MAX));
}

#[test]
fn region_text_invalid() {
    for bad in ["", ":1-2", "chr1:", "chr1:a-b", "chr1:-5", "chr1:1-2-3", "chr1:1:2", "chr1:1-x"] {
        assert_eq!(parse_region_text(bad).unwrap_err(), RegionError::InvalidRegionSpec, "{}", bad);
    }
}

#[test]
fn resolve_examples() {
    let texts = vec![
        "chr1".to_string(),
        "chr1:100-200".to_string(),
        "chr1:500".to_string(),
        "chrZ:1-10".to_string(),
    ];
    let r = parse_region_spec(Some(&texts), &chroms()).unwrap();
    assert_eq!(r.regions, vec![(0, 0, 500), (0, 0, 1000), (0, 100, 200)]);
    assert_eq!(r.unknown, vec![3]);
}

#[test]
fn resolve_sorted_with_duplicates() {
    let texts = vec![
        "chr2:5-9".to_string(),
        "chr1:7-8".to_string(),
        "chr2:5-9".to_string(),
        "chr1:3-4".to_string(),
    ];
    let r = parse_region_spec(Some(&texts), &chroms()).unwrap();
    assert_eq!(r.regions, vec![(0, 3, 4), (0, 7, 8), (1, 5, 9), (1, 5, 9)]);
    assert!(r.unknown.is_empty());
}

#[test]
fn resolve_none_is_whole_genome() {
    let r = parse_region_spec(None, &chroms()).unwrap();
    assert_eq!(r.regions, vec![(0, 0, 1000), (1, 0, 500)]);
    assert_eq!(whole_genome(&chroms()), vec![(0, 0, 1000), (1, 0, 500)]);
}

#[test]
fn resolve_caps_large_chromosome() {
    let big = vec![ChromInfo { name: "big".to_string(), size: 1 << 40 }];
    assert_eq!(whole_genome(&big), vec![(0, 0, u32::MAX)]);
}

#[test]
fn resolve_invalid_spec_fails() {
    let texts = vec!["chr1".to_string(), "chr1:x".to_string()];
    assert_eq!(parse_region_spec(Some(&texts), &chroms()).unwrap_err(), RegionError::InvalidRegionSpec);
}

#[test]
fn find_chrom_by_name() {
    assert_eq!(find_chrom(&chroms(), &b"chr2".to_vec()), Some(1));
    assert_eq!(find_chrom(&chroms(), &b"chr3".to_vec()), None);
}

#[test]
fn resolve_parsed_specs() {
    let specs = vec![RegionSpec { chr: b"chr2".to_vec(), from: None, to: None }];
    let r = resolve_specs(&specs, &chroms());
    assert_eq!(r.regions, vec![(1, 0, 500)]);
}

#[test]
fn bed_line_record() {
    let p = parse_bed_line("chr1\t100\t200\n").unwrap().unwrap();
    assert_eq!(p.chr, b"chr1".to_vec());
    assert_eq!(p.from, Some(100));
    assert_eq!(p.to, Some(200));
    let q = parse_bed_line("chr2\t5\t9\tname\t0").unwrap().unwrap();
    assert_eq!((q.from, q.to), (Some(5), Some(9)));
}

#[test]
fn bed_line_comment() {
    assert!(parse_bed_line("#chrom\tstart\tend").unwrap().is_none());
}

#[test]
fn bed_line_malformed() {
    for bad in ["chr1\t100", "chr1\tx\t200", "", "chr1\t1\t99999999999", "\t1\t2", "a:b\t1\t2"] {
        assert_eq!(parse_bed_line(bad).unwrap_err(), BedError::InvalidBedRecord, "{:?}", bad);
    }
}

#[test]
fn bed_lines_resolve() {
    let lines = vec!["# header".to_string(), "chr2\t1\t4".to_string(), "chr1\t10\t20".to_string()];
    let specs = parse_bed_lines(&lines).unwrap();
    assert_eq!(specs.len(), 2);
    let r = resolve_specs(&specs, &chroms());
    assert_eq!(r.regions, vec![(0, 10, 20), (1, 1, 4)]);
    let broken = vec!["chr1\t1\t2".to_string(), "chr1 1 2".to_string()];
    assert_eq!(parse_bed_lines(&broken).unwrap_err(), BedError::InvalidBedRecord);
}

#[test]
fn end_to_end_single_track() {
    let depths = vec![vec![0, 0, 0, 5, 5, 5, 5, 0, 0, 0]];
    let cov = scan_values(100, 110, &depths, Coverage::new()).unwrap();
    assert_eq!(cov.runs(), &vec![run(3, 0), run(4, 5), run(3, 0)]);
    assert_eq!(cov.all_length(), 10);
    assert_eq!(cov.total_depth(), 20);
    assert_eq!(cov.depth_x1(), 4);
    let rep = cov_stat(&cov, &vec![1, 10, 20, 30, 50], Selection::Sort).unwrap();
    assert_eq!(rep.total_bases, 10);
    assert_eq!(rep.cov_bases, 4);
    assert_eq!(format!("{:.3}", 100.0 * rep.cov_bases as f64 / rep.total_bases as f64), "40.000");
    assert_eq!(format!("{:.3}", mean(&rep)), "2.000");
    assert!((variance(&rep) - 6.0).abs() < 1e-9);
    assert_eq!(format!("{:.3}", variance(&rep).sqrt()), "2.449");
    assert_eq!(format!("{:.3}", variance(&rep).sqrt() / mean(&rep)), "1.225");
    assert_eq!(rep.threshold_bases, vec![4, 0, 0, 0, 0]);
    assert_eq!(rep.q20, 5);
    assert_eq!(rep.above_fifth_mean, 4);
    assert_eq!(rep.sum_sq, 100);
}

#[test]
fn run_lengths_cover_region() {
    let depths = vec![vec![1, 2, 2, 3, 3, 3, 0, 7]];
    let cov = scan_values(0, 8, &depths, Coverage::new()).unwrap();
    let total: u64 = cov.runs().iter().map(|r| r.length as u64).sum();
    assert_eq!(total, 8);
    assert!(cov.runs().iter().all(|r| r.length >= 1));
    assert_eq!(cov.runs().len(), 5);
}

#[test]
fn mean_times_bases_is_depth() {
    let depths = vec![vec![4, 4, 9, 1, 0, 0, 12]];
    let cov = scan_values(0, 7, &depths, Coverage::new()).unwrap();
    let rep = cov_stat(&cov, &vec![1], Selection::QuickSelect).unwrap();
    assert_eq!(rep.total_depth, 30);
    assert!((mean(&rep) * rep.total_bases as f64 - rep.total_depth as f64).abs() < 1e-9);
}

#[test]
fn degenerate_region_emits_nothing() {
    let cov = scan_values(5, 5, &vec![vec![]], Coverage::new()).unwrap();
    assert!(cov.runs().is_empty());
    assert_eq!(cov.all_length(), 0);
}

#[test]
fn two_tracks_emit_per_track() {
    let depths = vec![vec![1, 1, 2], vec![3, 3, 3]];
    let cov = scan_values(0, 3, &depths, Coverage::new()).unwrap();
    assert_eq!(cov.runs(), &vec![run(2, 1), run(2, 3), run(1, 2), run(1, 3)]);
    assert_eq!(cov.all_length(), 6);
    assert_eq!(cov.total_depth(), 2 + 6 + 2 + 3);
}

#[test]
fn depth_narrowing() {
    assert_eq!(narrow_depth(-4), 0);
    assert_eq!(narrow_depth(70000), 65535);
    assert_eq!(narrow_depth(42), 42);
    let cov = scan_values(0, 2, &vec![vec![-1, 100000]], Coverage::new()).unwrap();
    assert_eq!(cov.runs(), &vec![run(1, 0), run(1, 65535)]);
}

#[test]
fn scan_step_errors() {
    let mut scan = RegionScan::new(10, 12, 2, Coverage::new());
    assert_eq!(scan.step(&vec![(10, 1)]), Err(ScanError::TrackCount));
    assert_eq!(scan.step(&vec![(10, 1), (11, 1)]), Err(ScanError::Desync));
    assert_eq!(scan.step(&vec![(10, 1), (10, 2)]), Ok(()));
    assert_eq!(scan.step(&vec![(11, 1), (11, 2)]), Ok(()));
    let cov = scan.finish().unwrap();
    assert_eq!(cov.runs(), &vec![run(2, 1), run(2, 2)]);
}

#[test]
fn coverage_overflow_refused() {
    let mut c = Coverage::new();
    assert!(c.add_run(u32::MAX, 65535));
    let mut n = 1u64;
    while c.add_run(u32::MAX, 65535) {
        n += 1;
    }
    assert_eq!(c.runs().len() as u64, n);
    assert!(c.total_depth() <= u64::MAX);
    let mut d = coverage_of(&[run(u32::MAX, 65535)]);
    assert!(!d.merge(c));
    assert_eq!(d.runs(), &vec![run(u32::MAX, 65535)]);
}

#[test]
fn selections_agree() {
    let runs = vec![run(3, 0), run(4, 5), run(3, 0), run(2, 9), run(6, 2), run(1, 5)];
    for k in 0..=19u64 {
        let q = quick_select(&runs, k);
        let mut sorted = runs.clone();
        let s = sort_select(&mut sorted, k);
        assert_eq!(q, s, "rank {}", k);
    }
    let mut sorted = runs.clone();
    assert_eq!(sort_select(&mut sorted, 3), 5);
    assert!(sorted.windows(2).all(|w| w[0].value >= w[1].value));
    assert_eq!(quick_select(&runs, 0), 9);
    assert_eq!(quick_select(&runs, 2), 9);
    assert_eq!(quick_select(&runs, 3), 5);
    assert_eq!(quick_select(&runs, 7), 5);
    assert_eq!(quick_select(&runs, 8), 2);
    assert_eq!(quick_select(&runs, 13), 2);
    assert_eq!(quick_select(&runs, 14), 0);
}

#[test]
fn selection_single_run() {
    assert_eq!(quick_select(&vec![run(3, 7)], 100), 7);
    assert_eq!(sort_select(&mut vec![run(3, 7)], 100), 7);
}

#[test]
fn coverage_bounded_and_monotone() {
    let cov = coverage_of(&[run(5, 0), run(3, 12), run(2, 25), run(4, 60), run(1, 1)]);
    let rep = cov_stat(&cov, &vec![1, 10, 20, 30, 50], Selection::Sort).unwrap();
    assert_eq!(rep.cov_bases, 10);
    assert!(rep.cov_bases <= rep.total_bases);
    assert_eq!(rep.threshold_bases, vec![10, 9, 6, 4, 4]);
    for w in rep.threshold_bases.windows(2) {
        assert!(w[0] >= w[1]);
    }
    for t in &rep.threshold_bases {
        let pct = 100.0 * *t as f64 / rep.total_bases as f64;
        assert!((0.0..=100.0).contains(&pct));
    }
}

#[test]
fn fold80_value() {
    let cov = coverage_of(&[run(5, 0), run(3, 12), run(2, 25), run(4, 60), run(1, 1)]);
    let a = cov_stat(&cov, &vec![], Selection::Sort).unwrap();
    let b = cov_stat(&cov, &vec![], Selection::QuickSelect).unwrap();
    // a fifth of the 10 covered positions: rank 2 from the top
    assert_eq!(a.q20, 60);
    assert_eq!(b.q20, 60);
    // mean 327 / 15 = 21.8: depths 12, 25 and 60 exceed a fifth of it
    assert_eq!(a.above_fifth_mean, 9);
}

#[test]
fn empty_input_is_division_by_zero() {
    let cov = Coverage::new();
    assert_eq!(cov_stat(&cov, &vec![1], Selection::Sort).unwrap_err(), StatsError::DivisionByZero);
}

#[test]
fn partitioned_matches_sequential() {
    let regions: Vec<Vec<i32>> = vec![
        vec![0, 0, 3, 3, 8],
        vec![1, 1, 1],
        vec![9, 0, 9, 0],
        vec![2, 2],
        vec![5],
    ];
    let mut seq = Coverage::new();
    for d in &regions {
        seq = scan_values(0, d.len() as u32, &vec![d.clone()], seq).unwrap();
    }
    let bounds = chunk_bounds(regions.len(), 2);
    let mut parts = Vec::new();
    for &(s, e) in &bounds {
        let mut local = Coverage::new();
        for d in &regions[s..e] {
            local = scan_values(0, d.len() as u32, &vec![d.clone()], local).unwrap();
        }
        parts.push(local);
    }
    let mut merged = Coverage::new();
    for p in parts.into_iter().rev() {
        assert!(merged.merge(p));
    }
    let th = vec![1, 2, 5, 9];
    let a = cov_stat(&seq, &th, Selection::Sort).unwrap();
    let b = cov_stat(&merged, &th, Selection::QuickSelect).unwrap();
    assert_eq!(a.total_bases, b.total_bases);
    assert_eq!(a.cov_bases, b.cov_bases);
    assert_eq!(a.total_depth, b.total_depth);
    assert_eq!(a.threshold_bases, b.threshold_bases);
    assert_eq!(a.sum_sq, b.sum_sq);
    assert_eq!(a.q20, b.q20);
    assert_eq!(a.above_fifth_mean, b.above_fifth_mean);
}

#[test]
fn chunks_cover_in_order() {
    assert_eq!(chunk_bounds(10, 4), vec![(0, 3), (3, 6), (6, 9), (9, 10)]);
    assert_eq!(chunk_bounds(1, 4), vec![(0, 1), (1, 1), (1, 1), (1, 1)]);
    assert_eq!(chunk_bounds(0, 2), vec![(0, 0), (0, 0)]);
    assert_eq!(chunk_bounds(6, 3), vec![(0, 2), (2, 4), (4, 6)]);
}

#[test]
fn threshold_lists() {
    assert_eq!(parse_thresholds("10,20,30"), Some(vec![10, 20, 30]));
    assert_eq!(parse_thresholds(" 1 , 5\t,65535"), Some(vec![1, 5, 65535]));
    assert_eq!(parse_thresholds("7"), Some(vec![7]));
    for bad in ["", "10,", ",10", "10,,20", "65536", "1x", "10;20"] {
        assert_eq!(parse_thresholds(bad), None, "{:?}", bad);
    }
}

#[test]
fn no_tracks_is_reported() {
    let r = scan_values(0, 0, &vec![], Coverage::new());
    assert!(matches!(r, Err(ScanError::NoTracks)));
    let r = scan_values(0, 3, &vec![], Coverage::new());
    assert!(matches!(r, Err(ScanError::NoTracks)));
}

#[test]
fn regions_capped_to_chromosome() {
    let texts = vec![
        "chr2:400-900".to_string(),
        "chr1:200-100".to_string(),
        "chr2:600-700".to_string(),
        "chr1:5000".to_string(),
    ];
    let r = parse_region_spec(Some(&texts), &chroms()).unwrap();
    assert_eq!(r.regions, vec![(0, 0, 1000), (0, 100, 100), (1, 400, 500), (1, 500, 500)]);
    for &(c, s, e) in &r.regions {
        assert!(s <= e && e as u64 <= chroms()[c].size);
    }
}

#[test]
fn default_threshold_set() {
    assert_eq!(default_thresholds(), vec![1, 10, 20, 30, 50]);
}

#[test]
fn unknown_chromosome_changes_nothing() {
    let with_it = vec!["chr2:1-9".to_string(), "chrZ:1-10".to_string(), "chr1:3-4".to_string()];
    let without = vec!["chr2:1-9".to_string(), "chr1:3-4".to_string()];
    let a = parse_region_spec(Some(&with_it), &chroms()).unwrap();
    let b = parse_region_spec(Some(&without), &chroms()).unwrap();
    assert_eq!(a.regions, b.regions);
    assert_eq!(a.unknown, vec![1]);
    assert!(b.unknown.is_empty());
}
