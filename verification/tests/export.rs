use novelty_search::explainer::{
    build_lineage, default_export_path, export_file_name, unix_seconds_now, winner_position,
    ExportMeta, LineageStep, SelectionRecord, EXPORT_VERSION,
};

#[test]
fn export_file_names() {
    assert_eq!(export_file_name(1700000000), "explainer-run-1700000000.json");
    assert_eq!(export_file_name(0), "explainer-run-0.json");
    assert_eq!(export_file_name(u64::MAX), "explainer-run-18446744073709551615.json");
}

#[test]
fn default_path_has_the_pattern() {
    let p = default_export_path();
    let s = p.to_str().unwrap().to_string();
    assert!(s.starts_with("explainer-run-"));
    assert!(s.ends_with(".json"));
    let digits = &s["explainer-run-".len()..s.len() - ".json".len()];
    assert!(!digits.is_empty() && digits.chars().all(|c| c.is_ascii_digit()));
    assert!(digits.parse::<u64>().unwrap() > 1_600_000_000);
}

#[test]
fn export_meta_version() {
    let m = ExportMeta::new(12);
    assert_eq!(m.version, 1);
    assert_eq!(m.exported_at_unix, 12);
    let now = ExportMeta::now();
    assert_eq!(now.version, EXPORT_VERSION);
    assert!(now.exported_at_unix <= unix_seconds_now());
}

fn record(population: usize, elite_idx: usize, tournament_winners: Vec<usize>) -> SelectionRecord {
    SelectionRecord { population, elite_idx, tournament_winners }
}

#[test]
fn winner_position_cases() {
    let records = vec![record(3, 1, vec![0, 2]), record(3, 0, vec![1, 1])];
    assert_eq!(winner_position(&vec![], 1, 0), None);
    assert_eq!(winner_position(&records, 0, 0), None);
    assert_eq!(winner_position(&records, 3, 0), None);
    assert_eq!(winner_position(&records, 2, 3), None);
    assert_eq!(winner_position(&records, 2, 2), Some((2, 2)));
}

fn step(generation: u32, idx: usize, from_elite: bool) -> LineageStep {
    LineageStep { generation, idx, from_elite }
}

#[test]
fn lineage_follows_elites_and_winners() {
    // Generation 1: elite 1, winners [0, 2] for children 1 and 2 of generation 2.
    // Generation 2: elite 2, winners [1, 1].
    let records = vec![
        record(3, 1, vec![0, 2]),
        record(3, 2, vec![1, 1]),
        record(3, 0, vec![0, 0]),
    ];
    // Child 2 of generation 3 comes from winner 1 of generation 2, which
    // comes from winner 0 of generation 1.
    assert_eq!(
        build_lineage(&records, 3, 2),
        vec![step(1, 0, false), step(2, 1, false), step(3, 2, false)]
    );
    // Child 0 of generation 3 is the elite 2 of generation 2, a mutated
    // copy of generation 1's individual 2.
    assert_eq!(
        build_lineage(&records, 3, 0),
        vec![step(1, 2, false), step(2, 2, false), step(3, 0, true)]
    );
    // Child 0 of generation 2 is the elite of generation 1.
    assert_eq!(build_lineage(&records, 2, 0), vec![step(1, 1, false), step(2, 0, true)]);
    assert_eq!(build_lineage(&records, 1, 1), vec![step(1, 1, false)]);
}

#[test]
fn lineage_stops_where_records_end() {
    let records = vec![record(3, 1, vec![0]), record(3, 2, vec![1, 1])];
    // Individual 2 of generation 2 has no recorded winner in generation 1.
    assert_eq!(build_lineage(&records, 2, 2), vec![step(2, 2, false)]);
    // Outside the records.
    assert_eq!(build_lineage(&records, 3, 0), vec![]);
    assert_eq!(build_lineage(&records, 2, 5), vec![]);
}
