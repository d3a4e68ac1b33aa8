use std::io::Write;

use flate2::write::GzEncoder;
use flate2::Compression;
use slpk_unpack::errors::UnpackError;
use slpk_unpack::split_indices::split_indices_into_ranges;
use slpk_unpack::unpack::{aggregate_outcomes, decode_entry, plan_entry, EntryPlan, ExtractedFile};

fn gz(data: &[u8]) -> Vec<u8> {
    let mut enc = GzEncoder::new(Vec::new(), Compression::default());
    enc.write_all(data).unwrap();
    enc.finish().unwrap()
}

#[test]
fn gz_entry_is_decompressed_to_the_stripped_name() {
    let plan = plan_entry(b"data/tile.bin.gz");
    match &plan {
        EntryPlan::Decompress { components } => {
            assert_eq!(components, &vec![b"data".to_vec(), b"tile.bin".to_vec()]);
        }
        _ => panic!("expected a decompress plan"),
    }
    let file = decode_entry(plan, gz(b"payload")).unwrap().unwrap();
    assert_eq!(file.components, vec![b"data".to_vec(), b"tile.bin".to_vec()]);
    assert_eq!(file.data, b"payload".to_vec());
}

#[test]
fn plain_entry_is_copied_verbatim() {
    let plan = plan_entry(b"data/tile.bin");
    match &plan {
        EntryPlan::Copy { components } => {
            assert_eq!(components, &vec![b"data".to_vec(), b"tile.bin".to_vec()]);
        }
        _ => panic!("expected a copy plan"),
    }
    let file = decode_entry(plan, b"raw-bytes".to_vec()).unwrap().unwrap();
    assert_eq!(file.components, vec![b"data".to_vec(), b"tile.bin".to_vec()]);
    assert_eq!(file.data, b"raw-bytes".to_vec());
}

#[test]
fn gz_detection_is_case_sensitive_and_needs_a_stem() {
    assert!(matches!(plan_entry(b"a/b.GZ"), EntryPlan::Copy { .. }));
    assert!(matches!(plan_entry(b"a/.gz"), EntryPlan::Copy { .. }));
    assert!(matches!(plan_entry(b"a/b.gzip"), EntryPlan::Copy { .. }));
    assert!(matches!(plan_entry(b"a/b.tar.gz"), EntryPlan::Decompress { .. }));
}

#[test]
fn directory_markers_are_skipped() {
    let plan = plan_entry(b"data/textures/");
    assert!(matches!(plan, EntryPlan::Skip));
    assert!(decode_entry(plan, Vec::new()).unwrap().is_none());
}

#[test]
fn corrupt_stream_is_reported() {
    let plan = plan_entry(b"broken.json.gz");
    let outcome = decode_entry(plan, b"this is no gzip stream".to_vec());
    assert_eq!(outcome.err(), Some(UnpackError::CorruptEntry));
}

#[test]
fn successful_workers_sum_their_counts() {
    let outcomes: Vec<Result<usize, UnpackError>> = vec![Ok(2), Ok(0), Ok(1)];
    assert_eq!(aggregate_outcomes(&outcomes), Ok(3));
}

#[test]
fn the_first_failure_in_worker_order_wins() {
    let outcomes: Vec<Result<usize, UnpackError>> =
        vec![Ok(5), Err(UnpackError::CorruptEntry), Err(UnpackError::Io)];
    assert_eq!(aggregate_outcomes(&outcomes), Err(UnpackError::CorruptEntry));
}

fn run_workers(
    entries: &[(String, Vec<u8>)],
    workers: usize,
) -> (Vec<Result<usize, UnpackError>>, Vec<ExtractedFile>) {
    let ranges = split_indices_into_ranges(entries.len(), workers);
    let mut outcomes = Vec::new();
    let mut files = Vec::new();
    for (start, end) in ranges {
        let mut count = 0usize;
        let mut failure = None;
        for idx in start..end {
            let (name, data) = &entries[idx];
            let plan = plan_entry(name.as_bytes());
            match decode_entry(plan, data.clone()) {
                Ok(Some(file)) => {
                    files.push(file);
                    count += 1;
                }
                Ok(None) => {
                    count += 1;
                }
                Err(e) => {
                    failure = Some(e);
                    break;
                }
            }
        }
        outcomes.push(match failure {
            Some(e) => Err(e),
            None => Ok(count),
        });
    }
    (outcomes, files)
}

#[test]
fn three_entry_archive_with_two_workers() {
    let entries = vec![
        ("a.txt".to_string(), b"alpha".to_vec()),
        ("b/c.json.gz".to_string(), gz(b"{}")),
        ("d.txt".to_string(), b"delta".to_vec()),
    ];
    let (outcomes, files) = run_workers(&entries, 2);
    assert_eq!(aggregate_outcomes(&outcomes), Ok(3));
    assert_eq!(files.len(), 3);
    assert_eq!(files[0].components, vec![b"a.txt".to_vec()]);
    assert_eq!(files[0].data, b"alpha".to_vec());
    assert_eq!(files[1].components, vec![b"b".to_vec(), b"c.json".to_vec()]);
    assert_eq!(files[1].data, b"{}".to_vec());
    assert_eq!(files[2].components, vec![b"d.txt".to_vec()]);
    assert_eq!(files[2].data, b"delta".to_vec());
}

#[test]
fn a_failure_stops_only_its_own_worker() {
    let mut entries: Vec<(String, Vec<u8>)> = (0..10)
        .map(|k| (format!("f{}.txt", k), vec![k as u8]))
        .collect();
    entries[5] = ("f5.txt.gz".to_string(), b"garbage".to_vec());
    let (outcomes, files) = run_workers(&entries, 2);
    assert_eq!(outcomes, vec![Ok(5), Err(UnpackError::CorruptEntry)]);
    assert_eq!(
        aggregate_outcomes(&outcomes),
        Err(UnpackError::CorruptEntry)
    );
    // The first worker's five entries were all written before the second
    // worker's failure; nothing after the failing index was attempted.
    assert_eq!(files.len(), 5);
    for (k, file) in files.iter().enumerate() {
        assert_eq!(file.components, vec![format!("f{}.txt", k).into_bytes()]);
        assert_eq!(file.data, vec![k as u8]);
    }
}
