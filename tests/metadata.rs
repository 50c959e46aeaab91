use mpeg2::metadata_parser::{duration_ms_exec, parse_number_exec, sort_pictures, split_words};
use mpeg2::{meta_decode, picture_by_id, FrameMode, MetaError, Picture};

#[test]
fn two_pictures_of_one_sequence() {
    let pictures = meta_decode(b"SEQ 1080000\nPIC 0 0 PROG\nPIC 1 1 TFF\n").unwrap();
    assert_eq!(pictures.len(), 2);
    assert_eq!(pictures[0].id, 0);
    assert_eq!(pictures[1].id, 1);
    assert_eq!(pictures[0].duration_ms, 25);
    assert_eq!(pictures[1].duration_ms, 25);
    assert_eq!(pictures[0].picture_type, FrameMode::PROG);
    assert_eq!(pictures[1].picture_type, FrameMode::TFF);
}

#[test]
fn seq_without_period_uses_default() {
    let pictures = meta_decode(b"SEQ\nPIC 0 0\n").unwrap();
    assert_eq!(pictures.len(), 1);
    assert_eq!(pictures[0].duration_ms, 25);
    assert_eq!(pictures[0].picture_type, FrameMode::BFF);
}

#[test]
fn pic_before_seq_is_missing_sequence_header() {
    assert_eq!(meta_decode(b"PIC 0 0 PROG\nSEQ 1080000\n"), Err(MetaError::MissingSequenceHeader));
}

#[test]
fn bad_numbers_are_malformed() {
    assert_eq!(meta_decode(b"SEQ abc\n"), Err(MetaError::MalformedRecord));
    assert_eq!(meta_decode(b"SEQ 1080000\nPIC 0 x\n"), Err(MetaError::MalformedRecord));
    assert_eq!(meta_decode(b"SEQ 1080000\nPIC y 0\n"), Err(MetaError::MalformedRecord));
    assert_eq!(meta_decode(b"SEQ 1080000\nPIC 0\n"), Err(MetaError::MalformedRecord));
    assert_eq!(
        meta_decode(b"SEQ 1080000\nPIC 0 99999999999999999999999\n"),
        Err(MetaError::MalformedRecord)
    );
}

#[test]
fn first_error_wins() {
    assert_eq!(meta_decode(b"SEQ 1\nPIC 0\nPIC 0 0\n"), Err(MetaError::MalformedRecord));
    assert_eq!(meta_decode(b"PIC 0 0\nSEQ x\n"), Err(MetaError::MissingSequenceHeader));
}

#[test]
fn sequences_rebase_and_sort() {
    let log = b"SEQ 900000\nPIC 0 2 TFF\nPIC 1 0 RFF TFF\nPIC 2 1\nSEQ 1080000\nPIC 3 1 PROG\nPIC 4 0 RFF\n";
    let pictures = meta_decode(log).unwrap();
    let ids: Vec<usize> = pictures.iter().map(|p| p.id).collect();
    assert_eq!(ids, vec![0, 1, 2, 3, 4]);
    let modes: Vec<FrameMode> = pictures.iter().map(|p| p.picture_type).collect();
    assert_eq!(
        modes,
        vec![FrameMode::RFF_TFF, FrameMode::BFF, FrameMode::TFF, FrameMode::RFF_BFF, FrameMode::PROG]
    );
    assert_eq!(pictures[0].duration_ms, 30);
    assert_eq!(pictures[4].duration_ms, 25);
}

#[test]
fn last_line_without_line_feed_counts() {
    let pictures = meta_decode(b"SEQ 1080000\r\nPIC 0 0 TFF\r\nPIC 1 +1 PROG").unwrap();
    assert_eq!(pictures.len(), 2);
    assert_eq!(pictures[1].id, 1);
    assert_eq!(pictures[1].picture_type, FrameMode::PROG);
    assert_eq!(pictures[0].picture_type, FrameMode::TFF);
}

#[test]
fn other_lines_are_ignored() {
    let pictures = meta_decode(b"# log\n\nSEQ 1080000\nfoo bar\nPIC 0 0\n").unwrap();
    assert_eq!(pictures.len(), 1);
    assert_eq!(meta_decode(b"").unwrap().len(), 0);
}

#[test]
fn duplicate_ids_keep_parse_order() {
    let pictures = meta_decode(b"SEQ 1080000\nPIC 0 1 TFF\nSEQ 1080000\nPIC 1 0 PROG\n").unwrap();
    assert_eq!(pictures.len(), 2);
    assert_eq!(pictures[0].id, 1);
    assert_eq!(pictures[1].id, 1);
    assert_eq!(pictures[0].picture_type, FrameMode::TFF);
    assert_eq!(pictures[1].picture_type, FrameMode::PROG);
    assert_eq!(picture_by_id(&pictures, 1).unwrap().picture_type, FrameMode::PROG);
    assert!(picture_by_id(&pictures, 0).is_none());
}

#[test]
fn durations_round_to_nearest() {
    assert_eq!(duration_ms_exec(1_080_000), 25);
    assert_eq!(duration_ms_exec(900_000), 30);
    assert_eq!(duration_ms_exec(1_126_126), 24);
    assert_eq!(duration_ms_exec(1_080_001), 25);
    assert_eq!(duration_ms_exec(2_000_000), 14);
    assert_eq!(duration_ms_exec(54_000_000), 1);
    assert_eq!(duration_ms_exec(54_000_001), 0);
    assert_eq!(duration_ms_exec(0), u64::MAX);
}

#[test]
fn numbers() {
    assert_eq!(parse_number_exec(b"0"), Some(0));
    assert_eq!(parse_number_exec(b"+12"), Some(12));
    assert_eq!(parse_number_exec(b"+"), None);
    assert_eq!(parse_number_exec(b""), None);
    assert_eq!(parse_number_exec(b"-1"), None);
    assert_eq!(parse_number_exec(b"1a"), None);
    assert_eq!(parse_number_exec(b"18446744073709551615"), Some(usize::MAX));
    assert_eq!(parse_number_exec(b"18446744073709551616"), None);
}

#[test]
fn words_of_a_line() {
    let ws = split_words(b"  PIC 1\t2  TFF\x0b\n");
    assert_eq!(ws, vec![b"PIC".to_vec(), b"1".to_vec(), b"2".to_vec(), b"TFF".to_vec()]);
    assert!(split_words(b" \t ").is_empty());
}

#[test]
fn sort_is_stable() {
    let p = |id: usize, duration_ms: u64| Picture { duration_ms, picture_type: FrameMode::PROG, id };
    let sorted = sort_pictures(&vec![p(3, 1), p(1, 2), p(3, 3), p(0, 4), p(1, 5)]);
    let keys: Vec<(usize, u64)> = sorted.iter().map(|p| (p.id, p.duration_ms)).collect();
    assert_eq!(keys, vec![(0, 4), (1, 2), (1, 5), (3, 1), (3, 3)]);
}
