use subconv::format::{subtitle_format, SubFormat};
use subconv::subrip::{parse_shift, parse_subtitle_file, shift, Shift, ShiftError, Timestamp};

const TWO_BLOCKS: &str = "1\n00:00:01,000 --> 00:00:03,000\nHello world\n\n2\n00:00:04,500 --> 00:00:06,000\nSecond line\n\n";

fn triples(subs: &subconv::subrip::Subtitles) -> Vec<(u64, u64, String)> {
    subs.blocks().iter().map(|b| (b.start.0, b.end.0, b.content.clone())).collect()
}

#[test]
fn parse_single_subtitle_block() {
    let subs = parse_subtitle_file("7\n01:02:03,004 --> 01:02:05.600\nOne line\nand another\n\n").unwrap();
    assert_eq!(subs.len(), 1);
    assert_eq!(
        triples(&subs),
        vec![(3_723_004, 3_725_600, "One line\nand another".to_string())]
    );
}

#[test]
fn parse_two_blocks_in_order() {
    let subs = parse_subtitle_file(TWO_BLOCKS).unwrap();
    assert_eq!(
        triples(&subs),
        vec![
            (1000, 3000, "Hello world".to_string()),
            (4500, 6000, "Second line".to_string())
        ]
    );
}

#[test]
fn shift_forward_serialize_and_reparse() {
    let mut subs = parse_subtitle_file(TWO_BLOCKS).unwrap();
    let sh = parse_shift("+00:00:00,500").unwrap();
    shift(&mut subs, &sh).unwrap();
    assert_eq!(
        triples(&subs),
        vec![
            (1500, 3500, "Hello world".to_string()),
            (5000, 6500, "Second line".to_string())
        ]
    );
    let text = subs.to_string();
    assert_eq!(
        text,
        "1\n00:00:01,500 --> 00:00:03,500\nHello world\n\n2\n00:00:05,000 --> 00:00:06,500\nSecond line\n\n"
    );
    let again = parse_subtitle_file(&text).unwrap();
    assert_eq!(triples(&again), triples(&subs));
}

#[test]
fn empty_file_has_no_blocks() {
    let subs = parse_subtitle_file("").unwrap();
    assert_eq!(subs.len(), 0);
    assert_eq!(subs.to_string(), "");
}

#[test]
fn indices_are_renumbered() {
    let subs = parse_subtitle_file("42\n00:00:01,000 --> 00:00:02,000\nA\n\n9\n00:00:03,000 --> 00:00:04,000\nB\n\n").unwrap();
    assert_eq!(
        subs.to_string(),
        "1\n00:00:01,000 --> 00:00:02,000\nA\n\n2\n00:00:03,000 --> 00:00:04,000\nB\n\n"
    );
}

#[test]
fn start_after_end_is_kept_in_order() {
    let subs = parse_subtitle_file("1\n00:00:09,000 --> 00:00:01,000\nLate\n\n2\n00:00:00,000 --> 00:00:00,001\nEarly\n\n").unwrap();
    assert_eq!(
        triples(&subs),
        vec![(9000, 1000, "Late".to_string()), (0, 1, "Early".to_string())]
    );
}

#[test]
fn missing_arrow_is_rejected() {
    assert!(parse_subtitle_file("1\n00:00:01,000 -> 00:00:03,000\nHello\n\n").is_err());
}

#[test]
fn missing_colon_is_rejected() {
    assert!(parse_subtitle_file("1\n00:0001,000 --> 00:00:03,000\nHello\n\n").is_err());
}

#[test]
fn unterminated_body_is_rejected() {
    assert!(parse_subtitle_file("1\n00:00:01,000 --> 00:00:03,000\nHello\n").is_err());
}

#[test]
fn trailing_text_is_rejected() {
    let err = parse_subtitle_file("1\n00:00:01,000 --> 00:00:03,000\nHello\n\n\n").unwrap_err();
    assert_eq!(err.at, 39);
}

#[test]
fn oversized_number_is_rejected() {
    assert!(parse_subtitle_file("1\n99999999999999999999:00:01,000 --> 00:00:03,000\nHello\n\n").is_err());
}

#[test]
fn underflow_is_rejected() {
    let mut t = Timestamp(500);
    let sh = parse_shift("-00:00:01,000").unwrap();
    assert_eq!(t.shift_by(&sh), Err(ShiftError::Underflow));
    assert_eq!(t.0, 500);
}

#[test]
fn underflow_leaves_all_blocks_unchanged() {
    let mut subs = parse_subtitle_file("1\n00:00:05,000 --> 00:00:06,000\nA\n\n2\n00:00:00,500 --> 00:00:02,000\nB\n\n").unwrap();
    let sh = parse_shift("-00:00:01,000").unwrap();
    assert_eq!(shift(&mut subs, &sh), Err(ShiftError::Underflow));
    assert_eq!(
        triples(&subs),
        vec![(5000, 6000, "A".to_string()), (500, 2000, "B".to_string())]
    );
}

#[test]
fn overflow_is_rejected() {
    let mut t = Timestamp(u64::MAX - 10);
    let sh = Shift { negative: false, offset: Timestamp(11) };
    assert_eq!(t.shift_by(&sh), Err(ShiftError::Overflow));
    assert_eq!(t.0, u64::MAX - 10);
}

#[test]
fn zero_shift_changes_nothing() {
    for text in ["+00:00:00,000", "-00:00:00.000", "0:0:0,0"] {
        let mut subs = parse_subtitle_file(TWO_BLOCKS).unwrap();
        let before = triples(&subs);
        shift(&mut subs, &parse_shift(text).unwrap()).unwrap();
        assert_eq!(triples(&subs), before);
    }
}

#[test]
fn shift_and_back_restores() {
    let mut subs = parse_subtitle_file(TWO_BLOCKS).unwrap();
    let before = triples(&subs);
    shift(&mut subs, &parse_shift("01:00:00,250").unwrap()).unwrap();
    shift(&mut subs, &parse_shift("-01:00:00,250").unwrap()).unwrap();
    assert_eq!(triples(&subs), before);
}

#[test]
fn round_trip_keeps_blocks() {
    let text = "3\n123:00:00.5 --> 0:0:1,0\n\nfirst line empty\n\n1\n00:00:00,000 --> 00:00:00,000\n\n\n";
    let subs = parse_subtitle_file(text).unwrap();
    let again = parse_subtitle_file(&subs.to_string()).unwrap();
    assert_eq!(triples(&again), triples(&subs));
    assert_eq!(triples(&subs)[1].2, "");
}

#[test]
fn parse_shift_forms() {
    let s = parse_shift("00:01:02,003").unwrap();
    assert!(!s.negative);
    assert_eq!(s.offset.0, 62_003);
    let s = parse_shift("-1:00:00.000").unwrap();
    assert!(s.negative);
    assert_eq!(s.offset.0, 3_600_000);
    assert_eq!(s.to_string(), "-01:00:00,000");
    assert!(parse_shift("+00:00:01,000 ").is_err());
    assert!(parse_shift("*00:00:01,000").is_err());
    assert!(parse_shift("").is_err());
}

#[test]
fn timestamp_text_is_padded() {
    assert_eq!(Timestamp(0).to_string(), "00:00:00,000");
    assert_eq!(Timestamp(3_723_004).to_string(), "01:02:03,004");
    assert_eq!(Timestamp(360_000_000 + 59_999).to_string(), "100:00:59,999");
}

#[test]
fn subtitle_format_by_extension() {
    assert_eq!(subtitle_format("srt"), Some(SubFormat::SubRip));
    assert_eq!(subtitle_format("ass"), None);
    assert_eq!(subtitle_format("srtx"), None);
    assert_eq!(subtitle_format(""), None);
}

#[test]
fn concatenated_files_keep_block_order() {
    let a = "5\n00:00:09,000 --> 00:00:10,000\nLater\n\n";
    let b = "1\n00:00:01,000 --> 00:00:02,000\nEarlier\n\n";
    let joined = format!("{a}{b}");
    let mut expected = triples(&parse_subtitle_file(a).unwrap());
    expected.extend(triples(&parse_subtitle_file(b).unwrap()));
    assert_eq!(triples(&parse_subtitle_file(&joined).unwrap()), expected);
}
