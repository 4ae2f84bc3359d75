use canva_indexer::error::IndexerError;
use canva_indexer::pixel::{
    check_timestamp, crockford_char_value, encode_timestamp_id, parse_timestamp_id,
    validate_timestamp, CanvaPixel, EARLIEST_TIMESTAMP,
};

#[test]
fn decode_all_zero_id() {
    assert_eq!(parse_timestamp_id("0000000000000"), Ok(0));
}

#[test]
fn decode_last_digit() {
    assert_eq!(parse_timestamp_id("000000000000Z"), Ok(31));
    assert_eq!(parse_timestamp_id("0000000000010"), Ok(32));
}

#[test]
fn decode_is_case_insensitive_and_aliases() {
    assert_eq!(parse_timestamp_id("000000000000z"), Ok(31));
    assert_eq!(parse_timestamp_id("000000000000I"), Ok(1));
    assert_eq!(parse_timestamp_id("000000000000l"), Ok(1));
    assert_eq!(parse_timestamp_id("00000000000O0"), Ok(0));
}

#[test]
fn decode_extremes() {
    assert_eq!(parse_timestamp_id("7ZZZZZZZZZZZZ"), Ok(i64::MAX));
    assert_eq!(parse_timestamp_id("FZZZZZZZZZZZZ"), Ok(-1));
    // the top bit of the first character falls outside 64 bits
    assert_eq!(parse_timestamp_id("ZZZZZZZZZZZZZ"), Ok(-1));
}

#[test]
fn decode_rejects_bad_length() {
    assert_eq!(parse_timestamp_id("000000000000"), Err(IndexerError::DecodeError));
    assert_eq!(parse_timestamp_id("00000000000000"), Err(IndexerError::DecodeError));
    assert_eq!(parse_timestamp_id(""), Err(IndexerError::DecodeError));
}

#[test]
fn decode_rejects_bad_characters() {
    assert_eq!(parse_timestamp_id("000000000000U"), Err(IndexerError::DecodeError));
    assert_eq!(parse_timestamp_id("00000000000-0"), Err(IndexerError::DecodeError));
    assert_eq!(parse_timestamp_id("00000000000é0"), Err(IndexerError::DecodeError));
}

#[test]
fn char_values() {
    assert_eq!(crockford_char_value('0'), Some(0));
    assert_eq!(crockford_char_value('9'), Some(9));
    assert_eq!(crockford_char_value('A'), Some(10));
    assert_eq!(crockford_char_value('h'), Some(17));
    assert_eq!(crockford_char_value('J'), Some(18));
    assert_eq!(crockford_char_value('m'), Some(20));
    assert_eq!(crockford_char_value('P'), Some(22));
    assert_eq!(crockford_char_value('T'), Some(26));
    assert_eq!(crockford_char_value('V'), Some(27));
    assert_eq!(crockford_char_value('Z'), Some(31));
    assert_eq!(crockford_char_value('U'), None);
    assert_eq!(crockford_char_value('u'), None);
    assert_eq!(crockford_char_value('*'), None);
}

#[test]
fn encode_known_values() {
    assert_eq!(encode_timestamp_id(0), "0000000000000");
    assert_eq!(encode_timestamp_id(31), "000000000000Z");
    assert_eq!(encode_timestamp_id(u64::MAX), "FZZZZZZZZZZZZ");
    assert_eq!(encode_timestamp_id(i64::MAX as u64), "7ZZZZZZZZZZZZ");
}

#[test]
fn timestamp_round_trip_values() {
    for v in [0u64, 1, 31, 32, 1_727_740_800_000_001, i64::MAX as u64, 1 << 63, u64::MAX] {
        let id = encode_timestamp_id(v);
        assert_eq!(id.len(), 13);
        assert_eq!(parse_timestamp_id(&id), Ok(v as i64));
        assert_eq!(parse_timestamp_id(&id.to_lowercase()), Ok(v as i64));
    }
}

#[test]
fn timestamp_window() {
    let now = EARLIEST_TIMESTAMP + 1_000_000_000;
    assert_eq!(check_timestamp(EARLIEST_TIMESTAMP, now), Ok(()));
    assert_eq!(check_timestamp(EARLIEST_TIMESTAMP - 1, now), Err(IndexerError::StaleOrFutureTimestamp));
    assert_eq!(check_timestamp(now + 120_000_000, now), Ok(()));
    assert_eq!(check_timestamp(now + 120_000_001, now), Err(IndexerError::StaleOrFutureTimestamp));
    assert_eq!(check_timestamp(i64::MAX, i64::MAX), Ok(()));
}

#[test]
fn timestamp_against_clock() {
    assert_eq!(validate_timestamp(EARLIEST_TIMESTAMP - 1), Err(IndexerError::StaleOrFutureTimestamp));
    assert_eq!(validate_timestamp(EARLIEST_TIMESTAMP + 1), Ok(()));
    assert_eq!(validate_timestamp(i64::MAX), Err(IndexerError::StaleOrFutureTimestamp));
}

#[test]
fn validate_color_and_bounds() {
    let hist = vec![(16u32, 16u32, 0i64)];
    let p = CanvaPixel { x: 5, y: 7, color: 16 };
    assert_eq!(p.validate(16, 16, &hist, 10), Err(IndexerError::InvalidColor));
    let p = CanvaPixel { x: 16, y: 0, color: 1 };
    assert_eq!(p.validate(16, 16, &hist, 10), Err(IndexerError::OutOfBounds));
    let p = CanvaPixel { x: 0, y: 16, color: 1 };
    assert_eq!(p.validate(16, 16, &hist, 10), Err(IndexerError::OutOfBounds));
    let p = CanvaPixel { x: 15, y: 15, color: 15 };
    assert_eq!(p.validate(16, 16, &hist, 10), Ok(()));
}

#[test]
fn validate_uncovered_coordinate() {
    let hist = vec![(16u32, 16u32, 0i64)];
    let p = CanvaPixel { x: 20, y: 5, color: 1 };
    assert_eq!(p.validate(32, 16, &hist, 10), Err(IndexerError::CoordinateUncovered));
    assert_eq!(p.validate(32, 16, &[], 10), Err(IndexerError::CoordinateUncovered));
}

#[test]
fn scenario_anti_backdating() {
    let t_r: i64 = 1_727_740_900_000_000;
    let hist = vec![(16u32, 16u32, 0i64), (32, 16, t_r)];
    let p = CanvaPixel { x: 20, y: 5, color: 2 };
    assert_eq!(p.validate(32, 16, &hist, t_r - 1), Err(IndexerError::PreExpansionPlacement));
    assert_eq!(p.validate(32, 16, &hist, t_r), Ok(()));
    // a coordinate of the seed size is unaffected by later records
    let q = CanvaPixel { x: 3, y: 5, color: 2 };
    assert_eq!(q.validate(32, 16, &hist, 1), Ok(()));
}

#[test]
fn aliases_are_the_only_ambiguities() {
    assert_eq!(parse_timestamp_id("00000000000IL"), parse_timestamp_id("0000000000011"));
    assert_eq!(parse_timestamp_id("oOoOoOoOoOoOo"), parse_timestamp_id("0000000000000"));
    assert_eq!(parse_timestamp_id("0abcdefghjkmn"), parse_timestamp_id("0ABCDEFGHJKMN"));
    assert_ne!(parse_timestamp_id("0000000000012"), parse_timestamp_id("0000000000011"));
    assert_ne!(parse_timestamp_id("1000000000000"), parse_timestamp_id("0000000000000"));
}
