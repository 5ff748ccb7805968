use sigma_diagnostics::filter::{get_message_counts, match_data_pattern, parse_data_pattern};
use sigma_diagnostics::frame::CanFrameDto;

fn make_frame(id: u32, timestamp_us: i64, data: Vec<u8>) -> CanFrameDto {
    CanFrameDto {
        timestamp_us,
        channel: "vcan0".to_string(),
        can_id: id,
        is_extended: false,
        is_fd: false,
        brs: false,
        esi: false,
        dlc: data.len() as u8,
        data,
    }
}

#[test]
fn test_parse_data_pattern() {
    let pattern = parse_data_pattern("01 ?? FF");
    assert_eq!(pattern.len(), 3);
    assert_eq!(pattern[0], Some(0x01));
    assert_eq!(pattern[1], None); // Wildcard
    assert_eq!(pattern[2], Some(0xFF));
}

#[test]
fn test_match_data_pattern() {
    let pattern = parse_data_pattern("01 ?? FF");
    assert!(match_data_pattern(&[0x01, 0x00, 0xFF], &pattern));
    assert!(match_data_pattern(&[0x01, 0xAB, 0xFF], &pattern));
    assert!(!match_data_pattern(&[0x01, 0xAB, 0xFE], &pattern));
    assert!(!match_data_pattern(&[0x02, 0xAB, 0xFF], &pattern));
}

#[test]
fn test_get_message_counts() {
    let frames = vec![
        make_frame(0x100, 0, vec![]),
        make_frame(0x100, 1_000, vec![]),
        make_frame(0x200, 2_000, vec![]),
    ];
    let counts = get_message_counts(frames);
    assert_eq!(counts.len(), 2);
    assert_eq!(counts[0].can_id, 0x100); // Higher count first
    assert_eq!(counts[0].count, 2);
    assert_eq!(counts[1].can_id, 0x200);
    assert_eq!(counts[1].count, 1);
}

#[test]
fn pattern_words_wildcards_and_invalid_bytes() {
    assert_eq!(
        parse_data_pattern("  xx\tXx ab\n+0f 100 zz 0001 "),
        vec![None, None, Some(0xAB), Some(0x0F), None, None, Some(0x01)]
    );
    assert!(parse_data_pattern("").is_empty());
    assert!(parse_data_pattern("   ").is_empty());
    // A pattern longer than the data never matches; an empty one always does.
    assert!(!match_data_pattern(&[0x01], &[Some(0x01), None]));
    assert!(match_data_pattern(&[], &[]));
}

#[test]
fn message_counts_separate_extended_ids_and_sort_descending() {
    let mut ext = make_frame(0x100, 5, vec![]);
    ext.is_extended = true;
    let frames = vec![
        make_frame(0x300, 0, vec![]),
        ext,
        make_frame(0x100, 1, vec![]),
        make_frame(0x100, 2, vec![]),
        make_frame(0x100, 3, vec![]),
    ];
    let counts = get_message_counts(frames);
    assert_eq!(counts.len(), 3);
    assert_eq!((counts[0].can_id, counts[0].is_extended, counts[0].count), (0x100, false, 3));
    assert!(counts[1].count == 1 && counts[2].count == 1);
    assert!(get_message_counts(vec![]).is_empty());
}

use sigma_diagnostics::filter::{
    build_message_cache, filter_frames_with_cache, DbcMessageCache, FilterConfig, MatchStatus,
};

fn no_filters() -> FilterConfig {
    FilterConfig {
        time_min_us: None,
        time_max_us: None,
        can_ids: vec![],
        messages: vec![],
        signals: vec![],
        data_pattern: None,
        channel: None,
        match_status: MatchStatus::default(),
    }
}

fn sample_frames() -> Vec<CanFrameDto> {
    let mut other = make_frame(0x300, 3_000, vec![0x01, 0x02]);
    other.channel = "can1".to_string();
    vec![
        make_frame(0x100, 0, vec![0x01, 0xAA, 0xFF]),
        make_frame(0x200, 1_000, vec![0x02, 0xAA, 0xFF]),
        make_frame(0x100, 2_000, vec![0x01, 0xBB, 0xFE]),
        other,
    ]
}

fn sample_cache() -> DbcMessageCache {
    build_message_cache(&[
        (0x100, "EngineData".to_string(), vec!["EngineRPM".to_string(), "OilTemp".to_string()]),
        (0x1ABCDEF0, "Body".to_string(), vec!["Door".to_string()]),
    ])
}

#[test]
fn cache_lowercases_names_and_flags_extended_ids() {
    let cache = sample_cache();
    assert_eq!(cache.entries.len(), 2);
    assert_eq!(cache.entries[0].0, 0x100);
    assert!(!cache.entries[0].1);
    assert_eq!(cache.entries[0].2.name, "enginedata");
    assert_eq!(cache.entries[0].2.signal_names, vec!["enginerpm".to_string(), "oiltemp".to_string()]);
    assert!(cache.entries[1].1);
}

#[test]
fn filter_by_time_id_channel_and_pattern() {
    let cache = DbcMessageCache { entries: vec![] };
    let all = filter_frames_with_cache(sample_frames(), &no_filters(), &cache);
    assert_eq!((all.total_count, all.filtered_count), (4, 4));

    let mut f = no_filters();
    f.time_min_us = Some(1_000);
    f.time_max_us = Some(2_000);
    let r = filter_frames_with_cache(sample_frames(), &f, &cache);
    assert_eq!(r.frames.iter().map(|x| x.timestamp_us).collect::<Vec<_>>(), vec![1_000, 2_000]);

    let mut f = no_filters();
    f.can_ids = vec![0x100, 0x300];
    f.channel = Some("vcan0".to_string());
    let r = filter_frames_with_cache(sample_frames(), &f, &cache);
    assert_eq!(r.filtered_count, 2);
    assert!(r.frames.iter().all(|x| x.can_id == 0x100));

    let mut f = no_filters();
    f.data_pattern = Some("?? aa".to_string());
    let r = filter_frames_with_cache(sample_frames(), &f, &cache);
    assert_eq!(r.frames.iter().map(|x| x.can_id).collect::<Vec<_>>(), vec![0x100, 0x200]);
    assert_eq!(r.total_count, 4);
}

#[test]
fn filter_by_dbc_match_and_names() {
    let cache = sample_cache();
    let mut f = no_filters();
    f.match_status = MatchStatus::Matched;
    let r = filter_frames_with_cache(sample_frames(), &f, &cache);
    assert_eq!(r.filtered_count, 2);

    let mut f = no_filters();
    f.match_status = MatchStatus::Unmatched;
    let r = filter_frames_with_cache(sample_frames(), &f, &cache);
    assert_eq!(r.frames.iter().map(|x| x.can_id).collect::<Vec<_>>(), vec![0x200, 0x300]);

    let mut f = no_filters();
    f.messages = vec!["ENGINE".to_string()];
    let r = filter_frames_with_cache(sample_frames(), &f, &cache);
    assert_eq!(r.filtered_count, 2);

    let mut f = no_filters();
    f.signals = vec!["Temp".to_string()];
    let r = filter_frames_with_cache(sample_frames(), &f, &cache);
    assert_eq!(r.filtered_count, 2);

    let mut f = no_filters();
    f.signals = vec!["door".to_string()];
    let r = filter_frames_with_cache(sample_frames(), &f, &cache);
    assert_eq!(r.filtered_count, 0);
}

#[test]
fn message_counts_add_up_to_the_frames() {
    let frames = vec![
        make_frame(0x100, 0, vec![]),
        make_frame(0x200, 1, vec![]),
        make_frame(0x100, 2, vec![]),
        make_frame(0x300, 3, vec![]),
        make_frame(0x100, 4, vec![]),
    ];
    let n = frames.len() as u64;
    let counts = get_message_counts(frames);
    assert_eq!(counts.iter().map(|c| c.count).sum::<u64>(), n);
    assert_eq!(counts.len(), 3);
    assert_eq!((counts[0].can_id, counts[0].count), (0x100, 3));
}

#[test]
fn pattern_words_are_read_uppercased() {
    assert_eq!(parse_data_pattern("ab xx Xx"), vec![Some(0xAB), None, None]);
    // U+FB00 (the "ff" ligature) uppercases to "FF".
    assert_eq!(parse_data_pattern("\u{FB00}"), vec![Some(0xFF)]);
    assert_eq!(parse_data_pattern("zz 100"), vec![None, None]);
}
