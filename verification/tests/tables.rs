use motorsport_telemetry::cell::Cell;
use motorsport_telemetry::channel_map::{number_fields, ChannelMap};
use motorsport_telemetry::channels::{bind_channels, channel_cell, channel_rows, RegisteredUnit};
use motorsport_telemetry::filter::parse_channel_filter;
use motorsport_telemetry::metadata::{
    file_cell, session_cell, FileMetadata, Identity, Lap, SessionMetadata,
};
use motorsport_telemetry::number::Affine;
use motorsport_telemetry::sample::SampleType;
use motorsport_telemetry::samples::{
    bind_samples, ceil_div, has_spaced_samples, sample_cell, sample_segments, window,
    SampleSegment, Window,
};
use motorsport_telemetry::schema::{
    channels_columns, comments_columns, file_columns, file_metadata_columns, next_portion, page,
    pds_channels_columns, pds_samples_columns, projected, samples_columns, session_columns,
    session_metadata_columns, units_columns, worker_count, write_columns, Column, ColumnKind,
};
use motorsport_telemetry::source::{SourceChannel, SourceChunk, SourceFile, UnitSource};
use motorsport_telemetry::units::{
    unit_tag_name, CanConvertScalar, ConvertColumnScalar, ConvertScalar, UnitDef, UnitsVTab,
};

fn chunk(period: u64, count: u64, sample_base: u64, time_base_ns: u64) -> SourceChunk {
    SourceChunk {
        sample_period_ns: period,
        sample_count: count,
        data_ptr: 0,
        sample_base,
        time_base_ns,
    }
}

fn channel(name: &str, unit: &str, chunks: Vec<SourceChunk>) -> SourceChannel {
    let sample_count = chunks.iter().map(|chunk| chunk.sample_count).sum();
    let duration_ns = chunks
        .last()
        .map(|chunk| chunk.time_base_ns + chunk.sample_count * chunk.sample_period_ns)
        .unwrap_or(0);
    SourceChannel {
        id: 4,
        name: name.to_owned(),
        unit: unit.to_owned(),
        unit_source: UnitSource::SpecDefault,
        sample_type: SampleType::F32,
        chunks,
        sample_count,
        duration_ns,
    }
}

fn file(path: &str, channels: Vec<SourceChannel>) -> SourceFile {
    SourceFile {
        path: path.to_owned(),
        format: "motec".to_owned(),
        channels,
        create_date_micros: 0,
        modified_at_micros: 0,
    }
}

fn map(text: &str) -> Result<ChannelMap, String> {
    let readings = number_fields(text)
        .iter()
        .map(|number| number.parse::<f64>().ok().map(f64::to_bits))
        .collect();
    ChannelMap::parse(text, &readings)
}

fn two_files() -> Vec<SourceFile> {
    vec![
        file(
            "a.ld",
            vec![
                channel("Speed", "m/s", vec![chunk(10, 3000, 0, 0), chunk(20, 5, 3000, 30_000)]),
                channel("Gear", "", vec![]),
            ],
        ),
        file("b.ld", vec![channel("speed", "km/h", vec![chunk(5, 10, 0, 100)])]),
    ]
}

fn text(value: &str) -> Cell {
    Cell::Text(value.to_owned())
}

// ── filters ─────────────────────────────────────────────────────────

#[test]
fn filters_hold_trimmed_small_names_once() {
    let filter = parse_channel_filter(Some(" Speed, GEAR ,,speed, \t"));
    assert_eq!(filter.names, vec!["speed", "gear"]);
    assert!(filter.contains("gear"));
    assert!(!filter.contains("Gear"));
    assert!(filter.takes("Gear"));
    assert!(!filter.takes("rpm"));
    let all = parse_channel_filter(None);
    assert!(all.is_empty());
    assert!(all.takes("rpm"));
    assert!(parse_channel_filter(Some(" , ")).is_empty());
    assert_eq!(
        filter.missing(&vec!["SPEED".to_owned(), "rpm".to_owned()]),
        vec!["gear"]
    );
}

// ── samples ─────────────────────────────────────────────────────────

#[test]
fn windows_start_at_zero_and_do_not_run_backwards() {
    assert_eq!(window(None, None), Ok(Window { start_ns: 0, end_ns: i64::MAX as u64 }));
    assert_eq!(window(Some(-5), Some(7)), Ok(Window { start_ns: 0, end_ns: 7 }));
    assert_eq!(window(Some(7), Some(7)), Ok(Window { start_ns: 7, end_ns: 7 }));
    let backwards = Err("end_ns must be greater than or equal to start_ns".to_owned());
    assert_eq!(window(Some(8), Some(7)), backwards);
    assert_eq!(window(Some(1), Some(-1)), backwards);
}

#[test]
fn quotients_are_rounded_up() {
    assert_eq!(ceil_div(0, 3), 0);
    assert_eq!(ceil_div(6, 3), 2);
    assert_eq!(ceil_div(7, 3), 3);
    assert_eq!(ceil_div(u64::MAX, 2), 1 << 63);
}

#[test]
fn a_query_for_samples_is_checked_in_order() {
    let files = two_files();
    let ask = |channel, start, end, rules: &str| {
        bind_samples(&files, "telemetry", channel, start, end, map(rules))
    };
    let bound = ask(None, None, None, "").unwrap();
    assert_eq!(bound.cardinality, Some(3015));
    assert!(bound.exact);
    let bound = ask(Some("GEAR"), Some(1), None, "speed -> V").unwrap();
    assert_eq!(bound.cardinality, Some(0));
    assert!(!bound.exact);
    assert_eq!(bound.window, Window { start_ns: 1, end_ns: i64::MAX as u64 });
    assert_eq!(bound.map.name_for("SPEED"), "V");
    assert_eq!(
        ask(Some("x,gear,y"), Some(2), Some(1), "-> bad").expect_err("missing"),
        "telemetry channel(s) not found: x, y"
    );
    assert_eq!(
        ask(None, Some(2), Some(1), "-> bad").expect_err("backwards"),
        "end_ns must be greater than or equal to start_ns"
    );
    assert_eq!(
        ask(None, None, None, "-> bad").expect_err("no rule"),
        "channel_map line 1: missing source channel name"
    );
    assert_eq!(
        ask(None, None, None, "rpm -> RPM").expect_err("no channel"),
        "channel_map references channel(s) not present in the data: rpm"
    );
    assert_eq!(
        bind_samples(&files, "PDS", Some("x"), None, None, map("")).expect_err("missing"),
        "PDS channel(s) not found: x"
    );
}

#[test]
fn samples_come_in_portions_of_the_window() {
    let files = two_files();
    let all = parse_channel_filter(None);
    assert!(has_spaced_samples(&files, &all, window(None, None).unwrap()));
    let part = |file, channel, chunk, local_start, len| SampleSegment {
        file,
        channel,
        chunk,
        local_start,
        len,
    };
    assert_eq!(
        sample_segments(&files, &all, window(None, None).unwrap()),
        vec![part(0, 0, 0, 0, 2048), part(0, 0, 0, 2048, 952), part(0, 0, 1, 0, 5), part(1, 0, 0, 0, 10)]
    );
    // Samples at 10, 20, ... 110 and at 100, 105, 110.
    assert_eq!(
        sample_segments(&files, &all, window(Some(1), Some(111)).unwrap()),
        vec![part(0, 0, 0, 1, 11), part(1, 0, 0, 0, 3)]
    );
    // The end does not belong to the window.
    assert_eq!(
        sample_segments(&files, &all, window(Some(100), Some(110)).unwrap()),
        vec![part(0, 0, 0, 10, 1), part(1, 0, 0, 0, 2)]
    );
    assert!(sample_segments(&files, &all, window(Some(100), Some(100)).unwrap()).is_empty());
    let gear = parse_channel_filter(Some("gear"));
    assert!(sample_segments(&files, &gear, window(None, None).unwrap()).is_empty());
}

#[test]
fn only_selected_channels_need_spaced_samples() {
    let still = vec![file(
        "c",
        vec![channel("x", "", vec![chunk(0, 1, 0, 50)]), channel("y", "", vec![chunk(10, 3, 0, 0)])],
    )];
    let all = parse_channel_filter(None);
    let whole = window(None, None).unwrap();
    assert!(!has_spaced_samples(&still, &all, whole));
    let y = parse_channel_filter(Some("Y"));
    assert!(has_spaced_samples(&still, &y, whole));
    assert_eq!(
        sample_segments(&still, &y, whole),
        vec![SampleSegment { file: 0, channel: 1, chunk: 0, local_start: 0, len: 3 }]
    );
    // A chunk that starts after the window needs no spacing.
    let early = window(None, Some(50)).unwrap();
    assert!(has_spaced_samples(&still, &all, early));
    assert_eq!(sample_segments(&still, &all, early).len(), 1);
    assert!(!has_spaced_samples(&still, &all, window(None, Some(51)).unwrap()));
}

#[test]
fn every_portion_is_handed_out_by_one_call() {
    let files = two_files();
    let segments = sample_segments(&files, &parse_channel_filter(None), window(None, None).unwrap());
    for (call, segment) in segments.iter().enumerate() {
        assert_eq!(next_portion(&segments, call), Some(*segment));
    }
    assert_eq!(next_portion(&segments, segments.len()), None);
    assert_eq!(next_portion(&segments, usize::MAX), None);
}

#[test]
fn every_sample_of_the_window_comes_once() {
    let files = two_files();
    let all = parse_channel_filter(None);
    let span = window(Some(29_995), Some(30_061)).unwrap();
    let segments = sample_segments(&files, &all, span);
    let chunks = &files[0].channels[0].chunks;
    for (k, run) in chunks.iter().enumerate() {
        for index in 0..run.sample_count {
            let time = run.time_base_ns + index * run.sample_period_ns;
            let times = segments
                .iter()
                .filter(|s| {
                    (s.file, s.channel, s.chunk) == (0, 0, k)
                        && s.local_start <= index
                        && index < s.local_start + s.len
                })
                .count();
            assert_eq!(times, usize::from(span.start_ns <= time && time < span.end_ns));
        }
    }
}

#[test]
fn sample_rows() {
    let files = two_files();
    let rules = map("SPEED -> V [kn] *2").unwrap();
    let segment = SampleSegment { file: 0, channel: 0, chunk: 1, local_start: 2, len: 3 };
    let cell = |column| sample_cell(&files[0], &rules, &segment, 9, column, 1);
    assert_eq!(cell(0), text("a.ld"));
    assert_eq!(cell(1), text("motec"));
    assert_eq!(cell(2), Cell::Unsigned32(4));
    assert_eq!(cell(3), text("V"));
    assert_eq!(cell(4), text("kn"));
    assert_eq!(cell(5), text("declared"));
    assert_eq!(cell(6), Cell::Ratio { numerator: 1_000_000_000, denominator: 20 });
    assert_eq!(cell(7), Cell::Unsigned(3003));
    assert_eq!(cell(8), Cell::SampleTime { channel: 0, chunk: 1, index: 3 });
    assert_eq!(
        cell(9),
        Cell::Sample {
            channel: 0,
            chunk: 1,
            index: 3,
            conversion: Some(Affine { scale: 2.0f64.to_bits(), offset: 0 })
        }
    );
    assert_eq!(cell(10), Cell::Signed(9));
    let plain = sample_cell(&files[0], &ChannelMap::default(), &segment, 9, 9, 0);
    assert_eq!(plain, Cell::Sample { channel: 0, chunk: 1, index: 2, conversion: None });
}

// ── channels ────────────────────────────────────────────────────────

#[test]
fn every_channel_has_its_row() {
    assert_eq!(channel_rows(&two_files()), vec![(0, 0), (0, 1), (1, 0)]);
    assert!(channel_rows(&vec![]).is_empty());
}

#[test]
fn channel_table_rows() {
    let files = two_files();
    let known = RegisteredUnit {
        canonical: Some("m/s".to_owned()),
        dimension: Some("speed".to_owned()),
    };
    let unknown = RegisteredUnit { canonical: None, dimension: None };
    let rules = bind_channels(&files, map("gear -> G")).unwrap();
    assert_eq!(
        bind_channels(&files, map("x")).expect_err("no channel"),
        "channel_map references channel(s) not present in the data: x"
    );
    let speed = |column| channel_cell(&files[0], &files[0].channels[0], &rules, &known, column, 3);
    assert_eq!(speed(0), text("a.ld"));
    assert_eq!(speed(1), text("motec"));
    assert_eq!(speed(2), Cell::Unsigned32(4));
    assert_eq!(speed(3), text("Speed"));
    assert_eq!(speed(4), text("m/s"));
    assert_eq!(speed(5), text("spec_default"));
    assert_eq!(speed(6), text("m/s"));
    assert_eq!(speed(7), text("speed"));
    assert_eq!(speed(8), Cell::Unsigned32(6));
    assert_eq!(speed(9), text("float32"));
    assert_eq!(speed(10), Cell::Ratio { numerator: 1_000_000_000, denominator: 10 });
    assert_eq!(speed(11), Cell::Unsigned(10));
    assert_eq!(speed(12), Cell::Unsigned(3005));
    assert_eq!(speed(13), Cell::Unsigned(2));
    assert_eq!(speed(14), Cell::Unsigned(30_100));
    assert_eq!(speed(15), Cell::Signed(3));
    let gear = |column| channel_cell(&files[0], &files[0].channels[1], &rules, &unknown, column, 0);
    assert_eq!(gear(3), text("G"));
    assert_eq!(gear(6), Cell::Null);
    assert_eq!(gear(7), Cell::Null);
    assert_eq!(gear(10), Cell::Null);
    assert_eq!(gear(11), Cell::Null);
}

// ── files and sessions ──────────────────────────────────────────────

fn summary(driver_ids: Vec<i64>, fastest_lap: Option<Lap>) -> FileMetadata {
    FileMetadata {
        path: "a.pds".to_owned(),
        format: "pds".to_owned(),
        session_key: fastest_lap.map(|_| "key".to_owned()),
        absolute_start_ns: Some(1),
        absolute_end_ns: None,
        duration_ns: 2,
        channel_count: 3,
        sampled_channel_count: 4,
        sample_count: 5,
        schema_hash: 6,
        driver_ids,
        lap_count: 7,
        fastest_lap,
        video_frame_count: Some(8),
        identity: Identity {
            driver: "d".to_owned(),
            vehicle: "v".to_owned(),
            venue: "n".to_owned(),
            event: "e".to_owned(),
            session: "s".to_owned(),
            date: "1".to_owned(),
            time: "2".to_owned(),
        },
        absolute_clock: None,
    }
}

#[test]
fn file_rows() {
    let file = summary(vec![3, -1, 3], Some(Lap { number: 9, duration_ns: 90 }));
    let expected = vec![
        text("a.pds"),
        text("pds"),
        text("key"),
        Cell::Unsigned(1),
        Cell::Null,
        Cell::Unsigned(2),
        Cell::Unsigned(3),
        Cell::Unsigned(4),
        Cell::Unsigned(5),
        Cell::Unsigned(6),
        text("3,-1,3"),
        Cell::Unsigned(7),
        Cell::Signed(9),
        Cell::Unsigned(90),
        Cell::Unsigned(8),
        text("d"),
        text("v"),
        text("n"),
        text("e"),
        text("s"),
        text("1"),
        text("2"),
        Cell::Null,
    ];
    for (column, cell) in expected.into_iter().enumerate() {
        assert_eq!(file_cell(&file, column as u64), cell, "column {column}");
    }
    let file = summary(vec![], None);
    for column in [2, 12, 13] {
        assert_eq!(file_cell(&file, column), Cell::Null);
    }
    assert_eq!(file_cell(&file, 10), text(""));
}

#[test]
fn session_rows_list_drivers_once_and_in_order() {
    let files = vec![summary(vec![12, 3], None), summary(vec![99], None), summary(vec![3, -4], None)];
    let session = SessionMetadata {
        session_key: "k".to_owned(),
        files: vec![2, 0],
        absolute_start_ns: None,
        absolute_end_ns: Some(5),
        duration_ns: 6,
        stint_count: 7,
        lap_count: 8,
        fastest_lap: Some(Lap { number: -1, duration_ns: 4 }),
    };
    let expected = vec![
        text("k"),
        Cell::Unsigned(2),
        Cell::Null,
        Cell::Unsigned(5),
        Cell::Unsigned(6),
        text("-4,3,12"),
        Cell::Unsigned(7),
        Cell::Unsigned(8),
        Cell::Signed(-1),
        Cell::Unsigned(4),
    ];
    for (column, cell) in expected.into_iter().enumerate() {
        assert_eq!(session_cell(&session, &files, column as u64), cell, "column {column}");
    }
    let without = SessionMetadata { fastest_lap: None, files: vec![], ..session };
    assert_eq!(session_cell(&without, &files, 5), text(""));
    assert_eq!(session_cell(&without, &files, 8), Cell::Null);
    assert_eq!(session_cell(&without, &files, 9), Cell::Null);
}

// ── units ───────────────────────────────────────────────────────────

#[test]
fn every_spelling_of_a_unit_has_a_row() {
    let defs = vec![
        UnitDef {
            canonical: "km/h".to_owned(),
            aliases: vec!["kph".to_owned(), "kmh".to_owned()],
            dimension: "speed".to_owned(),
            base_unit: "m/s".to_owned(),
            is_convertible: true,
            factor: 7,
            offset: 8,
        },
        UnitDef {
            canonical: "flag".to_owned(),
            aliases: vec![],
            dimension: "marker".to_owned(),
            base_unit: "".to_owned(),
            is_convertible: false,
            factor: 1,
            offset: 0,
        },
    ];
    let bound = UnitsVTab::bind(&defs);
    let spellings: Vec<_> = bound.rows.iter().map(|row| row.spelling.as_str()).collect();
    assert_eq!(spellings, vec!["km/h", "kph", "kmh", "flag"]);
    let cell = |column| UnitsVTab::cell(&bound.rows[1], column);
    assert_eq!(cell(0), text("kph"));
    assert_eq!(cell(1), text("km/h"));
    assert_eq!(cell(2), Cell::Flag(false));
    assert_eq!(cell(3), text("speed"));
    assert_eq!(cell(4), text("m/s"));
    assert_eq!(cell(5), Cell::Number(7));
    assert_eq!(cell(6), Cell::Number(8));
    assert_eq!(cell(7), Cell::Flag(true));
    assert_eq!(UnitsVTab::cell(&bound.rows[3], 2), Cell::Flag(true));
    assert_eq!(UnitsVTab::cell(&bound.rows[3], 7), Cell::Flag(false));
    let mut state = UnitsVTab::init();
    assert_eq!(state.next_page(3000), Some((0, 2048)));
    assert_eq!(state.next_page(3000), Some((2048, 3000)));
    assert_eq!(state.next, 4096);
    assert_eq!(state.next_page(3000), None);
    assert_eq!(state.next, 6144);
    assert_eq!(state.next_page(3000), None);
    // Each call moves on by a whole page, around zero where the counter ends.
    state.next = usize::MAX;
    assert_eq!(state.next_page(3000), None);
    assert_eq!(state.next, 2047);
}

#[test]
fn a_row_that_cannot_be_converted_fails_the_column() {
    assert_eq!(ConvertScalar::invoke(&vec![Ok(1), Ok(2)]), Ok(vec![1, 2]));
    assert_eq!(
        ConvertScalar::invoke(&vec![Ok(1), Err("no".to_owned()), Err("never".to_owned())]),
        Err("no".to_owned())
    );
    assert_eq!(
        ConvertScalar::arguments(),
        vec![ColumnKind::Double, ColumnKind::Varchar, ColumnKind::Varchar]
    );
    assert_eq!(ConvertScalar::result(), ColumnKind::Double);
    assert_eq!(CanConvertScalar::arguments(), vec![ColumnKind::Varchar, ColumnKind::Varchar]);
    assert_eq!(CanConvertScalar::result(), ColumnKind::Boolean);
}

#[test]
fn types_name_the_units_of_columns() {
    assert_eq!(unit_tag_name("rad"), "telemetry_unit:rad");
    let tag = unit_tag_name("m/s");
    assert_eq!(ConvertColumnScalar::source_unit(Some(tag.as_str())), Ok("m/s".to_owned()));
    for untagged in [None, Some(""), Some("telemetry_unit:"), Some("my_unit:rad")] {
        assert_eq!(
            ConvertColumnScalar::source_unit(untagged),
            Err("telemetry_convert_column requires a unit-tagged column; for a scalar or expression use telemetry_convert(value, from_unit, to_unit)".to_owned())
        );
    }
}

// ── schemas ─────────────────────────────────────────────────────────

fn names(columns: &[Column]) -> Vec<&str> {
    columns.iter().map(|column| column.name.as_str()).collect()
}

#[test]
fn tables_have_their_columns() {
    assert_eq!(samples_columns().len(), 10);
    assert_eq!(pds_samples_columns().len(), 8);
    assert_eq!(channels_columns().len(), 15);
    assert_eq!(pds_channels_columns().len(), 11);
    assert_eq!(file_metadata_columns().len(), 23);
    assert_eq!(session_metadata_columns().len(), 10);
    assert_eq!(session_columns().len(), 9);
    assert_eq!(
        names(&comments_columns()),
        vec!["column_name", "unit", "ddl", "kv_metadata", "channel_map_rule"]
    );
    assert_eq!(
        names(&write_columns()),
        vec!["source", "output", "format", "channels", "samples", "bytes", "sidecar", "sidecar_bytes"]
    );
    assert_eq!(units_columns()[2].kind, ColumnKind::Boolean);
    assert_eq!(names(&file_columns(false, false, false)), vec!["time_ns"]);
    assert_eq!(
        names(&file_columns(true, true, true)),
        vec!["filename", "create_date", "modified_at", "time_ns"]
    );
}

#[test]
fn rows_are_handed_out_in_pages() {
    assert_eq!(page(0, 0), None);
    assert_eq!(page(0, 10), Some((0, 10)));
    assert_eq!(page(2048, 5000), Some((2048, 4096)));
    assert_eq!(page(4096, 5000), Some((4096, 5000)));
    assert_eq!(page(6144, 5000), None);
    assert_eq!(projected(vec![], 3), vec![0, 1, 2]);
    assert_eq!(projected(vec![2, 0], 3), vec![2, 0]);
    assert_eq!(worker_count(0, 8), 1);
    assert_eq!(worker_count(3, 8), 3);
    assert_eq!(worker_count(9, 8), 8);
}
