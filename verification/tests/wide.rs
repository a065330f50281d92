use motorsport_telemetry::cell::Cell;
use motorsport_telemetry::channel_map::{number_fields, ChannelMap};
use motorsport_telemetry::number::Affine;
use motorsport_telemetry::sample::SampleType;
use motorsport_telemetry::source::{SourceChannel, SourceChunk, SourceFile, UnitSource};
use motorsport_telemetry::wide::{
    bind_wide, check_single_session, has_usable_clocks, matching_channel, max_gap_ns,
    normalized_channel_name, time_of_row, wide_segments, Session, WideBind, WideColumn, WideRange,
    WideRequest, WideSegment,
};

fn channel(name: &str, unit: &str, sample_count: u64, duration_ns: u64) -> SourceChannel {
    SourceChannel {
        id: 1,
        name: name.to_owned(),
        unit: unit.to_owned(),
        unit_source: UnitSource::Declared,
        sample_type: SampleType::F64,
        chunks: vec![SourceChunk {
            sample_period_ns: 1,
            sample_count,
            data_ptr: 0,
            sample_base: 0,
            time_base_ns: 0,
        }],
        sample_count,
        duration_ns,
    }
}

fn file(path: &str, channels: Vec<SourceChannel>) -> SourceFile {
    SourceFile {
        path: path.to_owned(),
        format: "pds".to_owned(),
        channels,
        create_date_micros: 11,
        modified_at_micros: 22,
    }
}

fn files() -> Vec<SourceFile> {
    vec![
        file(
            "a",
            vec![
                channel("Speed", "m/s", 5, 100_000_000),
                channel("Empty", "", 0, 0),
                channel("Driver ID", "", 1, 50_000_000),
                channel("SPEED", "m/s", 7, 30_000_000),
            ],
        ),
        file(
            "b",
            vec![
                channel("rpm", "rad/s", 5, 200_000_000),
                channel("speed", "km/h", 5, 10_000_000),
                channel("Lap_Number", "", 1, 1),
            ],
        ),
    ]
}

fn request() -> WideRequest {
    WideRequest {
        rate: None,
        start_ns: None,
        end_ns: None,
        interpolate: None,
        channels: None,
        filename: None,
        add_filename_as_column: None,
        timestamps: None,
        add_create_date_as_column: None,
        add_modified_at_as_column: None,
        unit_tags: None,
    }
}

fn map(text: &str) -> Result<ChannelMap, String> {
    let readings = number_fields(text)
        .iter()
        .map(|number| number.parse::<f64>().ok().map(f64::to_bits))
        .collect();
    ChannelMap::parse(text, &readings)
}

fn bind(request: &WideRequest, rules: &str) -> Result<WideBind, String> {
    bind_wide(&files(), "telemetry", request, map(rules), &None)
}

fn column_names(bound: &WideBind) -> Vec<&str> {
    bound.columns.iter().map(|column| column.name.as_str()).collect()
}

fn text(value: &str) -> Cell {
    Cell::Text(value.to_owned())
}

#[test]
fn columns_are_the_union_of_the_channels() {
    let bound = bind(&request(), "").unwrap();
    assert_eq!(bound.names, vec!["Speed", "Driver ID", "rpm", "Lap_Number"]);
    assert_eq!(
        column_names(&bound),
        vec!["time_ns", "Speed", "Driver ID", "rpm", "Lap_Number"]
    );
    // The last channel of a file with a name counts; a file may have none.
    assert_eq!(
        bound.source_channels,
        vec![
            vec![Some(3), Some(2), None, None],
            vec![Some(1), None, Some(0), Some(2)],
        ]
    );
    assert_eq!(bound.driver_channels, vec![Some(2), None]);
    assert_eq!(bound.lap_channels, vec![None, Some(2)]);
    assert!(bound.linear);
    assert_eq!(bound.rate, 100);
}

#[test]
fn every_mistake_in_a_request_has_its_message() {
    let refuse = |change: fn(&mut WideRequest), rules: &str| {
        let mut request = request();
        change(&mut request);
        bind(&request, rules).expect_err("a mistake")
    };
    assert_eq!(refuse(|r| r.rate = Some(0), ""), "rate must be between 1 and 5000 Hz");
    assert_eq!(refuse(|r| r.rate = Some(5001), ""), "rate must be between 1 and 5000 Hz");
    assert_eq!(
        refuse(|r| (r.start_ns, r.end_ns) = (Some(2), Some(1)), ""),
        "end_ns must be greater than or equal to start_ns"
    );
    assert_eq!(
        refuse(|r| r.interpolate = Some("cubic".to_owned()), ""),
        "interpolate must be 'previous' or 'linear'"
    );
    // A channel without samples has no column.
    assert_eq!(
        refuse(|r| r.channels = Some("speed,empty,x".to_owned()), ""),
        "telemetry channel(s) not found: empty, x"
    );
    assert_eq!(refuse(|_| {}, "->"), "channel_map line 1: missing source channel name");
    assert_eq!(
        refuse(|_| {}, "x"),
        "channel_map references channel(s) not present in the data: x"
    );
    // Mistakes are reported in this order.
    assert_eq!(
        refuse(
            |r| {
                r.rate = Some(-1);
                r.interpolate = Some("cubic".to_owned());
            },
            "->"
        ),
        "rate must be between 1 and 5000 Hz"
    );
    let previous = WideRequest { interpolate: Some("PREVIOUS".to_owned()), ..request() };
    assert!(!bind(&previous, "").unwrap().linear);
}

#[test]
fn rows_cover_the_span_up_to_the_end_of_the_data() {
    let bound = bind(&request(), "").unwrap();
    // The last channel with the name Speed ends after 30 ms, but Driver ID after 50 ms.
    assert_eq!(
        bound.ranges,
        vec![
            WideRange { start_ns: 0, end_ns: 50_000_000, rows: 5 },
            WideRange { start_ns: 0, end_ns: 200_000_000, rows: 20 },
        ]
    );
    assert_eq!(bound.total_rows, 25);
    let late = WideRequest {
        start_ns: Some(45_000_000),
        end_ns: Some(60_000_001),
        ..request()
    };
    let bound = bind(&late, "").unwrap();
    assert_eq!(bound.ranges[0].rows, 1);
    assert_eq!(bound.ranges[1], WideRange { start_ns: 45_000_000, end_ns: 60_000_001, rows: 2 });
    let after = WideRequest { start_ns: Some(300_000_000), ..request() };
    assert_eq!(bind(&after, "").unwrap().total_rows, 0);
}

#[test]
fn a_row_stands_in_the_table_if_its_time_is_before_the_end() {
    for rate in [1, 3, 7, 60, 5000] {
        for end in [1, 999, 333_333_333, 333_333_334, 1_000_000_000, 2_500_000_001u64] {
            let files = vec![file("a", vec![channel("x", "", 1, end)])];
            let request = WideRequest { rate: Some(rate), ..request() };
            let bound = bind_wide(&files, "telemetry", &request, map(""), &None).unwrap();
            let range = bound.ranges[0];
            let last = time_of_row(&range, range.rows - 1, bound.rate);
            assert!(last < end);
            assert!(u128::from(range.rows) * 1_000_000_000 / rate as u128 >= u128::from(end));
        }
    }
}

#[test]
fn row_times_go_on() {
    let range = WideRange { start_ns: 5, end_ns: 1_000_000_005, rows: 3 };
    assert_eq!(time_of_row(&range, 0, 3), 5);
    assert_eq!(time_of_row(&range, 1, 3), 333_333_338);
    assert_eq!(time_of_row(&range, 2, 3), 666_666_671);
}

#[test]
fn rows_come_in_portions() {
    let range = |rows| WideRange { start_ns: 0, end_ns: 0, rows };
    let part = |file, row_start, len| WideSegment { file, row_start, len };
    assert_eq!(
        wide_segments(&vec![range(2049), range(0), range(2048)]),
        vec![part(0, 0, 2048), part(0, 2048, 1), part(2, 0, 2048)]
    );
    assert!(wide_segments(&vec![]).is_empty());
}

#[test]
fn options_add_columns() {
    let all = WideRequest {
        add_filename_as_column: Some(true),
        filename: Some(false),
        timestamps: Some(true),
        ..request()
    };
    let bound = bind(&all, "").unwrap();
    assert_eq!(column_names(&bound)[..4], ["filename", "create_date", "modified_at", "time_ns"]);
    assert_eq!(bound.fixed_column_count(), 4);
    let columns: Vec<_> = (0..9).map(|column| bound.column(column)).collect();
    assert_eq!(
        columns,
        vec![
            WideColumn::SourceFile,
            WideColumn::CreateDate,
            WideColumn::ModifiedAt,
            WideColumn::FileTime,
            WideColumn::Channel(0),
            WideColumn::Channel(1),
            WideColumn::Channel(2),
            WideColumn::Channel(3),
            WideColumn::Other,
        ]
    );
    let modified = WideRequest { add_modified_at_as_column: Some(true), ..request() };
    let bound = bind(&modified, "").unwrap();
    assert_eq!(bound.column(0), WideColumn::ModifiedAt);
    assert_eq!(bound.column(1), WideColumn::FileTime);
}

#[test]
fn units_tag_columns_that_agree() {
    let tagged = WideRequest { unit_tags: Some(true), ..request() };
    let tags = |rules: &str| -> Vec<Option<String>> {
        bind(&tagged, rules).unwrap().columns.into_iter().map(|column| column.unit_tag).collect()
    };
    // Speed has two units, and Driver ID and Lap_Number have none.
    assert_eq!(tags(""), vec![None, None, None, Some("rad/s".to_owned()), None]);
    assert_eq!(tags("speed -> V [kn]")[1], Some("kn".to_owned()));
    assert_eq!(bind(&request(), "").unwrap().columns[3].unit_tag, None);
}

#[test]
fn rules_rename_and_convert_columns() {
    let bound = bind(&request(), "SPEED -> Ground Speed *2 +1\nrpm -> R").unwrap();
    assert_eq!(
        column_names(&bound),
        vec!["time_ns", "Ground Speed", "Driver ID", "R", "Lap_Number"]
    );
    let double = Affine { scale: 2.0f64.to_bits(), offset: 1.0f64.to_bits() };
    assert_eq!(bound.conversions, vec![Some(double), None, None, None]);
    let segment = WideSegment { file: 0, row_start: 1, len: 2 };
    assert_eq!(
        bound.cell(&files()[0], &segment, 0, 1, 1),
        Cell::Reading { channel: 3, time_ns: 20_000_000, linear: true, conversion: Some(double) }
    );
}

#[test]
fn wide_rows() {
    let all = WideRequest { filename: Some(true), timestamps: Some(true), ..request() };
    let bound = bind(&all, "").unwrap();
    let segment = WideSegment { file: 0, row_start: 2, len: 3 };
    let cell = |column| bound.cell(&files()[0], &segment, 6, column, 1);
    assert_eq!(cell(0), text("a"));
    assert_eq!(cell(1), Cell::Signed(11));
    assert_eq!(cell(2), Cell::Signed(22));
    assert_eq!(cell(3), Cell::Signed(30_000_000));
    assert_eq!(
        cell(4),
        Cell::Reading { channel: 3, time_ns: 30_000_000, linear: true, conversion: None }
    );
    // A file without the channel has nothing there.
    assert_eq!(cell(6), Cell::Null);
    assert_eq!(cell(8), Cell::Signed(6));
}

fn session() -> Option<Session> {
    Some(Session {
        key: "k".to_owned(),
        base_ns: 1_000,
        clock_offsets_ns: vec![None, Some(20_001_000)],
    })
}

#[test]
fn sessions_put_files_on_one_clock() {
    let span = WideRequest { start_ns: Some(30_000_000), end_ns: Some(80_000_000), ..request() };
    assert!(has_usable_clocks(session().as_ref().unwrap(), 2));
    let bound = bind_wide(&files(), "telemetry", &span, map(""), &session()).unwrap();
    assert_eq!(bound.session_offsets_ns, vec![-1_000, 20_000_000]);
    // A file that starts before the session keeps its own clock.
    assert_eq!(bound.ranges[0], WideRange { start_ns: 30_000_000, end_ns: 50_000_000, rows: 2 });
    assert_eq!(bound.ranges[1], WideRange { start_ns: 10_000_000, end_ns: 60_000_000, rows: 5 });
    assert_eq!(bound.fixed_column_count(), 9);
    assert_eq!(column_names(&bound)[0], "session_key");
    assert_eq!(column_names(&bound)[9], "Speed");
    let segment = WideSegment { file: 1, row_start: 0, len: 5 };
    let cell = |column| bound.cell(&files()[1], &segment, 0, column, 1);
    assert_eq!(cell(0), text("k"));
    assert_eq!(cell(1), Cell::Signed(40_000_000));
    assert_eq!(cell(2), Cell::Signed(20_000_000));
    assert_eq!(cell(3), text("b"));
    assert_eq!(cell(4), Cell::VideoFile { time_ns: 20_000_000 });
    assert_eq!(cell(5), Cell::VideoFrame { time_ns: 20_000_000 });
    assert_eq!(cell(6), Cell::VideoSync { time_ns: 20_000_000 });
    assert_eq!(cell(7), Cell::Null);
    assert_eq!(cell(8), Cell::WholeReading { channel: 2, time_ns: 20_000_000 });
    assert_eq!(
        cell(9),
        Cell::Reading { channel: 1, time_ns: 20_000_000, linear: true, conversion: None }
    );
    assert_eq!(cell(10), Cell::Null);
}

#[test]
fn moments_that_cannot_be_told_are_the_last() {
    let far = Some(Session {
        key: String::new(),
        base_ns: 0,
        clock_offsets_ns: vec![Some(i128::from(i64::MAX)), Some(i128::from(i64::MIN) - 1)],
    });
    assert!(has_usable_clocks(far.as_ref().unwrap(), 2));
    let bound = bind_wide(&files(), "telemetry", &request(), map(""), &far).unwrap();
    let segment = WideSegment { file: 1, row_start: 0, len: 2 };
    assert_eq!(bound.cell(&files()[1], &segment, 0, 1, 0), Cell::Signed(i64::MAX));
    assert_eq!(bound.cell(&files()[1], &segment, 0, 1, 1), Cell::Signed(i64::MIN + 9_999_999));
    // Nothing of the first file lies in the span.
    assert_eq!(bound.ranges[0].rows, 0);
    let odd = Session { key: String::new(), base_ns: 1, clock_offsets_ns: vec![Some(i128::MIN)] };
    assert!(!has_usable_clocks(&odd, 1));
    assert!(!has_usable_clocks(&odd, 2));
    let odd = Session { key: String::new(), base_ns: 1, clock_offsets_ns: vec![Some(i128::MAX)] };
    assert!(!has_usable_clocks(&odd, 1));
}

#[test]
fn names_are_matched_by_letters_and_digits() {
    assert_eq!(normalized_channel_name("Lap_Number #2 (Öl)"), "lapnumber2l");
    let channels = vec![
        channel("Lap", "", 0, 0),
        channel("x", "", 1, 0),
        channel("LAP-count", "", 1, 0),
        channel("lap", "", 1, 0),
    ];
    let names = vec!["lap".to_owned(), "lapcount".to_owned()];
    assert_eq!(matching_channel(&channels, &names), Some(2));
    assert_eq!(matching_channel(&channels, &vec!["driver".to_owned()]), None);
}

#[test]
fn session_arguments() {
    assert_eq!(max_gap_ns(None), Ok(60_000_000_000));
    assert_eq!(max_gap_ns(Some(0)), Ok(0));
    assert_eq!(max_gap_ns(Some(86_400)), Ok(86_400_000_000_000));
    let refused = Err("max_gap_seconds must be between 0 and 86400".to_owned());
    assert_eq!(max_gap_ns(Some(-1)), refused);
    assert_eq!(max_gap_ns(Some(86_401)), refused);
    assert_eq!(check_single_session(1), Ok(()));
    assert_eq!(
        check_single_session(12),
        Err("read_telemetry_session matched 12 sessions; narrow the glob or adjust max_gap_seconds"
            .to_owned())
    );
}
