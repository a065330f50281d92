use motorsport_telemetry::cell::Cell;
use motorsport_telemetry::channel_map::ChannelMap;
use motorsport_telemetry::paths::{FoundPath, Step};
use motorsport_telemetry::pds::bytes::{u16le, u32le, u64le, utf16le};
use motorsport_telemetry::pds::definitions::infer_unit;
use motorsport_telemetry::pds::error::PdsError;
use motorsport_telemetry::pds::file::{Blend, Chunk, PdsFile, Reading, SampleValue};
use motorsport_telemetry::pds::search::expand_paths;
use motorsport_telemetry::sample::SampleType;
use motorsport_telemetry::samples::SampleSegment;
use motorsport_telemetry::source::UnitSource;
use motorsport_telemetry::wide::{bind_wide, wide_segments, WideRequest};

const DEFS: usize = 0x400;
const CHUNKS: usize = 0x800;
const SIZE: usize = 0x1000;

fn put(data: &mut [u8], at: usize, bytes: &[u8]) {
    data[at..at + bytes.len()].copy_from_slice(bytes);
}

fn put_u32(data: &mut [u8], at: usize, value: u32) {
    put(data, at, &value.to_le_bytes());
}

fn put_text(data: &mut [u8], at: usize, text: &str) {
    let bytes: Vec<u8> = text.encode_utf16().flat_map(u16::to_le_bytes).collect();
    put(data, at, &bytes);
}

/// A file with a directory for definitions, chunk records and what follows them.
fn blank(definitions: u32, chunks: u32, width: usize) -> Vec<u8> {
    let mut data = vec![0u8; SIZE];
    let next = CHUNKS + chunks as usize * width;
    for (i, offset) in [DEFS, CHUNKS, next].into_iter().enumerate() {
        let at = 0x80 + i * 32;
        put_u32(&mut data, at, offset as u32);
        put_u32(&mut data, at + 8, if i == 0 { definitions } else { chunks });
        put_u32(&mut data, at + 0x14, 1);
        put_u32(&mut data, at + 0x18, chunks);
    }
    data
}

fn put_marked(data: &mut [u8], index: usize, id: u32, name: &str, unit: &str, code: u32) {
    let at = DEFS + index * 304;
    put(data, at, &0x7c72u64.to_le_bytes());
    put_u32(data, at + 8, id);
    put_text(data, at + 0x10, name);
    put_text(data, at + 0x98, unit);
    put_u32(data, at + 0xd8, code);
}

fn put_chunk(data: &mut [u8], index: usize, id: u32, ticks: u32, count: u32, ptr: u32) {
    let at = CHUNKS + index * 64;
    put_u32(data, at + 4, id);
    put_u32(data, at + 8, id);
    put_u32(data, at + 0x18, ticks);
    put_u32(data, at + 0x1c, count);
    put_u32(data, at + 0x38, ptr);
}

/// Three channels; the second has two chunks, the third has none.
fn native() -> Vec<u8> {
    let mut data = blank(3, 3, 64);
    put_marked(&mut data, 0, 7, "Speed_Ref", "km/h", 6);
    put_marked(&mut data, 1, 9, "gear", "", 2);
    put_marked(&mut data, 2, 11, "STEER", "", 6);
    put_chunk(&mut data, 0, 9, 100_000, 2, 0xd00);
    put_chunk(&mut data, 1, 7, 200_000, 3, 0xc00);
    put_chunk(&mut data, 2, 9, 100_000, 2, 0xd10);
    for (i, value) in [1.5f32, 2.5, -4.0].into_iter().enumerate() {
        put(&mut data, 0xc00 + 4 * i, &value.to_le_bytes());
    }
    for (at, value) in [(0xd00, 1i16), (0xd02, 2), (0xd10, -3), (0xd12, 4)] {
        put(&mut data, at, &value.to_le_bytes());
    }
    data
}

fn open(data: Vec<u8>) -> PdsFile<'static> {
    PdsFile::open("run.pds", data.leak()).expect("a recording")
}

fn refusal(data: Vec<u8>) -> String {
    match PdsFile::open("run.pds", &data) {
        Err(PdsError::Invalid { path, message }) => {
            assert_eq!(path, "run.pds");
            message
        }
        other => panic!("{other:?}"),
    }
}

fn single(value: f32) -> SampleValue {
    SampleValue::Single(value.to_bits())
}

#[test]
fn a_native_recording_is_read() {
    let file = open(native());
    assert_eq!(file.path, "run.pds");
    let names: Vec<_> = file.channels.iter().map(|channel| channel.name.as_str()).collect();
    assert_eq!(names, vec!["Speed_Ref", "gear", "STEER"]);
    let speed = &file.channels[0];
    assert_eq!(speed.id, 7);
    assert_eq!(speed.unit, "km/h");
    assert_eq!(speed.sample_type, SampleType::F32);
    assert_eq!(speed.sample_count, 3);
    assert_eq!(speed.duration_ns, 60_000_000);
    assert_eq!(speed.first_period_ticks(), Some(200_000));
    let gear = &file.channels[1];
    assert_eq!(gear.sample_type, SampleType::I16);
    assert_eq!(gear.unit, "");
    // Chunks keep the order of the table and stand in a row.
    assert_eq!(
        gear.chunks,
        vec![
            Chunk {
                sample_period_ticks: 100_000,
                sample_count: 2,
                data_ptr: 0xd00,
                sample_base: 0,
                time_base_ns: 0
            },
            Chunk {
                sample_period_ticks: 100_000,
                sample_count: 2,
                data_ptr: 0xd10,
                sample_base: 2,
                time_base_ns: 20_000_000
            },
        ]
    );
    let steer = &file.channels[2];
    assert_eq!(steer.unit, "deg");
    assert_eq!(steer.sample_count, 0);
    assert_eq!(steer.first_period_ticks(), None);
}

#[test]
fn samples_are_decoded() {
    let file = open(native());
    let speed = &file.channels[0];
    assert_eq!(file.decode(speed, &speed.chunks[0], 0), single(1.5));
    assert_eq!(file.decode(speed, &speed.chunks[0], 2), single(-4.0));
    let gear = &file.channels[1];
    assert_eq!(file.decode(gear, &gear.chunks[1], 0), SampleValue::Integer(-3));
    assert_eq!(file.decode(gear, &gear.chunks[1], 1), SampleValue::Integer(4));
}

#[test]
fn every_representation_is_decoded() {
    let mut data = blank(1, 1, 64);
    put_marked(&mut data, 0, 7, "x", "", 1);
    put_chunk(&mut data, 0, 7, 1, 1, 0xc00);
    put(&mut data, 0xc00, &[0xfe, 0xff, 0xff, 0xff, 0xff, 0xff, 0xff, 0xbf]);
    let value = |code: u32| {
        let mut data = data.clone();
        put_u32(&mut data, DEFS + 0xd8, code);
        let file = open(data);
        let channel = &file.channels[0];
        file.decode(channel, &channel.chunks[0], 0)
    };
    assert_eq!(value(1), SampleValue::Integer(254));
    assert_eq!(value(2), SampleValue::Integer(-2));
    assert_eq!(value(3), SampleValue::Integer(0xfffe));
    assert_eq!(value(4), SampleValue::Integer(-2));
    assert_eq!(value(5), SampleValue::Integer(0xffff_fffe));
    assert_eq!(value(6), SampleValue::Single(0xffff_fffe));
    assert_eq!(value(7), SampleValue::Double(0xbfff_ffff_ffff_fffe));
    assert_eq!(value(8), SampleValue::Single(0xffff_fffe));
}

#[test]
fn samples_are_read_back_at_their_times() {
    let file = open(native());
    let speed = &file.channels[0];
    assert!(speed.has_countable_clock());
    assert!(speed.has_countable_samples());
    assert_eq!(
        file.sample_at(speed, 20_000_000, false),
        Some(Reading { sample: single(2.5), blend: None })
    );
    assert_eq!(
        file.sample_at(speed, 20_000_000, true),
        Some(Reading {
            sample: single(2.5),
            blend: Some(Blend { next: single(-4.0), elapsed_ns: 0, period_ns: 20_000_000 })
        })
    );
    assert_eq!(
        file.sample_at(speed, 25_000_000, true),
        Some(Reading {
            sample: single(2.5),
            blend: Some(Blend { next: single(-4.0), elapsed_ns: 5_000_000, period_ns: 20_000_000 })
        })
    );
    // There is nothing to blend the last sample with, and nothing after the end.
    assert_eq!(
        file.sample_at(speed, 59_999_999, true),
        Some(Reading { sample: single(-4.0), blend: None })
    );
    assert_eq!(file.sample_at(speed, 60_000_000, true), None);
    assert_eq!(file.sample_at(&file.channels[2], 0, true), None);
}

#[test]
fn integers_stay_stepwise() {
    let file = open(native());
    let gear = &file.channels[1];
    for (time_ns, value) in [(0, 1), (9_999_999, 1), (10_000_000, 2), (20_000_000, -3), (39_999_999, 4)] {
        assert_eq!(
            file.sample_at(gear, time_ns, true),
            Some(Reading { sample: SampleValue::Integer(value), blend: None })
        );
    }
}

#[test]
fn chunks_end_with_the_file() {
    let mut data = native();
    put_chunk(&mut data, 1, 7, 200_000, 1_000_000, 0xffa);
    let file = open(data);
    // Six bytes are left: one sample.
    assert_eq!(file.channels[0].sample_count, 1);
    let mut data = native();
    put_chunk(&mut data, 1, 7, 200_000, 5, 0xffe);
    assert_eq!(open(data).channels[0].chunks, vec![]);
}

#[test]
fn chunks_belong_to_the_first_definition_of_an_id() {
    let mut data = native();
    put_marked(&mut data, 2, 7, "again", "", 6);
    let file = open(data);
    assert_eq!(file.channels[0].sample_count, 3);
    assert_eq!(file.channels[2].name, "again");
    assert_eq!(file.channels[2].sample_count, 0);
}

#[test]
fn a_compact_export_is_read() {
    // Definitions without markers, chunk records without identifiers.
    let mut data = blank(2, 3, 64);
    for (i, name) in ["P_F_BRAKE", "rpm"].into_iter().enumerate() {
        let at = DEFS + i * 0x200;
        put_u32(&mut data, at, i as u32);
        put_text(&mut data, at + 8, name);
    }
    for i in 0..3 {
        let at = CHUNKS + i * 64;
        put_u32(&mut data, at + 0x18, 10);
        put_u32(&mut data, at + 0x1c, 2);
        put_u32(&mut data, at + 0x38, 0xc00 + 16 * i as u32);
    }
    put(&mut data, 0xc20, &2.25f64.to_le_bytes());
    let file = open(data);
    assert_eq!(file.channels.len(), 2);
    assert_eq!(file.channels[0].unit, "pa");
    assert_eq!(file.channels[0].sample_type, SampleType::F64);
    // Records go round the definitions.
    assert_eq!(file.channels[0].sample_count, 4);
    assert_eq!(file.channels[1].sample_count, 2);
    let brake = &file.channels[0];
    assert_eq!(
        file.decode(brake, &brake.chunks[1], 0),
        SampleValue::Double(2.25f64.to_bits())
    );
}

#[test]
fn unreadable_files_are_refused() {
    assert_eq!(refusal(vec![0; 255]), "file is smaller than 256 bytes");
    assert_eq!(refusal(vec![0; 256]), "no valid definitions/chunk layout found");
    assert_eq!(refusal(blank(0, 3, 64)), "no valid definitions/chunk layout found");
    assert_eq!(refusal(blank(3, 3, 64)), "no channel definitions found");
}

#[test]
fn a_pattern_without_files_is_refused() {
    let found = |name: &str| FoundPath {
        steps: vec![Step { rank: 4, name: name.as_bytes().to_vec() }],
        extension: None,
    };
    // Whatever their extensions, files come in order and once.
    let paths = vec![found("b"), found("a"), found("b")];
    assert_eq!(expand_paths("*", &paths).unwrap(), vec![1, 0]);
    assert_eq!(expand_paths("*", &vec![]).unwrap_err().message(), "no files matched *");
}

#[test]
fn errors_have_messages() {
    assert_eq!(
        PdsError::Invalid { path: "a".to_owned(), message: "b".to_owned() }.message(),
        "invalid PDS file a: b"
    );
    assert_eq!(PdsError::NoFiles("*.pds".to_owned()).message(), "no files matched *.pds");
    assert_eq!(
        PdsError::Io { path: "a".to_owned(), source: "gone".to_owned() }.message(),
        "I/O error for a: gone"
    );
    assert_eq!(
        PdsError::Glob { pattern: "[".to_owned(), source: "bad".to_owned() }.message(),
        "invalid glob [: bad"
    );
}

#[test]
fn units_are_inferred_from_names() {
    for (name, unit) in [
        ("Wheel SPEED FL", "m/s"),
        ("Velocity", "m/s"),
        ("STEER", "deg"),
        ("I_ACCEL_LONG", "g"),
        ("X_FL_DAMPER", "mm"),
        ("Brake Press F", "pa"),
        ("p_f_brake", "pa"),
        ("P_Tyre_FL", "pa"),
        ("tire press", "pa"),
        ("Tyre Pressure", "pa"),
        ("press", ""),
        ("brake temp", ""),
        ("", ""),
    ] {
        assert_eq!(infer_unit(name), unit, "{name}");
    }
}

#[test]
fn numbers_are_little_endian() {
    let data = [1, 2, 3, 4, 5, 6, 7, 8];
    assert_eq!(u16le(&data, 6), Some(0x0807));
    assert_eq!(u16le(&data, 7), None);
    assert_eq!(u32le(&data, 4), Some(0x0807_0605));
    assert_eq!(u32le(&data, 5), None);
    assert_eq!(u64le(&data, 0), Some(0x0807_0605_0403_0201));
    assert_eq!(u64le(&data, 1), None);
}

#[test]
fn text_is_utf16() {
    let mut data = vec![0u8; 40];
    put_text(&mut data, 2, " Öl °C 🏁 ");
    assert_eq!(utf16le(&data, 2, 38), "Öl °C 🏁");
    // Cut off in the middle of a pair, and at the end of the data.
    assert_eq!(utf16le(&data, 2, 16), "Öl °C \u{fffd}");
    assert_eq!(utf16le(&data, 2, 0), "");
    assert_eq!(utf16le(&data, 100, 8), "");
    put(&mut data, 0, &0xdc00u16.to_le_bytes());
    assert_eq!(utf16le(&data, 0, 8), "\u{fffd} Öl");
}

#[test]
fn a_recording_is_a_source() {
    let source = open(native()).to_source();
    assert_eq!(source.path, "run.pds");
    assert_eq!(source.format, "pds");
    assert_eq!(source.channels[1].chunks[1].sample_period_ns, 10_000_000);
    assert_eq!(source.channels[1].chunks[1].time_base_ns, 20_000_000);
    assert_eq!(source.channels[0].unit_source, UnitSource::Unknown);
    assert_eq!(source.channels[0].duration_ns, 60_000_000);
}

#[test]
fn rows_of_samples() {
    let file = open(native());
    let segment = SampleSegment { file: 0, channel: 1, chunk: 1, local_start: 0, len: 2 };
    let cell = |column| file.sample_cell(&segment, 5, column, 1);
    assert_eq!(cell(0), Cell::Text("run.pds".to_owned()));
    assert_eq!(cell(1), Cell::Unsigned32(9));
    assert_eq!(cell(2), Cell::Text("gear".to_owned()));
    assert_eq!(cell(3), Cell::Text(String::new()));
    assert_eq!(cell(4), Cell::Ratio { numerator: 10_000_000, denominator: 100_000 });
    assert_eq!(cell(5), Cell::Unsigned(3));
    assert_eq!(cell(6), Cell::Signed(30_000_000));
    assert_eq!(cell(7), Cell::Stored(SampleValue::Integer(4)));
    assert_eq!(cell(8), Cell::Signed(5));
}

#[test]
fn rows_of_a_wide_table() {
    let file = open(native());
    let source = file.to_source();
    let request = WideRequest {
        rate: Some(200),
        start_ns: Some(20_000_000),
        end_ns: None,
        interpolate: None,
        channels: None,
        filename: None,
        add_filename_as_column: None,
        timestamps: None,
        add_create_date_as_column: None,
        add_modified_at_as_column: None,
        unit_tags: None,
    };
    let sources = vec![source];
    let bound = bind_wide(&sources, "PDS", &request, Ok(ChannelMap::default()), &None).unwrap();
    // STEER has no samples, and Speed_Ref lasts until 60 ms.
    assert_eq!(bound.names, vec!["Speed_Ref", "gear"]);
    assert_eq!(bound.total_rows, 8);
    let segments = wide_segments(&bound.ranges);
    let at = |column: u64, row: u64| {
        file.wide_cell(bound.cell(&sources[0], &segments[0], 0, column, row))
    };
    assert_eq!(at(0, 1), Cell::Signed(25_000_000));
    let blend = Some(Blend { next: single(-4.0), elapsed_ns: 5_000_000, period_ns: 20_000_000 });
    assert_eq!(at(1, 1), Cell::Between(Reading { sample: single(2.5), blend }));
    let gear = SampleValue::Integer(-3);
    assert_eq!(at(2, 1), Cell::Between(Reading { sample: gear, blend: None }));
    assert_eq!(at(2, 4), Cell::Null);
}

#[test]
fn rows_of_channels() {
    let file = open(native());
    let gear = |column| file.channel_cell(&file.channels[1], column, 1);
    assert_eq!(gear(4), Cell::Unsigned32(2));
    assert_eq!(gear(5), Cell::Text("int16".to_owned()));
    assert_eq!(gear(6), Cell::Ratio { numerator: 10_000_000, denominator: 100_000 });
    assert_eq!(gear(7), Cell::Unsigned(10_000_000));
    assert_eq!(gear(8), Cell::Unsigned(4));
    assert_eq!(gear(9), Cell::Unsigned(2));
    assert_eq!(gear(10), Cell::Unsigned(40_000_000));
    assert_eq!(gear(11), Cell::Signed(1));
    let steer = |column| file.channel_cell(&file.channels[2], column, 2);
    assert_eq!(steer(0), Cell::Text("run.pds".to_owned()));
    assert_eq!(steer(1), Cell::Unsigned32(11));
    assert_eq!(steer(2), Cell::Text("STEER".to_owned()));
    assert_eq!(steer(3), Cell::Text("deg".to_owned()));
    assert_eq!(steer(6), Cell::Null);
    assert_eq!(steer(7), Cell::Null);
}

#[test]
fn codes_and_representations() {
    for code in 1..=7 {
        assert_eq!(SampleType::from_code(code).code(), code);
    }
    assert_eq!(SampleType::from_code(0), SampleType::F32);
    assert_eq!(SampleType::from_code(99), SampleType::F32);
    let widths: Vec<_> = (1..=7).map(|code| SampleType::from_code(code).byte_width()).collect();
    assert_eq!(widths, vec![1, 2, 2, 4, 4, 4, 8]);
    let names: Vec<_> = (1..=7).map(|code| SampleType::from_code(code).name()).collect();
    assert_eq!(
        names,
        vec!["uint8", "int16", "uint16", "int32", "uint32", "float32", "float64"]
    );
    assert!(SampleType::F32.is_float() && SampleType::F64.is_float());
    assert!(!SampleType::U32.is_float());
}
