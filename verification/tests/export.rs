use motorsport_telemetry::cell::Cell;
use motorsport_telemetry::export::{
    affine_conversion, check_output_format, check_single_file, count_written, mapping_questions,
    sum_questions, write_cell, ExportInputs, ExportSource, SumReply, UnitReply, WriteReport,
};
use motorsport_telemetry::number::Affine;
use motorsport_telemetry::sample::SampleType;
use motorsport_telemetry::source::{SourceChannel, SourceChunk, UnitSource};

/// A small registry of units: spellings, dimension, factor and offset to the base unit.
const UNITS: [(&[&str], &str, f64, f64); 11] = [
    (&["m/s"], "speed", 1.0, 0.0),
    (&["km/h", "kph"], "speed", 1.0 / 3.6, 0.0),
    (&["K"], "temperature", 1.0, 0.0),
    (&["°C", "Celsius"], "temperature", 1.0, 273.15),
    (&["°F"], "temperature", 5.0 / 9.0, 459.67 * 5.0 / 9.0),
    (&["Pa"], "pressure", 1.0, 0.0),
    (&["bar"], "pressure", 100_000.0, 0.0),
    (&["m"], "length", 1.0, 0.0),
    (&["mm"], "length", 0.001, 0.0),
    (&["rad"], "angle", 1.0, 0.0),
    (&["kg"], "mass", 1.0, 0.0),
];

fn lookup(unit: &str) -> Option<&'static (&'static [&'static str], &'static str, f64, f64)> {
    UNITS.iter().find(|def| def.0.contains(&unit))
}

fn normalize(unit: &str) -> Option<&'static str> {
    lookup(unit).map(|def| def.0[0])
}

fn convert_units(value: f64, from: &str, to: &str) -> Result<f64, String> {
    let from_def = lookup(from).ok_or(format!("unknown unit '{from}'"))?;
    let to_def = lookup(to).ok_or(format!("unknown unit '{to}'"))?;
    if from_def.1 != to_def.1 {
        return Err(format!("cannot convert '{from}' to '{to}'"));
    }
    Ok((value * from_def.2 + from_def.3 - to_def.3) / to_def.2)
}

fn reply(from: &str, to: &str) -> UnitReply {
    let conversion = convert_units(0.0, from, to).and_then(|offset| {
        convert_units(1.0, from, to).map(|one| Affine {
            scale: (one - offset).to_bits(),
            offset: offset.to_bits(),
        })
    });
    UnitReply { from: known(from), to: known(to), conversion }
}

fn known(unit: &str) -> Option<String> {
    normalize(unit).map(|canonical| canonical.to_owned())
}

fn conversion(from: &str, to: &str) -> Result<(f64, f64), String> {
    affine_conversion(from, to, &reply(from, to))
        .map(|affine| (f64::from_bits(affine.scale), f64::from_bits(affine.offset)))
}

type Values = Vec<Vec<Vec<f64>>>;

/// A single-chunk channel at 1 Hz holding `values`.
fn named(name: &str, unit: &str, values: &[f64]) -> (SourceChannel, Vec<Vec<f64>>) {
    let count = values.len() as u64;
    (
        SourceChannel {
            id: 1,
            name: name.into(),
            unit: unit.into(),
            unit_source: if unit.is_empty() { UnitSource::Unknown } else { UnitSource::Declared },
            sample_type: SampleType::F64,
            chunks: vec![SourceChunk {
                sample_period_ns: 1_000_000_000,
                sample_count: count,
                data_ptr: 0,
                sample_base: 0,
                time_base_ns: 0,
            }],
            sample_count: count,
            duration_ns: count * 1_000_000_000,
        },
        vec![values.to_vec()],
    )
}

fn source(parts: Vec<(SourceChannel, Vec<Vec<f64>>)>) -> (Vec<SourceChannel>, Values) {
    parts.into_iter().unzip()
}

fn row(cells: &[&str]) -> Vec<String> {
    cells.iter().map(|cell| (*cell).to_owned()).collect()
}

fn export(
    channels: &Vec<SourceChannel>,
    mapping: &Vec<Vec<String>>,
    sums: &Vec<Vec<String>>,
    include_unmapped: bool,
    exclude: &[&str],
) -> Result<ExportSource, String> {
    let replies = mapping_questions(channels, mapping)
        .iter()
        .map(|(from, to)| reply(from, to))
        .collect();
    let sum_replies = sum_questions(channels, sums)
        .iter()
        .map(|(left, right, target)| SumReply {
            left: known(left),
            right: known(right),
            target: reply(left, target),
        })
        .collect();
    let exclude = row(exclude);
    ExportSource::new(channels, mapping, sums, include_unmapped, &exclude, &replies, &sum_replies)
}

fn decode(exported: &ExportSource, values: &Values, channel: usize, chunk: usize, index: usize) -> f64 {
    let export = exported.exports[channel];
    let value = match export.inputs {
        ExportInputs::Direct(input) => values[input][chunk][index],
        ExportInputs::Sum(left, right) => values[left][chunk][index] + values[right][chunk][index],
    };
    value * f64::from_bits(export.conversion.scale) + f64::from_bits(export.conversion.offset)
}

fn names(exported: &ExportSource) -> Vec<&str> {
    exported.channels.iter().map(|channel| channel.name.as_str()).collect()
}

#[test]
fn affine_conversion_reproduces_units_convert_exactly() {
    // Projected values are `v * scale + offset`; that must equal the registry's conversion for
    // every value, or projected exports would drift from the truthful conversion.
    for (from, to) in [
        ("m/s", "km/h"),
        ("km/h", "m/s"),
        ("°C", "°F"),
        ("°F", "°C"),
        ("Pa", "bar"),
        ("m", "mm"),
    ] {
        let (scale, offset) = conversion(from, to).unwrap();
        for value in [-100.0, -12.5, 0.0, 0.2, 100.0, 273.15, 1e3] {
            let linear = value * scale + offset;
            let conv = convert_units(value, from, to).unwrap();
            assert!(
                (linear - conv).abs() <= 1e-9 * (1.0 + conv.abs()),
                "{from}->{to} at {value}: linear {linear} vs convert {conv}"
            );
        }
    }
}

#[test]
fn affine_conversion_is_identity_for_same_unit_and_spellings() {
    assert_eq!(conversion("m/s", "m/s").unwrap(), (1.0, 0.0));
    // Case-insensitive.
    assert_eq!(conversion("M/S", "m/s").unwrap(), (1.0, 0.0));
    // Alias vs canonical of the same unit.
    assert_eq!(conversion("°C", "Celsius").unwrap(), (1.0, 0.0));
}

#[test]
fn affine_conversion_rejects_unknown_and_mismatched_units() {
    assert!(conversion("m/s", "nonexistent").is_err());
    assert!(conversion("nonexistent", "m/s").is_err());
    // Different dimensions (speed vs pressure) must not silently convert.
    assert!(conversion("m/s", "bar").is_err());
}

#[test]
fn direct_mapping_renames_converts_and_follows_unity() {
    let (mut spd, sv) = named("Speed", "m/s", &[10.0, 20.0]);
    spd.sample_type = SampleType::I32; // integer raw storage stays integer-ish
    let (channels, values) = source(vec![(spd, sv)]);
    let mapping = vec![row(&["Speed", "Ground Speed", "km/h"])];
    let ext = export(&channels, &mapping, &vec![], false, &[]).unwrap();
    assert_eq!(ext.channels.len(), 1);
    let ch = &ext.channels[0];
    assert_eq!(ch.name, "Ground Speed");
    assert_eq!(ch.unit, "km/h");
    assert_eq!(ch.unit_source, UnitSource::Declared);
    // A non-identity conversion forces f64 so the scale cannot truncate.
    assert_eq!(ch.sample_type, SampleType::F64);
    assert_eq!(decode(&ext, &values, 0, 0, 0), 36.0);
    assert_eq!(decode(&ext, &values, 0, 0, 1), 72.0);
}

#[test]
fn sum_channel_adds_sources_and_converts_the_total() {
    let (mut l, lv) = named("Left", "m/s", &[1.0, 2.0]);
    l.unit = "m/s".into();
    l.unit_source = UnitSource::Declared;
    let (mut r, rv) = named("Right", "m/s", &[3.0, 4.0]);
    r.unit = "m/s".into();
    r.unit_source = UnitSource::Declared;
    let (channels, values) = source(vec![(l, lv), (r, rv)]);
    let sums = vec![row(&["Left", "Right", "Total", "km/h"])];
    let ext = export(&channels, &vec![], &sums, false, &[]).unwrap();
    assert_eq!(ext.channels.len(), 1);
    assert_eq!(ext.channels[0].name, "Total");
    assert_eq!(ext.channels[0].unit, "km/h");
    assert_eq!(ext.channels[0].sample_type, SampleType::F64);
    // (1+3) m/s -> 14.4 km/h; (2+4) m/s -> 21.6 km/h.
    assert!((decode(&ext, &values, 0, 0, 0) - 14.4).abs() < 1e-9);
    assert!((decode(&ext, &values, 0, 0, 1) - 21.6).abs() < 1e-9);
}

#[test]
fn channels_and_exports_stay_aligned_under_mixed_projection() {
    let (channels, values) = source(vec![
        named("Speed", "m/s", &[10.0, 20.0]),
        named("Steer", "rad", &[0.5, 1.0]),
        named("T1", "K", &[300.0, 310.0]),
        named("T2", "K", &[260.0, 270.0]),
    ]);
    let mapping = vec![row(&["Speed", "Ground Speed", "km/h"])];
    let sums = vec![row(&["T1", "T2", "Tsum", "°C"])];
    let ext = export(&channels, &mapping, &sums, true, &[]).unwrap();
    // Mappings first, then unmapped (Steer, T1, T2), then sums.
    assert_eq!(names(&ext), vec!["Ground Speed", "Steer", "T1", "T2", "Tsum"]);

    // Each exported index must decode against its own export entry, proving
    // the channels[]/exports[] vectors never drift out of alignment.
    assert_eq!(decode(&ext, &values, 0, 0, 0), 36.0); // Speed converted
    assert_eq!(decode(&ext, &values, 1, 0, 0), 0.5); // Steer passthrough
    assert_eq!(decode(&ext, &values, 2, 0, 0), 300.0); // T1 passthrough
    assert_eq!(decode(&ext, &values, 3, 0, 0), 260.0); // T2 passthrough
    let expected = convert_units(560.0, "K", "°C").unwrap();
    assert!((decode(&ext, &values, 4, 0, 0) - expected).abs() < 1e-9); // (T1+T2)
}

#[test]
fn empty_projection_passes_every_channel_through_untouched() {
    let (channels, values) = source(vec![
        named("A", "m/s", &[1.0, 2.0]),
        named("B", "m/s", &[3.0, 4.0]),
    ]);
    let ext = export(&channels, &vec![], &vec![], false, &[]).unwrap();
    assert_eq!(ext.channels.len(), 2);
    assert_eq!(ext.channels[0].name, "A");
    assert_eq!(ext.channels[1].unit, "m/s");
    assert_eq!(ext.channels[1].unit_source, UnitSource::Declared);
    assert_eq!(decode(&ext, &values, 0, 0, 0), 1.0);
    assert_eq!(decode(&ext, &values, 1, 0, 1), 4.0);
}

#[test]
fn include_unmapped_and_exclude_control_the_projection() {
    let (channels, _) = source(vec![
        named("A", "m/s", &[1.0, 2.0]),
        named("B", "m/s", &[3.0, 4.0]),
        named("C", "m/s", &[5.0, 6.0]),
    ]);
    let mapping = vec![row(&["A", "X", "m/s"])];

    let only_mapped = export(&channels, &mapping, &vec![], false, &[]).unwrap();
    assert_eq!(names(&only_mapped), vec!["X"]);

    let all = export(&channels, &mapping, &vec![], true, &[]).unwrap();
    assert_eq!(names(&all), vec!["X", "B", "C"]);

    // Exclusion is case-insensitive and drops the unmapped channel only.
    let excluded = export(&channels, &mapping, &vec![], true, &["b"]).unwrap();
    assert_eq!(names(&excluded), vec!["X", "C"]);
}

#[test]
fn export_rejects_bad_projections() {
    let (mut x, xv) = named("A", "m/s", &[1.0, 2.0]);
    x.unit_source = UnitSource::Declared;
    let (mut y, yv) = named("B", "m/s", &[3.0, 4.0]);
    y.unit_source = UnitSource::Declared;
    let (mut z, zv) = named("C", "kg", &[5.0, 6.0]);
    z.unit_source = UnitSource::Declared;
    let (src, _) = source(vec![
        (x.clone(), xv.clone()),
        (y.clone(), yv.clone()),
        (z.clone(), zv.clone()),
    ]);

    // Unknown source channel.
    assert!(export(&src, &vec![row(&["Nope", "X", "m/s"])], &vec![], false, &[]).is_err());
    // Empty target name.
    assert!(export(&src, &vec![row(&["A", "  ", "m/s"])], &vec![], false, &[]).is_err());
    // Duplicate target names, even under different casing.
    assert!(export(
        &src,
        &vec![row(&["A", "X", "m/s"]), row(&["B", "x", "m/s"])],
        &vec![],
        false,
        &[]
    )
    .is_err());
    // Mapping across incompatible dimensions.
    assert!(export(&src, &vec![row(&["A", "X", "kg"])], &vec![], false, &[]).is_err());
    // Sum sources on different sample clocks.
    let (mut slow, slowv) = named("Slow", "m/s", &[7.0, 8.0]);
    slow.chunks[0].sample_period_ns = 2_000_000_000;
    slow.unit_source = UnitSource::Declared;
    let (src2, _) = source(vec![(x.clone(), xv.clone()), (slow, slowv)]);
    assert!(export(&src2, &vec![], &vec![row(&["A", "Slow", "Sum", "m/s"])], false, &[]).is_err());
    // Sum sources with incompatible dimensions.
    let (src3, _) = source(vec![(x.clone(), xv.clone()), (z.clone(), zv.clone())]);
    assert!(export(&src3, &vec![], &vec![row(&["A", "C", "Sum", "m/s"])], false, &[]).is_err());
}

#[test]
fn sum_with_identical_units_and_clocks_needs_no_conversion() {
    let (mut l, lv) = named("L", "m/s", &[1.0, 2.0]);
    l.unit_source = UnitSource::Declared;
    let (mut r, rv) = named("R", "m/s", &[3.0, 4.0]);
    r.unit_source = UnitSource::Declared;
    let (channels, values) = source(vec![(l, lv), (r, rv)]);
    let sums = vec![row(&["L", "R", "LR", "m/s"])];
    let ext = export(&channels, &vec![], &sums, false, &[]).unwrap();
    let ch = &ext.channels[0];
    assert_eq!(ch.unit, "m/s");
    assert_eq!(ch.unit_source, UnitSource::Declared);
    assert_eq!(decode(&ext, &values, 0, 0, 0), 4.0);
}

#[test]
fn every_bad_projection_has_its_message() {
    let (src, _) = source(vec![
        named("A", "m/s", &[1.0, 2.0]),
        named("B", "m/s", &[3.0, 4.0]),
        named("C", "kg", &[5.0, 6.0]),
        named("a", "m/s", &[0.0]),
    ]);
    let mapping = |rows: Vec<Vec<String>>| export(&src, &rows, &vec![], true, &[]).expect_err("bad");
    let sum = |cells: &[&str]| {
        export(&src, &vec![], &vec![row(cells)], false, &[]).expect_err("bad")
    };
    assert_eq!(mapping(vec![row(&["Nope", "X", ""])]), "export source channel not found: Nope");
    assert_eq!(mapping(vec![row(&["A", " ", ""])]), "empty target name for A");
    assert_eq!(
        mapping(vec![row(&["A", "X", ""]), row(&["B", "x ", ""])]),
        "duplicate export target channel: x"
    );
    assert_eq!(mapping(vec![row(&["A", "b", ""])]), "duplicate export target channel: B");
    assert_eq!(mapping(vec![row(&["A", "X", "bar"])]), "cannot convert 'm/s' to 'bar'");
    assert_eq!(sum(&["A", "Nope", "S", "m/s"]), "export source channel not found: Nope");
    assert_eq!(sum(&["B", "A", "", "m/s"]), "sum_channels target name and unit cannot be empty");
    assert_eq!(sum(&["B", "A", "S", " "]), "sum_channels target name and unit cannot be empty");
    assert_eq!(sum(&["A", "C", "S", "m/s"]), "cannot sum A [m/s] and C [kg]: units differ");
    let (short, _) = source(vec![named("A", "m/s", &[1.0]), named("B", "m/s", &[1.0, 2.0])]);
    assert_eq!(
        export(&short, &vec![], &vec![row(&["A", "B", "S", "m/s"])], false, &[]).expect_err("bad"),
        "cannot sum A and B: sample clocks differ"
    );
}

#[test]
fn a_mapping_without_a_unit_keeps_the_channel_as_it_is() {
    let (mut spd, sv) = named("Speed", "m/s", &[10.0]);
    spd.sample_type = SampleType::I16;
    spd.unit_source = UnitSource::SpecDefault;
    let (channels, values) = source(vec![(spd, sv)]);
    let ext = export(&channels, &vec![row(&["SPEED", " V ", " "])], &vec![], false, &[]).unwrap();
    assert_eq!(ext.channels[0].name, "V");
    assert_eq!(ext.channels[0].unit, "m/s");
    assert_eq!(ext.channels[0].unit_source, UnitSource::SpecDefault);
    assert_eq!(ext.channels[0].sample_type, SampleType::I16);
    assert_eq!(ext.exports[0].inputs, ExportInputs::Direct(0));
    assert_eq!(decode(&ext, &values, 0, 0, 0), 10.0);
}

#[test]
fn unknown_units_are_not_taken_for_the_same() {
    assert_eq!(conversion("furlongs", "nonexistent"), Err("unknown unit 'furlongs'".to_owned()));
    // One that is spelled alike needs no conversion.
    assert_eq!(conversion("furlongs", "Furlongs"), Ok((1.0, 0.0)));

    let sum = |left: &str, right: &str, target: &str| {
        let (channels, _) = source(vec![named("L", left, &[1.0]), named("R", right, &[2.0])]);
        export(&channels, &vec![], &vec![row(&["L", "R", "S", target])], false, &[]).map(|_| ())
    };
    assert_eq!(
        sum("furlongs", "nonexistent", "furlongs"),
        Err("cannot sum L [furlongs] and R [nonexistent]: units differ".to_owned())
    );
    assert_eq!(sum("furlongs", "furlongs", "furlongs"), Ok(()));
    assert_eq!(
        sum("furlongs", "furlongs", "m/s"),
        Err("unknown unit 'furlongs'".to_owned())
    );
    assert_eq!(sum("kph", "km/h", "km/h"), Ok(()));
    // The registry knows `m/s` alone.
    assert_eq!(
        sum("m/s", "M/S", "m/s"),
        Err("cannot sum L [m/s] and R [M/S]: units differ".to_owned())
    );
}

#[test]
fn questions_are_those_of_the_rows() {
    let (channels, _) = source(vec![named("A", "m/s", &[1.0]), named("B", "K", &[1.0])]);
    assert_eq!(
        mapping_questions(
            &channels,
            &vec![row(&["a", "X", " km/h "]), row(&["b", "Y", ""]), row(&["no", "Z", "m"])]
        ),
        vec![
            ("m/s".to_owned(), "km/h".to_owned()),
            ("K".to_owned(), "K".to_owned()),
            (String::new(), String::new()),
        ]
    );
    assert_eq!(
        sum_questions(&channels, &vec![row(&["A", "B", "S", "m"]), row(&["A", "no", "S", "m"])]),
        vec![
            ("m/s".to_owned(), "K".to_owned(), "m".to_owned()),
            (String::new(), String::new(), String::new()),
        ]
    );
}

#[test]
fn only_motec_files_are_written() {
    assert_eq!(check_output_format(None, None), Ok(()));
    assert_eq!(check_output_format(None, Some("LD")), Ok(()));
    assert_eq!(check_output_format(Some("MoTeC"), Some("pds")), Ok(()));
    assert_eq!(check_output_format(Some("ld"), None), Ok(()));
    assert_eq!(
        check_output_format(None, Some("VBO")),
        Err("write_telemetry currently supports format 'motec' only, got 'vbo'".to_owned())
    );
    assert_eq!(
        check_output_format(None, Some("pds")),
        Err("write_telemetry currently supports format 'motec' only, got 'pds'".to_owned())
    );
    assert_eq!(
        check_output_format(Some("CSV"), None),
        Err("write_telemetry currently supports format 'motec' only, got 'CSV'".to_owned())
    );
    assert_eq!(check_single_file(1, "*.pds"), Ok(()));
    assert_eq!(
        check_single_file(12, "*.pds"),
        Err("write_telemetry writes one file at a time but 12 matched *.pds".to_owned())
    );
}

#[test]
fn channels_and_samples_are_counted() {
    let (channels, _) = source(vec![
        named("A", "m/s", &[1.0, 2.0]),
        named("B", "m/s", &[]),
        named("C", "m/s", &[1.0]),
    ]);
    assert_eq!(count_written(&channels), (2, Some(3)));
    let (mut big, values) = named("D", "", &[1.0]);
    big.sample_count = u64::MAX;
    let (channels, _) = source(vec![(big.clone(), values.clone()), (big, values)]);
    assert_eq!(count_written(&channels), (2, None));
}

#[test]
fn a_report_has_a_row() {
    let report = WriteReport {
        source: "run.pds".to_owned(),
        output: "run.ld".to_owned(),
        channels: 31,
        samples: 1_716_105,
        bytes: 13_736_960,
        sidecar: "run.ldx".to_owned(),
        sidecar_bytes: 2314,
    };
    let text = |text: &str| Cell::Text(text.to_owned());
    let row: Vec<_> = (0..8).map(|column| write_cell(&report, column)).collect();
    assert_eq!(
        row,
        vec![
            text("run.pds"),
            text("run.ld"),
            text("motec"),
            Cell::Unsigned(31),
            Cell::Unsigned(1_716_105),
            Cell::Unsigned(13_736_960),
            text("run.ldx"),
            Cell::Unsigned(2314),
        ]
    );
}
