use motorsport_telemetry::cell::Cell;
use motorsport_telemetry::channel_map::{number_fields, ChannelMap};
use motorsport_telemetry::comments::{
    bind_comments, column_comment_ddl, comment_columns, comment_statement, escape_literal, quote_qualified,
    unit_payload, UnitInfo,
};
use motorsport_telemetry::filter::parse_channel_filter;
use motorsport_telemetry::sample::SampleType;
use motorsport_telemetry::source::{SourceChannel, SourceChunk, SourceFile, UnitSource};

fn info(canonical: &str, dimension: &str, base_unit: &str) -> Option<UnitInfo> {
    Some(UnitInfo {
        canonical: canonical.to_owned(),
        dimension: dimension.to_owned(),
        base_unit: base_unit.to_owned(),
    })
}

fn channel(name: &str, unit: &str, period: Option<u64>) -> SourceChannel {
    let chunks = match period {
        Some(sample_period_ns) => vec![SourceChunk {
            sample_period_ns,
            sample_count: 2,
            data_ptr: 0,
            sample_base: 0,
            time_base_ns: 0,
        }],
        None => vec![],
    };
    SourceChannel {
        id: 1,
        name: name.to_owned(),
        unit: unit.to_owned(),
        unit_source: UnitSource::SpecDefault,
        sample_type: SampleType::F32,
        chunks,
        sample_count: 2,
        duration_ns: 0,
    }
}

fn file(channels: Vec<SourceChannel>) -> SourceFile {
    SourceFile {
        path: "run.pds".to_owned(),
        format: "pds".to_owned(),
        channels,
        create_date_micros: 0,
        modified_at_micros: 0,
    }
}

fn map(text: &str) -> ChannelMap {
    let readings = number_fields(text)
        .iter()
        .map(|number| number.parse::<f64>().ok().map(f64::to_bits))
        .collect();
    ChannelMap::parse(text, &readings).unwrap()
}

#[test]
fn comments_refuse_rules_for_absent_channels() {
    let files = vec![file(vec![channel("STEER", "rad", Some(10)), channel("Gear", "", None)])];
    let bound = bind_comments(&files, Some("angle"), Ok(map("steer -> Angle [deg]"))).unwrap();
    assert_eq!(bound.len(), 1);
    assert_eq!(bound[0].column, "Angle");
    assert_eq!(bound[0].unit, "deg");
    assert_eq!(bound[0].source, UnitSource::Declared);
    assert_eq!(
        bind_comments(&files, None, Ok(map("Steeer -> Angle"))).unwrap_err(),
        "channel_map references channel(s) not present in the data: Steeer"
    );
    assert_eq!(
        bind_comments(&files, None, Err("channel_map line 1: bad".to_owned())).unwrap_err(),
        "channel_map line 1: bad"
    );
}

#[test]
fn generates_column_comment_ddl() {
    let columns = vec![
        ("Ground Speed".to_owned(), "km/h".to_owned(), UnitSource::Declared),
        ("STEER".to_owned(), "rad".to_owned(), UnitSource::SpecDefault),
        // No unit: must be skipped, not commented with an empty string.
        ("gear".to_owned(), String::new(), UnitSource::Unknown),
    ];
    let infos = vec![info("km/h", "speed", "m/s"), info("rad", "angle", "rad"), None];
    let ddl = column_comment_ddl("laps", &columns, &infos);
    assert_eq!(ddl.len(), 2, "unitless channels are skipped");
    assert_eq!(
        ddl[0],
        "COMMENT ON COLUMN \"laps\".\"Ground Speed\" IS 'unit=km/h; source=declared; dimension=speed; base_unit=m/s';"
    );
    assert_eq!(
        ddl[1],
        "COMMENT ON COLUMN \"laps\".\"STEER\" IS 'unit=rad; source=spec_default; dimension=angle; base_unit=rad';"
    );
}

#[test]
fn ddl_quoting_survives_hostile_identifiers() {
    let columns = vec![("we\"ird".to_owned(), "m'/s".to_owned(), UnitSource::Declared)];
    let ddl = column_comment_ddl("my.sch\"ema", &columns, &vec![None]);
    // Identifiers double their quotes; literals double their apostrophes.
    assert_eq!(
        ddl[0],
        "COMMENT ON COLUMN \"my\".\"sch\"\"ema\".\"we\"\"ird\" IS 'unit=m''/s; source=declared';"
    );
}

#[test]
fn another_spelling_names_the_canonical_one() {
    assert_eq!(
        unit_payload("kph", UnitSource::Declared, &info("km/h", "speed", "m/s")),
        "unit=kph; source=declared; canonical=km/h; dimension=speed; base_unit=m/s"
    );
    assert_eq!(unit_payload("", UnitSource::Unknown, &None), "unit=; source=unknown");
}

#[test]
fn quotes_are_doubled() {
    assert_eq!(quote_qualified("t", "c"), "\"t\".\"c\"");
    assert_eq!(quote_qualified("", "\""), "\"\".\"\"\"\"");
    assert_eq!(escape_literal("it's ''"), "it''s ''''");
}

#[test]
fn columns_come_once_under_their_mapped_names() {
    let files = vec![
        file(vec![channel("Speed_Ref", "m/s", Some(10_000_000)), channel("gear", "", None)]),
        file(vec![channel("Speed_Ref", "knots", Some(1)), channel("Gear", "", None)]),
    ];
    let rules = map("speed_ref -> Ground Speed [km/h] *3.6");
    let all = comment_columns(&files, &rules, &parse_channel_filter(None));
    let names: Vec<_> = all.iter().map(|column| column.column.as_str()).collect();
    // Columns of a table are told apart by case.
    assert_eq!(names, vec!["Ground Speed", "gear", "Gear"]);
    assert_eq!(all[0].unit, "km/h");
    assert_eq!(all[0].source, UnitSource::Declared);

    // Either name selects a column.
    for filter in ["SPEED_REF", "ground speed"] {
        let some = comment_columns(&files, &rules, &parse_channel_filter(Some(filter)));
        assert_eq!(some.len(), 1);
        assert_eq!(some[0].column, "Ground Speed");
    }
}

#[test]
fn a_statement_tells_the_unit_and_a_rule() {
    let mut clock = channel("System Time High", "sec", Some(10_000_000));
    clock.unit_source = UnitSource::Declared;
    let files = vec![file(vec![clock, channel("gear", "", None)])];
    let columns = comment_columns(&files, &ChannelMap::default(), &parse_channel_filter(None));
    let time = comment_statement("laps", &columns[0], &info("s", "time", "s"));
    assert_eq!(
        time.kv_metadata,
        "unit=sec; source=declared; canonical=s; dimension=time; base_unit=s"
    );
    assert_eq!(
        time.ddl,
        "COMMENT ON COLUMN \"laps\".\"System Time High\" IS 'unit=sec; source=declared; canonical=s; dimension=time; base_unit=s';"
    );
    assert_eq!(time.channel_map_rule, "System Time High -> System Time High [sec]");
    for (column, text) in [
        "System Time High",
        "sec",
        time.ddl.as_str(),
        time.kv_metadata.as_str(),
        "System Time High -> System Time High [sec]",
    ]
    .into_iter()
    .enumerate()
    {
        assert_eq!(time.cell(column as u64), Cell::Text(text.to_owned()));
    }
    let gear = comment_statement("laps", &columns[1], &None);
    assert_eq!(gear.kv_metadata, "unit=; source=spec_default");
    assert_eq!(
        gear.ddl,
        "COMMENT ON COLUMN \"laps\".\"gear\" IS 'unit=; source=spec_default';"
    );
    assert_eq!(gear.channel_map_rule, "");
    assert_eq!(gear.column, "gear");
    assert_eq!(gear.unit, "");
}

#[test]
fn the_rule_of_a_statement_reproduces_the_column() {
    let files = vec![file(vec![channel("Brake Press F", "bar", Some(1))])];
    let columns = comment_columns(&files, &ChannelMap::default(), &parse_channel_filter(None));
    let statement = comment_statement("t", &columns[0], &None);
    let rules = map(&statement.channel_map_rule);
    assert_eq!(rules.len(), 1);
    let rule = rules.rule_for("brake press f").unwrap();
    assert_eq!(rule.source, "Brake Press F");
    assert_eq!(rule.target.as_deref(), Some("Brake Press F"));
    assert_eq!(rule.unit.as_deref(), Some("bar"));
    assert!(rule.is_identity());
}
