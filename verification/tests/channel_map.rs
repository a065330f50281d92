use motorsport_telemetry::channel_map::{
    map_argument, number_fields, unreadable_map, ChannelMap, ChannelRule, MapArgument,
};
use motorsport_telemetry::number::{is_finite, is_zero, Affine, NEGATIVE_ZERO, ONE, ZERO};
use motorsport_telemetry::source::UnitSource;

fn readings(text: &str) -> Vec<Option<u64>> {
    number_fields(text)
        .iter()
        .map(|number| number.parse::<f64>().ok().map(f64::to_bits))
        .collect()
}

fn parse(text: &str) -> Result<ChannelMap, String> {
    ChannelMap::parse(text, &readings(text))
}

fn scale(rule: &ChannelRule) -> f64 {
    f64::from_bits(rule.scale)
}

fn offset(rule: &ChannelRule) -> f64 {
    f64::from_bits(rule.offset)
}

fn convert(rule: &ChannelRule, value: f64) -> f64 {
    if rule.is_identity() {
        value
    } else {
        value * scale(rule) + offset(rule)
    }
}

#[test]
fn parses_a_full_rule() {
    let map = parse("Speed_Ref -> Ground Speed [km/h] *3.6").unwrap();
    let rule = map.rule_for("speed_ref").expect("rule");
    assert_eq!(rule.target.as_deref(), Some("Ground Speed"));
    assert_eq!(rule.unit.as_deref(), Some("km/h"));
    assert_eq!(scale(rule), 3.6);
    assert_eq!(offset(rule), 0.0);
}

#[test]
fn converts_the_real_world_cases_correctly() {
    let map = parse(
        "
            Speed_Ref    -> Ground Speed  [km/h] *3.6
            STEER        -> Steered Angle [deg]  *57.29577951308232
            P_F_BRAKE    -> Brake Press   [bar]  *0.00001
            I_ACCEL_LONG -> G Force Long  [g]    *0.10197162129779283
            ACT          -> Air Temp      [C]    +-273.15
            X_FL_DAMPER  -> Damper FL     [mm]   *1000
            ",
    )
    .unwrap();

    // 74.75 m/s is the observed top speed: 269.1 km/h.
    let speed = map.rule_for("Speed_Ref").unwrap();
    assert!((convert(speed, 74.75) - 269.1).abs() < 1e-9);

    // -2.5831 rad is the observed steering extreme: about -148 deg.
    let steer = map.rule_for("STEER").unwrap();
    assert!((convert(steer, -2.5831) + 148.0).abs() < 0.1);

    // 7_515_500 Pa is the observed peak brake pressure: 75.155 bar.
    let brake = map.rule_for("P_F_BRAKE").unwrap();
    assert!((convert(brake, 7_515_500.0) - 75.155).abs() < 1e-6);

    // -29.8122 m/s^2 is the observed peak braking: about -3.04 g.
    let accel = map.rule_for("I_ACCEL_LONG").unwrap();
    assert!((convert(accel, -29.8122) + 3.04).abs() < 0.01);

    // 300 K is 26.85 C.
    let temp = map.rule_for("ACT").unwrap();
    assert!((convert(temp, 300.0) - 26.85).abs() < 1e-9);

    // 0.0182 m is 18.2 mm.
    let damper = map.rule_for("X_FL_DAMPER").unwrap();
    assert!((convert(damper, 0.0182) - 18.2).abs() < 1e-9);
}

#[test]
fn handles_offset_only_rules() {
    // gear_pos reads 2..7 for the same gears `gear` reports as 1..6.
    let map = parse("gear_pos -> Gear +-1").unwrap();
    let rule = map.rule_for("gear_pos").unwrap();
    assert_eq!(convert(rule, 2.0), 1.0);
    assert_eq!(convert(rule, 7.0), 6.0);
    assert_eq!(rule.unit, None);
}

#[test]
fn rename_only_and_unit_only_rules_are_identity() {
    let map = parse(
        "
            uSpeed -> Vehicle Speed
            TPS    -> [%]
            ",
    )
    .unwrap();
    let rename = map.rule_for("uSpeed").unwrap();
    assert!(rename.is_identity());
    assert_eq!(convert(rename, 12.5), 12.5);

    let relabel = map.rule_for("TPS").unwrap();
    assert!(relabel.is_identity());
    assert_eq!(relabel.unit.as_deref(), Some("%"));
    assert_eq!(relabel.target, None);
}

#[test]
fn comments_and_blank_lines_are_ignored() {
    let map = parse(
        "
            # leading comment

            STEER -> Angle [deg] *57.29578  # trailing comment
            ",
    )
    .unwrap();
    assert_eq!(map.len(), 1);
    assert_eq!(map.rule_for("steer").unwrap().unit.as_deref(), Some("deg"));
}

#[test]
fn matching_is_case_insensitive() {
    let map = parse("speed_ref -> Speed [km/h] *3.6").unwrap();
    assert!(map.rule_for("SPEED_REF").is_some());
    assert!(map.rule_for("Speed_Ref").is_some());
}

#[test]
fn mapped_units_are_reported_as_declared() {
    let map = parse("STEER -> Angle [deg] *57.29578").unwrap();
    let (unit, source) = map.unit_for("STEER", "rad", UnitSource::SpecDefault);
    assert_eq!(unit, "deg");
    assert_eq!(source, UnitSource::Declared);
}

#[test]
fn unmapped_channels_keep_their_unit_and_provenance() {
    let map = parse("STEER -> Angle [deg] *57.29578").unwrap();
    let (unit, source) = map.unit_for("Speed_Ref", "m/s", UnitSource::SpecDefault);
    assert_eq!(unit, "m/s");
    assert_eq!(source, UnitSource::SpecDefault);
    assert_eq!(map.name_for("Speed_Ref"), "Speed_Ref");
}

#[test]
fn rejects_malformed_rules_instead_of_skipping_them() {
    // A silently dropped rule means silently unconverted data.
    assert!(parse("STEER -> Angle [deg] *notanumber").is_err());
    assert!(parse("STEER -> Angle [deg *2").is_err());
    assert!(parse("-> Angle").is_err());
    assert!(parse("STEER -> Angle *0").is_err());
    // Duplicates are ambiguous, so they are an error too.
    assert!(parse("A -> B\nA -> C").is_err());
}

#[test]
fn validate_catches_typos_in_channel_names() {
    let map = parse("Speed_Reff -> Speed [km/h] *3.6").unwrap();
    let available = vec!["Speed_Ref".to_owned(), "STEER".to_owned()];
    let error = map.validate(&available).expect_err("typo must be caught");
    assert!(error.contains("Speed_Reff"));

    let good = parse("Speed_Ref -> Speed [km/h] *3.6").unwrap();
    assert!(good.validate(&available).is_ok());
}

#[test]
fn every_mistake_has_its_message() {
    let message = |text: &str| parse(text).expect_err("a mistake");
    assert_eq!(message("-> Angle"), "channel_map line 1: missing source channel name");
    assert_eq!(
        message("A -> B\n\nS -> T [deg *2"),
        "channel_map line 3: unterminated '[' in unit field"
    );
    assert_eq!(message("S -> T *3,6"), "channel_map line 1: invalid scale '3,6'");
    assert_eq!(message("S -> T +x"), "channel_map line 1: invalid offset 'x'");
    assert_eq!(message("S -> T *inf"), "channel_map line 1: scale and offset must be finite");
    assert_eq!(message("S -> T +nan"), "channel_map line 1: scale and offset must be finite");
    assert_eq!(
        message("S -> T *-0"),
        "channel_map line 1: scale of 0 would discard the channel's data"
    );
    assert_eq!(message("a -> B\nA -> C"), "channel_map line 2: duplicate rule for 'A'");
}

#[test]
fn the_last_number_of_a_kind_counts() {
    let map = parse("S -> T *2 [u] *3 +1 more +2").unwrap();
    let rule = map.rule_for("S").unwrap();
    assert_eq!(scale(rule), 3.0);
    assert_eq!(offset(rule), 2.0);
    assert_eq!(rule.target.as_deref(), Some("T more"));
    assert_eq!(rule.unit.as_deref(), Some("u"));
}

#[test]
fn a_rule_may_be_a_bare_source() {
    let map = parse("  Speed Ref \r\n").unwrap();
    let rule = map.rule_for("speed ref").unwrap();
    assert_eq!(rule.source, "Speed Ref");
    assert_eq!(rule.target, None);
    assert_eq!(rule.unit, None);
    assert!(rule.is_identity());
    assert_eq!(map.conversion_for("speed ref"), None);
}

#[test]
fn numbers_come_in_the_order_of_the_text() {
    assert_eq!(
        number_fields("A -> B *1.5 +2\n# *9\n[x\n-> *7\nC -> +3 # +4"),
        vec!["1.5", "2", "3"]
    );
    assert!(number_fields("").is_empty());
}

#[test]
fn every_line_that_is_not_blank_makes_a_rule() {
    let map = parse("A -> B\n\n  # nothing\nC\nD -> [m]").unwrap();
    assert_eq!(map.len(), 3);
    assert!(!map.is_empty());
    let sources: Vec<_> = map.rules.iter().map(|rule| rule.source.as_str()).collect();
    assert_eq!(sources, vec!["A", "C", "D"]);
    assert!(ChannelMap::default().is_empty());
}

#[test]
fn missing_sources_are_listed_in_order() {
    let map = parse("b -> X\nHave -> Y\na -> Z\nÄ -> W\nB2 -> V").unwrap();
    let available = vec!["HAVE".to_owned()];
    assert_eq!(
        map.validate(&available).expect_err("missing"),
        "channel_map references channel(s) not present in the data: B2, a, b, Ä"
    );
}

#[test]
fn conversions_are_those_of_the_rules() {
    let map = parse("S -> T *2 +1\nU -> V").unwrap();
    assert_eq!(
        map.conversion_for("s"),
        Some(Affine { scale: 2.0f64.to_bits(), offset: 1.0f64.to_bits() })
    );
    assert_eq!(map.conversion_for("U"), None);
    assert_eq!(map.conversion_for("W"), None);
    assert_eq!(map.name_for("u"), "V");
}

#[test]
fn an_argument_with_an_arrow_is_never_a_path() {
    assert!(matches!(map_argument(None), MapArgument::Nothing));
    assert!(matches!(map_argument(Some(" \n ")), MapArgument::Nothing));
    assert!(matches!(map_argument(Some(" a -> b ")), MapArgument::Rules(text) if text == "a -> b"));
    assert!(
        matches!(map_argument(Some(" maps/a.map\n")), MapArgument::FileOrRules(text) if text == "maps/a.map")
    );
    assert_eq!(
        unreadable_map("maps/a.map", "denied"),
        "cannot read channel_map file 'maps/a.map': denied"
    );
}

#[test]
fn bit_patterns_are_told_apart() {
    assert_eq!(ONE, 1.0f64.to_bits());
    assert_eq!(ZERO, 0.0f64.to_bits());
    assert_eq!(NEGATIVE_ZERO, (-0.0f64).to_bits());
    for value in [0.0, -0.0, 1.0, f64::MIN_POSITIVE, f64::MAX, f64::NAN, f64::INFINITY, -2.5] {
        assert_eq!(is_finite(value.to_bits()), value.is_finite());
        assert_eq!(is_zero(value.to_bits()), value == 0.0);
        let conversion = Affine { scale: value.to_bits(), offset: ZERO };
        assert_eq!(conversion.is_identity(), value == 1.0);
        let conversion = Affine { scale: ONE, offset: value.to_bits() };
        assert_eq!(conversion.is_identity(), value == 0.0);
    }
}
