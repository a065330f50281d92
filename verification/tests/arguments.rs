use motorsport_telemetry::params::{
    choose_timestamp, named_string_list, named_string_rows, named_timestamp, ListArgument,
    RowsArgument,
};
use motorsport_telemetry::paths::{
    check_complete, check_create_dates, check_file_size, check_opened, expand_paths,
    expand_pattern, format_of_extension, has_magic, is_wild_pattern, metadata_format,
    nothing_matched, opened_format, read_on, select_paths, system_time_micros, Format, FoundPath,
    Step, LARGEST_FILE,
};
use motorsport_telemetry::text::{
    comes_no_later, contains_text, decimal_text, join_all, replace_char, same_ignoring_case,
    signed_decimal_text, sorted_list, split_on, split_words, to_lower, trimmed,
};

// ── timestamps ──────────────────────────────────────────────────────

#[test]
fn timestamps_come_in_three_notations() {
    let read = |text: &str| named_timestamp("create_date_from", Some(text));
    assert_eq!(read("1970-01-02T00:00:00Z"), Ok(Some(86_400_000_000)));
    assert_eq!(read("1970-01-01T01:00:00.5+01:00"), Ok(Some(500_000)));
    assert_eq!(read("1970-01-01 00:00:01.000002"), Ok(Some(1_000_002)));
    assert_eq!(read("2026-07-01 00:00:00"), Ok(Some(1_782_864_000_000_000)));
    assert_eq!(read("2026-07-01"), Ok(Some(1_782_864_000_000_000)));
    assert_eq!(read("1969-12-31"), Ok(Some(-86_400_000_000)));
    assert_eq!(
        read("yesterday"),
        Err("invalid create_date_from timestamp: yesterday".to_owned())
    );
    assert_eq!(named_timestamp("create_date_to", None), Ok(None));
}

#[test]
fn the_first_notation_that_fits_counts() {
    assert_eq!(choose_timestamp("n", "t", Some(1), Some(2), Some(3)), Ok(1));
    assert_eq!(choose_timestamp("n", "t", None, Some(2), Some(3)), Ok(2));
    assert_eq!(choose_timestamp("n", "t", None, None, Some(3)), Ok(3));
    assert_eq!(
        choose_timestamp("n", "t", None, None, None),
        Err("invalid n timestamp: t".to_owned())
    );
}

// ── lists ───────────────────────────────────────────────────────────

fn row(cells: &[&str]) -> Vec<String> {
    cells.iter().map(|cell| (*cell).to_owned()).collect()
}

#[test]
fn lists_are_lists() {
    assert_eq!(named_string_list("exclude", ListArgument::Absent), Ok(vec![]));
    assert_eq!(
        named_string_list("exclude", ListArgument::Items(row(&["a"]))),
        Ok(row(&["a"]))
    );
    assert_eq!(
        named_string_list("exclude", ListArgument::NotAList),
        Err("exclude must be a list of strings".to_owned())
    );
}

#[test]
fn rows_have_their_width() {
    let read = |rows| named_string_rows("sums", 2, &rows);
    assert_eq!(read(RowsArgument::Absent), Ok(vec![]));
    assert_eq!(read(RowsArgument::NotAList), Err("sums must be a list of lists".to_owned()));
    assert_eq!(
        read(RowsArgument::Rows(vec![Some(row(&["a", "b"])), Some(row(&["c", "d"]))])),
        Ok(vec![row(&["a", "b"]), row(&["c", "d"])])
    );
    assert_eq!(
        read(RowsArgument::Rows(vec![Some(row(&["a", "b"])), Some(row(&["c"])), None])),
        Err("sums row 2 must contain 2 strings, got 1".to_owned())
    );
    assert_eq!(
        read(RowsArgument::Rows(vec![None, Some(row(&["c"]))])),
        Err("sums row 1 must be a list".to_owned())
    );
}

// ── paths ───────────────────────────────────────────────────────────

#[test]
fn braces_stand_for_extensions() {
    assert_eq!(expand_pattern("runs/a.pds"), vec!["runs/a.pds"]);
    assert_eq!(
        expand_pattern("é/*.{pds,ld,vbo,mp4}x"),
        vec!["é/*.pdsx", "é/*.ldx", "é/*.vbox", "é/*.mp4x"]
    );
    assert_eq!(expand_pattern("*.{pds,ld,vbo}"), vec!["*.pds", "*.ld", "*.vbo"]);
    assert_eq!(expand_pattern("*.{vbo,ld}"), vec!["*.{vbo,ld}"]);
}

#[test]
fn patterns_and_paths() {
    for (pattern, wild, magic) in [
        ("a.pds", false, false),
        ("*.pds", true, true),
        ("a?.pds", true, true),
        ("a[0].pds", true, true),
        ("a.{pds,ld,vbo}", false, true),
        ("", false, false),
    ] {
        assert_eq!(is_wild_pattern(pattern), wild, "{pattern}");
        assert_eq!(has_magic(pattern), magic, "{pattern}");
    }
    assert_eq!(nothing_matched("*"), "no telemetry files matched *");
    assert_eq!(
        check_opened("*", 0),
        Err("no telemetry files remained after format/date pruning for *".to_owned())
    );
    assert_eq!(check_opened("*", 1), Ok(()));
}

#[test]
fn extensions_stand_for_formats() {
    assert_eq!(format_of_extension(Some("PDS")), Some(Format::Pds));
    assert_eq!(format_of_extension(Some("ld")), Some(Format::Motec));
    assert_eq!(format_of_extension(Some("vbo")), Some(Format::Vbo));
    assert_eq!(format_of_extension(Some("Mp4")), Some(Format::Aimd));
    assert_eq!(format_of_extension(Some("csv")), None);
    assert_eq!(format_of_extension(None), None);
    let names = [Format::Pds, Format::Motec, Format::Vbo, Format::Aimd].map(Format::name);
    assert_eq!(names, ["pds", "motec", "vbo", "aimd"]);
    assert_eq!(metadata_format(Some("VBO")), Ok(Format::Vbo));
    assert_eq!(
        metadata_format(Some("CSV")),
        Err("unsupported telemetry extension csv".to_owned())
    );
    assert_eq!(metadata_format(None), Err("unsupported telemetry extension ".to_owned()));
}

#[test]
fn files_are_pruned_by_format_and_date() {
    let open = |extension, required, created| {
        opened_format(Some(extension), required, created, Some(10), Some(20))
    };
    assert_eq!(open("pds", None, 10), Some(Format::Pds));
    assert_eq!(open("pds", Some(Format::Pds), 19), Some(Format::Pds));
    assert_eq!(open("pds", Some(Format::Vbo), 15), None);
    assert_eq!(open("pds", None, 9), None);
    assert_eq!(open("pds", None, 20), None);
    assert_eq!(open("txt", None, 15), None);
    assert_eq!(opened_format(Some("ld"), None, i64::MIN, None, None), Some(Format::Motec));
    assert_eq!(check_create_dates(Some(1), Some(1)), Ok(()));
    assert_eq!(check_create_dates(Some(1), None), Ok(()));
    assert_eq!(
        check_create_dates(Some(2), Some(1)),
        Err("create_date_to must be greater than or equal to create_date_from".to_owned())
    );
}

#[test]
fn times_are_cut_off() {
    assert_eq!(system_time_micros(None), 0);
    assert_eq!(system_time_micros(Some(5)), 5);
    assert_eq!(system_time_micros(Some(1 << 63)), i64::MAX);
}

/// A path of plain names.
fn found(path: &str) -> FoundPath {
    FoundPath {
        steps: path
            .split('/')
            .map(|name| Step { rank: 4, name: name.as_bytes().to_vec() })
            .collect(),
        extension: path.rsplit_once('.').map(|(_, extension)| extension.to_owned()),
    }
}

#[test]
fn found_paths_are_selected_in_order_and_once() {
    let paths: Vec<_> =
        ["b.ld", "a-b.pds", "a/b.pds", "notes.txt", "b.ld", "a", "B.MP4"].map(found).into();
    // A directory comes before the names that go on from it, and capitals before small letters.
    assert_eq!(expand_paths("*", &paths), Ok(vec![6, 2, 1, 0]));
    assert_eq!(select_paths(&paths, false), vec![6, 5, 2, 1, 0, 3]);
    // A path that stands for itself is not looked at.
    assert_eq!(expand_paths("notes.txt", &vec![found("notes.txt")]), Ok(vec![0]));
    assert_eq!(
        expand_paths("*.txt", &vec![found("notes.txt")]),
        Err("no telemetry files matched *.txt".to_owned())
    );
    assert_eq!(
        expand_paths("{x}", &vec![]),
        Err("no telemetry files matched {x}".to_owned())
    );
    // The root comes before names, whatever these are.
    let root = FoundPath { steps: vec![Step { rank: 1, name: vec![] }], extension: None };
    assert_eq!(select_paths(&vec![found("a"), root], false), vec![1, 0]);
}

#[test]
fn files_are_read_to_their_end() {
    assert_eq!(check_file_size("a", 0), Ok(0));
    assert_eq!(check_file_size("a", LARGEST_FILE), Ok(4_294_967_296));
    assert_eq!(
        check_file_size("a", LARGEST_FILE + 1),
        Err("invalid or excessive telemetry file size for a: 4294967297".to_owned())
    );
    assert_eq!(
        check_file_size("a", -1),
        Err("invalid or excessive telemetry file size for a: -1".to_owned())
    );
    assert_eq!(read_on(3, 4), Some(7));
    assert_eq!(read_on(3, 0), None);
    assert_eq!(read_on(3, -1), None);
    assert_eq!(read_on(usize::MAX, 1), Some(usize::MAX));
    assert_eq!(check_complete("a", 5, 5), Ok(()));
    assert_eq!(
        check_complete("a", 4, 5),
        Err("short read for a: 4 of 5 bytes".to_owned())
    );
}

// ── text ────────────────────────────────────────────────────────────

#[test]
fn text_functions_do_what_the_standard_library_does() {
    let samples = [
        "", " ", "a", " a b ", "Ab\u{a0}C", "\tÄÖ\u{2003}x\r\n", "a,b,,c,", ",", "x\u{feff}y", "ZZ-->Z",
    ];
    for s in samples {
        assert_eq!(to_lower(s), s.to_ascii_lowercase());
        assert_eq!(trimmed(s), s.trim());
        assert_eq!(split_on(s, ','), s.split(',').collect::<Vec<_>>());
        assert_eq!(split_words(s), s.split_whitespace().collect::<Vec<_>>());
        assert_eq!(replace_char(s, 'b', "<>"), s.replace('b', "<>"));
        for t in samples {
            assert_eq!(same_ignoring_case(s, t), s.eq_ignore_ascii_case(t));
            assert_eq!(contains_text(s, t), s.contains(t));
            assert_eq!(comes_no_later(s, t), s <= t);
        }
    }
    let mut list: Vec<String> = samples.iter().map(|s| (*s).to_owned()).collect();
    let sorted = sorted_list(&list);
    assert_eq!(join_all(&list, "; "), list.join("; "));
    list.sort();
    assert_eq!(sorted, list);
    for n in [0, 9, 10, 1005, u64::MAX] {
        assert_eq!(decimal_text(n), n.to_string());
    }
    for n in [0, -1, 42, i64::MIN, i64::MAX] {
        assert_eq!(signed_decimal_text(n), n.to_string());
    }
}
