use cmake_get_deps::compiler_depend::{
    chars_of, dependency_list, extract_dependencies2, is_white, DepInfo, ParseError,
};

const EXAMPLE_FILE: &str = r"# CMAKE generated file: DO NOT EDIT!

src/utils/CMakeFiles/utils.dir/utils.c.o: /home/jschwender/Dev/cmake_get_deps/tests/test_cmake_project/src/utils/utils.c \
  /home/jschwender/Dev/cmake_get_deps/tests/test_cmake_project/src/utils/include/test_project/utils/utils.h \
  /usr/include/bits/libc-header-start.h \
  /usr/lib/gcc/x86_64-redhat-linux/13/include/stdint.h

src/utils/CMakeFiles/utils.dir/blah.c.o: blah/blah.h

/usr/lib/gcc/x86_64-redhat-linux/13/include/stdint.h:

";

fn info(object: &str, deps: &[&str]) -> DepInfo {
    DepInfo {
        object: object.to_string(),
        deps: deps.iter().map(|d| d.to_string()).collect(),
    }
}

#[test]
fn extract_dependencies2_test() {
    let depinfo = extract_dependencies2(EXAMPLE_FILE).expect("Failed");
    let expected_utils = info(
        "src/utils/CMakeFiles/utils.dir/utils.c.o",
        &[
            "/home/jschwender/Dev/cmake_get_deps/tests/test_cmake_project/src/utils/utils.c",
            "/home/jschwender/Dev/cmake_get_deps/tests/test_cmake_project/src/utils/include/test_project/utils/utils.h",
            "/usr/include/bits/libc-header-start.h",
            "/usr/lib/gcc/x86_64-redhat-linux/13/include/stdint.h",
        ],
    );
    let expected_blah = info("src/utils/CMakeFiles/utils.dir/blah.c.o", &["blah/blah.h"]);
    let expected_sys = info("/usr/lib/gcc/x86_64-redhat-linux/13/include/stdint.h", &[]);
    let expected = vec![expected_utils, expected_blah, expected_sys];
    assert_eq!(depinfo, expected);
}

#[test]
fn three_rules_with_continuations() {
    let input = "a.o: b.c \\\n  d.h \\\n  e.h\n\nf.o: g.h\n\ng.h:\n\n";
    let records = extract_dependencies2(input).expect("parses");
    assert_eq!(
        records,
        vec![info("a.o", &["b.c", "d.h", "e.h"]), info("f.o", &["g.h"]), info("g.h", &[])]
    );
}

#[test]
fn open_rule_at_end_of_input() {
    assert_eq!(extract_dependencies2("x.o: y.c \\"), Err(ParseError::UnexpectedEOF));
}

#[test]
fn open_rule_at_end_of_input_after_newline() {
    assert_eq!(extract_dependencies2("x.o: y.c \\\n  z.h \\\n"), Err(ParseError::UnexpectedEOF));
}

#[test]
fn line_without_colon() {
    assert_eq!(
        extract_dependencies2("malformed line without colon"),
        Err(ParseError::UnrecognizedLine)
    );
}

#[test]
fn white_space_only_line_is_not_blank() {
    assert_eq!(extract_dependencies2("a.o: b.c\n   \n"), Err(ParseError::UnrecognizedLine));
}

#[test]
fn second_colon_on_rule_line() {
    assert_eq!(extract_dependencies2("a.o: b.c : d.c"), Err(ParseError::UnexpectedColon));
}

#[test]
fn colon_inside_continuation() {
    assert_eq!(
        extract_dependencies2("a.o: b.c \\\n  c:/d.h\n"),
        Err(ParseError::UnexpectedColon)
    );
}

#[test]
fn first_error_wins() {
    assert_eq!(
        extract_dependencies2("junk\na.o: b.c : d.c\n"),
        Err(ParseError::UnrecognizedLine)
    );
}

#[test]
fn empty_and_comment_only_input() {
    assert_eq!(extract_dependencies2(""), Ok(vec![]));
    assert_eq!(extract_dependencies2("\n\n# a: b: c\n#\n"), Ok(vec![]));
}

#[test]
fn crlf_line_endings() {
    let records = extract_dependencies2("a.o: b.c \\\r\n  d.h\r\n\r\ne.o: f.h\r\n").expect("parses");
    assert_eq!(records, vec![info("a.o", &["b.c", "d.h"]), info("e.o", &["f.h"])]);
}

#[test]
fn tokens_are_trimmed_of_unicode_white_space() {
    let records = extract_dependencies2("a.o:\t b.c\u{a0}\\\u{3000}\n\u{2003}d.h \t\n").expect("parses");
    assert_eq!(records, vec![info("a.o", &["b.c", "d.h"])]);
}

#[test]
fn object_is_not_trimmed() {
    let records = extract_dependencies2("a.o :b.c").expect("parses");
    assert_eq!(records, vec![info("a.o ", &["b.c"])]);
}

#[test]
fn empty_continuation_segments_are_dropped() {
    let records = extract_dependencies2("a.o: \\\n   \\\n b.c \\\n\nc.o: d.h\n").expect("parses");
    assert_eq!(records, vec![info("a.o", &["b.c"]), info("c.o", &["d.h"])]);
}

#[test]
fn comment_line_inside_continuation_is_a_dependency() {
    let records = extract_dependencies2("a.o: b.c \\\n# d.h\n").expect("parses");
    assert_eq!(records, vec![info("a.o", &["b.c", "# d.h"])]);
}

#[test]
fn duplicates_and_repeated_objects_are_kept() {
    let records = extract_dependencies2("a.o: b.h \\\n b.h\na.o:\n").expect("parses");
    assert_eq!(records, vec![info("a.o", &["b.h", "b.h"]), info("a.o", &[])]);
}

#[test]
fn non_ascii_paths() {
    let records = extract_dependencies2("gr\u{fc}n.o: \u{e4}/\u{1f600}.h\n").expect("parses");
    assert_eq!(records, vec![info("gr\u{fc}n.o", &["\u{e4}/\u{1f600}.h"])]);
}

#[test]
fn parsing_twice_gives_the_same_result() {
    assert_eq!(extract_dependencies2(EXAMPLE_FILE), extract_dependencies2(EXAMPLE_FILE));
    assert_eq!(extract_dependencies2("a: b : c"), extract_dependencies2("a: b : c"));
}

#[test]
fn emitted_dependencies_are_clean() {
    let records = extract_dependencies2(EXAMPLE_FILE).expect("parses");
    for record in &records {
        for dep in &record.deps {
            assert!(!dep.is_empty());
            assert_eq!(dep.trim(), dep.as_str());
            assert!(!dep.ends_with('\\'));
        }
    }
}

#[test]
fn dependency_list_flattens_in_order() {
    let records = extract_dependencies2(EXAMPLE_FILE).expect("parses");
    let all = dependency_list(&records);
    assert_eq!(
        all,
        vec![
            "/home/jschwender/Dev/cmake_get_deps/tests/test_cmake_project/src/utils/utils.c",
            "/home/jschwender/Dev/cmake_get_deps/tests/test_cmake_project/src/utils/include/test_project/utils/utils.h",
            "/usr/include/bits/libc-header-start.h",
            "/usr/lib/gcc/x86_64-redhat-linux/13/include/stdint.h",
            "blah/blah.h",
        ]
    );
    assert_eq!(dependency_list(&vec![]), Vec::<String>::new());
}

#[test]
fn error_messages() {
    assert_eq!(ParseError::UnexpectedEOF.message(), "Unexpected EOF while parsing file");
    assert_eq!(ParseError::UnrecognizedLine.message(), "Line did not match expected pattern");
    assert_eq!(
        ParseError::UnexpectedColon.message(),
        "Unexpectedly encountered a colon. Filenames may not contain colons."
    );
}

#[test]
fn white_space_class() {
    for c in [' ', '\t', '\n', '\r', '\u{0b}', '\u{0c}', '\u{85}', '\u{a0}', '\u{1680}', '\u{2000}', '\u{200a}', '\u{2028}', '\u{2029}', '\u{202f}', '\u{205f}', '\u{3000}'] {
        assert!(is_white(c), "{c:?}");
        assert!(c.is_whitespace());
    }
    for c in ['a', '\\', ':', '#', '\u{200b}', '\u{180e}', '\u{feff}', '\0'] {
        assert!(!is_white(c), "{c:?}");
        assert!(!c.is_whitespace());
    }
}

#[test]
fn chars_of_keeps_every_character() {
    assert_eq!(chars_of("a\u{e9}\u{1f600}\n"), vec!['a', '\u{e9}', '\u{1f600}', '\n']);
    assert_eq!(chars_of(""), Vec::<char>::new());
}

#[test]
fn unrecognized_line_after_good_rules() {
    assert_eq!(
        extract_dependencies2("a.o: b.c\n\njunk\nc.o: d.h : e.h\n"),
        Err(ParseError::UnrecognizedLine)
    );
}

#[test]
fn second_colon_after_good_rules() {
    assert_eq!(
        extract_dependencies2("a.o: b.c \\\n d.h\nc.o: d.h : e.h\njunk\n"),
        Err(ParseError::UnexpectedColon)
    );
}

#[test]
fn continued_rule_at_end_after_good_rules() {
    assert_eq!(
        extract_dependencies2("a.o: b.c\nc.o: d.h \\\n  e.h \\\n  f.h \\\n"),
        Err(ParseError::UnexpectedEOF)
    );
}

#[test]
fn blank_line_closes_a_continued_rule() {
    let records = extract_dependencies2("x.o: y.c \\\n\n").expect("parses");
    assert_eq!(records, vec![info("x.o", &["y.c"])]);
}

#[test]
fn backslash_before_the_marker_stays_in_the_dependency() {
    let records = extract_dependencies2("a.o: x \\ \\\n y\n").expect("parses");
    assert_eq!(records, vec![info("a.o", &["x \\", "y"])]);
}
