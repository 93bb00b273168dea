use std::collections::HashMap;

use rs_release::{
    canonical_key, extract_variable_and_value, parse_os_release_lines, parse_os_release_str,
    trim_quotes, LineParser, OsReleaseError, SourceLine,
};

#[test]
fn parses_from_str() {
    let data = r"

        # comment

        QUOTED_NAME = 'Fedora 24 (Workstation Edition)'

    PRETTY_NAME     =   Fedora 24 (Workstation Edition)

CPE_NAME=        cpe:/o:fedoraproject:fedora:24   ";
    let os_release: Result<HashMap<_, _>, _> = parse_os_release_str(data).into_iter().collect();
    assert!(os_release.is_ok());
    let os_release = os_release.unwrap();
    assert_eq!(3, os_release.len());
    assert_eq!("Fedora 24 (Workstation Edition)", os_release["PRETTY_NAME"]);
    assert_eq!("Fedora 24 (Workstation Edition)", os_release["QUOTED_NAME"]);
    assert_eq!("cpe:/o:fedoraproject:fedora:24", os_release["CPE_NAME"]);

    let os_release_malformed: Result<HashMap<_, _>, _> =
        parse_os_release_str("SOMETHING").into_iter().collect();
    assert_eq!(Some(OsReleaseError::ParseError), os_release_malformed.err());

    let os_release_empty: Result<HashMap<_, _>, _> =
        parse_os_release_str("").into_iter().collect();
    assert!(os_release_empty.is_ok());
    let os_release_empty = os_release_empty.unwrap();
    assert_eq!(0, os_release_empty.len());
}

#[test]
fn parses_one_entry() {
    let results = parse_os_release_str("NAME=Fedora");
    assert_eq!(1, results.len());
    assert_eq!(
        Ok(("NAME".to_string(), "Fedora".to_string())),
        results[0]
    );
}

#[test]
fn trims_whitespace_and_quotes() {
    let results = parse_os_release_str("KEY = 'some value'");
    assert_eq!(1, results.len());
    assert_eq!(Ok(("KEY".to_string(), "some value".to_string())), results[0]);

    let results = parse_os_release_str("PRETTY_NAME=\"Fedora 24 (Workstation Edition)\"");
    assert_eq!(
        Ok((
            "PRETTY_NAME".to_string(),
            "Fedora 24 (Workstation Edition)".to_string()
        )),
        results[0]
    );
}

#[test]
fn ignores_comments_and_blank_lines() {
    let results = parse_os_release_str("# comment\n\n   \n   # indented comment");
    assert_eq!(0, results.len());
}

#[test]
fn malformed_line_does_not_abort() {
    let results = parse_os_release_str("SOMETHING\nNAME=Fedora");
    assert_eq!(2, results.len());
    assert_eq!(Err(OsReleaseError::ParseError), results[0]);
    assert_eq!(Ok(("NAME".to_string(), "Fedora".to_string())), results[1]);
}

#[test]
fn keeps_three_entries_in_input_order() {
    let data = "# header\n\nA=1\n   # note\nB=2\n\nC=3\n";
    let results = parse_os_release_str(data);
    assert_eq!(3, results.len());
    assert_eq!(Ok(("A".to_string(), "1".to_string())), results[0]);
    assert_eq!(Ok(("B".to_string(), "2".to_string())), results[1]);
    assert_eq!(Ok(("C".to_string(), "3".to_string())), results[2]);
}

#[test]
fn reparsing_is_idempotent() {
    let data = "NAME=Fedora\nBAD LINE\n# comment\nID = 'fedora'";
    let first = parse_os_release_str(data);
    let second = parse_os_release_str(data);
    assert_eq!(first, second);
}

#[test]
fn canonical_keys_are_content_only() {
    let results = parse_os_release_str("NAME=Fedora");
    let (key, _) = results[0].clone().unwrap();
    assert_eq!(String::from("NAME"), key);

    assert_eq!("VERSION_ID".to_string(), canonical_key("VERSION_ID"));
    assert_eq!("UNKNOWN_KEY".to_string(), canonical_key("UNKNOWN_KEY"));
}

#[test]
fn read_failures_surface_as_io_errors() {
    let lines = vec![
        SourceLine::Text("# comment".to_string()),
        SourceLine::ReadFailure,
        SourceLine::Text("A=b".to_string()),
    ];
    let results = parse_os_release_lines(lines);
    assert_eq!(2, results.len());
    assert_eq!(Err(OsReleaseError::Io), results[0]);
    assert_eq!(Ok(("A".to_string(), "b".to_string())), results[1]);
}

#[test]
fn extracts_variable_and_value() {
    assert_eq!(
        Ok(("VERSION".to_string(), "24".to_string())),
        extract_variable_and_value("  VERSION  =  24  ")
    );
    assert_eq!(
        Ok(("".to_string(), "v".to_string())),
        extract_variable_and_value("=v")
    );
    assert_eq!(
        Ok(("K".to_string(), "".to_string())),
        extract_variable_and_value("K=")
    );
    assert_eq!(
        Err(OsReleaseError::ParseError),
        extract_variable_and_value("no separator here")
    );
}

#[test]
fn unmatched_quotes_are_left_untouched() {
    assert_eq!("\"unterminated", trim_quotes("\"unterminated"));
    assert_eq!("\"", trim_quotes("\""));
    assert_eq!("\"mixed'", trim_quotes("\"mixed'"));
    assert_eq!("plain", trim_quotes("plain"));
    assert_eq!("quoted", trim_quotes("\"quoted\""));
    assert_eq!("quoted", trim_quotes("'quoted'"));
    assert_eq!("", trim_quotes("\"\""));

    assert_eq!(
        Ok(("KEY".to_string(), "\"unterminated".to_string())),
        extract_variable_and_value("KEY=\"unterminated")
    );
}

#[test]
fn splits_on_crlf_line_endings() {
    let results = parse_os_release_str("A=1\r\nB=2\r\n");
    assert_eq!(2, results.len());
    assert_eq!(Ok(("A".to_string(), "1".to_string())), results[0]);
    assert_eq!(Ok(("B".to_string(), "2".to_string())), results[1]);
}

#[test]
fn repeated_keys_all_appear_in_order() {
    let results = parse_os_release_str("ID=first\nID=second");
    assert_eq!(2, results.len());
    assert_eq!(Ok(("ID".to_string(), "first".to_string())), results[0]);
    assert_eq!(Ok(("ID".to_string(), "second".to_string())), results[1]);

    // Folding into a map is the caller's choice; the natural idiom keeps the
    // last value.
    let map: Result<HashMap<_, _>, _> =
        parse_os_release_str("ID=first\nID=second").into_iter().collect();
    assert_eq!("second", map.unwrap()["ID"]);
}

#[test]
fn pulls_one_result_at_a_time() {
    let lines = vec![
        SourceLine::Text("# header".to_string()),
        SourceLine::Text("NAME=Fedora".to_string()),
        SourceLine::Text("BAD LINE".to_string()),
        SourceLine::Text("ID=fedora".to_string()),
    ];
    let mut parser = LineParser::new(lines);
    assert_eq!(
        Some(Ok(("NAME".to_string(), "Fedora".to_string()))),
        parser.next()
    );
    assert_eq!(Some(Err(OsReleaseError::ParseError)), parser.next());
    // A caller may stop consuming here; draining instead shows the rest.
    assert_eq!(
        Some(Ok(("ID".to_string(), "fedora".to_string()))),
        parser.next()
    );
    assert_eq!(None, parser.next());
    assert_eq!(None, parser.next());
}

#[test]
fn value_may_contain_further_separators() {
    let results = parse_os_release_str("HOME_URL=https://example.org/?a=b");
    assert_eq!(
        Ok(("HOME_URL".to_string(), "https://example.org/?a=b".to_string())),
        results[0]
    );
}
