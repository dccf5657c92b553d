use termfreq::add;
use termfreq::ingest::{assemble_entries, index_entry_headers, should_report_progress};
use termfreq::parse::{make_url, normalize_title, parse_rfc, parse_rfc_index, ParseError};

#[test]
fn it_works() {
    let result = add(2, 2);
    assert_eq!(result, 4);
}

#[test]
fn test_parse_index() {
    let index_contents = "Front matter that the parser skips.\n\n0001 Host Software. S. Crocker. April 1969. (Format: TXT, HTML) (Status:\n     UNKNOWN) (DOI: 10.17487/RFC0001) \n\n0002 Host software. B. Duvall. April 1969. (Format: TXT, PDF, HTML)\n     (Status: UNKNOWN) (DOI: 10.17487/RFC0002) \n\n";
    let parsed = parse_rfc_index(index_contents).unwrap();
    assert_eq!(parsed, vec!["0001 Host Software. S. Crocker. April 1969. (Format: TXT, HTML) (Status:\n     UNKNOWN) (DOI: 10.17487/RFC0001) ", "0002 Host software. B. Duvall. April 1969. (Format: TXT, PDF, HTML)\n     (Status: UNKNOWN) (DOI: 10.17487/RFC0002) ", ""]);
}

#[test]
fn two_entry_scenario() {
    let text = "0001 Host Software. S. Crocker.\n\n0002 Host software. B. Duvall.\n\n";
    let blocks = parse_rfc_index(text).unwrap();
    assert_eq!(
        blocks,
        vec![
            "0001 Host Software. S. Crocker.",
            "0002 Host software. B. Duvall.",
            ""
        ]
    );
    let (n1, t1) = parse_rfc(&blocks[0]).unwrap();
    let (n2, t2) = parse_rfc(&blocks[1]).unwrap();
    assert_eq!(n1, 1);
    assert_eq!(t1, "Host Software. S. Crocker.");
    assert_eq!(n2, 2);
    assert_eq!(t2, "Host software. B. Duvall.");
    assert_eq!(parse_rfc(&blocks[2]), Err(ParseError::MalformedEntry));
}

#[test]
fn missing_marker_fails() {
    let text = "No entries here, only prose.\n\nStill no marker.\n";
    assert_eq!(parse_rfc_index(text), Err(ParseError::IndexMarkerNotFound));
    assert!(index_entry_headers(text).is_err());
    assert_eq!(
        index_entry_headers(text).unwrap_err(),
        ParseError::IndexMarkerNotFound
    );
}

#[test]
fn marker_mid_document() {
    let text = "preamble 0001 A.\n\n0002 B.";
    let blocks = parse_rfc_index(text).unwrap();
    assert_eq!(blocks, vec!["0001 A.", "0002 B."]);
}

#[test]
fn entry_without_space_is_malformed() {
    assert_eq!(parse_rfc("0001"), Err(ParseError::MalformedEntry));
    assert_eq!(parse_rfc(""), Err(ParseError::MalformedEntry));
}

#[test]
fn entry_with_nonnumeric_id_is_malformed() {
    assert_eq!(parse_rfc("abc Title"), Err(ParseError::MalformedEntry));
    assert_eq!(parse_rfc(" Title"), Err(ParseError::MalformedEntry));
    assert_eq!(parse_rfc("12a Title"), Err(ParseError::MalformedEntry));
    assert_eq!(parse_rfc("-3 Title"), Err(ParseError::MalformedEntry));
}

#[test]
fn entry_with_huge_id_is_malformed() {
    assert_eq!(
        parse_rfc("99999999999 Title"),
        Err(ParseError::MalformedEntry)
    );
    assert_eq!(parse_rfc("2147483647 Title").unwrap().0, 2147483647);
}

#[test]
fn entry_id_with_leading_zeros() {
    let (n, t) = parse_rfc("0042 The Answer.").unwrap();
    assert_eq!(n, 42);
    assert_eq!(t, "The Answer.");
}

#[test]
fn normalize_replaces_every_marker() {
    assert_eq!(normalize_title("A\n     B\n     C"), "A B C");
    assert_eq!(
        normalize_title("Host Software. S. Crocker. (Status:\n     UNKNOWN)"),
        "Host Software. S. Crocker. (Status: UNKNOWN)"
    );
}

#[test]
fn normalize_without_marker_is_identity() {
    assert_eq!(normalize_title(""), "");
    assert_eq!(normalize_title("plain title"), "plain title");
    // A newline with only four spaces is not the continuation marker.
    assert_eq!(normalize_title("a\n    b"), "a\n    b");
}

#[test]
fn url_from_identifier() {
    assert_eq!(make_url(1), "https://www.rfc-editor.org/rfc/rfc1.txt");
    assert_eq!(make_url(0), "https://www.rfc-editor.org/rfc/rfc0.txt");
    assert_eq!(make_url(1234), "https://www.rfc-editor.org/rfc/rfc1234.txt");
    assert_eq!(
        make_url(2147483647),
        "https://www.rfc-editor.org/rfc/rfc2147483647.txt"
    );
}

#[test]
fn headers_skip_malformed_blocks() {
    let text = "0001 A.\n\nnot a header\n\n0003 C.\n\n";
    let headers = index_entry_headers(text).unwrap();
    assert_eq!(headers.len(), 2);
    assert_eq!(headers[0].number, 1);
    assert_eq!(headers[0].title, "A.");
    assert_eq!(headers[0].url, "https://www.rfc-editor.org/rfc/rfc1.txt");
    assert_eq!(headers[1].number, 3);
    assert_eq!(headers[1].title, "C.");
}

#[test]
fn one_failed_fetch_among_three() {
    let text = "0001 A.\n\n0002 B.\n\n0003 C.";
    let headers = index_entry_headers(text).unwrap();
    assert_eq!(headers.len(), 3);
    let contents = vec![
        Some(String::from("alpha")),
        None,
        Some(String::from("gamma")),
    ];
    let entries = assemble_entries(headers, contents);
    assert_eq!(entries.len(), 3);
    assert_eq!(entries[0].number, 1);
    assert_eq!(entries[1].number, 2);
    assert_eq!(entries[2].number, 3);
    assert_eq!(entries[0].content.as_deref(), Some("alpha"));
    assert_eq!(entries[1].content, None);
    assert_eq!(entries[2].content.as_deref(), Some("gamma"));
    let absent: Vec<i32> = entries
        .iter()
        .filter(|e| e.content.is_none())
        .map(|e| e.number)
        .collect();
    assert_eq!(absent, vec![2]);
}

#[test]
fn progress_signal_on_thousands() {
    assert!(should_report_progress(0));
    assert!(should_report_progress(1000));
    assert!(should_report_progress(2000));
    assert!(!should_report_progress(1));
    assert!(!should_report_progress(999));
    assert!(!should_report_progress(1001));
}
