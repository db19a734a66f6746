use bookmarks::record::parse_line;

#[test]
fn csv_invalid_line() {
    assert!(parse_line("four|pipes|in|line").is_err());
}

#[test]
fn csv_valid_line() {
    let url = "https://google.com";
    let description = "Google search engine";
    let tags = vec!["Search", "Engine"];
    let line_text = format!("{}|{}|{}", &url, &description, &tags.join(","));

    let line = parse_line(line_text.as_str()).unwrap();

    assert_eq!(line.url, url);
    assert_eq!(line.description, description);
    assert_eq!(line.tags, tags);
}

#[test]
fn csv_line_reader_invalid_line() {
    assert!(parse_line("four|pipes|in|line").is_err());
}

#[test]
fn csv_line_reader_valid_line() {
    let url = "https://google.com";
    let description = "Google search engine";
    let tags = vec!["Search", "Engine"];
    let line_text = format!("{}|{}|{}", &url, &description, &tags.join(","));

    let line = parse_line(line_text.as_str()).unwrap();

    assert_eq!(line.url, url);
    assert_eq!(line.description, description);
    assert_eq!(line.tags, tags);
}
