use bookmarks::config::{Add, Search};
use bookmarks::error::BookmarkError;
use bookmarks::format_output::FormatOutput;
use bookmarks::highlight::wrap_spans;
use bookmarks::matcher::{build_regex, wrap_matches};
use bookmarks::record::{format_line, header_line, parse_line, url_exists, Line};
use bookmarks::report::{MatchedBookmark, SearchResultOutput};
use bookmarks::search::{build_query, match_line, search, search_lines};
use bookmarks::tag_list::{get_tags, tag_lines};
use bookmarks::tags::{all_present, sort_tags};
use bookmarks::text::{join, TextPart};
use bookmarks::validate::ValidationError;

const BLUE: &str = "\u{1b}[34m";
const RESET: &str = "\u{1b}[0m";

fn strings(items: &[&str]) -> Vec<String> {
    items.iter().map(|s| s.to_string()).collect()
}

fn joined(parts: &[TextPart]) -> String {
    parts.iter().map(|p| p.text().clone()).collect::<Vec<String>>().concat()
}

fn three_records() -> Vec<String> {
    strings(&[
        "https://google.com|Google Search Engine|",
        "https://bing.com|MS Search|Search,Engine",
        "https://yahoo.com|Yahoo Engine|Yahoo,Search",
    ])
}

#[test]
fn segments_join_back_to_text() {
    let texts = ["Hi there, hi again", "", "no match here", "Ünïcödé hi ü", "hihi"];
    for pattern in ["hi", "x*", "ü", "^", "e"] {
        let m = build_regex(pattern).unwrap();
        for text in texts {
            let (_, parts) = wrap_matches(&m, text);
            assert_eq!(joined(&parts), text);
        }
    }
}

#[test]
fn adjacent_matches_have_no_empty_plain_segment() {
    let m = build_regex("hi").unwrap();
    let (found, parts) = wrap_matches(&m, "hihi there");
    assert!(found);
    assert_eq!(parts.len(), 3);
    assert!(matches!(&parts[0], TextPart::MatchedText(s) if s == "hi"));
    assert!(matches!(&parts[1], TextPart::MatchedText(s) if s == "hi"));
    assert!(matches!(&parts[2], TextPart::Text(s) if s == " there"));
}

#[test]
fn no_spans_give_one_plain_segment() {
    let (found, parts) = wrap_spans("plain text", &Vec::new());
    assert!(!found);
    assert_eq!(parts.len(), 1);
    assert!(matches!(&parts[0], TextPart::Text(s) if s == "plain text"));

    let (found, parts) = wrap_spans("", &Vec::new());
    assert!(!found);
    assert!(parts.is_empty());

    let m = build_regex("zzz").unwrap();
    let (found, parts) = wrap_matches(&m, "plain text");
    assert!(!found);
    assert_eq!(parts.len(), 1);
    assert!(matches!(&parts[0], TextPart::Text(s) if s == "plain text"));
}

#[test]
fn spans_split_multibyte_text() {
    // "é" takes two bytes: the span 1..3 covers it.
    let (found, parts) = wrap_spans("héllo", &vec![(1, 3)]);
    assert!(found);
    assert_eq!(parts.len(), 3);
    assert!(matches!(&parts[0], TextPart::Text(s) if s == "h"));
    assert!(matches!(&parts[1], TextPart::MatchedText(s) if s == "é"));
    assert!(matches!(&parts[2], TextPart::Text(s) if s == "llo"));
    assert_eq!(TextPart::vec_len(&parts), 5);
}

#[test]
fn matching_is_case_insensitive_and_unicode_aware() {
    let m = build_regex("ÜBER").unwrap();
    let (found, parts) = wrap_matches(&m, "Café über alles");
    assert!(found);
    assert!(matches!(&parts[1], TextPart::MatchedText(s) if s == "über"));
}

#[test]
fn presence_of_tags() {
    assert!(all_present(&[], &[]));
    assert!(!all_present(&[], &strings(&["a"])));
    assert!(all_present(&strings(&["Rust", "Web"]), &strings(&["rust"])));
    assert!(!all_present(&strings(&["Rust", "Web"]), &strings(&["go"])));
    assert!(all_present(&strings(&["Rust", "Web"]), &strings(&["WEB", "rUST"])));
    assert!(!all_present(&strings(&["Search Engine"]), &strings(&["Search"])));
}

#[test]
fn column_width_is_widest_row() {
    let mut out = SearchResultOutput::new();
    out.add_matched_bookmark(MatchedBookmark::new_tags_only("aaaaa", "d", Vec::new()));
    out.add_matched_bookmark(MatchedBookmark::new_tags_only("bbbbbbbbbbbb", "d", Vec::new()));
    out.add_matched_bookmark(MatchedBookmark::new_tags_only("ccc", "d", Vec::new()));
    let lines = out.render();
    assert_eq!(lines.len(), 3);
    assert_eq!(lines[0], format!("aaaaa{} d ", " ".repeat(7)));
    assert_eq!(lines[1], "bbbbbbbbbbbb d ");
    assert_eq!(lines[2], format!("ccc{} d ", " ".repeat(9)));
}

#[test]
fn styling_does_not_count_toward_width() {
    let m = build_regex("oo").unwrap();
    let mut out = SearchResultOutput::new();
    let (_, url) = wrap_matches(&m, "foo");
    let (_, description) = wrap_matches(&m, "x");
    out.add_matched_bookmark(MatchedBookmark::new(url, description, Vec::new()));
    out.add_matched_bookmark(MatchedBookmark::new_tags_only("abcd", "y", Vec::new()));
    let lines = out.render();
    assert_eq!(lines[0], format!("f{}oo{}  x ", BLUE, RESET));
    assert_eq!(lines[1], "abcd y ");
}

#[test]
fn pretty_string_paints_matches_blue() {
    let parts = vec![
        TextPart::Text(String::from("a ")),
        TextPart::MatchedText(String::from("b")),
        TextPart::Text(String::from(" c")),
    ];
    assert_eq!(TextPart::pretty_string(&parts), format!("a {}b{} c", BLUE, RESET));
    assert_eq!(TextPart::vec_len(&parts), 5);
    assert_eq!(parts[1].len(), 1);
}

#[test]
fn tags_sorted_case_insensitively() {
    let b = MatchedBookmark::new_tags_only("u", "d", strings(&["c", "B", "a"]));
    assert_eq!(join(&b.tags, " | "), "a | B | c");
    let mut out = SearchResultOutput::new();
    out.add_matched_bookmark(b);
    assert_eq!(out.render()[0], "u d a | B | c");
}

#[test]
fn tag_sort_is_stable() {
    let sorted = sort_tags(&strings(&["b", "Tag", "A", "tag", "TAG", "a"]));
    assert_eq!(sorted, strings(&["A", "a", "b", "Tag", "tag", "TAG"]));
    assert!(sort_tags(&Vec::new()).is_empty());
}

#[test]
fn end_to_end_pattern_search() {
    let opts = Search { regex: Some(String::from("S.arch")), tags: Vec::new() };
    let out = search(&opts, &three_records()).unwrap();
    let lines = out.render();
    assert_eq!(lines.len(), 2);
    assert_eq!(
        lines[0],
        format!("https://google.com Google {}Search{} Engine ", BLUE, RESET)
    );
    assert_eq!(
        lines[1],
        format!("https://bing.com   MS {}Search{}{} Engine | Search", BLUE, RESET, " ".repeat(11))
    );
}

#[test]
fn end_to_end_multi_word_tag_search() {
    let opts = Search { regex: None, tags: strings(&["Search Engine"]) };
    let out = search(&opts, &three_records()).unwrap();
    assert!(out.render().is_empty());

    let mut lines = three_records();
    lines.push(String::from("https://duckduckgo.com/|Privacy search Engine|Search Engine"));
    let out = search(&opts, &lines).unwrap();
    assert_eq!(
        out.render(),
        strings(&["https://duckduckgo.com/ Privacy search Engine Search Engine"])
    );
}

#[test]
fn tags_only_search_is_unhighlighted() {
    let m = match_line(
        &None,
        &strings(&["Search"]),
        Line {
            url: String::from("https://example.com"),
            description: String::from("An example"),
            tags: strings(&["search", "a"]),
        },
    )
    .unwrap();
    assert_eq!(m.url.len(), 1);
    assert!(matches!(&m.url[0], TextPart::Text(s) if s == "https://example.com"));
    assert_eq!(m.description.len(), 1);
    assert!(matches!(&m.description[0], TextPart::Text(s) if s == "An example"));
    assert_eq!(m.tags, strings(&["a", "search"]));
}

#[test]
fn search_needs_pattern_or_tag() {
    let opts = Search { regex: None, tags: Vec::new() };
    assert!(matches!(search(&opts, &three_records()), Err(BookmarkError::MissingCriteria)));
}

#[test]
fn search_rejects_invalid_pattern() {
    let opts = Search { regex: Some(String::from("(unclosed")), tags: Vec::new() };
    let bad = strings(&["not a record"]);
    assert!(matches!(search(&opts, &bad), Err(BookmarkError::InvalidPattern)));
    assert!(matches!(build_regex("[z-a]"), Err(BookmarkError::InvalidPattern)));
}

#[test]
fn search_stops_at_malformed_record() {
    let opts = Search { regex: Some(String::from("a")), tags: Vec::new() };
    let mut lines = three_records();
    lines.insert(1, String::from("only|two"));
    lines.push(String::from("a|b|c|d"));
    match search(&opts, &lines) {
        Err(BookmarkError::MalformedRecord(line)) => assert_eq!(line, "only|two"),
        _ => panic!("expected a malformed record"),
    }
}

#[test]
fn search_skips_header_free_lines_in_order() {
    let opts = Search { regex: Some(String::from("url")), tags: Vec::new() };
    let lines = strings(&["URL|DESCRIPTION|TAGS"]);
    let out = search(&opts, &lines).unwrap();
    assert_eq!(out.render().len(), 1);
    let out = search(&opts, &Vec::new()).unwrap();
    assert!(out.render().is_empty());
}

#[test]
fn record_lines_round_trip() {
    let line = format_line("https://a.b", "desc", &strings(&["x", "y z"]));
    assert_eq!(line, "https://a.b|desc|x,y z");
    let parsed = parse_line(&line).unwrap();
    assert_eq!(parsed.url, "https://a.b");
    assert_eq!(parsed.description, "desc");
    assert_eq!(parsed.tags, strings(&["x", "y z"]));
    let parsed = parse_line("u|d|").unwrap();
    assert_eq!(parsed.tags, strings(&[""]));
    assert_eq!(header_line(), "URL|DESCRIPTION|TAGS");
    match parse_line("no fields") {
        Err(BookmarkError::MalformedRecord(l)) => assert_eq!(l, "no fields"),
        _ => panic!("expected a malformed record"),
    }
}

#[test]
fn finds_existing_url() {
    let lines = strings(&["https://a.b|d|t", "https://c.d|d|t"]);
    assert!(url_exists("https://c.d", &lines).unwrap());
    assert!(!url_exists("https://C.d", &lines).unwrap());
    assert!(!url_exists("https://c.d", &Vec::new()).unwrap());
}

#[test]
fn url_scan_stops_at_first_match() {
    let lines = strings(&["https://a.b|d|t", "bad line", "https://c.d|d|t"]);
    assert!(url_exists("https://a.b", &lines).unwrap());
    match url_exists("https://c.d", &lines) {
        Err(BookmarkError::MalformedRecord(l)) => assert_eq!(l, "bad line"),
        _ => panic!("expected a malformed record"),
    }
}

#[test]
fn tags_only_empty_fields_have_no_segments() {
    let b = MatchedBookmark::new_tags_only("", "", strings(&["x"]));
    assert!(b.url.is_empty());
    assert!(b.description.is_empty());
    let m = match_line(
        &None,
        &strings(&["X"]),
        Line { url: String::from("https://e.com"), description: String::new(), tags: strings(&["x"]) },
    )
    .unwrap();
    assert_eq!(m.url.len(), 1);
    assert!(m.description.is_empty());
    let mut out = SearchResultOutput::new();
    out.add_matched_bookmark(m);
    assert_eq!(out.render(), strings(&["https://e.com  x"]));
}

#[test]
fn criteria_are_checked_before_records() {
    let none = Search { regex: None, tags: Vec::new() };
    assert!(matches!(build_query(&none), Err(BookmarkError::MissingCriteria)));
    let bad = Search { regex: Some(String::from("(")), tags: Vec::new() };
    assert!(matches!(build_query(&bad), Err(BookmarkError::InvalidPattern)));
    let tags_only = Search { regex: None, tags: strings(&["a"]) };
    assert!(matches!(build_query(&tags_only), Ok(None)));
    let good = Search { regex: Some(String::from("b")), tags: Vec::new() };
    let re = build_query(&good).unwrap();
    assert!(re.is_some());
    let out = search_lines(&re, &[], &strings(&["u|abc|t", "u|xyz|t"])).unwrap();
    assert_eq!(out.render().len(), 1);
}

#[test]
fn validation_errors_are_reported_in_order() {
    let add = |url: &str, description: &str, tags: &[&str]| Add {
        url: String::from(url),
        description: String::from(description),
        tags: strings(tags),
        commit: false,
    };
    assert!(add("https://google.com", "Google", &["a", "b"]).validate().is_ok());
    assert!(matches!(add("nope|", "Goo|gle", &[]).validate(), Err(ValidationError::InvalidUrl)));
    assert!(matches!(add("https://g.com", "Goo|gle", &[]).validate(), Err(ValidationError::ContainsPipe)));
    assert!(matches!(add("https://g.com", "G", &["ok", "t,ag", "x|y"]).validate(), Err(ValidationError::ContainsComma)));
    assert!(matches!(add("https://g.com", "G", &["x|,y"]).validate(), Err(ValidationError::ContainsPipe)));
}

#[test]
fn tag_listing_groups_spellings() {
    let records = vec![
        parse_line("u1|d|Search,Engine").unwrap(),
        parse_line("u2|d|search,a").unwrap(),
        parse_line("u3|d|B,c,Search").unwrap(),
    ];
    let groups = get_tags(&records);
    assert_eq!(groups.len(), 5);
    assert_eq!(groups[0].key, "search");
    assert_eq!(groups[0].variants, strings(&["Search", "search"]));
    assert_eq!(
        tag_lines(&records),
        strings(&["a", "B", "c", "Engine", "Search, search"])
    );
}

#[test]
fn format_output_aligns_columns() {
    let mut out = FormatOutput::new();
    out.add_line(String::from("ab"), 2, String::from("xyz"), 3, &vec!["t1", "t2"]);
    out.add_line(String::from("abcd"), 4, String::from("x"), 1, &Vec::new());
    assert_eq!(out.render(), strings(&["ab   xyz t1 | t2", "abcd x   "]));
}
