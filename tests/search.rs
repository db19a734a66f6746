use bookmarks::matcher::{build_regex, Matcher};
use bookmarks::record::Line;
use bookmarks::report::MatchedBookmark;
use bookmarks::search::match_line;
use bookmarks::text::TextPart;

#[test]
fn no_match() {
    let m = match_line(
        &regex_from_str("what"),
        &Vec::new(),
        Line {
            url: String::from("https://google.com"),
            description: String::from("more than one"),
            tags: Vec::new(),
        },
    );

    assert!(m.is_none());
}

#[test]
fn single_word_description() {
    let m = match_line(
        &regex_from_str("Hi"),
        &Vec::new(),
        Line {
            url: String::from("https://google.com"),
            description: String::from("Hi there"),
            tags: Vec::new(),
        },
    );

    single_matched_description(m, "Hi");
}

#[test]
fn case_insensitive_description() {
    let m = match_line(
        &regex_from_str("hi"),
        &Vec::new(),
        Line {
            url: String::from("https://google.com"),
            description: String::from("Hi there"),
            tags: Vec::new(),
        },
    );

    single_matched_description(m, "Hi");
}

#[test]
fn multi_word_case_insensitive_description() {
    let m = match_line(
        &regex_from_str("hi There"),
        &Vec::new(),
        Line {
            url: String::from("https://google.com"),
            description: String::from("Hi there"),
            tags: Vec::new(),
        },
    );

    single_matched_description(m, "Hi there");
}

#[test]
fn regex_description() {
    let m = match_line(
        &regex_from_str("t.e"),
        &Vec::new(),
        Line {
            url: String::from("https://google.com"),
            description: String::from("Hi there"),
            tags: Vec::new(),
        },
    );

    single_matched_description(m, "the");
}

#[test]
fn multi_word_description() {
    let m = match_line(
        &regex_from_str("more than"),
        &Vec::new(),
        Line {
            url: String::from("https://google.com"),
            description: String::from("more than one"),
            tags: Vec::new(),
        },
    );

    single_matched_description(m, "more than");
}

#[test]
fn single_word_url() {
    // Multi word doesn't make sense for a URL
    let m = match_line(
        &regex_from_str("google"),
        &Vec::new(),
        Line {
            url: String::from("https://google.com"),
            description: String::from("more than one"),
            tags: Vec::new(),
        },
    );

    single_matched_url(m, "google");
}

#[test]
fn regex_url() {
    let m = match_line(
        &regex_from_str("g..g"),
        &Vec::new(),
        Line {
            url: String::from("https://google.com"),
            description: String::from("more than one"),
            tags: Vec::new(),
        },
    );

    single_matched_url(m, "goog");
}

#[test]
fn tags_only() {
    let m = match_line(
        &None,
        &[String::from("Tag1")],
        Line {
            url: String::from("https://google.com"),
            description: String::from("more than one"),
            tags: vec![String::from("Tag1")],
        },
    );

    assert!(m.is_some());
    let m = m.unwrap();
    assert!(get_matched_parts(&m.url).is_empty());
    assert!(get_matched_parts(&m.description).is_empty());
}

#[test]
fn case_insensitive_tags() {
    let m = match_line(
        &None,
        &[String::from("tag1")],
        Line {
            url: String::from("https://google.com"),
            description: String::from("more than one"),
            tags: vec![String::from("Tag1")],
        },
    );

    assert!(m.is_some());
    let m = m.unwrap();
    assert!(get_matched_parts(&m.url).is_empty());
    assert!(get_matched_parts(&m.description).is_empty());
}

#[test]
fn tags_and_url_match() {
    let m = match_line(
        &regex_from_str("g..g"),
        &[String::from("tag1")],
        Line {
            url: String::from("https://google.com"),
            description: String::from("more than one"),
            tags: vec![String::from("Tag1")],
        },
    );

    single_matched_url(m, "goog");
}

#[test]
fn url_match_tags_do_not() {
    let m = match_line(
        &regex_from_str("g..g"),
        &[String::from("what")],
        Line {
            url: String::from("https://google.com"),
            description: String::from("more than one"),
            tags: vec![String::from("Tag1")],
        },
    );

    assert!(m.is_none());
}

#[test]
fn multiple_tags() {
    let m = match_line(
        &None,
        &[String::from("Tag1"), String::from("Tag2")],
        Line {
            url: String::from("https://google.com"),
            description: String::from("more than one"),
            tags: vec![String::from("Tag1"), String::from("Tag2"), String::from("Tag3")],
        },
    );

    assert!(m.is_some());
    let m = m.unwrap();
    assert!(get_matched_parts(&m.url).is_empty());
    assert!(get_matched_parts(&m.description).is_empty());
}

#[test]
fn multi_word_tag() {
    let m = match_line(
        &None,
        &[String::from("Tag1 a doodle do")],
        Line {
            url: String::from("https://google.com"),
            description: String::from("more than one"),
            tags: vec![
                String::from("Tag1 a Doodle Do"),
                String::from("Tag2"),
                String::from("Tag3"),
            ],
        },
    );

    assert!(m.is_some());
    let m = m.unwrap();
    assert!(get_matched_parts(&m.url).is_empty());
    assert!(get_matched_parts(&m.description).is_empty());
}

fn single_matched_description(m: Option<MatchedBookmark>, expected_text: &str) {
    assert!(m.is_some());
    let matched_text = get_matched_parts(&m.unwrap().description);
    assert_eq!(matched_text.len(), 1);
    assert_eq!(matched_text.get(0).unwrap().text(), expected_text);
}

fn single_matched_url(m: Option<MatchedBookmark>, expected_text: &str) {
    assert!(m.is_some());
    let matched_text = get_matched_parts(&m.unwrap().url);
    assert_eq!(matched_text.len(), 1);
    assert_eq!(matched_text.get(0).unwrap().text(), expected_text);
}

fn get_matched_parts(parts: &[TextPart]) -> Vec<TextPart> {
    parts
        .iter()
        .filter_map(|part| match part {
            TextPart::MatchedText(v) => Some(TextPart::MatchedText(v.clone())),
            _ => None,
        })
        .collect::<Vec<TextPart>>()
}

fn regex_from_str(regex: &str) -> Option<Matcher> {
    Some(build_regex(regex).unwrap())
}
