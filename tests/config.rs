use bookmarks::config::Add;

#[test]
fn invalid_url() {
    let add_opts = Add {
        url: String::from("not_a_url"),
        description: String::from("description"),
        tags: Vec::new(),
        commit: true,
    };

    assert!(add_opts.validate().is_err());
}

#[test]
fn pipe_in_url() {
    let add_opts = Add {
        url: String::from("https://wwww.go|ogle.com"),
        description: String::from("description"),
        tags: Vec::new(),
        commit: true,
    };

    assert!(add_opts.validate().is_err());
}

#[test]
fn pipe_in_description() {
    let add_opts = Add {
        url: String::from("https://wwww.google.com"),
        description: String::from("descr|iption"),
        tags: Vec::new(),
        commit: true,
    };

    assert!(add_opts.validate().is_err());
}

#[test]
fn pipe_in_tags() {
    let add_opts = Add {
        url: String::from("https://wwww.google.com"),
        description: String::from("description"),
        tags: vec![String::from("t|ag")],
        commit: true,
    };

    assert!(add_opts.validate().is_err());
}

#[test]
fn comma_in_tags() {
    let add_opts = Add {
        url: String::from("https://wwww.google.com"),
        description: String::from("description"),
        tags: vec![String::from("t,ag")],
        commit: true,
    };

    assert!(add_opts.validate().is_err());
}
