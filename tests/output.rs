use bookmarks::text::generate_padding;

#[test]
fn test_generate_padding() {
    assert_eq!(generate_padding(7, 10), "   ");
}
