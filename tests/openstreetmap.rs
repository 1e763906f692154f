use ophois::openstreetmap::{text_contains, text_ends_with, text_starts_with, way_links, XmlJoiner};

#[test]
fn self_closing_rows_pass_through_trimmed() {
    let mut joiner = XmlJoiner::new();
    let out = joiner.feed_line("   <node id=\"618904\" lat=\"50.6011263\" lon=\"3.2519549\"/>  ");
    assert_eq!(out, vec!["<node id=\"618904\" lat=\"50.6011263\" lon=\"3.2519549\"/>".to_string()]);
    assert!(!joiner.node && !joiner.way);
}

#[test]
fn multi_line_way_is_joined() {
    let mut joiner = XmlJoiner::new();
    assert!(joiner.feed_line("  <way id=\"951505353\">").is_empty());
    assert!(joiner.feed_line("    <nd ref=\"8807254574\"/>").is_empty());
    assert!(joiner.feed_line("    <nd ref=\"8807254575\"/>").is_empty());
    let out = joiner.feed_line("  </way>");
    assert_eq!(
        out,
        vec!["<way id=\"951505353\"><nd ref=\"8807254574\"/><nd ref=\"8807254575\"/></way>".to_string()]
    );
    assert!(!joiner.way);
}

#[test]
fn rows_outside_elements_are_dropped() {
    let mut joiner = XmlJoiner::new();
    assert!(joiner.feed_line("<osm version=\"0.6\">").is_empty());
    assert!(joiner.feed_line("<bounds/>").is_empty());
    assert_eq!(joiner.data, "");
}

#[test]
fn text_tests() {
    assert!(text_starts_with("<node id", "<node"));
    assert!(!text_starts_with("<no", "<node"));
    assert!(text_ends_with("<nd/>", "/>"));
    assert!(!text_ends_with("<nd>", "/>"));
    assert!(text_contains("a</node>b", "</node>"));
    assert!(!text_contains("a</nodeb", "</node>"));
    assert!(text_contains("abc", ""));
}

#[test]
fn way_links_pair_consecutive_references() {
    let refs = vec!["8807254574".to_string(), "8807254575".to_string(), "8507963130".to_string()];
    assert_eq!(
        way_links(&refs),
        vec![
            ("8807254574".to_string(), "8807254575".to_string()),
            ("8807254575".to_string(), "8507963130".to_string()),
        ]
    );
    assert!(way_links(&vec![]).is_empty());
    assert!(way_links(&vec!["1".to_string()]).is_empty());
}

#[test]
fn rows_are_trimmed_of_unicode_white_space() {
    let mut joiner = XmlJoiner::new();
    let out = joiner.feed_line("\u{3000}\t<node id=\"1\"/>\u{00A0}\r");
    assert_eq!(out, vec!["<node id=\"1\"/>".to_string()]);
}
