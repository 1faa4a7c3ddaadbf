use apollo_router::text::split_text;

#[test]
fn split_cuts_at_each_separator() {
    assert_eq!(split_text("a,b,c", ','), vec!["a", "b", "c"]);
    assert_eq!(split_text("a/b", '/'), vec!["a", "b"]);
    assert_eq!(split_text("a/b", ','), vec!["a/b"]);
}

#[test]
fn split_keeps_empty_segments() {
    assert_eq!(split_text("", ','), vec![""]);
    assert_eq!(split_text(",", ','), vec!["", ""]);
    assert_eq!(split_text(",a,,b,", ','), vec!["", "a", "", "b", ""]);
}

#[test]
fn split_counts_characters_not_bytes() {
    assert_eq!(split_text("é,日本,ü", ','), vec!["é", "日本", "ü"]);
    assert_eq!(split_text("aéb", 'é'), vec!["a", "b"]);
}

#[test]
fn split_agrees_with_the_standard_library() {
    for text in ["", "a", ",", "a,b", ",,", "x, y ,z", "text/html,application/json;q=0.9"] {
        let expected: Vec<&str> = text.split(',').collect();
        assert_eq!(split_text(text, ','), expected);
    }
}
