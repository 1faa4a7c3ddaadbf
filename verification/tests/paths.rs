use apollo_router::path::{Path, PathElement};

fn key(text: &str) -> PathElement {
    PathElement::Key(text.to_string())
}

#[test]
fn parse_reads_keys_indices_and_flatten() {
    let path = Path::parse("obj/arr/12/@/name");
    assert_eq!(
        path,
        Path(vec![
            key("obj"),
            key("arr"),
            PathElement::Index(12),
            PathElement::Flatten,
            key("name"),
        ])
    );
}

#[test]
fn parse_of_empty_text_is_one_empty_key() {
    assert_eq!(Path::parse(""), Path(vec![key("")]));
}

#[test]
fn parse_keeps_empty_segments() {
    assert_eq!(Path::parse("/a//"), Path(vec![key(""), key("a"), key(""), key("")]));
}

#[test]
fn parse_reads_leading_zeros_as_an_index() {
    assert_eq!(Path::parse("007"), Path(vec![PathElement::Index(7)]));
    assert_eq!(Path::parse("0"), Path(vec![PathElement::Index(0)]));
}

#[test]
fn parse_reads_a_signed_number_as_a_key() {
    assert_eq!(Path::parse("+5"), Path(vec![key("+5")]));
    assert_eq!(Path::parse("-5"), Path(vec![key("-5")]));
    assert_eq!(Path::parse("1.5"), Path(vec![key("1.5")]));
    assert_eq!(Path::parse("12a"), Path(vec![key("12a")]));
}

#[test]
fn parse_reads_a_number_too_large_for_an_index_as_a_key() {
    let max = usize::MAX.to_string();
    assert_eq!(Path::parse(&max), Path(vec![PathElement::Index(usize::MAX)]));
    let too_large = format!("{}0", max);
    assert_eq!(Path::parse(&too_large), Path(vec![key(&too_large)]));
    let next = "18446744073709551616";
    if usize::MAX as u128 == u64::MAX as u128 {
        assert_eq!(Path::parse(next), Path(vec![key(next)]));
    }
}

#[test]
fn parse_reads_flatten_only_from_the_single_character() {
    assert_eq!(Path::parse("@"), Path(vec![PathElement::Flatten]));
    assert_eq!(Path::parse("@@"), Path(vec![key("@@")]));
    assert_eq!(Path::parse("a@"), Path(vec![key("a@")]));
}

#[test]
fn parse_handles_characters_beyond_ascii() {
    assert_eq!(Path::parse("é/日本/1"), Path(vec![key("é"), key("日本"), PathElement::Index(1)]));
}

#[test]
fn from_reads_as_parse_does() {
    assert_eq!(Path::from("a/1/@"), Path::parse("a/1/@"));
    assert_eq!(Path::from("a/1/@"), Path(vec![key("a"), PathElement::Index(1), PathElement::Flatten]));
}

#[test]
fn from_slice_reads_each_segment_without_splitting() {
    let path = Path::from_slice(&["a", "3", "@", "b/c", ""]);
    assert_eq!(
        path,
        Path(vec![key("a"), PathElement::Index(3), PathElement::Flatten, key("b/c"), key("")])
    );
    assert_eq!(Path::from_slice(&[]), Path::empty());
}

#[test]
fn element_from_text() {
    assert_eq!(PathElement::from_text("42"), PathElement::Index(42));
    assert_eq!(PathElement::from_text("@"), PathElement::Flatten);
    assert_eq!(PathElement::from_text("name"), key("name"));
    assert_eq!(PathElement::from_text(""), key(""));
}

#[test]
fn index_of_text() {
    assert_eq!(PathElement::index_of_text("1203"), Some(1203));
    assert_eq!(PathElement::index_of_text("0"), Some(0));
    assert_eq!(PathElement::index_of_text("000"), Some(0));
    assert_eq!(PathElement::index_of_text(""), None);
    assert_eq!(PathElement::index_of_text("12x"), None);
    assert_eq!(PathElement::index_of_text("x12"), None);
    assert_eq!(PathElement::index_of_text("１２"), None);
    assert_eq!(PathElement::index_of_text(&usize::MAX.to_string()), Some(usize::MAX));
    assert_eq!(PathElement::index_of_text(&format!("{}1", usize::MAX)), None);
}

#[test]
fn flatten_text_is_the_single_character() {
    assert!(PathElement::is_flatten_text("@"));
    assert!(!PathElement::is_flatten_text(""));
    assert!(!PathElement::is_flatten_text("@@"));
    assert!(!PathElement::is_flatten_text("a"));
}

#[test]
fn to_string_joins_the_steps_with_slashes() {
    let path = Path(vec![key("obj"), PathElement::Index(1203), PathElement::Flatten, key("p")]);
    assert_eq!(path.to_string(), "obj/1203/@/p");
    assert_eq!(Path(vec![PathElement::Index(0)]).to_string(), "0");
    assert_eq!(Path(vec![PathElement::Index(10)]).to_string(), "10");
    assert_eq!(Path(vec![PathElement::Index(usize::MAX)]).to_string(), usize::MAX.to_string());
    assert_eq!(Path::empty().to_string(), "");
    assert_eq!(Path(vec![key(""), key("")]).to_string(), "/");
}

#[test]
fn round_trip_of_keys_and_indices() {
    let path = Path(vec![key("a"), PathElement::Index(2), key("b c"), PathElement::Index(0), key("")]);
    assert_eq!(Path::parse(&path.to_string()), path);
    let text = "obj/arr/1/prop1";
    assert_eq!(Path::parse(text).to_string(), text);
}

#[test]
fn round_trip_fails_for_a_key_that_reads_as_an_index() {
    let path = Path(vec![key("12")]);
    assert_eq!(Path::parse(&path.to_string()), Path(vec![PathElement::Index(12)]));
    let empty = Path::empty();
    assert_eq!(Path::parse(&empty.to_string()), Path(vec![key("")]));
}

#[test]
fn empty_len_and_is_empty() {
    assert!(Path::empty().is_empty());
    assert_eq!(Path::empty().len(), 0);
    assert_eq!(Path::default(), Path::empty());
    let path = Path::parse("a/b/c");
    assert!(!path.is_empty());
    assert_eq!(path.len(), 3);
}

#[test]
fn parent_drops_the_last_step() {
    assert_eq!(Path::parse("a/b/c").parent(), Some(Path::parse("a/b")));
    assert_eq!(Path::parse("a").parent(), Some(Path::empty()));
    assert_eq!(Path::empty().parent(), None);
}

#[test]
fn join_appends_the_other_path() {
    let left = Path::parse("a/1");
    let right = Path::parse("@/b");
    assert_eq!(left.join(&right), Path::parse("a/1/@/b"));
    assert_eq!(left.join(&Path::empty()), left);
    assert_eq!(Path::empty().join(&right), right);
    assert_eq!(Path::empty().join(&Path::empty()), Path::empty());
}

#[test]
fn iter_walks_the_steps_in_order() {
    let path = Path::parse("a/1/@");
    let steps: Vec<&PathElement> = path.iter().collect();
    assert_eq!(steps, vec![&key("a"), &PathElement::Index(1), &PathElement::Flatten]);
    assert_eq!(Path::empty().iter().count(), 0);
}

#[test]
fn clone_copies_the_steps() {
    let path = Path::parse("a/1/@");
    assert_eq!(path.clone(), path);
    assert_eq!(key("k").clone(), key("k"));
}

#[test]
fn text_with_leading_zeros_is_written_back_without_them() {
    assert_eq!(Path::parse("a/007").to_string(), "a/7");
    assert_eq!(Path::parse("a/0/@//b").to_string(), "a/0/@//b");
    assert_eq!(Path::parse("").to_string(), "");
    assert_eq!(Path::parse("/").to_string(), "/");
}

#[test]
fn round_trip_with_flatten() {
    let path = Path(vec![key("a"), PathElement::Flatten, PathElement::Index(3)]);
    assert_eq!(Path::parse(&path.to_string()), path);
    let flatten_like = Path(vec![key("@")]);
    assert_eq!(Path::parse(&flatten_like.to_string()), Path(vec![PathElement::Flatten]));
    let with_slash = Path(vec![key("a/b")]);
    assert_eq!(Path::parse(&with_slash.to_string()), Path(vec![key("a"), key("b")]));
}
