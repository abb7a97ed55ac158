use ballast::headers::Headers;

fn text(s: &str) -> String {
    s.to_string()
}

fn mapping(pairs: &[(&str, &str)]) -> Headers {
    Headers::from_pairs(pairs.iter().map(|(k, v)| (text(k), text(v))).collect())
}

#[test]
fn new_mapping_is_empty() {
    let headers = Headers::new();
    assert!(headers.pairs().is_empty());
    assert_eq!(headers.get(&text("accept")), None);
}

#[test]
fn insert_adds_a_name() {
    let headers = Headers::new().insert(text("accept"), text("*/*"));
    assert_eq!(headers.get(&text("accept")), Some(&text("*/*")));
    assert_eq!(headers.get(&text("Accept")), None);
    assert_eq!(headers.pairs().len(), 1);
}

#[test]
fn insert_replaces_the_value_of_a_name() {
    let headers = Headers::new()
        .insert(text("a"), text("1"))
        .insert(text("b"), text("2"))
        .insert(text("a"), text("3"));
    assert_eq!(headers.get(&text("a")), Some(&text("3")));
    assert_eq!(headers.get(&text("b")), Some(&text("2")));
    assert_eq!(headers.pairs().len(), 2);
}

#[test]
fn from_pairs_lets_the_last_pair_decide() {
    let headers = mapping(&[("set-cookie", "a"), ("x", "1"), ("set-cookie", "b")]);
    assert_eq!(headers.get(&text("set-cookie")), Some(&text("b")));
    assert_eq!(headers.get(&text("x")), Some(&text("1")));
    assert_eq!(headers.pairs().len(), 2);
}

#[test]
fn same_as_ignores_order() {
    let left = mapping(&[("a", "1"), ("b", "2"), ("c", "3")]);
    let right = mapping(&[("c", "3"), ("a", "1"), ("b", "2")]);
    assert!(left.same_as(&right));
    assert!(right.same_as(&left));
    assert!(left.same_as(&left));
}

#[test]
fn same_as_is_exact() {
    let base = mapping(&[("a", "1"), ("b", "2")]);
    assert!(!base.same_as(&mapping(&[("a", "1")])));
    assert!(!mapping(&[("a", "1")]).same_as(&base));
    assert!(!base.same_as(&mapping(&[("a", "1"), ("b", "2"), ("c", "3")])));
    assert!(!base.same_as(&mapping(&[("a", "1"), ("b", "9")])));
    assert!(!base.same_as(&mapping(&[("a", "1"), ("c", "2")])));
    assert!(!base.same_as(&Headers::new()));
    assert!(Headers::new().same_as(&Headers::new()));
}

#[test]
fn clone_keeps_the_mapping() {
    let headers = mapping(&[("a", "1"), ("b", "2")]);
    let copy = headers.clone();
    assert!(copy.same_as(&headers));
    assert_eq!(copy.get(&text("b")), Some(&text("2")));
}

#[test]
fn pairs_hold_each_name_once() {
    let headers = mapping(&[("a", "1"), ("a", "2"), ("a", "3")]);
    assert_eq!(headers.pairs(), &vec![(text("a"), text("3"))]);
}
