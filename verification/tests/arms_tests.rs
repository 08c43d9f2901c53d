use obd_equation_rs::arms::pair_args;

fn texts(items: &[Option<&str>]) -> Vec<Option<String>> {
    items.iter().map(|t| t.map(|s| s.to_string())).collect()
}

fn pairs(items: &[(&str, &str)]) -> Vec<(String, String)> {
    items.iter().map(|(k, v)| (k.to_string(), v.to_string())).collect()
}

#[test]
fn arms_give_their_pairs() {
    let t = texts(&[Some("1=100"), Some(" 2 = 'On' ")]);
    assert_eq!(pair_args(&t), Ok(pairs(&[("1", "100"), ("2", "'On'")])));
}

#[test]
fn plain_arguments_pair_up() {
    let t = texts(&[Some("1"), Some("100"), Some("2"), Some("200")]);
    assert_eq!(pair_args(&t), Ok(pairs(&[("1", "100"), ("2", "200")])));
}

#[test]
fn a_trailing_key_alone_is_dropped() {
    let t = texts(&[Some("1"), Some("100"), Some("3")]);
    assert_eq!(pair_args(&t), Ok(pairs(&[("1", "100")])));
}

#[test]
fn text_after_a_second_equals_is_dropped() {
    let t = texts(&[Some("1=a=b")]);
    assert_eq!(pair_args(&t), Ok(pairs(&[("1", "a")])));
}

#[test]
fn arms_and_plain_pairs_mix() {
    let t = texts(&[Some("1=100"), Some("2"), Some("x=y"), Some("3=300")]);
    // "2" takes the next argument whole as its value, arm or not
    assert_eq!(pair_args(&t), Ok(pairs(&[("1", "100"), ("2", "x=y"), ("3", "300")])));
}

#[test]
fn reading_an_argument_without_text_fails_there() {
    assert_eq!(pair_args(&texts(&[Some("1"), None])), Err(1));
    assert_eq!(pair_args(&texts(&[None, Some("1=2")])), Err(0));
    assert_eq!(pair_args(&texts(&[Some("1=2"), Some("3=4"), None])), Err(2));
    // a last argument alone is never read as a value
    assert_eq!(pair_args(&texts(&[Some("1"), Some("2"), Some("3")])), Ok(pairs(&[("1", "2")])));
}

#[test]
fn no_arguments_no_pairs() {
    assert_eq!(pair_args(&[]), Ok(Vec::new()));
}
