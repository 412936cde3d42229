use kwp::{Keywords, Parser, Prefixes};

fn plus_minus() -> Prefixes {
    Prefixes {
        positive: String::from("+"),
        negative: String::from("-"),
    }
}

#[test]
fn full_default_scenario() {
    let parser = Parser::new("+foo,-bar,+baz,-bak", Prefixes::default());
    let keywords = parser.parse();
    assert_eq!(keywords.positive, vec!["foo", "baz"]);
    assert_eq!(keywords.negative, vec!["bar", "bak"]);
    assert_eq!(keywords.other, Vec::<String>::new());
}

#[test]
fn default_prefixes_are_plus_and_minus() {
    let prefixes = Prefixes::default();
    assert_eq!(prefixes.positive, "+");
    assert_eq!(prefixes.negative, "-");
}

#[test]
fn retain_prefix_keeps_raw_token() {
    let mut parser = Parser::new("+foo", Prefixes::default());
    let kept = parser.should_retain_prefix(true);
    assert!(kept);
    let keywords = parser.parse();
    assert_eq!(keywords.positive, vec!["+foo"]);
}

#[test]
fn stripping_removes_every_occurrence() {
    let parser = Parser::new("++foo,+a+b", Prefixes::default());
    let keywords = parser.parse();
    assert_eq!(keywords.positive, vec!["foo", "ab"]);
}

#[test]
fn classification_is_idempotent() {
    let parser = Parser::new("+foo,-bar,+baz,bak", Prefixes::default());
    let first = parser.parse();
    let second = parser.parse();
    assert_eq!(first.positive, second.positive);
    assert_eq!(first.negative, second.negative);
    assert_eq!(first.other, second.other);
}

#[test]
fn buckets_partition_the_tokens() {
    let parser = Parser::new("+foo,-bar,+baz,bak", Prefixes::default());
    let keywords = parser.parse();
    let token_count = "+foo,-bar,+baz,bak".split(',').count();
    assert_eq!(
        keywords.positive.len() + keywords.negative.len() + keywords.other.len(),
        token_count
    );
}

#[test]
fn overlapping_prefixes_fill_both_buckets() {
    let parser = Parser::new(
        "++x",
        Prefixes {
            positive: String::from("+"),
            negative: String::from("++"),
        },
    );
    let keywords = parser.parse();
    assert_eq!(keywords.positive, vec!["x"]);
    assert_eq!(keywords.negative, vec!["x"]);
}

#[test]
fn empty_input_is_one_empty_token() {
    let parser = Parser::new("", Prefixes::default());
    let keywords = parser.parse();
    assert_eq!(keywords.positive, Vec::<String>::new());
    assert_eq!(keywords.negative, Vec::<String>::new());
    assert_eq!(keywords.other, vec![""]);
}

#[test]
fn empty_token_between_commas_is_kept() {
    let parser = Parser::new("+a,,+b", Prefixes::default());
    let keywords = parser.parse();
    assert_eq!(keywords.positive, vec!["a", "b"]);
    assert_eq!(keywords.other, vec![""]);
}

#[test]
fn empty_positive_keywords_match_nothing() {
    let parser = Parser::new("", Prefixes::default());
    let keywords = Keywords {
        positive: Vec::new(),
        negative: Vec::new(),
        other: vec![String::from("whatever")],
    };
    let products = parser.match_products(vec!["Alpha", "Beta"], keywords);
    assert_eq!(products, Vec::<String>::new());
}

#[test]
fn matching_ignores_candidate_case() {
    let parser = Parser::new("+foo", Prefixes::default());
    let keywords = parser.parse();
    let products = parser.match_products(vec!["FOO one", "Foo two", "bar"], keywords);
    assert_eq!(products, vec!["FOO one", "Foo two"]);
}

#[test]
fn matching_ignores_keyword_case() {
    let parser = Parser::new("+FOO,-BAR", Prefixes::default());
    let keywords = parser.parse();
    let products = parser.match_products(vec!["foo alone", "foo with bar"], keywords);
    assert_eq!(products, vec!["foo alone"]);
}

#[test]
fn match_keeps_candidate_order() {
    let parser = Parser::new("+a", Prefixes::default());
    let keywords = parser.parse();
    let products = parser.match_products(vec!["cba", "xyz", "abc", "aaa"], keywords);
    assert_eq!(products, vec!["cba", "abc", "aaa"]);
}

#[test]
fn keyword_inside_unmarked_token_excludes_it() {
    let parser = Parser::new("+foo,xfoo", Prefixes::default());
    let keywords = parser.parse();
    assert_eq!(keywords.positive, vec!["foo"]);
    assert_eq!(keywords.other, Vec::<String>::new());
}
