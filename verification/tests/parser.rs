use kwp::{Parser, Prefixes};

fn plus_minus() -> Prefixes {
    Prefixes {
        positive: String::from("+"),
        negative: String::from("-"),
    }
}

#[test]
fn lib_basic_text() {
    let parser = Parser::new("+foo,-bar,+baz", plus_minus());
    let keywords = parser.parse();
    assert_eq!(keywords.positive, vec!["foo", "baz"]);
    assert_eq!(keywords.negative, vec!["bar"]);
}

#[test]
fn lib_do_not_retain_prefix() {
    let mut parser = Parser::new("+foo,-bar,+baz", plus_minus());
    parser.should_retain_prefix(false);

    let keywords = parser.parse();
    assert_eq!(keywords.positive, vec!["foo", "baz"]);
    assert_eq!(keywords.negative, vec!["bar"]);
}

#[test]
fn lib_weird_prefixes() {
    let parser = Parser::new(
        "yes!!foo,no!!bar,yes!!baz",
        Prefixes {
            positive: String::from("yes!!"),
            negative: String::from("no!!"),
        },
    );
    let keywords = parser.parse();
    assert_eq!(keywords.positive, vec!["foo", "baz"]);
    assert_eq!(keywords.negative, vec!["bar"]);
}

#[test]
fn lib_unparsed() {
    let parser = Parser::new("+foo,-bar,+baz,bak", plus_minus());
    let keywords = parser.parse();
    assert_eq!(keywords.other, vec!["bak"]);
}

#[test]
fn lib_basic_products() {
    let products = vec!["MyProduct Adult", "MyProduct Youth"];
    let parser = Parser::new("+myproduct,-youth", plus_minus());
    let keywords = parser.parse();
    let products = parser.match_products(products.clone(), keywords.clone());
    assert_eq!(products, vec!["MyProduct Adult"]);
}
