use free_shipping_over_50::document::{same_text, Entry, Node};
use free_shipping_over_50::evaluator::{
    decide, default_candidate_paths, evaluate, extract_amount, free_shipping_decision, read_terminal,
    AmountUnit, CandidatePath, ExtractError, MonetaryAmount, ThresholdDecision, FREE_SHIPPING_THRESHOLD,
};

fn obj(entries: Vec<(&str, Node)>) -> Node {
    Node::Object(entries.into_iter().map(|(k, v)| Entry { key: k.to_string(), value: v }).collect())
}

fn text(s: &str) -> Node {
    Node::Text(s.to_string())
}

fn path(keys: &[&str], unit: AmountUnit) -> CandidatePath {
    CandidatePath { keys: keys.iter().map(|k| k.to_string()).collect(), unit }
}

fn cart_document(amount: &str, currency: &str) -> Node {
    obj(vec![(
        "cart",
        obj(vec![(
            "cost",
            obj(vec![("subtotalAmount", obj(vec![("amount", text(amount)), ("currencyCode", text(currency))]))]),
        )]),
    )])
}

fn amount(minor_units: i64, code: &str) -> MonetaryAmount {
    MonetaryAmount { minor_units, currency_code: code.to_string() }
}

#[test]
fn threshold_boundary() {
    let at = evaluate(&amount(5000, "USD"), 5000);
    assert_eq!(at, ThresholdDecision { met: true, currency_code: "USD".to_string() });
    let below = evaluate(&amount(4999, "USD"), 5000);
    assert_eq!(below, ThresholdDecision { met: false, currency_code: "USD".to_string() });
    assert!(evaluate(&amount(-100, "CAD"), -100).met);
    assert_eq!(evaluate(&amount(7, "CAD"), 0).currency_code, "CAD");
}

#[test]
fn falls_back_to_the_second_path() {
    let doc = obj(vec![("checkout", obj(vec![("totalPriceV2", obj(vec![("amount", text("61.20"))]))]))]);
    let paths = vec![
        path(&["cart", "cost", "subtotalAmount", "amount"], AmountUnit::Major),
        path(&["checkout", "totalPriceV2", "amount"], AmountUnit::Major),
    ];
    assert_eq!(extract_amount(&doc, &paths), Ok(amount(6120, "USD")));
}

#[test]
fn first_readable_path_wins() {
    let doc = obj(vec![
        ("a", obj(vec![("amount", text("1.00")), ("currencyCode", text("EUR"))])),
        ("b", obj(vec![("amount", text("2.00")), ("currencyCode", text("GBP"))])),
    ]);
    let paths = vec![path(&["b", "amount"], AmountUnit::Major), path(&["a", "amount"], AmountUnit::Major)];
    assert_eq!(extract_amount(&doc, &paths), Ok(amount(200, "GBP")));
}

#[test]
fn unreadable_value_is_a_parse_failure() {
    let doc = cart_document("not a number", "USD");
    let paths = default_candidate_paths();
    assert_eq!(extract_amount(&doc, &paths), Err(ExtractError::ParseFailure));
    let nested = obj(vec![("cart", obj(vec![("subtotalPriceV2", obj(vec![("amount", obj(vec![]))]))]))]);
    assert_eq!(extract_amount(&nested, &paths), Err(ExtractError::ParseFailure));
}

#[test]
fn unreadable_value_yields_to_a_later_readable_one() {
    let doc = obj(vec![
        ("cart", obj(vec![("subtotalPriceV2", obj(vec![("amount", text("n/a"))]))])),
        ("checkout", obj(vec![("totalPriceV2", obj(vec![("amount", text("75.00"))]))])),
    ]);
    assert_eq!(extract_amount(&doc, &default_candidate_paths()), Ok(amount(7500, "USD")));
}

#[test]
fn missing_paths_are_not_found() {
    let empty = obj(vec![]);
    assert_eq!(extract_amount(&empty, &default_candidate_paths()), Err(ExtractError::NotFound));
    let other = obj(vec![("cart", obj(vec![("lines", Node::Other)]))]);
    assert_eq!(extract_amount(&other, &default_candidate_paths()), Err(ExtractError::NotFound));
    assert_eq!(extract_amount(&cart_document("50.00", "USD"), &vec![]), Err(ExtractError::NotFound));
}

#[test]
fn numbers_follow_the_declared_unit() {
    let doc = obj(vec![("total", Node::Number("52.34".to_string())), ("cents", Node::Number("5234".to_string()))]);
    let major = vec![path(&["total"], AmountUnit::Major)];
    assert_eq!(extract_amount(&doc, &major), Ok(amount(5234, "USD")));
    let minor = vec![path(&["cents"], AmountUnit::Minor)];
    assert_eq!(extract_amount(&doc, &minor), Ok(amount(5234, "USD")));
    let fractional_minor = vec![path(&["total"], AmountUnit::Minor)];
    assert_eq!(extract_amount(&doc, &fractional_minor), Err(ExtractError::ParseFailure));
}

#[test]
fn reads_terminal_values() {
    assert_eq!(read_terminal(&text("3.5"), AmountUnit::Minor), Some(350));
    assert_eq!(read_terminal(&Node::Number("3".to_string()), AmountUnit::Minor), Some(3));
    assert_eq!(read_terminal(&Node::Number("3".to_string()), AmountUnit::Major), Some(300));
    assert_eq!(read_terminal(&Node::Other, AmountUnit::Major), None);
    assert_eq!(read_terminal(&obj(vec![]), AmountUnit::Major), None);
}

#[test]
fn looks_up_keys() {
    let doc = obj(vec![("a", text("1")), ("a", text("2")), ("b", obj(vec![("c", text("3"))]))]);
    assert!(matches!(doc.get("a"), Some(Node::Text(t)) if t == "1"));
    assert!(doc.get("z").is_none());
    assert!(text("x").get("a").is_none());
    let keys = vec!["b".to_string(), "c".to_string()];
    assert!(matches!(doc.resolve(&keys, 2), Some(Node::Text(t)) if t == "3"));
    assert!(matches!(doc.resolve(&keys, 1), Some(Node::Object(_))));
    assert!(matches!(doc.resolve(&keys, 0), Some(Node::Object(es)) if es.len() == 3));
    let missing = vec!["x".to_string(), "c".to_string()];
    assert!(doc.resolve(&missing, 2).is_none());
    assert!(same_text("abc", "abc"));
    assert!(!same_text("abc", "abd"));
    assert!(!same_text("ab", "abc"));
}

#[test]
fn end_to_end_threshold_met() {
    let doc = cart_document("50.00", "USD");
    assert_eq!(free_shipping_decision(&doc), Ok(ThresholdDecision { met: true, currency_code: "USD".to_string() }));
}

#[test]
fn end_to_end_threshold_not_met() {
    let doc = cart_document("49.99", "EUR");
    assert_eq!(free_shipping_decision(&doc), Ok(ThresholdDecision { met: false, currency_code: "EUR".to_string() }));
}

#[test]
fn end_to_end_not_found() {
    let doc = obj(vec![]);
    assert_eq!(free_shipping_decision(&doc), Err(ExtractError::NotFound));
}

#[test]
fn currency_defaults_when_absent() {
    let doc = obj(vec![("cart", obj(vec![("subtotalPriceV2", obj(vec![("amount", text("80.00"))]))]))]);
    assert_eq!(free_shipping_decision(&doc), Ok(ThresholdDecision { met: true, currency_code: "USD".to_string() }));
    let coded = obj(vec![("cart", obj(vec![("subtotalPriceV2", obj(vec![("amount", text("80.00")), ("currencyCode", Node::Other)]))]))]);
    assert_eq!(free_shipping_decision(&coded), Ok(ThresholdDecision { met: true, currency_code: "USD".to_string() }));
}

#[test]
fn decide_uses_the_given_threshold() {
    let doc = cart_document("10.00", "JPY");
    let paths = default_candidate_paths();
    assert_eq!(decide(&doc, &paths, 1000), Ok(ThresholdDecision { met: true, currency_code: "JPY".to_string() }));
    assert_eq!(decide(&doc, &paths, 1001), Ok(ThresholdDecision { met: false, currency_code: "JPY".to_string() }));
    assert_eq!(FREE_SHIPPING_THRESHOLD, 5000);
}

#[test]
fn default_paths_are_in_order() {
    let paths = default_candidate_paths();
    assert_eq!(paths.len(), 4);
    assert_eq!(paths[0].keys, vec!["cart", "cost", "subtotalAmount", "amount"]);
    assert_eq!(paths[1].keys, vec!["cart", "subtotalPriceV2", "amount"]);
    assert_eq!(paths[2].keys, vec!["checkout", "subtotalPriceV2", "amount"]);
    assert_eq!(paths[3].keys, vec!["checkout", "totalPriceV2", "amount"]);
    assert!(paths.iter().all(|p| p.unit == AmountUnit::Major));
}
