use vstd::prelude::*;

use crate::decimal::{integer_of, minor_units_of, parse_decimal_string, parse_minor_units};
use crate::document::{key_views, lookup, Node};

verus! {

/// How a numeric value found at a path is to be read.
#[derive(Clone, Copy, PartialEq, Eq, Debug)]
pub enum AmountUnit {
    /// The number is in major units (dollars): 52.34 means 5234 minor units.
    Major,
    /// The number is already in minor units (cents): 5234 means 5234.
    Minor,
}

/// A place where an amount may stand: the keys that lead to it, and the
/// unit of a number found there. The currency code is read beside it, under
/// the key "currencyCode" of the same object.
pub struct CandidatePath {
    pub keys: Vec<String>,
    pub unit: AmountUnit,
}

/// An exact amount in minor currency units with its currency code.
#[derive(PartialEq, Eq, Debug)]
pub struct MonetaryAmount {
    pub minor_units: i64,
    pub currency_code: String,
}

/// Whether an amount reached the threshold, and the currency in which any
/// zero price built from this decision is to be written.
#[derive(PartialEq, Eq, Debug)]
pub struct ThresholdDecision {
    pub met: bool,
    pub currency_code: String,
}

/// Why no amount could be had from a document.
#[derive(Clone, Copy, PartialEq, Eq, Debug)]
pub enum ExtractError {
    /// No candidate path leads to a value.
    NotFound,
    /// Some path leads to a value, but none of those values reads as money.
    ParseFailure,
}

/// The amount in minor units that a node found at a path holds.
pub open spec fn terminal_amount(n: Node, unit: AmountUnit) -> Option<int> {
    match n {
        Node::Text(t) => minor_units_of(t@),
        Node::Number(t) => match unit {
            AmountUnit::Major => minor_units_of(t@),
            AmountUnit::Minor => integer_of(t@),
        },
        _ => None,
    }
}

/// The path of the object that holds the amount at `path`.
pub open spec fn parent_path(path: Seq<Seq<char>>) -> Seq<Seq<char>> {
    if path.len() == 0 {
        path
    } else {
        path.drop_last()
    }
}

/// The currency code beside the amount at `path`; "USD" where there is no
/// text under "currencyCode".
pub open spec fn currency_at(doc: Node, path: Seq<Seq<char>>) -> Seq<char> {
    match lookup(doc, parent_path(path).push("currencyCode"@)) {
        Some(Node::Text(t)) => t@,
        _ => "USD"@,
    }
}

/// A candidate path as the keys it follows and the unit it declares.
pub open spec fn path_model(p: CandidatePath) -> (Seq<Seq<char>>, AmountUnit) {
    (key_views(p.keys@), p.unit)
}

/// The models of a sequence of candidate paths.
pub open spec fn path_models(paths: Seq<CandidatePath>) -> Seq<(Seq<Seq<char>>, AmountUnit)> {
    paths.map_values(|p: CandidatePath| path_model(p))
}

/// The amount and currency that the first readable candidate path gives;
/// `ParseFailure` where some path leads to a value but none reads as money,
/// `NotFound` where no path leads anywhere.
pub open spec fn extraction(doc: Node, paths: Seq<(Seq<Seq<char>>, AmountUnit)>) -> Result<
    (int, Seq<char>),
    ExtractError,
>
    decreases paths.len(),
{
    if paths.len() == 0 {
        Err(ExtractError::NotFound)
    } else {
        let (path, unit) = paths[0];
        let rest = extraction(doc, paths.drop_first());
        match lookup(doc, path) {
            None => rest,
            Some(t) => match terminal_amount(t, unit) {
                Some(v) => Ok((v, currency_at(doc, path))),
                None => match rest {
                    Ok(found) => Ok(found),
                    Err(_) => Err(ExtractError::ParseFailure),
                },
            },
        }
    }
}

/// What comes of the paths after some were tried: `unreadable` tells
/// whether a tried path led to a value that did not read as money.
pub open spec fn after_tried(unreadable: bool, rest: Result<(int, Seq<char>), ExtractError>) -> Result<
    (int, Seq<char>),
    ExtractError,
> {
    match rest {
        Ok(found) => Ok(found),
        Err(e) => if unreadable {
            Err(ExtractError::ParseFailure)
        } else {
            Err(e)
        },
    }
}

/// Reads the amount in minor units held by a node found at a path.
pub fn read_terminal(n: &Node, unit: AmountUnit) -> (r: Option<i64>)
    ensures
        match r {
            Some(v) => terminal_amount(*n, unit) == Some(v as int),
            None => terminal_amount(*n, unit) is None,
        },
{
    match n {
        Node::Text(t) => parse_decimal_string(t.as_str()),
        Node::Number(t) => match unit {
            AmountUnit::Major => parse_decimal_string(t.as_str()),
            AmountUnit::Minor => parse_minor_units(t.as_str()),
        },
        _ => None,
    }
}

/// The currency code beside the amount that `keys` lead to.
fn currency_beside(doc: &Node, keys: &Vec<String>) -> (r: String)
    ensures
        r@ == currency_at(*doc, key_views(keys@)),
{
    let n = keys.len();
    let upto: usize = if n == 0 { 0 } else { n - 1 };
    let ghost path = key_views(keys@);
    assert(path.take(upto as int) =~= parent_path(path));
    let parent = doc.resolve(keys, upto);
    let code = "currencyCode";
    let found = match parent {
        Some(p) => p.get(code),
        None => None,
    };
    proof {
        let pp = parent_path(path);
        assert(pp.push(code@).drop_last() =~= pp);
    }
    match found {
        Some(Node::Text(t)) => t.clone(),
        _ => String::from_str("USD"),
    }
}

/// Tries each candidate path in order and returns the first amount that
/// reads as money, with the currency code found beside it.
pub fn extract_amount(doc: &Node, paths: &Vec<CandidatePath>) -> (r: Result<MonetaryAmount, ExtractError>)
    ensures
        match r {
            Ok(a) => extraction(*doc, path_models(paths@)) == Ok::<(int, Seq<char>), ExtractError>(
                (a.minor_units as int, a.currency_code@),
            ),
            Err(e) => extraction(*doc, path_models(paths@)) == Err::<(int, Seq<char>), ExtractError>(e),
        },
{
    let n = paths.len();
    let mut i: usize = 0;
    let mut unreadable = false;
    assert(path_models(paths@).skip(0) =~= path_models(paths@));
    while i < n
        invariant
            n == paths@.len(),
            i <= n,
            extraction(*doc, path_models(paths@)) == after_tried(
                unreadable,
                extraction(*doc, path_models(paths@).skip(i as int)),
            ),
        decreases n - i,
    {
        let ghost rest = path_models(paths@).skip(i as int);
        assert(rest.drop_first() =~= path_models(paths@).skip(i as int + 1));
        assert(rest[0] == path_model(paths@[i as int]));
        let p = &paths[i];
        let keys_len = p.keys.len();
        assert(key_views(p.keys@).take(keys_len as int) =~= key_views(p.keys@));
        match doc.resolve(&p.keys, keys_len) {
            None => {},
            Some(t) => match read_terminal(t, p.unit) {
                Some(v) => {
                    let code = currency_beside(doc, &p.keys);
                    return Ok(MonetaryAmount { minor_units: v, currency_code: code });
                },
                None => {
                    unreadable = true;
                },
            },
        }
        i = i + 1;
    }
    if unreadable {
        Err(ExtractError::ParseFailure)
    } else {
        Err(ExtractError::NotFound)
    }
}

/// Compares an amount with a threshold in minor units: met when the amount
/// is at least the threshold. The decision keeps the amount's currency.
pub fn evaluate(amount: &MonetaryAmount, threshold: i64) -> (r: ThresholdDecision)
    ensures
        r.met == (amount.minor_units >= threshold),
        r.currency_code@ == amount.currency_code@,
{
    ThresholdDecision { met: amount.minor_units >= threshold, currency_code: amount.currency_code.clone() }
}

/// Extracts the amount from a document and compares it with the threshold.
pub fn decide(doc: &Node, paths: &Vec<CandidatePath>, threshold: i64) -> (r: Result<ThresholdDecision, ExtractError>)
    ensures
        match extraction(*doc, path_models(paths@)) {
            Ok((v, code)) => r matches Ok(d) && d.met == (v >= threshold) && d.currency_code@ == code,
            Err(e) => r == Err::<ThresholdDecision, ExtractError>(e),
        },
{
    match extract_amount(doc, paths) {
        Ok(a) => Ok(evaluate(&a, threshold)),
        Err(e) => Err(e),
    }
}

/// The cart subtotal, in minor currency units, from which shipping is free.
pub const FREE_SHIPPING_THRESHOLD: i64 = 5000;

/// The places where a cart or checkout subtotal is looked for, in order,
/// each holding an amount in major units.
pub open spec fn default_path_models() -> Seq<(Seq<Seq<char>>, AmountUnit)> {
    seq![
        (seq!["cart"@, "cost"@, "subtotalAmount"@, "amount"@], AmountUnit::Major),
        (seq!["cart"@, "subtotalPriceV2"@, "amount"@], AmountUnit::Major),
        (seq!["checkout"@, "subtotalPriceV2"@, "amount"@], AmountUnit::Major),
        (seq!["checkout"@, "totalPriceV2"@, "amount"@], AmountUnit::Major),
    ]
}

/// The keys of a path, as owned strings.
fn key_path(parts: Vec<&str>) -> (r: Vec<String>)
    ensures
        key_views(r@) == parts@.map_values(|p: &str| p@),
{
    let mut out: Vec<String> = Vec::new();
    let mut i: usize = 0;
    while i < parts.len()
        invariant
            i <= parts@.len(),
            key_views(out@) =~= parts@.take(i as int).map_values(|p: &str| p@),
        decreases parts@.len() - i,
    {
        let ghost before = out@;
        out.push(String::from_str(parts[i]));
        proof {
            assert(key_views(out@) =~= key_views(before).push(parts@[i as int]@));
            assert(parts@.take(i as int + 1).map_values(|p: &str| p@) =~= parts@.take(i as int).map_values(
                |p: &str| p@,
            ).push(parts@[i as int]@));
        }
        i = i + 1;
    }
    assert(parts@.take(parts@.len() as int) =~= parts@);
    out
}

/// The candidate paths of a cart or checkout subtotal, all in major units.
pub fn default_candidate_paths() -> (r: Vec<CandidatePath>)
    ensures
        path_models(r@) == default_path_models(),
{
    let a = key_path(vec!["cart", "cost", "subtotalAmount", "amount"]);
    let b = key_path(vec!["cart", "subtotalPriceV2", "amount"]);
    let c = key_path(vec!["checkout", "subtotalPriceV2", "amount"]);
    let d = key_path(vec!["checkout", "totalPriceV2", "amount"]);
    let r = vec![
        CandidatePath { keys: a, unit: AmountUnit::Major },
        CandidatePath { keys: b, unit: AmountUnit::Major },
        CandidatePath { keys: c, unit: AmountUnit::Major },
        CandidatePath { keys: d, unit: AmountUnit::Major },
    ];
    assert(key_views(r@[0].keys@) =~= default_path_models()[0].0);
    assert(key_views(r@[1].keys@) =~= default_path_models()[1].0);
    assert(key_views(r@[2].keys@) =~= default_path_models()[2].0);
    assert(key_views(r@[3].keys@) =~= default_path_models()[3].0);
    assert(path_models(r@) =~= default_path_models());
    r
}

/// Decides free shipping for a cart or checkout document: the subtotal
/// found at the default paths against the free-shipping threshold.
pub fn free_shipping_decision(doc: &Node) -> (r: Result<ThresholdDecision, ExtractError>)
    ensures
        match extraction(*doc, default_path_models()) {
            Ok((v, code)) => r matches Ok(d) && d.met == (v >= FREE_SHIPPING_THRESHOLD) && d.currency_code@ == code,
            Err(e) => r == Err::<ThresholdDecision, ExtractError>(e),
        },
{
    let paths = default_candidate_paths();
    decide(doc, &paths, FREE_SHIPPING_THRESHOLD)
}

/// Whether a candidate path leads to a value in `doc`.
pub open spec fn path_found(doc: Node, p: (Seq<Seq<char>>, AmountUnit)) -> bool {
    lookup(doc, p.0) is Some
}

/// Whether a candidate path leads to a value in `doc` that reads as money.
pub open spec fn path_readable(doc: Node, p: (Seq<Seq<char>>, AmountUnit)) -> bool {
    match lookup(doc, p.0) {
        Some(t) => terminal_amount(t, p.1) is Some,
        None => false,
    }
}

/// Where the first candidate path is missing from a document and the second
/// leads to a readable amount, that amount is the one extracted.
pub proof fn lemma_path_fallback(doc: Node, paths: Seq<(Seq<Seq<char>>, AmountUnit)>)
    requires
        paths.len() >= 2,
        !path_found(doc, paths[0]),
        path_readable(doc, paths[1]),
    ensures
        extraction(doc, paths) == Ok::<(int, Seq<char>), ExtractError>(
            (terminal_amount(lookup(doc, paths[1].0).unwrap(), paths[1].1).unwrap(), currency_at(doc, paths[1].0)),
        ),
{
    let rest = paths.drop_first();
    assert(rest[0] == paths[1]);
    assert(extraction(doc, paths) == extraction(doc, rest));
    let t = lookup(doc, paths[1].0).unwrap();
    assert(extraction(doc, rest) == Ok::<(int, Seq<char>), ExtractError>(
        (terminal_amount(t, paths[1].1).unwrap(), currency_at(doc, paths[1].0)),
    ));
}

/// Where no candidate path leads to a value, the outcome is `NotFound`.
pub proof fn lemma_nothing_found(doc: Node, paths: Seq<(Seq<Seq<char>>, AmountUnit)>)
    requires
        forall|i: int| 0 <= i < paths.len() ==> !path_found(doc, #[trigger] paths[i]),
    ensures
        extraction(doc, paths) == Err::<(int, Seq<char>), ExtractError>(ExtractError::NotFound),
    decreases paths.len(),
{
    if paths.len() > 0 {
        assert(!path_found(doc, paths[0]));
        assert forall|i: int| 0 <= i < paths.drop_first().len() implies !path_found(
            doc,
            #[trigger] paths.drop_first()[i],
        ) by {
            assert(paths.drop_first()[i] == paths[i + 1]);
        }
        lemma_nothing_found(doc, paths.drop_first());
    }
}

/// Where some candidate path leads to a value but no path leads to one that
/// reads as money, the outcome is `ParseFailure`, not `NotFound`.
pub proof fn lemma_unreadable_is_parse_failure(doc: Node, paths: Seq<(Seq<Seq<char>>, AmountUnit)>, k: int)
    requires
        0 <= k < paths.len(),
        path_found(doc, paths[k]),
        forall|i: int| 0 <= i < paths.len() ==> !path_readable(doc, #[trigger] paths[i]),
    ensures
        extraction(doc, paths) == Err::<(int, Seq<char>), ExtractError>(ExtractError::ParseFailure),
    decreases paths.len(),
{
    let rest = paths.drop_first();
    assert(!path_readable(doc, paths[0]));
    assert forall|i: int| 0 <= i < rest.len() implies !path_readable(doc, #[trigger] rest[i]) by {
        assert(rest[i] == paths[i + 1]);
    }
    if k > 0 {
        assert(rest[k - 1] == paths[k]);
        lemma_unreadable_is_parse_failure(doc, rest, k - 1);
    } else {
        lemma_no_amount(doc, rest);
    }
}

/// Where no candidate path leads to a value that reads as money, no amount
/// is extracted.
pub proof fn lemma_no_amount(doc: Node, paths: Seq<(Seq<Seq<char>>, AmountUnit)>)
    requires
        forall|i: int| 0 <= i < paths.len() ==> !path_readable(doc, #[trigger] paths[i]),
    ensures
        extraction(doc, paths) is Err,
    decreases paths.len(),
{
    if paths.len() > 0 {
        let rest = paths.drop_first();
        assert(!path_readable(doc, paths[0]));
        assert forall|i: int| 0 <= i < rest.len() implies !path_readable(doc, #[trigger] rest[i]) by {
            assert(rest[i] == paths[i + 1]);
        }
        lemma_no_amount(doc, rest);
    }
}

} // verus!
