use piramid::config::execution::ExecutionMode;
use piramid::distance::DistanceMetric;
use piramid::host::Host;
use piramid::metadata::{Metadata, MetadataScalar, MetadataValue};
use piramid::quantization::QuantizedVector;
use piramid::query::{compare, compare_bytes, Filter, FilterCondition, FilterNode, Rank};
use piramid::score::Score;

/// A host that compares numbers as double-precision floats and counts how
/// often it is asked.
struct NumberHost {
    asked: std::cell::Cell<usize>,
}

fn host() -> NumberHost {
    NumberHost { asked: std::cell::Cell::new(0) }
}

impl Host for NumberHost {
    type Query = ();

    fn number_order(&self, a: &MetadataScalar, b: &MetadataScalar) -> Rank {
        self.asked.set(self.asked.get() + 1);
        let value = |v: &MetadataScalar| match v {
            MetadataScalar::Integer(i) => *i as f64,
            MetadataScalar::Float(f) => f64::from_bits(*f),
            _ => f64::NAN,
        };
        match value(a).partial_cmp(&value(b)) {
            Some(std::cmp::Ordering::Less) => Rank::Less,
            Some(std::cmp::Ordering::Equal) => Rank::Equal,
            Some(std::cmp::Ordering::Greater) => Rank::Greater,
            None => Rank::Unordered,
        }
    }

    fn now_secs(&self) -> u64 {
        0
    }

    fn query_dim(&self, _query: &()) -> usize {
        0
    }

    fn similarity(
        &self,
        _metric: DistanceMetric,
        _mode: ExecutionMode,
        _a: &QuantizedVector,
        _b: &QuantizedVector,
    ) -> Score {
        Score::new(0)
    }

    fn query_similarity(
        &self,
        _metric: DistanceMetric,
        _mode: ExecutionMode,
        _query: &(),
        _v: &QuantizedVector,
    ) -> Score {
        Score::new(0)
    }

    fn draw_layer(&self, _ml: u32) -> usize {
        0
    }

    fn mean(&self, _members: &Vec<QuantizedVector>) -> QuantizedVector {
        QuantizedVector::empty()
    }
}

fn text(s: &str) -> MetadataScalar {
    MetadataScalar::String(s.to_string())
}

fn float(x: f64) -> MetadataScalar {
    MetadataScalar::Float(x.to_bits())
}

fn book() -> Metadata {
    let mut m = Metadata::new();
    m.insert("title".to_string(), MetadataValue::String("dune".to_string()));
    m.insert("year".to_string(), MetadataValue::Integer(1965));
    m.insert("rating".to_string(), MetadataValue::Float(4.5f64.to_bits()));
    m.insert("fiction".to_string(), MetadataValue::Boolean(true));
    m.insert("sequel".to_string(), MetadataValue::Null);
    m.insert(
        "tags".to_string(),
        MetadataValue::Array(vec![text("desert"), MetadataScalar::Integer(7), float(0.5)]),
    );
    m
}

fn on(key: &str, condition: FilterCondition) -> Filter {
    Filter::field(key.to_string(), condition)
}

#[test]
fn byte_strings_rank_like_words() {
    assert_eq!(compare_bytes(b"", b""), Rank::Equal);
    assert_eq!(compare_bytes(b"", b"a"), Rank::Less);
    assert_eq!(compare_bytes(b"a", b""), Rank::Greater);
    assert_eq!(compare_bytes(b"abc", b"abd"), Rank::Less);
    assert_eq!(compare_bytes(b"abd", b"abc"), Rank::Greater);
    assert_eq!(compare_bytes(b"ab", b"abc"), Rank::Less);
    assert_eq!(compare_bytes(b"abc", b"abc"), Rank::Equal);
    assert_eq!(compare_bytes(&[0xff], &[0x00, 0x01]), Rank::Greater);
}

#[test]
fn values_rank_within_their_kind() {
    let h = host();
    let i = MetadataScalar::Integer;
    assert_eq!(compare(&i(-3), &i(2), &h), Rank::Less);
    assert_eq!(compare(&i(2), &i(2), &h), Rank::Equal);
    assert_eq!(compare(&i(i64::MAX), &i(i64::MIN), &h), Rank::Greater);
    assert_eq!(compare(&text("apple"), &text("apricot"), &h), Rank::Less);
    assert_eq!(compare(&text("b"), &text("apricot"), &h), Rank::Greater);
    assert_eq!(compare(&text("é"), &text("z"), &h), Rank::Greater);
    let b = MetadataScalar::Boolean;
    assert_eq!(compare(&b(false), &b(true), &h), Rank::Less);
    assert_eq!(compare(&b(true), &b(false), &h), Rank::Greater);
    assert_eq!(compare(&b(true), &b(true), &h), Rank::Equal);
    assert_eq!(compare(&i(1), &text("1"), &h), Rank::Unordered);
    assert_eq!(compare(&b(true), &i(1), &h), Rank::Unordered);
    assert_eq!(compare(&MetadataScalar::Null, &MetadataScalar::Null, &h), Rank::Unordered);
    assert_eq!(compare(&MetadataScalar::Null, &i(0), &h), Rank::Unordered);
    assert_eq!(compare(&float(1.0), &text("1"), &h), Rank::Unordered);
    // So far nothing took floating point.
    assert_eq!(h.asked.get(), 0);
    assert_eq!(compare(&float(1.5), &i(2), &h), Rank::Less);
    assert_eq!(compare(&i(2), &float(1.5), &h), Rank::Greater);
    assert_eq!(compare(&float(2.0), &float(2.0), &h), Rank::Equal);
    assert_eq!(compare(&float(f64::NAN), &float(2.0), &h), Rank::Unordered);
    assert_eq!(h.asked.get(), 4);
}

#[test]
fn comparisons_of_one_key() {
    let h = host();
    let m = book();
    let i = MetadataScalar::Integer;
    assert!(Filter::all().matches(&m, &h));
    assert!(on("year", FilterCondition::Eq(i(1965))).matches(&m, &h));
    assert!(!on("year", FilterCondition::Eq(i(1966))).matches(&m, &h));
    assert!(on("year", FilterCondition::Ne(i(1966))).matches(&m, &h));
    assert!(!on("year", FilterCondition::Ne(i(1965))).matches(&m, &h));
    assert!(on("year", FilterCondition::Lt(i(1966))).matches(&m, &h));
    assert!(!on("year", FilterCondition::Lt(i(1965))).matches(&m, &h));
    assert!(on("year", FilterCondition::Le(i(1965))).matches(&m, &h));
    assert!(on("year", FilterCondition::Gt(i(1964))).matches(&m, &h));
    assert!(!on("year", FilterCondition::Gt(i(1965))).matches(&m, &h));
    assert!(on("year", FilterCondition::Ge(i(1965))).matches(&m, &h));
    assert!(on("year", FilterCondition::In(vec![i(1), text("x"), i(1965)])).matches(&m, &h));
    assert!(!on("year", FilterCondition::In(vec![i(1), i(2)])).matches(&m, &h));
    assert!(!on("year", FilterCondition::In(Vec::new())).matches(&m, &h));
    assert!(on("title", FilterCondition::Eq(text("dune"))).matches(&m, &h));
    assert!(on("title", FilterCondition::Lt(text("emma"))).matches(&m, &h));
    assert!(!on("title", FilterCondition::Eq(i(1965))).matches(&m, &h));
    assert!(on("title", FilterCondition::Ne(i(1965))).matches(&m, &h));
    assert!(on("fiction", FilterCondition::Eq(MetadataScalar::Boolean(true))).matches(&m, &h));
    assert!(on("fiction", FilterCondition::Gt(MetadataScalar::Boolean(false))).matches(&m, &h));
    // Null equals null and has no order.
    assert!(on("sequel", FilterCondition::Eq(MetadataScalar::Null)).matches(&m, &h));
    assert!(!on("sequel", FilterCondition::Ne(MetadataScalar::Null)).matches(&m, &h));
    assert!(!on("sequel", FilterCondition::Le(MetadataScalar::Null)).matches(&m, &h));
    assert!(!on("sequel", FilterCondition::Ge(MetadataScalar::Null)).matches(&m, &h));
    assert!(on("sequel", FilterCondition::Exists).matches(&m, &h));
    assert!(!on("year", FilterCondition::Eq(MetadataScalar::Null)).matches(&m, &h));
    // A key that is not there meets no condition.
    assert!(!on("pages", FilterCondition::Exists).matches(&m, &h));
    assert!(!on("pages", FilterCondition::Ne(i(1))).matches(&m, &h));
    // An array meets a condition where one of its elements does.
    assert!(on("tags", FilterCondition::Eq(text("desert"))).matches(&m, &h));
    assert!(on("tags", FilterCondition::Gt(i(6))).matches(&m, &h));
    assert!(!on("tags", FilterCondition::Eq(text("sea"))).matches(&m, &h));
    assert!(on("tags", FilterCondition::Exists).matches(&m, &h));
    // None of this took floating point.
    assert_eq!(h.asked.get(), 0);
}

#[test]
fn numbers_compare_across_integers_and_floats() {
    let h = host();
    let m = book();
    assert!(on("rating", FilterCondition::Gt(MetadataScalar::Integer(4))).matches(&m, &h));
    assert!(on("rating", FilterCondition::Lt(float(4.75))).matches(&m, &h));
    assert!(on("rating", FilterCondition::Eq(float(4.5))).matches(&m, &h));
    assert!(on("year", FilterCondition::Eq(float(1965.0))).matches(&m, &h));
    assert!(on("year", FilterCondition::Le(float(1965.5))).matches(&m, &h));
    assert!(!on("rating", FilterCondition::Eq(text("4.5"))).matches(&m, &h));
    assert!(on("rating", FilterCondition::In(vec![text("x"), float(4.5)])).matches(&m, &h));
}

#[test]
fn trees_combine_their_children() {
    let h = host();
    let m = book();
    let i = MetadataScalar::Integer;
    let mut f = Filter::all();
    let old = f.push(FilterNode::Field {
        key: "year".to_string(),
        condition: FilterCondition::Lt(i(1970)),
    });
    let dull = f.push(FilterNode::Field {
        key: "fiction".to_string(),
        condition: FilterCondition::Eq(MetadataScalar::Boolean(false)),
    });
    assert_eq!((old, dull), (0, 1));
    // The last node is the root.
    assert!(!f.matches(&m, &h));
    let both = f.push(FilterNode::And(vec![old, dull]));
    assert!(!f.matches(&m, &h));
    let either = f.push(FilterNode::Or(vec![old, dull]));
    assert!(f.matches(&m, &h));
    let neither = f.push(FilterNode::Not(either));
    assert!(!f.matches(&m, &h));
    f.push(FilterNode::Not(both));
    assert!(f.matches(&m, &h));
    f.push(FilterNode::And(vec![old, either, 5]));
    assert!(f.matches(&m, &h));
    f.push(FilterNode::And(vec![old, neither]));
    assert!(!f.matches(&m, &h));
    f.push(FilterNode::And(Vec::new()));
    assert!(f.matches(&m, &h));
    f.push(FilterNode::Or(Vec::new()));
    assert!(!f.matches(&m, &h));
    // A child that does not stand before its parent counts as not holding.
    let at = f.nodes.len();
    f.push(FilterNode::Or(vec![at, at + 1]));
    assert!(!f.matches(&m, &h));
    f.push(FilterNode::And(vec![old, 99]));
    assert!(!f.matches(&m, &h));
    let here = f.nodes.len();
    f.push(FilterNode::Not(here));
    assert!(f.matches(&m, &h));
}
