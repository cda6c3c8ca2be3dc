//! Predicates over metadata: comparisons of one key's value, combined by
//! and, or and not.
//!
//! A filter is a tree laid out in an arena: every node refers to its
//! children by their place, children stand before their parents, and the
//! last node is the root. Numbers of which one is a float are compared by
//! the host; everything else is decided here.

use vstd::prelude::*;
use vstd::utf8::encode_utf8;
use crate::host::Host;
use crate::metadata::{
    lookup, scalar_views, EntryView, Metadata, MetadataScalar, MetadataValue, ScalarView,
    ValueView,
};

verus! {

/// How two values compare.
#[derive(Debug, Clone, Copy, PartialEq, Eq, Structural)]
pub enum Rank {
    Less,
    Equal,
    Greater,
    /// The values have no order: they are of different kinds, or one of
    /// them is null or not a number.
    Unordered,
}

/// One comparison of a value.
#[derive(Debug)]
pub enum FilterCondition {
    Eq(MetadataScalar),
    Ne(MetadataScalar),
    Lt(MetadataScalar),
    Le(MetadataScalar),
    Gt(MetadataScalar),
    Ge(MetadataScalar),
    /// The value equals one of these.
    In(Vec<MetadataScalar>),
    /// The key is there, whatever its value.
    Exists,
}

/// One node of a filter.
#[derive(Debug)]
pub enum FilterNode {
    /// The value of `key` meets `condition`. A key that is not there meets
    /// none.
    Field { key: String, condition: FilterCondition },
    /// All of the nodes at these places hold.
    And(Vec<usize>),
    /// One of the nodes at these places holds.
    Or(Vec<usize>),
    /// The node at this place does not hold.
    Not(usize),
}

/// A tree of predicates. The empty filter accepts everything.
#[derive(Debug)]
pub struct Filter {
    pub nodes: Vec<FilterNode>,
}

/// What a `FilterCondition` holds.
pub enum ConditionView {
    Eq(ScalarView),
    Ne(ScalarView),
    Lt(ScalarView),
    Le(ScalarView),
    Gt(ScalarView),
    Ge(ScalarView),
    In(Seq<ScalarView>),
    Exists,
}

/// What a `FilterNode` holds.
pub enum NodeView {
    Field { key: Seq<char>, condition: ConditionView },
    And(Seq<usize>),
    Or(Seq<usize>),
    Not(usize),
}

impl View for FilterCondition {
    type V = ConditionView;

    open spec fn view(&self) -> ConditionView {
        match self {
            FilterCondition::Eq(v) => ConditionView::Eq(v@),
            FilterCondition::Ne(v) => ConditionView::Ne(v@),
            FilterCondition::Lt(v) => ConditionView::Lt(v@),
            FilterCondition::Le(v) => ConditionView::Le(v@),
            FilterCondition::Gt(v) => ConditionView::Gt(v@),
            FilterCondition::Ge(v) => ConditionView::Ge(v@),
            FilterCondition::In(vs) => ConditionView::In(scalar_views(vs@)),
            FilterCondition::Exists => ConditionView::Exists,
        }
    }
}

impl View for FilterNode {
    type V = NodeView;

    open spec fn view(&self) -> NodeView {
        match self {
            FilterNode::Field { key, condition } => NodeView::Field {
                key: key@,
                condition: condition@,
            },
            FilterNode::And(c) => NodeView::And(c@),
            FilterNode::Or(c) => NodeView::Or(c@),
            FilterNode::Not(c) => NodeView::Not(*c),
        }
    }
}

impl View for Filter {
    type V = Seq<NodeView>;

    open spec fn view(&self) -> Seq<NodeView> {
        Seq::new(self.nodes@.len(), |i: int| self.nodes@[i]@)
    }
}

/// The order of two byte strings: byte by byte, a prefix before what it is
/// a prefix of.
pub open spec fn bytes_rank(a: Seq<u8>, b: Seq<u8>) -> Rank
    decreases a.len(),
{
    if a.len() == 0 {
        if b.len() == 0 {
            Rank::Equal
        } else {
            Rank::Less
        }
    } else if b.len() == 0 {
        Rank::Greater
    } else if a[0] < b[0] {
        Rank::Less
    } else if a[0] > b[0] {
        Rank::Greater
    } else {
        bytes_rank(a.drop_first(), b.drop_first())
    }
}

/// Whether comparing the two values takes floating point: both are numbers
/// and one of them is a float.
pub open spec fn needs_host(a: ScalarView, b: ScalarView) -> bool {
    ((a is Float) && (b is Float || b is Integer)) || ((a is Integer) && (b is Float))
}

/// How two values compare, where that takes no floating point: integers by
/// their value, texts by the bytes of their UTF-8 form, truth values with
/// false before true; nothing else has an order.
pub open spec fn rank_of(a: ScalarView, b: ScalarView) -> Rank {
    match (a, b) {
        (ScalarView::Integer(x), ScalarView::Integer(y)) => if x < y {
            Rank::Less
        } else if x == y {
            Rank::Equal
        } else {
            Rank::Greater
        },
        (ScalarView::Text(x), ScalarView::Text(y)) => bytes_rank(encode_utf8(x), encode_utf8(y)),
        (ScalarView::Boolean(x), ScalarView::Boolean(y)) => if x == y {
            Rank::Equal
        } else if y {
            Rank::Less
        } else {
            Rank::Greater
        },
        _ => Rank::Unordered,
    }
}

/// Whether a rank, as it came out for `a` against `b`, makes the two equal.
/// Null equals null and nothing else.
pub open spec fn equal_by(r: Rank, a: ScalarView, b: ScalarView) -> bool {
    r == Rank::Equal || (a is Null && b is Null)
}

/// Whether `v` meets a comparison with `w`, given how the two rank.
pub open spec fn meets(c: ConditionView, r: Rank, v: ScalarView) -> bool {
    match c {
        ConditionView::Eq(w) => equal_by(r, v, w),
        ConditionView::Ne(w) => !equal_by(r, v, w),
        ConditionView::Lt(_) => r == Rank::Less,
        ConditionView::Le(_) => r == Rank::Less || r == Rank::Equal,
        ConditionView::Gt(_) => r == Rank::Greater,
        ConditionView::Ge(_) => r == Rank::Greater || r == Rank::Equal,
        _ => false,
    }
}

/// The value that a comparison compares with.
pub open spec fn operand(c: ConditionView) -> Option<ScalarView> {
    match c {
        ConditionView::Eq(w) => Some(w),
        ConditionView::Ne(w) => Some(w),
        ConditionView::Lt(w) => Some(w),
        ConditionView::Le(w) => Some(w),
        ConditionView::Gt(w) => Some(w),
        ConditionView::Ge(w) => Some(w),
        _ => None,
    }
}

/// Whether a scalar meets a condition, where that is decided without
/// floating point (`None`: the host decides).
pub open spec fn scalar_meets(c: ConditionView, v: ScalarView) -> Option<bool> {
    match c {
        ConditionView::Exists => Some(true),
        ConditionView::In(ws) => if exists|k: int|
            0 <= k < ws.len() && !needs_host(v, #[trigger] ws[k]) && equal_by(
                rank_of(v, ws[k]),
                v,
                ws[k],
            ) {
            Some(true)
        } else if forall|k: int| 0 <= k < ws.len() ==> !needs_host(v, #[trigger] ws[k]) {
            Some(false)
        } else {
            None
        },
        _ => if needs_host(v, operand(c)->0) {
            None
        } else {
            Some(meets(c, rank_of(v, operand(c)->0), v))
        },
    }
}

/// Whether a value meets a condition, where that is decided without
/// floating point. An array meets a condition where one of its elements
/// does, and it is there like every other value.
pub open spec fn value_meets(c: ConditionView, v: ValueView) -> Option<bool> {
    match v {
        ValueView::Text(s) => scalar_meets(c, ScalarView::Text(s)),
        ValueView::Integer(i) => scalar_meets(c, ScalarView::Integer(i)),
        ValueView::Float(f) => scalar_meets(c, ScalarView::Float(f)),
        ValueView::Boolean(b) => scalar_meets(c, ScalarView::Boolean(b)),
        ValueView::Null => scalar_meets(c, ScalarView::Null),
        ValueView::Array(items) => if c is Exists {
            Some(true)
        } else if exists|k: int| 0 <= k < items.len() && scalar_meets(c, #[trigger] items[k]) == Some(true) {
            Some(true)
        } else if forall|k: int| 0 <= k < items.len() ==> scalar_meets(c, #[trigger] items[k]) == Some(false) {
            Some(false)
        } else {
            None
        },
    }
}

/// What the node at place `i` says of a document's metadata, where that is
/// decided without floating point. A child that does not stand before its
/// parent counts as not holding.
pub open spec fn decided_at(nodes: Seq<NodeView>, metadata: Seq<EntryView>, i: int) -> Option<bool>
    decreases i,
{
    if i < 0 || i >= nodes.len() {
        Some(false)
    } else {
        match nodes[i] {
            NodeView::Field { key, condition } => match lookup(metadata, key) {
                Some(v) => value_meets(condition, v),
                None => Some(false),
            },
            NodeView::Not(c) => if c < i {
                match decided_at(nodes, metadata, c as int) {
                    Some(b) => Some(!b),
                    None => None,
                }
            } else {
                Some(true)
            },
            NodeView::And(cs) => if exists|k: int|
                0 <= k < cs.len() && (#[trigger] cs[k] >= i || decided_at(
                    nodes,
                    metadata,
                    cs[k] as int,
                ) == Some(false)) {
                Some(false)
            } else if forall|k: int|
                0 <= k < cs.len() ==> #[trigger] cs[k] < i && decided_at(
                    nodes,
                    metadata,
                    cs[k] as int,
                ) == Some(true) {
                Some(true)
            } else {
                None
            },
            NodeView::Or(cs) => if exists|k: int|
                0 <= k < cs.len() && #[trigger] cs[k] < i && decided_at(
                    nodes,
                    metadata,
                    cs[k] as int,
                ) == Some(true) {
                Some(true)
            } else if forall|k: int|
                0 <= k < cs.len() ==> (#[trigger] cs[k] >= i || decided_at(
                    nodes,
                    metadata,
                    cs[k] as int,
                ) == Some(false)) {
                Some(false)
            } else {
                None
            },
        }
    }
}

/// What the filter says of a document's metadata, where that is decided
/// without floating point: what its root says, and yes where it is empty.
pub open spec fn decided(nodes: Seq<NodeView>, metadata: Seq<EntryView>) -> Option<bool> {
    if nodes.len() == 0 {
        Some(true)
    } else {
        decided_at(nodes, metadata, nodes.len() - 1)
    }
}

/// The order of two byte strings.
pub fn compare_bytes(a: &[u8], b: &[u8]) -> (r: Rank)
    ensures
        r == bytes_rank(a@, b@),
{
    let mut i: usize = 0;
    assert(a@.skip(0) =~= a@ && b@.skip(0) =~= b@);
    while i < a.len() && i < b.len()
        invariant
            i <= a.len(),
            i <= b.len(),
            bytes_rank(a@, b@) == bytes_rank(a@.skip(i as int), b@.skip(i as int)),
        decreases a.len() - i,
    {
        proof {
            assert(a@.skip(i as int)[0] == a@[i as int]);
            assert(b@.skip(i as int)[0] == b@[i as int]);
            assert(a@.skip(i as int).drop_first() =~= a@.skip(i + 1));
            assert(b@.skip(i as int).drop_first() =~= b@.skip(i + 1));
        }
        if a[i] < b[i] {
            return Rank::Less;
        }
        if a[i] > b[i] {
            return Rank::Greater;
        }
        i += 1;
    }
    if i < b.len() {
        Rank::Less
    } else if i < a.len() {
        Rank::Greater
    } else {
        Rank::Equal
    }
}

/// How two values compare. Numbers of which one is a float are compared by
/// the host.
pub fn compare<H: Host>(a: &MetadataScalar, b: &MetadataScalar, host: &H) -> (r: Rank)
    ensures
        !needs_host(a@, b@) ==> r == rank_of(a@, b@),
{
    match (a, b) {
        (MetadataScalar::Integer(x), MetadataScalar::Integer(y)) => {
            if *x < *y {
                Rank::Less
            } else if *x == *y {
                Rank::Equal
            } else {
                Rank::Greater
            }
        },
        (MetadataScalar::String(x), MetadataScalar::String(y)) => compare_bytes(
            x.as_str().as_bytes(),
            y.as_str().as_bytes(),
        ),
        (MetadataScalar::Boolean(x), MetadataScalar::Boolean(y)) => {
            if *x == *y {
                Rank::Equal
            } else if *y {
                Rank::Less
            } else {
                Rank::Greater
            }
        },
        (MetadataScalar::Float(_), MetadataScalar::Float(_)) => host.number_order(a, b),
        (MetadataScalar::Float(_), MetadataScalar::Integer(_)) => host.number_order(a, b),
        (MetadataScalar::Integer(_), MetadataScalar::Float(_)) => host.number_order(a, b),
        _ => Rank::Unordered,
    }
}

/// Whether the two values are equal: they rank as equal, or both are null.
fn same<H: Host>(a: &MetadataScalar, b: &MetadataScalar, host: &H) -> (r: bool)
    ensures
        !needs_host(a@, b@) ==> r == equal_by(rank_of(a@, b@), a@, b@),
{
    match (a, b) {
        (MetadataScalar::Null, MetadataScalar::Null) => true,
        _ => match compare(a, b, host) {
            Rank::Equal => true,
            _ => false,
        },
    }
}

impl FilterCondition {
    /// Whether a scalar meets the condition.
    pub fn holds_of<H: Host>(&self, v: &MetadataScalar, host: &H) -> (r: bool)
        ensures
            scalar_meets(self@, v@) matches Some(b) ==> r == b,
    {
        match self {
            FilterCondition::Exists => true,
            FilterCondition::Eq(w) => same(v, w, host),
            FilterCondition::Ne(w) => !same(v, w, host),
            FilterCondition::Lt(w) => match compare(v, w, host) {
                Rank::Less => true,
                _ => false,
            },
            FilterCondition::Le(w) => match compare(v, w, host) {
                Rank::Less => true,
                Rank::Equal => true,
                _ => false,
            },
            FilterCondition::Gt(w) => match compare(v, w, host) {
                Rank::Greater => true,
                _ => false,
            },
            FilterCondition::Ge(w) => match compare(v, w, host) {
                Rank::Greater => true,
                Rank::Equal => true,
                _ => false,
            },
            FilterCondition::In(ws) => {
                let ghost views = scalar_views(ws@);
                let mut k: usize = 0;
                while k < ws.len()
                    invariant
                        k <= ws.len(),
                        views == scalar_views(ws@),
                        self@ == ConditionView::In(views),
                        forall|j: int|
                            0 <= j < k ==> !(!needs_host(v@, #[trigger] views[j]) && equal_by(
                                rank_of(v@, views[j]),
                                v@,
                                views[j],
                            )),
                    decreases ws.len() - k,
                {
                    assert(views[k as int] == ws@[k as int]@);
                    if same(v, &ws[k], host) {
                        proof {
                            let w = views[k as int];
                            if forall|j: int| 0 <= j < views.len() ==> !needs_host(v@, #[trigger] views[j]) {
                                assert(!needs_host(v@, w));
                                assert(equal_by(rank_of(v@, w), v@, w));
                                assert(0 <= k < views.len() && !needs_host(v@, views[k as int])
                                    && equal_by(rank_of(v@, views[k as int]), v@, views[k as int]));
                            }
                            assert(scalar_meets(ConditionView::In(views), v@) != Some(false));
                        }
                        return true;
                    }
                    k += 1;
                }
                false
            },
        }
    }

    /// Whether a value meets the condition.
    pub fn holds<H: Host>(&self, value: &MetadataValue, host: &H) -> (r: bool)
        ensures
            value_meets(self@, value@) matches Some(b) ==> r == b,
    {
        if let FilterCondition::Exists = self {
            return true;
        }
        match value {
            MetadataValue::String(s) => self.holds_of(&MetadataScalar::String(s.clone()), host),
            MetadataValue::Integer(i) => self.holds_of(&MetadataScalar::Integer(*i), host),
            MetadataValue::Float(f) => self.holds_of(&MetadataScalar::Float(*f), host),
            MetadataValue::Boolean(b) => self.holds_of(&MetadataScalar::Boolean(*b), host),
            MetadataValue::Null => self.holds_of(&MetadataScalar::Null, host),
            MetadataValue::Array(items) => {
                let ghost views = scalar_views(items@);
                let mut k: usize = 0;
                while k < items.len()
                    invariant
                        k <= items.len(),
                        views == scalar_views(items@),
                        value@ == ValueView::Array(views),
                        !(self@ is Exists),
                        forall|j: int|
                            0 <= j < k ==> scalar_meets(self@, #[trigger] views[j]) != Some(true),
                    decreases items.len() - k,
                {
                    assert(views[k as int] == items@[k as int]@);
                    if self.holds_of(&items[k], host) {
                        assert(scalar_meets(self@, views[k as int]) != Some(false));
                        return true;
                    }
                    k += 1;
                }
                false
            },
        }
    }
}

impl Filter {
    /// The filter that accepts everything.
    pub fn all() -> (r: Self)
        ensures
            r@ == Seq::<NodeView>::empty(),
    {
        let r = Filter { nodes: Vec::new() };
        assert(r@ =~= Seq::<NodeView>::empty());
        r
    }

    /// The filter of one comparison.
    pub fn field(key: String, condition: FilterCondition) -> (r: Self)
        ensures
            r@ == seq![NodeView::Field { key: key@, condition: condition@ }],
    {
        let mut nodes: Vec<FilterNode> = Vec::new();
        let ghost k = key@;
        let ghost c = condition@;
        nodes.push(FilterNode::Field { key, condition });
        let r = Filter { nodes };
        assert(r@ =~= seq![NodeView::Field { key: k, condition: c }]);
        r
    }

    /// Add a node and make it the root. Returns its place.
    pub fn push(&mut self, node: FilterNode) -> (place: usize)
        ensures
            place == old(self)@.len(),
            final(self)@ == old(self)@.push(node@),
    {
        let place: usize = self.nodes.len();
        let ghost v = node@;
        self.nodes.push(node);
        assert(self@ =~= old(self)@.push(v));
        place
    }

    /// Whether a document with this metadata passes the filter. What takes
    /// no floating point is decided as `decided` says; the rest follows the
    /// host's comparisons.
    pub fn matches<H: Host>(&self, metadata: &Metadata, host: &H) -> (r: bool)
        ensures
            decided(self@, metadata@) matches Some(b) ==> r == b,
    {
        let n: usize = self.nodes.len();
        if n == 0 {
            return true;
        }
        let ghost nodes = self@;
        let mut values: Vec<bool> = Vec::new();
        let mut i: usize = 0;
        while i < n
            invariant
                i <= n,
                n == self.nodes@.len(),
                nodes == self@,
                values@.len() == i,
                forall|j: int|
                    0 <= j < i ==> (#[trigger] decided_at(nodes, metadata@, j) matches Some(b)
                        ==> values@[j] == b),
            decreases n - i,
        {
            assert(nodes[i as int] == self.nodes@[i as int]@);
            let value: bool = match &self.nodes[i] {
                FilterNode::Field { key, condition } => match metadata.get(key) {
                    Some(v) => condition.holds(v, host),
                    None => false,
                },
                FilterNode::Not(c) => if *c < i {
                    !values[*c]
                } else {
                    true
                },
                FilterNode::And(cs) => {
                    let mut all: bool = true;
                    let mut k: usize = 0;
                    while k < cs.len()
                        invariant
                            k <= cs.len(),
                            values@.len() == i,
                            all ==> forall|j: int|
                                0 <= j < k ==> #[trigger] cs@[j] < i && values@[cs@[j] as int],
                            !all ==> exists|j: int|
                                0 <= j < k && (#[trigger] cs@[j] >= i || !values@[cs@[j] as int]),
                        decreases cs.len() - k,
                    {
                        if cs[k] >= i || !values[cs[k]] {
                            all = false;
                        }
                        k += 1;
                    }
                    all
                },
                FilterNode::Or(cs) => {
                    let mut any: bool = false;
                    let mut k: usize = 0;
                    while k < cs.len()
                        invariant
                            k <= cs.len(),
                            values@.len() == i,
                            any ==> exists|j: int|
                                0 <= j < k && #[trigger] cs@[j] < i && values@[cs@[j] as int],
                            !any ==> forall|j: int|
                                0 <= j < k ==> (#[trigger] cs@[j] >= i || !values@[cs@[j] as int]),
                        decreases cs.len() - k,
                    {
                        if cs[k] < i && values[cs[k]] {
                            any = true;
                        }
                        k += 1;
                    }
                    any
                },
            };
            proof {
                lemma_node_value(nodes, metadata@, i as int, values@, value);
            }
            values.push(value);
            i += 1;
        }
        values[n - 1]
    }
}

/// A value that agrees with what the children were found to be agrees with
/// what the node is decided to be.
proof fn lemma_node_value(
    nodes: Seq<NodeView>,
    metadata: Seq<EntryView>,
    i: int,
    values: Seq<bool>,
    value: bool,
)
    requires
        0 <= i < nodes.len(),
        values.len() == i,
        forall|j: int|
            0 <= j < i ==> (#[trigger] decided_at(nodes, metadata, j) matches Some(b) ==> values[j]
                == b),
        match nodes[i] {
            NodeView::Field { key, condition } => match lookup(metadata, key) {
                Some(v) => value_meets(condition, v) matches Some(b) ==> value == b,
                None => !value,
            },
            NodeView::Not(c) => value == if c < i {
                !values[c as int]
            } else {
                true
            },
            NodeView::And(cs) => value == forall|j: int|
                0 <= j < cs.len() ==> #[trigger] cs[j] < i && values[cs[j] as int],
            NodeView::Or(cs) => value == exists|j: int|
                0 <= j < cs.len() && #[trigger] cs[j] < i && values[cs[j] as int],
        },
    ensures
        decided_at(nodes, metadata, i) matches Some(b) ==> value == b,
{
    match nodes[i] {
        NodeView::And(cs) => {
            if decided_at(nodes, metadata, i) == Some(false) {
                let k = choose|k: int|
                    0 <= k < cs.len() && (#[trigger] cs[k] >= i || decided_at(
                        nodes,
                        metadata,
                        cs[k] as int,
                    ) == Some(false));
                if cs[k] < i {
                    assert(decided_at(nodes, metadata, cs[k] as int) == Some(false));
                    assert(!values[cs[k] as int]);
                }
            } else if decided_at(nodes, metadata, i) == Some(true) {
                assert forall|j: int| 0 <= j < cs.len() implies #[trigger] cs[j] < i && values[cs[j] as int] by {
                    assert(decided_at(nodes, metadata, cs[j] as int) == Some(true));
                }
            }
        },
        NodeView::Or(cs) => {
            if decided_at(nodes, metadata, i) == Some(true) {
                let k = choose|k: int|
                    0 <= k < cs.len() && #[trigger] cs[k] < i && decided_at(
                        nodes,
                        metadata,
                        cs[k] as int,
                    ) == Some(true);
                assert(values[cs[k] as int]);
            } else if decided_at(nodes, metadata, i) == Some(false) {
                assert forall|j: int| 0 <= j < cs.len() && #[trigger] cs[j] < i implies !values[cs[j] as int] by {
                    assert(decided_at(nodes, metadata, cs[j] as int) == Some(false));
                }
            }
        },
        NodeView::Not(c) => {
            if c < i {
                assert(decided_at(nodes, metadata, c as int) is Some ==> values[c as int]
                    == decided_at(nodes, metadata, c as int)->0);
            }
        },
        _ => {},
    }
}

} // verus!
