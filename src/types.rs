//! Nodes, edges, their properties, and the error of a failed search.

use vstd::prelude::*;


verus! {

/// A property value attached to a node, an edge or a graph.
#[derive(Debug, Clone, PartialEq, Eq, Hash)]
pub enum PropertyValue {
    String(String),
    Integer(i64),
    Boolean(bool),
}

impl PropertyValue {
    /// A copy of this value.
    pub fn copied(&self) -> (r: PropertyValue)
        ensures
            r == *self,
    {
        match self {
            PropertyValue::String(s) => PropertyValue::String(s.clone()),
            PropertyValue::Integer(i) => PropertyValue::Integer(*i),
            PropertyValue::Boolean(b) => PropertyValue::Boolean(*b),
        }
    }
}

/// Named properties, in insertion order; the first entry for a name governs.
pub type Properties = Vec<(String, PropertyValue)>;

/// A copy of a property list.
pub fn copy_properties(p: &Properties) -> (r: Properties)
    ensures
        r@ == p@,
{
    let mut r: Properties = Vec::new();
    let mut i: usize = 0;
    while i < p.len()
        invariant
            i <= p.len(),
            r@ == p@.subrange(0, i as int),
        decreases p.len() - i,
    {
        let entry = (p[i].0.clone(), p[i].1.copied());
        r.push(entry);
        i = i + 1;
        assert(r@ =~= p@.subrange(0, i as int));
    }
    assert(p@.subrange(0, p.len() as int) =~= p@);
    r
}

/// The value that the first entry named `name` holds.
pub open spec fn property_lookup(props: Seq<(String, PropertyValue)>, name: Seq<char>) -> Option<
    PropertyValue,
>
    decreases props.len(),
{
    if props.len() == 0 {
        None
    } else if props[0].0@ == name {
        Some(props[0].1)
    } else {
        property_lookup(props.drop_first(), name)
    }
}

/// The name of the property that scales an edge's length into its weight.
pub open spec fn cost_per_unit_name() -> Seq<char> {
    seq!['c', 'o', 's', 't', '_', 'p', 'e', 'r', '_', 'u', 'n', 'i', 't']
}

/// An edge's cost per unit of length: its `cost_per_unit` property where
/// that is an integer, else 1.
pub open spec fn cost_per_unit_spec(props: Seq<(String, PropertyValue)>) -> int {
    match property_lookup(props, cost_per_unit_name()) {
        Some(PropertyValue::Integer(c)) => c as int,
        _ => 1,
    }
}

fn is_cost_per_unit_name(s: &String) -> (r: bool)
    ensures
        r == (s@ == cost_per_unit_name()),
{
    let name = "cost_per_unit".to_owned();
    proof {
        reveal_strlit("cost_per_unit");
        assert(name@ =~= cost_per_unit_name());
    }
    *s == name
}

/// The cost per unit of length that a property list gives.
pub fn cost_per_unit(props: &Properties) -> (r: i64)
    ensures
        r == cost_per_unit_spec(props@),
{
    let mut i: usize = 0;
    assert(props@.subrange(0, props.len() as int) =~= props@);
    while i < props.len()
        invariant
            i <= props.len(),
            property_lookup(props@, cost_per_unit_name()) == property_lookup(
                props@.subrange(i as int, props.len() as int),
                cost_per_unit_name(),
            ),
        decreases props.len() - i,
    {
        let ghost rest = props@.subrange(i as int, props.len() as int);
        assert(rest.drop_first() =~= props@.subrange(i + 1, props.len() as int));
        if is_cost_per_unit_name(&props[i].0) {
            return match &props[i].1 {
                PropertyValue::Integer(c) => *c,
                _ => 1,
            };
        }
        i = i + 1;
    }
    1
}

/// Two coordinate vectors are equal, component by component.
pub fn same_coordinates(a: &Vec<i64>, b: &Vec<i64>) -> (r: bool)
    ensures
        r == (a@ == b@),
{
    if a.len() != b.len() {
        return false;
    }
    let mut i: usize = 0;
    while i < a.len()
        invariant
            a.len() == b.len(),
            i <= a.len(),
            forall|j: int| 0 <= j < i ==> a@[j] == b@[j],
        decreases a.len() - i,
    {
        if a[i] != b[i] {
            return false;
        }
        i = i + 1;
    }
    assert(a@ =~= b@);
    true
}

/// A copy of a coordinate vector.
pub fn copy_coordinates(a: &Vec<i64>) -> (r: Vec<i64>)
    ensures
        r@ == a@,
{
    let mut r: Vec<i64> = Vec::new();
    let mut i: usize = 0;
    while i < a.len()
        invariant
            i <= a.len(),
            r@ == a@.subrange(0, i as int),
        decreases a.len() - i,
    {
        r.push(a[i]);
        i = i + 1;
        assert(r@ =~= a@.subrange(0, i as int));
    }
    assert(a@.subrange(0, a.len() as int) =~= a@);
    r
}

/// A point in n-dimensional integer coordinate space, with named properties.
/// Two nodes are equal when their coordinates are equal exactly; properties
/// do not take part.
#[derive(Debug, Clone)]
pub struct Node {
    pub coordinates: Vec<i64>,
    pub properties: Properties,
}

impl Node {
    pub fn new(coordinates: Vec<i64>, properties: Properties) -> (r: Node)
        ensures
            r.coordinates@ == coordinates@,
            r.properties@ == properties@,
    {
        Node { coordinates, properties }
    }

    /// Both nodes hold the same coordinates and properties.
    pub open spec fn same(&self, o: &Node) -> bool {
        self.coordinates@ == o.coordinates@ && self.properties@ == o.properties@
    }

    /// A copy of this node.
    pub fn copied(&self) -> (r: Node)
        ensures
            r.same(self),
    {
        Node { coordinates: copy_coordinates(&self.coordinates), properties: copy_properties(&self.properties) }
    }
}

impl PartialEq for Node {
    fn eq(&self, other: &Node) -> (r: bool) {
        same_coordinates(&self.coordinates, &other.coordinates)
    }
}

impl vstd::std_specs::cmp::PartialEqSpecImpl for Node {
    open spec fn obeys_eq_spec() -> bool {
        true
    }

    open spec fn eq_spec(&self, o: &Node) -> bool {
        self.coordinates@ == o.coordinates@
    }
}

impl Eq for Node {}

/// The lexicographic order of coordinate vectors; a proper prefix comes
/// first.
pub open spec fn lex_cmp(a: Seq<i64>, b: Seq<i64>) -> std::cmp::Ordering
    decreases a.len(),
{
    if a.len() == 0 {
        if b.len() == 0 {
            std::cmp::Ordering::Equal
        } else {
            std::cmp::Ordering::Less
        }
    } else if b.len() == 0 {
        std::cmp::Ordering::Greater
    } else if a[0] < b[0] {
        std::cmp::Ordering::Less
    } else if a[0] > b[0] {
        std::cmp::Ordering::Greater
    } else {
        lex_cmp(a.drop_first(), b.drop_first())
    }
}

/// Compares two coordinate vectors lexicographically.
pub fn compare_coordinates(a: &Vec<i64>, b: &Vec<i64>) -> (r: std::cmp::Ordering)
    ensures
        r == lex_cmp(a@, b@),
{
    let mut i: usize = 0;
    assert(a@.subrange(0, a.len() as int) =~= a@);
    assert(b@.subrange(0, b.len() as int) =~= b@);
    while i < a.len() && i < b.len()
        invariant
            i <= a.len(),
            i <= b.len(),
            lex_cmp(a@, b@) == lex_cmp(
                a@.subrange(i as int, a.len() as int),
                b@.subrange(i as int, b.len() as int),
            ),
        decreases a.len() - i,
    {
        let ghost sa = a@.subrange(i as int, a.len() as int);
        let ghost sb = b@.subrange(i as int, b.len() as int);
        assert(sa.drop_first() =~= a@.subrange(i + 1, a.len() as int));
        assert(sb.drop_first() =~= b@.subrange(i + 1, b.len() as int));
        if a[i] < b[i] {
            return std::cmp::Ordering::Less;
        } else if a[i] > b[i] {
            return std::cmp::Ordering::Greater;
        }
        i = i + 1;
    }
    if i < b.len() {
        std::cmp::Ordering::Less
    } else if i < a.len() {
        std::cmp::Ordering::Greater
    } else {
        std::cmp::Ordering::Equal
    }
}

impl PartialOrd for Node {
    fn partial_cmp(&self, other: &Node) -> (r: Option<std::cmp::Ordering>) {
        Some(compare_coordinates(&self.coordinates, &other.coordinates))
    }
}

impl vstd::std_specs::cmp::PartialOrdSpecImpl for Node {
    open spec fn obeys_partial_cmp_spec() -> bool {
        true
    }

    open spec fn partial_cmp_spec(&self, o: &Node) -> Option<std::cmp::Ordering> {
        Some(lex_cmp(self.coordinates@, o.coordinates@))
    }
}

/// Lexicographic order agrees with equality: two coordinate vectors compare
/// equal exactly when they are equal.
pub proof fn lemma_lex_cmp_equal(a: Seq<i64>, b: Seq<i64>)
    ensures
        (lex_cmp(a, b) == std::cmp::Ordering::Equal) <==> a == b,
    decreases a.len(),
{
    if a.len() > 0 && b.len() > 0 && a[0] == b[0] {
        lemma_lex_cmp_equal(a.drop_first(), b.drop_first());
        if a.drop_first() == b.drop_first() {
            assert(a =~= seq![a[0]] + a.drop_first());
            assert(b =~= seq![b[0]] + b.drop_first());
        }
        if a == b {
            assert(a.drop_first() == b.drop_first());
        }
    } else if a.len() == 0 && b.len() == 0 {
        assert(a =~= b);
    }
}

/// An edge's declared weight: a literal value, or a request that the graph's
/// weight function compute it.
#[derive(Debug, Clone, Copy, PartialEq, Eq)]
pub enum WeightOption {
    Specified(i64),
    Computed,
}

/// The magnitude of a number.
pub open spec fn magnitude(w: int) -> int {
    if w < 0 {
        -w
    } else {
        w
    }
}

/// The declared weight as a number; a weight still to be computed counts 0.
pub open spec fn weight_value(w: WeightOption) -> int {
    match w {
        WeightOption::Specified(v) => v as int,
        WeightOption::Computed => 0,
    }
}

/// An undirected edge between two node positions; `Edge::new` puts them in
/// ascending order.
#[derive(Debug, Clone, PartialEq, Eq)]
pub struct Edge {
    pub node_indices: [usize; 2],
    pub weight: WeightOption,
    pub properties: Properties,
}

impl Edge {
    /// An edge between the two given node positions, in either order.
    pub fn new(node_indices: [usize; 2], weight: WeightOption, properties: Properties) -> (r: Edge)
        ensures
            r.node_indices[0] <= r.node_indices[1],
            (r.node_indices[0] == node_indices[0] && r.node_indices[1] == node_indices[1]) || (
            r.node_indices[0] == node_indices[1] && r.node_indices[1] == node_indices[0]),
            r.weight == weight,
            r.properties@ == properties@,
    {
        let a = node_indices[0];
        let b = node_indices[1];
        let ordered = if a <= b {
            [a, b]
        } else {
            [b, a]
        };
        Edge { node_indices: ordered, weight, properties }
    }

    /// The first endpoint; the lower one where `Edge::new` made the edge.
    pub open spec fn lo(&self) -> int {
        self.node_indices[0] as int
    }

    /// The second endpoint; the higher one where `Edge::new` made the edge.
    pub open spec fn hi(&self) -> int {
        self.node_indices[1] as int
    }

    /// The edge's weight as a number.
    pub open spec fn weight_spec(&self) -> int {
        weight_value(self.weight)
    }

    /// The edge touches node `v`.
    pub open spec fn touches(&self, v: int) -> bool {
        self.lo() == v || self.hi() == v
    }

    /// The endpoint across the edge from `v`.
    pub open spec fn other_spec(&self, v: int) -> int {
        if self.lo() == v {
            self.hi()
        } else {
            self.lo()
        }
    }

    /// Given one node index, the other node index.
    pub fn index_of_other_node(&self, current_index: usize) -> (r: usize)
        ensures
            r == self.other_spec(current_index as int),
    {
        if self.node_indices[0] == current_index {
            self.node_indices[1]
        } else {
            self.node_indices[0]
        }
    }

    /// Both edges join the same nodes with the same weight and properties.
    pub open spec fn same(&self, o: &Edge) -> bool {
        self.lo() == o.lo() && self.hi() == o.hi() && self.weight == o.weight && self.properties@
            == o.properties@
    }

    /// A copy of this edge.
    pub fn copied(&self) -> (r: Edge)
        ensures
            r.same(self),
    {
        Edge {
            node_indices: [self.node_indices[0], self.node_indices[1]],
            weight: self.weight,
            properties: copy_properties(&self.properties),
        }
    }
}

/// The order of declared weights: a weight still to be computed comes
/// first, then specified weights by value.
pub open spec fn weight_cmp(a: WeightOption, b: WeightOption) -> std::cmp::Ordering {
    match (a, b) {
        (WeightOption::Computed, WeightOption::Computed) => std::cmp::Ordering::Equal,
        (WeightOption::Computed, _) => std::cmp::Ordering::Less,
        (_, WeightOption::Computed) => std::cmp::Ordering::Greater,
        (WeightOption::Specified(x), WeightOption::Specified(y)) => if x < y {
            std::cmp::Ordering::Less
        } else if x > y {
            std::cmp::Ordering::Greater
        } else {
            std::cmp::Ordering::Equal
        },
    }
}

/// The order of two integers.
pub open spec fn int_cmp(x: int, y: int) -> std::cmp::Ordering {
    if x < y {
        std::cmp::Ordering::Less
    } else if x > y {
        std::cmp::Ordering::Greater
    } else {
        std::cmp::Ordering::Equal
    }
}

/// Two property values hold the same value (strings by their characters).
pub open spec fn same_value_spec(a: PropertyValue, b: PropertyValue) -> bool {
    match (a, b) {
        (PropertyValue::String(x), PropertyValue::String(y)) => x@ == y@,
        (PropertyValue::Integer(x), PropertyValue::Integer(y)) => x == y,
        (PropertyValue::Boolean(x), PropertyValue::Boolean(y)) => x == y,
        _ => false,
    }
}

/// Two property lists hold the same names and values, entry by entry.
pub open spec fn same_properties_spec(a: Seq<(String, PropertyValue)>, b: Seq<(String, PropertyValue)>) -> bool {
    a.len() == b.len() && forall|j: int|
        0 <= j < a.len() ==> (#[trigger] a[j]).0@ == b[j].0@ && same_value_spec(a[j].1, b[j].1)
}

/// The order of edges: by weight alone.
pub open spec fn edge_cmp(a: Edge, b: Edge) -> Option<std::cmp::Ordering> {
    Some(weight_cmp(a.weight, b.weight))
}

/// Two edges are equal in value: the same endpoints, weight and properties.
pub open spec fn edges_alike(a: Edge, b: Edge) -> bool {
    &&& a.lo() == b.lo()
    &&& a.hi() == b.hi()
    &&& a.weight == b.weight
    &&& same_properties_spec(a.properties@, b.properties@)
}

fn compare_weights(a: WeightOption, b: WeightOption) -> (r: std::cmp::Ordering)
    ensures
        r == weight_cmp(a, b),
{
    match (a, b) {
        (WeightOption::Computed, WeightOption::Computed) => std::cmp::Ordering::Equal,
        (WeightOption::Computed, _) => std::cmp::Ordering::Less,
        (_, WeightOption::Computed) => std::cmp::Ordering::Greater,
        (WeightOption::Specified(x), WeightOption::Specified(y)) => if x < y {
            std::cmp::Ordering::Less
        } else if x > y {
            std::cmp::Ordering::Greater
        } else {
            std::cmp::Ordering::Equal
        },
    }
}

/// Two property values are equal.
fn same_value(a: &PropertyValue, b: &PropertyValue) -> (r: bool)
    ensures
        r == same_value_spec(*a, *b),
{
    match (a, b) {
        (PropertyValue::String(x), PropertyValue::String(y)) => *x == *y,
        (PropertyValue::Integer(x), PropertyValue::Integer(y)) => *x == *y,
        (PropertyValue::Boolean(x), PropertyValue::Boolean(y)) => *x == *y,
        _ => false,
    }
}

/// Two property lists are equal, entry by entry.
pub fn same_properties(a: &Properties, b: &Properties) -> (r: bool)
    ensures
        r == same_properties_spec(a@, b@),
{
    if a.len() != b.len() {
        return false;
    }
    let mut i: usize = 0;
    while i < a.len()
        invariant
            a.len() == b.len(),
            i <= a.len(),
            forall|j: int|
                0 <= j < i ==> (#[trigger] a@[j]).0@ == b@[j].0@ && same_value_spec(a@[j].1, b@[j].1),
        decreases a.len() - i,
    {
        if !(a[i].0 == b[i].0) || !same_value(&a[i].1, &b[i].1) {
            return false;
        }
        i = i + 1;
    }
    true
}

impl PartialOrd for Edge {
    fn partial_cmp(&self, other: &Edge) -> (r: Option<std::cmp::Ordering>) {
        Some(compare_weights(self.weight, other.weight))
    }
}

impl Edge {
    /// This edge and `other` are equal in value.
    pub fn alike(&self, other: &Edge) -> (r: bool)
        ensures
            r == edges_alike(*self, *other),
    {
        self.node_indices[0] == other.node_indices[0] && self.node_indices[1] == other.node_indices[1]
            && (compare_weights(self.weight, other.weight) matches std::cmp::Ordering::Equal)
            && same_properties(&self.properties, &other.properties)
    }
}

impl vstd::std_specs::cmp::PartialOrdSpecImpl for Edge {
    open spec fn obeys_partial_cmp_spec() -> bool {
        true
    }

    open spec fn partial_cmp_spec(&self, o: &Edge) -> Option<std::cmp::Ordering> {
        edge_cmp(*self, *o)
    }
}

/// An edge given by its two endpoints' coordinates, its declared weight and
/// its properties.
#[derive(Debug, Clone)]
pub struct EdgeDefinition(pub [Vec<i64>; 2], pub WeightOption, pub Properties);

/// Returned when no path can be found to the goal node.
#[derive(Debug, Clone)]
pub struct NoNavigablePathError {
    pub start_node: Node,
    pub goal_node: Node,
}

impl NoNavigablePathError {
    pub fn new(start_node: Node, goal_node: Node) -> (r: NoNavigablePathError)
        ensures
            r.start_node == start_node,
            r.goal_node == goal_node,
    {
        NoNavigablePathError { start_node, goal_node }
    }
}

} // verus!
