use commuter::diagram::{
    diagram_commutes, CommutativeDiagramError, CommutativeDiagramResult, Diagram, DiagramMap,
    DiagramSet,
};
use commuter::element::Element;
use commuter::graph::all_paths;

#[derive(Clone, PartialEq, Debug)]
enum Value {
    Int(i32),
    Pair(i32, i32),
    Triple(i32, i32, i32),
}

impl Element for Value {
    fn spec_name(&self) -> vstd::seq::Seq<char> {
        panic!("used only by the verifier")
    }

    fn eq(&self, other: &Self) -> bool {
        self == other
    }

    fn name(&self) -> String {
        match self {
            Value::Int(x) => x.name(),
            Value::Pair(a, b) => (*a, *b).name(),
            Value::Triple(a, b, c) => (*a, *b, *c).name(),
        }
    }
}

type Pred = fn(&Value) -> bool;
type MapFn = fn(&Value) -> Option<Value>;
type TestSet = DiagramSet<Value, Pred, Pred>;
type TestDiagram = Diagram<Value, TestSet, MapFn>;

fn left_add(v: &Value) -> Option<Value> {
    match v {
        Value::Triple(a, b, c) => Some(Value::Pair(a + b, *c)),
        _ => None,
    }
}

fn right_add(v: &Value) -> Option<Value> {
    match v {
        Value::Triple(a, b, c) => Some(Value::Pair(*a, b + c)),
        _ => None,
    }
}

fn right_add_off_at_four(v: &Value) -> Option<Value> {
    match v {
        Value::Triple(a, b, c) => Some(Value::Pair(*a, b + c + if *c == 4 { 1 } else { 0 })),
        _ => None,
    }
}

fn add(v: &Value) -> Option<Value> {
    match v {
        Value::Pair(a, b) => Some(Value::Int(a + b)),
        _ => None,
    }
}

fn triplets(n: i32) -> Vec<Value> {
    let mut out = Vec::new();
    for a in 0..n {
        for b in 0..n {
            for c in 0..n {
                out.push(Value::Triple(a, b, c));
            }
        }
    }
    out
}

fn associativity_maps(right: MapFn) -> Vec<DiagramMap<Value, MapFn>> {
    vec![
        DiagramMap::new(0, 1, left_add as MapFn, "(+,id)"),
        DiagramMap::new(0, 2, right, "(id,+)"),
        DiagramMap::new(2, 3, add as MapFn, "(+)"),
        DiagramMap::new(1, 3, add as MapFn, "(+)"),
    ]
}

fn plain_associativity(source: TestSet, right: MapFn) -> TestDiagram {
    Diagram::new(
        vec![
            source,
            TestSet::new_no_generating_set(),
            TestSet::new_no_generating_set(),
            TestSet::new_no_generating_set(),
        ],
        associativity_maps(right),
    )
}

fn pair_sum_at_least_6(v: &Value) -> bool {
    match v {
        Value::Pair(a, b) => a + b >= 6,
        _ => false,
    }
}

fn pair_sum_at_least_5(v: &Value) -> bool {
    match v {
        Value::Pair(a, b) => a + b >= 5,
        _ => false,
    }
}

fn int_at_least_5(v: &Value) -> bool {
    match v {
        Value::Int(x) => *x >= 5,
        _ => false,
    }
}

fn commutes(d: &TestDiagram) -> bool {
    match diagram_commutes(d).unwrap() {
        CommutativeDiagramResult::Commutes => true,
        CommutativeDiagramResult::DoesNotCommute(reason) => panic!("{}", reason),
    }
}

#[test]
fn diagram_test_addition_is_associative_on_integers() {
    let diagram = Diagram::new(
        vec![
            TestSet::new(triplets(20)),
            TestSet::new_no_generating_set_filtered(pair_sum_at_least_6 as Pred),
            TestSet::new_no_generating_set_filtered(pair_sum_at_least_5 as Pred),
            TestSet::new_no_generating_set_checked(int_at_least_5 as Pred),
        ],
        associativity_maps(right_add as MapFn),
    );

    assert!(commutes(&diagram));
}

#[test]
fn diagram_2_test_addition_is_associative_on_integers() {
    let mut pairs = Vec::new();
    for a in 0..40 {
        for b in 0..40 {
            pairs.push(Value::Pair(a, b));
        }
    }
    let integers: Vec<Value> = (0..80).map(Value::Int).collect();
    let diagram = Diagram::new(
        vec![TestSet::new(triplets(20)), TestSet::new(pairs), TestSet::new(integers)],
        vec![DiagramMap::new(0, 1, left_add as MapFn, "(+,id)")],
    );

    assert!(commutes(&diagram));
}

#[test]
fn associativity_commutes() {
    let diagram = plain_associativity(TestSet::new(triplets(20)), right_add as MapFn);
    assert!(matches!(diagram_commutes(&diagram), Ok(CommutativeDiagramResult::Commutes)));
}

#[test]
fn associativity_with_intermediate_generators_commutes() {
    let diagram = Diagram::new(
        vec![
            TestSet::new(triplets(20)),
            TestSet::new_no_generating_set(),
            TestSet::new(vec![Value::Pair(5, 3), Value::Pair(100, 100)]),
            TestSet::new_no_generating_set_checked(non_negative as Pred),
        ],
        associativity_maps(right_add as MapFn),
    );
    assert!(commutes(&diagram));
}

#[test]
fn value_failing_a_target_property_is_reported() {
    let diagram = Diagram::new(
        vec![
            TestSet::new(triplets(20)),
            TestSet::new_no_generating_set(),
            TestSet::new_no_generating_set(),
            TestSet::new_no_generating_set_checked(int_at_least_5 as Pred),
        ],
        associativity_maps(right_add as MapFn),
    );
    // (0, 0, 0) reaches 0, which fails the property of the integers.
    match diagram_commutes(&diagram) {
        Err(CommutativeDiagramError::PropertyCheckError(m)) => {
            assert_eq!(m, "Element does not satisfy target set property: 0")
        }
        _ => panic!("expected a failed property"),
    }
}

#[test]
fn broken_associativity_does_not_commute() {
    let diagram = plain_associativity(TestSet::new(triplets(20)), right_add_off_at_four as MapFn);
    match diagram_commutes(&diagram) {
        Ok(CommutativeDiagramResult::DoesNotCommute(reason)) => {
            let start = reason.find(" don't agree on ").unwrap() + " don't agree on ".len();
            let end = reason.find(". Left gets ").unwrap();
            let element = &reason[start..end];
            assert!(element.starts_with('('));
            assert!(element.ends_with(", 4)"));
            assert_eq!(
                reason,
                "(+,id) -> (+) and (id,+) -> (+) don't agree on (0, 0, 4). Left gets 4 while right gets 5"
            );
        }
        _ => panic!("expected a disagreement"),
    }
}

#[test]
fn single_set_without_maps_commutes() {
    let diagram: TestDiagram = Diagram::new(vec![TestSet::new(vec![Value::Int(1)])], vec![]);
    assert!(all_paths(&diagram).unwrap().is_empty());
    assert!(matches!(diagram_commutes(&diagram), Ok(CommutativeDiagramResult::Commutes)));
}

fn non_negative(v: &Value) -> bool {
    match v {
        Value::Int(x) => *x >= 0,
        _ => false,
    }
}

fn negative(v: &Value) -> bool {
    match v {
        Value::Int(x) => *x < 0,
        _ => false,
    }
}

fn double(v: &Value) -> Option<Value> {
    match v {
        Value::Int(x) => Some(Value::Int(2 * x)),
        _ => None,
    }
}

fn double_by_adding(v: &Value) -> Option<Value> {
    match v {
        Value::Int(x) => Some(Value::Int(x + x)),
        _ => None,
    }
}

fn doubling_diagram(source: TestSet) -> TestDiagram {
    Diagram::new(
        vec![source, TestSet::new_no_generating_set()],
        vec![
            DiagramMap::new(0, 1, double as MapFn, "2x"),
            DiagramMap::new(0, 1, double_by_adding as MapFn, "x+x"),
        ],
    )
}

#[test]
fn negative_generator_fails_source_property() {
    let source = TestSet::new_checked(
        vec![Value::Int(1), Value::Int(-2), Value::Int(3)],
        non_negative as Pred,
    );
    match diagram_commutes(&doubling_diagram(source)) {
        Err(CommutativeDiagramError::PropertyCheckError(m)) => {
            assert_eq!(m, "Element does not satisfy source set property: -2")
        }
        _ => panic!("expected a failed property"),
    }
}

#[test]
fn property_rejecting_non_negative_integers_fails() {
    let source = TestSet::new_checked(vec![Value::Int(-1), Value::Int(4)], negative as Pred);
    match diagram_commutes(&doubling_diagram(source)) {
        Err(CommutativeDiagramError::PropertyCheckError(m)) => {
            assert_eq!(m, "Element does not satisfy source set property: 4")
        }
        _ => panic!("expected a failed property"),
    }
}

#[test]
fn filtered_source_element_is_not_checked() {
    // -2 fails the property, but the filter leaves it out first.
    let source = TestSet::new_checked_filtered(
        vec![Value::Int(1), Value::Int(-2), Value::Int(3)],
        non_negative as Pred,
        non_negative as Pred,
    );
    assert!(matches!(
        diagram_commutes(&doubling_diagram(source)),
        Ok(CommutativeDiagramResult::Commutes)
    ));
}

fn c_is_not_4(v: &Value) -> bool {
    match v {
        Value::Triple(_, _, c) => *c != 4,
        _ => false,
    }
}

#[test]
fn filter_at_the_source_hides_a_disagreement() {
    let source = TestSet::new_filtered(triplets(20), c_is_not_4 as Pred);
    let diagram = plain_associativity(source, right_add_off_at_four as MapFn);
    assert!(matches!(diagram_commutes(&diagram), Ok(CommutativeDiagramResult::Commutes)));
}

fn pair_second_is_not_offset(v: &Value) -> bool {
    match v {
        Value::Pair(_, b) => *b < 4,
        _ => false,
    }
}

#[test]
fn filter_on_a_path_hides_a_disagreement() {
    let diagram = Diagram::new(
        vec![
            TestSet::new(triplets(20)),
            TestSet::new_no_generating_set(),
            TestSet::new_no_generating_set_filtered(pair_second_is_not_offset as Pred),
            TestSet::new_no_generating_set(),
        ],
        associativity_maps(right_add_off_at_four as MapFn),
    );
    assert!(matches!(diagram_commutes(&diagram), Ok(CommutativeDiagramResult::Commutes)));
}

#[test]
fn failing_source_property_is_reported_even_where_paths_agree() {
    let source = TestSet::new_checked(triplets(20), c_is_not_4 as Pred);
    let diagram = plain_associativity(source, right_add as MapFn);
    match diagram_commutes(&diagram) {
        Err(CommutativeDiagramError::PropertyCheckError(m)) => {
            assert_eq!(m, "Element does not satisfy source set property: (0, 0, 4)")
        }
        _ => panic!("expected a failed property"),
    }
}

fn int_below_30(v: &Value) -> bool {
    match v {
        Value::Int(x) => *x < 30,
        _ => false,
    }
}

#[test]
fn failing_target_property_is_reported() {
    let diagram = Diagram::new(
        vec![
            TestSet::new(triplets(20)),
            TestSet::new_no_generating_set(),
            TestSet::new_no_generating_set(),
            TestSet::new_no_generating_set_checked_filtered(int_below_30 as Pred, int_at_least_5 as Pred),
        ],
        associativity_maps(right_add as MapFn),
    );
    match diagram_commutes(&diagram) {
        Err(CommutativeDiagramError::PropertyCheckError(m)) => {
            assert_eq!(m, "Element does not satisfy target set property: 30")
        }
        _ => panic!("expected a failed property"),
    }
}

#[test]
fn cyclic_diagram_is_an_error() {
    let diagram = Diagram::new(
        vec![TestSet::new(vec![Value::Int(1)]), TestSet::new_no_generating_set()],
        vec![
            DiagramMap::new(0, 1, double as MapFn, "f"),
            DiagramMap::new(1, 0, double as MapFn, "g"),
        ],
    );
    assert!(matches!(diagram_commutes(&diagram), Err(CommutativeDiagramError::CyclicGraphError)));
}

#[test]
fn map_given_a_value_of_another_kind_is_a_contract_violation() {
    let diagram = Diagram::new(
        vec![TestSet::new(vec![Value::Int(1)]), TestSet::new_no_generating_set()],
        vec![DiagramMap::new(0, 1, add as MapFn, "sum")],
    );
    match diagram_commutes(&diagram) {
        Err(CommutativeDiagramError::ContractViolation(m)) => {
            assert_eq!(m, "Map sum gives no result for a value it was applied to")
        }
        _ => panic!("expected a contract violation"),
    }
}

fn to_pair(v: &Value) -> Option<Value> {
    match v {
        Value::Int(x) => Some(Value::Pair(*x, *x)),
        _ => None,
    }
}

#[test]
fn results_of_different_kinds_disagree() {
    let diagram = Diagram::new(
        vec![TestSet::new(vec![Value::Int(3)]), TestSet::new_no_generating_set()],
        vec![
            DiagramMap::new(0, 1, double as MapFn, "f"),
            DiagramMap::new(0, 1, to_pair as MapFn, "g"),
        ],
    );
    match diagram_commutes(&diagram) {
        Ok(CommutativeDiagramResult::DoesNotCommute(reason)) => {
            assert_eq!(reason, "f and g don't agree on 3. Left gets 6 while right gets (3, 3)")
        }
        _ => panic!("expected a disagreement"),
    }
}

#[test]
fn diagram_paths_follow_the_maps() {
    let diagram = plain_associativity(TestSet::new(vec![]), right_add as MapFn);
    let paths = all_paths(&diagram).unwrap();
    assert_eq!(paths.len(), 6);
    for p in &paths {
        for w in p.windows(2) {
            assert_eq!(w[0].to, w[1].from);
        }
    }
    assert!(paths.iter().any(|p| p.len() == 2 && p[0].ix == 0 && p[1].ix == 3));
    assert!(paths.iter().any(|p| p.len() == 2 && p[0].ix == 1 && p[1].ix == 2));
}
