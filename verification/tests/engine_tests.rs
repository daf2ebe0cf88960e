use datalog::engine::{EngineState, ExecutionEngine};
use datalog::model::{BodyLiteral, Program, Rule, RuleAtom, Term};
use datalog::EngineError;

fn atom(pred: usize, terms: Vec<Term>) -> RuleAtom {
    RuleAtom { pred, terms }
}

fn pos(a: RuleAtom) -> BodyLiteral {
    BodyLiteral { positive: true, atom: a }
}

fn neg(a: RuleAtom) -> BodyLiteral {
    BodyLiteral { positive: false, atom: a }
}

fn edge_path_program() -> (Program, usize, usize) {
    let mut p = Program::new();
    let edge = p.add_predicate(b"edge".to_vec(), 2);
    let path = p.add_predicate(b"path".to_vec(), 2);
    let a = p.add_constant(b"a".to_vec());
    let b = p.add_constant(b"b".to_vec());
    p.add_fact(edge, vec![a, b]);
    let c = p.add_constant(b"c".to_vec());
    p.add_fact(edge, vec![b, c]);
    p.add_rule(Rule {
        head: atom(path, vec![Term::Var(0), Term::Var(1)]),
        body: vec![pos(atom(edge, vec![Term::Var(0), Term::Var(1)]))],
        num_vars: 2,
    });
    p.add_rule(Rule {
        head: atom(path, vec![Term::Var(0), Term::Var(2)]),
        body: vec![
            pos(atom(path, vec![Term::Var(0), Term::Var(1)])),
            pos(atom(edge, vec![Term::Var(1), Term::Var(2)])),
        ],
        num_vars: 3,
    });
    (p, edge, path)
}

fn rows_sorted(engine: &ExecutionEngine, pred: usize) -> Vec<Vec<Vec<u8>>> {
    let mut rows = engine.result(pred);
    rows.sort();
    rows
}

#[test]
fn end_to_end_transitive_closure() {
    let (p, _edge, path) = edge_path_program();
    let mut engine = ExecutionEngine::initialize(p).unwrap();
    engine.execute().unwrap();
    let ids = engine.combine_results().unwrap();
    assert_eq!(ids, vec![path]);
    let rows = rows_sorted(&engine, path);
    assert_eq!(
        rows,
        vec![
            vec![b"a".to_vec(), b"b".to_vec()],
            vec![b"a".to_vec(), b"c".to_vec()],
            vec![b"b".to_vec(), b"c".to_vec()],
        ]
    );
}

#[test]
fn recursive_fixpoint_on_cycle() {
    let (mut p, edge, path) = edge_path_program();
    let a = p.add_constant(b"a".to_vec());
    let c = p.add_constant(b"c".to_vec());
    p.add_fact(edge, vec![c, a]);
    let mut engine = ExecutionEngine::initialize(p).unwrap();
    engine.execute().unwrap();
    engine.combine_results().unwrap();
    let rows = rows_sorted(&engine, path);
    assert_eq!(rows.len(), 9);
    for x in [b"a", b"b", b"c"] {
        for y in [b"a", b"b", b"c"] {
            assert!(rows.contains(&vec![x.to_vec(), y.to_vec()]));
        }
    }
}

#[test]
fn fixpoint_stability_on_reexecution() {
    let (p, _edge, path) = edge_path_program();
    let mut engine = ExecutionEngine::initialize(p).unwrap();
    engine.execute().unwrap();
    let ids1 = engine.combine_results().unwrap();
    let rows1 = rows_sorted(&engine, path);
    engine.execute().unwrap();
    let ids2 = engine.combine_results().unwrap();
    let rows2 = rows_sorted(&engine, path);
    assert_eq!(ids1, ids2);
    assert_eq!(rows1, rows2);
}

#[test]
fn arity_conflict_is_a_schema_error() {
    let mut p = Program::new();
    let one = p.add_predicate(b"item".to_vec(), 1);
    let two = p.add_predicate(b"item".to_vec(), 2);
    assert_ne!(one, two);
    let err = match ExecutionEngine::initialize(p) {
        Err(e) => e,
        Ok(_) => panic!("conflicting arities must be rejected"),
    };
    assert_eq!(err, EngineError::SchemaError);
}

#[test]
fn fact_arity_mismatch_is_a_schema_error() {
    let mut p = Program::new();
    let edge = p.add_predicate(b"edge".to_vec(), 2);
    let a = p.add_constant(b"a".to_vec());
    p.add_fact(edge, vec![a]);
    let err = match ExecutionEngine::initialize(p) {
        Err(e) => e,
        Ok(_) => panic!("an ill-formed fact must be rejected"),
    };
    assert_eq!(err, EngineError::SchemaError);
}

#[test]
fn unknown_predicate_is_a_schema_error() {
    let mut p = Program::new();
    let a = p.add_constant(b"a".to_vec());
    p.add_fact(7, vec![a]);
    let err = match ExecutionEngine::initialize(p) {
        Err(e) => e,
        Ok(_) => panic!("an undeclared predicate must be rejected"),
    };
    assert_eq!(err, EngineError::SchemaError);
}

#[test]
fn unsafe_rule_is_an_initialization_error() {
    let mut p = Program::new();
    let edge = p.add_predicate(b"edge".to_vec(), 2);
    let path = p.add_predicate(b"path".to_vec(), 2);
    p.add_rule(Rule {
        head: atom(path, vec![Term::Var(0), Term::Var(1)]),
        body: vec![pos(atom(edge, vec![Term::Var(0), Term::Var(0)]))],
        num_vars: 2,
    });
    let err = match ExecutionEngine::initialize(p) {
        Err(e) => e,
        Ok(_) => panic!("a rule with an unbound head variable must be rejected"),
    };
    assert_eq!(err, EngineError::InitializationError);
}

#[test]
fn negation_in_a_cycle_is_unstratifiable() {
    let mut p = Program::new();
    let q = p.add_predicate(b"q".to_vec(), 1);
    let r = p.add_predicate(b"r".to_vec(), 1);
    p.add_rule(Rule {
        head: atom(r, vec![Term::Var(0)]),
        body: vec![pos(atom(q, vec![Term::Var(0)])), neg(atom(r, vec![Term::Var(0)]))],
        num_vars: 1,
    });
    let err = match ExecutionEngine::initialize(p) {
        Err(e) => e,
        Ok(_) => panic!("negation through a cycle must be rejected"),
    };
    assert_eq!(err, EngineError::UnstratifiableProgramError);
}

#[test]
fn stratified_negation_evaluates() {
    let mut p = Program::new();
    let q = p.add_predicate(b"q".to_vec(), 1);
    let s = p.add_predicate(b"s".to_vec(), 1);
    let r = p.add_predicate(b"r".to_vec(), 1);
    let a = p.add_constant(b"a".to_vec());
    let b = p.add_constant(b"b".to_vec());
    p.add_fact(q, vec![a]);
    p.add_fact(q, vec![b]);
    p.add_fact(s, vec![b]);
    p.add_rule(Rule {
        head: atom(r, vec![Term::Var(0)]),
        body: vec![pos(atom(q, vec![Term::Var(0)])), neg(atom(s, vec![Term::Var(0)]))],
        num_vars: 1,
    });
    let mut engine = ExecutionEngine::initialize(p).unwrap();
    engine.execute().unwrap();
    let ids = engine.combine_results().unwrap();
    assert_eq!(ids, vec![r]);
    assert_eq!(rows_sorted(&engine, r), vec![vec![b"a".to_vec()]]);
}

#[test]
fn empty_result_is_not_an_error() {
    let mut p = Program::new();
    let edge = p.add_predicate(b"edge".to_vec(), 2);
    let path = p.add_predicate(b"path".to_vec(), 2);
    p.add_rule(Rule {
        head: atom(path, vec![Term::Var(0), Term::Var(1)]),
        body: vec![pos(atom(edge, vec![Term::Var(0), Term::Var(1)]))],
        num_vars: 2,
    });
    let mut engine = ExecutionEngine::initialize(p).unwrap();
    engine.execute().unwrap();
    let ids = engine.combine_results().unwrap();
    assert_eq!(ids, vec![path]);
    assert!(engine.table_serializer(path).is_none());
    assert_eq!(engine.result(path), Vec::<Vec<Vec<u8>>>::new());
}

#[test]
fn combine_before_execute_fails() {
    let (p, _edge, _path) = edge_path_program();
    let mut engine = ExecutionEngine::initialize(p).unwrap();
    assert_eq!(engine.state, EngineState::Initialized);
    let err = match engine.combine_results() {
        Err(e) => e,
        Ok(_) => panic!("combining a non-executed engine must fail"),
    };
    assert_eq!(err, EngineError::ExecutionError);
}

#[test]
fn no_duplicate_records_from_duplicate_rules() {
    let (mut p, edge, path) = edge_path_program();
    p.add_rule(Rule {
        head: atom(path, vec![Term::Var(0), Term::Var(1)]),
        body: vec![pos(atom(edge, vec![Term::Var(0), Term::Var(1)]))],
        num_vars: 2,
    });
    let mut engine = ExecutionEngine::initialize(p).unwrap();
    engine.execute().unwrap();
    engine.combine_results().unwrap();
    let rows = engine.result(path);
    assert_eq!(rows.len(), 3);
    for i in 0..rows.len() {
        for j in (i + 1)..rows.len() {
            assert_ne!(rows[i], rows[j]);
        }
    }
}

#[test]
fn serializer_is_one_shot_and_signals_exhaustion() {
    let (p, _edge, path) = edge_path_program();
    let mut engine = ExecutionEngine::initialize(p).unwrap();
    engine.execute().unwrap();
    engine.combine_results().unwrap();
    let mut ser = engine.table_serializer(path).unwrap();
    let mut count = 0;
    while let Some(row) = ser.next_record() {
        assert_eq!(row.len(), 2);
        count += 1;
    }
    assert_eq!(count, 3);
    assert!(ser.next_record().is_none());
    assert!(ser.next_record().is_none());
}

#[test]
fn duplicated_program_is_independent() {
    let (p, edge, path) = edge_path_program();
    let mut copy = p.duplicate();
    let a = copy.add_constant(b"a".to_vec());
    let c = copy.add_constant(b"c".to_vec());
    copy.add_fact(edge, vec![c, a]);
    assert_eq!(p.facts.len(), 2);
    assert_eq!(copy.facts.len(), 3);
    let mut original_engine = ExecutionEngine::initialize(p).unwrap();
    original_engine.execute().unwrap();
    original_engine.combine_results().unwrap();
    assert_eq!(rows_sorted(&original_engine, path).len(), 3);
    let mut copy_engine = ExecutionEngine::initialize(copy).unwrap();
    copy_engine.execute().unwrap();
    copy_engine.combine_results().unwrap();
    assert_eq!(rows_sorted(&copy_engine, path).len(), 9);
}

#[test]
fn constants_are_interned() {
    let mut p = Program::new();
    let a1 = p.add_constant(b"a".to_vec());
    let b1 = p.add_constant(b"b".to_vec());
    let a2 = p.add_constant(b"a".to_vec());
    assert_eq!(a1, a2);
    assert_ne!(a1, b1);
    let e1 = p.add_predicate(b"edge".to_vec(), 2);
    let e2 = p.add_predicate(b"edge".to_vec(), 2);
    assert_eq!(e1, e2);
}
