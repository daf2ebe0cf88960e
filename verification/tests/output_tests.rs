use std::io::Read;

use datalog::engine::ExecutionEngine;
use datalog::model::{BodyLiteral, Program, Rule, RuleAtom, Term};
use datalog::output::{render_output, serialize_row, OutputFileManager};
use datalog::EngineError;

fn reachability_program() -> (Program, usize) {
    let mut p = Program::new();
    let edge = p.add_predicate(b"edge".to_vec(), 2);
    let path = p.add_predicate(b"path".to_vec(), 2);
    let a = p.add_constant(b"a".to_vec());
    let b = p.add_constant(b"b".to_vec());
    let c = p.add_constant(b"c".to_vec());
    p.add_fact(edge, vec![a, b]);
    p.add_fact(edge, vec![b, c]);
    p.add_rule(Rule {
        head: RuleAtom { pred: path, terms: vec![Term::Var(0), Term::Var(1)] },
        body: vec![
            BodyLiteral {
                positive: true,
                atom: RuleAtom { pred: edge, terms: vec![Term::Var(0), Term::Var(1)] },
            },
        ],
        num_vars: 2,
    });
    (p, path)
}

#[test]
fn file_path_is_deterministic_and_sanitized() {
    let m = OutputFileManager::new(b"out".to_vec(), false, false);
    assert_eq!(m.file_path(&b"path".to_vec()), b"out/path.csv".to_vec());
    assert_eq!(m.file_path(&b"a/b:c d".to_vec()), b"out/a_2fb_3ac_20d.csv".to_vec());
    assert_eq!(m.file_path(&b"A-Z_09".to_vec()), b"out/A-Z_5f09.csv".to_vec());
    assert_ne!(m.file_path(&b"a_b".to_vec()), m.file_path(&b"a/b".to_vec()));
    let gz = OutputFileManager::new(b"out".to_vec(), false, true);
    assert_eq!(gz.file_path(&b"path".to_vec()), b"out/path.csv.gz".to_vec());
}

#[test]
fn overwrite_guard_rejects_existing_file() {
    let keep = OutputFileManager::new(b"out".to_vec(), false, false);
    assert_eq!(keep.check_create(true), Err(EngineError::FileExistsError));
    assert_eq!(keep.check_create(false), Ok(()));
    let replace = OutputFileManager::new(b"out".to_vec(), true, false);
    assert_eq!(replace.check_create(true), Ok(()));
    assert_eq!(replace.check_create(false), Ok(()));
}

#[test]
fn row_encoding_is_exact() {
    assert_eq!(serialize_row(&vec![b"a".to_vec(), b"bc".to_vec()]), b"a\tbc\n".to_vec());
    assert_eq!(serialize_row(&vec![b"x".to_vec()]), b"x\n".to_vec());
    assert_eq!(serialize_row(&Vec::new()), b"\n".to_vec());
}

#[test]
fn rendered_table_lists_every_row() {
    let (p, path) = reachability_program();
    let mut engine = ExecutionEngine::initialize(p).unwrap();
    engine.execute().unwrap();
    engine.combine_results().unwrap();
    let mut ser = engine.table_serializer(path).unwrap();
    let bytes = render_output(&mut ser, false);
    let text = String::from_utf8(bytes).unwrap();
    let mut lines: Vec<&str> = text.lines().collect();
    lines.sort();
    assert_eq!(lines, vec!["a\tb", "b\tc"]);
}

#[test]
fn gzip_output_round_trips() {
    let (p, path) = reachability_program();
    let mut engine = ExecutionEngine::initialize(p).unwrap();
    engine.execute().unwrap();
    engine.combine_results().unwrap();
    let mut plain_ser = engine.table_serializer(path).unwrap();
    let plain = render_output(&mut plain_ser, false);
    let mut gz_ser = engine.table_serializer(path).unwrap();
    let compressed = render_output(&mut gz_ser, true);
    assert_ne!(compressed, plain);
    let mut decoder = flate2::read::GzDecoder::new(compressed.as_slice());
    let mut recovered = Vec::new();
    decoder.read_to_end(&mut recovered).unwrap();
    assert_eq!(recovered, plain);
}
