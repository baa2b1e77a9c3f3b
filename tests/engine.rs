use reactive_engine::errors::RuleError;
use reactive_engine::reactive::{BinOp, EngineError, Expr, Runtime};

fn cell(c: usize) -> Box<Expr> {
    Box::new(Expr::Cell(c))
}

fn konst(v: i64) -> Box<Expr> {
    Box::new(Expr::Const(v))
}

#[test]
fn memo_tracks_latest_value_and_runs_once_per_batch() {
    let mut rt = Runtime::new();
    let a = rt.create_signal(1);
    let m = rt.create_memo(Expr::Bin(BinOp::Mul, cell(a), konst(2))).unwrap();
    assert_eq!(rt.runs(m), Ok(0));
    assert_eq!(rt.read_memo(m), Ok(Ok(2)));
    assert_eq!(rt.read_memo(m), Ok(Ok(2)));
    assert_eq!(rt.runs(m), Ok(1));
    rt.set_signal(a, 5).unwrap();
    assert_eq!(rt.read_memo(m), Ok(Ok(10)));
    assert_eq!(rt.runs(m), Ok(2));
    rt.write_batch(&vec![(a, 6), (a, 7), (a, 8)]).unwrap();
    assert_eq!(rt.read_memo(m), Ok(Ok(16)));
    assert_eq!(rt.read_memo(m), Ok(Ok(16)));
    assert_eq!(rt.runs(m), Ok(3));
}

#[test]
fn writing_equal_value_reruns_nothing() {
    let mut rt = Runtime::new();
    let a = rt.create_signal(3);
    let m = rt.create_memo(Expr::Bin(BinOp::Add, cell(a), konst(1))).unwrap();
    let e = rt.create_effect(Expr::Memo(m), None, None).unwrap();
    rt.flush().unwrap();
    assert_eq!(rt.runs(m), Ok(1));
    assert_eq!(rt.runs(e), Ok(1));
    for _ in 0..5 {
        rt.set_signal(a, 3).unwrap();
    }
    assert_eq!(rt.runs(m), Ok(1));
    assert_eq!(rt.runs(e), Ok(1));
    assert_eq!(rt.version(a), Ok(0));
    rt.set_signal(a, 4).unwrap();
    assert_eq!(rt.version(a), Ok(1));
    assert_eq!(rt.runs(m), Ok(2));
    assert_eq!(rt.runs(e), Ok(2));
}

#[test]
fn chained_memos_follow_their_cells() {
    let mut rt = Runtime::new();
    let a = rt.create_signal(2);
    let b = rt.create_signal(10);
    let double = rt.create_memo(Expr::Bin(BinOp::Mul, cell(a), konst(2))).unwrap();
    let sum = rt
        .create_memo(Expr::Bin(BinOp::Add, Box::new(Expr::Memo(double)), cell(b)))
        .unwrap();
    assert_eq!(rt.read_memo(sum), Ok(Ok(14)));
    rt.set_signal(b, 20).unwrap();
    assert_eq!(rt.read_memo(sum), Ok(Ok(24)));
    assert_eq!(rt.runs(double), Ok(1));
    rt.set_signal(a, 3).unwrap();
    assert_eq!(rt.read_memo(sum), Ok(Ok(26)));
    assert_eq!(rt.runs(double), Ok(2));
}

#[test]
fn dependencies_follow_the_branch_taken() {
    let mut rt = Runtime::new();
    let flag = rt.create_signal(1);
    let x = rt.create_signal(5);
    let y = rt.create_signal(7);
    let m = rt
        .create_memo(Expr::If(cell(flag), cell(x), cell(y)))
        .unwrap();
    assert_eq!(rt.read_memo(m), Ok(Ok(5)));
    rt.set_signal(y, 8).unwrap();
    assert_eq!(rt.read_memo(m), Ok(Ok(5)));
    assert_eq!(rt.runs(m), Ok(1));
    rt.set_signal(flag, 0).unwrap();
    assert_eq!(rt.read_memo(m), Ok(Ok(8)));
    assert_eq!(rt.runs(m), Ok(2));
    rt.set_signal(x, 9).unwrap();
    assert_eq!(rt.read_memo(m), Ok(Ok(8)));
    assert_eq!(rt.runs(m), Ok(2));
}

#[test]
fn effect_writes_its_target() {
    let mut rt = Runtime::new();
    let count = rt.create_signal(4);
    let doubled = rt.create_signal(0);
    rt.create_effect(Expr::Bin(BinOp::Mul, cell(count), konst(2)), Some(doubled), None)
        .unwrap();
    rt.flush().unwrap();
    assert_eq!(rt.read_signal(doubled), Ok(8));
    rt.set_signal(count, 21).unwrap();
    assert_eq!(rt.read_signal(doubled), Ok(42));
}

#[test]
fn effect_writing_its_own_input_is_a_cycle() {
    let mut rt = Runtime::new();
    let x = rt.create_signal(0);
    rt.create_effect(Expr::Bin(BinOp::Add, cell(x), konst(1)), Some(x), None)
        .unwrap();
    assert_eq!(rt.flush(), Err(EngineError::CycleDetected));
}

#[test]
fn cycle_through_a_memo_is_detected() {
    let mut rt = Runtime::new();
    let x = rt.create_signal(0);
    let m = rt.create_memo(Expr::Bin(BinOp::Add, cell(x), konst(1))).unwrap();
    rt.create_effect(Expr::Memo(m), Some(x), None).unwrap();
    assert_eq!(rt.flush(), Err(EngineError::CycleDetected));
}

#[test]
fn overflow_is_a_rule_failure() {
    let mut rt = Runtime::new();
    let x = rt.create_signal(i64::MAX);
    let m = rt.create_memo(Expr::Bin(BinOp::Add, cell(x), konst(1))).unwrap();
    assert_eq!(rt.read_memo(m), Ok(Err(RuleError::Overflow)));
    let e = rt.create_effect(Expr::Memo(m), None, None).unwrap();
    assert_eq!(rt.flush(), Err(EngineError::Rule(RuleError::Overflow)));
    assert_eq!(rt.runs(e), Ok(1));
}

#[test]
fn boundary_collects_and_clears_effect_failures() {
    let mut rt = Runtime::new();
    let x = rt.create_signal(i64::MAX);
    let b = rt.create_boundary();
    rt.create_effect(Expr::Bin(BinOp::Mul, cell(x), cell(x)), None, Some(b))
        .unwrap();
    assert_eq!(rt.flush(), Ok(()));
    assert_eq!(rt.boundary_error_count(b), Ok(1));
    rt.set_signal(x, 5).unwrap();
    assert_eq!(rt.boundary_error_count(b), Ok(0));
}

#[test]
fn invalid_handles_are_refused() {
    let mut rt = Runtime::new();
    let a = rt.create_signal(1);
    assert_eq!(rt.create_memo(Expr::Memo(0)), Err(EngineError::InvalidHandle));
    assert_eq!(rt.create_memo(Expr::Cell(a + 1)), Err(EngineError::InvalidHandle));
    assert_eq!(rt.set_signal(a + 1, 3), Err(EngineError::InvalidHandle));
    assert_eq!(rt.read_signal(a + 1), Err(EngineError::InvalidHandle));
    assert_eq!(rt.write_batch(&vec![(a, 2), (a + 1, 3)]), Err(EngineError::InvalidHandle));
    assert_eq!(rt.read_signal(a), Ok(1));
    let e = rt.create_effect(Expr::Const(1), None, None).unwrap();
    assert_eq!(rt.read_memo(e), Err(EngineError::InvalidHandle));
    assert_eq!(rt.create_effect(Expr::Const(1), Some(9), None), Err(EngineError::InvalidHandle));
    assert_eq!(rt.create_effect(Expr::Const(1), None, Some(0)), Err(EngineError::InvalidHandle));
}

#[test]
fn update_adds_to_a_cell() {
    let mut rt = Runtime::new();
    let n = rt.create_signal(0);
    let m = rt.create_memo(Expr::Bin(BinOp::Mul, cell(n), konst(2))).unwrap();
    rt.update_signal(n, BinOp::Add, 1).unwrap();
    rt.update_signal(n, BinOp::Add, 1).unwrap();
    assert_eq!(rt.read_signal(n), Ok(2));
    assert_eq!(rt.read_memo(m), Ok(Ok(4)));
    rt.update_signal(n, BinOp::Add, 0).unwrap();
    assert_eq!(rt.version(n), Ok(2));
    let big = rt.create_signal(i64::MAX);
    assert_eq!(
        rt.update_signal(big, BinOp::Add, 1),
        Err(EngineError::Rule(RuleError::Overflow))
    );
    assert_eq!(rt.read_signal(big), Ok(i64::MAX));
}

#[test]
fn disposed_effect_no_longer_runs() {
    let mut rt = Runtime::new();
    let a = rt.create_signal(1);
    let out = rt.create_signal(0);
    let e = rt.create_effect(Expr::Bin(BinOp::Add, cell(a), konst(100)), Some(out), None).unwrap();
    rt.flush().unwrap();
    assert_eq!(rt.read_signal(out), Ok(101));
    rt.dispose_effect(e).unwrap();
    rt.set_signal(a, 2).unwrap();
    assert_eq!(rt.read_signal(out), Ok(101));
    assert_eq!(rt.runs(e), Ok(1));
    assert_eq!(rt.dispose_effect(a + 10), Err(EngineError::InvalidHandle));
}

#[test]
fn effect_feeding_an_earlier_effect_is_no_cycle() {
    let mut rt = Runtime::new();
    let source = rt.create_signal(1);
    let t = rt.create_signal(0);
    let seen = rt.create_signal(0);
    // created first, reads t
    let e0 = rt.create_effect(Expr::Bin(BinOp::Add, cell(t), konst(0)), Some(seen), None).unwrap();
    // created second, writes t
    rt.create_effect(Expr::Bin(BinOp::Mul, cell(source), konst(10)), Some(t), None).unwrap();
    assert_eq!(rt.flush(), Ok(()));
    assert_eq!(rt.read_signal(seen), Ok(10));
    rt.set_signal(source, 2).unwrap();
    assert_eq!(rt.read_signal(seen), Ok(20));
    assert!(rt.runs(e0).unwrap() >= 2);
}

#[test]
fn clicks_raise_value_and_version_by_one() {
    let mut rt = Runtime::new();
    let count = rt.create_signal(0);
    let other = rt.create_signal(7);
    let double = rt.create_memo(Expr::Bin(BinOp::Mul, cell(count), konst(2))).unwrap();
    for k in 1..=3 {
        rt.update_signal(count, BinOp::Add, 1).unwrap();
        assert_eq!(rt.read_signal(count), Ok(k));
        assert_eq!(rt.version(count), Ok(k as u64));
        assert_eq!(rt.read_memo(double), Ok(Ok(2 * k)));
    }
    assert_eq!(rt.read_signal(other), Ok(7));
    assert_eq!(rt.version(other), Ok(0));
}

#[test]
fn doubling_rows() {
    let mut rt = Runtime::new();
    let cells: Vec<usize> = [10, 20, 15].iter().map(|v| rt.create_signal(*v)).collect();
    for c in &cells {
        rt.update_signal(*c, BinOp::Mul, 2).unwrap();
    }
    let values: Vec<i64> = cells.iter().map(|c| rt.read_signal(*c).unwrap()).collect();
    assert_eq!(values, vec![20, 40, 30]);
}
