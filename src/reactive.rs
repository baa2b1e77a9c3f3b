//! The reactive runtime: signal cells, derived nodes that are computed lazily
//! and cached, and effects that a flush re-runs eagerly.
//!
//! Nodes live in one table and refer to each other by index. A rule is an
//! expression over cells and earlier derived nodes, so derived nodes can never
//! form a cycle; the only cycles are those that effects close by writing to a
//! cell that they themselves depend on, and a flush detects them.
use vstd::prelude::*;
use crate::errors::{ErrorBoundary, RuleError};

verus! {

/// A binary operation of a rule; results out of range fail with `Overflow`.
#[derive(Debug, Clone, Copy, PartialEq, Eq, Structural)]
pub enum BinOp {
    Add,
    Sub,
    Mul,
}

/// The recomputation rule of a node.
#[derive(Debug, PartialEq, Eq)]
pub enum Expr {
    Const(i64),
    /// Reads a signal cell, and depends on it.
    Cell(usize),
    /// Reads a derived node, and depends on it.
    Memo(usize),
    Bin(BinOp, Box<Expr>, Box<Expr>),
    /// Reads the condition, then only the branch it picks (non-zero: the first).
    If(Box<Expr>, Box<Expr>, Box<Expr>),
}

/// An edge from a node to what it read during its latest run.
#[derive(Debug, Clone, Copy, PartialEq, Eq, Structural)]
pub enum Dep {
    Cell(usize),
    Memo(usize),
}

/// The two kinds of computation node.
#[derive(Debug, Clone, Copy, PartialEq, Eq, Structural)]
pub enum NodeKind {
    /// A pure value, computed when read and cached until a dependency changes.
    Derived,
    /// A reaction run by each flush that finds it dirty. Its value is written
    /// to `target`, if any; its failures go to `boundary`, if any.
    Effect { target: Option<usize>, boundary: Option<usize> },
}

/// Why an operation of the runtime failed.
#[derive(Debug, Clone, Copy, PartialEq, Eq, Structural)]
pub enum EngineError {
    /// The cell, node or boundary named does not exist, or is of the wrong kind.
    InvalidHandle,
    /// An effect was made dirty again, within one flush, after it had run.
    CycleDetected,
    /// An effect outside any boundary failed.
    Rule(RuleError),
}

pub struct Node {
    pub kind: NodeKind,
    pub rule: Expr,
    /// The result of the latest run, if there was one.
    pub cache: Option<Result<i64, RuleError>>,
    /// What the latest run read.
    pub deps: Vec<Dep>,
    pub dirty: bool,
    /// How many times the rule has run.
    pub runs: u64,
}

pub struct Runtime {
    pub values: Vec<i64>,
    pub versions: Vec<u64>,
    pub nodes: Vec<Node>,
    pub boundaries: Vec<ErrorBoundary>,
}

pub open spec fn apply_op(op: BinOp, x: i64, y: i64) -> Result<i64, RuleError> {
    let v = match op {
        BinOp::Add => x + y,
        BinOp::Sub => x - y,
        BinOp::Mul => x * y,
    };
    if i64::MIN <= v <= i64::MAX {
        Ok(v as i64)
    } else {
        Err(RuleError::Overflow)
    }
}

pub open spec fn rules_of(nodes: Seq<Node>) -> Seq<Expr> {
    nodes.map_values(|n: Node| n.rule)
}

/// The value of `e` on the cells `values`, where a derived node below `bound`
/// has the value of its rule. Both operands of an operation are evaluated;
/// the first failure wins.
pub open spec fn eval(values: Seq<i64>, rules: Seq<Expr>, e: Expr, bound: nat) -> Result<i64, RuleError>
    decreases bound, e,
{
    match e {
        Expr::Const(v) => Ok(v),
        Expr::Cell(c) => if c < values.len() { Ok(values[c as int]) } else { Ok(0) },
        Expr::Memo(j) => if j < bound && j < rules.len() {
            eval(values, rules, rules[j as int], j as nat)
        } else {
            Ok(0)
        },
        Expr::Bin(op, a, b) => {
            let x = eval(values, rules, *a, bound);
            let y = eval(values, rules, *b, bound);
            match x {
                Err(err) => Err(err),
                Ok(x) => match y {
                    Err(err) => Err(err),
                    Ok(y) => apply_op(op, x, y),
                },
            }
        },
        Expr::If(c, t, f) => match eval(values, rules, *c, bound) {
            Err(err) => Err(err),
            Ok(x) => if x != 0 {
                eval(values, rules, *t, bound)
            } else {
                eval(values, rules, *f, bound)
            },
        },
    }
}

/// The value of derived node `j`: its rule applied to the current cells.
pub open spec fn memo_value(values: Seq<i64>, rules: Seq<Expr>, j: nat) -> Result<i64, RuleError> {
    eval(values, rules, rules[j as int], j)
}

/// What evaluating `e` reads: cells and derived nodes, not what those read.
pub open spec fn reads(values: Seq<i64>, rules: Seq<Expr>, e: Expr, bound: nat) -> Set<Dep>
    decreases e,
{
    match e {
        Expr::Const(_) => Set::empty(),
        Expr::Cell(c) => set![Dep::Cell(c)],
        Expr::Memo(j) => set![Dep::Memo(j)],
        Expr::Bin(_, a, b) => reads(values, rules, *a, bound).union(reads(values, rules, *b, bound)),
        Expr::If(c, t, f) => reads(values, rules, *c, bound).union(
            match eval(values, rules, *c, bound) {
                Err(_) => Set::empty(),
                Ok(x) => if x != 0 {
                    reads(values, rules, *t, bound)
                } else {
                    reads(values, rules, *f, bound)
                },
            },
        ),
    }
}

/// `e` reads only existing cells and derived nodes below `bound`.
pub open spec fn expr_ok(e: Expr, ncells: nat, nodes: Seq<Node>, bound: nat) -> bool
    decreases e,
{
    match e {
        Expr::Const(_) => true,
        Expr::Cell(c) => c < ncells,
        Expr::Memo(j) => j < bound && j < nodes.len() && nodes[j as int].kind == NodeKind::Derived,
        Expr::Bin(_, a, b) => expr_ok(*a, ncells, nodes, bound) && expr_ok(*b, ncells, nodes, bound),
        Expr::If(c, t, f) => expr_ok(*c, ncells, nodes, bound) && expr_ok(*t, ncells, nodes, bound)
            && expr_ok(*f, ncells, nodes, bound),
    }
}

pub open spec fn expr_size(e: Expr) -> nat
    decreases e,
{
    match e {
        Expr::Const(_) => 1,
        Expr::Cell(_) => 1,
        Expr::Memo(_) => 1,
        Expr::Bin(_, a, b) => 1 + expr_size(*a) + expr_size(*b),
        Expr::If(c, t, f) => 1 + expr_size(*c) + expr_size(*t) + expr_size(*f),
    }
}

/// Derived node `j` holds a cached result that is not marked dirty.
pub open spec fn fresh(nodes: Seq<Node>, j: int) -> bool {
    &&& nodes[j].kind == NodeKind::Derived
    &&& !nodes[j].dirty
    &&& nodes[j].cache is Some
}

/// A fresh derived node caches its rule's current value, its edges are what
/// that evaluation reads, and the derived nodes it read are fresh too.
pub open spec fn node_ok(values: Seq<i64>, nodes: Seq<Node>, j: int) -> bool {
    fresh(nodes, j) ==> {
        &&& nodes[j].cache == Some(memo_value(values, rules_of(nodes), j as nat))
        &&& forall|d: Dep| #[trigger] nodes[j].deps@.contains(d)
            <==> reads(values, rules_of(nodes), nodes[j].rule, j as nat).contains(d)
        &&& forall|k: usize| #[trigger] nodes[j].deps@.contains(Dep::Memo(k)) ==> k < j && fresh(nodes, k as int)
    }
}

/// Two node tables that differ at most in caches, edges, dirty flags and run counts.
pub open spec fn same_shape(a: Seq<Node>, b: Seq<Node>) -> bool {
    &&& a.len() == b.len()
    &&& forall|i: int| 0 <= i < a.len() ==> (#[trigger] a[i]).rule == b[i].rule && a[i].kind == b[i].kind
}

/// From `a` to `b` only derived nodes changed, and each of them is now fresh.
pub open spec fn evolves(a: Seq<Node>, b: Seq<Node>) -> bool {
    &&& same_shape(a, b)
    &&& forall|k: int| 0 <= k < a.len() ==> #[trigger] a[k] == b[k]
        || (a[k].kind == NodeKind::Derived && fresh(b, k))
}

proof fn lemma_shape_rules(a: Seq<Node>, b: Seq<Node>)
    requires
        same_shape(a, b),
    ensures
        rules_of(a) == rules_of(b),
{
    assert(rules_of(a) =~= rules_of(b));
}

proof fn lemma_shape_expr_ok(e: Expr, ncells: nat, a: Seq<Node>, b: Seq<Node>, bound: nat)
    requires
        same_shape(a, b),
        expr_ok(e, ncells, a, bound),
    ensures
        expr_ok(e, ncells, b, bound),
    decreases e,
{
    match e {
        Expr::Memo(j) => {
            assert(a[j as int].kind == b[j as int].kind);
        },
        Expr::Bin(_, x, y) => {
            lemma_shape_expr_ok(*x, ncells, a, b, bound);
            lemma_shape_expr_ok(*y, ncells, a, b, bound);
        },
        Expr::If(c, t, f) => {
            lemma_shape_expr_ok(*c, ncells, a, b, bound);
            lemma_shape_expr_ok(*t, ncells, a, b, bound);
            lemma_shape_expr_ok(*f, ncells, a, b, bound);
        },
        _ => {},
    }
}

proof fn lemma_evolves_trans(a: Seq<Node>, b: Seq<Node>, c: Seq<Node>)
    requires
        evolves(a, b),
        evolves(b, c),
    ensures
        evolves(a, c),
{
    assert forall|k: int| 0 <= k < a.len() implies #[trigger] a[k] == c[k]
        || (a[k].kind == NodeKind::Derived && fresh(c, k)) by {
        assert(a[k] == b[k] || (a[k].kind == NodeKind::Derived && fresh(b, k)));
        assert(b[k] == c[k] || (b[k].kind == NodeKind::Derived && fresh(c, k)));
    }
    assert forall|i: int| 0 <= i < a.len() implies (#[trigger] a[i]).rule == c[i].rule && a[i].kind == c[i].kind by {
        assert(a[i].rule == b[i].rule && a[i].kind == b[i].kind);
        assert(b[i].rule == c[i].rule && b[i].kind == c[i].kind);
    }
}

proof fn lemma_push_contains(s: Seq<Dep>, x: Dep)
    ensures
        forall|d: Dep| #[trigger] s.push(x).contains(d) <==> s.contains(d) || d == x,
{
    assert forall|d: Dep| #[trigger] s.push(x).contains(d) <==> s.contains(d) || d == x by {
        if s.contains(d) {
            let i = choose|i: int| 0 <= i < s.len() && s[i] == d;
            assert(s.push(x)[i] == d);
        }
        if d == x {
            assert(s.push(x)[s.len() as int] == x);
        }
        if s.push(x).contains(d) {
            let i = choose|i: int| 0 <= i < s.len() + 1 && s.push(x)[i] == d;
            if i < s.len() {
                assert(s[i] == d);
            }
        }
    }
}

/// Evaluation depends only on what it reads: cells that keep their value and
/// derived nodes that keep theirs give the same result and the same reads.
proof fn lemma_frame(v1: Seq<i64>, v2: Seq<i64>, rules: Seq<Expr>, e: Expr, bound: nat)
    requires
        forall|c: usize| #[trigger] reads(v1, rules, e, bound).contains(Dep::Cell(c))
            ==> c < v1.len() && c < v2.len() && v1[c as int] == v2[c as int],
        forall|k: usize| #[trigger] reads(v1, rules, e, bound).contains(Dep::Memo(k)) && k < bound && k < rules.len()
            ==> memo_value(v1, rules, k as nat) == memo_value(v2, rules, k as nat),
    ensures
        eval(v1, rules, e, bound) == eval(v2, rules, e, bound),
        reads(v1, rules, e, bound) == reads(v2, rules, e, bound),
    decreases e,
{
    match e {
        Expr::Cell(c) => {
            assert(reads(v1, rules, e, bound).contains(Dep::Cell(c)));
        },
        Expr::Memo(k) => {
            assert(reads(v1, rules, e, bound).contains(Dep::Memo(k)));
        },
        Expr::Bin(_, a, b) => {
            assert(reads(v1, rules, e, bound) == reads(v1, rules, *a, bound).union(reads(v1, rules, *b, bound)));
            assert forall|d: Dep| #[trigger] reads(v1, rules, *a, bound).contains(d)
                implies reads(v1, rules, e, bound).contains(d) by {}
            assert forall|d: Dep| #[trigger] reads(v1, rules, *b, bound).contains(d)
                implies reads(v1, rules, e, bound).contains(d) by {}
            lemma_frame(v1, v2, rules, *a, bound);
            lemma_frame(v1, v2, rules, *b, bound);
        },
        Expr::If(c, t, f) => {
            assert forall|d: Dep| #[trigger] reads(v1, rules, *c, bound).contains(d)
                implies reads(v1, rules, e, bound).contains(d) by {}
            lemma_frame(v1, v2, rules, *c, bound);
            match eval(v1, rules, *c, bound) {
                Ok(x) => {
                    assert forall|d: Dep| #[trigger] reads(v1, rules, *t, bound).contains(d) && x != 0
                        implies reads(v1, rules, e, bound).contains(d) by {}
                    assert forall|d: Dep| #[trigger] reads(v1, rules, *f, bound).contains(d) && x == 0
                        implies reads(v1, rules, e, bound).contains(d) by {}
                    if x != 0 {
                        lemma_frame(v1, v2, rules, *t, bound);
                    } else {
                        lemma_frame(v1, v2, rules, *f, bound);
                    }
                },
                Err(_) => {},
            }
        },
        _ => {},
    }
}

/// A well-formed rule reads only existing cells and derived nodes below its bound.
proof fn lemma_reads_bounded(values: Seq<i64>, rules: Seq<Expr>, e: Expr, bound: nat, ncells: nat, nodes: Seq<Node>)
    requires
        expr_ok(e, ncells, nodes, bound),
    ensures
        forall|c: usize| #[trigger] reads(values, rules, e, bound).contains(Dep::Cell(c)) ==> c < ncells,
        forall|k: usize| #[trigger] reads(values, rules, e, bound).contains(Dep::Memo(k)) ==> k < bound,
    decreases e,
{
    match e {
        Expr::Bin(_, a, b) => {
            lemma_reads_bounded(values, rules, *a, bound, ncells, nodes);
            lemma_reads_bounded(values, rules, *b, bound, ncells, nodes);
            assert(reads(values, rules, e, bound) == reads(values, rules, *a, bound).union(
                reads(values, rules, *b, bound)));
        },
        Expr::If(c, t, f) => {
            lemma_reads_bounded(values, rules, *c, bound, ncells, nodes);
            lemma_reads_bounded(values, rules, *t, bound, ncells, nodes);
            lemma_reads_bounded(values, rules, *f, bound, ncells, nodes);
            let rc = reads(values, rules, *c, bound);
            match eval(values, rules, *c, bound) {
                Err(_) => {
                    assert(reads(values, rules, e, bound) == rc.union(Set::<Dep>::empty()));
                },
                Ok(x) => {
                    if x != 0 {
                        assert(reads(values, rules, e, bound) == rc.union(reads(values, rules, *t, bound)));
                    } else {
                        assert(reads(values, rules, e, bound) == rc.union(reads(values, rules, *f, bound)));
                    }
                },
            }
        },
        Expr::Cell(c) => {
            assert(reads(values, rules, e, bound) == set![Dep::Cell(c)]);
        },
        Expr::Memo(k) => {
            assert(reads(values, rules, e, bound) == set![Dep::Memo(k)]);
        },
        _ => {},
    }
}

/// A new cell changes no value or edge of a rule written before it.
proof fn lemma_push_value(v0: Seq<i64>, x: i64, nodes: Seq<Node>, e: Expr, bound: nat)
    requires
        bound <= nodes.len(),
        expr_ok(e, v0.len() as nat, nodes, bound),
        forall|j: int| 0 <= j < nodes.len() ==> expr_ok(#[trigger] nodes[j].rule, v0.len() as nat, nodes, j as nat),
    ensures
        eval(v0, rules_of(nodes), e, bound) == eval(v0.push(x), rules_of(nodes), e, bound),
        reads(v0, rules_of(nodes), e, bound) == reads(v0.push(x), rules_of(nodes), e, bound),
    decreases bound, e,
{
    let rules = rules_of(nodes);
    match e {
        Expr::Cell(c) => {
            assert(v0.push(x)[c as int] == v0[c as int]);
        },
        Expr::Memo(j) => {
            assert(rules[j as int] == nodes[j as int].rule);
            lemma_push_value(v0, x, nodes, nodes[j as int].rule, j as nat);
        },
        Expr::Bin(_, a, b) => {
            lemma_push_value(v0, x, nodes, *a, bound);
            lemma_push_value(v0, x, nodes, *b, bound);
        },
        Expr::If(c, t, f) => {
            lemma_push_value(v0, x, nodes, *c, bound);
            lemma_push_value(v0, x, nodes, *t, bound);
            lemma_push_value(v0, x, nodes, *f, bound);
        },
        _ => {},
    }
}

/// Rules at or past `bound` play no part in evaluating below it.
proof fn lemma_rules_prefix(values: Seq<i64>, r1: Seq<Expr>, r2: Seq<Expr>, e: Expr, bound: nat)
    requires
        bound <= r1.len(),
        bound <= r2.len(),
        forall|k: int| 0 <= k < bound ==> r1[k] == r2[k],
    ensures
        eval(values, r1, e, bound) == eval(values, r2, e, bound),
        reads(values, r1, e, bound) == reads(values, r2, e, bound),
    decreases bound, e,
{
    match e {
        Expr::Memo(j) => {
            if j < bound {
                lemma_rules_prefix(values, r1, r2, r1[j as int], j as nat);
            }
        },
        Expr::Bin(_, a, b) => {
            lemma_rules_prefix(values, r1, r2, *a, bound);
            lemma_rules_prefix(values, r1, r2, *b, bound);
        },
        Expr::If(c, t, f) => {
            lemma_rules_prefix(values, r1, r2, *c, bound);
            lemma_rules_prefix(values, r1, r2, *t, bound);
            lemma_rules_prefix(values, r1, r2, *f, bound);
        },
        _ => {},
    }
}

proof fn lemma_expr_ok_grow(e: Expr, n1: nat, n2: nat, a: Seq<Node>, b: Seq<Node>, bound: nat)
    requires
        n1 <= n2,
        a.len() <= b.len(),
        forall|k: int| 0 <= k < a.len() ==> #[trigger] a[k] == b[k],
        expr_ok(e, n1, a, bound),
    ensures
        expr_ok(e, n2, b, bound),
    decreases e,
{
    match e {
        Expr::Memo(j) => {
            assert(a[j as int] == b[j as int]);
        },
        Expr::Bin(_, x, y) => {
            lemma_expr_ok_grow(*x, n1, n2, a, b, bound);
            lemma_expr_ok_grow(*y, n1, n2, a, b, bound);
        },
        Expr::If(c, t, f) => {
            lemma_expr_ok_grow(*c, n1, n2, a, b, bound);
            lemma_expr_ok_grow(*t, n1, n2, a, b, bound);
            lemma_expr_ok_grow(*f, n1, n2, a, b, bound);
        },
        _ => {},
    }
}

/// `a` and `b` differ at most in the dirty flag.
pub open spec fn same_but_dirty(a: Node, b: Node) -> bool {
    &&& a.kind == b.kind
    &&& a.rule == b.rule
    &&& a.cache == b.cache
    &&& a.deps == b.deps
    &&& a.runs == b.runs
}

/// Node `i` of `nodes` read cell `c` or a derived node that `dirty` marks.
pub open spec fn touched(nodes: Seq<Node>, i: int, c: usize, dirty: Seq<Node>) -> bool {
    nodes[i].deps@.contains(Dep::Cell(c)) || exists|k: usize|
        #[trigger] nodes[i].deps@.contains(Dep::Memo(k)) && k < dirty.len() && dirty[k as int].dirty
}

/// A copy of a rule.
fn copy_expr(e: &Expr) -> (r: Expr)
    ensures
        r == *e,
    decreases e,
{
    match e {
        Expr::Const(v) => Expr::Const(*v),
        Expr::Cell(c) => Expr::Cell(*c),
        Expr::Memo(j) => Expr::Memo(*j),
        Expr::Bin(op, a, b) => Expr::Bin(*op, Box::new(copy_expr(a)), Box::new(copy_expr(b))),
        Expr::If(c, t, f) => Expr::If(Box::new(copy_expr(c)), Box::new(copy_expr(t)), Box::new(copy_expr(f))),
    }
}

fn apply_bin(op: BinOp, x: i64, y: i64) -> (r: Result<i64, RuleError>)
    ensures
        r == apply_op(op, x, y),
{
    let v = match op {
        BinOp::Add => x.checked_add(y),
        BinOp::Sub => x.checked_sub(y),
        BinOp::Mul => x.checked_mul(y),
    };
    match v {
        Some(v) => Ok(v),
        None => Err(RuleError::Overflow),
    }
}

impl Runtime {
    pub open spec fn wf(&self) -> bool {
        &&& self.values@.len() == self.versions@.len()
        &&& forall|j: int| 0 <= j < self.nodes@.len() ==>
            expr_ok(#[trigger] self.nodes@[j].rule, self.values@.len(), self.nodes@, j as nat)
        &&& forall|j: int| 0 <= j < self.nodes@.len() ==> #[trigger] node_ok(self.values@, self.nodes@, j)
        &&& forall|j: int| 0 <= j < self.nodes@.len() ==> match (#[trigger] self.nodes@[j]).kind {
            NodeKind::Derived => true,
            NodeKind::Effect { target, boundary } =>
                (target matches Some(t) ==> t < self.values@.len())
                && (boundary matches Some(b) ==> b < self.boundaries@.len()),
        }
        &&& forall|b: int| 0 <= b < self.boundaries@.len() ==> (#[trigger] self.boundaries@[b]).wf()
        &&& forall|j: int, k: usize| 0 <= j < self.nodes@.len() && #[trigger] self.nodes@[j].deps@.contains(Dep::Memo(k))
            ==> k < j
    }

    pub open spec fn rules(&self) -> Seq<Expr> {
        rules_of(self.nodes@)
    }

    /// Evaluates `e`, refreshing the derived nodes it reads, and adds what it
    /// reads to `deps`.
    fn eval_expr(&mut self, e: &Expr, bound: usize, deps: &mut Vec<Dep>) -> (r: Result<i64, RuleError>)
        requires
            old(self).wf(),
            bound <= old(self).nodes@.len(),
            expr_ok(*e, old(self).values@.len(), old(self).nodes@, bound as nat),
        ensures
            final(self).wf(),
            final(self).values@ == old(self).values@,
            final(self).versions@ == old(self).versions@,
            final(self).boundaries@ == old(self).boundaries@,
            evolves(old(self).nodes@, final(self).nodes@),
            forall|i: int| bound <= i < old(self).nodes@.len() ==> #[trigger] final(self).nodes@[i] == old(self).nodes@[i],
            r == eval(old(self).values@, old(self).rules(), *e, bound as nat),
            forall|d: Dep| #[trigger] final(deps)@.contains(d) <==> old(deps)@.contains(d)
                || reads(old(self).values@, old(self).rules(), *e, bound as nat).contains(d),
            forall|k: usize| #[trigger] reads(old(self).values@, old(self).rules(), *e, bound as nat).contains(Dep::Memo(k))
                ==> k < bound && fresh(final(self).nodes@, k as int),
        decreases bound, 1nat, expr_size(*e),
    {
        let ghost n0 = self.nodes@;
        match e {
            Expr::Const(v) => {
                assert(reads(self.values@, self.rules(), *e, bound as nat) =~= Set::<Dep>::empty());
                Ok(*v)
            },
            Expr::Cell(c) => {
                proof { lemma_push_contains(deps@, Dep::Cell(*c)); }
                deps.push(Dep::Cell(*c));
                assert(reads(self.values@, self.rules(), *e, bound as nat) =~= set![Dep::Cell(*c)]);
                Ok(self.values[*c])
            },
            Expr::Memo(k) => {
                proof { lemma_push_contains(deps@, Dep::Memo(*k)); }
                deps.push(Dep::Memo(*k));
                assert(reads(self.values@, self.rules(), *e, bound as nat) =~= set![Dep::Memo(*k)]);
                self.read_memo_at(*k)
            },
            Expr::Bin(op, a, b) => {
                let x = self.eval_expr(a, bound, deps);
                proof {
                    lemma_shape_expr_ok(**b, self.values@.len() as nat, n0, self.nodes@, bound as nat);
                    lemma_shape_rules(n0, self.nodes@);
                }
                let ghost n1 = self.nodes@;
                let y = self.eval_expr(b, bound, deps);
                proof {
                    lemma_evolves_trans(n0, n1, self.nodes@);
                    let rd = reads(self.values@, rules_of(n0), *e, bound as nat);
                    assert(rd == reads(self.values@, rules_of(n0), **a, bound as nat).union(
                        reads(self.values@, rules_of(n0), **b, bound as nat)));
                    assert forall|k: usize| #[trigger] rd.contains(Dep::Memo(k))
                        implies k < bound && fresh(self.nodes@, k as int) by {
                        if reads(self.values@, rules_of(n0), **a, bound as nat).contains(Dep::Memo(k)) {
                            assert(fresh(n1, k as int));
                            assert(n1[k as int] == self.nodes@[k as int] || fresh(self.nodes@, k as int));
                        }
                    }
                }
                match x {
                    Err(err) => Err(err),
                    Ok(x) => match y {
                        Err(err) => Err(err),
                        Ok(y) => apply_bin(*op, x, y),
                    },
                }
            },
            Expr::If(c, t, f) => {
                let x = self.eval_expr(c, bound, deps);
                proof {
                    lemma_shape_expr_ok(**t, self.values@.len() as nat, n0, self.nodes@, bound as nat);
                    lemma_shape_expr_ok(**f, self.values@.len() as nat, n0, self.nodes@, bound as nat);
                    lemma_shape_rules(n0, self.nodes@);
                }
                let ghost n1 = self.nodes@;
                match x {
                    Err(err) => {
                        assert(reads(self.values@, rules_of(n0), *e, bound as nat) =~= reads(
                            self.values@,
                            rules_of(n0),
                            **c,
                            bound as nat,
                        ));
                        Err(err)
                    },
                    Ok(x) => {
                        let r = if x != 0 {
                            self.eval_expr(t, bound, deps)
                        } else {
                            self.eval_expr(f, bound, deps)
                        };
                        proof {
                            lemma_evolves_trans(n0, n1, self.nodes@);
                            let rc = reads(self.values@, rules_of(n0), **c, bound as nat);
                            let rb = if x != 0 {
                                reads(self.values@, rules_of(n0), **t, bound as nat)
                            } else {
                                reads(self.values@, rules_of(n0), **f, bound as nat)
                            };
                            let rd = reads(self.values@, rules_of(n0), *e, bound as nat);
                            assert(rd == rc.union(rb));
                            assert forall|k: usize| #[trigger] rd.contains(Dep::Memo(k))
                                implies k < bound && fresh(self.nodes@, k as int) by {
                                if rc.contains(Dep::Memo(k)) {
                                    assert(fresh(n1, k as int));
                                    assert(n1[k as int] == self.nodes@[k as int] || fresh(self.nodes@, k as int));
                                }
                            }
                        }
                        r
                    },
                }
            },
        }
    }

    /// The value of derived node `j`, running its rule only if its cache is
    /// missing or dirty.
    fn read_memo_at(&mut self, j: usize) -> (r: Result<i64, RuleError>)
        requires
            old(self).wf(),
            j < old(self).nodes@.len(),
            old(self).nodes@[j as int].kind == NodeKind::Derived,
        ensures
            final(self).wf(),
            final(self).values@ == old(self).values@,
            final(self).versions@ == old(self).versions@,
            final(self).boundaries@ == old(self).boundaries@,
            evolves(old(self).nodes@, final(self).nodes@),
            forall|i: int| j < i < old(self).nodes@.len() ==> #[trigger] final(self).nodes@[i] == old(self).nodes@[i],
            r == memo_value(old(self).values@, old(self).rules(), j as nat),
            fresh(final(self).nodes@, j as int),
            fresh(old(self).nodes@, j as int) ==> *final(self) == *old(self),
            final(self).nodes@[j as int].runs <= old(self).nodes@[j as int].runs + 1,
            !fresh(old(self).nodes@, j as int) && old(self).nodes@[j as int].runs < u64::MAX
                ==> final(self).nodes@[j as int].runs == old(self).nodes@[j as int].runs + 1,
        decreases j, 2nat, 0nat,
    {
        proof {
            assert(node_ok(self.values@, self.nodes@, j as int));
        }
        if !self.nodes[j].dirty {
            match &self.nodes[j].cache {
                Some(v) => {
                    return *v;
                },
                None => {},
            }
        }
        let ghost n0 = self.nodes@;
        let rule = copy_expr(&self.nodes[j].rule);
        let mut deps: Vec<Dep> = Vec::new();
        let r = self.eval_expr(&rule, j, &mut deps);
        let ghost n1 = self.nodes@;
        proof {
            lemma_shape_rules(n0, n1);
        }
        let runs = self.nodes[j].runs;
        let node = Node {
            kind: NodeKind::Derived,
            rule,
            cache: Some(r),
            deps,
            dirty: false,
            runs: if runs < u64::MAX { runs + 1 } else { runs },
        };
        self.nodes.set(j, node);
        proof {
            let n2 = self.nodes@;
            assert(same_shape(n1, n2));
            lemma_shape_rules(n1, n2);
            assert(fresh(n2, j as int));
            assert forall|k: int| 0 <= k < n2.len() implies #[trigger] node_ok(self.values@, n2, k) by {
                if k != j {
                    assert(node_ok(self.values@, n1, k));
                    if fresh(n2, k) {
                        assert(n2[k] == n1[k]);
                        assert forall|m: usize| #[trigger] n2[k].deps@.contains(Dep::Memo(m))
                            implies m < k && fresh(n2, m as int) by {
                            assert(fresh(n1, m as int));
                            if m as int != j as int {
                                assert(n2[m as int] == n1[m as int]);
                            }
                        }
                    }
                }
            }
            assert forall|k: int| 0 <= k < n2.len() implies expr_ok(
                #[trigger] n2[k].rule,
                self.values@.len() as nat,
                n2,
                k as nat,
            ) by {
                assert(expr_ok(n1[k].rule, self.values@.len() as nat, n1, k as nat));
                lemma_shape_expr_ok(n1[k].rule, self.values@.len() as nat, n1, n2, k as nat);
            }
            assert forall|k: int| 0 <= k < n0.len() implies #[trigger] n0[k] == n2[k]
                || (n0[k].kind == NodeKind::Derived && fresh(n2, k)) by {
                if k != j {
                    assert(n0[k] == n1[k] || (n0[k].kind == NodeKind::Derived && fresh(n1, k)));
                    assert(n1[k] == n2[k]);
                }
            }
        }
        r
    }
}

impl Runtime {
    /// Whether node `i` read cell `c` or a derived node now marked dirty.
    fn is_touched(&self, i: usize, c: usize) -> (r: bool)
        requires
            i < self.nodes@.len(),
            forall|k: usize| #[trigger] self.nodes@[i as int].deps@.contains(Dep::Memo(k)) ==> k < i,
        ensures
            r == touched(self.nodes@, i as int, c, self.nodes@),
    {
        let deps = &self.nodes[i].deps;
        let mut m: usize = 0;
        while m < deps.len()
            invariant
                i < self.nodes@.len(),
                deps == &self.nodes@[i as int].deps,
                forall|k: usize| #[trigger] deps@.contains(Dep::Memo(k)) ==> k < i,
                m <= deps@.len(),
                forall|q: int| 0 <= q < m ==> deps@[q] != Dep::Cell(c),
                forall|q: int, k: usize| 0 <= q < m && deps@[q] == Dep::Memo(k) ==> !self.nodes@[k as int].dirty,
            decreases deps@.len() - m,
        {
            match deps[m] {
                Dep::Cell(x) => {
                    if x == c {
                        assert(deps@.contains(Dep::Cell(c)));
                        return true;
                    }
                },
                Dep::Memo(k) => {
                    assert(deps@.contains(Dep::Memo(k)));
                    if self.nodes[k].dirty {
                        return true;
                    }
                },
            }
            m = m + 1;
        }
        proof {
            if deps@.contains(Dep::Cell(c)) {
                let q = choose|q: int| 0 <= q < deps@.len() && deps@[q] == Dep::Cell(c);
            }
            if exists|k: usize| #[trigger] deps@.contains(Dep::Memo(k)) && k < self.nodes@.len() && self.nodes@[k as int].dirty {
                let k = choose|k: usize| #[trigger] deps@.contains(Dep::Memo(k)) && k < self.nodes@.len() && self.nodes@[k as int].dirty;
                let q = choose|q: int| 0 <= q < deps@.len() && deps@[q] == Dep::Memo(k);
            }
        }
        false
    }

    /// Stores `v` in cell `c` and marks dirty every node whose value may have
    /// changed; nothing at all happens when the cell already holds `v`.
    fn mark_write(&mut self, c: usize, v: i64)
        requires
            old(self).wf(),
            c < old(self).values@.len(),
        ensures
            final(self).wf(),
            old(self).values@[c as int] == v ==> *final(self) == *old(self),
            final(self).values@ == old(self).values@.update(c as int, v),
            final(self).boundaries@ == old(self).boundaries@,
            final(self).nodes@.len() == old(self).nodes@.len(),
            old(self).values@[c as int] != v ==> final(self).versions@ == old(self).versions@.update(
                c as int,
                bumped(old(self).versions@[c as int]),
            ),
            old(self).values@[c as int] != v ==> forall|i: int| 0 <= i < old(self).nodes@.len() ==> {
                &&& same_but_dirty(#[trigger] final(self).nodes@[i], old(self).nodes@[i])
                &&& final(self).nodes@[i].dirty == (old(self).nodes@[i].dirty
                    || touched(old(self).nodes@, i, c, final(self).nodes@))
            },
    {
        if self.values[c] == v {
            return;
        }
        let ghost v0 = self.values@;
        let ghost n0 = self.nodes@;
        let ghost b0 = self.boundaries@;
        self.values.set(c, v);
        let ver = self.versions[c];
        self.versions.set(c, if ver < u64::MAX { ver + 1 } else { ver });
        let ghost ver1 = self.versions@;
        let n = self.nodes.len();
        let mut j: usize = 0;
        while j < n
            invariant
                n == self.nodes@.len(),
                n == n0.len(),
                j <= n,
                self.boundaries@ == b0,
                self.versions@ == ver1,
                v0.len() == self.values@.len(),
                self.values@ == v0.update(c as int, v),
                self.values@.len() == self.versions@.len(),
                c < v0.len(),
                v0[c as int] != v,
                forall|i: int| 0 <= i < n ==> same_but_dirty(#[trigger] self.nodes@[i], n0[i]),
                forall|i: int| j <= i < n ==> #[trigger] self.nodes@[i] == n0[i],
                forall|i: int| 0 <= i < j ==> (#[trigger] self.nodes@[i]).dirty == (n0[i].dirty
                    || touched(n0, i, c, self.nodes@)),
                forall|i: int| 0 <= i < j ==> #[trigger] node_ok(self.values@, self.nodes@, i),
                forall|i: int| 0 <= i < j && #[trigger] fresh(self.nodes@, i)
                    ==> memo_value(self.values@, rules_of(n0), i as nat) == memo_value(v0, rules_of(n0), i as nat),
                // what wf said of the nodes before the write
                forall|i: int| 0 <= i < n ==> expr_ok(#[trigger] n0[i].rule, v0.len() as nat, n0, i as nat),
                forall|i: int| 0 <= i < n ==> #[trigger] node_ok(v0, n0, i),
                forall|i: int, k: usize| 0 <= i < n && #[trigger] n0[i].deps@.contains(Dep::Memo(k)) ==> k < i,
            decreases n - j,
        {
            proof {
                assert(rules_of(self.nodes@) =~= rules_of(n0));
            }
            let ghost before = self.nodes@;
            proof {
                assert(same_but_dirty(self.nodes@[j as int], n0[j as int]));
            }
            if !self.nodes[j].dirty && self.is_touched(j, c) {
                self.nodes[j].dirty = true;
            }
            proof {
                let now = self.nodes@;
                let rules = rules_of(n0);
                assert(rules_of(now) =~= rules);
                assert forall|i: int| 0 <= i < n && i != j implies #[trigger] now[i] == before[i] by {}
                assert(now[j as int].deps == n0[j as int].deps);
                assert(touched(n0, j as int, c, now) == touched(before, j as int, c, before)) by {
                    if touched(before, j as int, c, before) && !before[j as int].deps@.contains(Dep::Cell(c)) {
                        let k = choose|k: usize| #[trigger] before[j as int].deps@.contains(Dep::Memo(k))
                            && k < before.len() && before[k as int].dirty;
                        assert(now[k as int] == before[k as int]);
                    }
                    if touched(n0, j as int, c, now) && !n0[j as int].deps@.contains(Dep::Cell(c)) {
                        let k = choose|k: usize| #[trigger] n0[j as int].deps@.contains(Dep::Memo(k))
                            && k < now.len() && now[k as int].dirty;
                        assert(now[k as int] == before[k as int]);
                    }
                }
                if fresh(now, j as int) {
                    assert(node_ok(v0, n0, j as int));
                    let rule = n0[j as int].rule;
                    assert(rules[j as int] == rule);
                    assert forall|k: usize| #[trigger] reads(v0, rules, rule, j as nat).contains(Dep::Memo(k))
                        && k < j && k < rules.len()
                        implies memo_value(v0, rules, k as nat) == memo_value(self.values@, rules, k as nat) by {
                        assert(n0[j as int].deps@.contains(Dep::Memo(k)));
                        assert(fresh(n0, k as int));
                        assert(!now[k as int].dirty);
                        assert(fresh(now, k as int));
                    }
                    assert(expr_ok(rule, v0.len() as nat, n0, j as nat));
                    lemma_reads_bounded(v0, rules, rule, j as nat, v0.len() as nat, n0);
                    assert forall|x: usize| #[trigger] reads(v0, rules, rule, j as nat).contains(Dep::Cell(x))
                        implies x < v0.len() && x < self.values@.len() && v0[x as int] == self.values@[x as int] by {
                        assert(n0[j as int].deps@.contains(Dep::Cell(x)));
                    }
                    lemma_frame(v0, self.values@, rules, rule, j as nat);
                    assert(memo_value(self.values@, rules, j as nat) == memo_value(v0, rules, j as nat));
                    assert forall|k: usize| #[trigger] now[j as int].deps@.contains(Dep::Memo(k))
                        implies k < j && fresh(now, k as int) by {
                        assert(n0[j as int].deps@.contains(Dep::Memo(k)));
                        assert(fresh(n0, k as int));
                        assert(!now[k as int].dirty);
                    }
                    assert(node_ok(self.values@, now, j as int));
                }
                assert forall|i: int| 0 <= i < j + 1 implies #[trigger] node_ok(self.values@, now, i) by {
                    if i < j {
                        assert(node_ok(self.values@, before, i));
                        if fresh(now, i) {
                            assert forall|k: usize| #[trigger] now[i].deps@.contains(Dep::Memo(k))
                                implies k < i && fresh(now, k as int) by {
                                assert(before[i].deps@.contains(Dep::Memo(k)));
                                assert(now[k as int] == before[k as int]);
                            }
                        }
                    }
                }
                assert forall|i: int| 0 <= i < j + 1 && #[trigger] fresh(now, i) implies memo_value(
                    self.values@,
                    rules,
                    i as nat,
                ) == memo_value(v0, rules, i as nat) by {
                    if i < j {
                        assert(fresh(before, i));
                    }
                }
                assert forall|i: int| 0 <= i < j + 1 implies (#[trigger] now[i]).dirty == (n0[i].dirty
                    || touched(n0, i, c, now)) by {
                    if i < j {
                        assert(before[i].dirty == (n0[i].dirty || touched(n0, i, c, before)));
                        if touched(n0, i, c, before) && !n0[i].deps@.contains(Dep::Cell(c)) {
                            let k = choose|k: usize| #[trigger] n0[i].deps@.contains(Dep::Memo(k))
                                && k < before.len() && before[k as int].dirty;
                            assert(now[k as int] == before[k as int]);
                        }
                        if touched(n0, i, c, now) && !n0[i].deps@.contains(Dep::Cell(c)) {
                            let k = choose|k: usize| #[trigger] n0[i].deps@.contains(Dep::Memo(k))
                                && k < now.len() && now[k as int].dirty;
                            assert(now[k as int] == before[k as int]);
                        }
                    }
                }
            }
            j = j + 1;
        }
        proof {
            let now = self.nodes@;
            assert(rules_of(now) =~= rules_of(n0));
            assert forall|i: int| 0 <= i < n implies expr_ok(#[trigger] now[i].rule, self.values@.len() as nat, now, i as nat) by {
                assert(expr_ok(n0[i].rule, v0.len() as nat, n0, i as nat));
                lemma_shape_expr_ok(n0[i].rule, v0.len() as nat, n0, now, i as nat);
            }
            assert forall|i: int| 0 <= i < n implies match (#[trigger] now[i]).kind {
                NodeKind::Derived => true,
                NodeKind::Effect { target, boundary } =>
                    (target matches Some(t) ==> t < self.values@.len())
                    && (boundary matches Some(b) ==> b < self.boundaries@.len()),
            } by {
                assert(same_but_dirty(now[i], n0[i]));
            }
            assert forall|i: int, k: usize| 0 <= i < n && #[trigger] now[i].deps@.contains(Dep::Memo(k))
                implies k < i by {
                assert(same_but_dirty(now[i], n0[i]));
            }
        }
    }
}

impl Runtime {
    /// A runtime with no cells, nodes or boundaries.
    pub fn new() -> (r: Self)
        ensures
            r.wf(),
            r.values@.len() == 0,
            r.nodes@.len() == 0,
            r.boundaries@.len() == 0,
    {
        Runtime { values: Vec::new(), versions: Vec::new(), nodes: Vec::new(), boundaries: Vec::new() }
    }

    /// A new signal cell holding `initial`, at version 0.
    pub fn create_signal(&mut self, initial: i64) -> (r: usize)
        requires
            old(self).wf(),
        ensures
            final(self).wf(),
            r == old(self).values@.len(),
            final(self).values@ == old(self).values@.push(initial),
            final(self).versions@ == old(self).versions@.push(0),
            final(self).nodes@ == old(self).nodes@,
            final(self).boundaries@ == old(self).boundaries@,
    {
        let ghost v0 = self.values@;
        let r = self.values.len();
        self.values.push(initial);
        self.versions.push(0);
        proof {
            let nodes = self.nodes@;
            let rules = rules_of(nodes);
            assert forall|j: int| 0 <= j < nodes.len() implies #[trigger] node_ok(self.values@, nodes, j) by {
                assert(node_ok(v0, nodes, j));
                assert(expr_ok(nodes[j].rule, v0.len() as nat, nodes, j as nat));
                lemma_push_value(v0, initial, nodes, nodes[j].rule, j as nat);
                assert(rules[j] == nodes[j].rule);
            }
            assert forall|j: int| 0 <= j < nodes.len() implies expr_ok(#[trigger] nodes[j].rule, self.values@.len() as nat, nodes, j as nat) by {
                lemma_expr_ok_grow(nodes[j].rule, v0.len() as nat, self.values@.len() as nat, nodes, nodes, j as nat);
            }
        }
        r
    }
}

impl Runtime {
    /// Whether `e` reads only existing cells and derived nodes below `bound`.
    fn check_expr(&self, e: &Expr, bound: usize) -> (r: bool)
        requires
            bound <= self.nodes@.len(),
        ensures
            r == expr_ok(*e, self.values@.len() as nat, self.nodes@, bound as nat),
        decreases e,
    {
        match e {
            Expr::Const(_) => true,
            Expr::Cell(c) => *c < self.values.len(),
            Expr::Memo(j) => *j < bound && self.nodes[*j].kind == NodeKind::Derived,
            Expr::Bin(_, a, b) => self.check_expr(a, bound) && self.check_expr(b, bound),
            Expr::If(c, t, f) => self.check_expr(c, bound) && self.check_expr(t, bound) && self.check_expr(f, bound),
        }
    }

    /// Appends a node that has never run.
    fn push_node(&mut self, kind: NodeKind, rule: Expr) -> (r: usize)
        requires
            old(self).wf(),
            expr_ok(rule, old(self).values@.len() as nat, old(self).nodes@, old(self).nodes@.len() as nat),
            match kind {
                NodeKind::Derived => true,
                NodeKind::Effect { target, boundary } =>
                    (target matches Some(t) ==> t < old(self).values@.len())
                    && (boundary matches Some(b) ==> b < old(self).boundaries@.len()),
            },
        ensures
            final(self).wf(),
            r == old(self).nodes@.len(),
            final(self).values@ == old(self).values@,
            final(self).versions@ == old(self).versions@,
            final(self).boundaries@ == old(self).boundaries@,
            final(self).nodes@.len() == old(self).nodes@.len() + 1,
            forall|i: int| 0 <= i < r ==> #[trigger] final(self).nodes@[i] == old(self).nodes@[i],
            final(self).nodes@[r as int].kind == kind,
            final(self).nodes@[r as int].rule == rule,
            final(self).nodes@[r as int].cache is None,
            final(self).nodes@[r as int].dirty,
            final(self).nodes@[r as int].runs == 0,
    {
        let ghost n0 = self.nodes@;
        let r = self.nodes.len();
        let ghost rl = rule;
        self.nodes.push(Node { kind, rule, cache: None, deps: Vec::new(), dirty: true, runs: 0 });
        proof {
            let n1 = self.nodes@;
            let values = self.values@;
            assert forall|k: int| 0 <= k < n0.len() implies #[trigger] n0[k] == n1[k] by {}
            assert forall|k: int| 0 <= k < n0.len() implies rules_of(n0)[k] == rules_of(n1)[k] by {}
            assert forall|j: int| 0 <= j < n1.len() implies #[trigger] node_ok(values, n1, j) by {
                if j < r {
                    assert(node_ok(values, n0, j));
                    lemma_rules_prefix(values, rules_of(n0), rules_of(n1), n0[j].rule, j as nat);
                    if fresh(n1, j) {
                        assert forall|k: usize| #[trigger] n1[j].deps@.contains(Dep::Memo(k))
                            implies k < j && fresh(n1, k as int) by {
                            assert(n0[j].deps@.contains(Dep::Memo(k)));
                        }
                    }
                }
            }
            assert forall|j: int| 0 <= j < n1.len() implies expr_ok(#[trigger] n1[j].rule, values.len() as nat, n1, j as nat) by {
                if j < r {
                    assert(expr_ok(n0[j].rule, values.len() as nat, n0, j as nat));
                    lemma_expr_ok_grow(n0[j].rule, values.len() as nat, values.len() as nat, n0, n1, j as nat);
                } else {
                    lemma_expr_ok_grow(rl, values.len() as nat, values.len() as nat, n0, n1, j as nat);
                }
            }
            assert forall|j: int, k: usize| 0 <= j < n1.len() && #[trigger] n1[j].deps@.contains(Dep::Memo(k))
                implies k < j by {
                if j < r {
                    assert(n0[j].deps@.contains(Dep::Memo(k)));
                }
            }
        }
        r
    }

    /// A derived node computed by `rule`, evaluated only when read. The rule
    /// may read existing cells and existing derived nodes.
    pub fn create_memo(&mut self, rule: Expr) -> (r: Result<usize, EngineError>)
        requires
            old(self).wf(),
        ensures
            final(self).wf(),
            final(self).values@ == old(self).values@,
            final(self).boundaries@ == old(self).boundaries@,
            expr_ok(rule, old(self).values@.len() as nat, old(self).nodes@, old(self).nodes@.len() as nat) ==> {
                &&& r == Ok::<usize, EngineError>(old(self).nodes@.len() as usize)
                &&& final(self).nodes@.len() == old(self).nodes@.len() + 1
                &&& final(self).nodes@[old(self).nodes@.len() as int].kind == NodeKind::Derived
                &&& final(self).nodes@[old(self).nodes@.len() as int].rule == rule
                &&& forall|i: int| 0 <= i < old(self).nodes@.len() ==> #[trigger] final(self).nodes@[i] == old(self).nodes@[i]
            },
            !expr_ok(rule, old(self).values@.len() as nat, old(self).nodes@, old(self).nodes@.len() as nat) ==> r
                == Err::<usize, EngineError>(EngineError::InvalidHandle) && *final(self) == *old(self),
    {
        if !self.check_expr(&rule, self.nodes.len()) {
            return Err(EngineError::InvalidHandle);
        }
        Ok(self.push_node(NodeKind::Derived, rule))
    }

    /// An effect computed by `rule`: the next flush runs it, and so does every
    /// flush after a change to what it read. A success is written to cell
    /// `target`, if given; the outcome is reported to `boundary`, if given,
    /// under the effect's index as failure site.
    pub fn create_effect(&mut self, rule: Expr, target: Option<usize>, boundary: Option<usize>) -> (r: Result<
        usize,
        EngineError,
    >)
        requires
            old(self).wf(),
        ensures
            final(self).wf(),
            final(self).values@ == old(self).values@,
            final(self).boundaries@ == old(self).boundaries@,
            ({
                let ok = expr_ok(rule, old(self).values@.len() as nat, old(self).nodes@, old(self).nodes@.len() as nat)
                    && (target matches Some(t) ==> t < old(self).values@.len())
                    && (boundary matches Some(b) ==> b < old(self).boundaries@.len());
                &&& ok ==> r == Ok::<usize, EngineError>(old(self).nodes@.len() as usize)
                    && final(self).nodes@.len() == old(self).nodes@.len() + 1
                    && final(self).nodes@[old(self).nodes@.len() as int].kind == (NodeKind::Effect { target, boundary })
                    && final(self).nodes@[old(self).nodes@.len() as int].rule == rule
                    && final(self).nodes@[old(self).nodes@.len() as int].dirty
                    && forall|i: int| 0 <= i < old(self).nodes@.len() ==> #[trigger] final(self).nodes@[i] == old(self).nodes@[i]
                &&& !ok ==> r == Err::<usize, EngineError>(EngineError::InvalidHandle) && *final(self) == *old(self)
            }),
    {
        if !self.check_expr(&rule, self.nodes.len()) {
            return Err(EngineError::InvalidHandle);
        }
        if let Some(t) = target {
            if t >= self.values.len() {
                return Err(EngineError::InvalidHandle);
            }
        }
        if let Some(b) = boundary {
            if b >= self.boundaries.len() {
                return Err(EngineError::InvalidHandle);
            }
        }
        Ok(self.push_node(NodeKind::Effect { target, boundary }, rule))
    }

    /// A new error boundary with no failures.
    pub fn create_boundary(&mut self) -> (r: usize)
        requires
            old(self).wf(),
        ensures
            final(self).wf(),
            r == old(self).boundaries@.len(),
            final(self).boundaries@.len() == old(self).boundaries@.len() + 1,
            final(self).boundaries@[r as int].entries@.len() == 0,
            forall|i: int| 0 <= i < r ==> #[trigger] final(self).boundaries@[i] == old(self).boundaries@[i],
            final(self).values@ == old(self).values@,
            final(self).nodes@ == old(self).nodes@,
    {
        let r = self.boundaries.len();
        self.boundaries.push(ErrorBoundary::new());
        r
    }

    /// The value of cell `c`.
    pub fn read_signal(&self, c: usize) -> (r: Result<i64, EngineError>)
        ensures
            c < self.values@.len() ==> r == Ok::<i64, EngineError>(self.values@[c as int]),
            c >= self.values@.len() ==> r == Err::<i64, EngineError>(EngineError::InvalidHandle),
    {
        if c >= self.values.len() {
            return Err(EngineError::InvalidHandle);
        }
        Ok(self.values[c])
    }

    /// The version of cell `c`: how many writes changed its value.
    pub fn version(&self, c: usize) -> (r: Result<u64, EngineError>)
        requires
            self.wf(),
        ensures
            c < self.values@.len() ==> r == Ok::<u64, EngineError>(self.versions@[c as int]),
            c >= self.values@.len() ==> r == Err::<u64, EngineError>(EngineError::InvalidHandle),
    {
        if c >= self.versions.len() {
            return Err(EngineError::InvalidHandle);
        }
        Ok(self.versions[c])
    }

    /// The value of derived node `j`: its rule applied to the cells as they
    /// are now. The rule runs only if the node is dirty or has never run, and
    /// then once; after that the node is fresh.
    pub fn read_memo(&mut self, j: usize) -> (r: Result<Result<i64, RuleError>, EngineError>)
        requires
            old(self).wf(),
        ensures
            final(self).wf(),
            final(self).values@ == old(self).values@,
            final(self).boundaries@ == old(self).boundaries@,
            j < old(self).nodes@.len() && old(self).nodes@[j as int].kind == NodeKind::Derived ==> {
                &&& r == Ok::<Result<i64, RuleError>, EngineError>(memo_value(old(self).values@, old(self).rules(), j as nat))
                &&& fresh(final(self).nodes@, j as int)
                &&& evolves(old(self).nodes@, final(self).nodes@)
                &&& final(self).nodes@[j as int].runs <= old(self).nodes@[j as int].runs + 1
                &&& !fresh(old(self).nodes@, j as int) && old(self).nodes@[j as int].runs < u64::MAX
                    ==> final(self).nodes@[j as int].runs == old(self).nodes@[j as int].runs + 1
                &&& fresh(old(self).nodes@, j as int) ==> *final(self) == *old(self)
            },
            !(j < old(self).nodes@.len() && old(self).nodes@[j as int].kind == NodeKind::Derived) ==> r
                == Err::<Result<i64, RuleError>, EngineError>(EngineError::InvalidHandle) && *final(self) == *old(self),
    {
        if j >= self.nodes.len() || self.nodes[j].kind != NodeKind::Derived {
            return Err(EngineError::InvalidHandle);
        }
        Ok(self.read_memo_at(j))
    }

    /// How many times the rule of node `j` has run.
    pub fn runs(&self, j: usize) -> (r: Result<u64, EngineError>)
        ensures
            j < self.nodes@.len() ==> r == Ok::<u64, EngineError>(self.nodes@[j as int].runs),
            j >= self.nodes@.len() ==> r == Err::<u64, EngineError>(EngineError::InvalidHandle),
    {
        if j >= self.nodes.len() {
            return Err(EngineError::InvalidHandle);
        }
        Ok(self.nodes[j].runs)
    }

    /// The number of failure sites that boundary `b` holds a failure for.
    pub fn boundary_error_count(&self, b: usize) -> (r: Result<usize, EngineError>)
        ensures
            b < self.boundaries@.len() ==> r == Ok::<usize, EngineError>(self.boundaries@[b as int].entries@.len() as usize),
            b >= self.boundaries@.len() ==> r == Err::<usize, EngineError>(EngineError::InvalidHandle),
    {
        if b >= self.boundaries.len() {
            return Err(EngineError::InvalidHandle);
        }
        Ok(self.boundaries[b].len())
    }
}

/// One more than `x`, stopping at the largest value.
pub open spec fn bumped(x: u64) -> u64 {
    if x < u64::MAX {
        (x + 1) as u64
    } else {
        x
    }
}

pub open spec fn target_of(k: NodeKind) -> Option<usize> {
    match k {
        NodeKind::Effect { target, .. } => target,
        NodeKind::Derived => None,
    }
}

pub open spec fn boundary_of(k: NodeKind) -> Option<usize> {
    match k {
        NodeKind::Effect { boundary, .. } => boundary,
        NodeKind::Derived => None,
    }
}

/// Some effect writes its result to cell `c`.
pub open spec fn targeted(nodes: Seq<Node>, c: int) -> bool {
    exists|i: int| 0 <= i < nodes.len() && target_of(#[trigger] nodes[i].kind) == Some(c as usize)
}

/// Some effect writes its result to a cell.
pub open spec fn has_target(nodes: Seq<Node>) -> bool {
    exists|i: int| 0 <= i < nodes.len() && (#[trigger] target_of(nodes[i].kind)) is Some
}

/// Some effect reports its failures to no boundary.
pub open spec fn unguarded(nodes: Seq<Node>) -> bool {
    exists|i: int| 0 <= i < nodes.len() && nodes[i].kind is Effect && (#[trigger] boundary_of(nodes[i].kind)) is None
}

/// Cells that no effect of `nodes` targets hold the same value and version in
/// both states.
pub open spec fn untargeted_same(nodes: Seq<Node>, v0: Seq<i64>, ver0: Seq<u64>, v1: Seq<i64>, ver1: Seq<u64>) -> bool {
    forall|c: int| 0 <= c < v0.len() && !targeted(nodes, c) ==> #[trigger] v1[c] == v0[c] && ver1[c] == ver0[c]
}

/// What a write of `v` to cell `c` followed by a flush did, from `s0` to `s1`
/// with result `r`.
pub open spec fn set_outcome(s0: Runtime, s1: Runtime, c: usize, v: i64, r: Result<(), EngineError>) -> bool {
    &&& s1.values@.len() == s0.values@.len()
    &&& s1.nodes@.len() == s0.nodes@.len()
    &&& same_shape(s0.nodes@, s1.nodes@)
    // the write itself, seen where no effect writes over it
    &&& !targeted(s0.nodes@, c as int) ==> s1.values@[c as int] == v && s1.versions@[c as int] == (if s0.values@[c as int]
        != v {
        bumped(s0.versions@[c as int])
    } else {
        s0.versions@[c as int]
    })
    &&& forall|d: int| 0 <= d < s0.values@.len() && d != c && !targeted(s0.nodes@, d)
        ==> #[trigger] s1.values@[d] == s0.values@[d] && s1.versions@[d] == s0.versions@[d]
    // the flush
    &&& r is Ok ==> settled(s1.nodes@)
    &&& r is Ok ==> forall|i: int| 0 <= i < s0.nodes@.len() && (#[trigger] s0.nodes@[i]).kind is Effect
        && (s0.nodes@[i].dirty || (s0.values@[c as int] != v && s0.nodes@[i].deps@.contains(Dep::Cell(c))))
        && s0.nodes@[i].runs < u64::MAX ==> s1.nodes@[i].runs > s0.nodes@[i].runs
    &&& r is Err ==> (r == Err::<(), EngineError>(EngineError::CycleDetected) && has_target(s0.nodes@))
        || (r->Err_0 is Rule && unguarded(s0.nodes@))
    &&& s0.values@[c as int] == v && settled(s0.nodes@) ==> r is Ok && s1 == s0
}

proof fn lemma_same_shape_kinds(a: Seq<Node>, b: Seq<Node>)
    requires
        same_shape(a, b),
    ensures
        forall|c: int| targeted(a, c) == targeted(b, c),
        has_target(a) == has_target(b),
        unguarded(a) == unguarded(b),
{
    assert forall|c: int| targeted(a, c) == targeted(b, c) by {
        if targeted(a, c) {
            let i = choose|i: int| 0 <= i < a.len() && target_of(#[trigger] a[i].kind) == Some(c as usize);
            assert(a[i].kind == b[i].kind);
        }
        if targeted(b, c) {
            let i = choose|i: int| 0 <= i < b.len() && target_of(#[trigger] b[i].kind) == Some(c as usize);
            assert(a[i].kind == b[i].kind);
        }
    }
    if has_target(a) {
        let i = choose|i: int| 0 <= i < a.len() && (#[trigger] target_of(a[i].kind)) is Some;
        assert(a[i].kind == b[i].kind);
    }
    if has_target(b) {
        let i = choose|i: int| 0 <= i < b.len() && (#[trigger] target_of(b[i].kind)) is Some;
        assert(a[i].kind == b[i].kind);
    }
    if unguarded(a) {
        let i = choose|i: int| 0 <= i < a.len() && a[i].kind is Effect && (#[trigger] boundary_of(a[i].kind)) is None;
        assert(a[i].kind == b[i].kind);
    }
    if unguarded(b) {
        let i = choose|i: int| 0 <= i < b.len() && b[i].kind is Effect && (#[trigger] boundary_of(b[i].kind)) is None;
        assert(a[i].kind == b[i].kind);
    }
}

/// The cells `values` after the writes `(cell, value)` of `writes`, in order.
pub open spec fn apply_writes(values: Seq<i64>, writes: Seq<(usize, i64)>) -> Seq<i64>
    decreases writes.len(),
{
    if writes.len() == 0 {
        values
    } else {
        apply_writes(values, writes.drop_last()).update(writes.last().0 as int, writes.last().1)
    }
}

/// No effect of `nodes` is waiting to run.
pub open spec fn settled(nodes: Seq<Node>) -> bool {
    forall|i: int| 0 <= i < nodes.len() && (#[trigger] nodes[i]).kind is Effect ==> !nodes[i].dirty
}

impl Runtime {
    /// Runs effect `i`: evaluates its rule, records what it read, reports the
    /// outcome to its boundary and writes a success to its target cell.
    fn run_effect(&mut self, i: usize) -> (r: Result<(), EngineError>)
        requires
            old(self).wf(),
            i < old(self).nodes@.len(),
            old(self).nodes@[i as int].kind is Effect,
        ensures
            final(self).wf(),
            final(self).nodes@.len() == old(self).nodes@.len(),
            final(self).boundaries@.len() == old(self).boundaries@.len(),
            final(self).values@.len() == old(self).values@.len(),
            same_shape(old(self).nodes@, final(self).nodes@),
            r is Err ==> r->Err_0 is Rule && boundary_of(old(self).nodes@[i as int].kind) is None,
            forall|c: int| 0 <= c < old(self).values@.len() && target_of(old(self).nodes@[i as int].kind) != Some(c as usize)
                ==> #[trigger] final(self).values@[c] == old(self).values@[c] && final(self).versions@[c] == old(self).versions@[c],
            final(self).nodes@[i as int].runs == bumped(old(self).nodes@[i as int].runs),
            forall|k: int| 0 <= k < old(self).nodes@.len() && k != i && (#[trigger] old(self).nodes@[k]).kind is Effect
                ==> final(self).nodes@[k].runs == old(self).nodes@[k].runs,
            forall|k: int| 0 <= k < old(self).nodes@.len() && k != i && (#[trigger] old(self).nodes@[k]).kind is Effect
                && old(self).nodes@[k].dirty ==> final(self).nodes@[k].dirty,
            target_of(old(self).nodes@[i as int].kind) is None ==> !final(self).nodes@[i as int].dirty && forall|k: int|
                0 <= k < old(self).nodes@.len() && k != i && (#[trigger] old(self).nodes@[k]).kind is Effect
                ==> final(self).nodes@[k].dirty == old(self).nodes@[k].dirty,
    {
        let ghost n0 = self.nodes@;
        let ghost v0 = self.values@;
        let ghost ver0 = self.versions@;
        let rule = copy_expr(&self.nodes[i].rule);
        let kind = self.nodes[i].kind;
        let mut deps: Vec<Dep> = Vec::new();
        let r = self.eval_expr(&rule, i, &mut deps);
        let ghost n1 = self.nodes@;
        let runs = self.nodes[i].runs;
        self.nodes[i].cache = Some(r);
        self.nodes[i].deps = deps;
        self.nodes[i].dirty = false;
        self.nodes[i].runs = if runs < u64::MAX { runs + 1 } else { runs };
        proof {
            let n2 = self.nodes@;
            assert(n1[i as int] == n0[i as int] || fresh(n1, i as int));
            assert forall|k: int| 0 <= k < n0.len() && k != i && n0[k].kind is Effect implies n2[k] == n0[k] by {
                assert(n0[k] == n1[k] || fresh(n1, k));
            }
            assert(n1[i as int].kind is Effect);
            assert forall|k: int| 0 <= k < n2.len() && k != i implies #[trigger] n2[k] == n1[k] by {}
            assert(rules_of(n2) =~= rules_of(n1));
            assert forall|j: int| 0 <= j < n2.len() implies #[trigger] node_ok(self.values@, n2, j) by {
                if j != i {
                    assert(node_ok(self.values@, n1, j));
                    if fresh(n2, j) {
                        assert forall|k: usize| #[trigger] n2[j].deps@.contains(Dep::Memo(k))
                            implies k < j && fresh(n2, k as int) by {
                            assert(n1[j].deps@.contains(Dep::Memo(k)));
                            assert(fresh(n1, k as int));
                        }
                    }
                }
            }
            assert forall|j: int| 0 <= j < n2.len() implies expr_ok(#[trigger] n2[j].rule, self.values@.len() as nat, n2, j as nat) by {
                assert(expr_ok(n1[j].rule, self.values@.len() as nat, n1, j as nat));
                lemma_shape_expr_ok(n1[j].rule, self.values@.len() as nat, n1, n2, j as nat);
            }
            assert forall|j: int, k: usize| 0 <= j < n2.len() && #[trigger] n2[j].deps@.contains(Dep::Memo(k))
                implies k < j by {
                if j != i {
                    assert(n1[j].deps@.contains(Dep::Memo(k)));
                }
            }
            assert forall|j: int| 0 <= j < n2.len() implies match (#[trigger] n2[j]).kind {
                NodeKind::Derived => true,
                NodeKind::Effect { target, boundary } =>
                    (target matches Some(t) ==> t < self.values@.len())
                    && (boundary matches Some(b) ==> b < self.boundaries@.len()),
            } by {
                assert(n1[j].kind == n2[j].kind);
            }
        }
        match kind {
            NodeKind::Effect { target, boundary } => {
                if let Some(b) = boundary {
                    self.boundaries[b].record(i as u64, &r);
                }
                match r {
                    Ok(v) => {
                        if let Some(t) = target {
                            self.mark_write(t, v);
                        }
                        Ok(())
                    },
                    Err(e) => {
                        if boundary.is_none() {
                            Err(EngineError::Rule(e))
                        } else {
                            Ok(())
                        }
                    },
                }
            },
            NodeKind::Derived => Ok(()),
        }
    }
}

impl Runtime {
    /// The first effect waiting to run, in creation order.
    fn next_dirty_effect(&self) -> (r: Option<usize>)
        ensures
            match r {
                Some(i) => i < self.nodes@.len() && self.nodes@[i as int].kind is Effect && self.nodes@[i as int].dirty,
                None => settled(self.nodes@),
            },
    {
        let mut i: usize = 0;
        while i < self.nodes.len()
            invariant
                i <= self.nodes@.len(),
                forall|k: int| 0 <= k < i && (#[trigger] self.nodes@[k]).kind is Effect ==> !self.nodes@[k].dirty,
            decreases self.nodes@.len() - i,
        {
            let is_effect = match self.nodes[i].kind {
                NodeKind::Effect { .. } => true,
                NodeKind::Derived => false,
            };
            if is_effect && self.nodes[i].dirty {
                return Some(i);
            }
            i = i + 1;
        }
        None
    }

    /// Which nodes are effects waiting to run.
    fn dirty_effects(&self) -> (r: Vec<bool>)
        ensures
            r@.len() == self.nodes@.len(),
            forall|q: int| 0 <= q < self.nodes@.len() ==> #[trigger] r@[q] == (self.nodes@[q].kind is Effect
                && self.nodes@[q].dirty),
    {
        let n = self.nodes.len();
        let mut pending: Vec<bool> = Vec::new();
        let mut k: usize = 0;
        while k < n
            invariant
                k <= n,
                n == self.nodes@.len(),
                pending@.len() == k,
                forall|q: int| 0 <= q < k ==> #[trigger] pending@[q] == (self.nodes@[q].kind is Effect && self.nodes@[q].dirty),
            decreases n - k,
        {
            let is_effect = match self.nodes[k].kind {
                NodeKind::Effect { .. } => true,
                NodeKind::Derived => false,
            };
            pending.push(is_effect && self.nodes[k].dirty);
            k = k + 1;
        }
        pending
    }

    /// Runs dirty effects in rounds until none is left. A round runs, in
    /// creation order, each effect that was dirty when the round began; effects
    /// that a round dirties wait for the next one. An effect of round `k` was
    /// dirtied through a chain of `k` runs, each dirtying the next, so an
    /// effect still dirty after as many rounds as there are nodes lies on a
    /// chain that repeats an effect: its own run dirtied it again, and the
    /// flush stops with `CycleDetected`. A failing effect outside any boundary
    /// stops the flush with its failure.
    pub fn flush(&mut self) -> (r: Result<(), EngineError>)
        requires
            old(self).wf(),
        ensures
            final(self).wf(),
            final(self).nodes@.len() == old(self).nodes@.len(),
            final(self).values@.len() == old(self).values@.len(),
            final(self).boundaries@.len() == old(self).boundaries@.len(),
            same_shape(old(self).nodes@, final(self).nodes@),
            untargeted_same(old(self).nodes@, old(self).values@, old(self).versions@, final(self).values@, final(self).versions@),
            r is Ok ==> settled(final(self).nodes@),
            r is Ok ==> forall|i: int| 0 <= i < old(self).nodes@.len() && (#[trigger] old(self).nodes@[i]).kind is Effect
                && old(self).nodes@[i].dirty && old(self).nodes@[i].runs < u64::MAX
                ==> final(self).nodes@[i].runs > old(self).nodes@[i].runs,
            r is Err ==> r == Err::<(), EngineError>(EngineError::CycleDetected) || r->Err_0 is Rule,
            r == Err::<(), EngineError>(EngineError::CycleDetected) ==> !settled(final(self).nodes@)
                && has_target(old(self).nodes@),
            r is Err && r->Err_0 is Rule ==> unguarded(old(self).nodes@),
            settled(old(self).nodes@) ==> r is Ok && *final(self) == *old(self),
    {
        let n = self.nodes.len();
        let ghost n0 = self.nodes@;
        let mut rounds_left: usize = n;
        let mut first = true;
        loop
            invariant
                self.wf(),
                self.nodes@.len() == n,
                n == n0.len(),
                n0 == old(self).nodes@,
                self.values@.len() == old(self).values@.len(),
                self.boundaries@.len() == old(self).boundaries@.len(),
                same_shape(n0, self.nodes@),
                untargeted_same(n0, old(self).values@, old(self).versions@, self.values@, self.versions@),
                forall|i: int| 0 <= i < n && (#[trigger] n0[i]).kind is Effect ==> self.nodes@[i].runs >= n0[i].runs,
                !first ==> forall|i: int| 0 <= i < n && (#[trigger] n0[i]).kind is Effect && n0[i].dirty
                    && n0[i].runs < u64::MAX ==> self.nodes@[i].runs > n0[i].runs,
                !first && !has_target(n0) ==> settled(self.nodes@),
                first ==> *self == *old(self),
                first ==> rounds_left == n,
                settled(old(self).nodes@) ==> first,
            decreases rounds_left,
        {
            if self.next_dirty_effect().is_none() {
                return Ok(());
            }
            if rounds_left == 0 {
                return Err(EngineError::CycleDetected);
            }
            rounds_left = rounds_left - 1;
            let pending = self.dirty_effects();
            let ghost start = self.nodes@;
            let ghost was_first = first;
            let mut k: usize = 0;
            while k < n
                invariant
                    self.wf(),
                    k <= n,
                    self.nodes@.len() == n,
                    n == n0.len(),
                    n0 == old(self).nodes@,
                    !settled(old(self).nodes@),
                    first == was_first,
                    pending@.len() == n,
                    forall|i: int| k <= i < n && (#[trigger] pending@[i]) ==> self.nodes@[i].dirty,
                    forall|i: int| k <= i < n && (#[trigger] n0[i]).kind is Effect ==> self.nodes@[i].runs == start[i].runs,
                    start.len() == n,
                    forall|q: int| 0 <= q < n ==> #[trigger] pending@[q] == (start[q].kind is Effect && start[q].dirty),
                    self.values@.len() == old(self).values@.len(),
                    self.boundaries@.len() == old(self).boundaries@.len(),
                    same_shape(n0, self.nodes@),
                    same_shape(n0, start),
                    untargeted_same(n0, old(self).values@, old(self).versions@, self.values@, self.versions@),
                    forall|i: int| 0 <= i < n && (#[trigger] n0[i]).kind is Effect ==> self.nodes@[i].runs >= start[i].runs,
                    forall|i: int| 0 <= i < n && (#[trigger] n0[i]).kind is Effect ==> start[i].runs >= n0[i].runs,
                    forall|i: int| 0 <= i < k && (#[trigger] pending@[i]) && start[i].runs < u64::MAX
                        ==> self.nodes@[i].runs > start[i].runs,
                    was_first ==> start == n0,
                    !has_target(n0) ==> forall|i: int| 0 <= i < n && (#[trigger] self.nodes@[i]).kind is Effect
                        && self.nodes@[i].dirty ==> pending@[i] && i >= k && self.nodes@[i].runs == start[i].runs,
                decreases n - k,
            {
                if pending[k] && self.nodes[k].dirty {
                    let ghost before = self.nodes@;
                    let ghost vb = self.values@;
                    let ghost verb = self.versions@;
                    proof {
                        assert(before[k as int].kind == n0[k as int].kind);
                    }
                    let res = self.run_effect(k);
                    proof {
                        assert forall|i: int| 0 <= i < n && i != k && (#[trigger] n0[i]).kind is Effect
                            implies self.nodes@[i].runs == before[i].runs && (before[i].dirty ==> self.nodes@[i].dirty) by {
                            assert(before[i].kind is Effect);
                        }
                        assert forall|c: int| 0 <= c < old(self).values@.len() && !targeted(n0, c)
                            implies #[trigger] self.values@[c] == old(self).values@[c] && self.versions@[c] == old(self).versions@[c] by {
                            assert(vb[c] == old(self).values@[c] && verb[c] == old(self).versions@[c]);
                            if target_of(before[k as int].kind) == Some(c as usize) {
                                assert(target_of(n0[k as int].kind) == Some(c as usize));
                            }
                        }
                        assert forall|i: int| k < i < n && (#[trigger] pending@[i]) implies self.nodes@[i].dirty by {
                            assert(start[i].kind is Effect);
                            assert(n0[i].kind == start[i].kind);
                            assert(before[i].kind == n0[i].kind);
                            assert(before[i].dirty);
                        }
                        assert forall|i: int| 0 <= i < k + 1 && (#[trigger] pending@[i]) && start[i].runs < u64::MAX
                            implies self.nodes@[i].runs > start[i].runs by {
                            assert(start[i].kind is Effect);
                            assert(n0[i].kind == start[i].kind);
                            if i < k {
                                assert(before[i].runs > start[i].runs);
                            } else {
                                assert(before[i].runs == start[i].runs);
                            }
                        }
                        if !has_target(n0) {
                            assert(target_of(n0[k as int].kind) is None) by {
                                if target_of(n0[k as int].kind) is Some {
                                    assert(has_target(n0));
                                }
                            }
                            assert forall|i: int| 0 <= i < n && (#[trigger] self.nodes@[i]).kind is Effect
                                && self.nodes@[i].dirty implies pending@[i] && i >= k + 1 && self.nodes@[i].runs == start[i].runs by {
                                assert(n0[i].kind == self.nodes@[i].kind);
                                assert(before[i].kind == n0[i].kind);
                                if i != k {
                                    assert(self.nodes@[i].dirty == before[i].dirty);
                                    assert(self.nodes@[i].runs == before[i].runs);
                                }
                            }
                        }
                        if res is Err {
                            assert(boundary_of(n0[k as int].kind) is None);
                            assert(unguarded(n0));
                        }
                    }
                    match res {
                        Ok(()) => {},
                        Err(e) => {
                            return Err(e);
                        },
                    }
                }
                k = k + 1;
            }
            proof {
                assert forall|i: int| 0 <= i < n && (#[trigger] n0[i]).kind is Effect && n0[i].dirty
                    && n0[i].runs < u64::MAX implies self.nodes@[i].runs > n0[i].runs by {
                    if was_first {
                        assert(pending@[i]);
                    }
                }
            }
            first = false;
        }
    }

    /// Writes `v` to cell `c`, as a batch of one, and flushes. Writing the
    /// value the cell already holds marks nothing dirty: on a settled runtime
    /// it changes nothing at all.
    pub fn set_signal(&mut self, c: usize, v: i64) -> (r: Result<(), EngineError>)
        requires
            old(self).wf(),
        ensures
            final(self).wf(),
            c >= old(self).values@.len() ==> r == Err::<(), EngineError>(EngineError::InvalidHandle)
                && *final(self) == *old(self),
            c < old(self).values@.len() ==> set_outcome(*old(self), *final(self), c, v, r),
    {
        if c >= self.values.len() {
            return Err(EngineError::InvalidHandle);
        }
        let ghost s0 = *self;
        self.mark_write(c, v);
        let ghost s1 = *self;
        proof {
            assert(same_shape(s0.nodes@, s1.nodes@)) by {
                if s0.values@[c as int] != v {
                    assert forall|i: int| 0 <= i < s0.nodes@.len() implies (#[trigger] s0.nodes@[i]).rule == s1.nodes@[i].rule
                        && s0.nodes@[i].kind == s1.nodes@[i].kind by {
                        assert(same_but_dirty(s1.nodes@[i], s0.nodes@[i]));
                    }
                }
            }
            lemma_same_shape_kinds(s0.nodes@, s1.nodes@);
        }
        let r = self.flush();
        proof {
            lemma_same_shape_kinds(s1.nodes@, self.nodes@);
            assert forall|i: int| 0 <= i < s0.nodes@.len() && (#[trigger] s0.nodes@[i]).kind is Effect
                && (s0.nodes@[i].dirty || (s0.values@[c as int] != v && s0.nodes@[i].deps@.contains(Dep::Cell(c))))
                && s0.nodes@[i].runs < u64::MAX && r is Ok implies self.nodes@[i].runs > s0.nodes@[i].runs by {
                if s0.values@[c as int] != v {
                    assert(same_but_dirty(s1.nodes@[i], s0.nodes@[i]));
                    assert(s1.nodes@[i].dirty);
                    assert(s1.nodes@[i].kind is Effect);
                }
            }
            if !targeted(s0.nodes@, c as int) {
                assert(!targeted(s1.nodes@, c as int));
            }
            assert forall|d: int| 0 <= d < s0.values@.len() && !targeted(s0.nodes@, d)
                implies #[trigger] self.values@[d] == s1.values@[d] && self.versions@[d] == s1.versions@[d] by {
                assert(!targeted(s1.nodes@, d));
            }
            assert forall|i: int| 0 <= i < s0.nodes@.len() implies (#[trigger] s0.nodes@[i]).rule == self.nodes@[i].rule
                && s0.nodes@[i].kind == self.nodes@[i].kind by {
                assert(s0.nodes@[i].rule == s1.nodes@[i].rule && s0.nodes@[i].kind == s1.nodes@[i].kind);
                assert(s1.nodes@[i].rule == self.nodes@[i].rule && s1.nodes@[i].kind == self.nodes@[i].kind);
            }
            assert(same_shape(s0.nodes@, self.nodes@));
            if !targeted(s0.nodes@, c as int) {
                assert(self.values@[c as int] == s1.values@[c as int]);
                assert(self.versions@[c as int] == s1.versions@[c as int]);
            }
            if s0.values@[c as int] == v && settled(s0.nodes@) {
                assert(s1 == s0);
            }
            assert forall|d: int| 0 <= d < s0.values@.len() && d != c && !targeted(s0.nodes@, d)
                implies #[trigger] self.values@[d] == s0.values@[d] && self.versions@[d] == s0.versions@[d] by {
                assert(self.values@[d] == s1.values@[d] && self.versions@[d] == s1.versions@[d]);
                if s0.values@[c as int] != v {
                    assert(s1.values@[d] == s0.values@[d]);
                    assert(s1.versions@[d] == s0.versions@[d]);
                }
            }
            if r is Err {
                assert(has_target(s1.nodes@) == has_target(s0.nodes@));
                assert(unguarded(s1.nodes@) == unguarded(s0.nodes@));
            }
            assert(set_outcome(s0, *self, c, v, r));
        }
        r
    }

    /// Writes each `(cell, value)` of `writes` in order, then flushes once. A
    /// batch that names a cell that does not exist changes nothing.
    pub fn write_batch(&mut self, writes: &Vec<(usize, i64)>) -> (r: Result<(), EngineError>)
        requires
            old(self).wf(),
        ensures
            final(self).wf(),
            (exists|w: int| 0 <= w < writes@.len() && (#[trigger] writes@[w]).0 >= old(self).values@.len())
                ==> r == Err::<(), EngineError>(EngineError::InvalidHandle) && *final(self) == *old(self),
            (forall|w: int| 0 <= w < writes@.len() ==> (#[trigger] writes@[w]).0 < old(self).values@.len()) ==> {
                &&& final(self).values@.len() == old(self).values@.len()
                &&& same_shape(old(self).nodes@, final(self).nodes@)
                &&& forall|d: int| 0 <= d < old(self).values@.len() && !targeted(old(self).nodes@, d)
                    ==> #[trigger] final(self).values@[d] == apply_writes(old(self).values@, writes@)[d]
                &&& r is Ok ==> settled(final(self).nodes@)
                &&& r is Ok ==> forall|i: int| 0 <= i < old(self).nodes@.len() && (#[trigger] old(self).nodes@[i]).kind is Effect
                    && old(self).nodes@[i].dirty && old(self).nodes@[i].runs < u64::MAX
                    ==> final(self).nodes@[i].runs > old(self).nodes@[i].runs
                &&& r is Err ==> (r == Err::<(), EngineError>(EngineError::CycleDetected) && has_target(old(self).nodes@))
                    || (r->Err_0 is Rule && unguarded(old(self).nodes@))
            },
    {
        let mut w: usize = 0;
        while w < writes.len()
            invariant
                self.wf(),
                w <= writes@.len(),
                forall|q: int| 0 <= q < w ==> (#[trigger] writes@[q]).0 < self.values@.len(),
            decreases writes@.len() - w,
        {
            if writes[w].0 >= self.values.len() {
                return Err(EngineError::InvalidHandle);
            }
            w = w + 1;
        }
        let ghost s0 = *self;
        w = 0;
        while w < writes.len()
            invariant
                self.wf(),
                self.values@.len() == s0.values@.len(),
                w <= writes@.len(),
                forall|q: int| 0 <= q < writes@.len() ==> (#[trigger] writes@[q]).0 < s0.values@.len(),
                self.values@ == apply_writes(s0.values@, writes@.take(w as int)),
                same_shape(s0.nodes@, self.nodes@),
                forall|i: int| 0 <= i < s0.nodes@.len() ==> (#[trigger] self.nodes@[i]).runs == s0.nodes@[i].runs
                    && (s0.nodes@[i].dirty ==> self.nodes@[i].dirty),
            decreases writes@.len() - w,
        {
            let (c, v) = writes[w];
            let ghost before = *self;
            self.mark_write(c, v);
            proof {
                assert(writes@.take(w + 1).drop_last() =~= writes@.take(w as int));
                assert forall|i: int| 0 <= i < s0.nodes@.len() implies (#[trigger] self.nodes@[i]).runs == s0.nodes@[i].runs
                    && (s0.nodes@[i].dirty ==> self.nodes@[i].dirty) && self.nodes@[i].rule == s0.nodes@[i].rule
                    && self.nodes@[i].kind == s0.nodes@[i].kind by {
                    assert(before.nodes@[i].runs == s0.nodes@[i].runs);
                    if before.values@[c as int] != v {
                        assert(same_but_dirty(self.nodes@[i], before.nodes@[i]));
                    }
                }
            }
            w = w + 1;
        }
        assert(writes@.take(writes@.len() as int) =~= writes@);
        let ghost s1 = *self;
        proof {
            lemma_same_shape_kinds(s0.nodes@, s1.nodes@);
        }
        let r = self.flush();
        proof {
            lemma_same_shape_kinds(s1.nodes@, self.nodes@);
            assert forall|d: int| 0 <= d < s0.values@.len() && !targeted(s0.nodes@, d)
                implies #[trigger] self.values@[d] == apply_writes(s0.values@, writes@)[d] by {
                assert(!targeted(s1.nodes@, d));
            }
            assert forall|i: int| 0 <= i < s0.nodes@.len() implies (#[trigger] s0.nodes@[i]).rule == self.nodes@[i].rule
                && s0.nodes@[i].kind == self.nodes@[i].kind by {
                assert(s0.nodes@[i].rule == s1.nodes@[i].rule && s0.nodes@[i].kind == s1.nodes@[i].kind);
            }
            assert forall|i: int| 0 <= i < s0.nodes@.len() && (#[trigger] s0.nodes@[i]).kind is Effect
                && s0.nodes@[i].dirty && s0.nodes@[i].runs < u64::MAX && r is Ok
                implies self.nodes@[i].runs > s0.nodes@[i].runs by {
                assert(s1.nodes@[i].kind is Effect && s1.nodes@[i].dirty);
            }
        }
        r
    }
}

impl Runtime {
    /// Disposes of effect `i`: its edges are dropped and its pending run is
    /// cancelled, so no later write reaches it.
    pub fn dispose_effect(&mut self, i: usize) -> (r: Result<(), EngineError>)
        requires
            old(self).wf(),
        ensures
            final(self).wf(),
            final(self).values@ == old(self).values@,
            final(self).boundaries@ == old(self).boundaries@,
            i < old(self).nodes@.len() && old(self).nodes@[i as int].kind is Effect ==> {
                &&& r is Ok
                &&& final(self).nodes@.len() == old(self).nodes@.len()
                &&& final(self).nodes@[i as int].deps@.len() == 0
                &&& !final(self).nodes@[i as int].dirty
                &&& forall|k: int| 0 <= k < old(self).nodes@.len() && k != i ==> #[trigger] final(self).nodes@[k]
                    == old(self).nodes@[k]
            },
            !(i < old(self).nodes@.len() && old(self).nodes@[i as int].kind is Effect) ==> r
                == Err::<(), EngineError>(EngineError::InvalidHandle) && *final(self) == *old(self),
    {
        if i >= self.nodes.len() {
            return Err(EngineError::InvalidHandle);
        }
        match self.nodes[i].kind {
            NodeKind::Derived => {
                return Err(EngineError::InvalidHandle);
            },
            NodeKind::Effect { .. } => {},
        }
        let ghost n1 = self.nodes@;
        self.nodes[i].deps = Vec::new();
        self.nodes[i].dirty = false;
        proof {
            let n2 = self.nodes@;
            assert forall|k: int| 0 <= k < n2.len() && k != i implies #[trigger] n2[k] == n1[k] by {}
            assert(rules_of(n2) =~= rules_of(n1));
            assert forall|j: int| 0 <= j < n2.len() implies #[trigger] node_ok(self.values@, n2, j) by {
                if j != i {
                    assert(node_ok(self.values@, n1, j));
                    if fresh(n2, j) {
                        assert forall|k: usize| #[trigger] n2[j].deps@.contains(Dep::Memo(k))
                            implies k < j && fresh(n2, k as int) by {
                            assert(n1[j].deps@.contains(Dep::Memo(k)));
                            assert(fresh(n1, k as int));
                        }
                    }
                }
            }
            assert forall|j: int| 0 <= j < n2.len() implies expr_ok(#[trigger] n2[j].rule, self.values@.len() as nat, n2, j as nat) by {
                assert(expr_ok(n1[j].rule, self.values@.len() as nat, n1, j as nat));
                lemma_shape_expr_ok(n1[j].rule, self.values@.len() as nat, n1, n2, j as nat);
            }
            assert forall|j: int, k: usize| 0 <= j < n2.len() && #[trigger] n2[j].deps@.contains(Dep::Memo(k))
                implies k < j by {
                if j != i {
                    assert(n1[j].deps@.contains(Dep::Memo(k)));
                }
            }
            assert forall|j: int| 0 <= j < n2.len() implies match (#[trigger] n2[j]).kind {
                NodeKind::Derived => true,
                NodeKind::Effect { target, boundary } =>
                    (target matches Some(t) ==> t < self.values@.len())
                    && (boundary matches Some(b) ==> b < self.boundaries@.len()),
            } by {
                assert(n1[j].kind == n2[j].kind);
            }
        }
        Ok(())
    }

    /// Read-modify-write of cell `c`: its value combined with `operand` by
    /// `op`, written as `set_signal` does. A result out of range fails with
    /// `Overflow` and changes nothing.
    pub fn update_signal(&mut self, c: usize, op: BinOp, operand: i64) -> (r: Result<(), EngineError>)
        requires
            old(self).wf(),
        ensures
            final(self).wf(),
            c >= old(self).values@.len() ==> r == Err::<(), EngineError>(EngineError::InvalidHandle)
                && *final(self) == *old(self),
            c < old(self).values@.len() && apply_op(op, old(self).values@[c as int], operand) is Err ==> r
                == Err::<(), EngineError>(EngineError::Rule(RuleError::Overflow)) && *final(self) == *old(self),
            c < old(self).values@.len() && apply_op(op, old(self).values@[c as int], operand) is Ok ==> set_outcome(
                *old(self),
                *final(self),
                c,
                apply_op(op, old(self).values@[c as int], operand)->Ok_0,
                r,
            ),
    {
        if c >= self.values.len() {
            return Err(EngineError::InvalidHandle);
        }
        match apply_bin(op, self.values[c], operand) {
            Ok(v) => self.set_signal(c, v),
            Err(e) => Err(EngineError::Rule(e)),
        }
    }
}

/// A derived node that is fresh holds its rule applied to the latest values
/// of the cells, however many writes and batches came before.
pub proof fn lemma_fresh_memo_is_current(rt: &Runtime, j: int)
    requires
        rt.wf(),
        0 <= j < rt.nodes@.len(),
        fresh(rt.nodes@, j),
    ensures
        rt.nodes@[j].cache == Some(memo_value(rt.values@, rt.rules(), j as nat)),
{
    assert(node_ok(rt.values@, rt.nodes@, j));
}

/// The edges of a fresh derived node are exactly what its rule reads on the
/// latest values: no stale edge, no missing one.
pub proof fn lemma_fresh_memo_deps_exact(rt: &Runtime, j: int, d: Dep)
    requires
        rt.wf(),
        0 <= j < rt.nodes@.len(),
        fresh(rt.nodes@, j),
    ensures
        rt.nodes@[j].deps@.contains(d) <==> reads(rt.values@, rt.rules(), rt.nodes@[j].rule, j as nat).contains(d),
{
    assert(node_ok(rt.values@, rt.nodes@, j));
}

} // verus!
