//! Evaluation of an expression tree against a context.

use crate::ast::{
    atom_cmp, atom_eq, decimal_order, text_of, ArrayOp, Atom, AstNode, ComparisonOp, FnCall,
    LogicOp, Value,
};
use crate::context::Context;
use crate::parse::{is_operand, is_rule};
use crate::text::{lower_of, to_lower, to_upper, upper_of};
use core::cmp::Ordering;
use vstd::prelude::*;

verus! {

/// Why an evaluation failed.
#[derive(Debug, Clone, PartialEq)]
pub enum EvalError {
    /// A variable that the context does not bind.
    UnknownVariable(String),
    /// An ordering asked of two values that have none.
    NotComparable,
    /// A case function applied to a value that is not string-like.
    NotText,
    /// A value in a boolean position that is not a boolean.
    NotBoolean,
    /// A node in a position where it has no meaning.
    Malformed,
}

/// The mathematical content of an `EvalError`.
pub enum EvalFault {
    UnknownVariable(Seq<char>),
    NotComparable,
    NotText,
    NotBoolean,
    Malformed,
}

impl View for EvalError {
    type V = EvalFault;

    open spec fn view(&self) -> EvalFault {
        match self {
            EvalError::UnknownVariable(s) => EvalFault::UnknownVariable(s@),
            EvalError::NotComparable => EvalFault::NotComparable,
            EvalError::NotText => EvalFault::NotText,
            EvalError::NotBoolean => EvalFault::NotBoolean,
            EvalError::Malformed => EvalFault::Malformed,
        }
    }
}

/// The content of an evaluation's outcome.
pub open spec fn verdict_view(r: Result<bool, EvalError>) -> Result<bool, EvalFault> {
    match r {
        Ok(b) => Ok(b),
        Err(e) => Err(e@),
    }
}

/// The content of a resolution's outcome.
pub open spec fn value_view(r: Result<Atom, EvalError>) -> Result<Value, EvalFault> {
    match r {
        Ok(a) => Ok(a@),
        Err(e) => Err(e@),
    }
}

/// The text that a case function makes of `t`.
pub open spec fn fold_case(f: FnCall, t: Seq<char>) -> Seq<char> {
    match f {
        FnCall::Upper => upper_of(t),
        FnCall::Lower => lower_of(t),
    }
}

/// The value that an operand node stands for in a context.
pub open spec fn resolve_spec(node: AstNode, ctx: Map<Seq<char>, Value>) -> Result<Value, EvalFault>
    decreases node,
{
    match node {
        AstNode::Constant(a) => Ok(a@),
        AstNode::Variable(Atom::Variable(name)) => if ctx.contains_key(name@) {
            Ok(ctx[name@])
        } else {
            Err(EvalFault::UnknownVariable(name@))
        },
        AstNode::Function(f, operand) => match resolve_spec(*operand, ctx) {
            Ok(v) => match text_of(v) {
                Some(t) => Ok(Value::Str(fold_case(f, t))),
                None => Err(EvalFault::NotText),
            },
            Err(e) => Err(e),
        },
        _ => Err(EvalFault::Malformed),
    }
}

/// The outcome of comparing `a` with `b` by `op`.
pub open spec fn compare_spec(op: ComparisonOp, a: Value, b: Value) -> Result<bool, EvalFault> {
    match op {
        ComparisonOp::Eq => Ok(atom_eq(a, b)),
        ComparisonOp::NotEq => Ok(!atom_eq(a, b)),
        _ => match atom_cmp(a, b) {
            None => Err(EvalFault::NotComparable),
            Some(o) => Ok(
                match op {
                    ComparisonOp::More => o == Ordering::Greater,
                    ComparisonOp::Less => o == Ordering::Less,
                    ComparisonOp::MoreEq => o != Ordering::Less,
                    _ => o != Ordering::Greater,
                },
            ),
        },
    }
}

/// Some item of the list equals `v`.
pub open spec fn member_spec(items: Seq<Atom>, v: Value) -> bool {
    exists|i: int| 0 <= i < items.len() && atom_eq(v, #[trigger] items[i]@)
}

/// The verdict of a node in a context.
pub open spec fn eval_spec(node: AstNode, ctx: Map<Seq<char>, Value>) -> Result<bool, EvalFault>
    decreases node,
{
    match node {
        AstNode::Void => Ok(false),
        AstNode::Compare(l, op, r) => match resolve_spec(*l, ctx) {
            Err(e) => Err(e),
            Ok(a) => match resolve_spec(*r, ctx) {
                Err(e) => Err(e),
                Ok(b) => compare_spec(op, a, b),
            },
        },
        AstNode::Array(l, op, r) => match *r {
            AstNode::List(items) => match resolve_spec(*l, ctx) {
                Err(e) => Err(e),
                Ok(a) => Ok(
                    if op == ArrayOp::In {
                        member_spec(items@, a)
                    } else {
                        !member_spec(items@, a)
                    },
                ),
            },
            _ => Err(EvalFault::Malformed),
        },
        AstNode::Logic(l, op, r) => match eval_spec(*l, ctx) {
            Err(e) => Err(e),
            Ok(x) => if (op == LogicOp::And && !x) || (op == LogicOp::Or && x) {
                Ok(x)
            } else {
                eval_spec(*r, ctx)
            },
        },
        AstNode::Scope { expr, negate } => match eval_spec(*expr, ctx) {
            Err(e) => Err(e),
            Ok(x) => Ok(x != negate),
        },
        AstNode::List(_) => Err(EvalFault::Malformed),
        _ => match resolve_spec(node, ctx) {
            Err(e) => Err(e),
            Ok(Value::Bool(b)) => Ok(b),
            Ok(_) => Err(EvalFault::NotBoolean),
        },
    }
}

/// The value that an operand node stands for.
fn resolve(node: &AstNode, context: &Context) -> (r: Result<Atom, EvalError>)
    ensures
        value_view(r) == resolve_spec(*node, context@),
    decreases node,
{
    match node {
        AstNode::Constant(a) => Ok(a.duplicate()),
        AstNode::Variable(Atom::Variable(name)) => match context.get(name.as_str()) {
            Some(a) => Ok(a.duplicate()),
            None => Err(EvalError::UnknownVariable(name.clone())),
        },
        AstNode::Function(f, operand) => {
            let v = resolve(operand, context)?;
            match v.as_text() {
                Some(t) => match f {
                    FnCall::Upper => Ok(Atom::String(to_upper(t.as_str()))),
                    FnCall::Lower => Ok(Atom::String(to_lower(t.as_str()))),
                },
                None => Err(EvalError::NotText),
            }
        },
        _ => Err(EvalError::Malformed),
    }
}

/// Compares two values by `op`.
fn compare(op: ComparisonOp, a: &Atom, b: &Atom) -> (r: Result<bool, EvalError>)
    ensures
        verdict_view(r) == compare_spec(op, a@, b@),
{
    match op {
        ComparisonOp::Eq => Ok(a == b),
        ComparisonOp::NotEq => Ok(!(a == b)),
        _ => match a.partial_cmp(b) {
            None => Err(EvalError::NotComparable),
            Some(o) => Ok(
                match op {
                    ComparisonOp::More => matches!(o, Ordering::Greater),
                    ComparisonOp::Less => matches!(o, Ordering::Less),
                    ComparisonOp::MoreEq => !matches!(o, Ordering::Less),
                    _ => !matches!(o, Ordering::Greater),
                },
            ),
        },
    }
}

/// Whether some item of the list equals `v`.
fn member(items: &Vec<Atom>, v: &Atom) -> (r: bool)
    ensures
        r == member_spec(items@, v@),
{
    let mut i: usize = 0;
    while i < items.len()
        invariant
            i <= items@.len(),
            forall|j: int| 0 <= j < i ==> !atom_eq(v@, #[trigger] items@[j]@),
        decreases items@.len() - i,
    {
        if *v == items[i] {
            return true;
        }
        i = i + 1;
    }
    false
}

/// Evaluates a rule against a context.
pub fn eval(ast: &AstNode, context: &Context) -> (r: Result<bool, EvalError>)
    ensures
        verdict_view(r) == eval_spec(*ast, context@),
    decreases ast,
{
    match ast {
        AstNode::Void => Ok(false),
        AstNode::Compare(l, op, r) => {
            let a = resolve(l, context)?;
            let b = resolve(r, context)?;
            compare(*op, &a, &b)
        },
        AstNode::Array(l, op, r) => match &**r {
            AstNode::List(items) => {
                let a = resolve(l, context)?;
                let found = member(items, &a);
                match op {
                    ArrayOp::In => Ok(found),
                    ArrayOp::NotIn => Ok(!found),
                }
            },
            _ => Err(EvalError::Malformed),
        },
        AstNode::Logic(l, op, r) => {
            let x = eval(l, context)?;
            match op {
                LogicOp::And => if !x {
                    Ok(false)
                } else {
                    eval(r, context)
                },
                LogicOp::Or => if x {
                    Ok(true)
                } else {
                    eval(r, context)
                },
            }
        },
        AstNode::Scope { expr, negate } => {
            let x = eval(expr, context)?;
            Ok(x != *negate)
        },
        AstNode::List(_) => Err(EvalError::Malformed),
        _ => match resolve(ast, context)? {
            Atom::Boolean(b) => Ok(b),
            _ => Err(EvalError::NotBoolean),
        },
    }
}


/// Evaluation is deterministic: two evaluations of one tree against one
/// context give the same outcome.
pub proof fn lemma_eval_deterministic(
    ast: AstNode,
    context: Context,
    r1: Result<bool, EvalError>,
    r2: Result<bool, EvalError>,
)
    requires
        verdict_view(r1) == eval_spec(ast, context@),
        verdict_view(r2) == eval_spec(ast, context@),
    ensures
        verdict_view(r1) == verdict_view(r2),
        r1 is Ok <==> r2 is Ok,
        r1 matches Ok(b1) ==> r2 matches Ok(b2) && b1 == b2,
{
}

/// A conjunction whose left side is false is false, whatever its right side.
pub proof fn lemma_and_short_circuit(l: AstNode, r: AstNode, ctx: Map<Seq<char>, Value>)
    requires
        eval_spec(l, ctx) == Ok::<bool, EvalFault>(false),
    ensures
        eval_spec(AstNode::Logic(Box::new(l), LogicOp::And, Box::new(r)), ctx) == Ok::<
            bool,
            EvalFault,
        >(false),
{
}

/// A disjunction whose left side is true is true, whatever its right side.
pub proof fn lemma_or_short_circuit(l: AstNode, r: AstNode, ctx: Map<Seq<char>, Value>)
    requires
        eval_spec(l, ctx) == Ok::<bool, EvalFault>(true),
    ensures
        eval_spec(AstNode::Logic(Box::new(l), LogicOp::Or, Box::new(r)), ctx) == Ok::<
            bool,
            EvalFault,
        >(true),
{
}

/// Where both sides evaluate without error, a conjunction or disjunction
/// gives what evaluating both sides and combining them gives.
pub proof fn lemma_logic_strict(l: AstNode, op: LogicOp, r: AstNode, ctx: Map<Seq<char>, Value>)
    requires
        eval_spec(l, ctx) is Ok,
        eval_spec(r, ctx) is Ok,
    ensures
        eval_spec(AstNode::Logic(Box::new(l), op, Box::new(r)), ctx) == Ok::<bool, EvalFault>(
            if op == LogicOp::And {
                eval_spec(l, ctx)->Ok_0 && eval_spec(r, ctx)->Ok_0
            } else {
                eval_spec(l, ctx)->Ok_0 || eval_spec(r, ctx)->Ok_0
            },
        ),
{
}


proof fn lemma_operand_resolves(n: AstNode, ctx: Map<Seq<char>, Value>)
    requires
        is_operand(n),
    ensures
        resolve_spec(n, ctx) != Err::<Value, EvalFault>(EvalFault::Malformed),
    decreases n,
{
    if let AstNode::Function(_, x) = n {
        lemma_operand_resolves(*x, ctx);
    }
}

/// Every tree of the shape that the parser builds evaluates to a verdict
/// or fails for a reason of its values, never as malformed.
pub proof fn lemma_rule_well_formed(n: AstNode, ctx: Map<Seq<char>, Value>)
    requires
        is_rule(n),
    ensures
        eval_spec(n, ctx) != Err::<bool, EvalFault>(EvalFault::Malformed),
    decreases n,
{
    match n {
        AstNode::Compare(l, _, r) => {
            lemma_operand_resolves(*l, ctx);
            lemma_operand_resolves(*r, ctx);
        },
        AstNode::Array(l, _, _) => {
            lemma_operand_resolves(*l, ctx);
        },
        AstNode::Logic(l, _, r) => {
            lemma_rule_well_formed(*l, ctx);
            lemma_rule_well_formed(*r, ctx);
        },
        AstNode::Scope { expr, negate: _ } => {
            lemma_rule_well_formed(*expr, ctx);
        },
        _ => {
            lemma_operand_resolves(n, ctx);
        },
    }
}

} // verus!
