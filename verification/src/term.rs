//! The formula language handed to the solver: boolean and integer terms
//! over named constants, with a two-sorted evaluation semantics. A variable
//! name may carry both a boolean and an integer constant; the two never
//! interfere, as each sort has its own namespace.

use vstd::prelude::*;

verus! {

/// An integer term.
pub enum IntExpr {
    IVar(Vec<char>),
    ILit(i64),
    IMul(Box<IntExpr>, Box<IntExpr>),
}

/// A comparison operator over integer terms.
#[derive(Clone, Copy, PartialEq, Eq, Structural, Debug)]
pub enum CmpOp {
    CmpEq,
    CmpNe,
    CmpGe,
    CmpGt,
    CmpLe,
    CmpLt,
}

/// A boolean term.
pub enum BoolExpr {
    BLit(bool),
    BVar(Vec<char>),
    BNot(Box<BoolExpr>),
    BAnd(Box<BoolExpr>, Box<BoolExpr>),
    BXor(Box<BoolExpr>, Box<BoolExpr>),
    BImplies(Box<BoolExpr>, Box<BoolExpr>),
    BEqBool(Box<BoolExpr>, Box<BoolExpr>),
    BCmp(CmpOp, IntExpr, IntExpr),
}

/// An integer term, at the specification level: names as character
/// sequences.
pub enum IntExprV {
    IVar(Seq<char>),
    ILit(i64),
    IMul(Box<IntExprV>, Box<IntExprV>),
}

/// A boolean term, at the specification level.
pub enum BoolExprV {
    BLit(bool),
    BVar(Seq<char>),
    BNot(Box<BoolExprV>),
    BAnd(Box<BoolExprV>, Box<BoolExprV>),
    BXor(Box<BoolExprV>, Box<BoolExprV>),
    BImplies(Box<BoolExprV>, Box<BoolExprV>),
    BEqBool(Box<BoolExprV>, Box<BoolExprV>),
    BCmp(CmpOp, IntExprV, IntExprV),
}

pub open spec fn int_view(e: IntExpr) -> IntExprV
    decreases e,
{
    match e {
        IntExpr::IVar(n) => IntExprV::IVar(n@),
        IntExpr::ILit(v) => IntExprV::ILit(v),
        IntExpr::IMul(a, b) => IntExprV::IMul(Box::new(int_view(*a)), Box::new(int_view(*b))),
    }
}

pub open spec fn bool_view(e: BoolExpr) -> BoolExprV
    decreases e,
{
    match e {
        BoolExpr::BLit(b) => BoolExprV::BLit(b),
        BoolExpr::BVar(n) => BoolExprV::BVar(n@),
        BoolExpr::BNot(a) => BoolExprV::BNot(Box::new(bool_view(*a))),
        BoolExpr::BAnd(a, b) => BoolExprV::BAnd(Box::new(bool_view(*a)), Box::new(bool_view(*b))),
        BoolExpr::BXor(a, b) => BoolExprV::BXor(Box::new(bool_view(*a)), Box::new(bool_view(*b))),
        BoolExpr::BImplies(a, b) => BoolExprV::BImplies(
            Box::new(bool_view(*a)),
            Box::new(bool_view(*b)),
        ),
        BoolExpr::BEqBool(a, b) => BoolExprV::BEqBool(
            Box::new(bool_view(*a)),
            Box::new(bool_view(*b)),
        ),
        BoolExpr::BCmp(op, a, b) => BoolExprV::BCmp(op, int_view(a), int_view(b)),
    }
}

impl View for BoolExpr {
    type V = BoolExprV;

    open spec fn view(&self) -> BoolExprV {
        bool_view(*self)
    }
}

/// The views of a list of assertions.
pub open spec fn views_of(s: Seq<BoolExpr>) -> Seq<BoolExprV> {
    s.map_values(|e: BoolExpr| bool_view(e))
}

/// A two-sorted assignment of values to names.
pub struct SmtEnv {
    pub bools: Map<Seq<char>, bool>,
    pub ints: Map<Seq<char>, int>,
}

/// The value of an integer term under an assignment.
pub open spec fn eval_int(env: SmtEnv, e: IntExprV) -> int
    decreases e,
{
    match e {
        IntExprV::IVar(n) => env.ints[n],
        IntExprV::ILit(v) => v as int,
        IntExprV::IMul(a, b) => eval_int(env, *a) * eval_int(env, *b),
    }
}

/// The value of a boolean term under an assignment.
pub open spec fn eval_bool(env: SmtEnv, e: BoolExprV) -> bool
    decreases e,
{
    match e {
        BoolExprV::BLit(b) => b,
        BoolExprV::BVar(n) => env.bools[n],
        BoolExprV::BNot(a) => !eval_bool(env, *a),
        BoolExprV::BAnd(a, b) => eval_bool(env, *a) && eval_bool(env, *b),
        BoolExprV::BXor(a, b) => eval_bool(env, *a) != eval_bool(env, *b),
        BoolExprV::BImplies(a, b) => eval_bool(env, *a) ==> eval_bool(env, *b),
        BoolExprV::BEqBool(a, b) => eval_bool(env, *a) == eval_bool(env, *b),
        BoolExprV::BCmp(op, a, b) => {
            let x = eval_int(env, a);
            let y = eval_int(env, b);
            match op {
                CmpOp::CmpEq => x == y,
                CmpOp::CmpNe => x != y,
                CmpOp::CmpGe => x >= y,
                CmpOp::CmpGt => x > y,
                CmpOp::CmpLe => x <= y,
                CmpOp::CmpLt => x < y,
            }
        },
    }
}

/// The assignment satisfies every assertion of the list.
pub open spec fn satisfies_all(env: SmtEnv, s: Seq<BoolExprV>) -> bool {
    forall|i: int| 0 <= i < s.len() ==> eval_bool(env, #[trigger] s[i])
}

/// Some assignment satisfies every assertion of the list.
pub open spec fn satisfiable(s: Seq<BoolExprV>) -> bool {
    exists|env: SmtEnv| satisfies_all(env, s)
}

} // verus!
