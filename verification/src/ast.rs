use std::collections::HashMap;
use vstd::prelude::*;

use crate::err::RtError;

verus! {

/// The width of a value: 16 (spot) or 32 (two-spot) bits.
#[derive(Clone, Copy, PartialEq, Eq, Structural, Debug)]
pub enum VType {
    I16,
    I32,
}

/// A variable reference: a spot, a two-spot, or an element of a tail or
/// hybrid array (with its subscript expressions).  The number is the
/// variable's index in its kind's table.
#[derive(Debug)]
pub enum Var {
    I16(usize),
    I32(usize),
    A16(usize, Vec<Expr>),
    A32(usize, Vec<Expr>),
}

/// An expression.
#[derive(Debug)]
pub enum Expr {
    Num(VType, u32),
    Var(Var),
    Mingle(Box<Expr>, Box<Expr>),
    Select(VType, Box<Expr>, Box<Expr>),
    And(VType, Box<Expr>),
    Or(VType, Box<Expr>),
    Xor(VType, Box<Expr>),
    RsNot(Box<Expr>),
    RsAnd(Box<Expr>, Box<Expr>),
    RsOr(Box<Expr>, Box<Expr>),
    RsXor(Box<Expr>, Box<Expr>),
    RsRshift(Box<Expr>, Box<Expr>),
    RsLshift(Box<Expr>, Box<Expr>),
    RsNotEqual(Box<Expr>, Box<Expr>),
    RsPlus(Box<Expr>, Box<Expr>),
    RsMinus(Box<Expr>, Box<Expr>),
}

impl Var {
    /// Whether the variable is an array element.
    pub open spec fn spec_is_dim(&self) -> bool {
        self is A16 || self is A32
    }

    /// Whether the variable is an array element.
    #[verifier::when_used_as_spec(spec_is_dim)]
    pub fn is_dim(&self) -> (r: bool)
        ensures
            r == self.spec_is_dim(),
    {
        match self {
            Var::A16(..) | Var::A32(..) => true,
            _ => false,
        }
    }
}

/// What an ABSTAIN or REINSTATE names: one labelled statement, or every
/// statement of one kind.
#[derive(Clone, Copy, PartialEq, Eq, Structural, Debug)]
pub enum Abstain {
    Label(u16),
    Calc,
    Next,
    Resume,
    Forget,
    Ignore,
    Remember,
    Stash,
    Retrieve,
    Abstain,
    Reinstate,
    ComeFrom,
    ReadOut,
    WriteIn,
    TryAgain,
}

/// What a statement does.
#[derive(Debug)]
pub enum StmtBody {
    Error(RtError),
    Calc(Var, Expr),
    Dim(Var, Vec<Expr>),
    DoNext(u16),
    ComeFrom(u16),
    Resume(Expr),
    Forget(Expr),
    Ignore(Vec<Var>),
    Remember(Vec<Var>),
    Stash(Vec<Var>),
    Retrieve(Vec<Var>),
    Abstain(Option<Expr>, Vec<Abstain>),
    Reinstate(Vec<Abstain>),
    ReadOut(Vec<Expr>),
    WriteIn(Vec<Var>),
    Print(String),
    TryAgain,
    GiveUp,
}

/// The properties of a statement: the source line it starts at, the line
/// reported for errors in it, its execution chance in percent, and whether it
/// starts out abstained from.
#[derive(Clone, Copy, Debug)]
pub struct StmtProps {
    pub srcline: usize,
    pub onthewayto: usize,
    pub chance: u8,
    pub disabled: bool,
}

/// A statement: its body, its properties, and the statement (if any) that
/// COMEs FROM it.
#[derive(Debug)]
pub struct Stmt {
    pub body: StmtBody,
    pub props: StmtProps,
    pub comefrom: Option<u16>,
}

/// A program: its statements, the statement each label stands on, the kind
/// of each statement (for ABSTAIN by gerund), and the number of spot,
/// two-spot, tail and hybrid variables.
#[derive(Debug)]
pub struct Program {
    pub stmts: Vec<Stmt>,
    pub labels: HashMap<u16, u16>,
    pub stmt_types: Vec<Abstain>,
    pub var_info: (usize, usize, usize, usize),
}

} // verus!
