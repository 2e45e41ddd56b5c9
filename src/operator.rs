use vstd::prelude::*;

verus! {

/// The five binary arithmetic operators of the language, written prefix.
#[derive(PartialEq, Eq, Structural, Debug, Clone, Copy)]
pub enum Operator {
    Add,
    Sub,
    Mult,
    Div,
    Mod,
}

/// The operator that a source character stands for, if any.
pub open spec fn operator_of(c: char) -> Option<Operator> {
    if c == '+' {
        Some(Operator::Add)
    } else if c == '-' {
        Some(Operator::Sub)
    } else if c == '*' {
        Some(Operator::Mult)
    } else if c == '/' {
        Some(Operator::Div)
    } else if c == '%' {
        Some(Operator::Mod)
    } else {
        None
    }
}

/// The character that writes an operator.
pub open spec fn operator_symbol(op: Operator) -> char {
    match op {
        Operator::Add => '+',
        Operator::Sub => '-',
        Operator::Mult => '*',
        Operator::Div => '/',
        Operator::Mod => '%',
    }
}

impl Operator {
    /// Reads an operator from its character.
    pub fn from_char(c: char) -> (r: Option<Operator>)
        ensures
            r == operator_of(c),
    {
        if c == '+' {
            Some(Operator::Add)
        } else if c == '-' {
            Some(Operator::Sub)
        } else if c == '*' {
            Some(Operator::Mult)
        } else if c == '/' {
            Some(Operator::Div)
        } else if c == '%' {
            Some(Operator::Mod)
        } else {
            None
        }
    }

    /// The character that writes this operator.
    pub fn symbol(&self) -> (r: char)
        ensures
            r == operator_symbol(*self),
            operator_of(r) == Some(*self),
    {
        match self {
            Operator::Add => '+',
            Operator::Sub => '-',
            Operator::Mult => '*',
            Operator::Div => '/',
            Operator::Mod => '%',
        }
    }
}

} // verus!
