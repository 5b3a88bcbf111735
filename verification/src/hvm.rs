//! The abstract syntax the eventual parser will target: terms of the
//! graph-reduction virtual machine, rewrite rules over them, and files of
//! rules. These are passive declarations; no component consumes them yet.

use vstd::prelude::*;

verus! {

/// A node of the target language's abstract syntax tree.
#[derive(Debug)]
pub enum Term {
    /// A lambda abstraction: parameter name and body.
    Lambda(String, Box<Term>),
    /// An application of a function term to an argument term.
    Application(Box<Term>, Box<Term>),
    /// A constructor: tag name and its ordered arguments.
    Constructor(String, Vec<Term>),
    /// A machine integer leaf.
    Integer(i32),
    /// A binary operator: symbol and its two operands.
    Operator(String, Box<Term>, Box<Term>),
    /// A let binding: bound name, bound term, and the body it scopes over.
    Let(String, Box<Term>, Box<Term>),
}

/// A rewrite rule: a pattern on the left, a replacement on the right.
#[derive(Debug)]
pub struct Rule {
    lhs: Term,
    rhs: Term,
}

/// An ordered collection of rules, in textual order of definition.
#[derive(Debug)]
pub struct File {
    rules: Vec<Rule>,
}

} // verus!
