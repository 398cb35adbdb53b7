//! The template constructs that the introspection pass looks at.
//!
//! The tree is supplied by an external parser; this crate only reads it.
//! Variants that carry no information relevant to introspection are
//! represented by `Other`, which the walker ignores.

use vstd::prelude::*;

verus! {

/// An expression appearing in a template construct.
///
/// Only identifier paths (`a.b`, `a[b][c]`) matter to introspection; every
/// other expression form (literals, function calls, operators) is `Other`.
pub enum Expr {
    /// A dotted or bracketed identifier path, as written in the source.
    Ident(String),
    /// Any expression that is not an identifier path.
    Other,
}

/// A template statement node.
pub enum Node {
    /// `{% extends "name" %}`: this template extends another.
    Extends(String),
    /// `{% include %}`: the included template's name, in parts that are
    /// concatenated to form the full name.
    Include(Vec<String>),
    /// `{% import %}`: an imported macro file.
    ImportMacro(String),
    /// A named block with a body of child nodes.
    Block(Vec<Node>),
    /// `{% for value in container %}`: the loop variable's name, the
    /// container expression, and the loop body.
    Forloop(String, Expr, Vec<Node>),
    /// `{% if %}`: the conditional branches, each a condition expression
    /// with a body, and an optional `else` body.
    If(Vec<(Expr, Vec<Node>)>, Option<Vec<Node>>),
    /// `{{ expr }}`: an expression rendered into the output.
    VariableBlock(Expr),
    /// Any construct irrelevant to introspection.
    Other,
}

} // verus!
