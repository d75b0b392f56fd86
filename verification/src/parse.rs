//! The trusted boundary around the external Python parser.
//!
//! Parsing source text into a statement model is delegated to the
//! `rustpython-parser` crate; the functions here convert its syntax tree,
//! node for node, into the crate's own plain statement model. Verus sees
//! only the contracts: the tree a given source text parses to is named by
//! the uninterpreted function `parse_result`.
use vstd::prelude::*;

use rustpython_parser::ast::Stmt;
use rustpython_parser::ast::Expr;

use crate::py_ast::PyExpr;
use crate::py_ast::PyHandler;
use crate::py_ast::PyImportName;
use crate::py_ast::PyStmt;
use crate::py_ast::PyWithItem;

verus! {

/// The error handed back when the source text is not valid Python; it
/// carries the parser's own description of the fault.
#[derive(Debug)]
pub struct ParseError {
    pub message: String,
}

/// The statement model that a given source text parses to, or `None` when
/// the text is not valid Python. Parsing is a pure function of the text, so
/// the outcome may be given a name even though it cannot be written down.
pub uninterp spec fn parse_result(s: Seq<char>) -> Option<Seq<PyStmt>>;

/// The Unicode lowercasing of a character sequence, as `str::to_lowercase`
/// computes it; a pure function of the characters alone.
pub uninterp spec fn lower_of(s: Seq<char>) -> Seq<char>;

/// The parser's source-span type, carried opaquely inside its tree nodes.
#[verifier::external_type_specification]
#[verifier::external_body]
pub struct ExTextRange(rustpython_parser::text_size::TextRange);

/// The parser's statement node, opaque to the proofs.
#[verifier::external_type_specification]
#[verifier::external_body]
#[verifier::reject_recursive_types(R)]
pub struct ExStmt<R>(rustpython_parser::ast::Stmt<R>);

/// The parser's expression node, opaque to the proofs.
#[verifier::external_type_specification]
#[verifier::external_body]
#[verifier::reject_recursive_types(R)]
pub struct ExExpr<R>(rustpython_parser::ast::Expr<R>);

/// The parser's `with`-item node, opaque to the proofs.
#[verifier::external_type_specification]
#[verifier::external_body]
#[verifier::reject_recursive_types(R)]
pub struct ExWithItem<R>(rustpython_parser::ast::WithItem<R>);

/// The parser's imported-symbol node, opaque to the proofs.
#[verifier::external_type_specification]
#[verifier::external_body]
#[verifier::reject_recursive_types(R)]
pub struct ExAlias<R>(rustpython_parser::ast::Alias<R>);

/// The parser's `except`-clause node, opaque to the proofs.
#[verifier::external_type_specification]
#[verifier::external_body]
#[verifier::reject_recursive_types(R)]
pub struct ExExceptHandler<R>(rustpython_parser::ast::ExceptHandler<R>);

/// Relies on rustpython_parser::parse_program: whether the text parses, and
/// the tree it parses to, depend on the text alone. The tree is handed back
/// converted to the crate's statement model.
#[verifier::external_body]
pub fn parse_source(src: &str) -> (r: Result<Vec<PyStmt>, ParseError>)
    ensures
        match r {
            Ok(stmts) => parse_result(src@) == Some(stmts@),
            Err(_) => parse_result(src@) is None,
        },
{
    match rustpython_parser::parse_program(src, "<source>") {
        Ok(suite) => Ok(conv_stmts(suite)),
        Err(e) => Err(ParseError { message: format!("{}", e) }),
    }
}

/// Relies on str::to_lowercase: the result depends on the characters alone,
/// and lowercasing an empty string gives an empty string.
#[verifier::external_body]
pub fn lowercase(s: &str) -> (r: String)
    ensures
        r@ == lower_of(s@),
        s@.len() == 0 ==> r@.len() == 0,
{
    s.to_lowercase()
}

/// Conversion layer of `parse_source`: definitions and assignments, node
/// for node; the nested statement kinds are handed on.
#[verifier::external_body]
fn conv_stmt(s: rustpython_parser::ast::Stmt) -> PyStmt {
    match s {
        Stmt::FunctionDef(d) => PyStmt::NamedDef { name: d.name.to_string() },
        Stmt::AsyncFunctionDef(d) => PyStmt::NamedDef { name: d.name.to_string() },
        Stmt::ClassDef(d) => PyStmt::NamedDef { name: d.name.to_string() },
        Stmt::Delete(d) => PyStmt::Del { targets: conv_exprs(d.targets) },
        Stmt::Assign(d) => PyStmt::Assign { targets: conv_exprs(d.targets) },
        Stmt::AugAssign(d) => PyStmt::SingleAssign { target: conv_expr(*d.target) },
        Stmt::AnnAssign(d) => PyStmt::SingleAssign { target: conv_expr(*d.target) },
        other => conv_stmt_nested(other),
    }
}

/// Conversion layer of `parse_source`: the statement kinds with nested
/// bodies; the async variants bind the same names as the plain ones.
#[verifier::external_body]
fn conv_stmt_nested(s: rustpython_parser::ast::Stmt) -> PyStmt {
    match s {
        Stmt::For(d) => conv_for(*d.target, d.body, d.orelse),
        Stmt::AsyncFor(d) => conv_for(*d.target, d.body, d.orelse),
        Stmt::While(d) => conv_branch(*d.test, d.body, d.orelse),
        Stmt::If(d) => conv_branch(*d.test, d.body, d.orelse),
        Stmt::With(d) => conv_with(d.items, d.body),
        Stmt::AsyncWith(d) => conv_with(d.items, d.body),
        other => conv_stmt_rest(other),
    }
}

/// Conversion layer of `parse_source`: `try` and the imports; every other
/// statement kind binds no module-level name.
#[verifier::external_body]
fn conv_stmt_rest(s: rustpython_parser::ast::Stmt) -> PyStmt {
    match s {
        Stmt::Try(d) => conv_try(d.body, d.handlers, d.orelse, d.finalbody),
        Stmt::TryStar(d) => conv_try(d.body, d.handlers, d.orelse, d.finalbody),
        Stmt::Import(d) => PyStmt::Import { names: conv_aliases(d.names) },
        Stmt::ImportFrom(d) => PyStmt::Import { names: conv_aliases(d.names) },
        _ => PyStmt::Other,
    }
}

/// Conversion layer of `parse_source`: the pieces of a `for` loop.
#[verifier::external_body]
fn conv_for(
    t: rustpython_parser::ast::Expr,
    body: Vec<rustpython_parser::ast::Stmt>,
    orelse: Vec<rustpython_parser::ast::Stmt>,
) -> PyStmt {
    PyStmt::For { target: conv_expr(t), body: conv_stmts(body), orelse: conv_stmts(orelse) }
}

/// Conversion layer of `parse_source`: the pieces of a `while` or `if`.
#[verifier::external_body]
fn conv_branch(
    t: rustpython_parser::ast::Expr,
    body: Vec<rustpython_parser::ast::Stmt>,
    orelse: Vec<rustpython_parser::ast::Stmt>,
) -> PyStmt {
    PyStmt::Branch { test: conv_expr(t), body: conv_stmts(body), orelse: conv_stmts(orelse) }
}

/// Conversion layer of `parse_source`: the pieces of a `with` statement.
#[verifier::external_body]
fn conv_with(
    items: Vec<rustpython_parser::ast::WithItem>,
    body: Vec<rustpython_parser::ast::Stmt>,
) -> PyStmt {
    PyStmt::With {
        items: items.into_iter().map(conv_with_item).collect(),
        body: conv_stmts(body),
    }
}

/// Conversion layer of `parse_source`: the pieces of a `try` statement.
#[verifier::external_body]
fn conv_try(
    body: Vec<rustpython_parser::ast::Stmt>,
    handlers: Vec<rustpython_parser::ast::ExceptHandler>,
    orelse: Vec<rustpython_parser::ast::Stmt>,
    finalbody: Vec<rustpython_parser::ast::Stmt>,
) -> PyStmt {
    PyStmt::Try {
        body: conv_stmts(body),
        handlers: handlers.into_iter().map(conv_handler).collect(),
        orelse: conv_stmts(orelse),
        finalbody: conv_stmts(finalbody),
    }
}

/// Conversion layer of `parse_source`: an imported symbol list.
#[verifier::external_body]
fn conv_aliases(ns: Vec<rustpython_parser::ast::Alias>) -> Vec<PyImportName> {
    ns.into_iter().map(conv_alias).collect()
}

/// Conversion layer of `parse_source`: a statement list.
#[verifier::external_body]
fn conv_stmts(ss: Vec<rustpython_parser::ast::Stmt>) -> Vec<PyStmt> {
    ss.into_iter().map(conv_stmt).collect()
}

/// Conversion layer of `parse_source`: a target list.
#[verifier::external_body]
fn conv_exprs(es: Vec<rustpython_parser::ast::Expr>) -> Vec<PyExpr> {
    es.into_iter().map(conv_expr).collect()
}

/// Conversion layer of `parse_source`: one expression, keeping only the
/// shapes the collector reads.
#[verifier::external_body]
fn conv_expr(e: rustpython_parser::ast::Expr) -> PyExpr {
    match e {
        Expr::Name(n) => PyExpr::Name { id: n.id.to_string() },
        Expr::Tuple(t) => PyExpr::Tup { elts: conv_exprs(t.elts) },
        Expr::NamedExpr(n) => PyExpr::Walrus { target: Box::new(conv_expr(*n.target)) },
        _ => PyExpr::Opaque,
    }
}

/// Conversion layer of `parse_source`: one `with` item.
#[verifier::external_body]
fn conv_with_item(w: rustpython_parser::ast::WithItem) -> PyWithItem {
    PyWithItem { binding: w.optional_vars.map(|e| conv_expr(*e)) }
}

/// Conversion layer of `parse_source`: one imported symbol.
#[verifier::external_body]
fn conv_alias(a: rustpython_parser::ast::Alias) -> PyImportName {
    PyImportName { symbol: a.name.to_string(), alias: a.asname.map(|n| n.to_string()) }
}

/// Conversion layer of `parse_source`: one `except` clause.
#[verifier::external_body]
fn conv_handler(h: rustpython_parser::ast::ExceptHandler) -> PyHandler {
    let rustpython_parser::ast::ExceptHandler::ExceptHandler(d) = h;
    PyHandler { capture: d.name.map(|n| n.to_string()), body: conv_stmts(d.body) }
}

} // verus!
