//! A plain-data model of the Python statements that matter for name
//! collection, together with the spec-level account of which names each
//! construct binds at module scope.
use vstd::prelude::*;

verus! {

/// A binding target or test expression, reduced to the shapes the collector
/// inspects. Everything else (attributes, subscripts, calls, literals,
/// comprehensions) binds no module-level name and is `Opaque`.
#[derive(Debug)]
pub enum PyExpr {
    /// A plain identifier.
    Name { id: String },
    /// A tuple or list of targets, as in `a, b = ...` or `with x as (p, q):`.
    Tup { elts: Vec<PyExpr> },
    /// An assignment expression `(name := value)`; only its target matters.
    Walrus { target: Box<PyExpr> },
    /// Any other expression kind: binds nothing.
    Opaque,
}

/// One `except` clause: the captured name is deliberately kept out of the
/// collected set (it is scoped to the handler), only the body is walked.
#[derive(Debug)]
pub struct PyHandler {
    pub capture: Option<String>,
    pub body: Vec<PyStmt>,
}

/// One context item of a `with` statement; `binding` is its `as` target.
#[derive(Debug)]
pub struct PyWithItem {
    pub binding: Option<PyExpr>,
}

/// One imported symbol, with its optional alias.
#[derive(Debug)]
pub struct PyImportName {
    pub symbol: String,
    pub alias: Option<String>,
}

/// A top-level statement, reduced to what the collector reads.
#[derive(Debug)]
pub enum PyStmt {
    /// A function or class definition (async or not): binds its name.
    NamedDef { name: String },
    /// `del a, b`: unbinds the resolved targets.
    Del { targets: Vec<PyExpr> },
    /// `a = b = expr`: binds every target.
    Assign { targets: Vec<PyExpr> },
    /// Augmented (`x += e`) or annotated (`x: T = e`) assignment.
    SingleAssign { target: PyExpr },
    /// A `for` loop (async or not): binds the loop target, then walks the
    /// body and the `else` body.
    For { target: PyExpr, body: Vec<PyStmt>, orelse: Vec<PyStmt> },
    /// A `while` or `if` statement: a walrus test binds its target, then
    /// both the body and the `else` body are walked unconditionally.
    Branch { test: PyExpr, body: Vec<PyStmt>, orelse: Vec<PyStmt> },
    /// A `with` statement (async or not): binds each `as` target, then
    /// walks the body.
    With { items: Vec<PyWithItem>, body: Vec<PyStmt> },
    /// A `try` statement: walks the body, each handler's body, the `else`
    /// body and the `finally` body.
    Try { body: Vec<PyStmt>, handlers: Vec<PyHandler>, orelse: Vec<PyStmt>, finalbody: Vec<PyStmt> },
    /// `import a, b as c` or `from m import a, b as c`.
    Import { names: Vec<PyImportName> },
    /// Any other statement kind: no effect, nothing to walk.
    Other,
}

/// The names a single binding target resolves to: an identifier gives its
/// name, a tuple the union of its elements, anything else nothing.
pub open spec fn target_names(e: PyExpr) -> Set<Seq<char>>
    decreases e,
{
    match e {
        PyExpr::Name { id } => Set::empty().insert(id@),
        PyExpr::Tup { elts } => tuple_names(elts@),
        _ => Set::empty(),
    }
}

/// The union of the names resolved by each element of a target tuple.
pub open spec fn tuple_names(es: Seq<PyExpr>) -> Set<Seq<char>>
    decreases es,
{
    if es.len() == 0 {
        Set::empty()
    } else {
        tuple_names(es.subrange(0, es.len() - 1)).union(target_names(es[es.len() - 1]))
    }
}

/// The union of the names resolved by a list of targets.
pub open spec fn targets_names(es: Seq<PyExpr>) -> Set<Seq<char>> {
    tuple_names(es)
}

/// The names bound by the `as` clauses of a `with` statement's items.
pub open spec fn with_items_names(items: Seq<PyWithItem>) -> Set<Seq<char>>
    decreases items,
{
    if items.len() == 0 {
        Set::empty()
    } else {
        let last = items[items.len() - 1];
        let rest = with_items_names(items.subrange(0, items.len() - 1));
        match last.binding {
            Some(e) => rest.union(target_names(e)),
            None => rest,
        }
    }
}

/// The name an imported symbol binds: its alias if present, else the
/// symbol itself.
pub open spec fn import_bound_name(n: PyImportName) -> Seq<char> {
    match n.alias {
        Some(a) => a@,
        None => n.symbol@,
    }
}

/// The names bound by an import's symbol list; the star wildcard binds
/// nothing.
pub open spec fn import_names(ns: Seq<PyImportName>) -> Set<Seq<char>>
    decreases ns,
{
    if ns.len() == 0 {
        Set::empty()
    } else {
        let rest = import_names(ns.subrange(0, ns.len() - 1));
        let bound = import_bound_name(ns[ns.len() - 1]);
        if bound == "*"@ {
            rest
        } else {
            rest.insert(bound)
        }
    }
}

/// The name set after one statement runs, given the set before it.
pub open spec fn stmt_names(s: PyStmt, acc: Set<Seq<char>>) -> Set<Seq<char>>
    decreases s,
{
    match s {
        PyStmt::NamedDef { name } => acc.insert(name@),
        PyStmt::Del { targets } => acc.difference(targets_names(targets@)),
        PyStmt::Assign { targets } => acc.union(targets_names(targets@)),
        PyStmt::SingleAssign { target } => acc.union(target_names(target)),
        PyStmt::For { target, body, orelse } => {
            stmts_names(orelse@, stmts_names(body@, acc.union(target_names(target))))
        },
        PyStmt::Branch { test, body, orelse } => {
            let acc1 = match test {
                PyExpr::Walrus { target } => acc.union(target_names(*target)),
                _ => acc,
            };
            stmts_names(orelse@, stmts_names(body@, acc1))
        },
        PyStmt::With { items, body } => {
            stmts_names(body@, acc.union(with_items_names(items@)))
        },
        PyStmt::Try { body, handlers, orelse, finalbody } => {
            stmts_names(finalbody@, stmts_names(orelse@, handlers_names(handlers@, stmts_names(body@, acc))))
        },
        PyStmt::Import { names } => acc.union(import_names(names@)),
        PyStmt::Other => acc,
    }
}

/// The name set after a statement sequence runs, left to right.
pub open spec fn stmts_names(ss: Seq<PyStmt>, acc: Set<Seq<char>>) -> Set<Seq<char>>
    decreases ss,
{
    if ss.len() == 0 {
        acc
    } else {
        stmts_names(ss.subrange(1, ss.len() as int), stmt_names(ss[0], acc))
    }
}

/// The name set after every handler's body has been walked, in order.
pub open spec fn handlers_names(hs: Seq<PyHandler>, acc: Set<Seq<char>>) -> Set<Seq<char>>
    decreases hs,
{
    if hs.len() == 0 {
        acc
    } else {
        handlers_names(hs.subrange(1, hs.len() as int), stmts_names(hs[0].body@, acc))
    }
}

/// The names a whole module binds at top level, starting from nothing.
pub open spec fn module_names(ss: Seq<PyStmt>) -> Set<Seq<char>> {
    stmts_names(ss, Set::empty())
}

/// Whether walking this statement can ever insert `x` into the set.
pub open spec fn stmt_inserts(s: PyStmt, x: Seq<char>) -> bool
    decreases s,
{
    match s {
        PyStmt::NamedDef { name } => name@ == x,
        PyStmt::Del { .. } => false,
        PyStmt::Assign { targets } => targets_names(targets@).contains(x),
        PyStmt::SingleAssign { target } => target_names(target).contains(x),
        PyStmt::For { target, body, orelse } => {
            target_names(target).contains(x) || stmts_insert(body@, x) || stmts_insert(orelse@, x)
        },
        PyStmt::Branch { test, body, orelse } => {
            let walrus = match test {
                PyExpr::Walrus { target } => target_names(*target).contains(x),
                _ => false,
            };
            walrus || stmts_insert(body@, x) || stmts_insert(orelse@, x)
        },
        PyStmt::With { items, body } => {
            with_items_names(items@).contains(x) || stmts_insert(body@, x)
        },
        PyStmt::Try { body, handlers, orelse, finalbody } => {
            stmts_insert(body@, x) || handlers_insert(handlers@, x) || stmts_insert(orelse@, x)
                || stmts_insert(finalbody@, x)
        },
        PyStmt::Import { names } => import_names(names@).contains(x),
        PyStmt::Other => false,
    }
}

/// Whether walking this statement sequence can ever insert `x`.
pub open spec fn stmts_insert(ss: Seq<PyStmt>, x: Seq<char>) -> bool
    decreases ss,
{
    if ss.len() == 0 {
        false
    } else {
        stmt_inserts(ss[0], x) || stmts_insert(ss.subrange(1, ss.len() as int), x)
    }
}

/// Whether walking these handlers' bodies can ever insert `x`.
pub open spec fn handlers_insert(hs: Seq<PyHandler>, x: Seq<char>) -> bool
    decreases hs,
{
    if hs.len() == 0 {
        false
    } else {
        stmts_insert(hs[0].body@, x) || handlers_insert(hs.subrange(1, hs.len() as int), x)
    }
}

/// A statement that never inserts `x` cannot bring `x` into the set.
pub proof fn lemma_stmt_no_insert(s: PyStmt, acc: Set<Seq<char>>, x: Seq<char>)
    requires
        !stmt_inserts(s, x),
        !acc.contains(x),
    ensures
        !stmt_names(s, acc).contains(x),
    decreases s,
{
    match s {
        PyStmt::For { target, body, orelse } => {
            lemma_stmts_no_insert(body@, acc.union(target_names(target)), x);
            lemma_stmts_no_insert(orelse@, stmts_names(body@, acc.union(target_names(target))), x);
        },
        PyStmt::Branch { test, body, orelse } => {
            let acc1 = match test {
                PyExpr::Walrus { target } => acc.union(target_names(*target)),
                _ => acc,
            };
            lemma_stmts_no_insert(body@, acc1, x);
            lemma_stmts_no_insert(orelse@, stmts_names(body@, acc1), x);
        },
        PyStmt::With { items, body } => {
            lemma_stmts_no_insert(body@, acc.union(with_items_names(items@)), x);
        },
        PyStmt::Try { body, handlers, orelse, finalbody } => {
            lemma_stmts_no_insert(body@, acc, x);
            lemma_handlers_no_insert(handlers@, stmts_names(body@, acc), x);
            lemma_stmts_no_insert(
                orelse@,
                handlers_names(handlers@, stmts_names(body@, acc)),
                x,
            );
            lemma_stmts_no_insert(
                finalbody@,
                stmts_names(orelse@, handlers_names(handlers@, stmts_names(body@, acc))),
                x,
            );
        },
        _ => {},
    }
}

/// A statement sequence that never inserts `x` cannot bring `x` into the
/// set.
pub proof fn lemma_stmts_no_insert(ss: Seq<PyStmt>, acc: Set<Seq<char>>, x: Seq<char>)
    requires
        !stmts_insert(ss, x),
        !acc.contains(x),
    ensures
        !stmts_names(ss, acc).contains(x),
    decreases ss,
{
    if ss.len() > 0 {
        lemma_stmt_no_insert(ss[0], acc, x);
        lemma_stmts_no_insert(ss.subrange(1, ss.len() as int), stmt_names(ss[0], acc), x);
    }
}

/// Handler bodies that never insert `x` cannot bring `x` into the set.
pub proof fn lemma_handlers_no_insert(hs: Seq<PyHandler>, acc: Set<Seq<char>>, x: Seq<char>)
    requires
        !handlers_insert(hs, x),
        !acc.contains(x),
    ensures
        !handlers_names(hs, acc).contains(x),
    decreases hs,
{
    if hs.len() > 0 {
        lemma_stmts_no_insert(hs[0].body@, acc, x);
        lemma_handlers_no_insert(hs.subrange(1, hs.len() as int), stmts_names(hs[0].body@, acc), x);
    }
}

/// The walk over a statement list splits at any point: first the prefix,
/// then the rest.
pub proof fn lemma_stmts_names_split(ss: Seq<PyStmt>, k: int, acc: Set<Seq<char>>)
    requires
        0 <= k <= ss.len(),
    ensures
        stmts_names(ss, acc) == stmts_names(
            ss.subrange(k, ss.len() as int),
            stmts_names(ss.subrange(0, k), acc),
        ),
    decreases k,
{
    if k == 0 {
        assert(ss.subrange(0, ss.len() as int) =~= ss);
        assert(ss.subrange(0, 0) =~= Seq::<PyStmt>::empty());
    } else {
        let s0 = ss[0];
        let rest = ss.subrange(1, ss.len() as int);
        lemma_stmts_names_split(rest, k - 1, stmt_names(s0, acc));
        assert(rest.subrange(k - 1, rest.len() as int) =~= ss.subrange(k, ss.len() as int));
        let pre = ss.subrange(0, k);
        assert(pre[0] == s0);
        assert(pre.subrange(1, pre.len() as int) =~= rest.subrange(0, k - 1));
    }
}

/// A name a delete statement removes stays out of the final set, unless a
/// later statement can bind it again.
pub proof fn lemma_deleted_name_stays_out(ss: Seq<PyStmt>, k: int, x: Seq<char>, acc: Set<
    Seq<char>,
>)
    requires
        0 <= k < ss.len(),
        ss[k] matches PyStmt::Del { targets } && targets_names(targets@).contains(x),
        !stmts_insert(ss.subrange(k + 1, ss.len() as int), x),
    ensures
        !stmts_names(ss, acc).contains(x),
{
    lemma_stmts_names_split(ss, k, acc);
    let before = stmts_names(ss.subrange(0, k), acc);
    let tail = ss.subrange(k, ss.len() as int);
    assert(tail[0] == ss[k]);
    let after_del = stmt_names(ss[k], before);
    assert(!after_del.contains(x));
    assert(tail.subrange(1, tail.len() as int) =~= ss.subrange(k + 1, ss.len() as int));
    lemma_stmts_no_insert(ss.subrange(k + 1, ss.len() as int), after_del, x);
}

/// The exception-capture name of a handler never reaches the collected
/// set: two handler lists with the same bodies, whatever names they
/// capture, walk to the same set.
pub proof fn lemma_capture_names_ignored(hs1: Seq<PyHandler>, hs2: Seq<PyHandler>, acc: Set<
    Seq<char>,
>)
    requires
        hs1.len() == hs2.len(),
        forall|k: int| 0 <= k < hs1.len() ==> hs1[k].body == hs2[k].body,
    ensures
        handlers_names(hs1, acc) == handlers_names(hs2, acc),
    decreases hs1,
{
    if hs1.len() > 0 {
        assert(hs1[0].body == hs2[0].body);
        let t1 = hs1.subrange(1, hs1.len() as int);
        let t2 = hs2.subrange(1, hs2.len() as int);
        assert forall|k: int| 0 <= k < t1.len() implies t1[k].body == t2[k].body by {
            assert(hs1[k + 1].body == hs2[k + 1].body);
        }
        lemma_capture_names_ignored(t1, t2, stmts_names(hs1[0].body@, acc));
    }
}

} // verus!
