//! The verified name collector: a depth-first walk over the statement model
//! that maintains the set of names currently bound at module scope.
use vstd::prelude::*;
use vstd::string::*;

use crate::parse::parse_source;
use crate::parse::parse_result;
use crate::parse::ParseError;
use crate::py_ast::PyExpr;
use crate::py_ast::PyHandler;
use crate::py_ast::PyImportName;
use crate::py_ast::PyStmt;
use crate::py_ast::PyWithItem;
use crate::py_ast::import_bound_name;
use crate::py_ast::import_names;
use crate::py_ast::module_names;
use crate::py_ast::stmt_names;
use crate::py_ast::stmts_names;
use crate::py_ast::handlers_names;
use crate::py_ast::target_names;
use crate::py_ast::targets_names;
use crate::py_ast::tuple_names;
use crate::py_ast::with_items_names;

verus! {

/// Collects the distinct names bound at module scope. Abstractly it is the
/// set of those names; concretely it keeps them in a vector without
/// duplicates.
pub struct NameParser {
    names: Vec<String>,
}

impl View for NameParser {
    type V = Set<Seq<char>>;

    closed spec fn view(&self) -> Set<Seq<char>> {
        self.names.deep_view().to_set()
    }
}

/// No element of the sequence appears twice.
pub open spec fn distinct_seq(s: Seq<Seq<char>>) -> bool {
    forall|i: int, j: int| #![trigger s[i], s[j]] 0 <= i < j < s.len() ==> s[i] != s[j]
}

impl NameParser {
    /// No name is stored twice.
    pub closed spec fn wf(&self) -> bool {
        distinct_seq(self.names.deep_view())
    }

    pub fn new() -> (r: Self)
        ensures
            r@ == Set::<Seq<char>>::empty(),
            r.wf(),
    {
        let r = Self { names: Vec::new() };
        proof {
            assert(r.names.deep_view().to_set() =~= Set::<Seq<char>>::empty());
        }
        r
    }

    /// Whether `name` is already collected.
    fn contains_name(&self, name: &String) -> (r: bool)
        ensures
            r == self@.contains(name@),
    {
        let n = self.names.len();
        let mut i: usize = 0;
        while i < n
            invariant
                n == self.names.len(),
                0 <= i <= n,
                forall|k: int| 0 <= k < i ==> self.names.deep_view()[k] != name@,
            decreases n - i,
        {
            if self.names[i] == *name {
                proof {
                    assert(self.names.deep_view()[i as int] == name@);
                    assert(self.names.deep_view().contains(name@));
                }
                return true;
            }
            i += 1;
        }
        proof {
            assert(!self.names.deep_view().contains(name@));
        }
        false
    }

    pub fn insert(&mut self, name: String)
        requires
            old(self).wf(),
        ensures
            final(self)@ == old(self)@.insert(name@),
            final(self).wf(),
    {
        if self.contains_name(&name) {
            proof {
                assert(self@ =~= old(self)@.insert(name@));
            }
        } else {
            let ghost dv0 = self.names.deep_view();
            self.names.push(name);
            proof {
                assert(self.names.deep_view() =~= dv0.push(name@));
                dv0.lemma_push_to_set_commute(name@);
                assert forall|i: int, j: int|
                    0 <= i < j < self.names.deep_view().len() implies self.names.deep_view()[i]
                    != self.names.deep_view()[j] by {
                    if j == dv0.len() {
                        assert(!dv0.to_set().contains(name@));
                        assert(dv0.contains(dv0[i]));
                    }
                }
            }
        }
    }

    pub fn remove(&mut self, name: &String)
        requires
            old(self).wf(),
        ensures
            final(self)@ == old(self)@.remove(name@),
            final(self).wf(),
    {
        let n = self.names.len();
        let mut i: usize = 0;
        while i < n
            invariant
                n == self.names.len(),
                0 <= i <= n,
                *self == *old(self),
                self.wf(),
                forall|k: int| 0 <= k < i ==> self.names.deep_view()[k] != name@,
            decreases n - i,
        {
            if self.names[i] == *name {
                let ghost dv0 = self.names.deep_view();
                proof {
                    assert(distinct_seq(dv0));
                }
                self.names.remove(i);
                proof {
                    let dv = self.names.deep_view();
                    assert(dv =~= dv0.remove(i as int));
                    assert(dv0[i as int] == name@);
                    assert forall|k: int| 0 <= k < dv.len() implies dv[k] == (if k < i {
                        dv0[k]
                    } else {
                        dv0[k + 1]
                    }) by {
                        assert(dv[k] == dv0.remove(i as int)[k]);
                    }

                    assert forall|x: Seq<char>| dv.to_set().contains(x) implies dv0.to_set().remove(
                        name@,
                    ).contains(x) by {
                        let k = choose|k: int| 0 <= k < dv.len() && dv[k] == x;
                        let k0: int = if k < i { k } else { k + 1 };
                        assert(dv0[k0] == x);
                        assert(dv0.contains(x));
                        assert(k0 != i);
                        if k0 < i {
                            assert(dv0[k0] != dv0[i as int]);
                        } else {
                            assert(dv0[i as int] != dv0[k0]);
                        }
                        assert(x != name@);
                    }
                    assert forall|x: Seq<char>|
                        dv0.to_set().remove(name@).contains(x) implies dv.to_set().contains(x) by {
                        let k0 = choose|k0: int| 0 <= k0 < dv0.len() && dv0[k0] == x;
                        assert(k0 != i);
                        if k0 < i {
                            assert(dv[k0] == x);
                        } else {
                            assert(dv[k0 - 1] == x);
                        }
                    }
                    assert(dv.to_set() =~= dv0.to_set().remove(name@));
                    assert forall|a: int, b: int| 0 <= a < b < dv.len() implies dv[a] != dv[b] by {
                        let a0: int = if a < i { a } else { a + 1 };
                        let b0: int = if b < i { b } else { b + 1 };
                        assert(dv[a] == dv0[a0]);
                        assert(dv[b] == dv0[b0]);
                        assert(dv0[a0] != dv0[b0]);
                    }
                }
                return ;
            }
            i += 1;
        }
        proof {
            assert(!self.names.deep_view().contains(name@));
            assert(self@ =~= old(self)@.remove(name@));
        }
    }

    pub fn insert_many(&mut self, names: &Vec<String>)
        requires
            old(self).wf(),
        ensures
            final(self)@ == old(self)@.union(names.deep_view().to_set()),
            final(self).wf(),
    {
        let n = names.len();
        let ghost dv = names.deep_view();
        let mut i: usize = 0;
        proof {
            assert(old(self)@.union(dv.subrange(0, 0).to_set()) =~= old(self)@);
        }
        while i < n
            invariant
                n == names.len(),
                dv == names.deep_view(),
                0 <= i <= n,
                self.wf(),
                self@ == old(self)@.union(dv.subrange(0, i as int).to_set()),
            decreases n - i,
        {
            self.insert(names[i].clone());
            proof {
                assert(dv.subrange(0, i + 1) =~= dv.subrange(0, i as int).push(dv[i as int]));
                dv.subrange(0, i as int).lemma_push_to_set_commute(dv[i as int]);
                assert(self@ =~= old(self)@.union(dv.subrange(0, i + 1).to_set()));
            }
            i += 1;
        }
        proof {
            assert(dv.subrange(0, n as int) =~= dv);
            assert(self@ == old(self)@.union(dv.to_set()));
        }
    }

    pub fn remove_many(&mut self, names: &Vec<String>)
        requires
            old(self).wf(),
        ensures
            final(self)@ == old(self)@.difference(names.deep_view().to_set()),
            final(self).wf(),
    {
        let n = names.len();
        let ghost dv = names.deep_view();
        let mut i: usize = 0;
        proof {
            assert(old(self)@.difference(dv.subrange(0, 0).to_set()) =~= old(self)@);
        }
        while i < n
            invariant
                n == names.len(),
                dv == names.deep_view(),
                0 <= i <= n,
                self.wf(),
                self@ == old(self)@.difference(dv.subrange(0, i as int).to_set()),
            decreases n - i,
        {
            self.remove(&names[i]);
            proof {
                assert(dv.subrange(0, i + 1) =~= dv.subrange(0, i as int).push(dv[i as int]));
                dv.subrange(0, i as int).lemma_push_to_set_commute(dv[i as int]);
                assert(self@ =~= old(self)@.difference(dv.subrange(0, i + 1).to_set()));
            }
            i += 1;
        }
        proof {
            assert(dv.subrange(0, n as int) =~= dv);
        }
    }

    /// Folds another collector's names into this one, consuming it.
    pub fn take_from(&mut self, other: Self)
        requires
            old(self).wf(),
        ensures
            final(self)@ == old(self)@.union(other@),
            final(self).wf(),
    {
        self.insert_many(&other.names);
    }

    /// Removes another collector's names from this one, consuming it.
    pub fn remove_from(&mut self, other: Self)
        requires
            old(self).wf(),
        ensures
            final(self)@ == old(self)@.difference(other@),
            final(self).wf(),
    {
        self.remove_many(&other.names);
    }

    /// Gives the collected names up as a vector without duplicates.
    pub fn into_names(self) -> (r: Vec<String>)
        requires
            self.wf(),
        ensures
            r.deep_view().to_set() == self@,
            forall|i: int, j: int|
                0 <= i < j < r.deep_view().len() ==> r.deep_view()[i] != r.deep_view()[j],
    {
        self.names
    }
}

impl NameParser {
    /// The names a binding target resolves to, as a collector.
    pub fn from_target(e: &PyExpr) -> (r: Self)
        ensures
            r@ == target_names(*e),
            r.wf(),
        decreases *e,
    {
        match e {
            PyExpr::Name { id } => {
                let mut p = Self::new();
                p.insert(id.clone());
                proof {
                    assert(p@ =~= target_names(*e));
                }
                p
            },
            PyExpr::Tup { elts } => Self::from_targets(elts),
            _ => {
                let p = Self::new();
                proof {
                    assert(p@ =~= target_names(*e));
                }
                p
            },
        }
    }

    /// The union of the names resolved by each target in the list.
    pub fn from_targets(es: &Vec<PyExpr>) -> (r: Self)
        ensures
            r@ == targets_names(es@),
            r.wf(),
        decreases es,
    {
        let n = es.len();
        let mut p = Self::new();
        let mut i: usize = 0;
        proof {
            assert(p@ =~= tuple_names(es@.subrange(0, 0)));
        }
        while i < n
            invariant
                n == es.len(),
                0 <= i <= n,
                p.wf(),
                p@ == tuple_names(es@.subrange(0, i as int)),
            decreases n - i,
        {
            let q = Self::from_target(&es[i]);
            p.take_from(q);
            proof {
                assert(es@.subrange(0, i + 1).subrange(0, i as int) =~= es@.subrange(0, i as int));
                assert(es@.subrange(0, i + 1)[i as int] == es@[i as int]);
            }
            i += 1;
        }
        proof {
            assert(es@.subrange(0, n as int) =~= es@);
        }
        p
    }

    /// The names bound by the `as` clauses of a `with` statement.
    fn from_with_items(items: &Vec<PyWithItem>) -> (r: Self)
        ensures
            r@ == with_items_names(items@),
            r.wf(),
    {
        let n = items.len();
        let mut p = Self::new();
        let mut i: usize = 0;
        proof {
            assert(p@ =~= with_items_names(items@.subrange(0, 0)));
        }
        while i < n
            invariant
                n == items.len(),
                0 <= i <= n,
                p.wf(),
                p@ == with_items_names(items@.subrange(0, i as int)),
            decreases n - i,
        {
            match &items[i].binding {
                Some(e) => {
                    let q = Self::from_target(e);
                    p.take_from(q);
                },
                None => {},
            }
            proof {
                assert(items@.subrange(0, i + 1).subrange(0, i as int) =~= items@.subrange(
                    0,
                    i as int,
                ));
                assert(items@.subrange(0, i + 1)[i as int] == items@[i as int]);
                if items@[i as int].binding is None {
                    assert(p@ =~= with_items_names(items@.subrange(0, i + 1)));
                }
            }
            i += 1;
        }
        proof {
            assert(items@.subrange(0, n as int) =~= items@);
        }
        p
    }

    /// The names bound by an import's symbol list, skipping the star
    /// wildcard.
    fn from_import_names(ns: &Vec<PyImportName>) -> (r: Self)
        ensures
            r@ == import_names(ns@),
            r.wf(),
    {
        let n = ns.len();
        let mut p = Self::new();
        let mut i: usize = 0;
        proof {
            assert(p@ =~= import_names(ns@.subrange(0, 0)));
        }
        while i < n
            invariant
                n == ns.len(),
                0 <= i <= n,
                p.wf(),
                p@ == import_names(ns@.subrange(0, i as int)),
            decreases n - i,
        {
            let bound: &String = match &ns[i].alias {
                Some(a) => a,
                None => &ns[i].symbol,
            };
            let star = String::from_str("*");
            proof {
                reveal_strlit("*");
                assert(bound@ == import_bound_name(ns@[i as int]));
            }
            if !(*bound == star) {
                p.insert(bound.clone());
            }
            proof {
                assert(ns@.subrange(0, i + 1).subrange(0, i as int) =~= ns@.subrange(0, i as int));
                assert(ns@.subrange(0, i + 1)[i as int] == ns@[i as int]);
                if bound@ == "*"@ {
                    assert(p@ =~= import_names(ns@.subrange(0, i + 1)));
                }
            }
            i += 1;
        }
        proof {
            assert(ns@.subrange(0, n as int) =~= ns@);
        }
        p
    }

    /// Applies one statement's effect to the running set.
    pub fn add_statement(&mut self, s: &PyStmt)
        requires
            old(self).wf(),
        ensures
            final(self)@ == stmt_names(*s, old(self)@),
            final(self).wf(),
        decreases *s,
    {
        match s {
            PyStmt::NamedDef { name } => {
                self.insert(name.clone());
            },
            PyStmt::Del { targets } => {
                let q = Self::from_targets(targets);
                self.remove_from(q);
            },
            PyStmt::Assign { targets } => {
                let q = Self::from_targets(targets);
                self.take_from(q);
            },
            PyStmt::SingleAssign { target } => {
                let q = Self::from_target(target);
                self.take_from(q);
            },
            PyStmt::For { target, body, orelse } => {
                let q = Self::from_target(target);
                self.take_from(q);
                self.add_statements(body);
                self.add_statements(orelse);
            },
            PyStmt::Branch { test, body, orelse } => {
                if let PyExpr::Walrus { target } = test {
                    let q = Self::from_target(&**target);
                    self.take_from(q);
                }
                self.add_statements(body);
                self.add_statements(orelse);
            },
            PyStmt::With { items, body } => {
                let q = Self::from_with_items(items);
                self.take_from(q);
                self.add_statements(body);
            },
            PyStmt::Try { body, handlers, orelse, finalbody } => {
                self.add_statements(body);
                self.add_handler_bodies(handlers);
                self.add_statements(orelse);
                self.add_statements(finalbody);
            },
            PyStmt::Import { names } => {
                let q = Self::from_import_names(names);
                self.take_from(q);
            },
            PyStmt::Other => {},
        }
    }

    /// Applies a statement sequence's effect, left to right.
    pub fn add_statements(&mut self, ss: &Vec<PyStmt>)
        requires
            old(self).wf(),
        ensures
            final(self)@ == stmts_names(ss@, old(self)@),
            final(self).wf(),
        decreases ss,
    {
        let n = ss.len();
        let mut i: usize = 0;
        proof {
            assert(ss@.subrange(0, ss@.len() as int) =~= ss@);
        }
        while i < n
            invariant
                n == ss.len(),
                0 <= i <= n,
                self.wf(),
                stmts_names(ss@.subrange(i as int, n as int), self@) == stmts_names(
                    ss@,
                    old(self)@,
                ),
            decreases n - i,
        {
            let ghost pre = self@;
            self.add_statement(&ss[i]);
            proof {
                let rest = ss@.subrange(i as int, n as int);
                assert(rest[0] == ss@[i as int]);
                assert(rest.subrange(1, rest.len() as int) =~= ss@.subrange(i + 1, n as int));
            }
            i += 1;
        }
        proof {
            assert(ss@.subrange(n as int, n as int) =~= Seq::<PyStmt>::empty());
        }
    }

    /// Walks each handler's body in order; the captured exception name is
    /// never inserted.
    fn add_handler_bodies(&mut self, hs: &Vec<PyHandler>)
        requires
            old(self).wf(),
        ensures
            final(self)@ == handlers_names(hs@, old(self)@),
            final(self).wf(),
        decreases hs,
    {
        let n = hs.len();
        let mut i: usize = 0;
        proof {
            assert(hs@.subrange(0, hs@.len() as int) =~= hs@);
        }
        while i < n
            invariant
                n == hs.len(),
                0 <= i <= n,
                self.wf(),
                handlers_names(hs@.subrange(i as int, n as int), self@) == handlers_names(
                    hs@,
                    old(self)@,
                ),
            decreases n - i,
        {
            self.add_statements(&hs[i].body);
            proof {
                let rest = hs@.subrange(i as int, n as int);
                assert(rest[0] == hs@[i as int]);
                assert(rest.subrange(1, rest.len() as int) =~= hs@.subrange(i + 1, n as int));
            }
            i += 1;
        }
        proof {
            assert(hs@.subrange(n as int, n as int) =~= Seq::<PyHandler>::empty());
        }
    }

    /// Parses a module's source text and collects its top-level names.
    pub fn from_source(src: &str) -> (r: Result<Self, ParseError>)
        ensures
            match r {
                Ok(p) => {
                    &&& parse_result(src@) is Some
                    &&& p@ == module_names(parse_result(src@)->Some_0)
                    &&& p.wf()
                },
                Err(_) => parse_result(src@) is None,
            },
    {
        match parse_source(src) {
            Ok(stmts) => {
                let mut p = Self::new();
                p.add_statements(&stmts);
                Ok(p)
            },
            Err(e) => Err(e),
        }
    }
}

} // verus!
