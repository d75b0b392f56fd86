//! The order the export list is rendered in: case-insensitive ascending,
//! ties broken by the exact spelling. Holds the three-way comparison, its
//! algebra, and a verified insertion sort.
use vstd::prelude::*;
use vstd::string::*;

use crate::name_parser::distinct_seq;
use crate::parse::lower_of;
use crate::parse::lowercase;

verus! {

/// Three-way lexicographic comparison of character sequences by code
/// point: -1, 0 or 1.
pub open spec fn lex_cmp(a: Seq<char>, b: Seq<char>) -> int
    decreases a.len(),
{
    if a.len() == 0 && b.len() == 0 {
        0
    } else if a.len() == 0 {
        -1
    } else if b.len() == 0 {
        1
    } else if a[0] < b[0] {
        -1
    } else if a[0] > b[0] {
        1
    } else {
        lex_cmp(a.subrange(1, a.len() as int), b.subrange(1, b.len() as int))
    }
}

/// Three-way comparison of names: by lowercased form first, exact spelling
/// as the tie-break.
pub open spec fn name_cmp(a: Seq<char>, b: Seq<char>) -> int {
    if lex_cmp(lower_of(a), lower_of(b)) != 0 {
        lex_cmp(lower_of(a), lower_of(b))
    } else {
        lex_cmp(a, b)
    }
}

pub proof fn lemma_lex_cmp_eq(a: Seq<char>, b: Seq<char>)
    ensures
        lex_cmp(a, b) == 0 <==> a == b,
        lex_cmp(a, b) == -1 || lex_cmp(a, b) == 0 || lex_cmp(a, b) == 1,
    decreases a.len(),
{
    if a.len() > 0 && b.len() > 0 && a[0] == b[0] {
        let at = a.subrange(1, a.len() as int);
        let bt = b.subrange(1, b.len() as int);
        lemma_lex_cmp_eq(at, bt);
        if lex_cmp(a, b) == 0 {
            assert(at == bt);
            assert(a.len() == b.len());
            assert forall|k: int| 0 <= k < a.len() implies a[k] == b[k] by {
                if k >= 1 {
                    assert(at[k - 1] == bt[k - 1]);
                }
            }
            assert(a =~= b);
        }
        if a == b {
            assert(at =~= bt);
        }
    } else {
        if lex_cmp(a, b) == 0 {
            assert(a.len() == 0 && b.len() == 0);
            assert(a =~= b);
        }
        if a == b && a.len() > 0 {
            assert(a[0] == b[0]);
        }
    }
}

pub proof fn lemma_lex_cmp_antisym(a: Seq<char>, b: Seq<char>)
    ensures
        lex_cmp(a, b) == -lex_cmp(b, a),
    decreases a.len(),
{
    if a.len() > 0 && b.len() > 0 && a[0] == b[0] {
        lemma_lex_cmp_antisym(a.subrange(1, a.len() as int), b.subrange(1, b.len() as int));
    }
}

pub proof fn lemma_lex_cmp_trans(a: Seq<char>, b: Seq<char>, c: Seq<char>)
    requires
        lex_cmp(a, b) <= 0,
        lex_cmp(b, c) <= 0,
    ensures
        lex_cmp(a, c) <= 0,
        lex_cmp(a, c) == 0 ==> lex_cmp(a, b) == 0 && lex_cmp(b, c) == 0,
    decreases a.len(),
{
    lemma_lex_cmp_eq(a, b);
    lemma_lex_cmp_eq(b, c);
    lemma_lex_cmp_eq(a, c);
    if a.len() > 0 && b.len() > 0 && c.len() > 0 {
        if a[0] == b[0] && b[0] == c[0] {
            lemma_lex_cmp_trans(
                a.subrange(1, a.len() as int),
                b.subrange(1, b.len() as int),
                c.subrange(1, c.len() as int),
            );
        }
    }
}

pub proof fn lemma_name_cmp_eq(a: Seq<char>, b: Seq<char>)
    ensures
        name_cmp(a, b) == 0 <==> a == b,
        name_cmp(a, b) == -name_cmp(b, a),
        name_cmp(a, b) == -1 || name_cmp(a, b) == 0 || name_cmp(a, b) == 1,
{
    lemma_lex_cmp_eq(lower_of(a), lower_of(b));
    lemma_lex_cmp_eq(a, b);
    lemma_lex_cmp_antisym(lower_of(a), lower_of(b));
    lemma_lex_cmp_antisym(a, b);
}

pub proof fn lemma_name_cmp_trans(a: Seq<char>, b: Seq<char>, c: Seq<char>)
    requires
        name_cmp(a, b) <= 0,
        name_cmp(b, c) <= 0,
    ensures
        name_cmp(a, c) <= 0,
        name_cmp(a, c) == 0 ==> a == b && b == c,
{
    lemma_lex_cmp_eq(lower_of(a), lower_of(b));
    lemma_lex_cmp_eq(lower_of(b), lower_of(c));
    lemma_lex_cmp_eq(lower_of(a), lower_of(c));
    lemma_lex_cmp_antisym(lower_of(a), lower_of(b));
    lemma_lex_cmp_antisym(lower_of(b), lower_of(c));
    lemma_lex_cmp_trans(lower_of(a), lower_of(b), lower_of(c));
    if lex_cmp(lower_of(a), lower_of(b)) == 0 && lex_cmp(lower_of(b), lower_of(c)) == 0 {
        lemma_lex_cmp_trans(a, b, c);
    }
    lemma_name_cmp_eq(a, c);
    if name_cmp(a, c) == 0 {
        lemma_name_cmp_eq(a, b);
        lemma_name_cmp_eq(b, c);
    }
}

/// A sequence is sorted when every adjacent pair is in order.
pub open spec fn sorted_names(ns: Seq<Seq<char>>) -> bool {
    forall|k: int| 0 <= k < ns.len() - 1 ==> #[trigger] name_cmp(ns[k], ns[k + 1]) <= 0
}

/// Adjacent order extends to every pair of positions.
pub proof fn lemma_sorted_full(ns: Seq<Seq<char>>, i: int, j: int)
    requires
        sorted_names(ns),
        0 <= i < j < ns.len(),
    ensures
        name_cmp(ns[i], ns[j]) <= 0,
    decreases j - i,
{
    assert(name_cmp(ns[j - 1], ns[j - 1 + 1]) <= 0);
    if j == i + 1 {
    } else {
        lemma_sorted_full(ns, i, j - 1);
        lemma_name_cmp_trans(ns[i], ns[j - 1], ns[j]);
    }
}

/// How far two equal-prefix sequences compare is decided past the prefix.
pub proof fn lemma_lex_cmp_skip(a: Seq<char>, b: Seq<char>, i: int)
    requires
        0 <= i <= a.len(),
        i <= b.len(),
        forall|k: int| 0 <= k < i ==> a[k] == b[k],
    ensures
        lex_cmp(a, b) == lex_cmp(a.subrange(i, a.len() as int), b.subrange(i, b.len() as int)),
    decreases i,
{
    if i == 0 {
        assert(a.subrange(0, a.len() as int) =~= a);
        assert(b.subrange(0, b.len() as int) =~= b);
    } else {
        assert(a.len() > 0 && b.len() > 0 && a[0] == b[0]);
        let at = a.subrange(1, a.len() as int);
        let bt = b.subrange(1, b.len() as int);
        lemma_lex_cmp_skip(at, bt, i - 1);
        assert(at.subrange(i - 1, at.len() as int) =~= a.subrange(i, a.len() as int));
        assert(bt.subrange(i - 1, bt.len() as int) =~= b.subrange(i, b.len() as int));
    }
}

/// Three-way comparison of two strings, character by character.
fn str_lex_cmp(a: &str, b: &str) -> (r: i8)
    ensures
        r as int == lex_cmp(a@, b@),
{
    let la = a.unicode_len();
    let lb = b.unicode_len();
    let mut i: usize = 0;
    while i < la && i < lb
        invariant
            la == a@.len(),
            lb == b@.len(),
            0 <= i <= la,
            i <= lb,
            forall|k: int| 0 <= k < i ==> a@[k] == b@[k],
        decreases la - i,
    {
        let ca = a.get_char(i);
        let cb = b.get_char(i);
        if ca < cb {
            proof {
                lemma_lex_cmp_skip(a@, b@, i as int);
            }
            return -1;
        }
        if cb < ca {
            proof {
                lemma_lex_cmp_skip(a@, b@, i as int);
            }
            return 1;
        }
        proof {
            assert(ca == cb);
        }
        i += 1;
    }
    proof {
        lemma_lex_cmp_skip(a@, b@, i as int);
    }
    if la < lb {
        -1
    } else if la > lb {
        1
    } else {
        0
    }
}

/// Compares two names case-insensitively, exact spelling as tie-break:
/// -1, 0 or 1.
pub fn case_insensitive_cmp(left: &String, right: &String) -> (r: i8)
    ensures
        r as int == name_cmp(left@, right@),
{
    let ll = lowercase(left.as_str());
    let rl = lowercase(right.as_str());
    let c = str_lex_cmp(ll.as_str(), rl.as_str());
    if c != 0 {
        c
    } else {
        str_lex_cmp(left.as_str(), right.as_str())
    }
}

/// Sorts names into the export-list order. Keeps the set of names, and
/// keeps distinctness.
pub fn sort_names(names: &mut Vec<String>)
    ensures
        final(names)@.len() == old(names)@.len(),
        sorted_names(final(names).deep_view()),
        final(names).deep_view().to_set() == old(names).deep_view().to_set(),
        distinct_seq(old(names).deep_view()) ==> distinct_seq(final(names).deep_view()),
{
    let ghost input = names.deep_view();
    let n = names.len();
    let mut out: Vec<String> = Vec::new();
    let mut i: usize = 0;
    proof {
        assert(out.deep_view().to_set() =~= input.subrange(0, 0).to_set());
    }
    while i < n
        invariant
            n == names.len(),
            input == names.deep_view(),
            0 <= i <= n,
            out.deep_view().len() == i,
            sorted_names(out.deep_view()),
            out.deep_view().to_set() == input.subrange(0, i as int).to_set(),
            distinct_seq(input) ==> distinct_seq(out.deep_view()),
        decreases n - i,
    {
        let x = names[i].clone();
        let ghost odv = out.deep_view();
        let m = out.len();
        let mut p: usize = 0;
        while p < m && !(case_insensitive_cmp(&out[p], &x) == 1)
            invariant
                m == out.len(),
                odv == out.deep_view(),
                x@ == input[i as int],
                0 <= p <= m,
                forall|k: int| 0 <= k < p ==> name_cmp(odv[k], x@) <= 0,
            decreases m - p,
        {
            proof {
                lemma_name_cmp_eq(odv[p as int], x@);
            }
            p += 1;
        }
        proof {
            if p < m {
                lemma_name_cmp_eq(odv[p as int], x@);
                assert(name_cmp(x@, odv[p as int]) < 0);
            }
        }
        out.insert(p, x);
        proof {
            let dv = out.deep_view();
            assert(dv =~= odv.insert(p as int, input[i as int]));
            lemma_insert_set_and_order(odv, p as int, input[i as int]);
            assert(input.subrange(0, i + 1) =~= input.subrange(0, i as int).push(input[i as int]));
            input.subrange(0, i as int).lemma_push_to_set_commute(input[i as int]);
            assert(dv.to_set() =~= input.subrange(0, i + 1).to_set());
            if distinct_seq(input) {
                assert forall|a: int, b: int| 0 <= a < b < dv.len() implies dv[a] != dv[b] by {
                    let a0: int = if a < p { a } else { a - 1 };
                    let b0: int = if b < p { b } else { b - 1 };
                    if a == p || b == p {
                        let other: int = if a == p { b0 } else { a0 };
                        assert(odv[other] == dv[if a == p { b } else { a }]);
                        assert(odv.to_set().contains(odv[other]));
                        if input.subrange(0, i as int).to_set().contains(input[i as int]) {
                            let w = choose|w: int|
                                0 <= w < i && input.subrange(0, i as int)[w] == input[i as int];
                            assert(input[w] == input[i as int]);
                        }
                    } else {
                        assert(dv[a] == odv[a0] && dv[b] == odv[b0]);
                    }
                }
            }
        }
        i += 1;
    }
    proof {
        assert(input.subrange(0, n as int) =~= input);
    }
    *names = out;
}

/// Inserting an element at a position bounded by in-order neighbours keeps
/// the sequence sorted, and adds the element to its set.
proof fn lemma_insert_set_and_order(s: Seq<Seq<char>>, p: int, x: Seq<char>)
    requires
        0 <= p <= s.len(),
        sorted_names(s),
        forall|k: int| 0 <= k < p ==> name_cmp(s[k], x) <= 0,
        p < s.len() ==> name_cmp(x, s[p]) < 0,
    ensures
        sorted_names(s.insert(p, x)),
        s.insert(p, x).to_set() == s.to_set().insert(x),
{
    let t = s.insert(p, x);
    assert forall|k: int| 0 <= k < t.len() - 1 implies #[trigger] name_cmp(t[k], t[k + 1]) <= 0 by {
        if k + 1 < p {
            assert(t[k] == s[k] && t[k + 1] == s[k + 1]);
            assert(name_cmp(s[k], s[k + 1]) <= 0);
        } else if k + 1 == p {
            assert(t[k] == s[k] && t[k + 1] == x);
        } else if k == p {
            assert(t[k] == x && t[k + 1] == s[p]);
            lemma_name_cmp_eq(x, s[p]);
        } else {
            assert(t[k] == s[k - 1] && t[k + 1] == s[k]);
            assert(name_cmp(s[k - 1], s[k - 1 + 1]) <= 0);
        }
    }
    assert forall|y: Seq<char>| t.to_set().contains(y) implies s.to_set().insert(x).contains(
        y,
    ) by {
        let k = choose|k: int| 0 <= k < t.len() && t[k] == y;
        if k != p {
            let k0: int = if k < p {
                k
            } else {
                k - 1
            };
            assert(s[k0] == y);
        }
    }
    assert forall|y: Seq<char>| s.to_set().insert(x).contains(y) implies t.to_set().contains(
        y,
    ) by {
        if y == x {
            assert(t[p] == y);
        } else {
            let k0 = choose|k0: int| 0 <= k0 < s.len() && s[k0] == y;
            if k0 < p {
                assert(t[k0] == y);
            } else {
                assert(t[k0 + 1] == y);
            }
        }
    }
    assert(t.to_set() =~= s.to_set().insert(x));
}

} // verus!
