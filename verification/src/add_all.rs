//! Locating, rendering and splicing the sentinel-delimited `__all__` block,
//! and the whole-file transform built on top of the collector.
use vstd::prelude::*;
use vstd::string::*;

use crate::name_parser::NameParser;
use crate::name_parser::distinct_seq;
use crate::order::lemma_name_cmp_eq;
use crate::order::lemma_sorted_full;
use crate::order::name_cmp;
use crate::order::sort_names;
use crate::order::sorted_names;
use crate::parse::ParseError;
use crate::parse::parse_result;
use crate::py_ast::module_names;

verus! {

/// Whether the file already holds a generated block: `YesAll(start, end)`
/// is the half-open character range of the old block.
#[derive(Debug)]
pub enum FileState {
    NoAll,
    YesAll(usize, usize),
}

/// The exact line that opens a generated block.
pub open spec fn start_marker() -> Seq<char> {
    "# allways: start"@
}

/// The exact line that closes a generated block.
pub open spec fn end_marker() -> Seq<char> {
    "# allways: end"@
}

/// The whitespace that is ignored at the end of a line when looking for
/// the marker lines.
pub open spec fn is_ws(c: char) -> bool {
    c == ' ' || c == '\t' || c == '\r' || c == '\u{000B}' || c == '\u{000C}'
}

/// A line's content with its trailing whitespace dropped.
pub open spec fn trim_end_spec(t: Seq<char>) -> Seq<char>
    decreases t.len(),
{
    if t.len() > 0 && is_ws(t[t.len() - 1]) {
        trim_end_spec(t.subrange(0, t.len() - 1))
    } else {
        t
    }
}

/// The position of the newline that ends the line starting at `i`, or the
/// end of the text.
pub open spec fn line_end(s: Seq<char>, i: int) -> int
    decreases s.len() - i,
{
    if !(0 <= i < s.len()) {
        i
    } else if s[i] == '\n' {
        i
    } else {
        line_end(s, i + 1)
    }
}

pub proof fn lemma_line_end_bounds(s: Seq<char>, i: int)
    requires
        0 <= i <= s.len(),
    ensures
        i <= line_end(s, i) <= s.len(),
        line_end(s, i) < s.len() ==> s[line_end(s, i)] == '\n',
        forall|k: int| i <= k < line_end(s, i) ==> s[k] != '\n',
    decreases s.len() - i,
{
    if i < s.len() && s[i] != '\n' {
        lemma_line_end_bounds(s, i + 1);
    }
}

/// Where the loop found the line's end, `line_end` agrees.
pub proof fn lemma_line_end_at(s: Seq<char>, i: int, j: int)
    requires
        0 <= i <= j <= s.len(),
        forall|k: int| i <= k < j ==> s[k] != '\n',
        j == s.len() || s[j] == '\n',
    ensures
        line_end(s, i) == j,
    decreases j - i,
{
    if i < j {
        lemma_line_end_at(s, i + 1, j);
    }
}

/// Where the loop found the trimmed end, `trim_end_spec` agrees.
pub proof fn lemma_trim_end_at(t: Seq<char>, m: int)
    requires
        0 <= m <= t.len(),
        forall|p: int| m <= p < t.len() ==> is_ws(t[p]),
        m == 0 || !is_ws(t[m - 1]),
    ensures
        trim_end_spec(t) == t.subrange(0, m),
    decreases t.len(),
{
    if t.len() == 0 {
        assert(t.subrange(0, 0) =~= t);
    } else if is_ws(t[t.len() - 1]) {
        let t2 = t.subrange(0, t.len() - 1);
        assert(m < t.len());
        lemma_trim_end_at(t2, m);
        assert(t2.subrange(0, m) =~= t.subrange(0, m));
    } else {
        assert(m == t.len()) by {
            if m < t.len() {
                assert(is_ws(t[t.len() - 1]));
            }
        }
        assert(t.subrange(0, t.len() as int) =~= t);
    }
}

/// One pass over the text, line by line: the offsets recorded for the last
/// start-marker line and the last end-marker line, given what was recorded
/// so far. The start offset is where its line begins; the end offset is
/// just past its line's terminator.
pub open spec fn scan_markers(s: Seq<char>, i: int, st: Option<int>, en: Option<int>) -> (
    Option<int>,
    Option<int>,
)
    decreases s.len() - i + 1,
    via scan_markers_dec
{
    if !(0 <= i < s.len()) {
        (st, en)
    } else {
        let j = line_end(s, i);
        let t = trim_end_spec(s.subrange(i, j));
        let st2 = if t == start_marker() {
            Some(i)
        } else {
            st
        };
        let en2 = if t == end_marker() {
            Some(j + 1)
        } else {
            en
        };
        scan_markers(s, j + 1, st2, en2)
    }
}

#[via_fn]
proof fn scan_markers_dec(s: Seq<char>, i: int, st: Option<int>, en: Option<int>) {
    if 0 <= i < s.len() {
        lemma_line_end_bounds(s, i);
    }
}

/// The block the text already holds, if both markers stand in order: the
/// last start-marker line strictly before the end recorded for the last
/// end-marker line.
pub open spec fn marker_state(s: Seq<char>) -> Option<(int, int)> {
    let (st, en) = scan_markers(s, 0, None, None);
    match (st, en) {
        (Some(a), Some(b)) => if a < b {
            Some((a, b))
        } else {
            None
        },
        _ => None,
    }
}

/// One rendered list entry: the name, indented, double-quoted and
/// comma-terminated, on a line of its own.
pub open spec fn render_entry(n: Seq<char>) -> Seq<char> {
    "    \""@ + n + "\",\n"@
}

/// All rendered list entries, in order.
pub open spec fn render_entries(ns: Seq<Seq<char>>) -> Seq<char>
    decreases ns.len(),
{
    if ns.len() == 0 {
        Seq::empty()
    } else {
        render_entries(ns.subrange(0, ns.len() - 1)) + render_entry(ns[ns.len() - 1])
    }
}

/// The first two lines of a rendered block.
pub open spec fn block_header() -> Seq<char> {
    start_marker() + "\n__all__ = [\n"@
}

/// A whole rendered block: markers around the `__all__` declaration, one
/// name per line, a newline after the closing marker.
pub open spec fn render_block(ns: Seq<Seq<char>>) -> Seq<char> {
    block_header() + render_entries(ns) + "]\n"@ + end_marker() + "\n"@
}

/// The rewritten text: a fresh block goes after two blank lines at the
/// end; an existing block is replaced in place, keeping any tail.
pub open spec fn apply_names(src: Seq<char>, ns: Seq<Seq<char>>) -> Seq<char> {
    match marker_state(src) {
        None => src + "\n\n"@ + render_block(ns),
        Some((a, b)) => if b < src.len() {
            src.subrange(0, a) + render_block(ns) + src.subrange(b, src.len() as int)
        } else {
            src.subrange(0, a) + render_block(ns)
        },
    }
}

/// A name the export list must not show: one that starts with an
/// underscore.
pub open spec fn is_private(n: Seq<char>) -> bool {
    n.len() > 0 && n[0] == '_'
}

/// The names the export list shows, out of everything collected.
pub open spec fn public_names_of(coll: Set<Seq<char>>) -> Set<Seq<char>> {
    Set::new(|n: Seq<char>| coll.contains(n) && !is_private(n))
}

/// The one sequence the export list renders for a collected set: the
/// public names, each once, in sorted order.
pub open spec fn is_listing_of(ns: Seq<Seq<char>>, coll: Set<Seq<char>>) -> bool {
    &&& distinct_seq(ns)
    &&& sorted_names(ns)
    &&& ns.to_set() == public_names_of(coll)
}

/// An export listing is strictly ascending: between any two positions the
/// earlier name compares below the later one, case-insensitively with the
/// exact spelling as tie-break.
pub proof fn lemma_listing_strictly_sorted(ns: Seq<Seq<char>>, coll: Set<Seq<char>>, i: int, j: int)
    requires
        is_listing_of(ns, coll),
        0 <= i < j < ns.len(),
    ensures
        name_cmp(ns[i], ns[j]) < 0,
{
    lemma_sorted_full(ns, i, j);
    lemma_name_cmp_eq(ns[i], ns[j]);
}

/// Dropping a distinct sequence's head removes exactly it from the set.
proof fn lemma_tail_to_set(ns: Seq<Seq<char>>)
    requires
        ns.len() > 0,
        distinct_seq(ns),
    ensures
        ns.subrange(1, ns.len() as int).to_set() == ns.to_set().remove(ns[0]),
{
    let t = ns.subrange(1, ns.len() as int);
    assert forall|x: Seq<char>| t.to_set().contains(x) implies ns.to_set().remove(ns[0]).contains(
        x,
    ) by {
        let k = choose|k: int| 0 <= k < t.len() && t[k] == x;
        assert(ns[k + 1] == x);
        assert(ns[0] != ns[k + 1]);
    }
    assert forall|x: Seq<char>| ns.to_set().remove(ns[0]).contains(x) implies t.to_set().contains(
        x,
    ) by {
        let k = choose|k: int| 0 <= k < ns.len() && ns[k] == x;
        assert(k != 0);
        assert(t[k - 1] == x);
    }
    assert(t.to_set() =~= ns.to_set().remove(ns[0]));
}

/// Two sorted, duplicate-free sequences over the same set are the same
/// sequence: the rendered order is pinned down.
pub proof fn lemma_listing_unique(ns1: Seq<Seq<char>>, ns2: Seq<Seq<char>>)
    requires
        distinct_seq(ns1),
        sorted_names(ns1),
        distinct_seq(ns2),
        sorted_names(ns2),
        ns1.to_set() == ns2.to_set(),
    ensures
        ns1 == ns2,
    decreases ns1.len(),
{
    if ns1.len() == 0 {
        if ns2.len() > 0 {
            assert(ns2.to_set().contains(ns2[0]));
            assert(ns1.to_set().contains(ns2[0]));
            let k = choose|k: int| 0 <= k < ns1.len() && ns1[k] == ns2[0];
            assert(false);
        }
        assert(ns1 =~= ns2);
    } else if ns2.len() == 0 {
        assert(ns1.to_set().contains(ns1[0]));
        assert(ns2.to_set().contains(ns1[0]));
        let k = choose|k: int| 0 <= k < ns2.len() && ns2[k] == ns1[0];
        assert(false);
    } else {
        let h1 = ns1[0];
        let h2 = ns2[0];
        assert(ns1.to_set().contains(h1));
        assert(ns2.to_set().contains(h2));
        assert(ns2.to_set().contains(h1));
        assert(ns1.to_set().contains(h2));
        let k = choose|k: int| 0 <= k < ns2.len() && ns2[k] == h1;
        let m = choose|m: int| 0 <= m < ns1.len() && ns1[m] == h2;
        if k > 0 && m > 0 {
            lemma_sorted_full(ns2, 0, k);
            lemma_sorted_full(ns1, 0, m);
            lemma_name_cmp_eq(h1, h2);
            assert(name_cmp(h2, h1) <= 0 && name_cmp(h1, h2) <= 0);
            assert(h1 == h2);
            assert(ns2[0] != ns2[k]);
            assert(false);
        }
        assert(h1 == h2);
        let t1 = ns1.subrange(1, ns1.len() as int);
        let t2 = ns2.subrange(1, ns2.len() as int);
        lemma_tail_to_set(ns1);
        lemma_tail_to_set(ns2);
        assert forall|a: int, b: int| 0 <= a < b < t1.len() implies t1[a] != t1[b] by {
            assert(ns1[a + 1] != ns1[b + 1]);
        }
        assert forall|a: int, b: int| 0 <= a < b < t2.len() implies t2[a] != t2[b] by {
            assert(ns2[a + 1] != ns2[b + 1]);
        }
        assert forall|p: int| 0 <= p < t1.len() - 1 implies #[trigger] name_cmp(t1[p], t1[p + 1])
            <= 0 by {
            assert(name_cmp(ns1[p + 1], ns1[p + 1 + 1]) <= 0);
        }
        assert forall|p: int| 0 <= p < t2.len() - 1 implies #[trigger] name_cmp(t2[p], t2[p + 1])
            <= 0 by {
            assert(name_cmp(ns2[p + 1], ns2[p + 1 + 1]) <= 0);
        }
        lemma_listing_unique(t1, t2);
        assert(ns1.len() == ns2.len());
        assert forall|p: int| 0 <= p < ns1.len() implies ns1[p] == ns2[p] by {
            if p > 0 {
                assert(t1[p - 1] == t2[p - 1]);
            }
        }
        assert(ns1 =~= ns2);
    }
}

/// Dropping nothing: a line without trailing whitespace trims to itself.
proof fn lemma_trim_noop(c: Seq<char>)
    requires
        c.len() == 0 || !is_ws(c[c.len() - 1]),
    ensures
        trim_end_spec(c) == c,
{
}

/// One scan step across a whole line: the markers recorded after the line
/// are decided by its trimmed content.
proof fn lemma_scan_step(s: Seq<char>, i: int, c: Seq<char>, st: Option<int>, en: Option<int>)
    requires
        0 <= i,
        i + c.len() < s.len(),
        s.subrange(i, i + c.len()) == c,
        s[i + c.len()] == '\n',
        forall|k: int| 0 <= k < c.len() ==> c[k] != '\n',
    ensures
        scan_markers(s, i, st, en) == scan_markers(
            s,
            i + c.len() + 1,
            if trim_end_spec(c) == start_marker() {
                Some(i)
            } else {
                st
            },
            if trim_end_spec(c) == end_marker() {
                Some(i + c.len() + 1)
            } else {
                en
            },
        ),
{
    assert forall|k: int| i <= k < i + c.len() implies s[k] != '\n' by {
        assert(c[k - i] != '\n');
    }
    lemma_line_end_at(s, i, i + c.len());
    assert(s.subrange(i, i + c.len()) == c);
}

/// The scan reaches any position that begins a line, carrying some state.
proof fn lemma_scan_to_boundary(
    s: Seq<char>,
    q: int,
    p: int,
    st: Option<int>,
    en: Option<int>,
) -> (r: (Option<int>, Option<int>))
    requires
        0 <= q <= p <= s.len(),
        p == 0 || s[p - 1] == '\n',
    ensures
        scan_markers(s, q, st, en) == scan_markers(s, p, r.0, r.1),
    decreases p - q,
{
    if q == p {
        (st, en)
    } else {
        lemma_line_end_bounds(s, q);
        let j = line_end(s, q);
        assert(j < p) by {
            if j >= p {
                assert(s[p - 1] != '\n');
            }
        }
        let t = trim_end_spec(s.subrange(q, j));
        let st2 = if t == start_marker() {
            Some(q)
        } else {
            st
        };
        let en2 = if t == end_marker() {
            Some(j + 1)
        } else {
            en
        };
        lemma_scan_to_boundary(s, j + 1, p, st2, en2)
    }
}

/// What the rest of a scan can do to the recorded offsets: each is either
/// carried through untouched, or set to a line boundary in the region.
proof fn lemma_scan_region(s: Seq<char>, p: int, st: Option<int>, en: Option<int>)
    requires
        0 <= p,
        p == 0 || p > s.len() || s[p - 1] == '\n',
    ensures
        ({
            let (a, b) = scan_markers(s, p, st, en);
            &&& (a == st || (a is Some && p <= a->0 < s.len() && (a->0 == 0 || s[a->0 - 1]
                == '\n')))
            &&& (b == en || (b is Some && p < b->0 <= s.len() + 1 && (b->0 == s.len() + 1 || s[b->0
                - 1] == '\n')))
        }),
    decreases s.len() - p + 1,
{
    if 0 <= p < s.len() {
        lemma_line_end_bounds(s, p);
        let j = line_end(s, p);
        let t = trim_end_spec(s.subrange(p, j));
        let st2 = if t == start_marker() {
            Some(p)
        } else {
            st
        };
        let en2 = if t == end_marker() {
            Some(j + 1)
        } else {
            en
        };
        lemma_scan_region(s, j + 1, st2, en2);
    }
}

/// Two texts with the same characters from some position on are scanned
/// the same way from there: each recorded offset is either carried, or set
/// at the same distance into the shared region in both.
proof fn lemma_scan_transfer(
    s1: Seq<char>,
    p1: int,
    st1: Option<int>,
    en1: Option<int>,
    s2: Seq<char>,
    p2: int,
    st2: Option<int>,
    en2: Option<int>,
)
    requires
        0 <= p1 <= s1.len(),
        0 <= p2 <= s2.len(),
        s1.subrange(p1, s1.len() as int) == s2.subrange(p2, s2.len() as int),
    ensures
        ({
            let (a1, b1) = scan_markers(s1, p1, st1, en1);
            let (a2, b2) = scan_markers(s2, p2, st2, en2);
            &&& ((a1 == st1 && a2 == st2) || (a1 is Some && a2 is Some && p1 <= a1->0 && a1->0 - p1
                == a2->0 - p2))
            &&& ((b1 == en1 && b2 == en2) || (b1 is Some && b2 is Some && p1 < b1->0 && b1->0 - p1
                == b2->0 - p2))
        }),
    decreases s1.len() - p1 + 1,
{
    let r1 = s1.subrange(p1, s1.len() as int);
    let r2 = s2.subrange(p2, s2.len() as int);
    assert(r1.len() == r2.len());
    assert(r1.len() == s1.len() - p1);
    assert(r2.len() == s2.len() - p2);
    assert(s1.len() - p1 == s2.len() - p2);
    if 0 <= p1 < s1.len() {
        assert forall|k: int| 0 <= k < s1.len() - p1 implies #[trigger] s1[p1 + k] == s2[p2 + k] by {
            assert(r1[k] == s1[p1 + k]);
            assert(r2[k] == s2[p2 + k]);
            assert(r1[k] == r2[k]);
        }
        lemma_line_end_bounds(s1, p1);
        let j1 = line_end(s1, p1);
        let d = j1 - p1;
        assert forall|k: int| p2 <= k < p2 + d implies s2[k] != '\n' by {
            assert(s1[p1 + (k - p2)] == s2[p2 + (k - p2)]);
        }
        if j1 < s1.len() {
            assert(s2[p2 + d] == s1[p1 + d]);
        }
        lemma_line_end_at(s2, p2, p2 + d);
        let c1 = s1.subrange(p1, j1);
        let c2 = s2.subrange(p2, p2 + d);
        assert(c1 =~= c2);
        let t = trim_end_spec(c1);
        let nst1 = if t == start_marker() {
            Some(p1)
        } else {
            st1
        };
        let nen1 = if t == end_marker() {
            Some(j1 + 1)
        } else {
            en1
        };
        let nst2 = if t == start_marker() {
            Some(p2)
        } else {
            st2
        };
        let nen2 = if t == end_marker() {
            Some(p2 + d + 1)
        } else {
            en2
        };
        if j1 == s1.len() {
            assert(scan_markers(s1, j1 + 1, nst1, nen1) == (nst1, nen1));
            assert(scan_markers(s2, p2 + d + 1, nst2, nen2) == (nst2, nen2));
        } else {
            assert forall|k: int| 0 <= k < s1.len() - (j1 + 1) implies #[trigger] s1.subrange(
                j1 + 1,
                s1.len() as int,
            )[k] == s2.subrange(p2 + d + 1, s2.len() as int)[k] by {
                assert(s1[p1 + (d + 1 + k)] == s2[p2 + (d + 1 + k)]);
            }
            assert(s1.subrange(j1 + 1, s1.len() as int) =~= s2.subrange(
                p2 + d + 1,
                s2.len() as int,
            ));
            lemma_scan_transfer(s1, j1 + 1, nst1, nen1, s2, p2 + d + 1, nst2, nen2);
        }
    }
}

/// The entries of the list, seen line by line, move no marker: no entry
/// line ever equals a marker line.
proof fn lemma_scan_entries(
    s: Seq<char>,
    i: int,
    ns: Seq<Seq<char>>,
    st: Option<int>,
    en: Option<int>,
)
    requires
        0 <= i,
        i + render_entries(ns).len() < s.len(),
        s.subrange(i, i + render_entries(ns).len()) == render_entries(ns),
        forall|k: int| 0 <= k < ns.len() ==> !ns[k].contains('\n'),
    ensures
        scan_markers(s, i, st, en) == scan_markers(s, i + render_entries(ns).len(), st, en),
    decreases ns.len(),
{
    reveal_strlit("    \"");
    reveal_strlit("\",\n");
    reveal_strlit("# allways: start");
    reveal_strlit("# allways: end");
    if ns.len() == 0 {
    } else {
        let e0 = render_entry(ns[0]);
        let tail = ns.subrange(1, ns.len() as int);
        lemma_entries_front(ns);
        let full = render_entries(ns);
        assert(full == e0 + render_entries(tail));
        let c = ("    \""@ + ns[0]) + "\",\n"@.subrange(0, 2);
        assert(c =~= e0.subrange(0, e0.len() - 1));
        assert(e0[e0.len() - 1] == '\n');
        assert forall|k: int| 0 <= k < c.len() implies c[k] != '\n' by {
            if 5 <= k < 5 + ns[0].len() {
                assert(!ns[0].contains('\n'));
                assert(ns[0][k - 5] != '\n');
            }
        }
        assert(s.subrange(i, i + c.len()) =~= c);
        assert(s[i + c.len()] == '\n') by {
            assert(full[c.len() as int] == '\n');
        }
        assert(c[c.len() - 1] == ',');
        lemma_trim_noop(c);
        assert(trim_end_spec(c) != start_marker()) by {
            assert(c[0] == ' ');
            assert(start_marker()[0] == '#');
        }
        assert(trim_end_spec(c) != end_marker()) by {
            assert(c[0] == ' ');
            assert(end_marker()[0] == '#');
        }
        lemma_scan_step(s, i, c, st, en);
        assert forall|k: int| 0 <= k < tail.len() implies !tail[k].contains('\n') by {
            assert(!ns[k + 1].contains('\n'));
        }
        let rest = render_entries(tail);
        assert forall|k: int| 0 <= k < rest.len() implies s.subrange(
            i + e0.len(),
            i + full.len(),
        )[k] == rest[k] by {
            assert(s.subrange(i, i + full.len())[e0.len() + k] == full[e0.len() + k]);
            assert(full[e0.len() + k] == rest[k]);
        }
        assert(s.subrange(i + e0.len(), i + full.len()) =~= render_entries(tail));
        lemma_scan_entries(s, i + e0.len(), tail, st, en);
    }
}

/// The rendered entries read the same front to back as back to front.
proof fn lemma_entries_front(ns: Seq<Seq<char>>)
    requires
        ns.len() > 0,
    ensures
        render_entries(ns) == render_entry(ns[0]) + render_entries(ns.subrange(1, ns.len() as int)),
    decreases ns.len(),
{
    if ns.len() == 1 {
        assert(ns.subrange(0, 0) =~= Seq::<Seq<char>>::empty());
        assert(ns.subrange(1, 1) =~= Seq::<Seq<char>>::empty());
        assert(render_entry(ns[0]) + render_entries(ns.subrange(1, 1)) =~= render_entry(ns[0]));
        assert(render_entries(ns) =~= render_entry(ns[0]));
    } else {
        let dl = ns.subrange(0, ns.len() - 1);
        lemma_entries_front(dl);
        let tail = ns.subrange(1, ns.len() as int);
        assert(tail.subrange(0, tail.len() - 1) =~= dl.subrange(1, dl.len() as int));
        assert(tail[tail.len() - 1] == ns[ns.len() - 1]);
        assert(render_entries(ns) == render_entries(dl) + render_entry(ns[ns.len() - 1]));
        assert(render_entries(tail) == render_entries(tail.subrange(0, tail.len() - 1))
            + render_entry(ns[ns.len() - 1]));
        assert(render_entries(ns) =~= render_entry(ns[0]) + render_entries(tail));
    }
}

/// Scanning across a freshly rendered block records exactly its own two
/// marker lines.
proof fn lemma_scan_block(
    s: Seq<char>,
    base: int,
    ns: Seq<Seq<char>>,
    st: Option<int>,
    en: Option<int>,
)
    requires
        0 <= base,
        base + render_block(ns).len() <= s.len(),
        s.subrange(base, base + render_block(ns).len()) == render_block(ns),
        forall|k: int| 0 <= k < ns.len() ==> !ns[k].contains('\n'),
    ensures
        scan_markers(s, base, st, en) == scan_markers(
            s,
            base + render_block(ns).len(),
            Some(base),
            Some(base + render_block(ns).len()),
        ),
{
    reveal_strlit("# allways: start");
    reveal_strlit("# allways: end");
    reveal_strlit("\n__all__ = [\n");
    reveal_strlit("__all__ = [");
    reveal_strlit("]\n");
    reveal_strlit("\n");
    let blk = render_block(ns);
    let entries = render_entries(ns);
    let el = entries.len() as int;
    let bh = block_header();
    assert(start_marker().len() == 16);
    assert(end_marker().len() == 14);
    assert(bh.len() == 29);
    assert(blk.len() == el + 46);
    assert(bh[16] == '\n');
    assert(bh[28] == '\n');
    assert(bh.subrange(0, 16) =~= start_marker());
    assert(bh.subrange(17, 28) =~= "__all__ = ["@);
    assert forall|k: int| 0 <= k < blk.len() implies s[base + k] == blk[k] by {
        assert(s.subrange(base, base + blk.len())[k] == blk[k]);
    }
    // Line 1: the start marker itself.
    let c1 = start_marker();
    assert(s.subrange(base, base + 16) =~= c1);
    assert(blk[16] == bh[16]);
    assert(s[base + 16] == '\n');
    lemma_trim_noop(c1);
    lemma_scan_step(s, base, c1, st, en);
    // Line 2: the opening of the declaration.
    let c2 = "__all__ = ["@;
    assert forall|k: int| 0 <= k < 11 implies s.subrange(base + 17, base + 28)[k] == c2[k] by {
        assert(s[base + 17 + k] == blk[17 + k]);
        assert(blk[17 + k] == bh[17 + k]);
        assert(bh[17 + k] == c2[k]);
    }
    assert(s.subrange(base + 17, base + 28) =~= c2);
    assert(blk[28] == bh[28]);
    assert(s[base + 28] == '\n');
    lemma_trim_noop(c2);
    assert(trim_end_spec(c2) != start_marker());
    assert(trim_end_spec(c2) != end_marker());
    lemma_scan_step(s, base + 17, c2, Some(base), en);
    // The entry lines.
    assert forall|k: int| 0 <= k < el implies blk[29 + k] == entries[k] by {
        assert(bh.len() + k < (bh + entries).len());
    }
    assert(s.subrange(base + 29, base + 29 + el) =~= entries);
    lemma_scan_entries(s, base + 29, ns, Some(base), en);
    // The closing bracket line.
    let c3 = "]\n"@.subrange(0, 1);
    assert(blk[29 + el] == "]\n"@[0]);
    assert(blk[30 + el] == "]\n"@[1]);
    assert(s.subrange(base + 29 + el, base + 30 + el) =~= c3);
    assert(s[base + 30 + el] == '\n');
    lemma_trim_noop(c3);
    assert(c3.len() == 1);
    assert(trim_end_spec(c3) != start_marker());
    assert(trim_end_spec(c3) != end_marker());
    lemma_scan_step(s, base + 29 + el, c3, Some(base), en);
    // The end marker line.
    let c4 = end_marker();
    assert forall|k: int| 0 <= k < 14 implies blk[31 + el + k] == end_marker()[k] by {
        assert(blk[31 + el + k] == (bh + entries + "]\n"@ + end_marker())[31 + el + k]);
    }
    assert(s.subrange(base + 31 + el, base + 45 + el) =~= c4);
    assert(blk[45 + el] == "\n"@[0]);
    assert(s[base + 45 + el] == '\n');
    lemma_trim_noop(c4);
    assert(trim_end_spec(c4) != start_marker());
    lemma_scan_step(s, base + 31 + el, c4, Some(base), en);
    assert(base + 31 + el + c4.len() + 1 == base + blk.len());
}

/// Splicing a block and scanning the result finds exactly that block:
/// its start marker line, and the offset just past its end marker line.
proof fn lemma_state_of_spliced(pre: Seq<char>, ns: Seq<Seq<char>>, tail: Seq<char>)
    requires
        pre.len() == 0 || pre[pre.len() - 1] == '\n',
        forall|k: int| 0 <= k < ns.len() ==> !ns[k].contains('\n'),
        ({
            let w = pre + render_block(ns) + tail;
            let p = (pre.len() + render_block(ns).len()) as int;
            scan_markers(w, p, Some(pre.len() as int), Some(p)) == (
                Some(pre.len() as int),
                Some(p),
            )
        }),
    ensures
        marker_state(pre + render_block(ns) + tail) == Some(
            (pre.len() as int, (pre.len() + render_block(ns).len()) as int),
        ),
{
    let w = pre + render_block(ns) + tail;
    let blk = render_block(ns);
    let base = pre.len() as int;
    let p = base + blk.len();
    reveal_strlit("# allways: start");
    reveal_strlit("# allways: end");
    reveal_strlit("\n__all__ = [\n");
    reveal_strlit("]\n");
    reveal_strlit("\n");
    assert(blk.len() == render_entries(ns).len() + 46);
    let r = lemma_scan_to_boundary(w, 0, base, None, None);
    assert(w.subrange(base, p) =~= blk);
    lemma_scan_block(w, base, ns, r.0, r.1);
    assert(scan_markers(w, 0, None, None) == (Some(base), Some(p)));
}

/// Applying the text transform twice with the same names changes nothing
/// after the first application: the second pass finds the block the first
/// one wrote and replaces it with itself, byte for byte.
pub proof fn lemma_apply_names_idempotent(src: Seq<char>, ns: Seq<Seq<char>>)
    requires
        forall|k: int| 0 <= k < ns.len() ==> !ns[k].contains('\n'),
    ensures
        apply_names(apply_names(src, ns), ns) == apply_names(src, ns),
{
    let blk = render_block(ns);
    match marker_state(src) {
        None => {
            let pre = src + "\n\n"@;
            let w = apply_names(src, ns);
            reveal_strlit("\n\n");
            assert(w =~= pre + blk + Seq::<char>::empty());
            assert(pre[pre.len() - 1] == '\n');
            let p = (pre.len() + blk.len()) as int;
            assert(scan_markers(w, p, Some(pre.len() as int), Some(p as int)) == (
                Some(pre.len() as int),
                Some(p),
            ));
            lemma_state_of_spliced(pre, ns, Seq::<char>::empty());
            assert(w.subrange(0, pre.len() as int) =~= pre);
            assert(apply_names(w, ns) =~= w);
        },
        Some((a, b)) => {
            let pre = src.subrange(0, a);
            let tail = if b < src.len() {
                src.subrange(b, src.len() as int)
            } else {
                Seq::<char>::empty()
            };
            let w = apply_names(src, ns);
            assert(w =~= pre + blk + tail);
            let p = pre.len() + blk.len();
            // The recorded start begins a line, so the spliced prefix ends
            // at a line break (or is empty).
            lemma_scan_region(src, 0, None, None);
            assert(a == 0 || src[a - 1] == '\n');
            assert(pre.len() == 0 || pre[pre.len() - 1] == '\n');
            // Nothing behind the old block moves a marker: the scan of the
            // original text ends exactly where the old block ended.
            if b < src.len() {
                assert(b == src.len() + 1 || src[b - 1] == '\n');
                let rb = lemma_scan_to_boundary(src, 0, b, None, None);
                lemma_scan_region(src, b, rb.0, rb.1);
                assert(rb.0 == Some(a) && rb.1 == Some(b));
                assert(w.subrange(p as int, w.len() as int) =~= src.subrange(
                    b,
                    src.len() as int,
                ));
                lemma_scan_transfer(src, b, Some(a), Some(b), w, p as int, Some(pre.len() as int),
                    Some(p as int));
            } else {
                assert(w.len() == p);
            }
            lemma_state_of_spliced(pre, ns, tail);
            assert(w.subrange(0, pre.len() as int) =~= pre);
            if b < src.len() {
                assert(apply_names(w, ns) =~= w);
            } else {
                assert(apply_names(w, ns) =~= w);
            }
        },
    }
}

/// Character-for-character string equality.
fn str_eq(a: &str, b: &str) -> (r: bool)
    ensures
        r == (a@ == b@),
{
    let la = a.unicode_len();
    let lb = b.unicode_len();
    if la != lb {
        return false;
    }
    let mut i: usize = 0;
    while i < la
        invariant
            la == a@.len(),
            la == b@.len(),
            0 <= i <= la,
            forall|k: int| 0 <= k < i ==> a@[k] == b@[k],
        decreases la - i,
    {
        if a.get_char(i) != b.get_char(i) {
            return false;
        }
        i += 1;
    }
    proof {
        assert(a@ =~= b@);
    }
    true
}

/// The opening marker line as text.
fn start_marker_text() -> (r: &'static str)
    ensures
        r@ == start_marker(),
{
    "# allways: start"
}

/// The closing marker line as text.
fn end_marker_text() -> (r: &'static str)
    ensures
        r@ == end_marker(),
{
    "# allways: end"
}

/// Whether the character counts as trailing whitespace.
fn is_ws_char(c: char) -> (r: bool)
    ensures
        r == is_ws(c),
{
    c == ' ' || c == '\t' || c == '\r' || c == '\u{000B}' || c == '\u{000C}'
}

/// Maps the recorded offset into the spec's terms.
pub open spec fn opt_int(o: Option<usize>) -> Option<int> {
    match o {
        Some(v) => Some(v as int),
        None => None,
    }
}

/// Scans the text line by line for the two marker lines, keeping the last
/// occurrence of each, and reports the block range when they stand in
/// order.
pub fn get_file_state(src: &str) -> (r: FileState)
    requires
        src@.len() < usize::MAX,
    ensures
        match r {
            FileState::NoAll => marker_state(src@) is None,
            FileState::YesAll(a, b) => {
                &&& marker_state(src@) == Some((a as int, b as int))
                &&& a < src@.len()
                &&& a < b
            },
        },
{
    let len = src.unicode_len();
    let mut pos: usize = 0;
    let mut st: Option<usize> = None;
    let mut en: Option<usize> = None;
    while pos < len
        invariant
            len == src@.len(),
            len < usize::MAX,
            0 <= pos,
            pos as int <= len + 1,
            scan_markers(src@, pos as int, opt_int(st), opt_int(en)) == scan_markers(
                src@,
                0,
                None,
                None,
            ),
            match st {
                Some(v) => v < len,
                None => true,
            },
        decreases len + 1 - pos,
    {
        let ghost st0 = opt_int(st);
        let ghost en0 = opt_int(en);
        let mut j: usize = pos;
        while j < len && src.get_char(j) != '\n'
            invariant
                len == src@.len(),
                pos <= j <= len,
                forall|k: int| pos <= k < j ==> src@[k] != '\n',
            decreases len - j,
        {
            j += 1;
        }
        proof {
            lemma_line_end_at(src@, pos as int, j as int);
        }
        let mut k: usize = j;
        while k > pos && is_ws_char(src.get_char(k - 1))
            invariant
                len == src@.len(),
                pos <= k <= j <= len,
                forall|m: int| k <= m < j ==> is_ws(src@[m]),
            decreases k,
        {
            k -= 1;
        }
        proof {
            let t = src@.subrange(pos as int, j as int);
            assert forall|p: int| k - pos <= p < t.len() implies is_ws(t[p]) by {
                assert(is_ws(src@[pos + p]));
            }
            if k > pos {
                assert(!is_ws(t[k - pos - 1]));
            }
            lemma_trim_end_at(t, k - pos as int);
            assert(t.subrange(0, k - pos as int) =~= src@.subrange(pos as int, k as int));
        }
        let line = src.substring_char(pos, k);
        let is_s = str_eq(line, start_marker_text());
        let is_e = str_eq(line, end_marker_text());
        if is_s {
            st = Some(pos);
        }
        if is_e {
            en = Some(j + 1);
        }
        proof {
            assert(scan_markers(src@, pos as int, st0, en0) == scan_markers(
                src@,
                j + 1,
                opt_int(st),
                opt_int(en),
            ));
        }
        pos = j + 1;
    }
    proof {
        assert(scan_markers(src@, pos as int, opt_int(st), opt_int(en)) == (
            opt_int(st),
            opt_int(en),
        ));
    }
    match (st, en) {
        (Some(a), Some(b)) => {
            if a < b {
                FileState::YesAll(a, b)
            } else {
                FileState::NoAll
            }
        },
        _ => FileState::NoAll,
    }
}

/// Renders the block for the given names, in their given order.
pub fn get_allways_string(names: &Vec<String>) -> (r: String)
    ensures
        r@ == render_block(names.deep_view()),
{
    let ghost dv = names.deep_view();
    let mut out = String::from_str(start_marker_text());
    out.append("\n__all__ = [\n");
    proof {
        assert(out@ == block_header());
        assert(render_entries(dv.subrange(0, 0)) =~= Seq::<char>::empty());
        assert(out@ =~= block_header() + render_entries(dv.subrange(0, 0)));
    }
    let n = names.len();
    let mut i: usize = 0;
    while i < n
        invariant
            n == names.len(),
            dv == names.deep_view(),
            0 <= i <= n,
            out@ == block_header() + render_entries(dv.subrange(0, i as int)),
        decreases n - i,
    {
        out.append("    \"");
        out.append(names[i].as_str());
        out.append("\",\n");
        proof {
            let pre = dv.subrange(0, i as int);
            let cur = dv.subrange(0, i + 1);
            assert(cur.subrange(0, i as int) =~= pre);
            assert(cur[i as int] == dv[i as int]);
            assert(render_entries(cur) == render_entries(pre) + render_entry(dv[i as int]));
            assert(out@ =~= block_header() + render_entries(cur));
        }
        i += 1;
    }
    proof {
        assert(dv.subrange(0, n as int) =~= dv);
    }
    out.append("]\n");
    out.append(end_marker_text());
    out.append("\n");
    proof {
        assert(out@ =~= render_block(dv));
    }
    out
}

/// Appends a fresh block after two blank lines at the end of the text.
pub fn insert_new_allways_block(src: &str, allways_string: &String) -> (r: String)
    ensures
        r@ == src@ + "\n\n"@ + allways_string@,
{
    let mut out = String::from_str(src);
    out.append("\n\n");
    out.append(allways_string.as_str());
    out
}

/// Replaces the block at `[start, end)` with the given one, keeping any
/// text that follows it.
pub fn update_allways_block(src: &str, start: usize, end: usize, allways_string: &String) -> (r:
    String)
    requires
        start <= src@.len(),
    ensures
        r@ == src@.subrange(0, start as int) + allways_string@ + (if (end as int) < src@.len() {
            src@.subrange(end as int, src@.len() as int)
        } else {
            Seq::<char>::empty()
        }),
{
    let len = src.unicode_len();
    let mut out = String::from_str(src.substring_char(0, start));
    out.append(allways_string.as_str());
    if end < len {
        out.append(src.substring_char(end, len));
    } else {
        proof {
            assert(out@ =~= out@ + Seq::<char>::empty());
        }
    }
    out
}

/// Collects the module's names, drops the private ones, and sorts the
/// rest into the export-list order.
pub fn get_public_names(src: &str) -> (r: Result<Vec<String>, ParseError>)
    ensures
        match r {
            Ok(names) => {
                &&& parse_result(src@) is Some
                &&& is_listing_of(
                    names.deep_view(),
                    module_names(parse_result(src@)->Some_0),
                )
            },
            Err(_) => parse_result(src@) is None,
        },
{
    match NameParser::from_source(src) {
        Err(e) => Err(e),
        Ok(p) => {
            let ghost coll = p@;
            let all = p.into_names();
            let ghost adv = all.deep_view();
            let mut public: Vec<String> = Vec::new();
            let n = all.len();
            let mut i: usize = 0;
            proof {
                assert(public.deep_view().to_set() =~= public_names_of(
                    adv.subrange(0, 0).to_set(),
                ));
            }
            while i < n
                invariant
                    n == all.len(),
                    adv == all.deep_view(),
                    distinct_seq(adv),
                    0 <= i <= n,
                    distinct_seq(public.deep_view()),
                    public.deep_view().to_set() == public_names_of(
                        adv.subrange(0, i as int).to_set(),
                    ),
                decreases n - i,
            {
                let name = &all[i];
                let is_priv = name.unicode_len() > 0 && name.get_char(0) == '_';
                proof {
                    assert(is_priv == is_private(adv[i as int]));
                }
                if !is_priv {
                    let ghost pdv = public.deep_view();
                    proof {
                        if pdv.to_set().contains(adv[i as int]) {
                            let w = choose|w: int|
                                0 <= w < i && adv.subrange(0, i as int)[w] == adv[i as int];
                            assert(adv[w] == adv[i as int]);
                            assert(false);
                        }
                    }
                    public.push(name.clone());
                    proof {
                        assert(public.deep_view() =~= pdv.push(adv[i as int]));
                        pdv.lemma_push_to_set_commute(adv[i as int]);
                        assert forall|a: int, b: int|
                            0 <= a < b < public.deep_view().len() implies public.deep_view()[a]
                            != public.deep_view()[b] by {
                            if b == pdv.len() {
                                assert(pdv.contains(pdv[a]));
                            }
                        }
                    }
                }
                proof {
                    let pre = adv.subrange(0, i as int);
                    let cur = adv.subrange(0, i + 1);
                    assert(cur =~= pre.push(adv[i as int]));
                    pre.lemma_push_to_set_commute(adv[i as int]);
                    assert(public.deep_view().to_set() =~= public_names_of(cur.to_set()));
                }
                i += 1;
            }
            sort_names(&mut public);
            proof {
                assert(adv.subrange(0, n as int) =~= adv);
                assert(public.deep_view().to_set() =~= public_names_of(coll));
            }
            Ok(public)
        },
    }
}

/// Rewrites the source so that it carries exactly one up-to-date export
/// block, or reports that nothing is to be written: `Ok(None)` when no
/// public name was found, `Err` when the text does not parse.
pub fn do_it_allways(src: &str) -> (r: Result<Option<String>, ParseError>)
    requires
        src@.len() < usize::MAX,
    ensures
        match r {
            Ok(opt) => {
                &&& parse_result(src@) is Some
                &&& {
                    let pubs = public_names_of(module_names(parse_result(src@)->Some_0));
                    match opt {
                        None => pubs == Set::<Seq<char>>::empty(),
                        Some(out) => {
                            &&& pubs != Set::<Seq<char>>::empty()
                            &&& exists|ns: Seq<Seq<char>>|
                                is_listing_of(ns, module_names(parse_result(src@)->Some_0))
                            &&& forall|ns: Seq<Seq<char>>|
                                is_listing_of(ns, module_names(parse_result(src@)->Some_0))
                                    ==> out@ == apply_names(src@, ns)
                        },
                    }
                }
            },
            Err(_) => parse_result(src@) is None,
        },
{
    match get_public_names(src) {
        Err(e) => Err(e),
        Ok(names) => {
            let ghost coll = module_names(parse_result(src@)->Some_0);
            let ghost dv = names.deep_view();
            if names.len() == 0 {
                proof {
                    assert(public_names_of(coll) =~= Set::<Seq<char>>::empty());
                }
                Ok(None)
            } else {
                let allways_string = get_allways_string(&names);
                let out = match get_file_state(src) {
                    FileState::NoAll => insert_new_allways_block(src, &allways_string),
                    FileState::YesAll(start, end) => update_allways_block(
                        src,
                        start,
                        end,
                        &allways_string,
                    ),
                };
                proof {
                    assert(dv.to_set().contains(dv[0]));
                    assert(public_names_of(coll) != Set::<Seq<char>>::empty());
                    assert(out@ == apply_names(src@, dv));
                    assert forall|ns: Seq<Seq<char>>| is_listing_of(ns, coll) implies out@
                        == apply_names(src@, ns) by {
                        lemma_listing_unique(ns, dv);
                    }
                }
                Ok(Some(out))
            }
        },
    }
}

} // verus!
