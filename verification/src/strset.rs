//! Sets of strings, kept as sorted lists without repetition.

use crate::text::{str_eq, str_less};
use vstd::prelude::*;

verus! {

use crate::models::str_views;
use crate::text::{lemma_lex_irreflexive, lemma_lex_total, lemma_lex_transitive, lex_less};

/// Whether texts stand in ascending order, none twice.
pub open spec fn ascending(xs: Seq<Seq<char>>) -> bool {
    forall|i: int, j: int| 0 <= i < j < xs.len() ==> lex_less(xs[i], xs[j])
}

/// A set has one ascending list.
pub proof fn lemma_ascending_unique(a: Seq<Seq<char>>, b: Seq<Seq<char>>)
    requires
        ascending(a),
        ascending(b),
        forall|x: Seq<char>| a.contains(x) == b.contains(x),
    ensures
        a == b,
    decreases a.len(),
{
    if a.len() == 0 {
        if b.len() > 0 {
            assert(b.contains(b[0]));
            assert(a.contains(b[0]));
        }
    } else {
        assert(a.contains(a.last()));
        assert(b.contains(a.last()));
        let j = choose|j: int| 0 <= j < b.len() && b[j] == a.last();
        assert(b.contains(b.last()));
        assert(a.contains(b.last()));
        let i = choose|i: int| 0 <= i < a.len() && a[i] == b.last();
        if j < b.len() - 1 {
            assert(lex_less(b[j], b[b.len() - 1]));
            if i < a.len() - 1 {
                assert(lex_less(a[i], a[a.len() - 1]));
                lemma_lex_transitive(a.last(), b.last(), a.last());
            }
            lemma_lex_irreflexive(a.last());
        }
        assert(a.last() == b.last());
        let p = a.drop_last();
        let q = b.drop_last();
        assert forall|x: Seq<char>| p.contains(x) == q.contains(x) by {
            if p.contains(x) {
                let k = choose|k: int| 0 <= k < p.len() && p[k] == x;
                assert(a[k] == x);
                assert(lex_less(a[k], a[a.len() - 1]));
                lemma_lex_irreflexive(x);
                assert(a.contains(x));
                assert(b.contains(x));
                let m = choose|m: int| 0 <= m < b.len() && b[m] == x;
                assert(q[m] == x);
            }
            if q.contains(x) {
                let k = choose|k: int| 0 <= k < q.len() && q[k] == x;
                assert(b[k] == x);
                assert(lex_less(b[k], b[b.len() - 1]));
                lemma_lex_irreflexive(x);
                assert(b.contains(x));
                assert(a.contains(x));
                let m = choose|m: int| 0 <= m < a.len() && a[m] == x;
                assert(p[m] == x);
            }
        }
        lemma_ascending_unique(p, q);
        assert(a =~= p.push(a.last()));
        assert(b =~= q.push(b.last()));
    }
}

/// The number of members that come before a text.
pub fn place_of(xs: &[String], s: &str) -> (r: usize)
    requires
        ascending(str_views(xs@)),
    ensures
        r <= xs@.len(),
        forall|j: int| 0 <= j < r ==> lex_less(#[trigger] str_views(xs@)[j], s@),
        forall|j: int| r <= j < xs@.len() ==> !lex_less(#[trigger] str_views(xs@)[j], s@),
{
    let ghost vs = str_views(xs@);
    let mut i: usize = 0;
    while i < xs.len() && str_less(xs[i].as_str(), s)
        invariant
            i <= xs@.len(),
            vs == str_views(xs@),
            forall|j: int| 0 <= j < i ==> lex_less(#[trigger] vs[j], s@),
        decreases xs@.len() - i,
    {
        assert(vs[i as int] == xs@[i as int]@);
        i = i + 1;
    }
    proof {
        if i < xs@.len() {
            assert(vs[i as int] == xs@[i as int]@);
            assert forall|j: int| i <= j < xs@.len() implies !lex_less(#[trigger] vs[j], s@) by {
                if i < j && lex_less(vs[j], s@) {
                    assert(lex_less(vs[i as int], vs[j]));
                    lemma_lex_transitive(vs[i as int], vs[j], s@);
                }
            }
        }
    }
    i
}

/// Puts a text into a set.
pub fn insert_str(xs: &mut Vec<String>, s: &str)
    requires
        ascending(str_views(old(xs)@)),
    ensures
        ascending(str_views(final(xs)@)),
        forall|x: Seq<char>|
            str_views(final(xs)@).contains(x) == (x == s@ || str_views(old(xs)@).contains(x)),
{
    let ghost vs = str_views(xs@);
    let k: usize = place_of(xs.as_slice(), s);
    if k < xs.len() && str_eq(xs[k].as_str(), s) {
        assert(vs[k as int] == s@);
        return;
    }
    xs.insert(k, s.to_string());
    proof {
        let ws = str_views(xs@);
        assert(ws =~= vs.insert(k as int, s@));
        assert forall|i: int, j: int| 0 <= i < j < ws.len() implies lex_less(ws[i], ws[j]) by {
            if j == k {
                assert(lex_less(vs[i], s@));
            } else if i == k {
                assert(ws[j] == vs[j - 1]);
                assert(!lex_less(vs[j - 1], s@));
                lemma_lex_total(s@, vs[j - 1]);
                if vs[j - 1] == s@ {
                    if j - 1 > k {
                        assert(lex_less(vs[k as int], vs[j - 1]));
                        assert(!lex_less(vs[k as int], s@));
                    }
                }
            } else {
                let a = if i < k {
                    i
                } else {
                    i - 1
                };
                let b = if j < k {
                    j
                } else {
                    j - 1
                };
                assert(lex_less(vs[a], vs[b]));
            }
        }
        assert forall|x: Seq<char>| ws.contains(x) == (x == s@ || vs.contains(x)) by {
            if ws.contains(x) && x != s@ {
                let i = choose|i: int| 0 <= i < ws.len() && ws[i] == x;
                assert(vs[if i < k {
                    i
                } else {
                    i - 1
                }] == x);
            }
            if vs.contains(x) {
                let i = choose|i: int| 0 <= i < vs.len() && vs[i] == x;
                assert(ws[if i < k {
                    i
                } else {
                    i + 1
                }] == x);
            }
            assert(ws[k as int] == s@);
        }
    }
}

/// Takes a text out of a set.
pub fn remove_str(xs: &mut Vec<String>, s: &str)
    requires
        ascending(str_views(old(xs)@)),
    ensures
        ascending(str_views(final(xs)@)),
        forall|x: Seq<char>|
            str_views(final(xs)@).contains(x) == (x != s@ && str_views(old(xs)@).contains(x)),
{
    let ghost vs = str_views(xs@);
    let k: usize = place_of(xs.as_slice(), s);
    if k < xs.len() && str_eq(xs[k].as_str(), s) {
        assert(vs[k as int] == s@);
        let _gone = xs.remove(k);
        proof {
            let ws = str_views(xs@);
            assert(ws =~= vs.remove(k as int));
            assert forall|i: int, j: int| 0 <= i < j < ws.len() implies lex_less(ws[i], ws[j]) by {
                let a = if i < k {
                    i
                } else {
                    i + 1
                };
                let b = if j < k {
                    j
                } else {
                    j + 1
                };
                assert(lex_less(vs[a], vs[b]));
            }
            assert forall|x: Seq<char>| ws.contains(x) == (x != s@ && vs.contains(x)) by {
                if ws.contains(x) {
                    let i = choose|i: int| 0 <= i < ws.len() && ws[i] == x;
                    let a = if i < k {
                        i
                    } else {
                        i + 1
                    };
                    assert(vs[a] == x);
                    if x == s@ {
                        if a < k {
                            assert(lex_less(vs[a], vs[k as int]));
                        } else {
                            assert(lex_less(vs[k as int], vs[a]));
                        }
                        lemma_lex_irreflexive(x);
                    }
                }
                if x != s@ && vs.contains(x) {
                    let i = choose|i: int| 0 <= i < vs.len() && vs[i] == x;
                    assert(i != k);
                    assert(ws[if i < k {
                        i
                    } else {
                        i - 1
                    }] == x);
                }
            }
        }
        return;
    }
    proof {
        if vs.contains(s@) {
            let i = choose|i: int| 0 <= i < vs.len() && vs[i] == s@;
            lemma_lex_irreflexive(s@);
            assert(!lex_less(vs[i], s@));
            assert(i >= k);
            if i > k {
                assert(lex_less(vs[k as int], vs[i]));
            } else {
                assert(vs[k as int] == xs@[k as int]@);
            }
        }
    }
}

} // verus!
