//! The index of notes with local changes.

use crate::strset::{insert_str, remove_str};
use crate::text::{first_occurrence_of, from_chars, is_blank_str, to_chars};
use vstd::prelude::*;

verus! {

use crate::drafts::queue::content_views;
use crate::models::str_views;
use crate::strset::ascending;
use crate::text::{first_occurrence, is_blank, lemma_first_occurrence, occurs_at};

/// The name under which the index of drafts is stored.
pub const DRAFT_INDEX_KEY: &'static str = "hulunote_draft_index";

/// The name of a note in the index.
pub open spec fn index_key(db: Seq<char>, note: Seq<char>) -> Seq<char> {
    db + seq![':', ':'] + note
}

/// The name of a note in the index.
pub fn note_index_key(db_id: &str, note_id: &str) -> (r: String)
    ensures
        r@ == index_key(db_id@, note_id@),
{
    let mut out = String::new();
    out.append(db_id);
    out.push(':');
    out.push(':');
    out.append(note_id);
    assert(out@ =~= index_key(db_id@, note_id@));
    out
}

/// Puts a note into the index. One without names is not put in.
pub fn index_touch_note(index: &mut Vec<String>, db_id: &str, note_id: &str)
    requires
        ascending(str_views(old(index)@)),
    ensures
        ascending(str_views(final(index)@)),
        forall|x: Seq<char>|
            str_views(final(index)@).contains(x) == (str_views(old(index)@).contains(x) || (
            !is_blank(db_id@) && !is_blank(note_id@) && x == index_key(db_id@, note_id@))),
{
    if is_blank_str(db_id) || is_blank_str(note_id) {
        return;
    }
    insert_str(index, note_index_key(db_id, note_id).as_str());
}

/// Takes a note out of the index.
pub fn index_remove_note(index: &mut Vec<String>, db_id: &str, note_id: &str)
    requires
        ascending(str_views(old(index)@)),
    ensures
        ascending(str_views(final(index)@)),
        forall|x: Seq<char>|
            str_views(final(index)@).contains(x) == (str_views(old(index)@).contains(x) && !(
            !is_blank(db_id@) && !is_blank(note_id@) && x == index_key(db_id@, note_id@))),
{
    if is_blank_str(db_id) || is_blank_str(note_id) {
        return;
    }
    remove_str(index, note_index_key(db_id, note_id).as_str());
}

/// The database and the note that a name in the index stands for: what stands before the
/// first `::`, and what follows up to the next one.
pub open spec fn parsed_key(k: Seq<char>) -> Option<(Seq<char>, Seq<char>)> {
    match first_occurrence(k, seq![':', ':'], 0) {
        None => None,
        Some(i) => {
            let rest = k.skip(i + 2);
            Some(
                (
                    k.take(i),
                    match first_occurrence(rest, seq![':', ':'], 0) {
                        None => rest,
                        Some(j) => rest.take(j),
                    },
                ),
            )
        },
    }
}

/// The database and the note that a name in the index stands for.
pub fn parse_index_key(k: &str) -> (r: Option<(String, String)>)
    ensures
        match r {
            Some((db, note)) => parsed_key(k@) == Some((db@, note@)),
            None => parsed_key(k@) is None,
        },
{
    let chars = to_chars(k);
    let n: usize = chars.len();
    let sep: [char; 2] = [':', ':'];
    assert(sep@ =~= seq![':', ':']);
    match first_occurrence_of(chars.as_slice(), &sep, 0) {
        None => None,
        Some(i) => {
            let db = from_chars(chars.as_slice(), 0, i);
            assert(k@.subrange(0, i as int) =~= k@.take(i as int));
            let rest = vstd::slice::slice_subrange(chars.as_slice(), i + 2, n);
            assert(rest@ =~= k@.skip(i + 2));
            let end: usize = match first_occurrence_of(rest, &sep, 0) {
                None => rest.len(),
                Some(j) => j,
            };
            let note = from_chars(rest, 0, end);
            assert(rest@.subrange(0, end as int) =~= rest@.take(end as int));
            assert(rest@.take(rest@.len() as int) =~= rest@);
            Some((db, note))
        },
    }
}

proof fn lemma_parts(a: Seq<char>, b: Seq<char>)
    requires
        forall|i: int| !occurs_at(a, seq![':', ':'], i),
        a.len() > 0 ==> a.last() != ':',
    ensures
        first_occurrence(a + seq![':', ':'] + b, seq![':', ':'], 0) == Some(a.len() as int),
{
    let sep = seq![':', ':'];
    let k = a + sep + b;
    let n = a.len() as int;
    lemma_first_occurrence(k, sep, 0);
    assert(k.subrange(n, n + 2) =~= sep);
    assert(occurs_at(k, sep, n));
    let i = first_occurrence(k, sep, 0)->0;
    assert(i == n) by {
        if i < n {
            assert(k.subrange(i, i + 2)[0] == ':' && k.subrange(i, i + 2)[1] == ':');
            if i + 2 <= n {
                assert(a.subrange(i, i + 2) =~= k.subrange(i, i + 2));
                assert(occurs_at(a, sep, i));
            } else {
                assert(a.last() == k[i]);
            }
        }
    }
}

/// What follows a second `::` in a name of the index is passed over, and a name without
/// any stands for no note.
pub proof fn law_index_key_has_two_parts(db: Seq<char>, note: Seq<char>, more: Seq<char>)
    requires
        forall|i: int| !occurs_at(db, seq![':', ':'], i),
        forall|i: int| !occurs_at(note, seq![':', ':'], i),
        db.len() > 0 ==> db.last() != ':',
        note.len() > 0 ==> note.last() != ':',
    ensures
        parsed_key(db + seq![':', ':'] + (note + seq![':', ':'] + more)) == Some((db, note)),
        parsed_key(db) is None,
{
    let sep = seq![':', ':'];
    let rest = note + sep + more;
    let k = db + sep + rest;
    lemma_parts(db, rest);
    lemma_parts(note, more);
    assert(k.take(db.len() as int) =~= db);
    assert(k.skip(db.len() as int + 2) =~= rest);
    assert(rest.take(note.len() as int) =~= note);
    lemma_first_occurrence(db, sep, 0);
}

/// The name of a note in the index leads back to it, as long as neither name holds `::`
/// and that of the database does not end in a colon.
pub proof fn law_index_key_round_trip(db: Seq<char>, note: Seq<char>)
    requires
        forall|i: int| !occurs_at(db, seq![':', ':'], i),
        forall|i: int| !occurs_at(note, seq![':', ':'], i),
        db.len() > 0 ==> db.last() != ':',
    ensures
        parsed_key(index_key(db, note)) == Some((db, note)),
{
    let sep = seq![':', ':'];
    let k = index_key(db, note);
    let n = db.len() as int;
    lemma_parts(db, note);
    assert(k.take(n) =~= db);
    assert(k.skip(n + 2) =~= note);
    lemma_first_occurrence(note, sep, 0);
}

/// The notes that the names in the index stand for.
pub open spec fn parsed_keys(ks: Seq<Seq<char>>) -> Seq<(Seq<char>, Seq<char>)>
    decreases ks.len(),
{
    if ks.len() == 0 {
        Seq::empty()
    } else {
        let rest = parsed_keys(ks.drop_last());
        match parsed_key(ks.last()) {
            Some(p) => rest.push(p),
            None => rest,
        }
    }
}

/// What a list of pairs of names holds.
pub open spec fn pair_views(xs: Seq<(String, String)>) -> Seq<(Seq<char>, Seq<char>)> {
    Seq::new(xs.len(), |i: int| (xs[i].0@, xs[i].1@))
}

/// The notes in the index.
pub fn indexed_notes(index: &[String]) -> (r: Vec<(String, String)>)
    ensures
        pair_views(r@) == parsed_keys(str_views(index@)),
{
    let ghost ks = str_views(index@);
    let mut out: Vec<(String, String)> = Vec::new();
    let mut i: usize = 0;
    assert(ks.take(0) =~= Seq::<Seq<char>>::empty());
    assert(pair_views(out@) =~= Seq::<(Seq<char>, Seq<char>)>::empty());
    while i < index.len()
        invariant
            i <= index@.len(),
            ks == str_views(index@),
            pair_views(out@) == parsed_keys(ks.take(i as int)),
        decreases index@.len() - i,
    {
        proof {
            assert(ks.take(i + 1).drop_last() =~= ks.take(i as int));
            assert(ks.take(i + 1).last() == index@[i as int]@);
        }
        let ghost before = pair_views(out@);
        if let Some(p) = parse_index_key(index[i].as_str()) {
            let ghost pv = (p.0@, p.1@);
            out.push(p);
            assert(pair_views(out@) =~= before.push(pv));
        }
        i = i + 1;
    }
    assert(ks.take(i as int) =~= ks);
    out
}

/// Notes with one more put in behind those that were not changed before it.
pub open spec fn put_dirty(
    xs: Seq<(Seq<char>, Seq<char>, i64)>,
    x: (Seq<char>, Seq<char>, i64),
) -> Seq<(Seq<char>, Seq<char>, i64)>
    decreases xs.len(),
{
    if xs.len() == 0 || xs.last().2 >= x.2 {
        xs.push(x)
    } else {
        put_dirty(xs.drop_last(), x).push(xs.last())
    }
}

/// Notes by the time of their last change, the latest first. Those changed at the same
/// time stay as they come.
pub open spec fn latest_first(xs: Seq<(Seq<char>, Seq<char>, i64)>) -> Seq<
    (Seq<char>, Seq<char>, i64),
>
    decreases xs.len(),
{
    if xs.len() == 0 {
        xs
    } else {
        put_dirty(latest_first(xs.drop_last()), xs.last())
    }
}

/// The names of notes.
pub open spec fn names_of(xs: Seq<(Seq<char>, Seq<char>, i64)>) -> Seq<(Seq<char>, Seq<char>)> {
    Seq::new(xs.len(), |i: int| (xs[i].0, xs[i].1))
}

fn put_dirty_of(xs: &mut Vec<(String, String, i64)>, x: (String, String, i64))
    ensures
        content_views(final(xs)@) == put_dirty(content_views(old(xs)@), (x.0@, x.1@, x.2)),
{
    let ghost vs = content_views(xs@);
    let ghost xv = (x.0@, x.1@, x.2);
    let mut j: usize = xs.len();
    proof {
        assert(vs.take(j as int) =~= vs);
        assert(put_dirty(vs, xv) + vs.skip(j as int) =~= put_dirty(vs, xv));
    }
    while j > 0 && xs[j - 1].2 < x.2
        invariant
            j <= xs@.len(),
            vs == content_views(xs@),
            xv == (x.0@, x.1@, x.2),
            put_dirty(vs.take(j as int), xv) + vs.skip(j as int) == put_dirty(vs, xv),
        decreases j,
    {
        proof {
            let t = vs.take(j as int);
            assert(t.drop_last() =~= vs.take(j - 1));
            assert(t.last() == vs[j - 1]);
            let u = put_dirty(vs.take(j - 1), xv);
            assert(u.push(t.last()) + vs.skip(j as int) =~= u + vs.skip(j - 1));
        }
        j = j - 1;
    }
    assert(put_dirty(vs.take(j as int), xv) == vs.take(j as int).push(xv));
    xs.insert(j, x);
    assert(content_views(xs@) =~= vs.take(j as int).push(xv) + vs.skip(j as int));
}

/// The first `limit` of notes with local changes, those changed last first.
pub fn list_dirty_notes(notes: Vec<(String, String, i64)>, limit: usize) -> (r: Vec<(String, String)>)
    ensures
        ({
            let all = names_of(latest_first(content_views(notes@)));
            pair_views(r@) == (if all.len() <= limit {
                all
            } else {
                all.take(limit as int)
            })
        }),
{
    let ghost vs = content_views(notes@);
    let mut sorted: Vec<(String, String, i64)> = Vec::new();
    let mut i: usize = 0;
    assert(content_views(sorted@) =~= latest_first(vs.take(0)));
    while i < notes.len()
        invariant
            i <= notes@.len(),
            vs == content_views(notes@),
            content_views(sorted@) == latest_first(vs.take(i as int)),
        decreases notes@.len() - i,
    {
        proof {
            assert(vs.take(i + 1).drop_last() =~= vs.take(i as int));
            assert(vs.take(i + 1).last() == vs[i as int]);
        }
        put_dirty_of(&mut sorted, (notes[i].0.clone(), notes[i].1.clone(), notes[i].2));
        i = i + 1;
    }
    assert(vs.take(i as int) =~= vs);
    let ghost all = names_of(latest_first(vs));
    assert(content_views(sorted@).len() == sorted@.len());
    let mut out: Vec<(String, String)> = Vec::new();
    let mut k: usize = 0;
    while k < sorted.len() && k < limit
        invariant
            k <= sorted@.len(),
            k <= limit,
            all.len() == sorted@.len(),
            all == names_of(content_views(sorted@)),
            pair_views(out@) == all.take(k as int),
            out@.len() == k,
        decreases sorted@.len() - k,
    {
        let ghost before = pair_views(out@);
        out.push((sorted[k].0.clone(), sorted[k].1.clone()));
        proof {
            assert(content_views(sorted@)[k as int] == (
                sorted@[k as int].0@,
                sorted@[k as int].1@,
                sorted@[k as int].2,
            ));
            assert(pair_views(out@) =~= all.take(k + 1));
        }
        k = k + 1;
    }
    assert(all.take(all.len() as int) =~= all);
    out
}

/// The notes changed at one time, as they come.
pub open spec fn changed_at(xs: Seq<(Seq<char>, Seq<char>, i64)>, ms: i64) -> Seq<
    (Seq<char>, Seq<char>, i64),
>
    decreases xs.len(),
{
    if xs.len() == 0 {
        xs
    } else if xs.last().2 == ms {
        changed_at(xs.drop_last(), ms).push(xs.last())
    } else {
        changed_at(xs.drop_last(), ms)
    }
}

proof fn lemma_put_dirty(
    xs: Seq<(Seq<char>, Seq<char>, i64)>,
    x: (Seq<char>, Seq<char>, i64),
    ms: i64,
)
    requires
        forall|i: int, j: int| 0 <= i < j < xs.len() ==> (#[trigger] xs[i]).2 >= (#[trigger] xs[j]).2,
    ensures
        ({
            let r = put_dirty(xs, x);
            &&& r.len() == xs.len() + 1
            &&& forall|i: int, j: int|
                0 <= i < j < r.len() ==> (#[trigger] r[i]).2 >= (#[trigger] r[j]).2
            &&& forall|i: int| 0 <= i < r.len() ==> (#[trigger] r[i]) == x || xs.contains(r[i])
            &&& changed_at(r, ms) == changed_at(xs.push(x), ms)
        }),
    decreases xs.len(),
{
    let r = put_dirty(xs, x);
    assert(xs.push(x).drop_last() =~= xs);
    if xs.len() == 0 || xs.last().2 >= x.2 {
        assert forall|i: int, j: int| 0 <= i < j < r.len() implies (#[trigger] r[i]).2 >= (
        #[trigger] r[j]).2 by {
            if j == xs.len() {
                assert(xs[xs.len() - 1].2 >= x.2);
                if i < xs.len() - 1 {
                    assert(xs[i].2 >= xs[xs.len() - 1].2);
                }
            } else {
                assert(xs[i].2 >= xs[j].2);
            }
        }
        assert forall|i: int| 0 <= i < r.len() implies (#[trigger] r[i]) == x || xs.contains(
            r[i],
        ) by {
            if i < xs.len() {
                assert(r[i] == xs[i]);
            }
        }
    } else {
        let p = xs.drop_last();
        let last = xs[xs.len() - 1];
        assert forall|i: int, j: int| 0 <= i < j < p.len() implies (#[trigger] p[i]).2 >= (
        #[trigger] p[j]).2 by {
            assert(xs[i].2 >= xs[j].2);
        }
        lemma_put_dirty(p, x, ms);
        let q = put_dirty(p, x);
        assert(r.drop_last() =~= q);
        assert(p.push(x).drop_last() =~= p);
        assert forall|i: int| 0 <= i < q.len() implies (#[trigger] q[i]).2 >= last.2 by {
            if q[i] != x {
                let a = choose|a: int| 0 <= a < p.len() && p[a] == q[i];
                assert(xs[a].2 >= xs[xs.len() - 1].2);
            }
        }
        assert forall|i: int| 0 <= i < r.len() implies (#[trigger] r[i]) == x || xs.contains(
            r[i],
        ) by {
            if i < q.len() {
                assert(r[i] == q[i]);
                if q[i] != x {
                    let a = choose|a: int| 0 <= a < p.len() && p[a] == q[i];
                    assert(xs[a] == r[i]);
                }
            } else {
                assert(xs[xs.len() - 1] == r[i]);
            }
        }
        assert(r.last() == xs.last());
        assert(p.push(x).last() == x && xs.push(x).last() == x);
        reveal_with_fuel(changed_at, 3);
    }
}

/// Notes with local changes are listed with the one changed last in front, and those
/// changed at the same time as they come. None is lost and none is added.
pub proof fn law_latest_change_comes_first(xs: Seq<(Seq<char>, Seq<char>, i64)>, ms: i64)
    ensures
        latest_first(xs).len() == xs.len(),
        forall|i: int, j: int|
            0 <= i < j < xs.len() ==> (#[trigger] latest_first(xs)[i]).2 >= (
            #[trigger] latest_first(xs)[j]).2,
        changed_at(latest_first(xs), ms) == changed_at(xs, ms),
    decreases xs.len(),
{
    if xs.len() > 0 {
        let p = xs.drop_last();
        law_latest_change_comes_first(p, ms);
        let q = latest_first(p);
        lemma_put_dirty(q, xs.last(), ms);
        assert(q.push(xs.last()).drop_last() =~= q);
    }
}

} // verus!
