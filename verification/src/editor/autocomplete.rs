//! The menu of titles that opens while a link is typed.

use crate::editor::selection::split_at_utf16;
use crate::models::{contains_str, Note};
use crate::strset::insert_str;
use crate::text::{
    chars_in_utf16_of, first_occurrence_of, from_chars, is_blank_str, occurs_at_of, opt_str_eq,
    str_eq, str_less, to_chars, utf16_len_of, utf16_len_range,
};
use vstd::prelude::*;

verus! {

use crate::editor::selection::{head_at_utf16, tail_at_utf16};
use crate::models::{opt_view, str_views};
use crate::strset::{ascending, lemma_ascending_unique};
use crate::text::{
    first_occurrence, is_blank, lemma_chars_in_utf16, lemma_first_occurrence, lemma_utf16_concat,
    lemma_utf16_push, lemma_utf16_split,
    lex_less, occurs_at, utf16_len,
};

// ---- what is being typed ----

/// The last character index at or before `upto` at which `pat` stands in `s`.
pub open spec fn last_occurrence(s: Seq<char>, pat: Seq<char>, upto: int) -> Option<int>
    decreases upto + 1,
{
    if upto < 0 {
        None
    } else if occurs_at(s, pat, upto) {
        Some(upto)
    } else {
        last_occurrence(s, pat, upto - 1)
    }
}

/// The start of the link that is being typed at a caret, and what is typed of its
/// title: what follows the last `[[` before the caret, unless `]]` follows that too.
pub open spec fn query_at(s: Seq<char>, caret: int) -> Option<(int, Seq<char>)> {
    let prefix = head_at_utf16(s, caret);
    match last_occurrence(prefix, seq!['[', '['], prefix.len() as int) {
        None => None,
        Some(k) => if first_occurrence(prefix.skip(k), seq![']', ']'], 0) is Some {
            None
        } else {
            Some((utf16_len(prefix.take(k)) as int, prefix.skip(k + 2)))
        },
    }
}

/// The start of the link that is being typed at a caret, and what is typed of its title.
pub fn wiki_autocomplete_query_at_caret(text: &str, caret_utf16: u32) -> (r: Option<(u32, String)>)
    requires
        utf16_len(text@) <= u32::MAX,
    ensures
        match r {
            Some((start, q)) => query_at(text@, caret_utf16 as int) == Some((start as int, q@)),
            None => query_at(text@, caret_utf16 as int) is None,
        },
{
    let all = to_chars(text);
    let n: usize = chars_in_utf16_of(all.as_slice(), caret_utf16);
    let ghost s = text@;
    let ghost prefix = head_at_utf16(s, caret_utf16 as int);
    let chars = vstd::slice::slice_subrange(all.as_slice(), 0, n);
    assert(chars@ =~= prefix);
    let open: [char; 2] = ['[', '['];
    let close: [char; 2] = [']', ']'];
    assert(open@ =~= seq!['[', '[']);
    assert(close@ =~= seq![']', ']']);
    let mut k: usize = n;
    while k > 0 && !occurs_at_of(chars, &open, k)
        invariant
            k <= n,
            n == chars@.len(),
            chars@ == prefix,
            open@ == seq!['[', '['],
            last_occurrence(prefix, open@, n as int) == last_occurrence(prefix, open@, k as int),
        decreases k,
    {
        k = k - 1;
    }
    if !occurs_at_of(chars, &open, k) {
        assert(k == 0);
        assert(last_occurrence(prefix, open@, -1) is None);
        return None;
    }
    assert(last_occurrence(prefix, open@, k as int) == Some(k as int));
    let tail = vstd::slice::slice_subrange(chars, k, n);
    assert(tail@ =~= prefix.skip(k as int));
    if first_occurrence_of(tail, &close, 0).is_some() {
        return None;
    }
    proof {
        lemma_chars_in_utf16(s, caret_utf16 as int);
        lemma_utf16_split(s, n as int);
        assert(prefix.subrange(0, k as int) =~= prefix.take(k as int));
        assert(prefix.subrange(k + 2, n as int) =~= prefix.skip(k + 2));
    }
    let start: u32 = utf16_len_range(chars, 0, k);
    Some((start, from_chars(chars, k + 2, n)))
}

proof fn lemma_last_occurrence(s: Seq<char>, pat: Seq<char>, upto: int)
    ensures
        match last_occurrence(s, pat, upto) {
            Some(i) => 0 <= i <= upto && occurs_at(s, pat, i) && forall|j: int|
                i < j <= upto ==> !occurs_at(s, pat, j),
            None => forall|j: int| 0 <= j <= upto ==> !occurs_at(s, pat, j),
        },
    decreases upto + 1,
{
    if upto >= 0 && !occurs_at(s, pat, upto) {
        lemma_last_occurrence(s, pat, upto - 1);
    }
}

/// The link that is being typed is found in the text before the caret: some text, the
/// opening brackets, and then what is typed of the title, which holds neither `[[` nor
/// `]]`.
pub proof fn law_query_is_the_text_before_the_caret(s: Seq<char>, caret: int)
    requires
        0 <= caret,
        query_at(s, caret) is Some,
    ensures
        ({
            let (start, q) = query_at(s, caret)->0;
            let before = head_at_utf16(s, start);
            &&& head_at_utf16(s, caret) == before + seq!['[', '['] + q
            &&& utf16_len(before) == start
            &&& forall|j: int| !occurs_at(q, seq![']', ']'], j)
            &&& forall|j: int| !occurs_at(q, seq!['[', '['], j)
        }),
{
    let prefix = head_at_utf16(s, caret);
    let open = seq!['[', '['];
    let close = seq![']', ']'];
    lemma_last_occurrence(prefix, open, prefix.len() as int);
    let k = last_occurrence(prefix, open, prefix.len() as int)->0;
    let (start, q) = query_at(s, caret)->0;
    lemma_chars_in_utf16(s, caret);
    assert(s.take(k) =~= prefix.take(k));
    crate::text::lemma_offset_of_char(s, k);
    let before = head_at_utf16(s, start);
    assert(before == s.take(k));
    assert(prefix.subrange(k, k + 2) =~= open);
    assert(prefix =~= prefix.take(k) + prefix.subrange(k, k + 2) + prefix.skip(k + 2));
    lemma_first_occurrence(prefix.skip(k), close, 0);
    assert forall|j: int| !occurs_at(q, close, j) by {
        if occurs_at(q, close, j) {
            assert(prefix.skip(k).subrange(j + 2, j + 4) =~= q.subrange(j, j + 2));
            assert(occurs_at(prefix.skip(k), close, j + 2));
        }
    }
    assert forall|j: int| !occurs_at(q, open, j) by {
        if occurs_at(q, open, j) {
            assert(prefix.subrange(k + 2 + j, k + 4 + j) =~= q.subrange(j, j + 2));
            assert(occurs_at(prefix, open, k + 2 + j));
        }
    }
}

proof fn lemma_two_at(s: Seq<char>, c: char, j: int)
    requires
        0 <= j,
    ensures
        occurs_at(s, seq![c, c], j) <==> j + 1 < s.len() && s[j] == c && s[j + 1] == c,
{
    if j + 2 <= s.len() {
        let two = s.subrange(j, j + 2);
        assert(two =~= seq![s[j], s[j + 1]]);
        if two == seq![c, c] {
            assert(two[0] == c && two[1] == c);
        }
    }
}

/// Whether a character stands twice in a row at a place of a text.
spec fn two_at(s: Seq<char>, c: char, j: int) -> bool {
    j + 1 < s.len() && s[j] == c && s[j + 1] == c
}

proof fn lemma_last_open(prefix: Seq<char>, b: int)
    requires
        0 <= b,
        two_at(prefix, '[', b),
        !two_at(prefix, '[', b + 1),
        forall|j: int| b + 2 <= j ==> !two_at(prefix, '[', j),
    ensures
        last_occurrence(prefix, seq!['[', '['], prefix.len() as int) == Some(b),
{
    let n = prefix.len() as int;
    lemma_last_occurrence(prefix, seq!['[', '['], n);
    lemma_two_at(prefix, '[', b);
    assert(occurs_at(prefix, seq!['[', '['], b));
    let k = last_occurrence(prefix, seq!['[', '['], n)->0;
    lemma_two_at(prefix, '[', k);
    assert(two_at(prefix, '[', k));
}

proof fn lemma_link_is_open(q: Seq<char>)
    requires
        forall|j: int| !occurs_at(q, seq![']', ']'], j),
    ensures
        first_occurrence(seq!['[', '['] + q, seq![']', ']'], 0) is None,
{
    let close = seq![']', ']'];
    let rest = seq!['[', '['] + q;
    lemma_first_occurrence(rest, close, 0);
    if first_occurrence(rest, close, 0) is Some {
        let j = first_occurrence(rest, close, 0)->0;
        lemma_two_at(rest, ']', j);
        assert(rest[0] == '[' && rest[1] == '[');
        lemma_two_at(q, ']', j - 2);
        assert(rest[j] == q[j - 2] && rest[j + 1] == q[j - 1]);
    }
}

/// A link is being typed wherever the text before the caret ends in opening brackets and
/// then something that holds no more brackets of either kind.
pub proof fn law_open_brackets_start_a_link(
    s: Seq<char>,
    caret: int,
    before: Seq<char>,
    q: Seq<char>,
)
    requires
        head_at_utf16(s, caret) == before + seq!['[', '['] + q,
        q.len() > 0 ==> q[0] != '[',
        forall|j: int| !occurs_at(q, seq!['[', '['], j),
        forall|j: int| !occurs_at(q, seq![']', ']'], j),
    ensures
        query_at(s, caret) == Some((utf16_len(before) as int, q)),
{
    let prefix = before + seq!['[', '['] + q;
    let b = before.len() as int;
    assert forall|j: int| b + 2 <= j implies !two_at(prefix, '[', j) by {
        lemma_two_at(q, '[', j - b - 2);
        if j + 1 < prefix.len() {
            assert(prefix[j] == q[j - b - 2] && prefix[j + 1] == q[j - b - 1]);
        }
    }
    lemma_last_open(prefix, b);
    lemma_link_is_open(q);
    assert(prefix.skip(b) =~= seq!['[', '['] + q);
    assert(prefix.take(b) =~= before);
    assert(prefix.skip(b + 2) =~= q);
}

/// No link is being typed where no opening brackets stand before the caret, or where
/// closing brackets and no more opening ones follow.
pub proof fn law_closing_brackets_end_a_link(
    s: Seq<char>,
    caret: int,
    before: Seq<char>,
    rest: Seq<char>,
)
    requires
        head_at_utf16(s, caret) == before + rest,
        rest.len() >= 2 && rest[0] == ']' && rest[1] == ']' || before.len() == 0,
        forall|j: int| !occurs_at(rest, seq!['[', '['], j),
    ensures
        query_at(s, caret) is None,
{
    let open = seq!['[', '['];
    let close = seq![']', ']'];
    let prefix = before + rest;
    let b = before.len() as int;
    lemma_last_occurrence(prefix, open, prefix.len() as int);
    if last_occurrence(prefix, open, prefix.len() as int) is Some {
        let k = last_occurrence(prefix, open, prefix.len() as int)->0;
        let two = prefix.subrange(k, k + 2);
        assert(two[0] == '[' && two[1] == '[');
        if k >= b {
            assert(rest.subrange(k - b, k - b + 2) =~= two);
            assert(occurs_at(rest, open, k - b));
        }
        if k + 1 == b {
            assert(prefix[b] == rest[0]);
        }
        let tail = prefix.skip(k);
        assert(tail.subrange(b - k, b - k + 2) =~= close);
        assert(occurs_at(tail, close, b - k));
        lemma_first_occurrence(tail, close, 0);
    }
}

// ---- the titles there are ----

/// Whether a text is a title of a note in a database, and not blank.
pub open spec fn is_title_in(notes: Seq<Note>, db: Seq<char>, title: Seq<char>) -> bool {
    exists|i: int|
        0 <= i < notes.len() && (#[trigger] notes[i]).database_id@ == db && notes[i].title@ == title
            && !is_blank(title)
}

/// Whether a list holds the titles of the notes in a database, in ascending order, none
/// twice and none blank.
pub open spec fn is_title_list(ts: Seq<Seq<char>>, notes: Seq<Note>, db: Seq<char>) -> bool {
    &&& ascending(ts)
    &&& forall|t: Seq<char>| ts.contains(t) == is_title_in(notes, db, t)
}

/// The titles of the notes in a database, in ascending order, none twice and none blank.
pub open spec fn title_list(notes: Seq<Note>, db: Seq<char>) -> Seq<Seq<char>> {
    choose|ts: Seq<Seq<char>>| is_title_list(ts, notes, db)
}

/// The titles of the notes in a database.
pub fn note_titles_for_db(notes: &[Note], db_id: &str) -> (r: Vec<String>)
    ensures
        is_title_list(str_views(r@), notes@, db_id@),
        str_views(r@) == title_list(notes@, db_id@),
{
    let mut out: Vec<String> = Vec::new();
    let mut i: usize = 0;
    assert(str_views(out@) =~= Seq::<Seq<char>>::empty());
    while i < notes.len()
        invariant
            i <= notes@.len(),
            ascending(str_views(out@)),
            forall|t: Seq<char>|
                str_views(out@).contains(t) == is_title_in(notes@.take(i as int), db_id@, t),
        decreases notes@.len() - i,
    {
        let ghost before = str_views(out@);
        if str_eq(notes[i].database_id.as_str(), db_id) && !is_blank_str(notes[i].title.as_str()) {
            insert_str(&mut out, notes[i].title.as_str());
        }
        assert forall|t: Seq<char>|
            str_views(out@).contains(t) == is_title_in(notes@.take(i + 1), db_id@, t) by {
            let now = notes@.take(i + 1);
            let was = notes@.take(i as int);
            if is_title_in(was, db_id@, t) {
                let j = choose|j: int|
                    0 <= j < was.len() && (#[trigger] was[j]).database_id@ == db_id@
                        && was[j].title@ == t && !is_blank(t);
                assert(now[j] == was[j]);
            }
            if is_title_in(now, db_id@, t) {
                let j = choose|j: int|
                    0 <= j < now.len() && (#[trigger] now[j]).database_id@ == db_id@
                        && now[j].title@ == t && !is_blank(t);
                if j < i {
                    assert(was[j] == now[j]);
                }
            }
            assert(now[i as int] == notes@[i as int]);
        }
        i = i + 1;
    }
    assert(notes@.take(i as int) =~= notes@);
    proof {
        let ts = str_views(out@);
        assert(is_title_list(ts, notes@, db_id@));
        let us = title_list(notes@, db_id@);
        assert(is_title_list(us, notes@, db_id@));
        assert forall|t: Seq<char>| ts.contains(t) == us.contains(t) by {
            assert(ts.contains(t) == is_title_in(notes@, db_id@, t));
            assert(us.contains(t) == is_title_in(notes@, db_id@, t));
        }
        lemma_ascending_unique(ts, us);
    }
    out
}

/// What a note adds to the signature of its database.
pub open spec fn signature_entry(n: Note) -> Seq<char> {
    (n.id@.push('\x1f') + n.title@).push('\x1f') + n.updated_at@.push('\x1e')
}

/// A list of notes with one more put in behind those whose ids do not come after its own.
pub open spec fn put_note(notes: Seq<Note>, n: Note) -> Seq<Note>
    decreases notes.len(),
{
    if notes.len() == 0 || !lex_less(n.id@, notes.last().id@) {
        notes.push(n)
    } else {
        put_note(notes.drop_last(), n).push(notes.last())
    }
}

/// The notes of a database by their ids.
pub open spec fn notes_by_id(notes: Seq<Note>, db: Seq<char>) -> Seq<Note>
    decreases notes.len(),
{
    if notes.len() == 0 {
        notes
    } else {
        let rest = notes_by_id(notes.drop_last(), db);
        if notes.last().database_id@ == db {
            put_note(rest, notes.last())
        } else {
            rest
        }
    }
}

/// The signature of a list of notes.
pub open spec fn signature(notes: Seq<Note>) -> Seq<char>
    decreases notes.len(),
{
    if notes.len() == 0 {
        Seq::empty()
    } else {
        signature(notes.drop_last()) + signature_entry(notes.last())
    }
}

fn put_note_of(notes: &mut Vec<Note>, n: Note)
    ensures
        final(notes)@ == put_note(old(notes)@, n),
{
    let ghost vs = notes@;
    let mut j: usize = notes.len();
    proof {
        assert(vs.take(j as int) =~= vs);
        assert(put_note(vs, n) + vs.skip(j as int) =~= put_note(vs, n));
    }
    while j > 0 && str_less(n.id.as_str(), notes[j - 1].id.as_str())
        invariant
            j <= notes@.len(),
            vs == notes@,
            put_note(vs.take(j as int), n) + vs.skip(j as int) == put_note(vs, n),
        decreases j,
    {
        proof {
            let t = vs.take(j as int);
            assert(t.drop_last() =~= vs.take(j - 1));
            let u = put_note(vs.take(j - 1), n);
            assert(u.push(t.last()) + vs.skip(j as int) =~= u + vs.skip(j - 1));
        }
        j = j - 1;
    }
    assert(put_note(vs.take(j as int), n) == vs.take(j as int).push(n));
    notes.insert(j, n);
    assert(notes@ =~= vs.take(j as int).push(n) + vs.skip(j as int));
}

/// A text that changes when the notes of a database change: their ids, titles and times
/// of change, by id.
pub fn note_titles_signature_for_db(notes: &[Note], db_id: &str) -> (r: String)
    ensures
        r@ == signature(notes_by_id(notes@, db_id@)),
{
    let mut rows: Vec<Note> = Vec::new();
    let mut i: usize = 0;
    assert(rows@ =~= notes_by_id(notes@.take(0), db_id@));
    while i < notes.len()
        invariant
            i <= notes@.len(),
            rows@ == notes_by_id(notes@.take(i as int), db_id@),
        decreases notes@.len() - i,
    {
        assert(notes@.take(i + 1).drop_last() =~= notes@.take(i as int));
        if str_eq(notes[i].database_id.as_str(), db_id) {
            put_note_of(&mut rows, notes[i].clone());
        }
        i = i + 1;
    }
    assert(notes@.take(i as int) =~= notes@);
    let mut out = String::new();
    let mut k: usize = 0;
    assert(rows@.take(0) =~= Seq::<Note>::empty());
    while k < rows.len()
        invariant
            k <= rows@.len(),
            out@ == signature(rows@.take(k as int)),
        decreases rows@.len() - k,
    {
        assert(rows@.take(k + 1).drop_last() =~= rows@.take(k as int));
        let ghost before = out@;
        out.append(rows[k].id.as_str());
        out.push('\x1f');
        out.append(rows[k].title.as_str());
        out.push('\x1f');
        out.append(rows[k].updated_at.as_str());
        out.push('\x1e');
        assert(out@ =~= before + signature_entry(rows@[k as int]));
        k = k + 1;
    }
    assert(rows@.take(k as int) =~= rows@);
    out
}

// ---- the menu ----

/// The most entries that the menu has.
pub const MAX_AC_ITEMS: usize = 20;

/// An entry of the menu.
#[derive(Debug, PartialEq, Eq)]
pub struct AcItem {
    pub title: String,
    pub is_new: bool,
}

/// What an entry holds.
#[verifier::ext_equal]
pub struct AcItemView {
    pub title: Seq<char>,
    pub is_new: bool,
}

impl View for AcItem {
    type V = AcItemView;

    open spec fn view(&self) -> AcItemView {
        AcItemView { title: self.title@, is_new: self.is_new }
    }
}

/// What entries hold.
pub open spec fn item_views(items: Seq<AcItem>) -> Seq<AcItemView> {
    Seq::new(items.len(), |i: int| items[i]@)
}

/// A text in lower case, as `str::to_lowercase` makes it.
pub uninterp spec fn lowercase(s: Seq<char>) -> Seq<char>;

/// `str::to_lowercase` gives the lower-case form of a text, which hangs on the text alone.
/// Which form that is, is not stated.
#[verifier::external_body]
fn to_lowercase(s: &str) -> (r: String)
    ensures
        r@ == lowercase(s@),
{
    s.to_lowercase()
}

/// The titles in lower case, as `lowercase` has them.
pub open spec fn lowercase_all(titles: Seq<Seq<char>>) -> Seq<Seq<char>> {
    Seq::new(titles.len(), |i: int| lowercase(titles[i]))
}

/// Whether a title matches what is typed, both in lower case. A blank query matches all.
pub open spec fn title_matches(low: Seq<char>, q_low: Seq<char>) -> bool {
    is_blank(q_low) || first_occurrence(low, q_low, 0) is Some
}

/// The titles that match what is typed, without the one that is just that.
pub open spec fn matching(
    titles: Seq<Seq<char>>,
    lows: Seq<Seq<char>>,
    q: Seq<char>,
    q_low: Seq<char>,
) -> Seq<AcItemView>
    decreases titles.len(),
{
    if titles.len() == 0 {
        Seq::empty()
    } else {
        let k = titles.len() - 1;
        let rest = matching(titles.drop_last(), lows, q, q_low);
        if title_matches(lows[k], q_low) && titles[k] != q {
            rest.push(AcItemView { title: titles[k], is_new: false })
        } else {
            rest
        }
    }
}

/// The entry for a new title: what is typed, unless it is blank or there already.
pub open spec fn new_entry(titles: Seq<Seq<char>>, q: Seq<char>) -> Seq<AcItemView> {
    if !is_blank(q) && !titles.contains(q) {
        seq![AcItemView { title: q, is_new: true }]
    } else {
        Seq::empty()
    }
}

/// The entries of the menu: that for a new title, then the titles that match, as many
/// as the menu holds.
pub open spec fn menu(
    titles: Seq<Seq<char>>,
    lows: Seq<Seq<char>>,
    q: Seq<char>,
    q_low: Seq<char>,
) -> Seq<AcItemView> {
    let all = new_entry(titles, q) + matching(titles, lows, q, q_low);
    if all.len() <= MAX_AC_ITEMS {
        all
    } else {
        all.take(MAX_AC_ITEMS as int)
    }
}

proof fn lemma_matching_grows(
    titles: Seq<Seq<char>>,
    lows: Seq<Seq<char>>,
    q: Seq<char>,
    q_low: Seq<char>,
    k: int,
)
    requires
        0 <= k <= titles.len(),
    ensures
        ({
            let part = matching(titles.take(k), lows, q, q_low);
            let all = matching(titles, lows, q, q_low);
            part.len() <= all.len() && all.take(part.len() as int) == part
        }),
    decreases titles.len() - k,
{
    if k < titles.len() {
        lemma_matching_grows(titles, lows, q, q_low, k + 1);
        assert(titles.take(k + 1).drop_last() =~= titles.take(k));
        let part = matching(titles.take(k), lows, q, q_low);
        let next = matching(titles.take(k + 1), lows, q, q_low);
        let all = matching(titles, lows, q, q_low);
        assert(next.take(part.len() as int) =~= part);
        assert(all.take(part.len() as int) =~= next.take(part.len() as int));
    } else {
        assert(titles.take(k) =~= titles);
        let all = matching(titles, lows, q, q_low);
        assert(all.take(all.len() as int) =~= all);
    }
}

/// The entries of the menu, from the titles and what is typed and their lower-case forms.
pub fn build_ac_items_from(titles: &[String], lows: &[String], q: &str, q_low: &str) -> (r: Vec<AcItem>)
    requires
        lows@.len() == titles@.len(),
    ensures
        item_views(r@) == menu(str_views(titles@), str_views(lows@), q@, q_low@),
{
    let ghost ts = str_views(titles@);
    let ghost ls = str_views(lows@);
    let ghost first = new_entry(ts, q@);
    let mut items: Vec<AcItem> = Vec::new();
    if !is_blank_str(q) && !contains_str(titles, q) {
        items.push(AcItem { title: q.to_string(), is_new: true });
    }
    let needle = to_chars(q_low);
    let any: bool = is_blank_str(q_low);
    let mut i: usize = 0;
    proof {
        assert(item_views(items@) =~= first);
        assert(ts.take(0) =~= Seq::<Seq<char>>::empty());
        assert(first + Seq::<AcItemView>::empty() =~= first);
    }
    while i < titles.len()
        invariant
            i <= titles@.len(),
            lows@.len() == titles@.len(),
            ts == str_views(titles@),
            ls == str_views(lows@),
            first == new_entry(ts, q@),
            needle@ == q_low@,
            any == is_blank(q_low@),
            items@.len() < MAX_AC_ITEMS,
            item_views(items@) == first + matching(ts.take(i as int), ls, q@, q_low@),
        decreases titles@.len() - i,
    {
        let low = to_chars(lows[i].as_str());
        proof {
            assert(ts.take(i + 1).drop_last() =~= ts.take(i as int));
            assert(ts[i as int] == titles@[i as int]@);
            assert(ls[i as int] == lows@[i as int]@);
        }
        let ghost before = item_views(items@);
        let hit: bool = any || first_occurrence_of(
            low.as_slice(),
            needle.as_slice(),
            0,
        ).is_some();
        if hit && !str_eq(titles[i].as_str(), q) {
            items.push(AcItem { title: titles[i].clone(), is_new: false });
            proof {
                let rest = matching(ts.take(i as int), ls, q@, q_low@);
                let e = AcItemView { title: ts[i as int], is_new: false };
                assert(item_views(items@) =~= before.push(e));
                assert((first + rest).push(e) =~= first + rest.push(e));
            }
        }
        i = i + 1;
        if items.len() >= MAX_AC_ITEMS {
            proof {
                lemma_matching_grows(ts, ls, q@, q_low@, i as int);
                let part = matching(ts.take(i as int), ls, q@, q_low@);
                let all = matching(ts, ls, q@, q_low@);
                assert(item_views(items@).len() == items@.len());
                assert(first + part =~= (first + all).take(MAX_AC_ITEMS as int));
                if (first + all).len() == MAX_AC_ITEMS {
                    assert((first + all).take(MAX_AC_ITEMS as int) =~= first + all);
                }
            }
            return items;
        }
    }
    assert(ts.take(i as int) =~= ts);
    items
}

/// The entries of the menu.
pub fn build_ac_items(titles: &[String], q: &str) -> (r: Vec<AcItem>)
    ensures
        item_views(r@) == menu(
            str_views(titles@),
            lowercase_all(str_views(titles@)),
            q@,
            lowercase(q@),
        ),
{
    let q_low = to_lowercase(q);
    let mut lows: Vec<String> = Vec::new();
    let mut i: usize = 0;
    let ghost all = lowercase_all(str_views(titles@));
    while i < titles.len()
        invariant
            i <= titles@.len(),
            all == lowercase_all(str_views(titles@)),
            lows@.len() == i,
            forall|j: int| 0 <= j < i ==> (#[trigger] lows@[j])@ == all[j],
        decreases titles@.len() - i,
    {
        assert(str_views(titles@)[i as int] == titles@[i as int]@);
        lows.push(to_lowercase(titles[i].as_str()));
        i = i + 1;
    }
    assert(str_views(lows@) =~= all);
    build_ac_items_from(titles, lows.as_slice(), q, q_low.as_str())
}

/// The menu holds what is typed at most once: as a new title, or not at all.
pub proof fn law_menu_offers_new_titles_once(
    titles: Seq<Seq<char>>,
    lows: Seq<Seq<char>>,
    q: Seq<char>,
    q_low: Seq<char>,
)
    ensures
        menu(titles, lows, q, q_low).len() <= MAX_AC_ITEMS,
        forall|i: int|
            0 <= i < menu(titles, lows, q, q_low).len() ==> ((#[trigger] menu(
                titles,
                lows,
                q,
                q_low,
            )[i]).is_new <==> i == 0 && !is_blank(q) && !titles.contains(q)),
        forall|i: int|
            0 <= i < menu(titles, lows, q, q_low).len() && !(#[trigger] menu(
                titles,
                lows,
                q,
                q_low,
            )[i]).is_new ==> menu(titles, lows, q, q_low)[i].title != q && titles.contains(
                menu(titles, lows, q, q_low)[i].title,
            ),
{
    lemma_matching_entries(titles, lows, q, q_low);
    let first = new_entry(titles, q);
    let rest = matching(titles, lows, q, q_low);
    let m = menu(titles, lows, q, q_low);
    assert forall|i: int| 0 <= i < m.len() implies #[trigger] m[i] == (first + rest)[i] by {}
    assert forall|i: int| 0 <= i < m.len() implies ((#[trigger] m[i]).is_new <==> i == 0
        && !is_blank(q) && !titles.contains(q)) by {
        if i >= first.len() {
            assert(m[i] == rest[i - first.len()]);
        }
    }
    assert forall|i: int| 0 <= i < m.len() && !(#[trigger] m[i]).is_new implies m[i].title != q
        && titles.contains(m[i].title) by {
        if i >= first.len() {
            assert(m[i] == rest[i - first.len()]);
        }
    }
}

proof fn lemma_matching_entries(
    titles: Seq<Seq<char>>,
    lows: Seq<Seq<char>>,
    q: Seq<char>,
    q_low: Seq<char>,
)
    ensures
        forall|i: int|
            0 <= i < matching(titles, lows, q, q_low).len() ==> {
                let e = #[trigger] matching(titles, lows, q, q_low)[i];
                !e.is_new && e.title != q && titles.contains(e.title)
            },
    decreases titles.len(),
{
    if titles.len() > 0 {
        let p = titles.drop_last();
        lemma_matching_entries(p, lows, q, q_low);
        let rp = matching(p, lows, q, q_low);
        let r = matching(titles, lows, q, q_low);
        assert forall|i: int| 0 <= i < r.len() implies {
            let e = #[trigger] r[i];
            !e.is_new && e.title != q && titles.contains(e.title)
        } by {
            if i < rp.len() {
                assert(r[i] == rp[i]);
                let j = choose|j: int| 0 <= j < p.len() && p[j] == rp[i].title;
                assert(titles[j] == r[i].title);
            } else {
                assert(titles[titles.len() - 1] == r[i].title);
            }
        }
    }
}

/// Whether a title is one to offer: not just what is typed, and holding it, both in lower
/// case. For a blank query every other title is.
pub open spec fn is_offered(
    title: Seq<char>,
    low: Seq<char>,
    q: Seq<char>,
    q_low: Seq<char>,
) -> bool {
    title != q && (is_blank(q_low) || exists|at: int| #[trigger] occurs_at(low, q_low, at))
}

/// Whether a title is one of those to offer.
pub open spec fn offers(
    titles: Seq<Seq<char>>,
    lows: Seq<Seq<char>>,
    q: Seq<char>,
    q_low: Seq<char>,
    title: Seq<char>,
) -> bool {
    exists|k: int|
        0 <= k < titles.len() && #[trigger] titles[k] == title && is_offered(
            title,
            lows[k],
            q,
            q_low,
        )
}

proof fn lemma_matching_at(
    titles: Seq<Seq<char>>,
    lows: Seq<Seq<char>>,
    q: Seq<char>,
    q_low: Seq<char>,
)
    ensures
        forall|k: int|
            0 <= k < titles.len() && is_offered(#[trigger] titles[k], lows[k], q, q_low)
                ==> matching(titles, lows, q, q_low).contains(
                AcItemView { title: titles[k], is_new: false },
            ),
        forall|i: int|
            0 <= i < matching(titles, lows, q, q_low).len() ==> offers(
                titles,
                lows,
                q,
                q_low,
                (#[trigger] matching(titles, lows, q, q_low)[i]).title,
            ),
    decreases titles.len(),
{
    if titles.len() > 0 {
        let p = titles.drop_last();
        let n = titles.len() - 1;
        lemma_matching_at(p, lows, q, q_low);
        let rp = matching(p, lows, q, q_low);
        let r = matching(titles, lows, q, q_low);
        lemma_first_occurrence(lows[n], q_low, 0);
        assert(title_matches(lows[n], q_low) && titles[n] != q <==> is_offered(
            titles[n],
            lows[n],
            q,
            q_low,
        ));
        assert forall|k: int|
            0 <= k < titles.len() && is_offered(
                #[trigger] titles[k],
                lows[k],
                q,
                q_low,
            ) implies r.contains(AcItemView { title: titles[k], is_new: false }) by {
            let x = AcItemView { title: titles[k], is_new: false };
            if k < n {
                assert(p[k] == titles[k]);
                let a = choose|a: int| 0 <= a < rp.len() && rp[a] == x;
                assert(r[a] == x);
            } else {
                assert(r[r.len() - 1] == x);
            }
        }
        assert forall|i: int| 0 <= i < r.len() implies offers(
            titles,
            lows,
            q,
            q_low,
            (#[trigger] r[i]).title,
        ) by {
            if i < rp.len() {
                assert(r[i] == rp[i]);
                assert(offers(p, lows, q, q_low, rp[i].title));
                let k = choose|k: int|
                    0 <= k < p.len() && #[trigger] p[k] == rp[i].title && is_offered(
                        rp[i].title,
                        lows[k],
                        q,
                        q_low,
                    );
                assert(titles[k] == r[i].title);
            } else {
                assert(r[i].title == titles[n]);
            }
        }
    }
}

/// The menu offers, behind the entry for a new title, just the titles that hold what is
/// typed, as long as there is room for them.
pub proof fn law_menu_offers_what_matches(
    titles: Seq<Seq<char>>,
    lows: Seq<Seq<char>>,
    q: Seq<char>,
    q_low: Seq<char>,
)
    ensures
        forall|k: int|
            0 <= k < titles.len() && is_offered(#[trigger] titles[k], lows[k], q, q_low) && menu(
                titles,
                lows,
                q,
                q_low,
            ).len() < MAX_AC_ITEMS ==> menu(titles, lows, q, q_low).contains(
                AcItemView { title: titles[k], is_new: false },
            ),
        forall|i: int|
            0 <= i < menu(titles, lows, q, q_low).len() && !(#[trigger] menu(
                titles,
                lows,
                q,
                q_low,
            )[i]).is_new ==> offers(
                titles,
                lows,
                q,
                q_low,
                menu(titles, lows, q, q_low)[i].title,
            ),
        !is_blank(q) && !titles.contains(q) ==> menu(titles, lows, q, q_low).len() > 0 && menu(
            titles,
            lows,
            q,
            q_low,
        )[0] == (AcItemView { title: q, is_new: true }),
{
    lemma_matching_at(titles, lows, q, q_low);
    let first = new_entry(titles, q);
    let rest = matching(titles, lows, q, q_low);
    let m = menu(titles, lows, q, q_low);
    assert forall|i: int| 0 <= i < m.len() implies #[trigger] m[i] == (first + rest)[i] by {}
    assert forall|k: int|
        0 <= k < titles.len() && is_offered(#[trigger] titles[k], lows[k], q, q_low) && m.len()
            < MAX_AC_ITEMS implies m.contains(AcItemView { title: titles[k], is_new: false }) by {
        let x = AcItemView { title: titles[k], is_new: false };
        let a = choose|a: int| 0 <= a < rest.len() && rest[a] == x;
        assert(m[first.len() + a] == x);
    }
    assert forall|i: int| 0 <= i < m.len() && !(#[trigger] m[i]).is_new implies offers(
        titles,
        lows,
        q,
        q_low,
        m[i].title,
    ) by {
        assert(i >= first.len());
        assert(m[i] == rest[i - first.len()]);
    }
}

proof fn lemma_matching_ascends(
    titles: Seq<Seq<char>>,
    lows: Seq<Seq<char>>,
    q: Seq<char>,
    q_low: Seq<char>,
)
    requires
        ascending(titles),
    ensures
        forall|i: int, j: int|
            0 <= i < j < matching(titles, lows, q, q_low).len() ==> lex_less(
                (#[trigger] matching(titles, lows, q, q_low)[i]).title,
                (#[trigger] matching(titles, lows, q, q_low)[j]).title,
            ),
    decreases titles.len(),
{
    if titles.len() > 0 {
        let p = titles.drop_last();
        assert forall|i: int, j: int| 0 <= i < j < p.len() implies lex_less(p[i], p[j]) by {
            assert(lex_less(titles[i], titles[j]));
        }
        lemma_matching_ascends(p, lows, q, q_low);
        lemma_matching_entries(p, lows, q, q_low);
        let rp = matching(p, lows, q, q_low);
        let r = matching(titles, lows, q, q_low);
        assert forall|i: int, j: int| 0 <= i < j < r.len() implies lex_less(
            (#[trigger] r[i]).title,
            (#[trigger] r[j]).title,
        ) by {
            assert(r[i] == rp[i]);
            if j < rp.len() {
                assert(r[j] == rp[j]);
            } else {
                let a = choose|a: int| 0 <= a < p.len() && p[a] == rp[i].title;
                assert(lex_less(titles[a], titles[titles.len() - 1]));
            }
        }
    }
}

/// The titles that the menu offers stand in ascending order, as the titles do.
pub proof fn law_menu_stands_in_order(
    titles: Seq<Seq<char>>,
    lows: Seq<Seq<char>>,
    q: Seq<char>,
    q_low: Seq<char>,
)
    requires
        ascending(titles),
    ensures
        forall|i: int, j: int|
            0 <= i < j < menu(titles, lows, q, q_low).len() && !(#[trigger] menu(
                titles,
                lows,
                q,
                q_low,
            )[i]).is_new ==> lex_less(
                menu(titles, lows, q, q_low)[i].title,
                (#[trigger] menu(titles, lows, q, q_low)[j]).title,
            ),
{
    lemma_matching_ascends(titles, lows, q, q_low);
    let first = new_entry(titles, q);
    let rest = matching(titles, lows, q, q_low);
    let m = menu(titles, lows, q, q_low);
    assert forall|i: int, j: int| 0 <= i < j < m.len() && !(#[trigger] m[i]).is_new implies lex_less(
        m[i].title,
        (#[trigger] m[j]).title,
    ) by {
        assert(m[i] == (first + rest)[i]);
        assert(m[j] == (first + rest)[j]);
        assert(i >= first.len());
        assert(m[i] == rest[i - first.len()] && m[j] == rest[j - first.len()]);
    }
}

// ---- the state of the menu ----

/// The menu and the titles that it offers.
#[derive(Debug, PartialEq, Eq)]
pub struct AutocompleteState {
    pub open: bool,
    pub query: String,
    pub items: Vec<AcItem>,
    pub index: usize,
    /// Where the link that is being typed begins.
    pub start_utf16: Option<u32>,
    /// The database that `titles` is of.
    pub titles_db: Option<String>,
    /// The signature of the notes that `titles` was made from.
    pub titles_sig: Option<String>,
    pub titles: Vec<String>,
    pub titles_loading: bool,
}

/// What an `AutocompleteState` holds.
#[verifier::ext_equal]
pub struct AcView {
    pub open: bool,
    pub query: Seq<char>,
    pub items: Seq<AcItemView>,
    pub index: int,
    pub start_utf16: Option<u32>,
    pub titles_db: Option<Seq<char>>,
    pub titles_sig: Option<Seq<char>>,
    pub titles: Seq<Seq<char>>,
    pub titles_loading: bool,
}

impl View for AutocompleteState {
    type V = AcView;

    open spec fn view(&self) -> AcView {
        AcView {
            open: self.open,
            query: self.query@,
            items: item_views(self.items@),
            index: self.index as int,
            start_utf16: self.start_utf16,
            titles_db: opt_view(self.titles_db),
            titles_sig: opt_view(self.titles_sig),
            titles: str_views(self.titles@),
            titles_loading: self.titles_loading,
        }
    }
}

/// The state with the titles of a database, made anew where the database or its notes are
/// others than those that the titles were made from.
pub open spec fn with_titles(a: AcView, notes: Seq<Note>, db: Seq<char>) -> AcView {
    let sig = signature(notes_by_id(notes, db));
    if is_blank(db) || (a.titles_db == Some(db) && a.titles_sig == Some(sig)) {
        a
    } else {
        AcView {
            titles_db: Some(db),
            titles_sig: Some(sig),
            titles: title_list(notes, db),
            titles_loading: false,
            ..a
        }
    }
}

/// The state with the entries for what is typed. Without entries the menu is closed.
pub open spec fn with_items(a: AcView) -> AcView {
    let items = menu(a.titles, lowercase_all(a.titles), a.query, lowercase(a.query));
    if items.len() == 0 {
        AcView { open: false, index: 0, ..a }
    } else {
        AcView { open: true, index: 0, items, ..a }
    }
}

/// The state once a text has changed or its caret has moved.
pub open spec fn updated(a: AcView, notes: Seq<Note>, db: Seq<char>, text: Seq<char>, caret: int) -> AcView {
    match query_at(text, caret) {
        None => AcView { open: false, start_utf16: None, ..a },
        Some((start, query)) => {
            let b = with_titles(
                AcView { query, start_utf16: Some(start as u32), ..a },
                notes,
                db,
            );
            if b.titles_loading {
                AcView { open: true, index: 0, items: Seq::empty(), ..b }
            } else {
                with_items(b)
            }
        },
    }
}

/// The keys that the menu answers to.
#[derive(Debug, Clone, Copy, PartialEq, Eq, Structural)]
pub enum AcKey {
    Down,
    Up,
    Escape,
    Choose,
}

impl AutocompleteState {
    /// A closed menu that knows no titles.
    pub fn new() -> (r: Self)
        ensures
            r@ == (AcView {
                open: false,
                query: Seq::empty(),
                items: Seq::empty(),
                index: 0,
                start_utf16: None,
                titles_db: None,
                titles_sig: None,
                titles: Seq::empty(),
                titles_loading: false,
            }),
    {
        let r = AutocompleteState {
            open: false,
            query: String::new(),
            items: Vec::new(),
            index: 0,
            start_utf16: None,
            titles_db: None,
            titles_sig: None,
            titles: Vec::new(),
            titles_loading: false,
        };
        assert(r@.query =~= Seq::<char>::empty());
        assert(r@.items =~= Seq::<AcItemView>::empty());
        assert(r@.titles =~= Seq::<Seq<char>>::empty());
        r
    }

    /// Makes the titles of a database anew where they are out of date.
    pub fn ensure_titles_loaded(&mut self, notes: &[Note], db_id: &str)
        ensures
            final(self)@ == with_titles(old(self)@, notes@, db_id@),
    {
        if is_blank_str(db_id) {
            return;
        }
        let sig = note_titles_signature_for_db(notes, db_id);
        if opt_str_eq(&self.titles_db, db_id) && opt_str_eq(&self.titles_sig, sig.as_str()) {
            return;
        }
        self.titles_db = Some(db_id.to_string());
        self.titles_sig = Some(sig);
        self.titles = note_titles_for_db(notes, db_id);
        self.titles_loading = false;
    }

    /// Makes the entries anew.
    fn refresh_items(&mut self)
        ensures
            final(self)@ == with_items(old(self)@),
    {
        let items = build_ac_items(self.titles.as_slice(), self.query.as_str());
        assert(item_views(items@).len() == items@.len());
        if items.len() == 0 {
            self.open = false;
            self.index = 0;
            return;
        }
        self.items = items;
        self.index = 0;
        self.open = true;
    }

    /// Follows a change of the text or of its caret.
    pub fn update_wiki_autocomplete_state(
        &mut self,
        notes: &[Note],
        db_id: &str,
        text: &str,
        caret_utf16: u32,
    )
        requires
            utf16_len(text@) <= u32::MAX,
        ensures
            final(self)@ == updated(old(self)@, notes@, db_id@, text@, caret_utf16 as int),
    {
        match wiki_autocomplete_query_at_caret(text, caret_utf16) {
            None => {
                self.open = false;
                self.start_utf16 = None;
            },
            Some((start, q)) => {
                self.query = q;
                self.start_utf16 = Some(start);
                self.ensure_titles_loaded(notes, db_id);
                if self.titles_loading {
                    self.open = true;
                    self.index = 0;
                    self.items = Vec::new();
                    assert(item_views(self.items@) =~= Seq::<AcItemView>::empty());
                    return;
                }
                self.refresh_items();
            },
        }
    }

    /// Follows a change of the titles while a link is typed.
    pub fn recompute(&mut self)
        ensures
            final(self)@ == (if old(self).start_utf16 is None {
                old(self)@
            } else if old(self).titles_loading {
                AcView { open: true, ..old(self)@ }
            } else {
                with_items(old(self)@)
            }),
    {
        if self.start_utf16.is_none() {
            return;
        }
        if self.titles_loading {
            self.open = true;
            return;
        }
        self.refresh_items();
    }

    /// Answers a key while the menu is open. Gives the title that was chosen.
    pub fn on_key(&mut self, key: AcKey) -> (r: Option<String>)
        ensures
            final(self)@ == (match key {
                AcKey::Down => AcView {
                    index: if old(self).items@.len() == 0 {
                        old(self)@.index
                    } else if old(self).index + 1 < old(self).items@.len() {
                        old(self).index + 1
                    } else {
                        old(self).items@.len() - 1
                    },
                    ..old(self)@
                },
                AcKey::Up => AcView {
                    index: if old(self).index > 0 {
                        old(self).index - 1
                    } else {
                        0
                    },
                    ..old(self)@
                },
                AcKey::Escape => AcView { open: false, ..old(self)@ },
                AcKey::Choose => if old(self).index < old(self).items@.len() {
                    AcView { open: false, start_utf16: None, ..old(self)@ }
                } else {
                    old(self)@
                },
            }),
            opt_view(r) == (if key == AcKey::Choose && old(self).index < old(self).items@.len() {
                Some(old(self).items@[old(self).index as int].title@)
            } else {
                None
            }),
    {
        match key {
            AcKey::Down => {
                let len: usize = self.items.len();
                if len > 0 {
                    self.index = if self.index < len - 1 {
                        self.index + 1
                    } else {
                        len - 1
                    };
                }
                None
            },
            AcKey::Up => {
                if self.index > 0 {
                    self.index = self.index - 1;
                }
                None
            },
            AcKey::Escape => {
                self.open = false;
                None
            },
            AcKey::Choose => {
                if self.index < self.items.len() {
                    let chosen = self.items[self.index].title.clone();
                    self.open = false;
                    self.start_utf16 = None;
                    Some(chosen)
                } else {
                    None
                }
            },
        }
    }

    /// Closes the menu.
    pub fn close(&mut self)
        ensures
            final(self)@ == (AcView { open: false, start_utf16: None, ..old(self)@ }),
    {
        self.open = false;
        self.start_utf16 = None;
    }
}

/// Once the text has changed, the menu is open only while a link is typed, with the first
/// entry chosen. It then begins where the link does and asks for what is typed of it.
/// Without a link it is closed and keeps all else. The titles of the database are known
/// from then on.
pub proof fn law_menu_follows_the_text(
    a: AcView,
    notes: Seq<Note>,
    db: Seq<char>,
    text: Seq<char>,
    caret: int,
)
    ensures
        ({
            let r = updated(a, notes, db, text, caret);
            &&& query_at(text, caret) is None ==> !r.open && r.start_utf16 is None && r.query
                == a.query && r.items == a.items && r.index == a.index && r.titles == a.titles
            &&& query_at(text, caret) matches Some((start, q)) ==> r.query == q && r.index == 0
                && r.start_utf16 == Some(start as u32)
            &&& query_at(text, caret) is Some && !is_blank(db) ==> r.titles_db == Some(db)
            &&& query_at(text, caret) is Some && !is_blank(db) && a.titles_db != Some(db)
                ==> r.titles == title_list(notes, db) && !r.titles_loading
            &&& query_at(text, caret) is Some && !r.titles_loading ==> {
                let m = menu(
                    r.titles,
                    lowercase_all(r.titles),
                    r.query,
                    lowercase(r.query),
                );
                (r.open <==> m.len() > 0) && (r.open ==> r.items == m)
            }
            &&& query_at(text, caret) is Some && r.titles_loading ==> r.open && r.items.len() == 0
        }),
{
}

// ---- what choosing does ----

/// The text and the caret once a title has been chosen for the link that begins at
/// `start` and is typed up to `caret`.
pub open spec fn chosen(s: Seq<char>, start: int, caret: int, title: Seq<char>) -> (Seq<char>, int) {
    (
        head_at_utf16(s, start) + (seq!['[', '['] + title + seq![']', ']']) + tail_at_utf16(
            s,
            caret,
        ),
        start + utf16_len(title) + 4,
    )
}

/// Puts a chosen title in place of what was typed of a link.
pub fn insert_choice(text: &str, start_utf16: Option<u32>, caret_utf16: u32, title: &str) -> (r: (
    String,
    u32,
))
    requires
        utf16_len(title@) + 4 + (match start_utf16 {
            Some(p) => p as int,
            None => 0,
        }) <= u32::MAX,
    ensures
        ({
            let start = match start_utf16 {
                Some(p) => p as int,
                None => 0,
            };
            (r.0@, r.1 as int) == chosen(text@, start, caret_utf16 as int, title@)
        }),
{
    let start: u32 = match start_utf16 {
        Some(p) => p,
        None => 0,
    };
    let (head, _rest) = split_at_utf16(text, start);
    let (_typed, tail) = split_at_utf16(text, caret_utf16);
    let mut next = head;
    let ghost h = next@;
    next.push('[');
    next.push('[');
    next.append(title);
    next.push(']');
    next.push(']');
    next.append(tail.as_str());
    assert(next@ =~= h + (seq!['[', '['] + title@ + seq![']', ']']) + tail@);
    (next, start + 4 + utf16_len_of(title))
}

/// Once a title is chosen no link is being typed any more, and the caret stands behind
/// the closing brackets.
pub proof fn law_choice_closes_the_link(s: Seq<char>, start: int, caret: int, title: Seq<char>)
    requires
        0 <= start,
        0 <= caret,
        crate::text::is_utf16_boundary(s, start),
    ensures
        ({
            let (next, after) = chosen(s, start, caret, title);
            &&& query_at(next, after) is None
            &&& head_at_utf16(next, after) == head_at_utf16(s, start) + (seq!['[', '['] + title
                + seq![']', ']'])
        }),
{
    let open = seq!['[', '['];
    let close = seq![']', ']'];
    let before = head_at_utf16(s, start);
    let link = open + title + close;
    lemma_chars_in_utf16(s, start);
    lemma_link_len(title);
    lemma_utf16_concat(before, link);
    crate::text::lemma_cut(before + link, tail_at_utf16(s, caret));
    lemma_closed_link(before, title);
}

proof fn lemma_link_len(title: Seq<char>)
    ensures
        utf16_len(seq!['[', '['] + title + seq![']', ']']) == utf16_len(title) + 4,
{
    let open = seq!['[', '['];
    let close = seq![']', ']'];
    lemma_utf16_concat(open + title, close);
    lemma_utf16_concat(open, title);
    lemma_utf16_push(Seq::<char>::empty(), '[');
    lemma_utf16_push(Seq::<char>::empty().push('['), '[');
    lemma_utf16_push(Seq::<char>::empty(), ']');
    lemma_utf16_push(Seq::<char>::empty().push(']'), ']');
    assert(Seq::<char>::empty().push('[').push('[') =~= open);
    assert(Seq::<char>::empty().push(']').push(']') =~= close);
}

/// In a text that ends in a closed link, the closing brackets follow the last `[[`.
proof fn lemma_closed_link(before: Seq<char>, title: Seq<char>)
    ensures
        ({
            let prefix = before + (seq!['[', '['] + title + seq![']', ']']);
            let k = last_occurrence(prefix, seq!['[', '['], prefix.len() as int);
            k is Some && first_occurrence(prefix.skip(k->0), seq![']', ']'], 0) is Some
        }),
{
    let open = seq!['[', '['];
    let close = seq![']', ']'];
    let prefix = before + (open + title + close);
    let n = prefix.len() as int;
    let b = before.len() as int;
    lemma_last_occurrence(prefix, open, n);
    assert(prefix.subrange(b, b + 2) =~= open);
    assert(occurs_at(prefix, open, b));
    let k = last_occurrence(prefix, open, n)->0;
    assert(prefix[k] == prefix.subrange(k, k + 2)[0]);
    assert(prefix[k + 1] == prefix.subrange(k, k + 2)[1]);
    assert(prefix[n - 1] == ']' && prefix[n - 2] == ']');
    assert(k + 1 < n - 2);
    let rest = prefix.skip(k);
    assert(rest.subrange(n - 2 - k, n - k) =~= close);
    assert(occurs_at(rest, close, n - 2 - k));
    lemma_first_occurrence(rest, close, 0);
}

} // verus!
