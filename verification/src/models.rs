//! The data of an outline: its rows and the notes that they belong to.

use crate::text::str_eq;
use vstd::prelude::*;

verus! {

/// The parent id of the one row that holds a note's outline together.
pub const ROOT_CONTAINER_PARENT_ID: &'static str = "00000000-0000-0000-0000-000000000000";

/// A row of an outline.
///
/// `same_deep_order` ranks a row among those with the same parent. It is the rank of
/// the row's order number among all order numbers, so that comparing two ranks
/// compares the numbers.
#[derive(Debug, PartialEq, Eq)]
pub struct Nav {
    pub id: String,
    pub note_id: String,
    pub parid: String,
    pub same_deep_order: i32,
    pub content: String,
    pub is_display: bool,
    pub is_delete: bool,
    pub properties: Option<String>,
}

/// What a row holds.
#[verifier::ext_equal]
pub struct NavView {
    pub id: Seq<char>,
    pub note_id: Seq<char>,
    pub parid: Seq<char>,
    pub same_deep_order: int,
    pub content: Seq<char>,
    pub is_display: bool,
    pub is_delete: bool,
    pub properties: Option<Seq<char>>,
}

/// The text of an optional string.
pub open spec fn opt_view(s: Option<String>) -> Option<Seq<char>> {
    match s {
        Some(x) => Some(x@),
        None => None,
    }
}

impl View for Nav {
    type V = NavView;

    open spec fn view(&self) -> NavView {
        NavView {
            id: self.id@,
            note_id: self.note_id@,
            parid: self.parid@,
            same_deep_order: self.same_deep_order as int,
            content: self.content@,
            is_display: self.is_display,
            is_delete: self.is_delete,
            properties: opt_view(self.properties),
        }
    }
}

impl Clone for Nav {
    fn clone(&self) -> (r: Self)
        ensures
            r == *self,
    {
        Nav {
            id: self.id.clone(),
            note_id: self.note_id.clone(),
            parid: self.parid.clone(),
            same_deep_order: self.same_deep_order,
            content: self.content.clone(),
            is_display: self.is_display,
            is_delete: self.is_delete,
            properties: clone_opt(&self.properties),
        }
    }
}

/// A copy of an optional string.
pub fn clone_opt(s: &Option<String>) -> (r: Option<String>)
    ensures
        r == *s,
{
    match s {
        Some(x) => Some(x.clone()),
        None => None,
    }
}

/// What the rows of an outline hold.
pub open spec fn nav_views(navs: Seq<Nav>) -> Seq<NavView> {
    Seq::new(navs.len(), |i: int| navs[i]@)
}

/// The texts of strings.
pub open spec fn str_views(xs: Seq<String>) -> Seq<Seq<char>> {
    Seq::new(xs.len(), |i: int| xs[i]@)
}

/// The place of the first row with an id.
pub open spec fn nav_index(navs: Seq<NavView>, id: Seq<char>) -> Option<int>
    decreases navs.len(),
{
    if navs.len() == 0 {
        None
    } else {
        match nav_index(navs.drop_last(), id) {
            Some(i) => Some(i),
            None => if navs.last().id == id {
                Some(navs.len() - 1)
            } else {
                None
            },
        }
    }
}

/// What `nav_index` is: a row with the id and none before it, or no row at all.
pub proof fn lemma_nav_index(navs: Seq<NavView>, id: Seq<char>)
    ensures
        match nav_index(navs, id) {
            Some(i) => 0 <= i < navs.len() && navs[i].id == id && forall|j: int|
                0 <= j < i ==> (#[trigger] navs[j]).id != id,
            None => forall|j: int| 0 <= j < navs.len() ==> (#[trigger] navs[j]).id != id,
        },
    decreases navs.len(),
{
    if navs.len() > 0 {
        lemma_nav_index(navs.drop_last(), id);
        let p = navs.drop_last();
        assert forall|j: int| 0 <= j < p.len() implies p[j] == navs[j] by {}
        match nav_index(p, id) {
            Some(i) => {
                assert forall|j: int| 0 <= j < i implies (#[trigger] navs[j]).id != id by {
                    assert(p[j].id != id);
                }
            },
            None => {
                assert forall|j: int| 0 <= j < p.len() implies (#[trigger] navs[j]).id != id by {
                    assert(p[j].id != id);
                }
            },
        }
    }
}

/// The place is `i` if row `i` has the id and none before it has.
pub proof fn lemma_nav_index_is(navs: Seq<NavView>, id: Seq<char>, i: int)
    requires
        0 <= i < navs.len(),
        navs[i].id == id,
        forall|j: int| 0 <= j < i ==> (#[trigger] navs[j]).id != id,
    ensures
        nav_index(navs, id) == Some(i),
{
    lemma_nav_index(navs, id);
}

/// Finds the first row with an id.
pub fn find_nav(navs: &[Nav], id: &str) -> (r: Option<usize>)
    ensures
        match r {
            Some(i) => i < navs@.len() && nav_index(nav_views(navs@), id@) == Some(i as int)
                && navs@[i as int]@.id == id@,
            None => nav_index(nav_views(navs@), id@) is None,
        },
{
    let mut i: usize = 0;
    let ghost vs = nav_views(navs@);
    while i < navs.len()
        invariant
            i <= navs@.len(),
            vs == nav_views(navs@),
            forall|j: int| 0 <= j < i ==> (#[trigger] vs[j]).id != id@,
        decreases navs@.len() - i,
    {
        assert(vs[i as int] == navs@[i as int]@);
        if str_eq(navs[i].id.as_str(), id) {
            proof {
                lemma_nav_index_is(vs, id@, i as int);
            }
            return Some(i);
        }
        i = i + 1;
    }
    proof {
        lemma_nav_index(vs, id@);
    }
    None
}

/// A note.
#[derive(Debug, PartialEq, Eq)]
pub struct Note {
    pub id: String,
    pub database_id: String,
    pub title: String,
    pub content: String,
    pub created_at: String,
    pub updated_at: String,
}

impl Clone for Note {
    fn clone(&self) -> (r: Self)
        ensures
            r == *self,
    {
        Note {
            id: self.id.clone(),
            database_id: self.database_id.clone(),
            title: self.title.clone(),
            content: self.content.clone(),
            created_at: self.created_at.clone(),
            updated_at: self.updated_at.clone(),
        }
    }
}

/// Whether a list of strings holds a text.
pub fn contains_str(xs: &[String], s: &str) -> (r: bool)
    ensures
        r == str_views(xs@).contains(s@),
{
    let mut i: usize = 0;
    let ghost vs = str_views(xs@);
    while i < xs.len()
        invariant
            i <= xs@.len(),
            vs == str_views(xs@),
            forall|j: int| 0 <= j < i ==> #[trigger] vs[j] != s@,
        decreases xs@.len() - i,
    {
        assert(vs[i as int] == xs@[i as int]@);
        if str_eq(xs[i].as_str(), s) {
            return true;
        }
        i = i + 1;
    }
    false
}

} // verus!
