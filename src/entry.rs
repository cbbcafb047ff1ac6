//! Credential records and the operations of the in-memory store.

use crate::crypto::{is_substring, str_contains};
use vstd::prelude::*;

verus! {

/// One credential record. `id` is chosen by the creator and is the only key.
#[derive(Clone, Debug, PartialEq, Eq)]
pub struct Entry {
    pub id: String,
    pub link: String,
    pub user: String,
    pub pass: String,
    pub notes: String,
}

/// The text of each field of an [`Entry`].
pub ghost struct EntryView {
    pub id: Seq<char>,
    pub link: Seq<char>,
    pub user: Seq<char>,
    pub pass: Seq<char>,
    pub notes: Seq<char>,
}

impl View for Entry {
    type V = EntryView;

    open spec fn view(&self) -> EntryView {
        EntryView {
            id: self.id@,
            link: self.link@,
            user: self.user@,
            pass: self.pass@,
            notes: self.notes@,
        }
    }
}

impl Entry {
    /// Builds a record from its five fields.
    pub fn new(id: String, link: String, user: String, pass: String, notes: String) -> (r: Entry)
        ensures
            r@ == (EntryView { id: id@, link: link@, user: user@, pass: pass@, notes: notes@ }),
    {
        Entry { id, link, user, pass, notes }
    }

    /// A field-by-field copy of the record.
    pub fn copy(&self) -> (r: Entry)
        ensures
            r@ == self@,
    {
        Entry {
            id: self.id.clone(),
            link: self.link.clone(),
            user: self.user.clone(),
            pass: self.pass.clone(),
            notes: self.notes.clone(),
        }
    }
}

/// The views of a sequence of records.
pub open spec fn entries_view(es: Seq<Entry>) -> Seq<EntryView> {
    es.map_values(|e: Entry| e@)
}

/// No two records share an `id`.
pub open spec fn ids_unique(es: Seq<EntryView>) -> bool {
    forall|i: int, j: int| 0 <= i < j < es.len() ==> #[trigger] es[i].id != #[trigger] es[j].id
}

/// Some record has this `id`.
pub open spec fn has_id(es: Seq<EntryView>, id: Seq<char>) -> bool {
    exists|i: int| 0 <= i < es.len() && #[trigger] es[i].id == id
}

/// The collection after saving `e`: the record with `e`'s id is replaced in
/// place, or `e` is appended when its id is new.
pub open spec fn upserted(es: Seq<EntryView>, e: EntryView) -> Seq<EntryView> {
    if has_id(es, e.id) {
        es.update(choose|i: int| 0 <= i < es.len() && #[trigger] es[i].id == e.id, e)
    } else {
        es.push(e)
    }
}

/// The collection without the record that has this `id`.
pub open spec fn without_id(es: Seq<EntryView>, id: Seq<char>) -> Seq<EntryView> {
    es.filter(other_id(id))
}

/// Holds of the records whose `id` differs from this one.
pub open spec fn other_id(id: Seq<char>) -> spec_fn(EntryView) -> bool {
    |e: EntryView| e.id != id
}

/// Holds of the records whose `link` or `user` contains `filter`.
pub open spec fn mentions(filter: Seq<char>) -> spec_fn(EntryView) -> bool {
    |e: EntryView| is_substring(filter, e.link) || is_substring(filter, e.user)
}

/// The records whose `link` or `user` contains `filter`, in order.
pub open spec fn matching(es: Seq<EntryView>, filter: Seq<char>) -> Seq<EntryView> {
    es.filter(mentions(filter))
}

proof fn lemma_view_push(es: Seq<Entry>, i: int)
    requires
        0 <= i < es.len(),
    ensures
        entries_view(es.take(i + 1)) == entries_view(es.take(i)).push(es[i]@),
{
    assert(entries_view(es.take(i + 1)) =~= entries_view(es.take(i)).push(es[i]@));
}

/// The position of the record with this `id`, if any.
pub fn find_index(es: &Vec<Entry>, id: &String) -> (r: Option<usize>)
    ensures
        match r {
            Some(p) => p < es@.len() && es@[p as int].id@ == id@,
            None => !has_id(entries_view(es@), id@),
        },
{
    let mut i: usize = 0;
    while i < es.len()
        invariant
            i <= es@.len(),
            forall|k: int| 0 <= k < i ==> (#[trigger] es@[k]).id@ != id@,
        decreases es@.len() - i,
    {
        if es[i].id == *id {
            return Some(i);
        }
        i = i + 1;
    }
    assert forall|k: int| 0 <= k < es@.len() implies #[trigger] entries_view(es@)[k].id != id@ by {
        assert(es@[k].id@ != id@);
    }
    None
}

/// Whether no two records share an `id`.
pub fn distinct_ids(es: &Vec<Entry>) -> (r: bool)
    ensures
        r == ids_unique(entries_view(es@)),
{
    let mut i: usize = 0;
    while i < es.len()
        invariant
            i <= es@.len(),
            forall|a: int, b: int| 0 <= a < b < es@.len() && a < i ==> es@[a].id@ != es@[b].id@,
        decreases es@.len() - i,
    {
        let mut j: usize = i + 1;
        while j < es.len()
            invariant
                i < es@.len(),
                i + 1 <= j <= es@.len(),
                forall|a: int, b: int| 0 <= a < b < es@.len() && a < i ==> es@[a].id@ != es@[b].id@,
                forall|b: int| i < b < j ==> es@[i as int].id@ != es@[b].id@,
            decreases es@.len() - j,
        {
            if es[i].id == es[j].id {
                assert(entries_view(es@)[i as int].id == entries_view(es@)[j as int].id);
                return false;
            }
            j = j + 1;
        }
        i = i + 1;
    }
    assert forall|a: int, b: int| 0 <= a < b < es@.len() implies #[trigger] entries_view(es@)[a].id
        != #[trigger] entries_view(es@)[b].id by {
        assert(es@[a].id@ != es@[b].id@);
    }
    true
}

/// Saves a record: replaces the one with the same `id` in place, or appends.
pub fn upsert(es: &mut Vec<Entry>, e: Entry)
    requires
        ids_unique(entries_view(old(es)@)),
    ensures
        entries_view(final(es)@) == upserted(entries_view(old(es)@), e@),
        ids_unique(entries_view(final(es)@)),
{
    let ghost before = entries_view(es@);
    let ghost ev = e@;
    match find_index(es, &e.id) {
        Some(p) => {
            proof {
                assert(before[p as int].id == ev.id);
                let c = choose|i: int| 0 <= i < before.len() && #[trigger] before[i].id == ev.id;
                assert(c == p as int);
            }
            es.set(p, e);
            assert(entries_view(es@) =~= before.update(p as int, ev));
        },
        None => {
            es.push(e);
            assert(entries_view(es@) =~= before.push(ev));
        },
    }
}

/// Removes the record with this `id`; nothing changes when there is none.
pub fn remove_id(es: &mut Vec<Entry>, id: &String)
    requires
        ids_unique(entries_view(old(es)@)),
    ensures
        entries_view(final(es)@) == without_id(entries_view(old(es)@), id@),
        ids_unique(entries_view(final(es)@)),
{
    let ghost pred = other_id(id@);
    let mut kept: Vec<Entry> = Vec::new();
    let mut i: usize = 0;
    while i < es.len()
        invariant
            i <= es@.len(),
            pred == other_id(id@),
            entries_view(kept@) == entries_view(es@.take(i as int)).filter(pred),
            ids_unique(entries_view(es@)),
            ids_unique(entries_view(kept@)),
            forall|k: int|
                0 <= k < kept@.len() ==> exists|j: int|
                    0 <= j < i && #[trigger] es@[j].id@ == (#[trigger] kept@[k]).id@,
        decreases es@.len() - i,
    {
        proof {
            lemma_view_push(es@, i as int);
            entries_view(es@.take(i as int)).lemma_filter_push(es@[i as int]@, pred);
        }
        let keep = !(es[i].id == *id);
        assert(keep == pred(es@[i as int]@));
        if keep {
            let c = es[i].copy();
            let ghost prev = kept@;
            proof {
                assert forall|k: int| 0 <= k < prev.len() implies prev[k].id@ != es@[i as int].id@ by {
                    let j = choose|j: int| 0 <= j < i && #[trigger] es@[j].id@ == prev[k].id@;
                    assert(entries_view(es@)[j].id != entries_view(es@)[i as int].id);
                }
            }
            kept.push(c);
            assert(entries_view(kept@) =~= entries_view(es@.take(i as int)).filter(pred).push(
                es@[i as int]@,
            ));
            assert forall|k: int| 0 <= k < kept@.len() implies exists|j: int|
                0 <= j < i + 1 && #[trigger] es@[j].id@ == (#[trigger] kept@[k]).id@ by {
                if k < prev.len() {
                    let j = choose|j: int| 0 <= j < i && #[trigger] es@[j].id@ == prev[k].id@;
                    assert(es@[j].id@ == kept@[k].id@);
                } else {
                    assert(es@[i as int].id@ == kept@[k].id@);
                }
            }
            assert forall|a: int, b: int| 0 <= a < b < kept@.len() implies #[trigger] entries_view(kept@)[a].id
                != #[trigger] entries_view(kept@)[b].id by {
                if b == prev.len() {
                    assert(prev[a].id@ != es@[i as int].id@);
                } else {
                    assert(entries_view(prev)[a].id != entries_view(prev)[b].id);
                }
            }
        }
        i = i + 1;
    }
    assert(es@.take(i as int) =~= es@);
    *es = kept;
}

/// The records whose `link` or `user` contains `filter`, in collection order.
pub fn select(es: &Vec<Entry>, filter: &str) -> (r: Vec<Entry>)
    ensures
        entries_view(r@) == matching(entries_view(es@), filter@),
{
    let ghost pred = mentions(filter@);
    let mut out: Vec<Entry> = Vec::new();
    let mut i: usize = 0;
    while i < es.len()
        invariant
            i <= es@.len(),
            pred == mentions(filter@),
            entries_view(out@) == entries_view(es@.take(i as int)).filter(pred),
        decreases es@.len() - i,
    {
        proof {
            lemma_view_push(es@, i as int);
            entries_view(es@.take(i as int)).lemma_filter_push(es@[i as int]@, pred);
        }
        let in_link = str_contains(es[i].link.as_str(), filter);
        let in_user = str_contains(es[i].user.as_str(), filter);
        let hit = in_link || in_user;
        assert(in_link == is_substring(filter@, es@[i as int]@.link));
        assert(in_user == is_substring(filter@, es@[i as int]@.user));
        assert(hit == pred(es@[i as int]@));
        if hit {
            let c = es[i].copy();
            out.push(c);
            assert(entries_view(out@) =~= entries_view(es@.take(i as int)).filter(pred).push(
                es@[i as int]@,
            ));
        }
        i = i + 1;
    }
    assert(es@.take(i as int) =~= es@);
    out
}

/// Saving a record whose id is already present replaces that record in
/// place, leaving length and every other record unchanged; saving one with a
/// new id appends it.
pub proof fn lemma_save_replaces_or_appends(es: Seq<EntryView>, e: EntryView)
    requires
        ids_unique(es),
    ensures
        ids_unique(upserted(es, e)),
        has_id(es, e.id) ==> {
            &&& upserted(es, e).len() == es.len()
            &&& forall|i: int|
                0 <= i < es.len() ==> #[trigger] upserted(es, e)[i] == if es[i].id == e.id {
                    e
                } else {
                    es[i]
                }
        },
        !has_id(es, e.id) ==> upserted(es, e) == es.push(e),
{
    if has_id(es, e.id) {
        let c = choose|i: int| 0 <= i < es.len() && #[trigger] es[i].id == e.id;
        let u = upserted(es, e);
        assert forall|i: int| 0 <= i < es.len() implies #[trigger] u[i] == if es[i].id == e.id {
            e
        } else {
            es[i]
        } by {
            if es[i].id == e.id && i != c {
                if i < c {
                    assert(es[i].id != es[c].id);
                } else {
                    assert(es[c].id != es[i].id);
                }
            }
        }
        assert forall|a: int, b: int| 0 <= a < b < u.len() implies #[trigger] u[a].id
            != #[trigger] u[b].id by {
            assert(es[a].id != es[b].id);
        }
    } else {
        let u = upserted(es, e);
        assert forall|a: int, b: int| 0 <= a < b < u.len() implies #[trigger] u[a].id
            != #[trigger] u[b].id by {
            if b == es.len() {
                assert(es[a].id != e.id);
            } else {
                assert(es[a].id != es[b].id);
            }
        }
    }
}

proof fn lemma_filter_all(es: Seq<EntryView>, pred: spec_fn(EntryView) -> bool)
    requires
        forall|e: EntryView| #[trigger] pred(e),
    ensures
        es.filter(pred) == es,
    decreases es.len(),
{
    reveal(Seq::filter);
    if es.len() > 0 {
        lemma_filter_all(es.drop_last(), pred);
        assert(es.drop_last().push(es.last()) =~= es);
    }
}

proof fn lemma_filter_within(es: Seq<EntryView>, pred: spec_fn(EntryView) -> bool)
    ensures
        forall|i: int| 0 <= i < es.filter(pred).len() ==> es.contains(#[trigger] es.filter(pred)[i]),
    decreases es.len(),
{
    reveal(Seq::filter);
    if es.len() > 0 {
        let rest = es.drop_last();
        lemma_filter_within(rest, pred);
        let f = es.filter(pred);
        assert forall|i: int| 0 <= i < f.len() implies es.contains(#[trigger] f[i]) by {
            if i < rest.filter(pred).len() {
                assert(f[i] == rest.filter(pred)[i]);
                let j = choose|j: int| 0 <= j < rest.len() && rest[j] == f[i];
                assert(es[j] == f[i]);
            } else {
                assert(f[i] == es[es.len() - 1]);
            }
        }
    }
}

/// The empty filter selects every record, in order; any filter selects
/// exactly the records whose `link` or `user` contains it, in order.
pub proof fn lemma_filtering(es: Seq<EntryView>, filter: Seq<char>)
    ensures
        matching(es, Seq::empty()) == es,
        forall|e: EntryView|
            #[trigger] matching(es, filter).contains(e) <==> es.contains(e) && (is_substring(
                filter,
                e.link,
            ) || is_substring(filter, e.user)),
        forall|i: int|
            0 <= i < matching(es, filter).len() ==> mentions(filter)(#[trigger] matching(es, filter)[i]),
{
    broadcast use vstd::seq_lib::group_filter_ensures;

    let nothing = Seq::<char>::empty();
    assert forall|e: EntryView| #[trigger] mentions(nothing)(e) by {
        assert(e.link.subrange(0, 0 + nothing.len() as int) =~= nothing);
    }
    lemma_filter_all(es, mentions(nothing));
    let m = matching(es, filter);
    assert forall|e: EntryView| #[trigger] m.contains(e) <==> es.contains(e) && mentions(filter)(e) by {
        if es.contains(e) && mentions(filter)(e) {
            es.lemma_filter_contains_rev(mentions(filter), e);
        }
        if m.contains(e) {
            let i = choose|i: int| 0 <= i < m.len() && m[i] == e;
            lemma_filter_within(es, mentions(filter));
            assert(mentions(filter)(m[i]));
            assert(es.contains(m[i]));
        }
    }
}

} // verus!
