//! What holds of the registry over several operations, stated over the maps
//! that the operations' contracts speak of.

use crate::book::BookView;
use crate::registry::{comes_before, is_listing};
use crate::text::{lemma_lex_le_antisymmetric, lex_le};
use vstd::prelude::*;

verus! {

/// A change to the registry.
pub ghost enum Change {
    /// Store the record under its id.
    Upsert(BookView),
    /// Remove what is under the id.
    Delete(u32),
}

impl Change {
    /// The id that the change is about.
    pub open spec fn id(self) -> u32 {
        match self {
            Change::Upsert(b) => b.id,
            Change::Delete(id) => id,
        }
    }
}

/// The records after one change: what `upsert` and `delete` leave.
pub open spec fn after(m: Map<u32, BookView>, c: Change) -> Map<u32, BookView> {
    match c {
        Change::Upsert(b) => m.insert(b.id, b),
        Change::Delete(id) => m.remove(id),
    }
}

/// The records after the changes of `cs`, made from left to right.
pub open spec fn after_all(m: Map<u32, BookView>, cs: Seq<Change>) -> Map<u32, BookView>
    decreases cs.len(),
{
    if cs.len() == 0 {
        m
    } else {
        after(after_all(m, cs.drop_last()), cs.last())
    }
}

/// After any run of changes, an id holds what the last change about it
/// left: the record of an upsert, nothing after a delete.
pub proof fn law_last_change_decides(m: Map<u32, BookView>, cs: Seq<Change>, k: int)
    requires
        0 <= k < cs.len(),
        forall|j: int| k < j < cs.len() ==> (#[trigger] cs[j]).id() != cs[k].id(),
    ensures
        match cs[k] {
            Change::Upsert(b) => after_all(m, cs).contains_key(b.id) && after_all(m, cs)[b.id] == b,
            Change::Delete(id) => !after_all(m, cs).contains_key(id),
        },
    decreases cs.len(),
{
    if k < cs.len() - 1 {
        let front = cs.drop_last();
        assert(front[k] == cs[k]);
        assert forall|j: int| k < j < front.len()
            implies (#[trigger] front[j]).id() != front[k].id() by {
            assert(front[j] == cs[j]);
        }
        law_last_change_decides(m, front, k);
        assert(cs.last() == cs[cs.len() - 1]);
    }
}

/// An id that no change of the run is about holds what it held before.
pub proof fn law_untouched_id_keeps(m: Map<u32, BookView>, cs: Seq<Change>, id: u32)
    requires
        forall|j: int| 0 <= j < cs.len() ==> (#[trigger] cs[j]).id() != id,
    ensures
        after_all(m, cs).contains_key(id) == m.contains_key(id),
        m.contains_key(id) ==> after_all(m, cs)[id] == m[id],
    decreases cs.len(),
{
    if cs.len() > 0 {
        let front = cs.drop_last();
        assert forall|j: int| 0 <= j < front.len() implies (#[trigger] front[j]).id() != id by {
            assert(front[j] == cs[j]);
        }
        law_untouched_id_keeps(m, front, id);
        assert(cs.last() == cs[cs.len() - 1]);
    }
}

/// What is left of a listing without its first entry lists the records
/// without that entry's id.
proof fn lemma_listing_rest(l: Seq<BookView>, m: Map<u32, BookView>)
    requires
        is_listing(l, m),
        l.len() > 0,
    ensures
        is_listing(l.drop_first(), m.remove(l[0].id)),
{
    let r = l.drop_first();
    let mr = m.remove(l[0].id);
    assert forall|i: int| 0 <= i < r.len()
        implies mr.contains_key(#[trigger] r[i].id) && mr[r[i].id] == r[i] by {
        assert(r[i] == l[i + 1]);
        assert(l[0].id != l[i + 1].id);
    }
    assert forall|id: u32| #[trigger] mr.contains_key(id)
        implies exists|i: int| 0 <= i < r.len() && #[trigger] r[i].id == id by {
        assert(m.contains_key(id));
        let k = choose|k: int| 0 <= k < l.len() && #[trigger] l[k].id == id;
        assert(r[k - 1].id == id);
    }
    assert forall|i: int, j: int| 0 <= i < j < r.len()
        implies #[trigger] r[i].id != #[trigger] r[j].id by {
        assert(l[i + 1].id != l[j + 1].id);
    }
    assert forall|i: int, j: int| 0 <= i < j < r.len()
        implies lex_le(#[trigger] r[i].title, #[trigger] r[j].title) by {
        assert(lex_le(l[i + 1].title, l[j + 1].title));
    }
    assert forall|i: int, j: int| 0 <= i < j < r.len() && r[i].title == r[j].title
        implies (#[trigger] r[i]).id < (#[trigger] r[j]).id by {
        assert(l[i + 1].id < l[j + 1].id);
    }
}

/// The first entry of a listing comes before every record of the map.
proof fn lemma_first_is_least(l: Seq<BookView>, m: Map<u32, BookView>, id: u32)
    requires
        is_listing(l, m),
        m.contains_key(id),
    ensures
        l.len() > 0,
        comes_before(l[0], m[id]),
{
    let k = choose|k: int| 0 <= k < l.len() && #[trigger] l[k].id == id;
    assert(m[l[k].id] == l[k]);
    if k > 0 {
        assert(lex_le(l[0].title, l[k].title));
        assert(l[0].title == l[k].title ==> l[0].id < l[k].id);
    }
}

/// The records decide their listing: two listings of the same records are
/// the same sequence. So listing again, with no change in between, gives the
/// same result, whatever the order in which the records were stored.
pub proof fn law_listing_unique(l1: Seq<BookView>, l2: Seq<BookView>, m: Map<u32, BookView>)
    requires
        is_listing(l1, m),
        is_listing(l2, m),
    ensures
        l1 == l2,
    decreases l1.len(),
{
    if l1.len() == 0 {
        if l2.len() > 0 {
            assert(m.contains_key(l2[0].id));
            lemma_first_is_least(l1, m, l2[0].id);
        }
        assert(l1 =~= l2);
    } else {
        assert(m.contains_key(l1[0].id));
        lemma_first_is_least(l2, m, l1[0].id);
        assert(m.contains_key(l2[0].id));
        lemma_first_is_least(l1, m, l2[0].id);
        assert(m[l1[0].id] == l1[0]);
        assert(m[l2[0].id] == l2[0]);
        if l1[0].title != l2[0].title {
            lemma_lex_le_antisymmetric(l1[0].title, l2[0].title);
        }
        assert(l1[0].id == l2[0].id);
        lemma_listing_rest(l1, m);
        lemma_listing_rest(l2, m);
        law_listing_unique(l1.drop_first(), l2.drop_first(), m.remove(l1[0].id));
        assert(l1 =~= seq![l1[0]] + l1.drop_first());
        assert(l2 =~= seq![l2[0]] + l2.drop_first());
    }
}

/// Storing the same record twice leaves what storing it once leaves.
pub proof fn law_upsert_idempotent(m: Map<u32, BookView>, b: BookView)
    ensures
        m.insert(b.id, b).insert(b.id, b) == m.insert(b.id, b),
{
    assert(m.insert(b.id, b).insert(b.id, b) =~= m.insert(b.id, b));
}

/// Deleting an id that has no record changes nothing: the records are the
/// same, so whatever listed them before lists them after.
pub proof fn law_delete_absent_keeps(m: Map<u32, BookView>, id: u32, l: Seq<BookView>)
    requires
        !m.contains_key(id),
    ensures
        m.remove(id) == m,
        is_listing(l, m) == is_listing(l, m.remove(id)),
{
    assert(m.remove(id) =~= m);
}

/// Deleting twice leaves what deleting once leaves.
pub proof fn law_delete_idempotent(m: Map<u32, BookView>, id: u32)
    ensures
        !m.remove(id).contains_key(id),
        m.remove(id).remove(id) == m.remove(id),
{
    assert(m.remove(id).remove(id) =~= m.remove(id));
}

/// Two upserts of different ids leave the same records in either order,
/// and both records are there.
pub proof fn law_upserts_of_two_ids_commute(m: Map<u32, BookView>, a: BookView, b: BookView)
    requires
        a.id != b.id,
    ensures
        m.insert(a.id, a).insert(b.id, b) == m.insert(b.id, b).insert(a.id, a),
        m.insert(a.id, a).insert(b.id, b)[a.id] == a,
        m.insert(a.id, a).insert(b.id, b)[b.id] == b,
{
    assert(m.insert(a.id, a).insert(b.id, b) =~= m.insert(b.id, b).insert(a.id, a));
}

/// Two upserts of one id leave one of the two records whole, the one that
/// came second, and nothing else differs between the two orders.
pub proof fn law_upserts_of_one_id_leave_one(m: Map<u32, BookView>, a: BookView, b: BookView)
    requires
        a.id == b.id,
    ensures
        m.insert(a.id, a).insert(b.id, b) == m.insert(b.id, b),
        m.insert(b.id, b).insert(a.id, a) == m.insert(a.id, a),
        m.insert(a.id, a).remove(a.id) == m.insert(b.id, b).remove(a.id),
{
    assert(m.insert(a.id, a).insert(b.id, b) =~= m.insert(b.id, b));
    assert(m.insert(b.id, b).insert(a.id, a) =~= m.insert(a.id, a));
    assert(m.insert(a.id, a).remove(a.id) =~= m.insert(b.id, b).remove(a.id));
}

} // verus!
