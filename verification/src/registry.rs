//! The registry: at most one book per id, read and changed one whole
//! operation at a time.

use crate::book::{Book, BookView};
use crate::text::{
    lemma_lex_le_antisymmetric, lemma_lex_le_reflexive, lemma_lex_le_total,
    lemma_lex_le_transitive, lex_le, precedes,
};
use std::collections::HashMap;
use vstd::prelude::*;
use vstd::std_specs::hash::*;
use vstd::std_specs::iter::IteratorSpec;

verus! {

/// The views of a sequence of books, in the same order.
pub open spec fn views(l: Seq<Book>) -> Seq<BookView> {
    l.map_values(|b: Book| b@)
}

/// Titles never go down from left to right.
pub open spec fn sorted_by_title(l: Seq<BookView>) -> bool {
    forall|i: int, j: int| 0 <= i < j < l.len()
        ==> lex_le(#[trigger] l[i].title, #[trigger] l[j].title)
}

/// Among entries with one title, ids go up from left to right.
pub open spec fn ties_by_id(l: Seq<BookView>) -> bool {
    forall|i: int, j: int| 0 <= i < j < l.len() && l[i].title == l[j].title
        ==> (#[trigger] l[i]).id < (#[trigger] l[j]).id
}

/// The order in which records are listed: by title, and by id among
/// records with one title.
pub open spec fn comes_before(a: BookView, b: BookView) -> bool {
    if a.title == b.title {
        a.id <= b.id
    } else {
        lex_le(a.title, b.title)
    }
}

/// Every entry comes before those to its right.
pub open spec fn in_order(l: Seq<BookView>) -> bool {
    forall|i: int, j: int| 0 <= i < j < l.len() ==> comes_before(#[trigger] l[i], #[trigger] l[j])
}

/// `l` lists the records of `m`: every entry of `l` is the record that `m`
/// holds under that entry's id, every id of `m` has an entry, no id has two,
/// and the entries are in title order, those with one title in id order.
pub open spec fn is_listing(l: Seq<BookView>, m: Map<u32, BookView>) -> bool {
    &&& forall|i: int| 0 <= i < l.len() ==> m.contains_key(#[trigger] l[i].id) && m[l[i].id] == l[i]
    &&& forall|id: u32| #[trigger] m.contains_key(id)
        ==> exists|i: int| 0 <= i < l.len() && #[trigger] l[i].id == id
    &&& forall|i: int, j: int| 0 <= i < j < l.len() ==> #[trigger] l[i].id != #[trigger] l[j].id
    &&& sorted_by_title(l)
    &&& ties_by_id(l)
}

/// The three records that a fresh registry starts with.
pub open spec fn seed_records() -> Map<u32, BookView> {
    map![
        1u32 => BookView { id: 1, title: "Antigone"@, author: "Sophocles"@ },
        2u32 => BookView { id: 2, title: "Beloved"@, author: "Toni Morrison"@ },
        3u32 => BookView { id: 3, title: "Candide"@, author: "Voltaire"@ },
    ]
}

/// What the values of a map are as a sequence, when every record is filed
/// under its own id: each entry is in the map, each key has an entry, and no
/// id occurs twice.
proof fn lemma_values_cover(m: Map<u32, Book>, vals: Seq<Book>)
    requires
        m.dom().finite(),
        forall|k: u32| m.contains_key(k) ==> (#[trigger] m[k]).id == k,
        vals.to_set() == m.values(),
        vals.len() == m.dom().len(),
    ensures
        forall|i: int| 0 <= i < vals.len()
            ==> m.contains_key(#[trigger] vals[i].id) && m[vals[i].id] == vals[i],
        forall|k: u32| #[trigger] m.contains_key(k)
            ==> exists|i: int| 0 <= i < vals.len() && #[trigger] vals[i] == m[k],
        forall|i: int, j: int| 0 <= i < j < vals.len()
            ==> #[trigger] vals[i].id != #[trigger] vals[j].id,
{
    assert forall|i: int| 0 <= i < vals.len()
        implies m.contains_key(#[trigger] vals[i].id) && m[vals[i].id] == vals[i] by {
        assert(vals.to_set().contains(vals[i]));
        assert(m.values().contains(vals[i]));
        let k = choose|k: u32| m.contains_key(k) && m[k] == vals[i];
        assert(m[k].id == k);
    }
    assert forall|k: u32| #[trigger] m.contains_key(k)
        implies exists|i: int| 0 <= i < vals.len() && #[trigger] vals[i] == m[k] by {
        assert(m.values().contains(m[k]));
        assert(vals.to_set().contains(m[k]));
    }
    let ids = vals.map_values(|b: Book| b.id);
    assert(ids.to_set() =~= m.dom()) by {
        assert forall|k: u32| ids.to_set().contains(k) implies m.dom().contains(k) by {
            let i = choose|i: int| 0 <= i < ids.len() && ids[i] == k;
            assert(vals[i].id == k);
        }
        assert forall|k: u32| m.dom().contains(k) implies ids.to_set().contains(k) by {
            assert(m.contains_key(k));
            let i = choose|i: int| 0 <= i < vals.len() && vals[i] == m[k];
            assert(ids[i] == k);
        }
    }
    ids.lemma_no_dup_set_cardinality();
    assert forall|i: int, j: int| 0 <= i < j < vals.len()
        implies #[trigger] vals[i].id != #[trigger] vals[j].id by {
        assert(ids[i] != ids[j]);
    }
}

/// `out` holds the first `n` entries of `vals`, each once: `src` gives for
/// each place in `out` the place in `vals` that it came from, and `dst` the
/// way back.
spec fn tracks(vals: Seq<Book>, n: int, out: Seq<Book>, src: Seq<int>, dst: Seq<int>) -> bool {
    &&& 0 <= n <= vals.len()
    &&& src.len() == out.len()
    &&& dst.len() == n
    &&& forall|j: int| 0 <= j < out.len()
        ==> 0 <= #[trigger] src[j] < n && out[j] == vals[src[j]] && dst[src[j]] == j
    &&& forall|i: int| 0 <= i < n ==> 0 <= #[trigger] dst[i] < out.len() && out[dst[i]] == vals[i]
}

/// The places of `dst` after one entry went in at `pos`.
spec fn shifted(dst: Seq<int>, pos: int) -> Seq<int> {
    Seq::new(dst.len(), |i: int| if dst[i] >= pos { dst[i] + 1 } else { dst[i] })
}

/// Putting the next entry of `vals` into `out` at `pos` keeps the
/// bookkeeping, with the new entry tracked as well.
proof fn lemma_tracks_insert(
    vals: Seq<Book>,
    n: int,
    out: Seq<Book>,
    src: Seq<int>,
    dst: Seq<int>,
    pos: int,
)
    requires
        tracks(vals, n, out, src, dst),
        n < vals.len(),
        0 <= pos <= out.len(),
    ensures
        tracks(
            vals,
            n + 1,
            out.insert(pos, vals[n]),
            src.insert(pos, n),
            shifted(dst, pos).push(pos),
        ),
{
    let out2 = out.insert(pos, vals[n]);
    let src2 = src.insert(pos, n);
    let dst2 = shifted(dst, pos).push(pos);
    assert forall|j: int| 0 <= j < out2.len()
        implies 0 <= #[trigger] src2[j] < n + 1 && out2[j] == vals[src2[j]]
            && dst2[src2[j]] == j by {
        if j < pos {
            assert(src2[j] == src[j]);
        } else if j > pos {
            assert(src2[j] == src[j - 1]);
        }
    }
    assert forall|i: int| 0 <= i < n + 1
        implies 0 <= #[trigger] dst2[i] < out2.len() && out2[dst2[i]] == vals[i] by {
        if i < n {
            assert(0 <= dst[i] < out.len());
        }
    }
}

/// Once every entry of `vals` is tracked, `out` lists the records of `m`
/// but for their order.
proof fn lemma_tracks_all(
    m: Map<u32, Book>,
    vals: Seq<Book>,
    out: Seq<Book>,
    src: Seq<int>,
    dst: Seq<int>,
)
    requires
        tracks(vals, vals.len() as int, out, src, dst),
        forall|i: int| 0 <= i < vals.len()
            ==> m.contains_key(#[trigger] vals[i].id) && m[vals[i].id] == vals[i],
        forall|k: u32| #[trigger] m.contains_key(k)
            ==> exists|i: int| 0 <= i < vals.len() && #[trigger] vals[i] == m[k],
        forall|i: int, j: int| 0 <= i < j < vals.len()
            ==> #[trigger] vals[i].id != #[trigger] vals[j].id,
        forall|k: u32| m.contains_key(k) ==> (#[trigger] m[k]).id == k,
        in_order(views(out)),
    ensures
        is_listing(views(out), m.map_values(|b: Book| b@)),
{
    let l = views(out);
    assert forall|i: int, j: int| 0 <= i < j < l.len()
        implies lex_le(#[trigger] l[i].title, #[trigger] l[j].title) by {
        assert(comes_before(l[i], l[j]));
        lemma_lex_le_reflexive(l[i].title);
    }
    let mv = m.map_values(|b: Book| b@);
    assert forall|i: int| 0 <= i < l.len()
        implies mv.contains_key(#[trigger] l[i].id) && mv[l[i].id] == l[i] by {
        assert(out[i] == vals[src[i]]);
    }
    assert forall|id: u32| #[trigger] mv.contains_key(id)
        implies exists|i: int| 0 <= i < l.len() && #[trigger] l[i].id == id by {
        assert(m.contains_key(id));
        let k = choose|k: int| 0 <= k < vals.len() && vals[k] == m[id];
        assert(out[dst[k]] == vals[k]);
        assert(l[dst[k]].id == id);
    }
    assert forall|i: int, j: int| 0 <= i < j < l.len()
        implies #[trigger] l[i].id != #[trigger] l[j].id by {
        assert(dst[src[i]] == i && dst[src[j]] == j);
        let a = src[i];
        let b = src[j];
        assert(a != b);
        if a < b {
            assert(vals[a].id != vals[b].id);
        } else {
            assert(vals[b].id != vals[a].id);
        }
    }
    assert forall|i: int, j: int| 0 <= i < j < l.len() && l[i].title == l[j].title
        implies (#[trigger] l[i]).id < (#[trigger] l[j]).id by {
        assert(comes_before(l[i], l[j]));
        assert(l[i].id != l[j].id);
    }
}

/// Any two records are comparable.
proof fn lemma_comes_before_total(a: BookView, b: BookView)
    ensures
        comes_before(a, b) || comes_before(b, a),
{
    lemma_lex_le_total(a.title, b.title);
}

/// The listing order is transitive.
proof fn lemma_comes_before_transitive(a: BookView, b: BookView, c: BookView)
    requires
        comes_before(a, b),
        comes_before(b, c),
    ensures
        comes_before(a, c),
{
    if a.title != b.title && b.title != c.title {
        lemma_lex_le_transitive(a.title, b.title, c.title);
        if a.title == c.title {
            lemma_lex_le_antisymmetric(a.title, b.title);
        }
    }
}

/// Whether `a` is listed at or before `b`.
fn listed_before(a: &Book, b: &Book) -> (r: bool)
    ensures
        r == comes_before(a@, b@),
{
    if a.title == b.title {
        a.id <= b.id
    } else {
        precedes(a.title.as_str(), b.title.as_str())
    }
}

/// Puts `b` into the ordered `out` at a place that keeps it ordered, and
/// says where.
fn insert_sorted(out: &mut Vec<Book>, b: Book) -> (pos: usize)
    requires
        in_order(views(old(out)@)),
    ensures
        pos <= old(out).len(),
        final(out)@ == old(out)@.insert(pos as int, b),
        in_order(views(final(out)@)),
{
    let mut pos: usize = 0;
    while pos < out.len() && listed_before(&out[pos], &b)
        invariant
            pos <= out.len(),
            *out == *old(out),
            forall|j: int| 0 <= j < pos ==> comes_before((#[trigger] out[j])@, b@),
        decreases out.len() - pos,
    {
        pos = pos + 1;
    }
    proof {
        let l = views(out@);
        assert forall|j: int| pos <= j < out.len()
            implies comes_before(b@, (#[trigger] out[j])@) by {
            lemma_comes_before_total(out[pos as int]@, b@);
            if pos < j {
                assert(comes_before(l[pos as int], l[j]));
                lemma_comes_before_transitive(b@, out[pos as int]@, out[j]@);
            }
        }
    }
    out.insert(pos, b);
    proof {
        let old_l = views(old(out)@);
        let l = views(out@);
        assert forall|i: int, j: int| 0 <= i < j < l.len()
            implies comes_before(#[trigger] l[i], #[trigger] l[j]) by {
            if j < pos {
                assert(comes_before(old_l[i], old_l[j]));
            } else if j == pos {
                assert(l[i] == old(out)@[i]@);
            } else if i < pos {
                assert(comes_before(old_l[i], old_l[j - 1]));
            } else if i == pos {
                assert(l[j] == old(out)@[j - 1]@);
            } else {
                assert(comes_before(old_l[i - 1], old_l[j - 1]));
            }
        }
    }
    pos
}

/// The book records of one process, each filed under its id.
pub struct Registry {
    books: HashMap<u32, Book>,
}

impl View for Registry {
    type V = Map<u32, BookView>;

    closed spec fn view(&self) -> Map<u32, BookView> {
        self.books@.map_values(|b: Book| b@)
    }
}

impl Registry {
    /// Every record is filed under its own id.
    #[verifier::type_invariant]
    closed spec fn filed_by_id(self) -> bool {
        forall|k: u32| self.books@.contains_key(k) ==> (#[trigger] self.books@[k]).id == k
    }

    /// A registry without records.
    pub fn new() -> (r: Registry)
        ensures
            r@ == Map::<u32, BookView>::empty(),
    {
        let r = Registry { books: HashMap::new() };
        assert(r@ =~= Map::<u32, BookView>::empty());
        r
    }

    /// A registry that holds the three seed records.
    pub fn seeded() -> (r: Registry)
        ensures
            r@ == seed_records(),
    {
        let mut r = Registry::new();
        r.upsert(Book::new(1, "Antigone", "Sophocles"));
        r.upsert(Book::new(2, "Beloved", "Toni Morrison"));
        r.upsert(Book::new(3, "Candide", "Voltaire"));
        r
    }

    /// Whether a record is filed under `id`.
    pub fn contains(&self, id: u32) -> (r: bool)
        ensures
            r == self@.contains_key(id),
    {
        broadcast use group_hash_axioms;
        self.books.contains_key(&id)
    }

    /// The record filed under `id`, if there is one.
    pub fn get(&self, id: u32) -> (r: Option<Book>)
        ensures
            r is Some == self@.contains_key(id),
            r matches Some(b) ==> b@ == self@[id],
    {
        broadcast use group_hash_axioms;
        match self.books.get(&id) {
            Some(b) => Some(b.clone()),
            None => None,
        }
    }

    /// Files `book` under its id, in place of what was there, and hands the
    /// stored record back.
    pub fn upsert(&mut self, book: Book) -> (r: Book)
        ensures
            final(self)@ == old(self)@.insert(book.id, book@),
            r@ == book@,
    {
        broadcast use group_hash_axioms;
        proof {
            use_type_invariant(&*self);
        }
        let stored = book.clone();
        let mut books: HashMap<u32, Book> = HashMap::new();
        std::mem::swap(&mut books, &mut self.books);
        books.insert(book.id, book);
        self.books = books;
        assert(self@ =~= old(self)@.insert(book.id, book@));
        stored
    }

    /// Removes the record filed under `id` and says whether there was one.
    pub fn delete(&mut self, id: u32) -> (r: bool)
        ensures
            r == old(self)@.contains_key(id),
            final(self)@ == old(self)@.remove(id),
            !r ==> final(self)@ == old(self)@,
    {
        broadcast use group_hash_axioms;
        proof {
            use_type_invariant(&*self);
        }
        let mut books: HashMap<u32, Book> = HashMap::new();
        std::mem::swap(&mut books, &mut self.books);
        let removed = books.remove(&id);
        self.books = books;
        assert(self@ =~= old(self)@.remove(id));
        assert(!old(self)@.contains_key(id) ==> old(self)@.remove(id) =~= old(self)@);
        removed.is_some()
    }

    /// All records, in title order, those with one title in id order.
    pub fn list(&self) -> (r: Vec<Book>)
        ensures
            is_listing(views(r@), self@),
    {
        broadcast use group_hash_axioms;
        proof {
            use_type_invariant(self);
        }
        let ghost vals: Seq<Book> = spec_values_iter(&self.books).remaining().unref();
        let ghost mut src: Seq<int> = Seq::empty();
        let ghost mut dst: Seq<int> = Seq::empty();
        let mut out: Vec<Book> = Vec::new();
        for b in it: self.books.values()
            invariant
                it.seq().unref() == vals,
                tracks(vals, it.index(), out@, src, dst),
                in_order(views(out@)),
        {
            let ghost n = it.index();
            let ghost before = out@;
            let copy = b.clone();
            assert(copy == vals[n]);
            let pos = insert_sorted(&mut out, copy);
            proof {
                lemma_tracks_insert(vals, n, before, src, dst, pos as int);
                src = src.insert(pos as int, n);
                dst = shifted(dst, pos as int).push(pos as int);
            }
        }
        proof {
            lemma_values_cover(self.books@, vals);
            lemma_tracks_all(self.books@, vals, out@, src, dst);
            assert(self@ =~= self.books@.map_values(|b: Book| b@));
        }
        out
    }
}

} // verus!
