//! The text fragment that answers each operation on the registry.

use crate::book::{book_text, Book, BookView};
use crate::registry::{is_listing, views, Registry};
use crate::text::{decimal, push_decimal};
use vstd::prelude::*;
use vstd::string::*;

verus! {

/// One record as a paragraph on a line of its own.
pub open spec fn paragraph(b: BookView) -> Seq<char> {
    "<p>"@ + book_text(b) + "</p>\n"@
}

/// The paragraphs of the records of `l`, one after the other.
pub open spec fn paragraphs(l: Seq<BookView>) -> Seq<char>
    decreases l.len(),
{
    if l.len() == 0 {
        Seq::empty()
    } else {
        paragraphs(l.drop_last()) + paragraph(l.last())
    }
}

/// The answer to a read of an id that has no record.
pub open spec fn missing_text(id: u32) -> Seq<char> {
    "Book id "@ + decimal(id as nat) + " not found"@
}

/// The same answer as a paragraph, as the form page gives it.
pub open spec fn missing_paragraph(id: u32) -> Seq<char> {
    "<p>"@ + missing_text(id) + "</p>"@
}

/// The form in which the record `b` can be edited.
pub open spec fn form_text(b: BookView) -> Seq<char> {
    "<form method=\"post\" action=\"/books/"@ + decimal(b.id as nat) + "/form\">\n"@
        + "<input type=\"hidden\" name=\"id\" value=\""@ + decimal(b.id as nat) + "\">\n"@
        + "<p><input type=\"text\" name=\"title\" value=\""@ + b.title + "\"></p>\n"@
        + "<p><input type=\"text\" name=\"author\" value=\""@ + b.author + "\"></p>\n"@
        + "<input type=\"submit\" value=\"Save\" >\n"@ + "</form>\n"@
}

fn push_paragraph(out: &mut String, book: &Book)
    ensures
        final(out)@ == old(out)@ + paragraph(book@),
{
    out.append("<p>");
    book.write_to(out);
    out.append("</p>\n");
    assert(out@ =~= old(out)@ + paragraph(book@));
}

fn push_missing(out: &mut String, id: u32)
    ensures
        final(out)@ == old(out)@ + missing_text(id),
{
    out.append("Book id ");
    push_decimal(out, id);
    out.append(" not found");
    assert(out@ =~= old(out)@ + missing_text(id));
}

/// The paragraphs of `books`, in the order given.
pub fn render_list(books: &Vec<Book>) -> (r: String)
    ensures
        r@ == paragraphs(views(books@)),
{
    let mut out = String::new();
    let mut i: usize = 0;
    while i < books.len()
        invariant
            i <= books.len(),
            out@ == paragraphs(views(books@.take(i as int))),
        decreases books.len() - i,
    {
        proof {
            let next = views(books@.take(i as int + 1));
            assert(next.drop_last() =~= views(books@.take(i as int)));
            assert(next.last() == books[i as int]@);
        }
        push_paragraph(&mut out, &books[i]);
        i = i + 1;
    }
    assert(books@.take(books.len() as int) =~= books@);
    out
}

/// Every record as a paragraph, in title order.
pub fn get_books(data: &Registry) -> (r: String)
    ensures
        exists|l: Seq<BookView>| is_listing(l, data@) && r@ == paragraphs(l),
{
    let books = data.list();
    render_list(&books)
}

/// Stores `book` under its id, whether or not the id had a record, and
/// confirms it.
pub fn put_books(data: &mut Registry, book: Book) -> (r: String)
    ensures
        final(data)@ == old(data)@.insert(book.id, book@),
        r@ == "put book: "@ + book_text(book@),
{
    let stored = data.upsert(book);
    let mut out = String::from_str("put book: ");
    stored.write_to(&mut out);
    out
}

/// The record under `id` as a paragraph, or the notice that there is none.
pub fn get_books_id(data: &Registry, id: u32) -> (r: String)
    ensures
        r@ == if data@.contains_key(id) {
            paragraph(data@[id])
        } else {
            missing_text(id)
        },
{
    match data.get(id) {
        Some(book) => {
            let mut out = String::new();
            push_paragraph(&mut out, &book);
            assert(out@ =~= paragraph(book@));
            out
        },
        None => {
            let mut out = String::new();
            push_missing(&mut out, id);
            assert(out@ =~= missing_text(id));
            out
        },
    }
}

/// Removes the record under `id` and confirms it, or says that there was
/// none and leaves the registry as it was.
pub fn delete_books_id(data: &mut Registry, id: u32) -> (r: String)
    ensures
        final(data)@ == old(data)@.remove(id),
        !old(data)@.contains_key(id) ==> final(data)@ == old(data)@,
        r@ == if old(data)@.contains_key(id) {
            "delete book id: "@ + decimal(id as nat)
        } else {
            "book id: "@ + decimal(id as nat) + " not found"@
        },
{
    if data.delete(id) {
        let mut out = String::from_str("delete book id: ");
        push_decimal(&mut out, id);
        out
    } else {
        let mut out = String::from_str("book id: ");
        push_decimal(&mut out, id);
        out.append(" not found");
        out
    }
}

/// The form to edit the record under `id`, or the notice that there is none.
pub fn get_books_id_form(data: &Registry, id: u32) -> (r: String)
    ensures
        r@ == if data@.contains_key(id) {
            form_text(data@[id])
        } else {
            missing_paragraph(id)
        },
{
    match data.get(id) {
        Some(book) => {
            let mut out = String::from_str("<form method=\"post\" action=\"/books/");
            push_decimal(&mut out, book.id);
            out.append("/form\">\n");
            out.append("<input type=\"hidden\" name=\"id\" value=\"");
            push_decimal(&mut out, book.id);
            out.append("\">\n");
            out.append("<p><input type=\"text\" name=\"title\" value=\"");
            out.append(book.title.as_str());
            out.append("\"></p>\n");
            out.append("<p><input type=\"text\" name=\"author\" value=\"");
            out.append(book.author.as_str());
            out.append("\"></p>\n");
            out.append("<input type=\"submit\" value=\"Save\" >\n");
            out.append("</form>\n");
            assert(out@ =~= form_text(book@));
            out
        },
        None => {
            let mut out = String::from_str("<p>");
            push_missing(&mut out, id);
            out.append("</p>");
            out
        },
    }
}

/// Replaces the record under the id of `new_book` and confirms it; where
/// the id has no record, stores nothing and says so.
pub fn post_books_id_form(data: &mut Registry, new_book: Book) -> (r: String)
    ensures
        final(data)@ == if old(data)@.contains_key(new_book.id) {
            old(data)@.insert(new_book.id, new_book@)
        } else {
            old(data)@
        },
        r@ == if old(data)@.contains_key(new_book.id) {
            "update book: "@ + book_text(new_book@)
        } else {
            "Book id not found: "@ + decimal(new_book.id as nat)
        },
{
    if data.contains(new_book.id) {
        let stored = data.upsert(new_book);
        let mut out = String::from_str("update book: ");
        stored.write_to(&mut out);
        out
    } else {
        let mut out = String::from_str("Book id not found: ");
        push_decimal(&mut out, new_book.id);
        out
    }
}

} // verus!
