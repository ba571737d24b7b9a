//! The book record.

use crate::text::{decimal, push_decimal};
use vstd::prelude::*;
use vstd::string::*;

verus! {

/// A book: an id chosen by the client, a title and an author.
#[derive(Debug)]
pub struct Book {
    pub id: u32,
    pub title: String,
    pub author: String,
}

/// What a book is, as plain values.
pub ghost struct BookView {
    pub id: u32,
    pub title: Seq<char>,
    pub author: Seq<char>,
}

impl View for Book {
    type V = BookView;

    open spec fn view(&self) -> BookView {
        BookView { id: self.id, title: self.title@, author: self.author@ }
    }
}

/// The one-line text of a book:
/// `Book { id: 7, title: "T", author: "A" }`, title and author verbatim.
pub open spec fn book_text(b: BookView) -> Seq<char> {
    "Book { id: "@ + decimal(b.id as nat) + ", title: \""@ + b.title + "\", author: \""@
        + b.author + "\" }"@
}

impl Clone for Book {
    fn clone(&self) -> (r: Book)
        ensures
            r == *self,
    {
        Book { id: self.id, title: self.title.clone(), author: self.author.clone() }
    }
}

impl Book {
    /// A book made of the three given values.
    pub fn new(id: u32, title: &str, author: &str) -> (r: Book)
        ensures
            r@ == (BookView { id, title: title@, author: author@ }),
    {
        Book { id, title: String::from_str(title), author: String::from_str(author) }
    }

    /// Appends the one-line text of this book to `out`.
    pub fn write_to(&self, out: &mut String)
        ensures
            final(out)@ == old(out)@ + book_text(self@),
    {
        out.append("Book { id: ");
        push_decimal(out, self.id);
        out.append(", title: \"");
        out.append(self.title.as_str());
        out.append("\", author: \"");
        out.append(self.author.as_str());
        out.append("\" }");
        assert(out@ =~= old(out)@ + book_text(self@));
    }

    /// The one-line text of this book.
    pub fn render(&self) -> (r: String)
        ensures
            r@ == book_text(self@),
    {
        let mut out = String::new();
        self.write_to(&mut out);
        assert(out@ =~= book_text(self@));
        out
    }
}

} // verus!
