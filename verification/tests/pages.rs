use book_registry::book::Book;
use book_registry::pages::{
    delete_books_id, get_books, get_books_id, get_books_id_form, post_books_id_form, put_books,
    render_list,
};
use book_registry::registry::Registry;

#[test]
fn get_books_lists_the_seed_in_title_order() {
    let r = Registry::seeded();
    assert_eq!(
        get_books(&r),
        "<p>Book { id: 1, title: \"Antigone\", author: \"Sophocles\" }</p>\n\
         <p>Book { id: 2, title: \"Beloved\", author: \"Toni Morrison\" }</p>\n\
         <p>Book { id: 3, title: \"Candide\", author: \"Voltaire\" }</p>\n"
    );
}

#[test]
fn get_books_of_an_empty_registry_is_empty() {
    assert_eq!(get_books(&Registry::new()), "");
}

#[test]
fn render_list_keeps_the_given_order() {
    let books = vec![Book::new(2, "b", "y"), Book::new(1, "a", "x")];
    assert_eq!(
        render_list(&books),
        "<p>Book { id: 2, title: \"b\", author: \"y\" }</p>\n<p>Book { id: 1, title: \"a\", author: \"x\" }</p>\n"
    );
}

#[test]
fn put_books_stores_and_confirms() {
    let mut r = Registry::seeded();
    let out = put_books(&mut r, Book::new(4, "Dune", "Herbert"));
    assert_eq!(out, "put book: Book { id: 4, title: \"Dune\", author: \"Herbert\" }");
    assert_eq!(
        get_books_id(&r, 4),
        "<p>Book { id: 4, title: \"Dune\", author: \"Herbert\" }</p>\n"
    );
    let out = put_books(&mut r, Book::new(4, "Dune Messiah", "Herbert"));
    assert_eq!(
        out,
        "put book: Book { id: 4, title: \"Dune Messiah\", author: \"Herbert\" }"
    );
    assert_eq!(r.list().len(), 4);
}

#[test]
fn get_books_id_found_and_missing() {
    let r = Registry::seeded();
    assert_eq!(
        get_books_id(&r, 2),
        "<p>Book { id: 2, title: \"Beloved\", author: \"Toni Morrison\" }</p>\n"
    );
    assert_eq!(get_books_id(&r, 20), "Book id 20 not found");
}

#[test]
fn delete_books_id_found_then_missing() {
    let mut r = Registry::seeded();
    assert_eq!(delete_books_id(&mut r, 2), "delete book id: 2");
    assert_eq!(get_books_id(&r, 2), "Book id 2 not found");
    let before = get_books(&r);
    assert_eq!(delete_books_id(&mut r, 2), "book id: 2 not found");
    assert_eq!(get_books(&r), before);
}

#[test]
fn get_books_id_form_found_and_missing() {
    let r = Registry::seeded();
    assert_eq!(
        get_books_id_form(&r, 3),
        "<form method=\"post\" action=\"/books/3/form\">\n\
         <input type=\"hidden\" name=\"id\" value=\"3\">\n\
         <p><input type=\"text\" name=\"title\" value=\"Candide\"></p>\n\
         <p><input type=\"text\" name=\"author\" value=\"Voltaire\"></p>\n\
         <input type=\"submit\" value=\"Save\" >\n\
         </form>\n"
    );
    assert_eq!(get_books_id_form(&r, 30), "<p>Book id 30 not found</p>");
}

#[test]
fn post_books_id_form_updates_only_what_exists() {
    let mut r = Registry::seeded();
    assert_eq!(
        post_books_id_form(&mut r, Book::new(1, "Ajax", "Sophocles")),
        "update book: Book { id: 1, title: \"Ajax\", author: \"Sophocles\" }"
    );
    assert_eq!(r.get(1).unwrap().title, "Ajax");
    let before = get_books(&r);
    assert_eq!(
        post_books_id_form(&mut r, Book::new(11, "Ajax", "Sophocles")),
        "Book id not found: 11"
    );
    assert!(r.get(11).is_none());
    assert_eq!(get_books(&r), before);
}
