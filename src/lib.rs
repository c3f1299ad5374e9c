//! A small line-oriented bookmark file format: categories introduced by
//! `#` headers, each followed by `name|description|url` bookmark lines.
pub mod laws;
pub mod parser;
pub mod text;

use text::{join_with, lemma_join_append};
use vstd::prelude::*;

verus! {

/// A bookmark as values: name, description, url.
pub type BookmarkV = (Seq<char>, Seq<char>, Seq<char>);

/// A header as values: name and optional icon.
pub type HeaderV = (Seq<char>, Option<Seq<char>>);

/// A category as values: its header and its bookmarks in order.
pub type CategoryV = (HeaderV, Seq<BookmarkV>);

/// `name|description|url`
pub open spec fn bookmark_text(b: BookmarkV) -> Seq<char> {
    b.0 + seq!['|'] + b.1 + seq!['|'] + b.2
}

/// `#name|icon`, or `#name` without an icon.
pub open spec fn header_text(h: HeaderV) -> Seq<char> {
    match h.1 {
        Some(icon) => seq!['#'] + h.0 + seq!['|'] + icon,
        None => seq!['#'] + h.0,
    }
}

/// The lines of a rendered category: the header line, then one line per bookmark.
pub open spec fn category_lines(c: CategoryV) -> Seq<Seq<char>> {
    seq![header_text(c.0)] + c.1.map_values(|b: BookmarkV| bookmark_text(b))
}

pub open spec fn category_text(c: CategoryV) -> Seq<char> {
    join_with(category_lines(c), '\n')
}

/// The lines of a rendered document: the lines of each category in turn.
pub open spec fn document_lines(d: Seq<CategoryV>) -> Seq<Seq<char>>
    decreases d.len(),
{
    if d.len() == 0 {
        Seq::<Seq<char>>::empty()
    } else {
        document_lines(d.drop_last()) + category_lines(d.last())
    }
}

/// The canonical text of a document: all its lines joined by single newlines.
pub open spec fn document_text(d: Seq<CategoryV>) -> Seq<char> {
    join_with(document_lines(d), '\n')
}

/// A link to a website, with a name and a description.
#[derive(Debug, PartialEq, Clone)]
pub struct Bookmark {
    pub name: String,
    pub description: String,
    pub url: String,
}

impl View for Bookmark {
    type V = BookmarkV;

    open spec fn view(&self) -> BookmarkV {
        (self.name@, self.description@, self.url@)
    }
}

impl Bookmark {
    pub fn new(name: &str, description: &str, url: &str) -> (r: Bookmark)
        ensures
            r@ == (name@, description@, url@),
    {
        Bookmark {
            name: String::from_str(name),
            description: String::from_str(description),
            url: String::from_str(url),
        }
    }

    /// The bookmark's line: `name|description|url`.
    pub fn render(&self) -> (r: String)
        ensures
            r@ == bookmark_text(self@),
    {
        let mut out = String::new();
        out.append(self.name.as_str());
        out.append("|");
        out.append(self.description.as_str());
        out.append("|");
        out.append(self.url.as_str());
        proof {
            reveal_strlit("|");
        }
        out
    }
}

/// The title line of a category: a name and an optional icon.
#[derive(Debug, PartialEq, Clone)]
pub struct Header {
    pub name: String,
    pub icon: Option<String>,
}

pub open spec fn icon_view(icon: Option<String>) -> Option<Seq<char>> {
    match icon {
        Some(i) => Some(i@),
        None => None,
    }
}

impl View for Header {
    type V = HeaderV;

    open spec fn view(&self) -> HeaderV {
        (self.name@, icon_view(self.icon))
    }
}

impl Header {
    pub fn new(name: &str, icon: Option<&str>) -> (r: Header)
        ensures
            r@.0 == name@,
            r@.1 == match icon {
                Some(i) => Some(i@),
                None => None::<Seq<char>>,
            },
    {
        let icon = match icon {
            Some(i) => Some(String::from_str(i)),
            None => None,
        };
        Header { name: String::from_str(name), icon }
    }

    /// The header's line: `#name|icon`, or `#name` without an icon.
    pub fn render(&self) -> (r: String)
        ensures
            r@ == header_text(self@),
    {
        let mut out = String::new();
        out.append("#");
        out.append(self.name.as_str());
        match &self.icon {
            Some(icon) => {
                out.append("|");
                out.append(icon.as_str());
            },
            None => {},
        }
        proof {
            reveal_strlit("#");
            reveal_strlit("|");
        }
        out
    }
}

/// A header together with the bookmarks filed under it, in order.
#[derive(Debug, PartialEq, Clone)]
pub struct Category {
    pub header: Header,
    pub bookmarks: Vec<Bookmark>,
}

pub open spec fn bookmarks_view(bs: Seq<Bookmark>) -> Seq<BookmarkV> {
    bs.map_values(|b: Bookmark| b@)
}

impl View for Category {
    type V = CategoryV;

    open spec fn view(&self) -> CategoryV {
        (self.header@, bookmarks_view(self.bookmarks@))
    }
}

impl Category {
    /// A category with the given header and no bookmarks.
    pub fn new(header: Header) -> (r: Category)
        ensures
            r@ == (header@, Seq::<BookmarkV>::empty()),
    {
        let r = Category { header, bookmarks: Vec::new() };
        assert(bookmarks_view(r.bookmarks@) =~= Seq::<BookmarkV>::empty());
        r
    }

    /// The header line, then a line for each bookmark, joined by newlines.
    pub fn render(&self) -> (r: String)
        ensures
            r@ == category_text(self@),
    {
        let mut out = self.header.render();
        let mut i: usize = 0;
        while i < self.bookmarks.len()
            invariant
                i <= self.bookmarks@.len(),
                out@ == join_with(
                    category_lines((self.header@, bookmarks_view(self.bookmarks@.take(i as int)))),
                    '\n',
                ),
            decreases self.bookmarks@.len() - i,
        {
            let line = self.bookmarks[i].render();
            out.append("\n");
            out.append(line.as_str());
            proof {
                reveal_strlit("\n");
                let before = category_lines(
                    (self.header@, bookmarks_view(self.bookmarks@.take(i as int))),
                );
                let after = category_lines(
                    (self.header@, bookmarks_view(self.bookmarks@.take(i + 1))),
                );
                assert(after =~= before.push(bookmark_text(self.bookmarks@[i as int]@)));
                assert(after.drop_last() =~= before);
            }
            i = i + 1;
        }
        assert(self.bookmarks@.take(i as int) =~= self.bookmarks@);
        out
    }
}

/// A bookmark document: its categories, in order.
#[derive(Debug, PartialEq, Clone)]
pub struct Sbm(pub Vec<Category>);

pub open spec fn categories_view(cs: Seq<Category>) -> Seq<CategoryV> {
    cs.map_values(|c: Category| c@)
}

impl View for Sbm {
    type V = Seq<CategoryV>;

    open spec fn view(&self) -> Seq<CategoryV> {
        categories_view(self.0@)
    }
}

impl Sbm {
    pub fn new(categories: Vec<Category>) -> (r: Sbm)
        ensures
            r@ == categories_view(categories@),
    {
        Sbm(categories)
    }

    /// The canonical text: each category's rendering, joined by single newlines.
    pub fn render(&self) -> (r: String)
        ensures
            r@ == document_text(self@),
    {
        let mut out = String::new();
        let mut i: usize = 0;
        while i < self.0.len()
            invariant
                i <= self.0@.len(),
                out@ == document_text(categories_view(self.0@.take(i as int))),
            decreases self.0@.len() - i,
        {
            let part = self.0[i].render();
            let ghost prev = categories_view(self.0@.take(i as int));
            let ghost next = categories_view(self.0@.take(i + 1));
            proof {
                assert(next.drop_last() =~= prev);
                assert(next.last() == self.0@[i as int]@);
            }
            if i > 0 {
                out.append("\n");
                proof {
                    reveal_strlit("\n");
                    lemma_document_lines_nonempty(prev);
                    lemma_join_append(document_lines(prev), category_lines(next.last()), '\n');
                }
            } else {
                assert(document_lines(prev) =~= Seq::<Seq<char>>::empty());
                assert(document_lines(next) =~= category_lines(next.last()));
            }
            out.append(part.as_str());
            i = i + 1;
        }
        assert(self.0@.take(i as int) =~= self.0@);
        out
    }
}

pub proof fn lemma_document_lines_nonempty(d: Seq<CategoryV>)
    requires
        d.len() > 0,
    ensures
        document_lines(d).len() > 0,
{
    assert(document_lines(d) == document_lines(d.drop_last()) + category_lines(d.last()));
}

} // verus!
