//! The parser: classifies each line, splits fields on `|`, and groups
//! bookmarks under the most recent header.
use crate::text::{split_bounds, split_on, string_of, to_chars, trim, trim_bounds};
use crate::{
    bookmarks_view, categories_view, Bookmark, BookmarkV, Category, CategoryV, Header, HeaderV,
    Sbm,
};
use vstd::prelude::*;

verus! {

/// Why a text is not a bookmark document.
#[derive(Debug, Clone, Copy, PartialEq, Eq, Structural)]
pub enum ParseError {
    /// A bookmark line did not have exactly three `|`-separated fields.
    MalformedBookmark,
    /// A header line did not have one or two `|`-separated fields.
    MalformedHeader,
    /// A bookmark line came before any header.
    BookmarkBeforeHeader,
}

impl ParseError {
    /// A short description of the error, for people.
    pub fn message(&self) -> (r: &'static str)
        ensures
            r@ == match self {
                ParseError::MalformedBookmark => "bookmark line does not have three fields"@,
                ParseError::MalformedHeader => "header line does not have one or two fields"@,
                ParseError::BookmarkBeforeHeader => "bookmark line comes before any header"@,
            },
    {
        match self {
            ParseError::MalformedBookmark => "bookmark line does not have three fields",
            ParseError::MalformedHeader => "header line does not have one or two fields",
            ParseError::BookmarkBeforeHeader => "bookmark line comes before any header",
        }
    }
}

/// A line whose first two characters are `//`.
pub open spec fn is_comment(l: Seq<char>) -> bool {
    l.len() >= 2 && l[0] == '/' && l[1] == '/'
}

/// A line holding nothing but ASCII whitespace.
pub open spec fn is_blank(l: Seq<char>) -> bool {
    trim(l).len() == 0
}

pub open spec fn is_skipped(l: Seq<char>) -> bool {
    is_comment(l) || is_blank(l)
}

pub open spec fn is_header_line(l: Seq<char>) -> bool {
    l.len() > 0 && l[0] == '#'
}

/// The text of a header line after its `#`.
pub open spec fn header_body(l: Seq<char>) -> Seq<char> {
    l.subrange(1, l.len() as int)
}

/// The `|`-separated fields of `s`, each trimmed.
pub open spec fn trimmed_fields(s: Seq<char>) -> Seq<Seq<char>> {
    split_on(s, '|').map_values(|f: Seq<char>| trim(f))
}

/// A header body: one field is a name, two are a name and an icon.
pub open spec fn header_spec(body: Seq<char>) -> Result<HeaderV, ParseError> {
    let f = trimmed_fields(body);
    if f.len() == 1 {
        Ok((f[0], None))
    } else if f.len() == 2 {
        Ok((f[0], Some(f[1])))
    } else {
        Err(ParseError::MalformedHeader)
    }
}

/// A bookmark line: exactly three fields, name, description and url.
pub open spec fn bookmark_spec(line: Seq<char>) -> Result<BookmarkV, ParseError> {
    let f = trimmed_fields(line);
    if f.len() == 3 {
        Ok((f[0], f[1], f[2]))
    } else {
        Err(ParseError::MalformedBookmark)
    }
}

/// One line's effect on the categories read so far; the last one is still open.
pub open spec fn step(cats: Seq<CategoryV>, l: Seq<char>) -> Result<Seq<CategoryV>, ParseError> {
    if is_skipped(l) {
        Ok(cats)
    } else if is_header_line(l) {
        match header_spec(header_body(l)) {
            Ok(h) => Ok(cats.push((h, Seq::<BookmarkV>::empty()))),
            Err(e) => Err(e),
        }
    } else if cats.len() == 0 {
        Err(ParseError::BookmarkBeforeHeader)
    } else {
        match bookmark_spec(l) {
            Ok(b) => Ok(cats.update(cats.len() - 1, (cats.last().0, cats.last().1.push(b)))),
            Err(e) => Err(e),
        }
    }
}

/// The lines taken in order from `cats`; the first error ends the run.
pub open spec fn run(cats: Seq<CategoryV>, ls: Seq<Seq<char>>) -> Result<
    Seq<CategoryV>,
    ParseError,
>
    decreases ls.len(),
{
    if ls.len() == 0 {
        Ok(cats)
    } else {
        match run(cats, ls.drop_last()) {
            Ok(c) => step(c, ls.last()),
            Err(e) => Err(e),
        }
    }
}

pub open spec fn parse_lines(ls: Seq<Seq<char>>) -> Result<Seq<CategoryV>, ParseError> {
    run(Seq::<CategoryV>::empty(), ls)
}

/// The lines of a text, split on `\n`. After a final newline this gives one more, empty,
/// line: it is blank, so the parse is the same as without it.
pub open spec fn lines_of(t: Seq<char>) -> Seq<Seq<char>> {
    split_on(t, '\n')
}

/// What a whole text parses to.
pub open spec fn parse_text(t: Seq<char>) -> Result<Seq<CategoryV>, ParseError> {
    parse_lines(lines_of(t))
}

/// Once a run has failed on a prefix, the whole run fails the same way.
pub proof fn lemma_run_err_prefix(cats: Seq<CategoryV>, ls: Seq<Seq<char>>, k: int)
    requires
        0 <= k <= ls.len(),
        run(cats, ls.take(k)) is Err,
    ensures
        run(cats, ls) == run(cats, ls.take(k)),
    decreases ls.len(),
{
    if k == ls.len() {
        assert(ls.take(k) =~= ls);
    } else {
        assert(ls.drop_last().take(k) =~= ls.take(k));
        lemma_run_err_prefix(cats, ls.drop_last(), k);
    }
}

/// Split a line on `|`.
pub fn split_pipe(line: &str) -> (r: Vec<&str>)
    ensures
        r@.len() == split_on(line@, '|').len(),
        forall|k: int| 0 <= k < r@.len() ==> (#[trigger] r@[k])@ == split_on(line@, '|')[k],
{
    let chars = to_chars(line);
    let n = chars.len();
    assert(chars@.subrange(0, n as int) =~= line@);
    let bounds = split_bounds(&chars, 0, n, '|');
    let mut parts: Vec<&str> = Vec::new();
    let mut k: usize = 0;
    while k < bounds.len()
        invariant
            k <= bounds@.len(),
            chars@ == line@,
            n == chars@.len(),
            bounds@.len() == split_on(line@, '|').len(),
            forall|j: int|
                0 <= j < bounds@.len() ==> {
                    &&& 0 <= (#[trigger] bounds@[j]).0 <= bounds@[j].1 <= n
                    &&& chars@.subrange(bounds@[j].0 as int, bounds@[j].1 as int) == split_on(
                        line@,
                        '|',
                    )[j]
                },
            parts@.len() == k,
            forall|j: int| 0 <= j < k ==> (#[trigger] parts@[j])@ == split_on(line@, '|')[j],
        decreases bounds@.len() - k,
    {
        let (a, b) = bounds[k];
        parts.push(line.substring_char(a, b));
        k = k + 1;
    }
    parts
}

/// The field `trim(s[lo..hi])` as a string.
fn field_at(s: &Vec<char>, lo: usize, hi: usize) -> (r: String)
    requires
        lo <= hi <= s@.len(),
    ensures
        r@ == trim(s@.subrange(lo as int, hi as int)),
{
    let (a, b) = trim_bounds(s, lo, hi);
    string_of(s, a, b)
}

/// The bookmark on the line `s[lo..hi]`.
fn bookmark_at(s: &Vec<char>, lo: usize, hi: usize) -> (r: Result<Bookmark, ParseError>)
    requires
        lo <= hi <= s@.len(),
    ensures
        match r {
            Ok(b) => bookmark_spec(s@.subrange(lo as int, hi as int)) == Ok::<
                BookmarkV,
                ParseError,
            >(b@),
            Err(e) => bookmark_spec(s@.subrange(lo as int, hi as int)) == Err::<
                BookmarkV,
                ParseError,
            >(e),
        },
{
    let ghost line = s@.subrange(lo as int, hi as int);
    let bounds = split_bounds(s, lo, hi, '|');
    if bounds.len() != 3 {
        return Err(ParseError::MalformedBookmark);
    }
    let (a0, b0) = bounds[0];
    let (a1, b1) = bounds[1];
    let (a2, b2) = bounds[2];
    let name = field_at(s, a0, b0);
    let description = field_at(s, a1, b1);
    let url = field_at(s, a2, b2);
    let r = Bookmark { name, description, url };
    assert(r@ == (
        trimmed_fields(line)[0],
        trimmed_fields(line)[1],
        trimmed_fields(line)[2],
    ));
    Ok(r)
}

/// The header whose body (the text after `#`) is `s[lo..hi]`.
fn header_at(s: &Vec<char>, lo: usize, hi: usize) -> (r: Result<Header, ParseError>)
    requires
        lo <= hi <= s@.len(),
    ensures
        match r {
            Ok(h) => header_spec(s@.subrange(lo as int, hi as int)) == Ok::<HeaderV, ParseError>(
                h@,
            ),
            Err(e) => header_spec(s@.subrange(lo as int, hi as int)) == Err::<
                HeaderV,
                ParseError,
            >(e),
        },
{
    let ghost body = s@.subrange(lo as int, hi as int);
    let bounds = split_bounds(s, lo, hi, '|');
    if bounds.len() != 1 && bounds.len() != 2 {
        return Err(ParseError::MalformedHeader);
    }
    let (a0, b0) = bounds[0];
    let name = field_at(s, a0, b0);
    let icon = if bounds.len() == 2 {
        let (a1, b1) = bounds[1];
        Some(field_at(s, a1, b1))
    } else {
        None
    };
    let r = Header { name, icon };
    assert(r@.0 == trimmed_fields(body)[0]);
    Ok(r)
}

/// Parse a bookmark line: `name|description|url`, each field trimmed.
pub fn parse_bookmark(line: &str) -> (r: Result<Bookmark, ParseError>)
    ensures
        match r {
            Ok(b) => bookmark_spec(line@) == Ok::<BookmarkV, ParseError>(b@),
            Err(e) => bookmark_spec(line@) == Err::<BookmarkV, ParseError>(e),
        },
{
    let chars = to_chars(line);
    assert(chars@.subrange(0, chars@.len() as int) =~= line@);
    bookmark_at(&chars, 0, chars.len())
}

/// Parse a header body, the text after `#`: `name` or `name|icon`, each field trimmed.
pub fn parse_header(line: &str) -> (r: Result<Header, ParseError>)
    ensures
        match r {
            Ok(h) => header_spec(line@) == Ok::<HeaderV, ParseError>(h@),
            Err(e) => header_spec(line@) == Err::<HeaderV, ParseError>(e),
        },
{
    let chars = to_chars(line);
    assert(chars@.subrange(0, chars@.len() as int) =~= line@);
    header_at(&chars, 0, chars.len())
}

/// The categories read so far: the closed ones, then the open one if any.
pub open spec fn state_view(done: Seq<Category>, cur: Option<Category>) -> Seq<CategoryV> {
    match cur {
        Some(c) => categories_view(done).push(c@),
        None => categories_view(done),
    }
}

/// Parse a whole bookmark text into its categories, in order.
pub fn parse_categories(data: &str) -> (r: Result<Vec<Category>, ParseError>)
    ensures
        match r {
            Ok(cs) => parse_text(data@) == Ok::<Seq<CategoryV>, ParseError>(
                categories_view(cs@),
            ),
            Err(e) => parse_text(data@) == Err::<Seq<CategoryV>, ParseError>(e),
        },
{
    let chars = to_chars(data);
    let n = chars.len();
    assert(chars@.subrange(0, n as int) =~= data@);
    let lines = split_bounds(&chars, 0, n, '\n');
    let ghost ls = lines_of(data@);
    let mut done: Vec<Category> = Vec::new();
    let mut cur: Option<Category> = None;
    let mut k: usize = 0;
    assert(ls.take(0) =~= Seq::<Seq<char>>::empty());
    assert(categories_view(done@) =~= Seq::<CategoryV>::empty());
    while k < lines.len()
        invariant
            k <= lines@.len(),
            n == chars@.len(),
            ls == lines_of(data@),
            lines@.len() == ls.len(),
            forall|j: int|
                0 <= j < lines@.len() ==> {
                    &&& 0 <= (#[trigger] lines@[j]).0 <= lines@[j].1 <= n
                    &&& chars@.subrange(lines@[j].0 as int, lines@[j].1 as int) == ls[j]
                },
            cur is None ==> done@.len() == 0,
            run(Seq::<CategoryV>::empty(), ls.take(k as int)) == Ok::<
                Seq<CategoryV>,
                ParseError,
            >(state_view(done@, cur)),
        decreases lines@.len() - k,
    {
        let (a, b) = lines[k];
        let ghost l = ls[k as int];
        let ghost before = state_view(done@, cur);
        proof {
            assert(ls.take(k + 1).drop_last() =~= ls.take(k as int));
            assert(ls.take(k + 1).last() == l);
            assert(chars@.subrange(a as int, b as int) == l);
        }
        let comment = b - a >= 2 && chars[a] == '/' && chars[a + 1] == '/';
        let (ta, tb) = trim_bounds(&chars, a, b);
        if comment || ta == tb {
            assert(is_skipped(l));
        } else if chars[a] == '#' {
            assert(!is_skipped(l));
            assert(is_header_line(l));
            assert(header_body(l) =~= chars@.subrange(a + 1, b as int));
            match header_at(&chars, a + 1, b) {
                Ok(h) => {
                    let fresh = Category::new(h);
                    match cur {
                        Some(c) => {
                            done.push(c);
                        },
                        None => {},
                    }
                    cur = Some(fresh);
                    assert(state_view(done@, cur) =~= before.push(fresh@));
                },
                Err(e) => {
                    proof {
                        assert(run(Seq::<CategoryV>::empty(), ls.take(k + 1)) == step(before, l));
                        lemma_run_err_prefix(Seq::<CategoryV>::empty(), ls, k + 1);
                    }
                    return Err(e);
                },
            }
        } else {
            assert(!is_skipped(l));
            assert(!is_header_line(l));
            match cur {
                None => {
                    proof {
                        assert(run(Seq::<CategoryV>::empty(), ls.take(k + 1)) == step(before, l));
                        lemma_run_err_prefix(Seq::<CategoryV>::empty(), ls, k + 1);
                    }
                    return Err(ParseError::BookmarkBeforeHeader);
                },
                Some(c) => {
                    assert(chars@.subrange(a as int, b as int) == l);
                    match bookmark_at(&chars, a, b) {
                        Ok(bm) => {
                            let mut c = c;
                            let ghost old_bs = c.bookmarks@;
                            c.bookmarks.push(bm);
                            assert(bookmarks_view(c.bookmarks@) =~= bookmarks_view(old_bs).push(
                                bm@,
                            ));
                            cur = Some(c);
                            assert(state_view(done@, cur) =~= before.update(
                                before.len() - 1,
                                (before.last().0, before.last().1.push(bm@)),
                            ));
                        },
                        Err(e) => {
                            proof {
                                assert(run(Seq::<CategoryV>::empty(), ls.take(k + 1)) == step(before, l));
                        lemma_run_err_prefix(Seq::<CategoryV>::empty(), ls, k + 1);
                            }
                            return Err(e);
                        },
                    }
                },
            }
        }
        k = k + 1;
    }
    assert(ls.take(k as int) =~= ls);
    let ghost closed = done@;
    match cur {
        Some(c) => {
            done.push(c);
            assert(categories_view(done@) =~= categories_view(closed).push(c@));
        },
        None => {},
    }
    Ok(done)
}

impl Sbm {
    /// Parse a whole bookmark text into a document.
    pub fn parse(data: &str) -> (r: Result<Sbm, ParseError>)
        ensures
            match r {
                Ok(d) => parse_text(data@) == Ok::<Seq<CategoryV>, ParseError>(d@),
                Err(e) => parse_text(data@) == Err::<Seq<CategoryV>, ParseError>(e),
            },
    {
        match parse_categories(data) {
            Ok(cs) => Ok(Sbm(cs)),
            Err(e) => Err(e),
        }
    }
}

} // verus!
