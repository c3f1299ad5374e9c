//! Laws of the format: rendering and parsing agree, the parser keeps the
//! order of its input, and ignores layout that carries no data.
use crate::parser::{
    bookmark_spec, header_body, header_spec, is_blank, is_comment, is_header_line, is_skipped,
    lemma_run_err_prefix, lines_of, parse_text, run, step, trimmed_fields,
    ParseError,
};
use crate::text::{
    is_ascii_ws, lemma_split_join, lemma_split_on_chars, lemma_split_on_concat,
    lemma_split_on_single, lemma_trim_empty, lemma_trim_trimmed, split_on,
    trim,
};
use crate::{
    bookmark_text, category_lines, document_lines, document_text, header_text,
    lemma_document_lines_nonempty, BookmarkV, CategoryV, HeaderV,
};
use vstd::prelude::*;

verus! {

/// A field that survives rendering: trimmed, with no `|` and no newline.
pub open spec fn plain_field(f: Seq<char>) -> bool {
    &&& trim(f) == f
    &&& forall|i: int| 0 <= i < f.len() ==> f[i] != '|' && f[i] != '\n'
}

pub open spec fn plain_header(h: HeaderV) -> bool {
    &&& plain_field(h.0)
    &&& match h.1 {
        Some(icon) => plain_field(icon),
        None => true,
    }
}

pub open spec fn plain_bookmark(b: BookmarkV) -> bool {
    plain_field(b.0) && plain_field(b.1) && plain_field(b.2)
}

pub open spec fn plain_category(c: CategoryV) -> bool {
    &&& plain_header(c.0)
    &&& forall|j: int| 0 <= j < c.1.len() ==> plain_bookmark(#[trigger] c.1[j])
}

/// Every field of the document is plain.
pub open spec fn plain_document(d: Seq<CategoryV>) -> bool {
    forall|i: int| 0 <= i < d.len() ==> plain_category(#[trigger] d[i])
}

/// A bookmark name that, at the start of a line, reads neither as a header nor as a comment.
pub open spec fn name_reads_back(b: BookmarkV) -> bool {
    !is_header_line(b.0) && !is_comment(b.0)
}

pub open spec fn names_read_back(d: Seq<CategoryV>) -> bool {
    forall|i: int, j: int|
        0 <= i < d.len() && 0 <= j < d[i].1.len() ==> name_reads_back(#[trigger] d[i].1[j])
}

/// Running over two blocks of lines is running over the first, then the second.
pub proof fn lemma_run_concat(acc: Seq<CategoryV>, a: Seq<Seq<char>>, b: Seq<Seq<char>>)
    ensures
        run(acc, a + b) == match run(acc, a) {
            Ok(c) => run(c, b),
            Err(e) => Err(e),
        },
    decreases b.len(),
{
    if b.len() == 0 {
        assert(a + b =~= a);
    } else {
        lemma_run_concat(acc, a, b.drop_last());
        assert((a + b).drop_last() =~= a + b.drop_last());
    }
}

/// The rendered bookmark line splits into exactly its three fields.
pub proof fn lemma_bookmark_fields(b: BookmarkV)
    requires
        plain_bookmark(b),
    ensures
        split_on(bookmark_text(b), '|') == seq![b.0, b.1, b.2],
{
    let rest = b.1 + seq!['|'] + b.2;
    assert(bookmark_text(b) =~= b.0 + seq!['|'] + rest);
    lemma_split_on_concat(b.0, rest, '|');
    lemma_split_on_concat(b.1, b.2, '|');
    lemma_split_on_single(b.0, '|');
    lemma_split_on_single(b.1, '|');
    lemma_split_on_single(b.2, '|');
    assert(split_on(bookmark_text(b), '|') =~= seq![b.0, b.1, b.2]);
}

/// The body of the rendered header line splits into its name, then its icon if it has one.
pub proof fn lemma_header_fields(h: HeaderV)
    requires
        plain_header(h),
    ensures
        split_on(header_body(header_text(h)), '|') == match h.1 {
            Some(icon) => seq![h.0, icon],
            None => seq![h.0],
        },
{
    let l = header_text(h);
    lemma_split_on_single(h.0, '|');
    match h.1 {
        Some(icon) => {
            assert(header_body(l) =~= h.0 + seq!['|'] + icon);
            lemma_split_on_concat(h.0, icon, '|');
            lemma_split_on_single(icon, '|');
            assert(split_on(header_body(l), '|') =~= seq![h.0, icon]);
        },
        None => {
            assert(header_body(l) =~= h.0);
        },
    }
}

proof fn lemma_header_line(h: HeaderV)
    requires
        plain_header(h),
    ensures
        !is_skipped(header_text(h)),
        is_header_line(header_text(h)),
        header_spec(header_body(header_text(h))) == Ok::<HeaderV, ParseError>(h),
{
    let l = header_text(h);
    assert(l[0] == '#');
    if is_blank(l) {
        lemma_trim_empty(l);
        assert(is_ascii_ws(l[0]));
    }
    lemma_header_fields(h);
    match h.1 {
        Some(icon) => {
            assert(trimmed_fields(header_body(l)) =~= seq![h.0, icon]);
        },
        None => {
            assert(trimmed_fields(header_body(l)) =~= seq![h.0]);
        },
    }
}

proof fn lemma_bookmark_line(b: BookmarkV)
    requires
        plain_bookmark(b),
        name_reads_back(b),
    ensures
        !is_skipped(bookmark_text(b)),
        !is_header_line(bookmark_text(b)),
        bookmark_spec(bookmark_text(b)) == Ok::<BookmarkV, ParseError>(b),
{
    let l = bookmark_text(b);
    let n = b.0.len() as int;
    assert(l[n] == '|');
    if is_blank(l) {
        lemma_trim_empty(l);
        assert(is_ascii_ws(l[n]));
    }
    if n >= 2 {
        assert(l[0] == b.0[0] && l[1] == b.0[1]);
    } else if n == 1 {
        assert(l[0] == b.0[0] && l[1] == '|');
    } else {
        assert(l[0] == '|');
    }
    lemma_bookmark_fields(b);
    assert(trimmed_fields(l) =~= seq![b.0, b.1, b.2]);
}

proof fn lemma_run_category(acc: Seq<CategoryV>, c: CategoryV)
    requires
        plain_category(c),
        forall|j: int| 0 <= j < c.1.len() ==> name_reads_back(#[trigger] c.1[j]),
    ensures
        run(acc, category_lines(c)) == Ok::<Seq<CategoryV>, ParseError>(acc.push(c)),
    decreases c.1.len(),
{
    lemma_header_line(c.0);
    if c.1.len() == 0 {
        let ls = category_lines(c);
        assert(ls =~= seq![header_text(c.0)]);
        assert(ls.drop_last() =~= Seq::<Seq<char>>::empty());
        assert(c.1 =~= Seq::<BookmarkV>::empty());
        assert(run(acc, ls.drop_last()) == Ok::<Seq<CategoryV>, ParseError>(acc));
        assert(step(acc, header_text(c.0)) == Ok::<Seq<CategoryV>, ParseError>(
            acc.push((c.0, Seq::<BookmarkV>::empty())),
        ));
        assert((c.0, Seq::<BookmarkV>::empty()) == c);
    } else {
        let prev: CategoryV = (c.0, c.1.drop_last());
        assert forall|j: int| 0 <= j < prev.1.len() implies plain_bookmark(#[trigger] prev.1[j])
            && name_reads_back(prev.1[j]) by {
            assert(prev.1[j] == c.1[j]);
        }
        lemma_run_category(acc, prev);
        assert(plain_bookmark(c.1[c.1.len() - 1]));
        assert(name_reads_back(c.1[c.1.len() - 1]));
        lemma_bookmark_line(c.1.last());
        assert(category_lines(c).drop_last() =~= category_lines(prev));
        assert(category_lines(c).last() == bookmark_text(c.1.last()));
        assert(prev.1.push(c.1.last()) =~= c.1);
        assert((c.0, prev.1.push(c.1.last())) == c);
        assert(acc.push(prev).update(acc.len() as int, (c.0, prev.1.push(c.1.last()))) =~= acc.push(
            c,
        ));
    }
}

proof fn lemma_run_document(d: Seq<CategoryV>)
    requires
        plain_document(d),
        names_read_back(d),
    ensures
        run(Seq::<CategoryV>::empty(), document_lines(d)) == Ok::<Seq<CategoryV>, ParseError>(d),
    decreases d.len(),
{
    if d.len() == 0 {
        assert(d =~= Seq::<CategoryV>::empty());
    } else {
        let init = d.drop_last();
        assert forall|i: int| 0 <= i < init.len() implies plain_category(#[trigger] init[i]) by {
            assert(init[i] == d[i]);
        }
        assert forall|i: int, j: int| 0 <= i < init.len() && 0 <= j < init[i].1.len() implies name_reads_back(
            #[trigger] init[i].1[j],
        ) by {
            assert(init[i] == d[i]);
        }
        lemma_run_document(init);
        lemma_run_concat(Seq::<CategoryV>::empty(), document_lines(init), category_lines(d.last()));
        assert(plain_category(d[d.len() - 1]));
        assert forall|j: int| 0 <= j < d.last().1.len() implies name_reads_back(
            #[trigger] d.last().1[j],
        ) by {
            assert(name_reads_back(d[d.len() - 1].1[j]));
        }
        lemma_run_category(init, d.last());
        assert(init.push(d.last()) =~= d);
    }
}

proof fn lemma_header_text_chars(h: HeaderV)
    requires
        plain_header(h),
    ensures
        forall|i: int| 0 <= i < header_text(h).len() ==> header_text(h)[i] != '\n',
{
    let l = header_text(h);
    let n = h.0.len() as int;
    assert forall|i: int| 0 <= i < l.len() implies l[i] != '\n' by {
        if 1 <= i < 1 + n {
            assert(l[i] == h.0[i - 1]);
        } else if i > 1 + n {
            match h.1 {
                Some(icon) => {
                    assert(l[i] == icon[i - 2 - n]);
                },
                None => {},
            }
        }
    }
}

proof fn lemma_bookmark_text_chars(b: BookmarkV)
    requires
        plain_bookmark(b),
    ensures
        forall|i: int| 0 <= i < bookmark_text(b).len() ==> bookmark_text(b)[i] != '\n',
{
    let l = bookmark_text(b);
    let n0 = b.0.len() as int;
    let n1 = b.1.len() as int;
    assert forall|i: int| 0 <= i < l.len() implies l[i] != '\n' by {
        if i < n0 {
            assert(l[i] == b.0[i]);
        } else if n0 < i < n0 + 1 + n1 {
            assert(l[i] == b.1[i - n0 - 1]);
        } else if i > n0 + 1 + n1 {
            assert(l[i] == b.2[i - n0 - 2 - n1]);
        }
    }
}

proof fn lemma_document_lines_chars(d: Seq<CategoryV>)
    requires
        plain_document(d),
    ensures
        forall|k: int, i: int|
            0 <= k < document_lines(d).len() && 0 <= i < document_lines(d)[k].len()
                ==> document_lines(d)[k][i] != '\n',
    decreases d.len(),
{
    if d.len() > 0 {
        let init = d.drop_last();
        assert forall|i: int| 0 <= i < init.len() implies plain_category(#[trigger] init[i]) by {
            assert(init[i] == d[i]);
        }
        lemma_document_lines_chars(init);
        let c = d.last();
        assert(plain_category(d[d.len() - 1]));
        let prev = document_lines(init);
        let cl = category_lines(c);
        lemma_header_text_chars(c.0);
        assert forall|k: int, i: int|
            0 <= k < document_lines(d).len() && 0 <= i < document_lines(d)[k].len() implies document_lines(
            d,
        )[k][i] != '\n' by {
            if k < prev.len() {
                assert(document_lines(d)[k] == prev[k]);
            } else {
                let m = k - prev.len();
                assert(document_lines(d)[k] == cl[m]);
                if m > 0 {
                    assert(plain_bookmark(c.1[m - 1]));
                    lemma_bookmark_text_chars(c.1[m - 1]);
                }
            }
        }
    }
}

/// A document whose fields are trimmed and hold no `|` and no newline, and whose bookmark
/// names start with neither `#` nor `//`, is parsed back from its rendering unchanged.
pub proof fn lemma_render_then_parse(d: Seq<CategoryV>)
    requires
        plain_document(d),
        names_read_back(d),
    ensures
        parse_text(document_text(d)) == Ok::<Seq<CategoryV>, ParseError>(d),
{
    if d.len() == 0 {
        assert(d =~= Seq::<CategoryV>::empty());
        assert(document_lines(d) =~= Seq::<Seq<char>>::empty());
        let ls = lines_of(document_text(d));
        assert(ls =~= seq![Seq::<char>::empty()]);
        assert(ls.drop_last() =~= Seq::<Seq<char>>::empty());
        assert(is_blank(Seq::<char>::empty()));
        assert(run(Seq::<CategoryV>::empty(), ls.drop_last()) == Ok::<Seq<CategoryV>, ParseError>(
            Seq::<CategoryV>::empty(),
        ));
        assert(step(Seq::<CategoryV>::empty(), ls.last()) == Ok::<Seq<CategoryV>, ParseError>(d));
    } else {
        lemma_document_lines_nonempty(d);
        lemma_document_lines_chars(d);
        lemma_split_join(document_lines(d), '\n');
        lemma_run_document(d);
    }
}

/// Each trimmed field of a line without newlines is plain.
proof fn lemma_fields_plain(s: Seq<char>)
    requires
        forall|i: int| 0 <= i < s.len() ==> s[i] != '\n',
    ensures
        forall|k: int| 0 <= k < trimmed_fields(s).len() ==> plain_field(#[trigger] trimmed_fields(s)[k]),
{
    let p = |c: char| c != '|' && c != '\n';
    lemma_split_on_chars(s, '|', |c: char| c != '\n');
    assert forall|k: int| 0 <= k < trimmed_fields(s).len() implies plain_field(
        #[trigger] trimmed_fields(s)[k],
    ) by {
        let piece = split_on(s, '|')[k];
        assert forall|i: int| 0 <= i < piece.len() implies p(piece[i]) by {}
        lemma_trim_trimmed(piece, p);
    }
}

proof fn lemma_step_plain(cats: Seq<CategoryV>, l: Seq<char>, d: Seq<CategoryV>)
    requires
        plain_document(cats),
        forall|i: int| 0 <= i < l.len() ==> l[i] != '\n',
        step(cats, l) == Ok::<Seq<CategoryV>, ParseError>(d),
    ensures
        plain_document(d),
{
    if !is_skipped(l) {
        if is_header_line(l) {
            let body = header_body(l);
            assert forall|i: int| 0 <= i < body.len() implies body[i] != '\n' by {
                assert(body[i] == l[i + 1]);
            }
            lemma_fields_plain(body);
            assert(plain_field(trimmed_fields(body)[0]));
            if trimmed_fields(body).len() == 2 {
                assert(plain_field(trimmed_fields(body)[1]));
            }
            assert forall|i: int| 0 <= i < d.len() implies plain_category(#[trigger] d[i]) by {
                if i < cats.len() {
                    assert(d[i] == cats[i]);
                }
            }
        } else {
            lemma_fields_plain(l);
            let f = trimmed_fields(l);
            assert(plain_field(f[0]) && plain_field(f[1]) && plain_field(f[2]));
            let last = cats.len() - 1;
            assert(plain_category(cats[last]));
            assert forall|i: int| 0 <= i < d.len() implies plain_category(#[trigger] d[i]) by {
                if i < last {
                    assert(d[i] == cats[i]);
                } else {
                    assert forall|j: int| 0 <= j < d[i].1.len() implies plain_bookmark(
                        #[trigger] d[i].1[j],
                    ) by {
                        if j < cats[last].1.len() {
                            assert(d[i].1[j] == cats[last].1[j]);
                        }
                    }
                }
            }
        }
    }
}

proof fn lemma_run_plain(acc: Seq<CategoryV>, ls: Seq<Seq<char>>, d: Seq<CategoryV>)
    requires
        plain_document(acc),
        forall|k: int, i: int| 0 <= k < ls.len() && 0 <= i < ls[k].len() ==> ls[k][i] != '\n',
        run(acc, ls) == Ok::<Seq<CategoryV>, ParseError>(d),
    ensures
        plain_document(d),
    decreases ls.len(),
{
    if ls.len() > 0 {
        let init = ls.drop_last();
        match run(acc, init) {
            Ok(c) => {
                assert forall|k: int, i: int| 0 <= k < init.len() && 0 <= i < init[k].len() implies init[k][i]
                    != '\n' by {
                    assert(init[k] == ls[k]);
                }
                lemma_run_plain(acc, init, c);
                let l = ls.last();
                assert forall|i: int| 0 <= i < l.len() implies l[i] != '\n' by {
                    assert(ls[ls.len() - 1][i] != '\n');
                }
                lemma_step_plain(c, l, d);
            },
            Err(e) => {},
        }
    }
}

/// Every field of a parsed document is plain: trimmed, with no `|` and no newline.
pub proof fn lemma_parsed_plain(t: Seq<char>, d: Seq<CategoryV>)
    requires
        parse_text(t) == Ok::<Seq<CategoryV>, ParseError>(d),
    ensures
        plain_document(d),
{
    lemma_split_on_chars(t, '\n', |c: char| true);
    lemma_run_plain(Seq::<CategoryV>::empty(), lines_of(t), d);
}

/// Rendering a parsed document and parsing the result gives the same document, as long as no
/// bookmark name starts with `#` or `//` (such a name can only come from a line that starts
/// with whitespace, and at the start of a rendered line it reads otherwise).
pub proof fn lemma_parse_render_parse(t: Seq<char>, d: Seq<CategoryV>)
    requires
        parse_text(t) == Ok::<Seq<CategoryV>, ParseError>(d),
        names_read_back(d),
    ensures
        parse_text(document_text(d)) == Ok::<Seq<CategoryV>, ParseError>(d),
{
    lemma_parsed_plain(t, d);
    lemma_render_then_parse(d);
}

/// In a parsed document every bookmark has exactly three fields and every header one or two:
/// splitting their rendered lines on `|` gives back exactly those fields.
pub proof fn lemma_parsed_arity(t: Seq<char>, d: Seq<CategoryV>)
    requires
        parse_text(t) == Ok::<Seq<CategoryV>, ParseError>(d),
    ensures
        forall|i: int, j: int|
            0 <= i < d.len() && 0 <= j < d[i].1.len() ==> split_on(
                bookmark_text(#[trigger] d[i].1[j]),
                '|',
            ) == seq![d[i].1[j].0, d[i].1[j].1, d[i].1[j].2],
        forall|i: int|
            0 <= i < d.len() ==> split_on(header_body(header_text((#[trigger] d[i]).0)), '|')
                == match d[i].0.1 {
                Some(icon) => seq![d[i].0.0, icon],
                None => seq![d[i].0.0],
            },
{
    lemma_parsed_plain(t, d);
    assert forall|i: int, j: int| 0 <= i < d.len() && 0 <= j < d[i].1.len() implies split_on(
        bookmark_text(#[trigger] d[i].1[j]),
        '|',
    ) == seq![d[i].1[j].0, d[i].1[j].1, d[i].1[j].2] by {
        assert(plain_category(d[i]));
        lemma_bookmark_fields(d[i].1[j]);
    }
    assert forall|i: int| 0 <= i < d.len() implies split_on(
        header_body(header_text((#[trigger] d[i]).0)),
        '|',
    ) == match d[i].0.1 {
        Some(icon) => seq![d[i].0.0, icon],
        None => seq![d[i].0.0],
    } by {
        assert(plain_category(d[i]));
        lemma_header_fields(d[i].0);
    }
}

/// The lines that carry data: all but comment and blank lines, in order.
pub open spec fn content_lines(ls: Seq<Seq<char>>) -> Seq<Seq<char>>
    decreases ls.len(),
{
    if ls.len() == 0 {
        Seq::<Seq<char>>::empty()
    } else if is_skipped(ls.last()) {
        content_lines(ls.drop_last())
    } else {
        content_lines(ls.drop_last()).push(ls.last())
    }
}

proof fn lemma_content_not_skipped(ls: Seq<Seq<char>>)
    ensures
        forall|k: int|
            0 <= k < content_lines(ls).len() ==> !is_skipped(#[trigger] content_lines(ls)[k]),
    decreases ls.len(),
{
    if ls.len() > 0 {
        lemma_content_not_skipped(ls.drop_last());
        let prev = content_lines(ls.drop_last());
        assert forall|k: int| 0 <= k < content_lines(ls).len() implies !is_skipped(
            #[trigger] content_lines(ls)[k],
        ) by {
            if k < prev.len() {
                assert(content_lines(ls)[k] == prev[k]);
            }
        }
    }
}

proof fn lemma_content_all_skipped(ls: Seq<Seq<char>>)
    requires
        forall|k: int| 0 <= k < ls.len() ==> is_skipped(#[trigger] ls[k]),
    ensures
        content_lines(ls).len() == 0,
    decreases ls.len(),
{
    if ls.len() > 0 {
        assert forall|k: int| 0 <= k < ls.drop_last().len() implies is_skipped(
            #[trigger] ls.drop_last()[k],
        ) by {
            assert(ls.drop_last()[k] == ls[k]);
        }
        lemma_content_all_skipped(ls.drop_last());
        assert(is_skipped(ls[ls.len() - 1]));
    }
}

/// Comment and blank lines leave a run as it is.
pub proof fn lemma_run_content(acc: Seq<CategoryV>, ls: Seq<Seq<char>>)
    ensures
        run(acc, ls) == run(acc, content_lines(ls)),
    decreases ls.len(),
{
    if ls.len() > 0 {
        lemma_run_content(acc, ls.drop_last());
        if !is_skipped(ls.last()) {
            assert(content_lines(ls).drop_last() =~= content_lines(ls.drop_last()));
        }
    }
}

/// Two data lines that say the same: both headers or both bookmark lines, with the same
/// fields once each is trimmed.
pub open spec fn same_data(l1: Seq<char>, l2: Seq<char>) -> bool {
    &&& is_header_line(l1) == is_header_line(l2)
    &&& is_header_line(l1) ==> trimmed_fields(header_body(l1)) == trimmed_fields(header_body(l2))
    &&& !is_header_line(l1) ==> trimmed_fields(l1) == trimmed_fields(l2)
}

proof fn lemma_run_same_data(acc: Seq<CategoryV>, a: Seq<Seq<char>>, b: Seq<Seq<char>>)
    requires
        a.len() == b.len(),
        forall|k: int|
            0 <= k < a.len() ==> !is_skipped(#[trigger] a[k]) && !is_skipped(b[k]) && same_data(
                a[k],
                b[k],
            ),
    ensures
        run(acc, a) == run(acc, b),
    decreases a.len(),
{
    if a.len() > 0 {
        assert forall|k: int| 0 <= k < a.drop_last().len() implies !is_skipped(
            #[trigger] a.drop_last()[k],
        ) && !is_skipped(b.drop_last()[k]) && same_data(a.drop_last()[k], b.drop_last()[k]) by {
            assert(a.drop_last()[k] == a[k]);
            assert(b.drop_last()[k] == b[k]);
        }
        lemma_run_same_data(acc, a.drop_last(), b.drop_last());
        assert(!is_skipped(a[a.len() - 1]));
    }
}

/// Blank lines, comment lines and whitespace around fields do not change the parse: two texts
/// whose data lines agree one for one, field by field after trimming, parse alike.
pub proof fn lemma_layout_insensitive(t1: Seq<char>, t2: Seq<char>)
    requires
        content_lines(lines_of(t1)).len() == content_lines(lines_of(t2)).len(),
        forall|k: int|
            0 <= k < content_lines(lines_of(t1)).len() ==> same_data(
                #[trigger] content_lines(lines_of(t1))[k],
                content_lines(lines_of(t2))[k],
            ),
    ensures
        parse_text(t1) == parse_text(t2),
{
    let c1 = content_lines(lines_of(t1));
    let c2 = content_lines(lines_of(t2));
    lemma_content_not_skipped(lines_of(t1));
    lemma_content_not_skipped(lines_of(t2));
    assert forall|k: int| 0 <= k < c1.len() implies !is_skipped(#[trigger] c1[k]) && !is_skipped(
        c2[k],
    ) && same_data(c1[k], c2[k]) by {
        assert(!is_skipped(c2[k]));
    }
    lemma_run_content(Seq::<CategoryV>::empty(), lines_of(t1));
    lemma_run_content(Seq::<CategoryV>::empty(), lines_of(t2));
    lemma_run_same_data(Seq::<CategoryV>::empty(), c1, c2);
}

/// A text of nothing but comment and blank lines parses to the empty document.
pub proof fn lemma_only_layout_is_empty(t: Seq<char>)
    requires
        forall|k: int| 0 <= k < lines_of(t).len() ==> is_skipped(#[trigger] lines_of(t)[k]),
    ensures
        parse_text(t) == Ok::<Seq<CategoryV>, ParseError>(Seq::<CategoryV>::empty()),
{
    lemma_content_all_skipped(lines_of(t));
    lemma_run_content(Seq::<CategoryV>::empty(), lines_of(t));
    assert(content_lines(lines_of(t)) =~= Seq::<Seq<char>>::empty());
}

/// A text whose first data line is not a header fails with `BookmarkBeforeHeader`.
pub proof fn lemma_bookmark_before_header(t: Seq<char>)
    requires
        content_lines(lines_of(t)).len() > 0,
        !is_header_line(content_lines(lines_of(t))[0]),
    ensures
        parse_text(t) == Err::<Seq<CategoryV>, ParseError>(ParseError::BookmarkBeforeHeader),
{
    let c = content_lines(lines_of(t));
    lemma_content_not_skipped(lines_of(t));
    lemma_run_content(Seq::<CategoryV>::empty(), lines_of(t));
    assert(!is_skipped(c[0]));
    assert(c.take(1).drop_last() =~= Seq::<Seq<char>>::empty());
    assert(c.take(1).last() == c[0]);
    assert(run(Seq::<CategoryV>::empty(), c.take(1).drop_last()) == Ok::<
        Seq<CategoryV>,
        ParseError,
    >(Seq::<CategoryV>::empty()));
    assert(step(Seq::<CategoryV>::empty(), c[0]) == Err::<Seq<CategoryV>, ParseError>(
        ParseError::BookmarkBeforeHeader,
    ));
    assert(run(Seq::<CategoryV>::empty(), c.take(1)) == Err::<Seq<CategoryV>, ParseError>(
        ParseError::BookmarkBeforeHeader,
    ));
    lemma_run_err_prefix(Seq::<CategoryV>::empty(), c, 1);
}

/// A header line that is the last data line of the text opens a category without bookmarks.
pub proof fn lemma_trailing_header_is_empty(t: Seq<char>, d: Seq<CategoryV>)
    requires
        parse_text(t) == Ok::<Seq<CategoryV>, ParseError>(d),
        content_lines(lines_of(t)).len() > 0,
        is_header_line(content_lines(lines_of(t)).last()),
    ensures
        d.len() > 0,
        d.last().1.len() == 0,
{
    let c = content_lines(lines_of(t));
    lemma_content_not_skipped(lines_of(t));
    lemma_run_content(Seq::<CategoryV>::empty(), lines_of(t));
    assert(!is_skipped(c[c.len() - 1]));
}

/// The headers of the header lines, in the order of the lines.
pub open spec fn headers_in(ls: Seq<Seq<char>>) -> Seq<HeaderV>
    decreases ls.len(),
{
    if ls.len() == 0 {
        Seq::<HeaderV>::empty()
    } else {
        let prev = headers_in(ls.drop_last());
        let l = ls.last();
        if !is_skipped(l) && is_header_line(l) {
            match header_spec(header_body(l)) {
                Ok(h) => prev.push(h),
                Err(_) => prev,
            }
        } else {
            prev
        }
    }
}

/// The bookmarks of the bookmark lines, in the order of the lines.
pub open spec fn bookmarks_in(ls: Seq<Seq<char>>) -> Seq<BookmarkV>
    decreases ls.len(),
{
    if ls.len() == 0 {
        Seq::<BookmarkV>::empty()
    } else {
        let prev = bookmarks_in(ls.drop_last());
        let l = ls.last();
        if !is_skipped(l) && !is_header_line(l) {
            match bookmark_spec(l) {
                Ok(b) => prev.push(b),
                Err(_) => prev,
            }
        } else {
            prev
        }
    }
}

/// The headers of a document, category by category.
pub open spec fn headers_of(d: Seq<CategoryV>) -> Seq<HeaderV> {
    d.map_values(|c: CategoryV| c.0)
}

/// The bookmarks of a document, category by category.
pub open spec fn bookmarks_of(d: Seq<CategoryV>) -> Seq<BookmarkV>
    decreases d.len(),
{
    if d.len() == 0 {
        Seq::<BookmarkV>::empty()
    } else {
        bookmarks_of(d.drop_last()) + d.last().1
    }
}

proof fn lemma_run_order(ls: Seq<Seq<char>>, d: Seq<CategoryV>)
    requires
        run(Seq::<CategoryV>::empty(), ls) == Ok::<Seq<CategoryV>, ParseError>(d),
    ensures
        headers_of(d) == headers_in(ls),
        bookmarks_of(d) == bookmarks_in(ls),
    decreases ls.len(),
{
    if ls.len() == 0 {
        assert(headers_of(d) =~= Seq::<HeaderV>::empty());
    } else {
        match run(Seq::<CategoryV>::empty(), ls.drop_last()) {
            Ok(c) => {
                lemma_run_order(ls.drop_last(), c);
                let l = ls.last();
                if is_skipped(l) {
                } else if is_header_line(l) {
                    let h = header_spec(header_body(l))->Ok_0;
                    assert(d == c.push((h, Seq::<BookmarkV>::empty())));
                    assert(headers_of(d) =~= headers_of(c).push(h));
                    assert(d.drop_last() =~= c);
                    assert(bookmarks_of(d) =~= bookmarks_of(c));
                } else {
                    let b = bookmark_spec(l)->Ok_0;
                    assert(c.len() > 0);
                    assert(headers_of(d) =~= headers_of(c));
                    assert(d.drop_last() =~= c.drop_last());
                    assert(bookmarks_of(d) =~= bookmarks_of(c).push(b));
                }
            },
            Err(e) => {},
        }
    }
}

/// The parse keeps source order: its headers are those of the header lines, and its
/// bookmarks, read category after category, are those of the bookmark lines, each in the
/// order of the lines.
pub proof fn lemma_source_order(t: Seq<char>, d: Seq<CategoryV>)
    requires
        parse_text(t) == Ok::<Seq<CategoryV>, ParseError>(d),
    ensures
        headers_of(d) == headers_in(lines_of(t)),
        bookmarks_of(d) == bookmarks_in(lines_of(t)),
{
    lemma_run_order(lines_of(t), d);
}

} // verus!
