//! Character-level model of the format: ASCII whitespace trimming and
//! splitting on a single-character delimiter, with executable helpers
//! that work on a buffer of characters.
use vstd::prelude::*;
use vstd::std_specs::iter::IteratorSpec;

verus! {

/// The ASCII whitespace characters: space, tab, line feed, form feed, carriage return.
pub open spec fn is_ascii_ws(c: char) -> bool {
    c == ' ' || c == '\t' || c == '\n' || c as u32 == 12 || c == '\r'
}

pub open spec fn trim_start(s: Seq<char>) -> Seq<char>
    decreases s.len(),
{
    if s.len() > 0 && is_ascii_ws(s[0]) {
        trim_start(s.subrange(1, s.len() as int))
    } else {
        s
    }
}

pub open spec fn trim_end(s: Seq<char>) -> Seq<char>
    decreases s.len(),
{
    if s.len() > 0 && is_ascii_ws(s.last()) {
        trim_end(s.drop_last())
    } else {
        s
    }
}

/// `s` without its leading and trailing ASCII whitespace.
pub open spec fn trim(s: Seq<char>) -> Seq<char> {
    trim_end(trim_start(s))
}

/// The pieces of `s` between occurrences of `d`; there is always at least one piece.
pub open spec fn split_on(s: Seq<char>, d: char) -> Seq<Seq<char>>
    decreases s.len(),
{
    if s.len() == 0 {
        seq![Seq::<char>::empty()]
    } else {
        let prev = split_on(s.drop_last(), d);
        if s.last() == d {
            prev.push(Seq::<char>::empty())
        } else {
            prev.update(prev.len() - 1, prev.last().push(s.last()))
        }
    }
}

/// The pieces joined back together with `d` between neighbours.
pub open spec fn join_with(parts: Seq<Seq<char>>, d: char) -> Seq<char>
    decreases parts.len(),
{
    if parts.len() == 0 {
        Seq::<char>::empty()
    } else if parts.len() == 1 {
        parts[0]
    } else {
        join_with(parts.drop_last(), d) + seq![d] + parts.last()
    }
}

pub proof fn lemma_split_on_len(s: Seq<char>, d: char)
    ensures
        split_on(s, d).len() >= 1,
    decreases s.len(),
{
    if s.len() > 0 {
        lemma_split_on_len(s.drop_last(), d);
    }
}

pub proof fn lemma_join_append(a: Seq<Seq<char>>, b: Seq<Seq<char>>, d: char)
    requires
        a.len() > 0,
        b.len() > 0,
    ensures
        join_with(a + b, d) == join_with(a, d) + seq![d] + join_with(b, d),
    decreases b.len(),
{
    if b.len() == 1 {
        assert((a + b).drop_last() =~= a);
    } else {
        assert((a + b).drop_last() =~= a + b.drop_last());
        lemma_join_append(a, b.drop_last(), d);
        assert(join_with(a + b, d) =~= join_with(a, d) + seq![d] + join_with(b, d));
    }
}

/// A text without the delimiter is a single piece.
pub proof fn lemma_split_on_single(s: Seq<char>, d: char)
    requires
        forall|i: int| 0 <= i < s.len() ==> s[i] != d,
    ensures
        split_on(s, d) == seq![s],
    decreases s.len(),
{
    if s.len() > 0 {
        lemma_split_on_single(s.drop_last(), d);
        assert(s.drop_last().push(s.last()) =~= s);
        assert(split_on(s, d) =~= seq![s]);
    } else {
        assert(s =~= Seq::<char>::empty());
    }
}

/// Splitting at a delimiter splits the pieces on either side of it.
pub proof fn lemma_split_on_concat(a: Seq<char>, b: Seq<char>, d: char)
    ensures
        split_on(a + seq![d] + b, d) == split_on(a, d) + split_on(b, d),
    decreases b.len(),
{
    lemma_split_on_len(a, d);
    if b.len() == 0 {
        assert((a + seq![d] + b).drop_last() =~= a);
        assert(split_on(b, d) =~= seq![Seq::<char>::empty()]);
        assert(split_on(a + seq![d] + b, d) =~= split_on(a, d) + split_on(b, d));
    } else {
        lemma_split_on_concat(a, b.drop_last(), d);
        lemma_split_on_len(b.drop_last(), d);
        assert((a + seq![d] + b).drop_last() =~= a + seq![d] + b.drop_last());
        assert(split_on(a + seq![d] + b, d) =~= split_on(a, d) + split_on(b, d));
    }
}

/// Joining pieces that hold no delimiter and splitting again gives the pieces back.
pub proof fn lemma_split_join(parts: Seq<Seq<char>>, d: char)
    requires
        parts.len() > 0,
        forall|k: int, i: int| 0 <= k < parts.len() && 0 <= i < parts[k].len() ==> parts[k][i] != d,
    ensures
        split_on(join_with(parts, d), d) == parts,
    decreases parts.len(),
{
    if parts.len() == 1 {
        lemma_split_on_single(parts[0], d);
        assert(parts =~= seq![parts[0]]);
    } else {
        let init = parts.drop_last();
        lemma_split_join(init, d);
        lemma_split_on_single(parts.last(), d);
        lemma_split_on_concat(join_with(init, d), parts.last(), d);
        assert(parts =~= init + seq![parts.last()]);
    }
}

/// Every piece is made of characters of the text other than the delimiter.
pub proof fn lemma_split_on_chars(s: Seq<char>, d: char, p: spec_fn(char) -> bool)
    requires
        forall|i: int| 0 <= i < s.len() ==> p(s[i]),
    ensures
        forall|k: int, i: int|
            0 <= k < split_on(s, d).len() && 0 <= i < split_on(s, d)[k].len() ==> {
                &&& p(split_on(s, d)[k][i])
                &&& split_on(s, d)[k][i] != d
            },
    decreases s.len(),
{
    if s.len() > 0 {
        lemma_split_on_chars(s.drop_last(), d, p);
        lemma_split_on_len(s.drop_last(), d);
        let prev = split_on(s.drop_last(), d);
        assert(p(s.last()));
        if s.last() != d {
            assert forall|k: int, i: int|
                0 <= k < split_on(s, d).len() && 0 <= i < split_on(s, d)[k].len() implies {
                &&& p(split_on(s, d)[k][i])
                &&& split_on(s, d)[k][i] != d
            } by {
                if k == prev.len() - 1 && i == prev[k].len() {
                } else {
                    assert(split_on(s, d)[k][i] == prev[k][i]);
                }
            }
        }
    }
}

proof fn lemma_trim_start_shape(s: Seq<char>)
    ensures
        trim_start(s).len() <= s.len(),
        trim_start(s) == s.subrange(s.len() - trim_start(s).len(), s.len() as int),
        trim_start(s).len() == 0 ==> forall|i: int| 0 <= i < s.len() ==> is_ascii_ws(s[i]),
        trim_start(s).len() > 0 ==> !is_ascii_ws(trim_start(s)[0]),
    decreases s.len(),
{
    if s.len() > 0 && is_ascii_ws(s[0]) {
        let tail = s.subrange(1, s.len() as int);
        lemma_trim_start_shape(tail);
        assert(trim_start(s) == trim_start(tail));
        assert(tail.subrange(tail.len() - trim_start(tail).len(), tail.len() as int) =~= s.subrange(
            s.len() - trim_start(tail).len(),
            s.len() as int,
        ));
        if trim_start(s).len() == 0 {
            assert forall|i: int| 0 <= i < s.len() implies is_ascii_ws(s[i]) by {
                if i > 0 {
                    assert(s[i] == tail[i - 1]);
                }
            }
        }
    } else {
        assert(s.subrange(0, s.len() as int) =~= s);
    }
}

proof fn lemma_trim_end_shape(s: Seq<char>)
    ensures
        trim_end(s).len() <= s.len(),
        trim_end(s) == s.subrange(0, trim_end(s).len() as int),
        trim_end(s).len() == 0 ==> forall|i: int| 0 <= i < s.len() ==> is_ascii_ws(s[i]),
        trim_end(s).len() > 0 ==> !is_ascii_ws(trim_end(s).last()),
    decreases s.len(),
{
    if s.len() > 0 && is_ascii_ws(s.last()) {
        lemma_trim_end_shape(s.drop_last());
        assert(trim_end(s) == trim_end(s.drop_last()));
        assert(s.drop_last().subrange(0, trim_end(s).len() as int) =~= s.subrange(
            0,
            trim_end(s).len() as int,
        ));
        if trim_end(s).len() == 0 {
            assert forall|i: int| 0 <= i < s.len() implies is_ascii_ws(s[i]) by {
                if i < s.len() - 1 {
                    assert(s[i] == s.drop_last()[i]);
                }
            }
        }
    } else {
        assert(s.subrange(0, s.len() as int) =~= s);
    }
}

/// A text trims to nothing only if all of it is whitespace.
pub proof fn lemma_trim_empty(s: Seq<char>)
    requires
        trim(s).len() == 0,
    ensures
        forall|i: int| 0 <= i < s.len() ==> is_ascii_ws(s[i]),
{
    lemma_trim_start_shape(s);
    lemma_trim_end_shape(trim_start(s));
    if trim_start(s).len() > 0 {
        assert(is_ascii_ws(trim_start(s)[0]));
    }
}

/// Trimming twice is trimming once, and keeps only characters of the text.
pub proof fn lemma_trim_trimmed(s: Seq<char>, p: spec_fn(char) -> bool)
    requires
        forall|i: int| 0 <= i < s.len() ==> p(s[i]),
    ensures
        trim(trim(s)) == trim(s),
        forall|i: int| 0 <= i < trim(s).len() ==> p(trim(s)[i]),
{
    let t = trim_start(s);
    let u = trim_end(t);
    lemma_trim_start_shape(s);
    lemma_trim_end_shape(t);
    assert forall|i: int| 0 <= i < u.len() implies p(u[i]) by {
        assert(u[i] == t[i]);
        assert(t[i] == s[s.len() - t.len() + i]);
    }
    if u.len() > 0 {
        assert(u[0] == t[0]);
        assert(trim_start(u) == u);
        assert(trim_end(u) == u);
    } else {
        assert(trim_start(u) == u);
    }
}

/// Relies on String::push: the character is appended to the end of the string.
#[verifier::external_body]
fn push_char(s: &mut String, c: char)
    ensures
        final(s)@ == old(s)@.push(c),
{
    s.push(c);
}

/// The characters of `s`, in order.
pub fn to_chars(s: &str) -> (r: Vec<char>)
    ensures
        r@ == s@,
{
    broadcast use vstd::string::group_string_axioms;

    let mut it = s.chars();
    let mut v: Vec<char> = Vec::new();
    loop
        invariant
            v@ + it.remaining() == s@,
        decreases s@.len() - v@.len(),
    {
        match it.next() {
            Some(c) => {
                assert(v@.push(c) + it.remaining() =~= v@ + seq![c] + it.remaining());
                v.push(c);
            },
            None => {
                assert(v@ =~= s@);
                return v;
            },
        }
    }
}

/// The characters `s[a..b]` as a string.
pub fn string_of(s: &Vec<char>, a: usize, b: usize) -> (r: String)
    requires
        a <= b <= s@.len(),
    ensures
        r@ == s@.subrange(a as int, b as int),
{
    let mut out = String::new();
    let mut i: usize = a;
    while i < b
        invariant
            a <= i <= b <= s@.len(),
            out@ == s@.subrange(a as int, i as int),
        decreases b - i,
    {
        push_char(&mut out, s[i]);
        assert(out@ =~= s@.subrange(a as int, i + 1));
        i = i + 1;
    }
    out
}

/// The bounds of `trim(s[lo..hi])` inside `s`.
pub fn trim_bounds(s: &Vec<char>, lo: usize, hi: usize) -> (r: (usize, usize))
    requires
        lo <= hi <= s@.len(),
    ensures
        lo <= r.0 <= r.1 <= hi,
        s@.subrange(r.0 as int, r.1 as int) == trim(s@.subrange(lo as int, hi as int)),
{
    let mut a: usize = lo;
    while a < hi && is_ws(s[a])
        invariant
            lo <= a <= hi <= s@.len(),
            trim_start(s@.subrange(lo as int, hi as int)) == trim_start(
                s@.subrange(a as int, hi as int),
            ),
        decreases hi - a,
    {
        assert(s@.subrange(a as int, hi as int).subrange(1, hi - a) =~= s@.subrange(
            a + 1,
            hi as int,
        ));
        a = a + 1;
    }
    let mut b: usize = hi;
    while b > a && is_ws(s[b - 1])
        invariant
            lo <= a <= b <= hi <= s@.len(),
            trim_end(s@.subrange(a as int, hi as int)) == trim_end(
                s@.subrange(a as int, b as int),
            ),
        decreases b - a,
    {
        assert(s@.subrange(a as int, b as int).drop_last() =~= s@.subrange(a as int, b - 1));
        b = b - 1;
    }
    (a, b)
}

fn is_ws(c: char) -> (r: bool)
    ensures
        r == is_ascii_ws(c),
{
    c == ' ' || c == '\t' || c == '\n' || c as u32 == 12 || c == '\r'
}

/// The bounds inside `s` of the pieces of `s[lo..hi]` between occurrences of `d`.
pub fn split_bounds(s: &Vec<char>, lo: usize, hi: usize, d: char) -> (r: Vec<(usize, usize)>)
    requires
        lo <= hi <= s@.len(),
    ensures
        r@.len() == split_on(s@.subrange(lo as int, hi as int), d).len(),
        forall|k: int|
            0 <= k < r@.len() ==> {
                &&& lo <= (#[trigger] r@[k]).0 <= r@[k].1 <= hi
                &&& s@.subrange(r@[k].0 as int, r@[k].1 as int) == split_on(
                    s@.subrange(lo as int, hi as int),
                    d,
                )[k]
            },
{
    let mut done: Vec<(usize, usize)> = Vec::new();
    let mut cur: usize = lo;
    let mut i: usize = lo;
    assert(s@.subrange(lo as int, lo as int) =~= Seq::<char>::empty());
    while i < hi
        invariant
            lo <= cur <= i <= hi <= s@.len(),
            split_on(s@.subrange(lo as int, i as int), d).len() == done@.len() + 1,
            split_on(s@.subrange(lo as int, i as int), d)[done@.len() as int] == s@.subrange(
                cur as int,
                i as int,
            ),
            forall|k: int|
                0 <= k < done@.len() ==> {
                    &&& lo <= (#[trigger] done@[k]).0 <= done@[k].1 <= hi
                    &&& s@.subrange(done@[k].0 as int, done@[k].1 as int) == split_on(
                        s@.subrange(lo as int, i as int),
                        d,
                    )[k]
                },
        decreases hi - i,
    {
        let ghost prev = split_on(s@.subrange(lo as int, i as int), d);
        assert(s@.subrange(lo as int, i + 1).drop_last() =~= s@.subrange(lo as int, i as int));
        assert(s@.subrange(lo as int, i + 1).last() == s@[i as int]);
        if s[i] == d {
            done.push((cur, i));
            cur = i + 1;
            assert(s@.subrange(cur as int, cur as int) =~= Seq::<char>::empty());
        } else {
            assert(s@.subrange(cur as int, i + 1) =~= s@.subrange(cur as int, i as int).push(
                s@[i as int],
            ));
        }
        i = i + 1;
    }
    done.push((cur, hi));
    done
}

} // verus!
