//! Splitting text into lines (`str::lines`) and joining lines back together.

use vstd::prelude::*;
use crate::text::{chars_of, push_chars, string_from_chars};

verus! {

/// The views of a sequence of strings.
pub open spec fn views(v: Seq<String>) -> Seq<Seq<char>> {
    v.map_values(|l: String| l@)
}

/// `s` cut at every `'\n'`, the separators removed; never empty.
pub open spec fn newline_split(s: Seq<char>) -> Seq<Seq<char>>
    decreases s.len(),
{
    if s.len() == 0 {
        seq![Seq::<char>::empty()]
    } else {
        let rest = newline_split(s.drop_last());
        if s.last() == '\n' {
            rest.push(Seq::<char>::empty())
        } else {
            rest.update(rest.len() - 1, rest.last().push(s.last()))
        }
    }
}

/// A line without the `'\r'` of a `"\r\n"` line ending.
pub open spec fn strip_cr(l: Seq<char>) -> Seq<char> {
    if l.len() > 0 && l.last() == '\r' {
        l.drop_last()
    } else {
        l
    }
}

/// The lines of `s` as `str::lines` yields them: split at `"\n"` and `"\r\n"`,
/// the line endings removed, and no empty last line for a final line ending.
pub open spec fn lines_of(s: Seq<char>) -> Seq<Seq<char>> {
    let pieces = newline_split(s);
    let last = pieces.last();
    pieces.drop_last().map_values(|l: Seq<char>| strip_cr(l)) + if last.len() == 0 {
        Seq::<Seq<char>>::empty()
    } else {
        seq![last]
    }
}

pub proof fn lemma_newline_split_nonempty(s: Seq<char>)
    ensures
        newline_split(s).len() >= 1,
    decreases s.len(),
{
    if s.len() > 0 {
        lemma_newline_split_nonempty(s.drop_last());
    }
}

/// `contents.lines()`, each line turned into a `String`.
pub fn split_lines(contents: &str) -> (lines: Vec<String>)
    ensures
        views(lines@) == lines_of(contents@),
{
    let chars = chars_of(contents);
    let mut lines: Vec<String> = Vec::new();
    let mut start: usize = 0;
    let mut i: usize = 0;
    proof {
        assert(chars@.take(0) =~= Seq::<char>::empty());
    }
    while i < chars.len()
        invariant
            start <= i <= chars.len(),
            chars@ == contents@,
            newline_split(chars@.take(i as int)).len() >= 1,
            newline_split(chars@.take(i as int)).last() == chars@.subrange(start as int, i as int),
            views(lines@) == newline_split(chars@.take(i as int)).drop_last().map_values(
                |l: Seq<char>| strip_cr(l),
            ),
        decreases chars.len() - i,
    {
        let ghost before = chars@.take(i as int);
        proof {
            assert(chars@.take(i + 1).drop_last() =~= before);
            lemma_newline_split_nonempty(before);
        }
        if chars[i] == '\n' {
            let end: usize = if i > start && chars[i - 1] == '\r' {
                i - 1
            } else {
                i
            };
            let line = string_from_chars(&chars, start, end);
            proof {
                let cur = chars@.subrange(start as int, i as int);
                assert(strip_cr(cur) =~= chars@.subrange(start as int, end as int));
            }
            let ghost old_lines = lines@;
            lines.push(line);
            start = i + 1;
            proof {
                let p = newline_split(before);
                assert(views(lines@) =~= views(old_lines).push(strip_cr(p.last())));
                assert(p =~= p.drop_last().push(p.last()));
                assert(p.map_values(|l: Seq<char>| strip_cr(l)) =~= p.drop_last().map_values(
                    |l: Seq<char>| strip_cr(l),
                ).push(strip_cr(p.last())));
                assert(newline_split(chars@.take(i + 1)) == p.push(Seq::<char>::empty()));
                assert(views(lines@) =~= newline_split(chars@.take(i + 1)).drop_last().map_values(
                    |l: Seq<char>| strip_cr(l),
                ));
                assert(chars@.subrange(start as int, i + 1) =~= Seq::<char>::empty());
            }
        } else {
            proof {
                let p = newline_split(before);
                assert(chars@.subrange(start as int, i + 1) =~= p.last().push(chars@[i as int]));
                assert(newline_split(chars@.take(i + 1)).drop_last() =~= p.drop_last());
            }
        }
        i = i + 1;
    }
    proof {
        assert(chars@.take(i as int) =~= chars@);
    }
    if start < chars.len() {
        let line = string_from_chars(&chars, start, chars.len());
        lines.push(line);
        proof {
            assert(views(lines@) =~= lines_of(contents@));
        }
    } else {
        proof {
            assert(views(lines@) =~= lines_of(contents@));
        }
    }
    lines
}

/// The lines joined with `'\n'` between them.
pub open spec fn join_lines(ls: Seq<Seq<char>>) -> Seq<char>
    decreases ls.len(),
{
    if ls.len() == 0 {
        Seq::<char>::empty()
    } else if ls.len() == 1 {
        ls[0]
    } else {
        join_lines(ls.drop_last()) + seq!['\n'] + ls.last()
    }
}

/// `lines.join("\n")`.
pub fn join_with_newlines(lines: &Vec<String>) -> (s: String)
    ensures
        s@ == join_lines(views(lines@)),
{
    let mut s = String::new();
    let mut i: usize = 0;
    while i < lines.len()
        invariant
            i <= lines.len(),
            s@ == join_lines(views(lines@.take(i as int))),
        decreases lines.len() - i,
    {
        let ghost prev = views(lines@.take(i as int));
        proof {
            assert(views(lines@.take(i + 1)).drop_last() =~= prev);
        }
        if i > 0 {
            crate::text::push_char(&mut s, '\n');
        }
        let line = chars_of(lines[i].as_str());
        push_chars(&mut s, &line, 0, line.len());
        proof {
            assert(line@.subrange(0, line@.len() as int) =~= line@);
            assert(views(lines@.take(i + 1)).last() == lines@[i as int]@);
        }
        i = i + 1;
    }
    proof {
        assert(lines@.take(i as int) =~= lines@);
    }
    s
}

/// The pieces of every line, one after another.
pub open spec fn split_all(ls: Seq<Seq<char>>) -> Seq<Seq<char>>
    decreases ls.len(),
{
    if ls.len() == 0 {
        Seq::empty()
    } else {
        split_all(ls.drop_last()) + newline_split(ls.last())
    }
}

/// `s` holds no carriage return.
pub open spec fn no_cr(s: Seq<char>) -> bool {
    forall|i: int| 0 <= i < s.len() ==> s[i] != '\r'
}

/// `s` holds no line feed.
pub open spec fn no_lf(s: Seq<char>) -> bool {
    forall|i: int| 0 <= i < s.len() ==> s[i] != '\n'
}

/// Cutting at a line feed cuts the pieces of both sides apart.
pub proof fn lemma_newline_split_concat(a: Seq<char>, b: Seq<char>)
    ensures
        newline_split(a + seq!['\n'] + b) == newline_split(a) + newline_split(b),
    decreases b.len(),
{
    lemma_newline_split_nonempty(a);
    lemma_newline_split_nonempty(b);
    if b.len() == 0 {
        assert((a + seq!['\n'] + b).drop_last() =~= a);
        assert(newline_split(b) =~= seq![Seq::<char>::empty()]);
        assert(newline_split(a).push(Seq::<char>::empty()) =~= newline_split(a) + newline_split(b));
    } else {
        lemma_newline_split_concat(a, b.drop_last());
        assert((a + seq!['\n'] + b).drop_last() =~= a + seq!['\n'] + b.drop_last());
        let x = newline_split(a);
        let y = newline_split(b.drop_last());
        lemma_newline_split_nonempty(b.drop_last());
        if b.last() == '\n' {
            assert((x + y).push(Seq::<char>::empty()) =~= x + y.push(Seq::<char>::empty()));
        } else {
            let xy = x + y;
            assert(xy.update(xy.len() - 1, xy.last().push(b.last())) =~= x + y.update(
                y.len() - 1,
                y.last().push(b.last()),
            ));
        }
    }
}

/// A text without line feeds is one piece.
pub proof fn lemma_newline_split_single(s: Seq<char>)
    requires
        no_lf(s),
    ensures
        newline_split(s) == seq![s],
    decreases s.len(),
{
    if s.len() > 0 {
        lemma_newline_split_single(s.drop_last());
        assert(s.drop_last().push(s.last()) =~= s);
        assert(seq![s.drop_last()].update(0, s.drop_last().push(s.last())) =~= seq![s]);
    } else {
        assert(s =~= Seq::<char>::empty());
    }
}

/// The pieces hold no line feed, and no carriage return where the text has none.
pub proof fn lemma_newline_split_pieces(s: Seq<char>)
    ensures
        forall|k: int| 0 <= k < newline_split(s).len() ==> no_lf(#[trigger] newline_split(s)[k]),
        no_cr(s) ==> forall|k: int|
            0 <= k < newline_split(s).len() ==> no_cr(#[trigger] newline_split(s)[k]),
    decreases s.len(),
{
    if s.len() > 0 {
        lemma_newline_split_pieces(s.drop_last());
        lemma_newline_split_nonempty(s.drop_last());
        let rest = newline_split(s.drop_last());
        assert(no_cr(s) ==> no_cr(s.drop_last()));
        if s.last() != '\n' {
            let l = rest.last().push(s.last());
            assert(no_lf(rest[rest.len() - 1]));
            assert(no_lf(l));
            assert(no_cr(s) ==> no_cr(rest[rest.len() - 1]));
            assert(no_cr(s) ==> no_cr(l));
        }
    }
}

/// Joining the pieces of a text gives the text back.
pub proof fn lemma_join_newline_split(s: Seq<char>)
    ensures
        join_lines(newline_split(s)) == s,
    decreases s.len(),
{
    if s.len() == 0 {
        assert(newline_split(s) =~= seq![Seq::<char>::empty()]);
        assert(s =~= Seq::<char>::empty());
    } else {
        let x = newline_split(s.drop_last());
        lemma_join_newline_split(s.drop_last());
        lemma_newline_split_nonempty(s.drop_last());
        if s.last() == '\n' {
            assert(x.push(Seq::<char>::empty()).drop_last() =~= x);
            assert(s.drop_last() + seq!['\n'] + Seq::<char>::empty() =~= s);
        } else {
            let l = x.last().push(s.last());
            let u = x.update(x.len() - 1, l);
            if x.len() == 1 {
                assert(u =~= seq![l]);
                assert(s.drop_last() =~= x[0]);
                assert(l =~= s);
            } else {
                assert(u.drop_last() =~= x.drop_last());
                assert(join_lines(x) == join_lines(x.drop_last()) + seq!['\n'] + x.last());
                assert(join_lines(x.drop_last()) + seq!['\n'] + l =~= (join_lines(x.drop_last())
                    + seq!['\n'] + x.last()).push(s.last()));
                assert(s =~= s.drop_last().push(s.last()));
            }
        }
    }
}

/// Cutting a join cuts every joined line.
pub proof fn lemma_newline_split_join(ls: Seq<Seq<char>>)
    requires
        ls.len() > 0,
    ensures
        newline_split(join_lines(ls)) == split_all(ls),
    decreases ls.len(),
{
    if ls.len() == 1 {
        assert(ls.drop_last() =~= Seq::<Seq<char>>::empty());
        assert(split_all(ls.drop_last()) == Seq::<Seq<char>>::empty());
        assert(ls.last() == ls[0]);
        assert(split_all(ls) =~= newline_split(ls[0]));
    } else {
        lemma_newline_split_join(ls.drop_last());
        lemma_newline_split_concat(join_lines(ls.drop_last()), ls.last());
    }
}

/// The pieces of two line lists are the pieces of each, one after the other.
pub proof fn lemma_split_all_concat(a: Seq<Seq<char>>, b: Seq<Seq<char>>)
    ensures
        split_all(a + b) == split_all(a) + split_all(b),
    decreases b.len(),
{
    if b.len() == 0 {
        assert(a + b =~= a);
        assert(split_all(a) + split_all(b) =~= split_all(a));
    } else {
        lemma_split_all_concat(a, b.drop_last());
        assert((a + b).drop_last() =~= a + b.drop_last());
        assert((a + b).last() == b.last());
    }
}

/// Joining two non-empty line lists: the two joins with a line feed between.
pub proof fn lemma_join_concat(a: Seq<Seq<char>>, b: Seq<Seq<char>>)
    requires
        a.len() > 0,
        b.len() > 0,
    ensures
        join_lines(a + b) == join_lines(a) + seq!['\n'] + join_lines(b),
    decreases b.len(),
{
    if b.len() == 1 {
        assert((a + b).drop_last() =~= a);
        assert((a + b).last() == b[0]);
    } else {
        lemma_join_concat(a, b.drop_last());
        assert((a + b).drop_last() =~= a + b.drop_last());
        assert((a + b).last() == b.last());
    }
}

/// A text whose pieces hold no carriage return and whose last piece is not
/// empty: its lines are its pieces.
pub proof fn lemma_lines_of_plain(s: Seq<char>)
    requires
        forall|k: int| 0 <= k < newline_split(s).len() ==> no_cr(#[trigger] newline_split(s)[k]),
        newline_split(s).last().len() > 0,
    ensures
        lines_of(s) == newline_split(s),
{
    let pieces = newline_split(s);
    lemma_newline_split_nonempty(s);
    assert forall|k: int| 0 <= k < pieces.drop_last().len() implies strip_cr(
        #[trigger] pieces.drop_last()[k],
    ) == pieces.drop_last()[k] by {
        let l = pieces[k];
        assert(no_cr(l));
        if l.len() > 0 {
            assert(l[l.len() - 1] != '\r');
        }
    }
    assert(pieces.drop_last().map_values(|l: Seq<char>| strip_cr(l)) =~= pieces.drop_last());
    assert(pieces.drop_last() + seq![pieces.last()] =~= pieces);
}

/// The lines of a text hold no line feed, and no carriage return where the
/// text has none.
pub proof fn lemma_lines_of_pieces(s: Seq<char>)
    ensures
        forall|k: int| 0 <= k < lines_of(s).len() ==> no_lf(#[trigger] lines_of(s)[k]),
        no_cr(s) ==> forall|k: int| 0 <= k < lines_of(s).len() ==> no_cr(#[trigger] lines_of(s)[k]),
{
    let pieces = newline_split(s);
    lemma_newline_split_pieces(s);
    lemma_newline_split_nonempty(s);
    let ls = lines_of(s);
    assert forall|k: int| 0 <= k < ls.len() implies no_lf(#[trigger] ls[k]) && (no_cr(s) ==> no_cr(
        ls[k],
    )) by {
        if k < pieces.len() - 1 {
            let l = pieces[k];
            assert(ls[k] == strip_cr(l));
            assert(no_lf(l));
            if l.len() > 0 && l.last() == '\r' {
                assert(l.drop_last() =~= l.take(l.len() - 1));
            }
        } else {
            assert(ls[k] == pieces.last());
        }
    }
}

} // verus!
