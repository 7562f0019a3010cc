//! Expanding the include directives of a whole file, from its text to the
//! text written back, and why a second run on the written text changes
//! nothing.

use vstd::prelude::*;
use vstd::utf8::encode_utf8;
use std::path::PathBuf;
use crate::includes::{
    AutogenError, directive_lines, expand_includes, find_includes, includes_well_formed,
    autogen_prefix, autogen_suffix, expand_from, fresh_directives, hash_input, hash_of_lines,
    include_path, include_prefix, includes_in, insert_block, is_include_line,
    lemma_includes_in_ordered, lemma_hash_input_newline_split, lemma_hash_of_split_lines,
    remove_white_space,
    lemma_hex_not_white_space, recorded_hash, remove_block, sha256_of, suffix_line_from,
};
use crate::lines::{
    join_lines, join_with_newlines, split_lines, views, lemma_lines_of_pieces, lemma_lines_of_plain, lemma_newline_split_join,
    lemma_newline_split_nonempty, lemma_newline_split_pieces, lemma_newline_split_single,
    lemma_split_all_concat, lines_of, newline_split, no_cr, no_lf, split_all,
};
use crate::text::{is_white_space, starts_with, trim_start};

verus! {

/// The line numbers of the directives of a line list.
pub open spec fn directive_positions(ls: Seq<Seq<char>>) -> Seq<int> {
    includes_in(ls).map_values(|d: (Seq<char>, int)| d.1)
}

/// Expanding every directive of a file's text with the given contents (one
/// per directive, in order): the lines reached and the error that stopped
/// the expansion, if any. The text written back is the lines joined.
pub open spec fn expand_file(text: Seq<char>, contents: Seq<Seq<char>>) -> (
    Seq<Seq<char>>,
    Option<crate::includes::AutogenError>,
) {
    let ls = lines_of(text);
    let at = directive_positions(ls);
    expand_from(ls, at, contents, at.len())
}

/// The opening marker line of the block that holds `c`.
pub open spec fn block_header(c: Seq<char>) -> Seq<char> {
    autogen_prefix() + seq![' '] + hash_of_lines(lines_of(c))
}

/// The block that holds `c`, as one line per element, `c` in one element.
pub open spec fn block_of(c: Seq<char>) -> Seq<Seq<char>> {
    seq![block_header(c), c, autogen_suffix()]
}

/// The same block as its lines read back from the written text: `c` cut at
/// its line feeds.
pub open spec fn split_block(c: Seq<char>) -> Seq<Seq<char>> {
    seq![block_header(c)] + newline_split(c) + seq![autogen_suffix()]
}

/// Where segment `i` of a file starts: after directive `i - 1`.
pub open spec fn seg_start(at: Seq<int>, i: int) -> int {
    if i == 0 {
        0
    } else {
        at[i - 1] + 1
    }
}

/// Where segment `i` ends: after directive `i` (the last segment at the end).
pub open spec fn seg_end(ls: Seq<Seq<char>>, at: Seq<int>, i: int) -> int {
    if i >= at.len() {
        ls.len() as int
    } else {
        at[i] + 1
    }
}

/// Segment `i`: the lines after directive `i - 1` up to directive `i`.
pub open spec fn seg(ls: Seq<Seq<char>>, at: Seq<int>, i: int) -> Seq<Seq<char>> {
    ls.subrange(seg_start(at, i), seg_end(ls, at, i))
}

/// The expanded file from segment `k` on: each segment followed by its block.
pub open spec fn expanded_tail(ls: Seq<Seq<char>>, at: Seq<int>, cs: Seq<Seq<char>>, k: int) -> Seq<
    Seq<char>,
>
    decreases at.len() - k,
{
    if k >= at.len() {
        seg(ls, at, at.len() as int)
    } else {
        seg(ls, at, k) + block_of(cs[k]) + expanded_tail(ls, at, cs, k + 1)
    }
}

/// The same from segment `k` on, as its lines are read back from the text.
pub open spec fn spread_tail(ls: Seq<Seq<char>>, at: Seq<int>, cs: Seq<Seq<char>>, k: int) -> Seq<
    Seq<char>,
>
    decreases at.len() - k,
{
    if k >= at.len() {
        seg(ls, at, at.len() as int)
    } else {
        seg(ls, at, k) + split_block(cs[k]) + spread_tail(ls, at, cs, k + 1)
    }
}

/// The lines read back before segment `k`.
pub open spec fn spread_head(ls: Seq<Seq<char>>, at: Seq<int>, cs: Seq<Seq<char>>, k: int) -> Seq<
    Seq<char>,
>
    decreases k,
{
    if k <= 0 {
        Seq::empty()
    } else {
        spread_head(ls, at, cs, k - 1) + seg(ls, at, k - 1) + split_block(cs[k - 1])
    }
}

/// The first expansion of a file without blocks writes each segment followed
/// by its block.
proof fn lemma_first_expansion(ls: Seq<Seq<char>>, at: Seq<int>, cs: Seq<Seq<char>>, k: nat)
    requires
        fresh_directives(ls, at, at.len()),
        cs.len() == at.len(),
        k <= at.len(),
    ensures
        expand_from(ls.take(seg_start(at, k as int)) + expanded_tail(ls, at, cs, k as int), at, cs, k)
            == (expanded_tail(ls, at, cs, 0), None::<crate::includes::AutogenError>),
    decreases k,
{
    let n = at.len() as int;
    let start = seg_start(at, k as int);
    assert(0 <= start <= ls.len()) by {
        if k > 0 {
            assert(0 <= at[k - 1] < ls.len());
        }
    }
    if k == 0 {
        assert(ls.take(0) + expanded_tail(ls, at, cs, 0) =~= expanded_tail(ls, at, cs, 0));
    } else {
        let x = ls.take(start) + expanded_tail(ls, at, cs, k as int);
        let a = at[k - 1];
        assert(a + 1 == start);
        // The segment after the directive starts with a line of the file.
        if (k as int) < n {
            assert(at[k - 1] < at[k as int]);
            assert(seg(ls, at, k as int).len() > 0);
            assert(x[a + 1] == ls[a + 1]);
        } else {
            assert(seg(ls, at, n) =~= ls.skip(start));
            assert(x =~= ls);
        }
        assert(remove_block(x, a) == Ok::<Seq<Seq<char>>, crate::includes::AutogenError>(x));
        let prev_start = seg_start(at, k - 1);
        assert(0 <= prev_start <= a) by {
            if k > 1 {
                assert(at[k - 2] < at[k - 1]);
                assert(0 <= at[k - 2]);
            }
        }
        assert(insert_block(x, a, cs[k - 1]) =~= ls.take(prev_start) + expanded_tail(
            ls,
            at,
            cs,
            k - 1,
        ));
        lemma_first_expansion(ls, at, cs, (k - 1) as nat);
    }
}

/// What a block's marker lines are: the opening marker records the hash of
/// the contents and is no directive and no closing marker; neither marker
/// holds a line feed or a carriage return.
proof fn lemma_markers(c: Seq<char>)
    ensures
        no_lf(block_header(c)),
        no_cr(block_header(c)),
        starts_with(block_header(c), autogen_prefix()),
        !starts_with(block_header(c), autogen_suffix()),
        !is_include_line(block_header(c)),
        recorded_hash(block_header(c)) == hash_of_lines(lines_of(c)),
        no_lf(autogen_suffix()),
        no_cr(autogen_suffix()),
        starts_with(autogen_suffix(), autogen_suffix()),
        !is_include_line(autogen_suffix()),
{
    reveal_strlit("//// AUTOGEN");
    reveal_strlit("//// END OF AUTOGEN");
    reveal_strlit("////#include");
    let hash = hash_of_lines(lines_of(c));
    let h = block_header(c);
    lemma_hex_not_white_space(sha256_of(encode_utf8(hash_input(lines_of(c)))));
    assert forall|i: int| 0 <= i < h.len() implies h[i] != '\n' && h[i] != '\r' by {
        if i > 12 {
            assert(h[i] == hash[i - 13]);
            assert(!is_white_space(hash[i - 13]));
        }
    }
    assert(h.take(autogen_prefix().len() as int) =~= autogen_prefix());
    assert(!starts_with(h, autogen_suffix())) by {
        if starts_with(h, autogen_suffix()) {
            assert(h.take(autogen_suffix().len() as int)[5] == h[5]);
        }
    }
    assert(!is_include_line(h)) by {
        if is_include_line(h) {
            assert(h.take(include_prefix().len() as int)[4] == h[4]);
        }
    }
    assert(!is_include_line(autogen_suffix())) by {
        if is_include_line(autogen_suffix()) {
            assert(autogen_suffix().take(include_prefix().len() as int)[4] == autogen_suffix()[4]);
        }
    }
    assert(autogen_suffix().take(autogen_suffix().len() as int) =~= autogen_suffix());
    assert(h.skip(autogen_prefix().len() as int) =~= seq![' '] + hash);
    assert((seq![' '] + hash).drop_first() =~= hash);
    assert(is_white_space(' '));
    assert(trim_start(hash) == hash) by {
        if hash.len() > 0 {
            assert(!is_white_space(hash[0]));
        }
    }
}

proof fn lemma_split_all_plain(ls: Seq<Seq<char>>)
    requires
        forall|i: int| 0 <= i < ls.len() ==> no_lf(#[trigger] ls[i]),
    ensures
        split_all(ls) == ls,
    decreases ls.len(),
{
    if ls.len() > 0 {
        lemma_split_all_plain(ls.drop_last());
        lemma_newline_split_single(ls.last());
        assert(ls.drop_last() + seq![ls.last()] =~= ls);
    }
}

proof fn lemma_split_all_block(c: Seq<char>)
    ensures
        split_all(block_of(c)) == split_block(c),
{
    lemma_markers(c);
    let h = block_header(c);
    lemma_split_all_concat(seq![h], seq![c, autogen_suffix()]);
    lemma_split_all_concat(seq![c], seq![autogen_suffix()]);
    lemma_split_all_plain(seq![h]);
    lemma_split_all_plain(seq![autogen_suffix()]);
    assert(seq![h] + seq![c, autogen_suffix()] =~= block_of(c));
    assert(seq![c] + seq![autogen_suffix()] =~= seq![c, autogen_suffix()]);
    assert(seq![c].drop_last() =~= Seq::<Seq<char>>::empty());
    assert(split_all(seq![c].drop_last()) == Seq::<Seq<char>>::empty());
    assert(seq![c].last() == c);
    assert(split_all(seq![c]) =~= newline_split(c));
}

/// Reading the expanded file back cuts each block's contents at its line
/// feeds and leaves every other line as it is.
proof fn lemma_read_back(ls: Seq<Seq<char>>, at: Seq<int>, cs: Seq<Seq<char>>, k: int)
    requires
        fresh_directives(ls, at, at.len()),
        cs.len() == at.len(),
        0 <= k <= at.len(),
        forall|i: int| 0 <= i < ls.len() ==> no_lf(#[trigger] ls[i]),
    ensures
        split_all(expanded_tail(ls, at, cs, k)) == spread_tail(ls, at, cs, k),
    decreases at.len() - k,
{
    let n = at.len() as int;
    let sg = seg(ls, at, k);
    assert(0 <= seg_start(at, k) <= seg_end(ls, at, k) <= ls.len()) by {
        if k > 0 {
            assert(0 <= at[k - 1] < ls.len());
        }
        if k < n {
            assert(0 <= at[k] < ls.len());
            if k > 0 {
                assert(at[k - 1] < at[k]);
            }
        }
    }
    assert forall|i: int| 0 <= i < sg.len() implies no_lf(#[trigger] sg[i]) by {
        assert(sg[i] == ls[seg_start(at, k) + i]);
    }
    lemma_split_all_plain(sg);
    if k < n {
        lemma_read_back(ls, at, cs, k + 1);
        lemma_split_all_block(cs[k]);
        lemma_split_all_concat(sg + block_of(cs[k]), expanded_tail(ls, at, cs, k + 1));
        lemma_split_all_concat(sg, block_of(cs[k]));
    }
}

/// Directives moved `d` lines down.
pub open spec fn shifted(ds: Seq<(Seq<char>, int)>, d: int) -> Seq<(Seq<char>, int)> {
    ds.map_values(|x: (Seq<char>, int)| (x.0, x.1 + d))
}

proof fn lemma_includes_in_concat(a: Seq<Seq<char>>, b: Seq<Seq<char>>)
    ensures
        includes_in(a + b) == includes_in(a) + shifted(includes_in(b), a.len() as int),
    decreases b.len(),
{
    if b.len() == 0 {
        assert(a + b =~= a);
        assert(includes_in(a) + shifted(includes_in(b), a.len() as int) =~= includes_in(a));
    } else {
        lemma_includes_in_concat(a, b.drop_last());
        assert((a + b).drop_last() =~= a + b.drop_last());
        assert((a + b).last() == b.last());
        let prev = shifted(includes_in(b.drop_last()), a.len() as int);
        if is_include_line(b.last()) {
            assert(shifted(includes_in(b), a.len() as int) =~= prev.push(
                (include_path(b.last()), a.len() + b.len() - 1),
            ));
            assert(includes_in(a) + prev.push((include_path(b.last()), a.len() + b.len() - 1))
                =~= (includes_in(a) + prev).push((include_path(b.last()), a.len() + b.len() - 1)));
        }
    }
}

/// What `includes_in` finds: directive lines, with their paths, and every
/// directive line.
proof fn lemma_includes_in_facts(ls: Seq<Seq<char>>)
    ensures
        forall|i: int|
            0 <= i < includes_in(ls).len() ==> {
                &&& 0 <= #[trigger] includes_in(ls)[i].1 < ls.len()
                &&& is_include_line(ls[includes_in(ls)[i].1])
                &&& includes_in(ls)[i].0 == include_path(ls[includes_in(ls)[i].1])
            },
        forall|p: int|
            0 <= p < ls.len() && is_include_line(#[trigger] ls[p]) ==> exists|i: int|
                0 <= i < includes_in(ls).len() && #[trigger] includes_in(ls)[i].1 == p,
    decreases ls.len(),
{
    if ls.len() > 0 {
        let prev = includes_in(ls.drop_last());
        lemma_includes_in_facts(ls.drop_last());
        let cur = includes_in(ls);
        assert forall|i: int| 0 <= i < prev.len() implies ls.drop_last()[prev[i].1] == ls[prev[i].1] by {
        }
        if is_include_line(ls.last()) {
            assert(cur == prev.push((include_path(ls.last()), ls.len() - 1)));
            assert forall|i: int| 0 <= i < cur.len() implies {
                &&& 0 <= #[trigger] cur[i].1 < ls.len()
                &&& is_include_line(ls[cur[i].1])
                &&& cur[i].0 == include_path(ls[cur[i].1])
            } by {
                if i < prev.len() {
                    assert(cur[i] == prev[i]);
                }
            }
            assert forall|p: int| 0 <= p < ls.len() && is_include_line(#[trigger] ls[p]) implies exists|i: int|
                0 <= i < cur.len() && #[trigger] cur[i].1 == p by {
                if p < ls.len() - 1 {
                    assert(ls.drop_last()[p] == ls[p]);
                    let i = choose|i: int| 0 <= i < prev.len() && #[trigger] prev[i].1 == p;
                    assert(cur[i] == prev[i]);
                } else {
                    assert(cur[prev.len() as int].1 == p);
                }
            }
        } else {
            assert(cur == prev);
            assert forall|p: int| 0 <= p < ls.len() && is_include_line(#[trigger] ls[p]) implies exists|i: int|
                0 <= i < cur.len() && #[trigger] cur[i].1 == p by {
                assert(p < ls.len() - 1);
                assert(ls.drop_last()[p] == ls[p]);
            }
        }
    }
}

proof fn lemma_includes_in_none(ls: Seq<Seq<char>>)
    requires
        forall|i: int| 0 <= i < ls.len() ==> !is_include_line(#[trigger] ls[i]),
    ensures
        includes_in(ls) == Seq::<(Seq<char>, int)>::empty(),
    decreases ls.len(),
{
    if ls.len() > 0 {
        lemma_includes_in_none(ls.drop_last());
    }
}

/// The directives of segment `k`: its last line, for a segment that ends at a
/// directive; none in the last segment.
proof fn lemma_includes_in_seg(ls: Seq<Seq<char>>, k: int)
    requires
        0 <= k <= directive_positions(ls).len(),
    ensures
        includes_in(seg(ls, directive_positions(ls), k)) == if k < directive_positions(ls).len() {
            seq![
                (
                    include_path(ls[directive_positions(ls)[k]]),
                    seg(ls, directive_positions(ls), k).len() - 1,
                ),
            ]
        } else {
            Seq::<(Seq<char>, int)>::empty()
        },
{
    let at = directive_positions(ls);
    let ds = includes_in(ls);
    let n = at.len() as int;
    lemma_includes_in_ordered(ls);
    lemma_includes_in_facts(ls);
    let start = seg_start(at, k);
    let end = seg_end(ls, at, k);
    assert(0 <= start <= end <= ls.len()) by {
        if k > 0 {
            assert(at[k - 1] == ds[k - 1].1);
        }
        if k < n {
            assert(at[k] == ds[k].1);
            if k > 0 {
                assert(ds[k - 1].1 < ds[k].1);
            }
        }
    }
    let sg = seg(ls, at, k);
    let plain_end = if k < n { end - 1 } else { end };
    assert forall|j: int| 0 <= j < plain_end - start implies !is_include_line(#[trigger] sg[j]) by {
        let p = start + j;
        assert(sg[j] == ls[p]);
        if is_include_line(ls[p]) {
            let i = choose|i: int| 0 <= i < ds.len() && #[trigger] ds[i].1 == p;
            if i < k {
                if i < k - 1 {
                    assert(ds[i].1 < ds[k - 1].1);
                }
                assert(at[k - 1] == ds[k - 1].1);
            } else {
                if i > k {
                    assert(ds[k].1 < ds[i].1);
                }
                assert(at[k] == ds[k].1);
            }
        }
    }
    if k < n {
        assert(at[k] == ds[k].1);
        lemma_includes_in_none(sg.drop_last());
        assert(sg.last() == ls[at[k]]);
        assert(is_include_line(ls[ds[k].1]));
    } else {
        lemma_includes_in_none(sg);
    }
}

proof fn lemma_includes_in_split_block(c: Seq<char>)
    requires
        forall|k: int|
            0 <= k < newline_split(c).len() ==> !is_include_line(#[trigger] newline_split(c)[k]),
    ensures
        includes_in(split_block(c)) == Seq::<(Seq<char>, int)>::empty(),
{
    lemma_markers(c);
    let b = split_block(c);
    let m = newline_split(c).len();
    assert forall|i: int| 0 <= i < b.len() implies !is_include_line(#[trigger] b[i]) by {
        if 0 < i && i < m + 1 {
            assert(b[i] == newline_split(c)[i - 1]);
        }
    }
    lemma_includes_in_none(b);
}

/// The contents hold no directive line, no closing marker line and no
/// carriage return.
pub open spec fn plain_contents(c: Seq<char>) -> bool {
    &&& no_cr(c)
    &&& forall|k: int|
        0 <= k < newline_split(c).len() ==> !is_include_line(#[trigger] newline_split(c)[k])
            && !starts_with(newline_split(c)[k], autogen_suffix())
}

/// The directives of the text read back: the same directives, in order, each
/// at the end of its segment.
proof fn lemma_read_back_directives(ls: Seq<Seq<char>>, cs: Seq<Seq<char>>, k: int)
    requires
        cs.len() == directive_positions(ls).len(),
        forall|i: int| 0 <= i < cs.len() ==> plain_contents(#[trigger] cs[i]),
        0 <= k <= directive_positions(ls).len(),
    ensures
        ({
            let at = directive_positions(ls);
            let ds = includes_in(spread_tail(ls, at, cs, k));
            &&& ds.len() == at.len() - k
            &&& forall|i: int|
                0 <= i < at.len() - k ==> #[trigger] ds[i] == (
                    include_path(ls[at[k + i]]),
                    spread_head(ls, at, cs, k + i).len() - spread_head(ls, at, cs, k).len() + seg(
                        ls,
                        at,
                        k + i,
                    ).len() - 1,
                )
        }),
    decreases directive_positions(ls).len() - k,
{
    let at = directive_positions(ls);
    let n = at.len() as int;
    lemma_includes_in_seg(ls, k);
    if k < n {
        let sg = seg(ls, at, k);
        let sb = split_block(cs[k]);
        let rest = spread_tail(ls, at, cs, k + 1);
        lemma_read_back_directives(ls, cs, k + 1);
        lemma_includes_in_split_block(cs[k]);
        lemma_includes_in_concat(sg, sb);
        lemma_includes_in_concat(sg + sb, rest);
        assert(spread_tail(ls, at, cs, k) == sg + sb + rest);
        let d = (sg + sb).len() as int;
        assert(spread_head(ls, at, cs, k + 1) == spread_head(ls, at, cs, k) + sg + sb);
        let first = includes_in(sg) + shifted(includes_in(sb), sg.len() as int);
        assert(first =~= seq![(include_path(ls[at[k]]), sg.len() - 1)]);
        let ds = includes_in(spread_tail(ls, at, cs, k));
        let tail_ds = includes_in(rest);
        assert(ds == first + shifted(tail_ds, d));
        assert forall|i: int| 0 <= i < n - k implies #[trigger] ds[i] == (
            include_path(ls[at[k + i]]),
            spread_head(ls, at, cs, k + i).len() - spread_head(ls, at, cs, k).len() + seg(
                ls,
                at,
                k + i,
            ).len() - 1,
        ) by {
            if i > 0 {
                assert(ds[i] == shifted(tail_ds, d)[i - 1]);
                assert(tail_ds[i - 1] == (
                    include_path(ls[at[k + 1 + (i - 1)]]),
                    spread_head(ls, at, cs, k + 1 + (i - 1)).len() - spread_head(
                        ls,
                        at,
                        cs,
                        k + 1,
                    ).len() + seg(ls, at, k + 1 + (i - 1)).len() - 1,
                ));
            }
        }
    } else {
        assert(spread_tail(ls, at, cs, k) == seg(ls, at, n));
    }
}

proof fn lemma_suffix_at(ls: Seq<Seq<char>>, k: int, j: int)
    requires
        0 <= k <= j < ls.len(),
        starts_with(ls[j], autogen_suffix()),
        forall|i: int| k <= i < j ==> !starts_with(#[trigger] ls[i], autogen_suffix()),
    ensures
        suffix_line_from(ls, k) == Some(j),
    decreases j - k,
{
    if k < j {
        lemma_suffix_at(ls, k + 1, j);
    }
}

/// The pieces of a text hash as its lines do.
proof fn lemma_hash_of_pieces(c: Seq<char>)
    ensures
        hash_of_lines(newline_split(c)) == hash_of_lines(lines_of(c)),
{
    lemma_hash_input_newline_split(c);
    lemma_hash_of_split_lines(c);
    assert(seq![c].drop_last() =~= Seq::<Seq<char>>::empty());
    assert(hash_input(Seq::<Seq<char>>::empty()) == Seq::<char>::empty());
    assert(hash_input(seq![c]) =~= remove_white_space(c));
}

/// The segments lie within the file, in order, each but the last ending at
/// its directive.
proof fn lemma_seg_bounds(ls: Seq<Seq<char>>, k: int)
    requires
        0 <= k <= directive_positions(ls).len(),
    ensures
        ({
            let at = directive_positions(ls);
            &&& 0 <= seg_start(at, k) <= seg_end(ls, at, k) <= ls.len()
            &&& k < at.len() ==> seg_start(at, k) <= at[k] < seg_end(ls, at, k)
            &&& k < at.len() ==> seg_end(ls, at, k) == at[k] + 1
            &&& k < at.len() ==> seg_start(at, k + 1) == seg_end(ls, at, k)
        }),
{
    let at = directive_positions(ls);
    let ds = includes_in(ls);
    lemma_includes_in_ordered(ls);
    if k > 0 {
        assert(at[k - 1] == ds[k - 1].1);
    }
    if k < at.len() {
        assert(at[k] == ds[k].1);
        if k > 0 {
            assert(ds[k - 1].1 < ds[k].1);
        }
    }
}

/// The second run removes each block as it was read back and writes it as
/// one line again, from the last directive to the first.
proof fn lemma_second_expansion(
    ls: Seq<Seq<char>>,
    cs: Seq<Seq<char>>,
    at2: Seq<int>,
    k: nat,
)
    requires
        cs.len() == directive_positions(ls).len(),
        forall|i: int| 0 <= i < cs.len() ==> plain_contents(#[trigger] cs[i]),
        at2.len() == directive_positions(ls).len(),
        forall|i: int|
            0 <= i < at2.len() ==> #[trigger] at2[i] == spread_head(
                ls,
                directive_positions(ls),
                cs,
                i,
            ).len() + seg(ls, directive_positions(ls), i).len() - 1,
        k <= directive_positions(ls).len(),
    ensures
        ({
            let at = directive_positions(ls);
            expand_from(
                spread_head(ls, at, cs, k as int) + expanded_tail(ls, at, cs, k as int),
                at2,
                cs,
                k,
            ) == (expanded_tail(ls, at, cs, 0), None::<crate::includes::AutogenError>)
        }),
    decreases k,
{
    let at = directive_positions(ls);
    if k == 0 {
        assert(spread_head(ls, at, cs, 0) + expanded_tail(ls, at, cs, 0) =~= expanded_tail(
            ls,
            at,
            cs,
            0,
        ));
    } else {
        let j = k - 1;
        let c = cs[j];
        lemma_seg_bounds(ls, j);
        lemma_markers(c);
        lemma_hash_of_pieces(c);
        let h = spread_head(ls, at, cs, j) + seg(ls, at, j);
        let sb = split_block(c);
        let x = expanded_tail(ls, at, cs, k as int);
        let z = spread_head(ls, at, cs, k as int) + x;
        assert(z =~= h + sb + x);
        let q = at2[j];
        assert(q + 1 == h.len());
        let m = newline_split(c).len() as int;
        let p = q + 1;
        assert(z[p] == block_header(c));
        assert forall|i: int| p <= i < p + 1 + m implies !starts_with(#[trigger] z[i], autogen_suffix()) by {
            if i > p {
                assert(z[i] == newline_split(c)[i - p - 1]);
            }
        }
        assert(z[p + 1 + m] == autogen_suffix());
        lemma_suffix_at(z, p, p + 1 + m);
        assert(z.subrange(p + 1, p + 1 + m) =~= newline_split(c));
        assert(remove_block(z, q) == Ok::<Seq<Seq<char>>, crate::includes::AutogenError>(h + x))
            by {
            assert(z.take(p) + z.skip(p + 1 + m + 1) =~= h + x);
        }
        assert(insert_block(h + x, q, c) =~= spread_head(ls, at, cs, j) + expanded_tail(
            ls,
            at,
            cs,
            j,
        ));
        lemma_second_expansion(ls, cs, at2, j as nat);
    }
}

proof fn lemma_head_tail(ls: Seq<Seq<char>>, at: Seq<int>, cs: Seq<Seq<char>>, k: int)
    requires
        0 <= k <= at.len(),
    ensures
        spread_head(ls, at, cs, k) + spread_tail(ls, at, cs, k) == spread_tail(ls, at, cs, 0),
    decreases k,
{
    if k == 0 {
        assert(spread_head(ls, at, cs, 0) + spread_tail(ls, at, cs, 0) =~= spread_tail(
            ls,
            at,
            cs,
            0,
        ));
    } else {
        lemma_head_tail(ls, at, cs, k - 1);
        assert(spread_head(ls, at, cs, k) + spread_tail(ls, at, cs, k) =~= spread_head(
            ls,
            at,
            cs,
            k - 1,
        ) + spread_tail(ls, at, cs, k - 1));
    }
}

/// Every line read back holds no carriage return, and the last one, if
/// any, is not empty.
proof fn lemma_read_back_plain(ls: Seq<Seq<char>>, cs: Seq<Seq<char>>, k: int)
    requires
        cs.len() == directive_positions(ls).len(),
        forall|i: int| 0 <= i < cs.len() ==> plain_contents(#[trigger] cs[i]),
        forall|i: int| 0 <= i < ls.len() ==> no_cr(#[trigger] ls[i]),
        ls.len() == 0 || ls.last().len() > 0,
        0 <= k <= directive_positions(ls).len(),
    ensures
        ({
            let t = spread_tail(ls, directive_positions(ls), cs, k);
            &&& forall|i: int| 0 <= i < t.len() ==> no_cr(#[trigger] t[i])
            &&& t.len() > 0 ==> t.last().len() > 0
        }),
    decreases directive_positions(ls).len() - k,
{
    let at = directive_positions(ls);
    let n = at.len() as int;
    lemma_seg_bounds(ls, k);
    let sg = seg(ls, at, k);
    assert forall|i: int| 0 <= i < sg.len() implies no_cr(#[trigger] sg[i]) by {
        assert(sg[i] == ls[seg_start(at, k) + i]);
    }
    if k < n {
        lemma_read_back_plain(ls, cs, k + 1);
        lemma_markers(cs[k]);
        lemma_newline_split_pieces(cs[k]);
        let sb = split_block(cs[k]);
        let m = newline_split(cs[k]).len() as int;
        assert forall|i: int| 0 <= i < sb.len() implies no_cr(#[trigger] sb[i]) by {
            if 0 < i && i < m + 1 {
                assert(sb[i] == newline_split(cs[k])[i - 1]);
            }
        }
        let rest = spread_tail(ls, at, cs, k + 1);
        let t = sg + sb + rest;
        assert(spread_tail(ls, at, cs, k) == t);
        assert forall|i: int| 0 <= i < t.len() implies no_cr(#[trigger] t[i]) by {
            if i < sg.len() {
                assert(t[i] == sg[i]);
            } else if i < sg.len() + sb.len() {
                assert(t[i] == sb[i - sg.len()]);
            } else {
                assert(t[i] == rest[i - sg.len() - sb.len()]);
            }
        }
        reveal_strlit("//// END OF AUTOGEN");
        if rest.len() == 0 {
            assert(t.last() == autogen_suffix());
        } else {
            assert(t.last() == rest.last());
        }
    } else {
        assert(spread_tail(ls, at, cs, k) == sg);
        if sg.len() > 0 {
            assert(sg.last() == ls.last());
        }
    }
}

proof fn lemma_written_text_read_back(ls: Seq<Seq<char>>, cs: Seq<Seq<char>>)
    requires
        forall|i: int| 0 <= i < ls.len() ==> no_cr(#[trigger] ls[i]) && no_lf(ls[i]),
        ls.len() == 0 || ls.last().len() > 0,
        cs.len() == directive_positions(ls).len(),
        forall|i: int| 0 <= i < cs.len() ==> plain_contents(#[trigger] cs[i]),
        fresh_directives(ls, directive_positions(ls), directive_positions(ls).len()),
    ensures
        ({
            let at = directive_positions(ls);
            lines_of(join_lines(expanded_tail(ls, at, cs, 0))) == spread_tail(ls, at, cs, 0)
        }),
{
    let at = directive_positions(ls);
    let n = at.len() as int;
    let e = expanded_tail(ls, at, cs, 0);
    let t1 = join_lines(e);
    let back = spread_tail(ls, at, cs, 0);
    lemma_read_back_plain(ls, cs, 0);
    if e.len() == 0 {
        if n > 0 {
            assert(e.len() >= 3);
        }
        lemma_seg_bounds(ls, 0);
        assert(seg(ls, at, 0) =~= ls);
        assert(t1 =~= Seq::<char>::empty());
        lemma_newline_split_nonempty(t1);
        assert(newline_split(t1) =~= seq![Seq::<char>::empty()]);
        assert(lines_of(t1) =~= Seq::<Seq<char>>::empty());
        assert(back =~= Seq::<Seq<char>>::empty());
    } else {
        lemma_newline_split_join(e);
        lemma_read_back(ls, at, cs, 0);
        assert(newline_split(t1) == back);
        lemma_lines_of_plain(t1);
    }
}

proof fn lemma_read_back_positions(ls: Seq<Seq<char>>, cs: Seq<Seq<char>>)
    requires
        cs.len() == directive_positions(ls).len(),
        forall|i: int| 0 <= i < cs.len() ==> plain_contents(#[trigger] cs[i]),
    ensures
        ({
            let at = directive_positions(ls);
            let back = spread_tail(ls, at, cs, 0);
            &&& directive_positions(back).len() == at.len()
            &&& forall|i: int|
                0 <= i < at.len() ==> #[trigger] directive_positions(back)[i] == spread_head(
                    ls,
                    at,
                    cs,
                    i,
                ).len() + seg(ls, at, i).len() - 1
            &&& includes_in(back).map_values(|d: (Seq<char>, int)| d.0) == includes_in(
                ls,
            ).map_values(|d: (Seq<char>, int)| d.0)
        }),
{
    let at = directive_positions(ls);
    let n = at.len() as int;
    let ds = includes_in(ls);
    let back = spread_tail(ls, at, cs, 0);
    lemma_includes_in_facts(ls);
    lemma_read_back_directives(ls, cs, 0);
    let back_ds = includes_in(back);
    assert(spread_head(ls, at, cs, 0).len() == 0);
    assert forall|i: int| 0 <= i < n implies back_ds[i] == (
        include_path(ls[at[i]]),
        spread_head(ls, at, cs, i).len() + seg(ls, at, i).len() - 1,
    ) by {
        assert(back_ds[i] == (
            include_path(ls[at[0 + i]]),
            spread_head(ls, at, cs, 0 + i).len() - spread_head(ls, at, cs, 0).len() + seg(
                ls,
                at,
                0 + i,
            ).len() - 1,
        ));
    }
    assert forall|i: int| 0 <= i < n implies #[trigger] directive_positions(back)[i] == spread_head(
        ls,
        at,
        cs,
        i,
    ).len() + seg(ls, at, i).len() - 1 by {
        assert(back_ds[i].1 == spread_head(ls, at, cs, i).len() + seg(ls, at, i).len() - 1);
    }
    assert(back_ds.map_values(|d: (Seq<char>, int)| d.0) =~= ds.map_values(
        |d: (Seq<char>, int)| d.0,
    )) by {
        assert forall|i: int| 0 <= i < n implies back_ds[i].0 == ds[i].0 by {
            assert(back_ds[i].0 == include_path(ls[at[i]]));
            assert(at[i] == ds[i].1);
        }
    }
}

/// Running the include tool again on the text it wrote, with the included
/// files unchanged, changes nothing: it finds the same directives, and writes
/// the same text back. This holds for a file without carriage returns, that
/// does not end in a blank line, and in which no directive is followed yet
/// by a block; and for included contents without carriage returns, directive
/// lines or closing-marker lines. (A blank last line is dropped by the first
/// run, and carriage returns are dropped once the text is read back.)
pub proof fn lemma_rerun_changes_nothing(text: Seq<char>, cs: Seq<Seq<char>>)
    requires
        no_cr(text),
        lines_of(text).len() == 0 || lines_of(text).last().len() > 0,
        cs.len() == directive_positions(lines_of(text)).len(),
        forall|i: int| 0 <= i < cs.len() ==> plain_contents(#[trigger] cs[i]),
        forall|i: int|
            0 <= i < directive_positions(lines_of(text)).len() ==> !(#[trigger] directive_positions(
                lines_of(text),
            )[i] + 1 < lines_of(text).len() && starts_with(
                lines_of(text)[directive_positions(lines_of(text))[i] + 1],
                autogen_prefix(),
            )),
    ensures
        expand_file(text, cs).1 is None,
        ({
            let t1 = join_lines(expand_file(text, cs).0);
            &&& includes_in(lines_of(t1)).map_values(|d: (Seq<char>, int)| d.0) == includes_in(
                lines_of(text),
            ).map_values(|d: (Seq<char>, int)| d.0)
            &&& expand_file(t1, cs) == expand_file(text, cs)
            &&& join_lines(expand_file(t1, cs).0) == t1
        }),
{
    let ls = lines_of(text);
    let at = directive_positions(ls);
    let n = at.len() as int;
    let ds = includes_in(ls);
    lemma_includes_in_ordered(ls);
    lemma_lines_of_pieces(text);
    assert(fresh_directives(ls, at, at.len())) by {
        assert forall|i: int, j: int| 0 <= i < j < n implies #[trigger] at[i] < #[trigger] at[j] by {
            assert(ds[i].1 < ds[j].1);
        }
        assert forall|i: int| 0 <= i < n implies 0 <= #[trigger] at[i] < ls.len() by {
            assert(at[i] == ds[i].1);
        }
    }
    lemma_seg_bounds(ls, n);
    assert(ls.take(seg_start(at, n)) + expanded_tail(ls, at, cs, n) =~= ls);
    lemma_first_expansion(ls, at, cs, n as nat);
    let e = expanded_tail(ls, at, cs, 0);
    assert(expand_file(text, cs) == (e, None::<crate::includes::AutogenError>));
    lemma_written_text_read_back(ls, cs);
    lemma_read_back_positions(ls, cs);
    let back = spread_tail(ls, at, cs, 0);
    let at2 = directive_positions(back);
    lemma_head_tail(ls, at, cs, n);
    assert(spread_tail(ls, at, cs, n) == expanded_tail(ls, at, cs, n));
    lemma_second_expansion(ls, cs, at2, n as nat);
}

/// Expands every include directive of a file's text: `included[i]` is the
/// contents of the file that the `i`-th directive names. Gives the text to
/// write back, or the first block that cannot be removed, with the file's
/// lines as they are at that directive.
pub fn expand_text(file_path: PathBuf, contents: &str, included: Vec<String>) -> (r: Result<
    String,
    (AutogenError, Vec<String>),
>)
    requires
        includes_well_formed(contents@),
        included.len() == directive_positions(lines_of(contents@)).len(),
    ensures
        match r {
            Ok(text) => {
                &&& expand_file(contents@, views(included@)).1 is None
                &&& text@ == join_lines(expand_file(contents@, views(included@)).0)
            },
            Err((e, lines)) => {
                &&& expand_file(contents@, views(included@)).1 == Some(e)
                &&& views(lines@) == expand_file(contents@, views(included@)).0
            },
        },
{
    let mut lines = split_lines(contents);
    let includes = find_includes(file_path, contents);
    proof {
        assert(directive_lines(includes@) =~= directive_positions(lines_of(contents@)));
    }
    match expand_includes(&mut lines, &includes, included) {
        Ok(()) => Ok(join_with_newlines(&lines)),
        Err(e) => Err((e, lines)),
    }
}

} // verus!
