//! Character-level helpers on strings, stated over `Seq<char>`.

use vstd::prelude::*;

verus! {

/// Whether `c` has the Unicode `White_Space` property, which is exactly what
/// `char::is_whitespace` tests.
pub open spec fn is_white_space(c: char) -> bool {
    let u = c as u32;
    ||| (0x09 <= u && u <= 0x0d)
    ||| u == 0x20
    ||| u == 0x85
    ||| u == 0xa0
    ||| u == 0x1680
    ||| (0x2000 <= u && u <= 0x200a)
    ||| u == 0x2028
    ||| u == 0x2029
    ||| u == 0x202f
    ||| u == 0x205f
    ||| u == 0x3000
}

/// `char::is_whitespace`.
pub fn is_whitespace(c: char) -> (b: bool)
    ensures
        b == is_white_space(c),
{
    let u: u32 = c as u32;
    (0x09 <= u && u <= 0x0d) || u == 0x20 || u == 0x85 || u == 0xa0 || u == 0x1680 || (0x2000
        <= u && u <= 0x200a) || u == 0x2028 || u == 0x2029 || u == 0x202f || u == 0x205f || u
        == 0x3000
}

/// The characters of a string slice, in order.
pub fn chars_of(s: &str) -> (v: Vec<char>)
    ensures
        v@ == s@,
{
    let mut v: Vec<char> = Vec::new();
    for c in it: s.chars()
        invariant
            it.seq() == s@,
            v@ == it.seq().take(it.index()),
    {
        v.push(c);
    }
    v
}

/// Appends one character to a `String` (`String::push`).
#[verifier::external_body]
pub(crate) fn push_char(s: &mut String, c: char)
    ensures
        final(s)@ == old(s)@.push(c),
{
    s.push(c);
}

/// A `String` holding the characters of `v[from..to]`.
pub fn string_from_chars(v: &Vec<char>, from: usize, to: usize) -> (s: String)
    requires
        from <= to <= v.len(),
    ensures
        s@ == v@.subrange(from as int, to as int),
{
    let mut s = String::new();
    let mut i: usize = from;
    while i < to
        invariant
            from <= i <= to <= v.len(),
            s@ == v@.subrange(from as int, i as int),
        decreases to - i,
    {
        push_char(&mut s, v[i]);
        i = i + 1;
    }
    s
}

/// Appends the characters of `v[from..to]` to `s`.
pub fn push_chars(s: &mut String, v: &Vec<char>, from: usize, to: usize)
    requires
        from <= to <= v.len(),
    ensures
        final(s)@ == old(s)@ + v@.subrange(from as int, to as int),
{
    let mut i: usize = from;
    while i < to
        invariant
            from <= i <= to <= v.len(),
            s@ == old(s)@ + v@.subrange(from as int, i as int),
        decreases to - i,
    {
        push_char(s, v[i]);
        i = i + 1;
    }
}

/// `pat` occurs in `s` at position `i`.
pub open spec fn occurs_at(s: Seq<char>, pat: Seq<char>, i: int) -> bool {
    0 <= i && i + pat.len() <= s.len() && s.subrange(i, i + pat.len()) == pat
}

/// `pat` does not occur in `s` at any position before `i`.
pub open spec fn absent_before(s: Seq<char>, pat: Seq<char>, i: int) -> bool {
    forall|j: int| 0 <= j < i ==> !#[trigger] occurs_at(s, pat, j)
}

/// The position of the first occurrence of `pat` in `s` (what `str::find` gives,
/// counted in characters), if there is one.
pub closed spec fn first_occurrence(s: Seq<char>, pat: Seq<char>) -> Option<int> {
    if exists|i: int| occurs_at(s, pat, i) {
        Some(choose|i: int| occurs_at(s, pat, i) && absent_before(s, pat, i))
    } else {
        None
    }
}

/// A first occurrence is the value of `first_occurrence`.
pub proof fn lemma_first_occurrence(s: Seq<char>, pat: Seq<char>, i: int)
    requires
        occurs_at(s, pat, i),
        absent_before(s, pat, i),
    ensures
        first_occurrence(s, pat) == Some(i),
{
    let k = choose|k: int| occurs_at(s, pat, k) && absent_before(s, pat, k);
    assert(occurs_at(s, pat, k) && absent_before(s, pat, k));
    if k < i {
        assert(!occurs_at(s, pat, k));
    }
    if i < k {
        assert(!occurs_at(s, pat, i));
    }
}

/// Without an occurrence there is no first one.
pub proof fn lemma_no_occurrence(s: Seq<char>, pat: Seq<char>)
    requires
        forall|i: int| !occurs_at(s, pat, i),
    ensures
        first_occurrence(s, pat) is None,
{
}

/// Without a first occurrence there is no occurrence at all.
pub proof fn lemma_no_first_occurrence(s: Seq<char>, pat: Seq<char>)
    requires
        first_occurrence(s, pat) is None,
    ensures
        forall|i: int| !#[trigger] occurs_at(s, pat, i),
{
}

/// Whether `pat` occurs in `s` at position `i`.
pub fn matches_at(s: &Vec<char>, pat: &Vec<char>, i: usize) -> (b: bool)
    ensures
        b == occurs_at(s@, pat@, i as int),
{
    if i > s.len() || s.len() - i < pat.len() {
        return false;
    }
    let mut k: usize = 0;
    while k < pat.len()
        invariant
            i + pat.len() <= s.len(),
            k <= pat.len(),
            forall|m: int| 0 <= m < k ==> s@[i + m] == pat@[m],
        decreases pat.len() - k,
    {
        if s[i + k] != pat[k] {
            assert(s@.subrange(i as int, i + pat.len())[k as int] != pat@[k as int]);
            return false;
        }
        k = k + 1;
    }
    assert(s@.subrange(i as int, i + pat.len()) =~= pat@);
    true
}

/// `str::find`: the position of the first occurrence of `pat` in `s`.
pub fn find(s: &Vec<char>, pat: &Vec<char>) -> (r: Option<usize>)
    ensures
        match r {
            Some(i) => first_occurrence(s@, pat@) == Some(i as int) && occurs_at(s@, pat@, i as int),
            None => first_occurrence(s@, pat@) is None,
        },
{
    let mut i: usize = 0;
    loop
        invariant
            i <= s.len(),
            absent_before(s@, pat@, i as int),
        ensures
            absent_before(s@, pat@, s.len() + 1),
        decreases s.len() - i,
    {
        if matches_at(s, pat, i) {
            proof {
                lemma_first_occurrence(s@, pat@, i as int);
            }
            return Some(i);
        }
        if i == s.len() {
            break;
        }
        i = i + 1;
    }
    assert forall|j: int| !occurs_at(s@, pat@, j) by {
        if 0 <= j && j <= s.len() {
        }
    }
    proof {
        lemma_no_occurrence(s@, pat@);
    }
    None
}

/// `s` begins with `prefix`.
pub open spec fn starts_with(s: Seq<char>, prefix: Seq<char>) -> bool {
    prefix.len() <= s.len() && s.take(prefix.len() as int) == prefix
}

/// `str::starts_with`.
pub fn has_prefix(s: &Vec<char>, prefix: &Vec<char>) -> (b: bool)
    ensures
        b == starts_with(s@, prefix@),
{
    let b = matches_at(s, prefix, 0);
    assert(s@.subrange(0, prefix@.len() as int) == s@.take(prefix@.len() as int));
    b
}

/// `s` with its leading white space removed (`str::trim_start`).
pub open spec fn trim_start(s: Seq<char>) -> Seq<char>
    decreases s.len(),
{
    if s.len() > 0 && is_white_space(s[0]) {
        trim_start(s.drop_first())
    } else {
        s
    }
}

/// The number of leading white-space characters of `s[from..]`, added to `from`.
pub fn skip_white_space(s: &Vec<char>, from: usize) -> (k: usize)
    requires
        from <= s.len(),
    ensures
        from <= k <= s.len(),
        trim_start(s@.skip(from as int)) == s@.skip(k as int),
{
    let mut k: usize = from;
    while k < s.len() && is_whitespace(s[k])
        invariant
            from <= k <= s.len(),
            trim_start(s@.skip(from as int)) == trim_start(s@.skip(k as int)),
        decreases s.len() - k,
    {
        assert(s@.skip(k as int).drop_first() =~= s@.skip(k + 1));
        k = k + 1;
    }
    k
}

} // verus!
