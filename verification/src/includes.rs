//! The shader include tool: finds `////#include "path"` directives in a shader
//! and keeps, below each one, an auto-generated copy of the included file,
//! guarded by a hash of its non-white-space characters.

use vstd::prelude::*;
use vstd::utf8::encode_utf8;
use std::path::PathBuf;
use sha2::{Digest, Sha256};
use crate::text::{
    chars_of, has_prefix, is_white_space, push_char, skip_white_space, starts_with, trim_start,
};
use crate::lines::{
    lemma_newline_split_nonempty, lines_of, newline_split, split_lines, strip_cr, views,
};

verus! {

#[verifier::external_type_specification]
#[verifier::external_body]
pub struct ExPathBuf(PathBuf);

/// Cloning a `PathBuf` gives an equal path.
pub assume_specification[ <PathBuf as Clone>::clone ](p: &PathBuf) -> (r: PathBuf)
    ensures
        r == *p,
;

/// The marker line that opens an auto-generated block (followed by its hash).
pub open spec fn autogen_prefix() -> Seq<char> {
    "//// AUTOGEN"@
}

/// The marker line that closes an auto-generated block.
pub open spec fn autogen_suffix() -> Seq<char> {
    "//// END OF AUTOGEN"@
}

/// The start of an include directive.
pub open spec fn include_prefix() -> Seq<char> {
    "////#include"@
}

// ---------------------------------------------------------------------------
// Parsing include directives
// ---------------------------------------------------------------------------

/// The path of a quoted string whose opening quote is already consumed: every
/// character up to the next `"`, where `\x` stands for `x` (an escaped `"` also
/// ends the path). `None` where the line ends first.
pub open spec fn parse_quoted(s: Seq<char>) -> Option<Seq<char>>
    decreases s.len(),
{
    if s.len() == 0 {
        None
    } else if s[0] == '\\' && s.len() < 2 {
        None
    } else {
        let c = if s[0] == '\\' {
            s[1]
        } else {
            s[0]
        };
        let used: int = if s[0] == '\\' {
            2
        } else {
            1
        };
        if c == '"' {
            Some(Seq::<char>::empty())
        } else {
            match parse_quoted(s.skip(used)) {
                Some(rest) => Some(seq![c] + rest),
                None => None,
            }
        }
    }
}

/// Every character up to the closing quote belongs to the path, spaces and
/// all: for a path `q` without quotes or backslashes, the quoted text `q"...`
/// parses to exactly `q`, whatever follows the quote.
pub proof fn lemma_parse_plain_path(q: Seq<char>, rest: Seq<char>)
    requires
        forall|i: int| 0 <= i < q.len() ==> q[i] != '"' && q[i] != '\\',
    ensures
        parse_quoted(q + seq!['"'] + rest) == Some(q),
    decreases q.len(),
{
    let s = q + seq!['"'] + rest;
    if q.len() == 0 {
        assert(s[0] == '"');
        assert(q =~= Seq::<char>::empty());
    } else {
        lemma_parse_plain_path(q.drop_first(), rest);
        assert(s.skip(1) =~= q.drop_first() + seq!['"'] + rest);
        assert(seq![q[0]] + q.drop_first() =~= q);
    }
}

/// A backslash takes the next character into the path as it is: an escaped
/// quote ends the path like a plain one, any other escaped character is
/// kept and parsing goes on after it.
pub proof fn lemma_parse_escape(c: char, rest: Seq<char>)
    ensures
        parse_quoted(seq!['\\', c] + rest) == if c == '"' {
            Some(Seq::<char>::empty())
        } else {
            match parse_quoted(rest) {
                Some(p) => Some(seq![c] + p),
                None => None,
            }
        },
{
    let s = seq!['\\', c] + rest;
    assert(s[0] == '\\');
    assert(s[1] == c);
    assert(s.skip(2) =~= rest);
}

/// The line is an include directive.
pub open spec fn is_include_line(l: Seq<char>) -> bool {
    starts_with(l, include_prefix())
}

/// What follows the directive's keyword, leading white space removed.
pub open spec fn include_argument(l: Seq<char>) -> Seq<char> {
    trim_start(l.skip(include_prefix().len() as int))
}

/// The line is no include directive, or one with a complete quoted path.
pub open spec fn include_line_ok(l: Seq<char>) -> bool {
    is_include_line(l) ==> {
        let arg = include_argument(l);
        &&& arg.len() > 0
        &&& arg[0] == '"'
        &&& parse_quoted(arg.drop_first()) is Some
    }
}

/// The path that an include directive names.
pub open spec fn include_path(l: Seq<char>) -> Seq<char> {
    parse_quoted(include_argument(l).drop_first()).unwrap()
}

/// An include directive found in a shader: the path it names, the file it
/// was found in, and the (0-based) line it stands on.
pub struct IncludeStatement {
    pub import_path: String,
    pub relative_to: PathBuf,
    pub line_number: usize,
}

/// The parent of a path, as `Path::parent` gives it for the target's path
/// syntax (`None` where the path ends in a root or prefix, or is empty).
pub uninterp spec fn parent_of(p: PathBuf) -> Option<PathBuf>;

/// A path joined with a relative path, as `Path::join` gives it for the
/// target's path syntax.
pub uninterp spec fn joined_path(base: PathBuf, rel: Seq<char>) -> PathBuf;

/// `Path::parent`, turned into an owned path: the result is the parent that
/// the target's path syntax gives, a function of the path alone. What that
/// parent is (it depends on the path syntax) is not stated.
#[verifier::external_body]
fn path_parent(p: &PathBuf) -> (r: Option<PathBuf>)
    ensures
        r == parent_of(*p),
{
    match p.parent() {
        Some(q) => Some(q.to_path_buf()),
        None => None,
    }
}

/// `Path::join`: the result is the join that the target's path syntax gives,
/// a function of the two paths alone. What that join is (it depends on the
/// path syntax, and an absolute `rel` replaces `base`) is not stated.
#[verifier::external_body]
fn path_join(base: &PathBuf, rel: &str) -> (r: PathBuf)
    ensures
        r == joined_path(*base, rel@),
{
    base.join(rel)
}

impl IncludeStatement {
    /// The included file's path: the import path taken relative to the folder
    /// of the file that holds the directive. `None` where that file's path has
    /// no parent.
    pub fn full_path(&self) -> (r: Option<PathBuf>)
        ensures
            r == match parent_of(self.relative_to) {
                Some(parent) => Some(joined_path(parent, self.import_path@)),
                None => None,
            },
    {
        match path_parent(&self.relative_to) {
            Some(parent) => Some(path_join(&parent, self.import_path.as_str())),
            None => None,
        }
    }
}

/// Every line of `contents` is no include directive or a complete one.
pub open spec fn includes_well_formed(contents: Seq<char>) -> bool {
    forall|k: int| 0 <= k < lines_of(contents).len() ==> include_line_ok(#[trigger] lines_of(contents)[k])
}

/// The parsed path of the quoted string that starts at `chars[from]`.
fn parse_quoted_path(chars: &Vec<char>, from: usize) -> (path: String)
    requires
        from <= chars.len(),
        parse_quoted(chars@.skip(from as int)) is Some,
    ensures
        path@ == parse_quoted(chars@.skip(from as int)).unwrap(),
{
    let ghost full = parse_quoted(chars@.skip(from as int)).unwrap();
    let mut path = String::new();
    let mut i: usize = from;
    loop
        invariant
            from <= i <= chars.len(),
            parse_quoted(chars@.skip(i as int)) is Some,
            full == parse_quoted(chars@.skip(from as int)).unwrap(),
            full == path@ + parse_quoted(chars@.skip(i as int)).unwrap(),
        decreases chars.len() - i,
    {
        let ghost s = chars@.skip(i as int);
        proof {
            assert(s.len() > 0);
            assert(s[0] == chars@[i as int]);
            assert(s.len() > 1 ==> s[1] == chars@[i + 1]);
        }
        let escaped = chars[i] == '\\';
        let c = if escaped {
            chars[i + 1]
        } else {
            chars[i]
        };
        if c == '"' {
            assert(parse_quoted(s) == Some(Seq::<char>::empty()));
            assert(path@ + Seq::<char>::empty() =~= path@);
            return path;
        }
        let used: usize = if escaped {
            2
        } else {
            1
        };
        proof {
            assert(s.skip(used as int) =~= chars@.skip(i + used));
            let rest = parse_quoted(s.skip(used as int)).unwrap();
            assert(path@.push(c) + rest =~= path@ + (seq![c] + rest));
        }
        push_char(&mut path, c);
        i = i + used;
    }
}

/// Parses one line: `None` where it is no include directive, else the
/// directive with its path, the file it is in and its line number.
pub fn try_parse_include(file_path: PathBuf, line: &str, line_number: usize) -> (r: Option<
    IncludeStatement,
>)
    requires
        include_line_ok(line@),
    ensures
        match r {
            None => !is_include_line(line@),
            Some(inc) => {
                &&& is_include_line(line@)
                &&& inc.import_path@ == include_path(line@)
                &&& inc.relative_to == file_path
                &&& inc.line_number == line_number
            },
        },
{
    let chars = chars_of(line);
    let prefix = chars_of("////#include");
    if !has_prefix(&chars, &prefix) {
        return None;
    }
    let k = skip_white_space(&chars, prefix.len());
    proof {
        assert(chars@.skip(k as int).drop_first() =~= chars@.skip(k + 1));
    }
    let import_path = parse_quoted_path(&chars, k + 1);
    Some(IncludeStatement { import_path, relative_to: file_path, line_number })
}

/// The include directives among `ls`, as (path, line number) pairs, in order.
pub open spec fn includes_in(ls: Seq<Seq<char>>) -> Seq<(Seq<char>, int)>
    decreases ls.len(),
{
    if ls.len() == 0 {
        Seq::empty()
    } else if is_include_line(ls.last()) {
        includes_in(ls.drop_last()).push((include_path(ls.last()), ls.len() - 1))
    } else {
        includes_in(ls.drop_last())
    }
}

/// Whether every line of `contents` is no include directive or a complete one:
/// the condition under which `find_includes` accepts a file.
pub fn check_includes(contents: &str) -> (ok: bool)
    ensures
        ok == includes_well_formed(contents@),
{
    let lines = split_lines(contents);
    let mut k: usize = 0;
    while k < lines.len()
        invariant
            k <= lines.len(),
            views(lines@) == lines_of(contents@),
            forall|j: int| 0 <= j < k ==> include_line_ok(#[trigger] lines_of(contents@)[j]),
        decreases lines.len() - k,
    {
        let chars = chars_of(lines[k].as_str());
        let prefix = chars_of("////#include");
        assert(views(lines@)[k as int] == lines@[k as int]@);
        if has_prefix(&chars, &prefix) {
            let a = skip_white_space(&chars, prefix.len());
            proof {
                if a < chars.len() {
                    assert(chars@.skip(a as int).drop_first() =~= chars@.skip(a + 1));
                }
            }
            if a >= chars.len() || chars[a] != '"' || !quoted_path_complete(&chars, a + 1) {
                return false;
            }
        }
        k = k + 1;
    }
    true
}

/// Whether the quoted string starting at `chars[from]` ends on the line.
fn quoted_path_complete(chars: &Vec<char>, from: usize) -> (ok: bool)
    requires
        from <= chars.len(),
    ensures
        ok == parse_quoted(chars@.skip(from as int)) is Some,
{
    let mut i: usize = from;
    loop
        invariant
            from <= i <= chars.len(),
            parse_quoted(chars@.skip(from as int)) is Some == parse_quoted(
                chars@.skip(i as int),
            ) is Some,
        decreases chars.len() - i,
    {
        let ghost s = chars@.skip(i as int);
        if i == chars.len() {
            return false;
        }
        proof {
            assert(s[0] == chars@[i as int]);
            assert(s.len() > 1 ==> s[1] == chars@[i + 1]);
        }
        let escaped = chars[i] == '\\';
        if escaped && i + 1 == chars.len() {
            return false;
        }
        let c = if escaped {
            chars[i + 1]
        } else {
            chars[i]
        };
        if c == '"' {
            return true;
        }
        let used: usize = if escaped {
            2
        } else {
            1
        };
        proof {
            assert(s.skip(used as int) =~= chars@.skip(i + used));
        }
        i = i + used;
    }
}

/// The directives are found in line order, on lines of the file.
pub proof fn lemma_includes_in_ordered(ls: Seq<Seq<char>>)
    ensures
        forall|i: int|
            0 <= i < includes_in(ls).len() ==> 0 <= #[trigger] includes_in(ls)[i].1 < ls.len(),
        forall|i: int, j: int|
            0 <= i < j < includes_in(ls).len() ==> #[trigger] includes_in(ls)[i].1
                < #[trigger] includes_in(ls)[j].1,
    decreases ls.len(),
{
    if ls.len() > 0 {
        let prev = includes_in(ls.drop_last());
        lemma_includes_in_ordered(ls.drop_last());
        let cur = includes_in(ls);
        if is_include_line(ls.last()) {
            assert(cur == prev.push((include_path(ls.last()), ls.len() - 1)));
            assert forall|i: int| 0 <= i < cur.len() implies 0 <= #[trigger] cur[i].1 < ls.len() by {
                if i < prev.len() {
                    assert(cur[i] == prev[i]);
                }
            }
            assert forall|i: int, j: int| 0 <= i < j < cur.len() implies #[trigger] cur[i].1
                < #[trigger] cur[j].1 by {
                assert(cur[i] == prev[i]);
                if j < prev.len() {
                    assert(cur[j] == prev[j]);
                }
            }
        } else {
            assert(cur == prev);
        }
    }
}

/// All include directives of a file, in order.
pub fn find_includes(file_path: PathBuf, contents: &str) -> (includes: Vec<IncludeStatement>)
    requires
        includes_well_formed(contents@),
    ensures
        includes.len() == includes_in(lines_of(contents@)).len(),
        forall|i: int|
            0 <= i < includes.len() ==> {
                &&& (#[trigger] includes[i]).import_path@ == includes_in(lines_of(contents@))[i].0
                &&& includes[i].line_number == includes_in(lines_of(contents@))[i].1
                &&& includes[i].relative_to == file_path
            },
        forall|i: int|
            0 <= i < includes.len() ==> (#[trigger] includes[i]).line_number < lines_of(
                contents@,
            ).len(),
        forall|i: int, j: int|
            0 <= i < j < includes.len() ==> #[trigger] includes[i].line_number
                < #[trigger] includes[j].line_number,
{
    proof {
        lemma_includes_in_ordered(lines_of(contents@));
    }
    let lines = split_lines(contents);
    let mut includes: Vec<IncludeStatement> = Vec::new();
    let mut k: usize = 0;
    while k < lines.len()
        invariant
            k <= lines.len(),
            views(lines@) == lines_of(contents@),
            includes_well_formed(contents@),
            includes.len() == includes_in(lines_of(contents@).take(k as int)).len(),
            forall|i: int|
                0 <= i < includes.len() ==> {
                    &&& (#[trigger] includes[i]).import_path@ == includes_in(
                        lines_of(contents@).take(k as int),
                    )[i].0
                    &&& includes[i].line_number == includes_in(
                        lines_of(contents@).take(k as int),
                    )[i].1
                    &&& includes[i].relative_to == file_path
                },
        decreases lines.len() - k,
    {
        let ghost ls = lines_of(contents@);
        proof {
            assert(ls.take(k + 1).drop_last() =~= ls.take(k as int));
            assert(ls.take(k + 1).last() == ls[k as int]);
            assert(views(lines@)[k as int] == lines@[k as int]@);
            assert(include_line_ok(ls[k as int]));
        }
        match try_parse_include(file_path.clone(), lines[k].as_str(), k) {
            Some(found) => {
                includes.push(found);
            },
            None => {},
        }
        k = k + 1;
    }
    proof {
        assert(lines_of(contents@).take(k as int) =~= lines_of(contents@));
        let found = includes_in(lines_of(contents@));
        assert forall|i: int, j: int| 0 <= i < j < includes.len() implies #[trigger] includes[i].line_number
            < #[trigger] includes[j].line_number by {
            assert(found[i].1 < found[j].1);
        }
        assert forall|i: int| 0 <= i < includes.len() implies (#[trigger] includes[i]).line_number
            < lines_of(contents@).len() by {
            assert(found[i].1 < lines_of(contents@).len());
        }
    }
    includes
}

// ---------------------------------------------------------------------------
// Hashing blocks
// ---------------------------------------------------------------------------

/// `s` without its white-space characters.
pub open spec fn remove_white_space(s: Seq<char>) -> Seq<char>
    decreases s.len(),
{
    if s.len() == 0 {
        Seq::<char>::empty()
    } else if is_white_space(s.last()) {
        remove_white_space(s.drop_last())
    } else {
        remove_white_space(s.drop_last()).push(s.last())
    }
}

/// What is hashed for a list of lines: their non-white-space characters, in order.
pub open spec fn hash_input(ls: Seq<Seq<char>>) -> Seq<char>
    decreases ls.len(),
{
    if ls.len() == 0 {
        Seq::<char>::empty()
    } else {
        hash_input(ls.drop_last()) + remove_white_space(ls.last())
    }
}

/// The SHA-256 digest of a byte string, as `sha2` computes it.
pub uninterp spec fn sha256_of(data: Seq<u8>) -> Seq<u8>;

/// `sha2::Sha256::digest`: the result is the SHA-256 digest of `data`, and
/// depends on `data` alone; a SHA-256 digest is 32 bytes long.
#[verifier::external_body]
fn sha256_digest(data: &[u8]) -> (digest: Vec<u8>)
    ensures
        digest@ == sha256_of(data@),
        digest@.len() == 32,
{
    Sha256::digest(data).to_vec()
}

/// The lower-case hexadecimal digit of `n < 16`.
pub open spec fn hex_digit(n: int) -> char {
    if n < 10 {
        (n + 48) as char
    } else {
        (n + 87) as char
    }
}

/// Two lower-case hexadecimal digits per byte, high nibble first (`{:x}`).
pub open spec fn hex_lower(bytes: Seq<u8>) -> Seq<char>
    decreases bytes.len(),
{
    if bytes.len() == 0 {
        Seq::<char>::empty()
    } else {
        hex_lower(bytes.drop_last()) + seq![
            hex_digit(bytes.last() as int / 16),
            hex_digit(bytes.last() as int % 16),
        ]
    }
}

/// The hash that guards a block holding the lines `ls`.
pub open spec fn hash_of_lines(ls: Seq<Seq<char>>) -> Seq<char> {
    hex_lower(sha256_of(encode_utf8(hash_input(ls))))
}

fn hex_char(n: u8) -> (c: char)
    requires
        n < 16,
    ensures
        c == hex_digit(n as int),
{
    if n < 10 {
        (n + 48) as char
    } else {
        (n + 87) as char
    }
}

/// The hash of a list of lines: the lower-case hexadecimal SHA-256 digest of
/// their characters with all white space left out.
pub fn compute_hash(lines: &[String]) -> (hash: String)
    ensures
        hash@ == hash_of_lines(views(lines@)),
        hash@.len() == 64,
{
    let mut text = String::new();
    let mut k: usize = 0;
    while k < lines.len()
        invariant
            k <= lines.len(),
            text@ == hash_input(views(lines@.take(k as int))),
        decreases lines.len() - k,
    {
        let ghost before = text@;
        proof {
            assert(views(lines@.take(k + 1)).drop_last() =~= views(lines@.take(k as int)));
            assert(views(lines@.take(k + 1)).last() == lines@[k as int]@);
        }
        let line = chars_of(lines[k].as_str());
        let mut i: usize = 0;
        while i < line.len()
            invariant
                i <= line.len(),
                text@ == before + remove_white_space(line@.take(i as int)),
            decreases line.len() - i,
        {
            proof {
                assert(line@.take(i + 1).drop_last() =~= line@.take(i as int));
            }
            if !crate::text::is_whitespace(line[i]) {
                push_char(&mut text, line[i]);
            }
            i = i + 1;
        }
        proof {
            assert(line@.take(i as int) =~= line@);
        }
        k = k + 1;
    }
    proof {
        assert(lines@.take(k as int) =~= lines@);
    }
    let digest = sha256_digest(text.as_str().as_bytes());
    let mut hash = String::new();
    let mut j: usize = 0;
    while j < digest.len()
        invariant
            j <= digest.len(),
            hash@ == hex_lower(digest@.take(j as int)),
        decreases digest.len() - j,
    {
        proof {
            assert(digest@.take(j + 1).drop_last() =~= digest@.take(j as int));
        }
        let b = digest[j];
        push_char(&mut hash, hex_char(b / 16));
        push_char(&mut hash, hex_char(b % 16));
        proof {
            assert(hash@ =~= hex_lower(digest@.take(j as int)) + seq![
                hex_digit(b as int / 16),
                hex_digit(b as int % 16),
            ]);
        }
        j = j + 1;
    }
    proof {
        assert(digest@.take(j as int) =~= digest@);
        lemma_hex_lower_len(digest@);
    }
    hash
}

proof fn lemma_hex_lower_len(bytes: Seq<u8>)
    ensures
        hex_lower(bytes).len() == 2 * bytes.len(),
    decreases bytes.len(),
{
    if bytes.len() > 0 {
        lemma_hex_lower_len(bytes.drop_last());
    }
}

// ---------------------------------------------------------------------------
// Auto-generated blocks
// ---------------------------------------------------------------------------

/// Why an existing auto-generated block cannot be removed.
#[derive(Debug, PartialEq, Eq, Structural)]
pub enum AutogenError {
    /// The block's opening marker has no closing marker after it.
    MissingEnd,
    /// The lines `start..end` of the block no longer match the block's hash:
    /// someone edited the block.
    HashMismatch { start: usize, end: usize },
}

/// The first line at or after `k` that starts with the closing marker.
pub open spec fn suffix_line_from(ls: Seq<Seq<char>>, k: int) -> Option<int>
    decreases ls.len() - k,
{
    if k < 0 || k >= ls.len() {
        None
    } else if starts_with(ls[k], autogen_suffix()) {
        Some(k)
    } else {
        suffix_line_from(ls, k + 1)
    }
}

/// The hash written on an opening marker line.
pub open spec fn recorded_hash(marker: Seq<char>) -> Seq<char> {
    trim_start(marker.skip(autogen_prefix().len() as int))
}

/// Removing the auto-generated block that follows line `n`, if there is one:
/// the lines without the block, or why the block cannot be removed.
pub open spec fn remove_block(ls: Seq<Seq<char>>, n: int) -> Result<Seq<Seq<char>>, AutogenError> {
    let p = n + 1;
    if p >= ls.len() || !starts_with(ls[p], autogen_prefix()) {
        Ok(ls)
    } else {
        match suffix_line_from(ls, p) {
            None => Err(AutogenError::MissingEnd),
            Some(q) => if hash_of_lines(ls.subrange(p + 1, q)) != recorded_hash(ls[p]) {
                Err(AutogenError::HashMismatch { start: (p + 1) as usize, end: q as usize })
            } else {
                Ok(ls.take(p) + ls.skip(q + 1))
            },
        }
    }
}

pub proof fn lemma_suffix_line_from(ls: Seq<Seq<char>>, k: int)
    ensures
        suffix_line_from(ls, k) matches Some(q) ==> {
            &&& k <= q < ls.len()
            &&& starts_with(ls[q], autogen_suffix())
            &&& forall|j: int| k <= j < q ==> !starts_with(#[trigger] ls[j], autogen_suffix())
        },
    decreases ls.len() - k,
{
    if 0 <= k < ls.len() && !starts_with(ls[k], autogen_suffix()) {
        lemma_suffix_line_from(ls, k + 1);
    }
}

/// The first line at or after `from` that starts with the closing marker.
fn find_suffix_line(lines: &Vec<String>, from: usize) -> (r: Option<usize>)
    requires
        from <= lines.len(),
    ensures
        match r {
            Some(q) => suffix_line_from(views(lines@), from as int) == Some(q as int),
            None => suffix_line_from(views(lines@), from as int) is None,
        },
{
    let suffix = chars_of("//// END OF AUTOGEN");
    let mut k: usize = from;
    while k < lines.len()
        invariant
            from <= k <= lines.len(),
            suffix@ == autogen_suffix(),
            suffix_line_from(views(lines@), from as int) == suffix_line_from(
                views(lines@),
                k as int,
            ),
        decreases lines.len() - k,
    {
        let line = chars_of(lines[k].as_str());
        assert(views(lines@)[k as int] == lines@[k as int]@);
        if has_prefix(&line, &suffix) {
            return Some(k);
        }
        k = k + 1;
    }
    None
}

/// Removes the auto-generated block that follows line `line_number`, if there
/// is one (its opening marker stands on the next line): checks the block's
/// hash and deletes it with both markers. Lines are unchanged on an error.
pub fn delete_old_include(lines: &mut Vec<String>, line_number: usize) -> (r: Result<
    (),
    AutogenError,
>)
    ensures
        match remove_block(views(old(lines)@), line_number as int) {
            Ok(ls) => r is Ok && views(final(lines)@) == ls,
            Err(e) => r == Err::<(), AutogenError>(e) && final(lines)@ == old(lines)@,
        },
{
    if line_number >= lines.len() || lines.len() - line_number < 2 {
        return Ok(());
    }
    let prefix_index: usize = line_number + 1;
    let next_line = chars_of(lines[prefix_index].as_str());
    let prefix = chars_of("//// AUTOGEN");
    assert(views(lines@)[prefix_index as int] == lines@[prefix_index as int]@);
    if !has_prefix(&next_line, &prefix) {
        return Ok(());
    }
    let h = skip_white_space(&next_line, prefix.len());
    let suffix_index = match find_suffix_line(lines, prefix_index) {
        Some(q) => q,
        None => {
            return Err(AutogenError::MissingEnd);
        },
    };
    proof {
        lemma_suffix_line_from(views(lines@), prefix_index as int);
        if suffix_index == prefix_index {
            reveal_strlit("//// AUTOGEN");
            reveal_strlit("//// END OF AUTOGEN");
            assert(prefix@[5] == 'A');
            assert(autogen_suffix()[5] == 'E');
            assert(next_line@.take(prefix@.len() as int)[5] == next_line@[5]);
            assert(next_line@.take(autogen_suffix().len() as int)[5] == next_line@[5]);
        }
    }
    let existing = slice_lines(lines, prefix_index + 1, suffix_index);
    let hash = compute_hash(existing.as_slice());
    let hash_chars = chars_of(hash.as_str());
    let recorded = vec_from_index(&next_line, h);
    proof {
        assert(views(existing@) =~= views(lines@).subrange(prefix_index + 1, suffix_index as int));
    }
    if !same_chars(&hash_chars, &recorded) {
        return Err(AutogenError::HashMismatch { start: prefix_index + 1, end: suffix_index });
    }
    let ghost before = lines@;
    let count: usize = suffix_index - prefix_index + 1;
    let mut removed: usize = 0;
    while removed < count
        invariant
            prefix_index <= suffix_index < before.len(),
            count == suffix_index - prefix_index + 1,
            removed <= count,
            lines@ == before.take(prefix_index as int) + before.skip(prefix_index + removed),
        decreases count - removed,
    {
        lines.remove(prefix_index);
        proof {
            assert(lines@ =~= before.take(prefix_index as int) + before.skip(
                prefix_index + removed + 1,
            ));
        }
        removed = removed + 1;
    }
    proof {
        assert(views(lines@) =~= views(before).take(prefix_index as int) + views(before).skip(
            suffix_index + 1,
        ));
    }
    Ok(())
}

/// Copies of the lines `from..to`.
fn slice_lines(lines: &Vec<String>, from: usize, to: usize) -> (r: Vec<String>)
    requires
        from <= to <= lines.len(),
    ensures
        views(r@) == views(lines@).subrange(from as int, to as int),
{
    let mut r: Vec<String> = Vec::new();
    let mut k: usize = from;
    while k < to
        invariant
            from <= k <= to <= lines.len(),
            views(r@) == views(lines@).subrange(from as int, k as int),
        decreases to - k,
    {
        let line = lines[k].clone();
        assert(line@ == lines@[k as int]@);
        let ghost old_r = r@;
        r.push(line);
        proof {
            assert(views(r@) =~= views(old_r).push(line@));
            assert(views(r@) =~= views(lines@).subrange(from as int, k + 1));
        }
        k = k + 1;
    }
    r
}

/// The characters `v[from..]`.
fn vec_from_index(v: &Vec<char>, from: usize) -> (r: Vec<char>)
    requires
        from <= v.len(),
    ensures
        r@ == v@.skip(from as int),
{
    let mut r: Vec<char> = Vec::new();
    let mut k: usize = from;
    while k < v.len()
        invariant
            from <= k <= v.len(),
            r@ == v@.subrange(from as int, k as int),
        decreases v.len() - k,
    {
        r.push(v[k]);
        k = k + 1;
    }
    r
}

/// Whether two character sequences are equal.
fn same_chars(a: &Vec<char>, b: &Vec<char>) -> (eq: bool)
    ensures
        eq == (a@ == b@),
{
    if a.len() != b.len() {
        return false;
    }
    let mut k: usize = 0;
    while k < a.len()
        invariant
            a.len() == b.len(),
            k <= a.len(),
            forall|j: int| 0 <= j < k ==> a@[j] == b@[j],
        decreases a.len() - k,
    {
        if a[k] != b[k] {
            return false;
        }
        k = k + 1;
    }
    assert(a@ =~= b@);
    true
}

/// The lines after inserting, below line `n`, an auto-generated block that
/// holds `contents`: the opening marker with the hash of the contents' lines,
/// the contents, and the closing marker.
pub open spec fn insert_block(ls: Seq<Seq<char>>, n: int, contents: Seq<char>) -> Seq<Seq<char>> {
    ls.take(n + 1) + seq![
        autogen_prefix() + seq![' '] + hash_of_lines(lines_of(contents)),
        contents,
        autogen_suffix(),
    ] + ls.skip(n + 1)
}

/// Inserts, below the directive's line, an auto-generated block holding the
/// included file's contents and guarded by their hash.
pub fn insert_new_include(lines: &mut Vec<String>, statement: &IncludeStatement, contents: String)
    requires
        statement.line_number < old(lines).len(),
    ensures
        views(final(lines)@) == insert_block(
            views(old(lines)@),
            statement.line_number as int,
            contents@,
        ),
{
    let content_lines = split_lines(contents.as_str());
    let hash = compute_hash(content_lines.as_slice());
    let hash_chars = chars_of(hash.as_str());
    let prefix = chars_of("//// AUTOGEN");
    let mut header = String::new();
    crate::text::push_chars(&mut header, &prefix, 0, prefix.len());
    push_char(&mut header, ' ');
    crate::text::push_chars(&mut header, &hash_chars, 0, hash_chars.len());
    let suffix_chars = chars_of("//// END OF AUTOGEN");
    let suffix = crate::text::string_from_chars(&suffix_chars, 0, suffix_chars.len());
    proof {
        assert(prefix@.subrange(0, prefix@.len() as int) =~= prefix@);
        assert(hash_chars@.subrange(0, hash_chars@.len() as int) =~= hash_chars@);
        assert(suffix_chars@.subrange(0, suffix_chars@.len() as int) =~= suffix_chars@);
        assert(header@ =~= autogen_prefix() + seq![' '] + hash_of_lines(lines_of(contents@)));
        assert(suffix@ == autogen_suffix());
    }
    let ghost header_view = header@;
    let ghost contents_view = contents@;
    let ghost before = lines@;
    let next_line: usize = statement.line_number + 1;
    lines.insert(next_line, header);
    let len1 = lines.len();
    assert(next_line < len1);
    lines.insert(next_line + 1, contents);
    let len2 = lines.len();
    assert(next_line + 1 < len2);
    lines.insert(next_line + 2, suffix);
    proof {
        assert(lines@[next_line as int]@ == header_view);
        assert(lines@[next_line + 1]@ == contents_view);
        assert(lines@[next_line + 2]@ == autogen_suffix());
        assert(views(lines@) =~= insert_block(
            views(before),
            statement.line_number as int,
            contents@,
        ));
    }
}

// ---------------------------------------------------------------------------
// Laws
// ---------------------------------------------------------------------------

proof fn lemma_hash_input_append(a: Seq<Seq<char>>, b: Seq<Seq<char>>)
    ensures
        hash_input(a + b) == hash_input(a) + hash_input(b),
    decreases b.len(),
{
    if b.len() == 0 {
        assert(a + b =~= a);
    } else {
        lemma_hash_input_append(a, b.drop_last());
        assert((a + b).drop_last() =~= a + b.drop_last());
        assert((a + b).last() == b.last());
    }
}

proof fn lemma_remove_white_space_append(a: Seq<char>, b: Seq<char>)
    ensures
        remove_white_space(a + b) == remove_white_space(a) + remove_white_space(b),
    decreases b.len(),
{
    if b.len() == 0 {
        assert(a + b =~= a);
    } else {
        lemma_remove_white_space_append(a, b.drop_last());
        assert((a + b).drop_last() =~= a + b.drop_last());
        assert((a + b).last() == b.last());
    }
}

proof fn lemma_remove_white_space_strip_cr(l: Seq<char>)
    ensures
        remove_white_space(strip_cr(l)) == remove_white_space(l),
{
    assert(is_white_space('\r'));
}

proof fn lemma_hash_input_strip_cr(ls: Seq<Seq<char>>)
    ensures
        hash_input(ls.map_values(|l: Seq<char>| strip_cr(l))) == hash_input(ls),
    decreases ls.len(),
{
    if ls.len() > 0 {
        let m = ls.map_values(|l: Seq<char>| strip_cr(l));
        lemma_hash_input_strip_cr(ls.drop_last());
        assert(m.drop_last() =~= ls.drop_last().map_values(|l: Seq<char>| strip_cr(l)));
        lemma_remove_white_space_strip_cr(ls.last());
    }
}

/// What is hashed of a text's pieces is its non-white-space characters.
pub proof fn lemma_hash_input_newline_split(c: Seq<char>)
    ensures
        hash_input(newline_split(c)) == remove_white_space(c),
    decreases c.len(),
{
    if c.len() == 0 {
        let e = Seq::<char>::empty();
        assert(seq![e].drop_last() =~= Seq::<Seq<char>>::empty());
        assert(seq![e].last() == e);
        assert(hash_input(Seq::<Seq<char>>::empty()) == e);
        assert(hash_input(newline_split(c)) =~= Seq::<char>::empty());
    } else {
        let rest = newline_split(c.drop_last());
        lemma_hash_input_newline_split(c.drop_last());
        lemma_newline_split_nonempty(c.drop_last());
        let x = c.last();
        if x == '\n' {
            assert(is_white_space('\n'));
            assert(rest.push(Seq::<char>::empty()).drop_last() =~= rest);
            assert(hash_input(newline_split(c)) =~= hash_input(rest));
        } else {
            let upd = rest.update(rest.len() - 1, rest.last().push(x));
            assert(upd.drop_last() =~= rest.drop_last());
            assert(rest.last().push(x).drop_last() =~= rest.last());
            assert(hash_input(rest) == hash_input(rest.drop_last()) + remove_white_space(
                rest.last(),
            ));
            assert(hash_input(upd) =~= hash_input(rest) + remove_white_space(seq![x])) by {
                assert(remove_white_space(seq![x]) == remove_white_space(
                    Seq::<char>::empty(),
                ) + if is_white_space(x) {
                    Seq::<char>::empty()
                } else {
                    seq![x]
                }) by {
                    assert(seq![x].drop_last() =~= Seq::<char>::empty());
                }
            }
            lemma_remove_white_space_append(c.drop_last(), seq![x]);
            assert(c.drop_last() + seq![x] =~= c);
        }
    }
}

proof fn lemma_hash_input_white_space(a: Seq<Seq<char>>, b: Seq<Seq<char>>)
    requires
        a.len() == b.len(),
        forall|i: int|
            0 <= i < a.len() ==> remove_white_space(#[trigger] a[i]) == remove_white_space(b[i]),
    ensures
        hash_input(a) == hash_input(b),
    decreases a.len(),
{
    if a.len() > 0 {
        assert forall|i: int| 0 <= i < a.drop_last().len() implies remove_white_space(
            #[trigger] a.drop_last()[i],
        ) == remove_white_space(b.drop_last()[i]) by {
            assert(a.drop_last()[i] == a[i]);
            assert(b.drop_last()[i] == b[i]);
        }
        lemma_hash_input_white_space(a.drop_last(), b.drop_last());
        assert(remove_white_space(a[a.len() - 1]) == remove_white_space(b[b.len() - 1]));
    }
}

/// White space does not count towards the hash: two lists of lines that
/// agree line by line once white space is removed have the same hash.
pub proof fn lemma_hash_ignores_white_space(a: Seq<Seq<char>>, b: Seq<Seq<char>>)
    requires
        a.len() == b.len(),
        forall|i: int|
            0 <= i < a.len() ==> remove_white_space(#[trigger] a[i]) == remove_white_space(b[i]),
    ensures
        hash_of_lines(a) == hash_of_lines(b),
{
    lemma_hash_input_white_space(a, b);
}

/// The hash of a text's lines is the hash of the text as one line: splitting
/// at line endings removes only white space.
pub proof fn lemma_hash_of_split_lines(c: Seq<char>)
    ensures
        hash_of_lines(lines_of(c)) == hash_of_lines(seq![c]),
{
    let pieces = newline_split(c);
    lemma_newline_split_nonempty(c);
    let last = pieces.last();
    let tail = if last.len() == 0 {
        Seq::<Seq<char>>::empty()
    } else {
        seq![last]
    };
    lemma_hash_input_append(pieces.drop_last().map_values(|l: Seq<char>| strip_cr(l)), tail);
    lemma_hash_input_strip_cr(pieces.drop_last());
    lemma_hash_input_newline_split(c);
    assert(hash_input(tail) == remove_white_space(last)) by {
        assert(seq![last].drop_last() =~= Seq::<Seq<char>>::empty());
        assert(seq![last].last() == last);
        assert(hash_input(Seq::<Seq<char>>::empty()) == Seq::<char>::empty());
        assert(Seq::<char>::empty() + remove_white_space(last) =~= remove_white_space(last));
        if last.len() == 0 {
            assert(remove_white_space(last) =~= Seq::<char>::empty());
        }
    }
    assert(hash_input(pieces) == hash_input(pieces.drop_last()) + remove_white_space(last));
    assert(seq![c].drop_last() =~= Seq::<Seq<char>>::empty());
    assert(seq![c].last() == c);
    assert(hash_input(Seq::<Seq<char>>::empty()) == Seq::<char>::empty());
    assert(hash_input(seq![c]) =~= remove_white_space(c));
    assert(hash_input(lines_of(c)) =~= hash_input(seq![c]));
}

/// Hexadecimal digits are not white space.
pub proof fn lemma_hex_not_white_space(bytes: Seq<u8>)
    ensures
        forall|i: int| 0 <= i < hex_lower(bytes).len() ==> !is_white_space(#[trigger] hex_lower(bytes)[i]),
    decreases bytes.len(),
{
    if bytes.len() > 0 {
        lemma_hex_not_white_space(bytes.drop_last());
        let b = bytes.last();
        assert(!is_white_space(hex_digit(b as int / 16)));
        assert(!is_white_space(hex_digit(b as int % 16)));
        let h = hex_lower(bytes);
        assert forall|i: int| 0 <= i < h.len() implies !is_white_space(#[trigger] h[i]) by {
            if i < hex_lower(bytes.drop_last()).len() {
                assert(h[i] == hex_lower(bytes.drop_last())[i]);
            }
        }
    }
}

/// An auto-generated block inserted below a directive is recognised and
/// removed again by the next run: removing the block restores the lines as
/// they were before the insertion. The block's contents must not start with
/// the closing marker.
pub proof fn lemma_delete_undoes_insert(ls: Seq<Seq<char>>, n: int, contents: Seq<char>)
    requires
        0 <= n < ls.len(),
        !starts_with(contents, autogen_suffix()),
    ensures
        remove_block(insert_block(ls, n, contents), n) == Ok::<Seq<Seq<char>>, AutogenError>(ls),
{
    reveal_strlit("//// AUTOGEN");
    reveal_strlit("//// END OF AUTOGEN");
    let hash = hash_of_lines(lines_of(contents));
    let header = autogen_prefix() + seq![' '] + hash;
    let new_ls = insert_block(ls, n, contents);
    let p = n + 1;
    assert(new_ls[p] == header);
    assert(new_ls[p + 1] == contents);
    assert(new_ls[p + 2] == autogen_suffix());
    // The opening marker is recognised.
    assert(header.take(autogen_prefix().len() as int) =~= autogen_prefix());
    // The closing marker is the block's own.
    assert(!starts_with(header, autogen_suffix())) by {
        if starts_with(header, autogen_suffix()) {
            assert(header.take(autogen_suffix().len() as int)[5] == header[5]);
        }
    }
    assert(starts_with(autogen_suffix(), autogen_suffix())) by {
        assert(autogen_suffix().take(autogen_suffix().len() as int) =~= autogen_suffix());
    }
    assert(suffix_line_from(new_ls, p + 2) == Some(p + 2));
    assert(suffix_line_from(new_ls, p + 1) == Some(p + 2));
    assert(suffix_line_from(new_ls, p) == Some(p + 2));
    // The recorded hash is the hash of the block's one line.
    assert(new_ls.subrange(p + 1, p + 2) =~= seq![contents]);
    lemma_hash_of_split_lines(contents);
    assert(header.skip(autogen_prefix().len() as int) =~= seq![' '] + hash);
    assert((seq![' '] + hash).drop_first() =~= hash);
    assert(is_white_space(' '));
    lemma_hex_not_white_space(sha256_of(encode_utf8(hash_input(lines_of(contents)))));
    assert(trim_start(hash) == hash) by {
        if hash.len() > 0 {
            assert(!is_white_space(hash[0]));
        }
    }
    assert(recorded_hash(header) == hash);
    assert(new_ls.take(p) + new_ls.skip(p + 3) =~= ls);
}

// ---------------------------------------------------------------------------
// Expanding all directives of a file
// ---------------------------------------------------------------------------

/// The line numbers of the directives.
pub open spec fn directive_lines(includes: Seq<IncludeStatement>) -> Seq<int> {
    includes.map_values(|inc: IncludeStatement| inc.line_number as int)
}

/// Expanding the first `k` directives, the last one first: each one's old
/// block is removed and a new block with its contents is inserted. Gives the
/// lines reached, and the error that stopped the expansion, if any (the lines
/// are then those at the failing directive).
pub open spec fn expand_from(
    ls: Seq<Seq<char>>,
    at: Seq<int>,
    contents: Seq<Seq<char>>,
    k: nat,
) -> (Seq<Seq<char>>, Option<AutogenError>)
    decreases k,
{
    if k == 0 {
        (ls, None)
    } else {
        match remove_block(ls, at[k - 1]) {
            Err(e) => (ls, Some(e)),
            Ok(rest) => expand_from(
                insert_block(rest, at[k - 1], contents[k - 1]),
                at,
                contents,
                (k - 1) as nat,
            ),
        }
    }
}

proof fn lemma_remove_block_keeps_line(ls: Seq<Seq<char>>, n: int)
    requires
        0 <= n < ls.len(),
    ensures
        remove_block(ls, n) matches Ok(rest) ==> rest.len() > n,
{
    lemma_suffix_line_from(ls, n + 1);
}

/// Expands every directive of a file's lines, from the last directive to the
/// first, so that the line numbers of the directives still to do stay valid:
/// the old block below each directive is removed (its hash checked) and a new
/// block with `contents[i]`, the contents of the file that `includes[i]`
/// names, is inserted. Stops at the first block that cannot be removed, with
/// its error and the lines as they are at that directive.
pub fn expand_includes(
    lines: &mut Vec<String>,
    includes: &Vec<IncludeStatement>,
    contents: Vec<String>,
) -> (r: Result<(), AutogenError>)
    requires
        contents.len() == includes.len(),
        forall|i: int, j: int|
            0 <= i < j < includes.len() ==> #[trigger] includes@[i].line_number
                < #[trigger] includes@[j].line_number,
        forall|i: int| 0 <= i < includes.len() ==> #[trigger] includes@[i].line_number < old(lines).len(),
    ensures
        views(final(lines)@) == expand_from(
            views(old(lines)@),
            directive_lines(includes@),
            views(contents@),
            includes.len() as nat,
        ).0,
        r == match expand_from(
            views(old(lines)@),
            directive_lines(includes@),
            views(contents@),
            includes.len() as nat,
        ).1 {
            None => Ok::<(), AutogenError>(()),
            Some(e) => Err(e),
        },
{
    let ghost at = directive_lines(includes@);
    let ghost all_contents = views(contents@);
    let mut k: usize = includes.len();
    while k > 0
        invariant
            k <= includes.len(),
            at == directive_lines(includes@),
            all_contents == views(contents@),
            contents.len() == includes.len(),
            forall|i: int, j: int|
                0 <= i < j < includes.len() ==> #[trigger] includes@[i].line_number
                    < #[trigger] includes@[j].line_number,
            forall|i: int| 0 <= i < k ==> #[trigger] includes@[i].line_number < lines.len(),
            expand_from(views(lines@), at, all_contents, k as nat) == expand_from(
                views(old(lines)@),
                at,
                all_contents,
                includes.len() as nat,
            ),
        decreases k,
    {
        let statement = &includes[k - 1];
        let ghost before = views(lines@);
        proof {
            assert(at[k - 1] == statement.line_number as int);
            lemma_remove_block_keeps_line(before, at[k - 1]);
        }
        match delete_old_include(lines, statement.line_number) {
            Err(e) => {
                proof {
                    assert(remove_block(before, at[k - 1]) == Err::<Seq<Seq<char>>, AutogenError>(
                        e,
                    ));
                    assert(expand_from(before, at, all_contents, k as nat) == (before, Some(e)));
                }
                return Err(e);
            },
            Ok(()) => {},
        }
        let c = contents[k - 1].clone();
        proof {
            assert(c@ == all_contents[k - 1]);
        }
        let ghost removed = views(lines@);
        insert_new_include(lines, statement, c);
        proof {
            assert(removed.len() > statement.line_number);
            assert(views(lines@).len() == removed.len() + 3);
            assert forall|i: int| 0 <= i < k - 1 implies #[trigger] includes@[i].line_number
                < lines.len() by {
                assert(includes@[i].line_number < includes@[k - 1].line_number);
            }
        }
        k = k - 1;
    }
    Ok(())
}

/// Expanding a directive again, with the same contents, changes nothing:
/// the block the first expansion wrote is recognised, removed and written
/// again as it was. A file with a single directive is therefore unchanged by
/// a second expansion. The contents must not start with the closing marker.
pub proof fn lemma_reexpansion_is_stable(ls: Seq<Seq<char>>, n: int, contents: Seq<char>)
    requires
        0 <= n < ls.len(),
        remove_block(ls, n) is Ok,
        !starts_with(contents, autogen_suffix()),
    ensures
        ({
            let once = expand_from(ls, seq![n], seq![contents], 1);
            &&& once.1 is None
            &&& expand_from(once.0, seq![n], seq![contents], 1) == once
        }),
{
    lemma_remove_block_keeps_line(ls, n);
    let rest = remove_block(ls, n)->Ok_0;
    lemma_delete_undoes_insert(rest, n, contents);
    let once = insert_block(rest, n, contents);
    assert(expand_from(ls, seq![n], seq![contents], 1) == expand_from(
        once,
        seq![n],
        seq![contents],
        0,
    ));
    assert(expand_from(once, seq![n], seq![contents], 1) == expand_from(
        once,
        seq![n],
        seq![contents],
        0,
    ));
}

/// Line `n` of `ls` is followed by the auto-generated block of `contents`:
/// its opening marker with the contents' hash, the contents, the closing
/// marker.
pub open spec fn holds_block(ls: Seq<Seq<char>>, n: int, contents: Seq<char>) -> bool {
    &&& 0 <= n
    &&& n + 3 < ls.len()
    &&& ls[n + 1] == autogen_prefix() + seq![' '] + hash_of_lines(lines_of(contents))
    &&& ls[n + 2] == contents
    &&& ls[n + 3] == autogen_suffix()
}

/// A file in which every directive is already followed by the block of its
/// current contents is left as it is by expanding its directives again: each
/// block is recognised, its hash checked, and the same block written back.
/// The contents must not start with the closing marker.
pub proof fn lemma_expanded_file_is_stable(
    ls: Seq<Seq<char>>,
    at: Seq<int>,
    contents: Seq<Seq<char>>,
    k: nat,
)
    requires
        k <= at.len(),
        k <= contents.len(),
        forall|i: int| 0 <= i < k ==> holds_block(ls, #[trigger] at[i], contents[i]),
        forall|i: int| 0 <= i < k ==> !starts_with(#[trigger] contents[i], autogen_suffix()),
    ensures
        expand_from(ls, at, contents, k) == (ls, None::<AutogenError>),
    decreases k,
{
    if k > 0 {
        let n = at[k - 1];
        let c = contents[k - 1];
        assert(holds_block(ls, n, c));
        assert(!starts_with(c, autogen_suffix()));
        let rest = ls.take(n + 1) + ls.skip(n + 4);
        assert(insert_block(rest, n, c) =~= ls);
        lemma_delete_undoes_insert(rest, n, c);
        lemma_expanded_file_is_stable(ls, at, contents, (k - 1) as nat);
    }
}

/// The directives are in line order and within the file, and none is
/// followed by an auto-generated block yet.
pub open spec fn fresh_directives(ls: Seq<Seq<char>>, at: Seq<int>, k: nat) -> bool {
    &&& k <= at.len()
    &&& forall|i: int, j: int| 0 <= i < j < k ==> #[trigger] at[i] < #[trigger] at[j]
    &&& forall|i: int| 0 <= i < k ==> 0 <= #[trigger] at[i] < ls.len()
    &&& forall|i: int|
        0 <= i < k ==> !(#[trigger] at[i] + 1 < ls.len() && starts_with(
            ls[at[i] + 1],
            autogen_prefix(),
        ))
}

proof fn lemma_insert_keeps_fresh(
    ls: Seq<Seq<char>>,
    at: Seq<int>,
    k: nat,
    contents: Seq<char>,
)
    requires
        k > 0,
        fresh_directives(ls, at, k),
    ensures
        fresh_directives(insert_block(ls, at[k - 1], contents), at, (k - 1) as nat),
{
    let a = at[k - 1];
    let ls2 = insert_block(ls, a, contents);
    assert forall|i: int| 0 <= i < k - 1 implies !(#[trigger] at[i] + 1 < ls2.len() && starts_with(
        ls2[at[i] + 1],
        autogen_prefix(),
    )) by {
        assert(at[i] < at[k - 1]);
        assert(ls2[at[i] + 1] == ls[at[i] + 1]);
    }
    assert forall|i: int| 0 <= i < k - 1 implies 0 <= #[trigger] at[i] < ls2.len() by {
        assert(at[i] < at[k - 1]);
    }
}

proof fn lemma_block_shifts(
    ls: Seq<Seq<char>>,
    at: Seq<int>,
    contents: Seq<Seq<char>>,
    k: nat,
    p: int,
    c: Seq<char>,
)
    requires
        k <= contents.len(),
        fresh_directives(ls, at, k),
        forall|i: int| 0 <= i < k ==> #[trigger] at[i] < p,
        holds_block(ls, p, c),
    ensures
        holds_block(expand_from(ls, at, contents, k).0, p + 3 * k, c),
    decreases k,
{
    if k > 0 {
        let a = at[k - 1];
        let ls2 = insert_block(ls, a, contents[k - 1]);
        assert(remove_block(ls, a) == Ok::<Seq<Seq<char>>, AutogenError>(ls));
        assert(a < p);
        assert(holds_block(ls2, p + 3, c)) by {
            assert(ls2[p + 4] == ls[p + 1]);
            assert(ls2[p + 5] == ls[p + 2]);
            assert(ls2[p + 6] == ls[p + 3]);
        }
        lemma_insert_keeps_fresh(ls, at, k, contents[k - 1]);
        lemma_block_shifts(ls2, at, contents, (k - 1) as nat, p + 3, c);
    }
}

proof fn lemma_expansion_writes_blocks(
    ls: Seq<Seq<char>>,
    at: Seq<int>,
    contents: Seq<Seq<char>>,
    k: nat,
)
    requires
        k <= contents.len(),
        fresh_directives(ls, at, k),
    ensures
        expand_from(ls, at, contents, k).1 is None,
        forall|i: int|
            0 <= i < k ==> holds_block(
                expand_from(ls, at, contents, k).0,
                #[trigger] at[i] + 3 * i,
                contents[i],
            ),
    decreases k,
{
    if k > 0 {
        let a = at[k - 1];
        let ls2 = insert_block(ls, a, contents[k - 1]);
        assert(remove_block(ls, a) == Ok::<Seq<Seq<char>>, AutogenError>(ls));
        assert(holds_block(ls2, a, contents[k - 1]));
        lemma_insert_keeps_fresh(ls, at, k, contents[k - 1]);
        lemma_expansion_writes_blocks(ls2, at, contents, (k - 1) as nat);
        assert forall|i: int| 0 <= i < k - 1 implies #[trigger] at[i] < a by {
            assert(at[i] < at[k - 1]);
        }
        lemma_block_shifts(ls2, at, contents, (k - 1) as nat, a, contents[k - 1]);
    }
}

/// Expanding the directives of a file that has no auto-generated blocks yet,
/// and then expanding the result again (each directive now standing three
/// lines further down per directive above it), changes nothing the second
/// time: the expansion is idempotent. The contents must not start with the
/// closing marker.
pub proof fn lemma_expansion_is_idempotent(
    ls: Seq<Seq<char>>,
    at: Seq<int>,
    contents: Seq<Seq<char>>,
)
    requires
        at.len() == contents.len(),
        fresh_directives(ls, at, at.len()),
        forall|i: int| 0 <= i < contents.len() ==> !starts_with(#[trigger] contents[i], autogen_suffix()),
    ensures
        ({
            let once = expand_from(ls, at, contents, at.len());
            &&& once.1 is None
            &&& expand_from(
                once.0,
                Seq::new(at.len(), |i: int| at[i] + 3 * i),
                contents,
                at.len(),
            ) == once
        }),
{
    let n = at.len();
    let once = expand_from(ls, at, contents, n);
    let moved = Seq::new(n, |i: int| at[i] + 3 * i);
    lemma_expansion_writes_blocks(ls, at, contents, n);
    assert forall|i: int| 0 <= i < n implies holds_block(once.0, #[trigger] moved[i], contents[i]) by {
        assert(holds_block(once.0, at[i] + 3 * i, contents[i]));
    }
    lemma_expanded_file_is_stable(once.0, moved, contents, n);
}

} // verus!
