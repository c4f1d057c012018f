//! The grammar of architecture documents, and its parser.
//!
//! A document is a sequence of lines separated by `\n`. Each line is blank
//! (spaces, tabs and carriage returns only) or holds one declaration,
//! surrounded by optional blanks:
//!
//! ```text
//! profile NAME@VERSION
//! root "PATH"
//! layer NAME
//! depends NAME on NAME
//! ```
//!
//! Keywords and arguments are separated by at least one blank. A NAME is a
//! non-empty run of ASCII letters, digits, `_` and `-`; a VERSION may also hold
//! `.`; a PATH is any text without `"`. All offsets are byte offsets.

use vstd::prelude::*;
use vstd::utf8::*;

use crate::ast::{
    AstDocument, DependencyDecl, DependencyModel, DocumentModel, LayerDecl, LayerModel, ProfileDecl,
    ProfileModel, Span,
};
use crate::diagnostics::{
    error_model, locatable, opt_text, spec_location, Diagnostic, DiagnosticCode, DiagnosticModel,
    Diagnostics, Location,
};
use crate::text::{bytes_of, slice_text};

verus! {

/// The byte classes of the grammar.
#[derive(Debug, Clone, Copy, PartialEq, Eq)]
pub enum ByteClass {
    /// space, tab, carriage return
    Blank,
    /// ASCII letters and digits, `_` and `-`
    Name,
    /// name bytes and `.`
    Version,
    /// any byte but `"`
    Quoted,
}

pub open spec fn is_name_byte(c: u8) -> bool {
    ||| ('a' as u8) <= c <= ('z' as u8)
    ||| ('A' as u8) <= c <= ('Z' as u8)
    ||| ('0' as u8) <= c <= ('9' as u8)
    ||| c == ('_' as u8)
    ||| c == ('-' as u8)
}

pub open spec fn in_class(c: u8, class: ByteClass) -> bool {
    match class {
        ByteClass::Blank => c == (' ' as u8) || c == ('\t' as u8) || c == ('\r' as u8),
        ByteClass::Name => is_name_byte(c),
        ByteClass::Version => is_name_byte(c) || c == ('.' as u8),
        ByteClass::Quoted => c != ('"' as u8),
    }
}

/// The end of the longest run of bytes of `class` that starts at `i` and stops by `end`.
pub open spec fn run_end(b: Seq<u8>, i: int, end: int, class: ByteClass) -> int
    decreases end - i,
{
    if i < end && in_class(b[i], class) {
        run_end(b, i + 1, end, class)
    } else {
        i
    }
}

/// The offset of the newline that ends the line starting at `i`, or the end of `b`.
pub open spec fn line_end(b: Seq<u8>, i: int) -> int
    decreases b.len() - i,
{
    if i >= b.len() {
        b.len() as int
    } else if b[i] == ('\n' as u8) {
        i
    } else {
        line_end(b, i + 1)
    }
}

/// The keywords of the grammar.
#[derive(Debug, Clone, Copy, PartialEq, Eq, Structural)]
pub enum Word {
    Profile,
    Root,
    Layer,
    Depends,
    On,
    Other,
}

/// The keyword that the bytes `w` spell, if any.
pub open spec fn spells(w: Seq<u8>, word: Seq<char>) -> bool {
    &&& w.len() == word.len()
    &&& forall|i: int| 0 <= i < w.len() ==> w[i] == word[i] as u8
}

pub open spec fn word_kind(w: Seq<u8>) -> Word {
    if spells(w, "profile"@) {
        Word::Profile
    } else if spells(w, "root"@) {
        Word::Root
    } else if spells(w, "layer"@) {
        Word::Layer
    } else if spells(w, "depends"@) {
        Word::Depends
    } else if spells(w, "on"@) {
        Word::On
    } else {
        Word::Other
    }
}

/// What one line of a document holds; all offsets are byte offsets into the
/// whole source, and `start..end` is the span of the declaration.
#[derive(Debug, Clone, Copy, PartialEq, Eq)]
pub enum LineSyntax {
    Blank,
    Profile { start: usize, end: usize, name: (usize, usize), version: (usize, usize) },
    Root { start: usize, end: usize, path: (usize, usize) },
    Layer { start: usize, end: usize, name: (usize, usize) },
    Depends { start: usize, end: usize, source: (usize, usize), target: (usize, usize) },
    /// Not a declaration; `at` is where the line departs from the grammar.
    Malformed { at: usize },
}

/// Where a line stops matching the grammar: at `at`.
pub open spec fn stop(at: int) -> LineSyntax {
    LineSyntax::Malformed { at: at as usize }
}

/// The syntax of the line `ls..le` of `b` (a line holds no newline byte).
/// A line that is not a declaration is `Malformed` at the first offset where
/// it departs from every declaration form: where an unknown keyword starts,
/// where a blank, a name, a version, `@`, `"` or `on` was due, or where text
/// follows a complete declaration.
pub open spec fn parse_line(b: Seq<u8>, ls: int, le: int) -> LineSyntax {
    let p = run_end(b, ls, le, ByteClass::Blank);
    if p == le {
        LineSyntax::Blank
    } else {
        let q = run_end(b, p, le, ByteClass::Name);
        let a = run_end(b, q, le, ByteClass::Blank);
        let kind = word_kind(b.subrange(p, q));
        if kind == Word::Other || kind == Word::On {
            stop(p)
        } else if a == q {
            stop(q)
        } else {
            match kind {
                Word::Profile => {
                    let n = run_end(b, a, le, ByteClass::Name);
                    if n == a {
                        stop(a)
                    } else if n >= le || b[n] != ('@' as u8) {
                        stop(n)
                    } else {
                        let v = run_end(b, n + 1, le, ByteClass::Version);
                        let rest = run_end(b, v, le, ByteClass::Blank);
                        if v == n + 1 {
                            stop(n + 1)
                        } else if rest != le {
                            stop(rest)
                        } else {
                            LineSyntax::Profile {
                                start: p as usize,
                                end: v as usize,
                                name: (a as usize, n as usize),
                                version: ((n + 1) as usize, v as usize),
                            }
                        }
                    }
                },
                Word::Root => {
                    if a >= le || b[a] != ('"' as u8) {
                        stop(a)
                    } else {
                        let c = run_end(b, a + 1, le, ByteClass::Quoted);
                        if c >= le {
                            stop(c)
                        } else {
                            let rest = run_end(b, c + 1, le, ByteClass::Blank);
                            if rest != le {
                                stop(rest)
                            } else {
                                LineSyntax::Root {
                                    start: p as usize,
                                    end: (c + 1) as usize,
                                    path: ((a + 1) as usize, c as usize),
                                }
                            }
                        }
                    }
                },
                Word::Layer => {
                    let n = run_end(b, a, le, ByteClass::Name);
                    let rest = run_end(b, n, le, ByteClass::Blank);
                    if n == a {
                        stop(a)
                    } else if rest != le {
                        stop(rest)
                    } else {
                        LineSyntax::Layer { start: p as usize, end: n as usize, name: (a as usize, n as usize) }
                    }
                },
                _ => {
                    let s = run_end(b, a, le, ByteClass::Name);
                    let o1 = run_end(b, s, le, ByteClass::Blank);
                    let o2 = run_end(b, o1, le, ByteClass::Name);
                    let t1 = run_end(b, o2, le, ByteClass::Blank);
                    let t2 = run_end(b, t1, le, ByteClass::Name);
                    let rest = run_end(b, t2, le, ByteClass::Blank);
                    if s == a {
                        stop(a)
                    } else if o1 == s {
                        stop(s)
                    } else if word_kind(b.subrange(o1, o2)) != Word::On {
                        stop(o1)
                    } else if t1 == o2 {
                        stop(o2)
                    } else if t2 == t1 {
                        stop(t1)
                    } else if rest != le {
                        stop(rest)
                    } else {
                        LineSyntax::Depends {
                            start: p as usize,
                            end: t2 as usize,
                            source: (a as usize, s as usize),
                            target: (t1 as usize, t2 as usize),
                        }
                    }
                },
            }
        }
    }
}

pub proof fn lemma_run_end(b: Seq<u8>, i: int, end: int, class: ByteClass)
    requires
        0 <= i <= end <= b.len(),
    ensures
        i <= run_end(b, i, end, class) <= end,
        forall|k: int| i <= k < run_end(b, i, end, class) ==> in_class(#[trigger] b[k], class),
        run_end(b, i, end, class) < end ==> !in_class(b[run_end(b, i, end, class)], class),
    decreases end - i,
{
    if i < end && in_class(b[i], class) {
        lemma_run_end(b, i + 1, end, class);
    }
}

pub proof fn lemma_line_end(b: Seq<u8>, i: int)
    requires
        0 <= i <= b.len(),
    ensures
        i <= line_end(b, i) <= b.len(),
        forall|k: int| i <= k < line_end(b, i) ==> #[trigger] b[k] != ('\n' as u8),
        line_end(b, i) < b.len() ==> b[line_end(b, i)] == ('\n' as u8),
    decreases b.len() - i,
{
    if i < b.len() && b[i] != ('\n' as u8) {
        lemma_line_end(b, i + 1);
    }
}

fn in_class_exec(c: u8, class: ByteClass) -> (r: bool)
    ensures
        r == in_class(c, class),
{
    match class {
        ByteClass::Blank => c == (' ' as u8) || c == ('\t' as u8) || c == ('\r' as u8),
        ByteClass::Name => {
            (('a' as u8) <= c && c <= ('z' as u8)) || (('A' as u8) <= c && c <= ('Z' as u8)) || (
            ('0' as u8) <= c && c <= ('9' as u8)) || c == ('_' as u8) || c == ('-' as u8)
        },
        ByteClass::Version => {
            (('a' as u8) <= c && c <= ('z' as u8)) || (('A' as u8) <= c && c <= ('Z' as u8)) || (
            ('0' as u8) <= c && c <= ('9' as u8)) || c == ('_' as u8) || c == ('-' as u8) || c == (
            '.' as u8)
        },
        ByteClass::Quoted => c != ('"' as u8),
    }
}

/// The end of the run of `class` bytes that starts at `i`, stopping by `end`.
fn scan(bytes: &[u8], i: usize, end: usize, class: ByteClass) -> (r: usize)
    requires
        i <= end <= bytes@.len(),
    ensures
        r == run_end(bytes@, i as int, end as int, class),
{
    let mut j = i;
    while j < end && in_class_exec(bytes[j], class)
        invariant
            i <= j <= end <= bytes@.len(),
            run_end(bytes@, j as int, end as int, class) == run_end(bytes@, i as int, end as int, class),
        decreases end - j,
    {
        j = j + 1;
    }
    j
}

/// The offset of the newline that ends the line starting at `i`, or the length.
fn find_line_end(bytes: &[u8], i: usize) -> (r: usize)
    requires
        i <= bytes@.len(),
    ensures
        r == line_end(bytes@, i as int),
{
    let mut j = i;
    while j < bytes.len() && bytes[j] != ('\n' as u8)
        invariant
            i <= j <= bytes@.len(),
            line_end(bytes@, j as int) == line_end(bytes@, i as int),
        decreases bytes.len() - j,
    {
        j = j + 1;
    }
    j
}

/// Whether `bytes[p..q]` spells `word`.
fn spells_exec(bytes: &[u8], p: usize, q: usize, word: &str) -> (r: bool)
    requires
        p <= q <= bytes@.len(),
        word.is_ascii(),
    ensures
        r == spells(bytes@.subrange(p as int, q as int), word@),
{
    let ghost s = bytes@.subrange(p as int, q as int);
    let n = word.unicode_len();
    if q - p != n {
        return false;
    }
    let mut i: usize = 0;
    while i < n
        invariant
            i <= n,
            n == word@.len(),
            n == q - p,
            p <= q <= bytes@.len(),
            word.is_ascii(),
            s == bytes@.subrange(p as int, q as int),
            forall|j: int| 0 <= j < i ==> s[j] == word@[j] as u8,
        decreases n - i,
    {
        if bytes[p + i] != word.get_ascii(i) {
            assert(s[i as int] != word@[i as int] as u8);
            return false;
        }
        i = i + 1;
    }
    true
}

/// The keyword that `bytes[p..q]` spells, if any.
fn classify_word(bytes: &[u8], p: usize, q: usize) -> (w: Word)
    requires
        p <= q <= bytes@.len(),
    ensures
        w == word_kind(bytes@.subrange(p as int, q as int)),
{
    proof {
        reveal_strlit("profile");
        reveal_strlit("root");
        reveal_strlit("layer");
        reveal_strlit("depends");
        reveal_strlit("on");
    }
    if spells_exec(bytes, p, q, "profile") {
        Word::Profile
    } else if spells_exec(bytes, p, q, "root") {
        Word::Root
    } else if spells_exec(bytes, p, q, "layer") {
        Word::Layer
    } else if spells_exec(bytes, p, q, "depends") {
        Word::Depends
    } else if spells_exec(bytes, p, q, "on") {
        Word::On
    } else {
        Word::Other
    }
}

/// The syntax of the line `ls..le` of `bytes`.
fn scan_line(bytes: &[u8], ls: usize, le: usize) -> (line: LineSyntax)
    requires
        ls <= le <= bytes@.len(),
    ensures
        line == parse_line(bytes@, ls as int, le as int),
{
    let ghost b = bytes@;
    let p = scan(bytes, ls, le, ByteClass::Blank);
    proof { lemma_run_end(b, ls as int, le as int, ByteClass::Blank); }
    if p == le {
        return LineSyntax::Blank;
    }
    let q = scan(bytes, p, le, ByteClass::Name);
    proof { lemma_run_end(b, p as int, le as int, ByteClass::Name); }
    let a = scan(bytes, q, le, ByteClass::Blank);
    proof { lemma_run_end(b, q as int, le as int, ByteClass::Blank); }
    let kind = classify_word(bytes, p, q);
    if kind == Word::Other || kind == Word::On {
        return LineSyntax::Malformed { at: p };
    }
    if a == q {
        return LineSyntax::Malformed { at: q };
    }
    match kind {
        Word::Profile => {
            let n = scan(bytes, a, le, ByteClass::Name);
            proof { lemma_run_end(b, a as int, le as int, ByteClass::Name); }
            if n == a {
                return LineSyntax::Malformed { at: a };
            }
            if n >= le || bytes[n] != ('@' as u8) {
                return LineSyntax::Malformed { at: n };
            }
            let v = scan(bytes, n + 1, le, ByteClass::Version);
            proof { lemma_run_end(b, n + 1, le as int, ByteClass::Version); }
            let rest = scan(bytes, v, le, ByteClass::Blank);
            if v == n + 1 {
                return LineSyntax::Malformed { at: n + 1 };
            }
            if rest != le {
                return LineSyntax::Malformed { at: rest };
            }
            LineSyntax::Profile { start: p, end: v, name: (a, n), version: (n + 1, v) }
        },
        Word::Root => {
            if a >= le || bytes[a] != ('"' as u8) {
                return LineSyntax::Malformed { at: a };
            }
            let c = scan(bytes, a + 1, le, ByteClass::Quoted);
            proof { lemma_run_end(b, a + 1, le as int, ByteClass::Quoted); }
            if c >= le {
                return LineSyntax::Malformed { at: c };
            }
            let rest = scan(bytes, c + 1, le, ByteClass::Blank);
            if rest != le {
                return LineSyntax::Malformed { at: rest };
            }
            LineSyntax::Root { start: p, end: c + 1, path: (a + 1, c) }
        },
        Word::Layer => {
            let n = scan(bytes, a, le, ByteClass::Name);
            proof { lemma_run_end(b, a as int, le as int, ByteClass::Name); }
            let rest = scan(bytes, n, le, ByteClass::Blank);
            if n == a {
                return LineSyntax::Malformed { at: a };
            }
            if rest != le {
                return LineSyntax::Malformed { at: rest };
            }
            LineSyntax::Layer { start: p, end: n, name: (a, n) }
        },
        _ => {
            let s = scan(bytes, a, le, ByteClass::Name);
            proof { lemma_run_end(b, a as int, le as int, ByteClass::Name); }
            let o1 = scan(bytes, s, le, ByteClass::Blank);
            proof { lemma_run_end(b, s as int, le as int, ByteClass::Blank); }
            let o2 = scan(bytes, o1, le, ByteClass::Name);
            proof { lemma_run_end(b, o1 as int, le as int, ByteClass::Name); }
            let t1 = scan(bytes, o2, le, ByteClass::Blank);
            proof { lemma_run_end(b, o2 as int, le as int, ByteClass::Blank); }
            let t2 = scan(bytes, t1, le, ByteClass::Name);
            proof { lemma_run_end(b, t1 as int, le as int, ByteClass::Name); }
            let rest = scan(bytes, t2, le, ByteClass::Blank);
            if s == a {
                return LineSyntax::Malformed { at: a };
            }
            if o1 == s {
                return LineSyntax::Malformed { at: s };
            }
            if classify_word(bytes, o1, o2) != Word::On {
                return LineSyntax::Malformed { at: o1 };
            }
            if t1 == o2 {
                return LineSyntax::Malformed { at: o2 };
            }
            if t2 == t1 {
                return LineSyntax::Malformed { at: t1 };
            }
            if rest != le {
                return LineSyntax::Malformed { at: rest };
            }
            LineSyntax::Depends { start: p, end: t2, source: (a, s), target: (t1, t2) }
        },
    }
}

/// The byte before `i`, or the byte at `i`, is ASCII (or `i` is an end of `b`):
/// in valid UTF-8 such an offset falls on a character boundary.
pub open spec fn ascii_adjacent(b: Seq<u8>, i: int) -> bool {
    ||| i == 0
    ||| i == b.len()
    ||| (0 < i <= b.len() && b[i - 1] < 0x80)
    ||| (0 <= i < b.len() && b[i] < 0x80)
}

pub proof fn lemma_ascii_adjacent_boundary(b: Seq<u8>, i: int)
    requires
        valid_utf8(b),
        0 <= i <= b.len(),
        ascii_adjacent(b, i),
    ensures
        is_char_boundary(b, i),
{
    is_char_boundary_start_end_of_seq(b);
    if i == 0 || i == b.len() {
    } else if 0 <= i < b.len() && b[i] < 0x80 {
        is_char_boundary_iff_not_is_continuation_byte(b, i);
    } else {
        crate::text::lemma_boundary_after_ascii(b, i);
    }
}

/// Where the declarations and tokens of a line lie: inside the line, in order,
/// and each of their ends next to an ASCII byte.
pub open spec fn line_well_placed(b: Seq<u8>, ls: int, le: int, line: LineSyntax) -> bool {
    match line {
        LineSyntax::Blank => true,
        LineSyntax::Malformed { at } => ls <= at <= le && ascii_adjacent(b, at as int),
        LineSyntax::Profile { start, end, name, version } => {
            &&& ls <= start < name.0 < name.1 < version.0 < version.1 == end <= le
            &&& ascii_adjacent(b, start as int)
            &&& ascii_adjacent(b, name.0 as int)
            &&& ascii_adjacent(b, name.1 as int)
            &&& ascii_adjacent(b, version.0 as int)
            &&& ascii_adjacent(b, version.1 as int)
        },
        LineSyntax::Root { start, end, path } => {
            &&& ls <= start < path.0 <= path.1 < end <= le
            &&& ascii_adjacent(b, start as int)
            &&& ascii_adjacent(b, path.0 as int)
            &&& ascii_adjacent(b, path.1 as int)
            &&& ascii_adjacent(b, end as int)
        },
        LineSyntax::Layer { start, end, name } => {
            &&& ls <= start < name.0 < name.1 == end <= le
            &&& ascii_adjacent(b, start as int)
            &&& ascii_adjacent(b, name.0 as int)
            &&& ascii_adjacent(b, name.1 as int)
        },
        LineSyntax::Depends { start, end, source, target } => {
            &&& ls <= start < source.0 < source.1 < target.0 < target.1 == end <= le
            &&& ascii_adjacent(b, start as int)
            &&& ascii_adjacent(b, source.0 as int)
            &&& ascii_adjacent(b, source.1 as int)
            &&& ascii_adjacent(b, target.0 as int)
            &&& ascii_adjacent(b, target.1 as int)
        },
    }
}

/// A run of blanks, name or version bytes that starts next to an ASCII byte
/// also ends next to one.
proof fn lemma_run_end_adjacent(b: Seq<u8>, i: int, end: int, class: ByteClass)
    requires
        0 <= i <= end <= b.len(),
        class != ByteClass::Quoted,
        ascii_adjacent(b, i),
    ensures
        ascii_adjacent(b, run_end(b, i, end, class)),
{
    lemma_run_end(b, i, end, class);
    let r = run_end(b, i, end, class);
    if r > i {
        assert(in_class(b[r - 1], class));
    }
}

pub proof fn lemma_line_well_placed(b: Seq<u8>, ls: int, le: int)
    requires
        0 <= ls <= le <= b.len(),
        b.len() <= usize::MAX,
        ls == 0 || b[ls - 1] == ('\n' as u8),
        le == b.len() || b[le] == ('\n' as u8),
    ensures
        line_well_placed(b, ls, le, parse_line(b, ls, le)),
{
    assert(ascii_adjacent(b, ls));
    assert(ascii_adjacent(b, le));
    let p = run_end(b, ls, le, ByteClass::Blank);
    lemma_run_end(b, ls, le, ByteClass::Blank);
    lemma_run_end_adjacent(b, ls, le, ByteClass::Blank);
    if p == le {
        return;
    }
    let q = run_end(b, p, le, ByteClass::Name);
    lemma_run_end(b, p, le, ByteClass::Name);
    lemma_run_end_adjacent(b, p, le, ByteClass::Name);
    let a = run_end(b, q, le, ByteClass::Blank);
    lemma_run_end(b, q, le, ByteClass::Blank);
    lemma_run_end_adjacent(b, q, le, ByteClass::Blank);
    let n = run_end(b, a, le, ByteClass::Name);
    lemma_run_end(b, a, le, ByteClass::Name);
    lemma_run_end_adjacent(b, a, le, ByteClass::Name);
    match word_kind(b.subrange(p, q)) {
        Word::Profile => {
            if n < le && b[n] == ('@' as u8) {
                assert(ascii_adjacent(b, n + 1));
                lemma_run_end(b, n + 1, le, ByteClass::Version);
                lemma_run_end_adjacent(b, n + 1, le, ByteClass::Version);
                let v = run_end(b, n + 1, le, ByteClass::Version);
                lemma_run_end(b, v, le, ByteClass::Blank);
                lemma_run_end_adjacent(b, v, le, ByteClass::Blank);
            }
        },
        Word::Root => {
            if a < le && b[a] == ('"' as u8) {
                assert(ascii_adjacent(b, a + 1));
                lemma_run_end(b, a + 1, le, ByteClass::Quoted);
                let c = run_end(b, a + 1, le, ByteClass::Quoted);
                if c < le {
                    assert(!in_class(b[c], ByteClass::Quoted));
                    assert(ascii_adjacent(b, c));
                    assert(ascii_adjacent(b, c + 1));
                    lemma_run_end(b, c + 1, le, ByteClass::Blank);
                    lemma_run_end_adjacent(b, c + 1, le, ByteClass::Blank);
                }
            }
        },
        Word::Layer => {
            lemma_run_end(b, n, le, ByteClass::Blank);
            lemma_run_end_adjacent(b, n, le, ByteClass::Blank);
        },
        Word::Depends => {
            let s = n;
            let o1 = run_end(b, s, le, ByteClass::Blank);
            lemma_run_end(b, s, le, ByteClass::Blank);
            lemma_run_end_adjacent(b, s, le, ByteClass::Blank);
            let o2 = run_end(b, o1, le, ByteClass::Name);
            lemma_run_end(b, o1, le, ByteClass::Name);
            lemma_run_end_adjacent(b, o1, le, ByteClass::Name);
            let t1 = run_end(b, o2, le, ByteClass::Blank);
            lemma_run_end(b, o2, le, ByteClass::Blank);
            lemma_run_end_adjacent(b, o2, le, ByteClass::Blank);
            let t2 = run_end(b, t1, le, ByteClass::Name);
            lemma_run_end(b, t1, le, ByteClass::Name);
            lemma_run_end_adjacent(b, t1, le, ByteClass::Name);
            lemma_run_end(b, t2, le, ByteClass::Blank);
            lemma_run_end_adjacent(b, t2, le, ByteClass::Blank);
        },
        _ => {},
    }
}

/// Every byte of `i..j` is of `class`.
pub open spec fn all_in(b: Seq<u8>, i: int, j: int, class: ByteClass) -> bool {
    forall|k: int| i <= k < j ==> in_class(#[trigger] b[k], class)
}

/// The bytes from `at` on spell `word`.
pub open spec fn keyword_at(b: Seq<u8>, at: int, word: Seq<char>) -> bool {
    at + word.len() <= b.len() && spells(b.subrange(at, at + word.len()), word)
}

/// The grammar, stated form by form: what each kind of line looks like,
/// with its tokens where the syntax places them. A malformed line is not
/// blank, and departs from the grammar at or after its first non-blank byte.
pub open spec fn line_form(b: Seq<u8>, ls: int, le: int, line: LineSyntax) -> bool {
    match line {
        LineSyntax::Blank => all_in(b, ls, le, ByteClass::Blank),
        LineSyntax::Malformed { at } => {
            &&& ls <= at <= le
            &&& exists|k: int| ls <= k <= at && k < le && !in_class(#[trigger] b[k], ByteClass::Blank)
        },
        LineSyntax::Profile { start, end, name, version } => {
            &&& all_in(b, ls, start as int, ByteClass::Blank)
            &&& keyword_at(b, start as int, "profile"@)
            &&& start + 7 < name.0
            &&& all_in(b, start + 7, name.0 as int, ByteClass::Blank)
            &&& name.0 < name.1 && all_in(b, name.0 as int, name.1 as int, ByteClass::Name)
            &&& b[name.1 as int] == ('@' as u8) && version.0 == name.1 + 1
            &&& version.0 < version.1 && all_in(b, version.0 as int, version.1 as int, ByteClass::Version)
            &&& end == version.1 && all_in(b, end as int, le, ByteClass::Blank)
        },
        LineSyntax::Root { start, end, path } => {
            &&& all_in(b, ls, start as int, ByteClass::Blank)
            &&& keyword_at(b, start as int, "root"@)
            &&& start + 4 < path.0 - 1
            &&& all_in(b, start + 4, path.0 - 1, ByteClass::Blank)
            &&& b[path.0 - 1] == ('"' as u8)
            &&& path.0 <= path.1 && all_in(b, path.0 as int, path.1 as int, ByteClass::Quoted)
            &&& b[path.1 as int] == ('"' as u8)
            &&& end == path.1 + 1 && all_in(b, end as int, le, ByteClass::Blank)
        },
        LineSyntax::Layer { start, end, name } => {
            &&& all_in(b, ls, start as int, ByteClass::Blank)
            &&& keyword_at(b, start as int, "layer"@)
            &&& start + 5 < name.0
            &&& all_in(b, start + 5, name.0 as int, ByteClass::Blank)
            &&& name.0 < name.1 && all_in(b, name.0 as int, name.1 as int, ByteClass::Name)
            &&& end == name.1 && all_in(b, end as int, le, ByteClass::Blank)
        },
        LineSyntax::Depends { start, end, source, target } => {
            &&& all_in(b, ls, start as int, ByteClass::Blank)
            &&& keyword_at(b, start as int, "depends"@)
            &&& start + 7 < source.0
            &&& all_in(b, start + 7, source.0 as int, ByteClass::Blank)
            &&& source.0 < source.1 && all_in(b, source.0 as int, source.1 as int, ByteClass::Name)
            &&& exists|o: int|
                source.1 < o && o + 2 < target.0 && all_in(b, source.1 as int, o, ByteClass::Blank)
                    && #[trigger] keyword_at(b, o, "on"@) && all_in(b, o + 2, target.0 as int, ByteClass::Blank)
            &&& target.0 < target.1 && all_in(b, target.0 as int, target.1 as int, ByteClass::Name)
            &&& end == target.1 && all_in(b, end as int, le, ByteClass::Blank)
        },
    }
}

/// Every line the parser reads is of the form its kind says.
pub proof fn law_lines_follow_the_grammar(b: Seq<u8>, ls: int, le: int)
    requires
        0 <= ls <= le <= b.len(),
        b.len() <= usize::MAX,
    ensures
        line_form(b, ls, le, parse_line(b, ls, le)),
{
    reveal_strlit("profile");
    reveal_strlit("root");
    reveal_strlit("layer");
    reveal_strlit("depends");
    reveal_strlit("on");
    let p = run_end(b, ls, le, ByteClass::Blank);
    lemma_run_end(b, ls, le, ByteClass::Blank);
    if p == le {
        return;
    }
    assert(!in_class(b[p], ByteClass::Blank));
    let q = run_end(b, p, le, ByteClass::Name);
    lemma_run_end(b, p, le, ByteClass::Name);
    let a = run_end(b, q, le, ByteClass::Blank);
    lemma_run_end(b, q, le, ByteClass::Blank);
    if a == q {
        return;
    }
    assert(b.subrange(p, q) =~= b.subrange(p, p + (q - p)));
    let n = run_end(b, a, le, ByteClass::Name);
    lemma_run_end(b, a, le, ByteClass::Name);
    match word_kind(b.subrange(p, q)) {
        Word::Profile => {
            assert(q - p == 7);
            if n < le {
                lemma_run_end(b, n + 1, le, ByteClass::Version);
                let v = run_end(b, n + 1, le, ByteClass::Version);
                lemma_run_end(b, v, le, ByteClass::Blank);
            }
        },
        Word::Root => {
            assert(q - p == 4);
            if a < le {
                lemma_run_end(b, a + 1, le, ByteClass::Quoted);
                let c = run_end(b, a + 1, le, ByteClass::Quoted);
                if c < le {
                    lemma_run_end(b, c + 1, le, ByteClass::Blank);
                }
            }
        },
        Word::Layer => {
            assert(q - p == 5);
            lemma_run_end(b, n, le, ByteClass::Blank);
        },
        Word::Depends => {
            assert(q - p == 7);
            let s = n;
            let o1 = run_end(b, s, le, ByteClass::Blank);
            lemma_run_end(b, s, le, ByteClass::Blank);
            let o2 = run_end(b, o1, le, ByteClass::Name);
            lemma_run_end(b, o1, le, ByteClass::Name);
            let t1 = run_end(b, o2, le, ByteClass::Blank);
            lemma_run_end(b, o2, le, ByteClass::Blank);
            let t2 = run_end(b, t1, le, ByteClass::Name);
            lemma_run_end(b, t1, le, ByteClass::Name);
            lemma_run_end(b, t2, le, ByteClass::Blank);
            if word_kind(b.subrange(o1, o2)) == Word::On {
                assert(o2 - o1 == 2);
                assert(b.subrange(o1, o2) =~= b.subrange(o1, o1 + 2));
                assert(keyword_at(b, o1, "on"@));
            }
        },
        _ => {},
    }
}

/// The lines of `b` from offset `i` on, each with its syntax.
pub open spec fn doc_lines(b: Seq<u8>, i: int) -> Seq<LineSyntax>
    decreases b.len() - i,
{
    if i < 0 || i > b.len() {
        Seq::empty()
    } else {
        let le = line_end(b, i);
        let line = parse_line(b, i, le);
        if le < i || le >= b.len() {
            seq![line]
        } else {
            seq![line] + doc_lines(b, le + 1)
        }
    }
}

/// Every line of `b` from offset `i` on is of the form that the grammar gives
/// its kind (see [`line_form`]).
pub open spec fn lines_follow_grammar(b: Seq<u8>, i: int) -> bool
    decreases b.len() - i,
{
    if i < 0 || i > b.len() {
        true
    } else {
        let le = line_end(b, i);
        &&& line_form(b, i, le, parse_line(b, i, le))
        &&& (le < i || le >= b.len() || lines_follow_grammar(b, le + 1))
    }
}

/// Every line of a document, from any line start on, is read as the grammar
/// says: blank, malformed, or a declaration of the form of its kind.
pub proof fn law_documents_follow_the_grammar(b: Seq<u8>, i: int)
    requires
        0 <= i <= b.len(),
        b.len() <= usize::MAX,
    ensures
        lines_follow_grammar(b, i),
    decreases b.len() - i,
{
    lemma_line_end(b, i);
    let le = line_end(b, i);
    law_lines_follow_the_grammar(b, i, le);
    if le < b.len() {
        law_documents_follow_the_grammar(b, le + 1);
    }
}

/// Where the first malformed line departs from the grammar, if there is one.
pub open spec fn first_malformed(lines: Seq<LineSyntax>) -> Option<usize>
    decreases lines.len(),
{
    if lines.len() == 0 {
        None
    } else {
        match first_malformed(lines.drop_last()) {
            Some(at) => Some(at),
            None => match lines.last() {
                LineSyntax::Malformed { at } => Some(at),
                _ => None,
            },
        }
    }
}

/// The last `profile` declaration, if there is one.
pub open spec fn last_profile(lines: Seq<LineSyntax>) -> Option<LineSyntax>
    decreases lines.len(),
{
    if lines.len() == 0 {
        None
    } else if lines.last() is Profile {
        Some(lines.last())
    } else {
        last_profile(lines.drop_last())
    }
}

/// The last `root` declaration, if there is one.
pub open spec fn last_root(lines: Seq<LineSyntax>) -> Option<LineSyntax>
    decreases lines.len(),
{
    if lines.len() == 0 {
        None
    } else if lines.last() is Root {
        Some(lines.last())
    } else {
        last_root(lines.drop_last())
    }
}

/// The text of the byte range `r` of `b`.
pub open spec fn text_at(b: Seq<u8>, r: (usize, usize)) -> Seq<char> {
    decode_utf8(b.subrange(r.0 as int, r.1 as int))
}

/// The layer declarations, in order.
pub open spec fn layer_models(b: Seq<u8>, lines: Seq<LineSyntax>) -> Seq<LayerModel>
    decreases lines.len(),
{
    if lines.len() == 0 {
        Seq::empty()
    } else {
        layer_models(b, lines.drop_last()) + match lines.last() {
            LineSyntax::Layer { start, end, name } => seq![
                LayerModel { name: text_at(b, name), span: Span { start, end } },
            ],
            _ => Seq::empty(),
        }
    }
}

/// The dependency declarations, in order.
pub open spec fn dependency_models(b: Seq<u8>, lines: Seq<LineSyntax>) -> Seq<DependencyModel>
    decreases lines.len(),
{
    if lines.len() == 0 {
        Seq::empty()
    } else {
        dependency_models(b, lines.drop_last()) + match lines.last() {
            LineSyntax::Depends { start, end, source, target } => seq![
                DependencyModel {
                    source: text_at(b, source),
                    target: text_at(b, target),
                    span: Span { start, end },
                },
            ],
            _ => Seq::empty(),
        }
    }
}

pub open spec fn profile_model(b: Seq<u8>, line: LineSyntax) -> ProfileModel {
    match line {
        LineSyntax::Profile { start, end, name, version } => ProfileModel {
            name: text_at(b, name),
            version: text_at(b, version),
            span: Span { start, end },
        },
        _ => ProfileModel { name: Seq::empty(), version: Seq::empty(), span: Span { start: 0, end: 0 } },
    }
}

pub open spec fn root_text(b: Seq<u8>, line: Option<LineSyntax>) -> Option<Seq<char>> {
    match line {
        Some(LineSyntax::Root { path, .. }) => Some(text_at(b, path)),
        _ => None,
    }
}

pub open spec fn root_span(line: Option<LineSyntax>) -> Option<Span> {
    match line {
        Some(LineSyntax::Root { start, end, .. }) => Some(Span { start, end }),
        _ => None,
    }
}

/// The test for a `depends` declaration.
pub open spec fn depends_line() -> spec_fn(LineSyntax) -> bool {
    |l: LineSyntax| l is Depends
}

/// The test for a `layer` declaration.
pub open spec fn layer_line() -> spec_fn(LineSyntax) -> bool {
    |l: LineSyntax| l is Layer
}

/// Every `depends` line yields exactly one dependency, in order, whatever its
/// source and target: there are as many dependencies as `depends` lines, and
/// the line with `k` `depends` lines before it gives the `k`-th dependency,
/// with its own source, target and span.
pub proof fn law_every_dependency_line_is_kept(b: Seq<u8>, lines: Seq<LineSyntax>)
    ensures
        dependency_models(b, lines).len() == lines.filter(depends_line()).len(),
        forall|j: int|
            0 <= j < lines.len() ==> (#[trigger] lines[j] matches LineSyntax::Depends { start, end, source, target }
                ==> {
                let k = lines.take(j).filter(depends_line()).len();
                &&& k < dependency_models(b, lines).len()
                &&& dependency_models(b, lines)[k as int] == DependencyModel {
                    source: text_at(b, source),
                    target: text_at(b, target),
                    span: Span { start, end },
                }
            }),
    decreases lines.len(),
{
    reveal(Seq::filter);
    if lines.len() > 0 {
        let front = lines.drop_last();
        law_every_dependency_line_is_kept(b, front);
        assert forall|j: int|
            0 <= j < lines.len() implies (#[trigger] lines[j] matches LineSyntax::Depends { start, end, source, target }
                ==> {
                let k = lines.take(j).filter(depends_line()).len();
                &&& k < dependency_models(b, lines).len()
                &&& dependency_models(b, lines)[k as int] == DependencyModel {
                    source: text_at(b, source),
                    target: text_at(b, target),
                    span: Span { start, end },
                }
            }) by {
            if j < lines.len() - 1 {
                assert(lines.take(j) =~= front.take(j));
                assert(lines[j] == front[j]);
            } else {
                assert(lines.take(j) =~= front);
            }
        }
    }
}

/// Every `layer` line yields exactly one layer, in order, whatever its name:
/// there are as many layers as `layer` lines, and the line with `k` `layer`
/// lines before it gives the `k`-th layer, with its own name and span.
pub proof fn law_every_layer_line_is_kept(b: Seq<u8>, lines: Seq<LineSyntax>)
    ensures
        layer_models(b, lines).len() == lines.filter(layer_line()).len(),
        forall|j: int|
            0 <= j < lines.len() ==> (#[trigger] lines[j] matches LineSyntax::Layer { start, end, name } ==> {
                let k = lines.take(j).filter(layer_line()).len();
                &&& k < layer_models(b, lines).len()
                &&& layer_models(b, lines)[k as int] == LayerModel { name: text_at(b, name), span: Span { start, end } }
            }),
    decreases lines.len(),
{
    reveal(Seq::filter);
    if lines.len() > 0 {
        let front = lines.drop_last();
        law_every_layer_line_is_kept(b, front);
        assert forall|j: int|
            0 <= j < lines.len() implies (#[trigger] lines[j] matches LineSyntax::Layer { start, end, name } ==> {
                let k = lines.take(j).filter(layer_line()).len();
                &&& k < layer_models(b, lines).len()
                &&& layer_models(b, lines)[k as int] == LayerModel { name: text_at(b, name), span: Span { start, end } }
            }) by {
            if j < lines.len() - 1 {
                assert(lines.take(j) =~= front.take(j));
                assert(lines[j] == front[j]);
            } else {
                assert(lines.take(j) =~= front);
            }
        }
    }
}

/// What parsing a document gives.
pub enum ParseOutcome {
    /// The document, as the grammar reads it.
    Parsed(DocumentModel),
    /// A line is not a declaration; the offset is where it departs from the grammar.
    SyntaxError(usize),
    /// Every line is well formed, but none declares a profile.
    MissingProfile,
}

/// The meaning of the grammar: the first malformed line is an error; else
/// there must be a profile; the last `profile` and `root` declarations count,
/// and the layers and dependencies are kept in order.
pub open spec fn spec_parse(b: Seq<u8>) -> ParseOutcome {
    let lines = doc_lines(b, 0);
    match first_malformed(lines) {
        Some(at) => ParseOutcome::SyntaxError(at),
        None => match last_profile(lines) {
            None => ParseOutcome::MissingProfile,
            Some(p) => ParseOutcome::Parsed(
                DocumentModel {
                    profile: profile_model(b, p),
                    root: root_text(b, last_root(lines)),
                    root_span: root_span(last_root(lines)),
                    layers: layer_models(b, lines),
                    dependencies: dependency_models(b, lines),
                },
            ),
        },
    }
}


/// Parsing keeps every declaration line of a well-formed document, in order
/// and with its own text: as many layers as `layer` lines and as many
/// dependencies as `depends` lines. Parsing judges no meaning, so a
/// dependency of a layer on itself, on an unknown layer or a repeated one is
/// kept like any other.
pub proof fn law_parsing_keeps_every_declaration(b: Seq<u8>)
    ensures
        spec_parse(b) matches ParseOutcome::Parsed(m) ==> {
            let lines = doc_lines(b, 0);
            &&& m.layers.len() == lines.filter(layer_line()).len()
            &&& m.dependencies.len() == lines.filter(depends_line()).len()
            &&& forall|j: int|
                0 <= j < lines.len() ==> (#[trigger] lines[j] matches LineSyntax::Depends { start, end, source, target }
                    ==> m.dependencies[lines.take(j).filter(depends_line()).len() as int] == DependencyModel {
                    source: text_at(b, source),
                    target: text_at(b, target),
                    span: Span { start, end },
                })
            &&& forall|j: int|
                0 <= j < lines.len() ==> (#[trigger] lines[j] matches LineSyntax::Layer { start, end, name }
                    ==> m.layers[lines.take(j).filter(layer_line()).len() as int] == LayerModel {
                    name: text_at(b, name),
                    span: Span { start, end },
                })
        },
{
    law_every_dependency_line_is_kept(b, doc_lines(b, 0));
    law_every_layer_line_is_kept(b, doc_lines(b, 0));
}

pub proof fn lemma_first_malformed_prefix(s: Seq<LineSyntax>, t: Seq<LineSyntax>)
    requires
        first_malformed(s) is Some,
    ensures
        first_malformed(s + t) == first_malformed(s),
    decreases t.len(),
{
    if t.len() > 0 {
        assert((s + t).drop_last() =~= s + t.drop_last());
        lemma_first_malformed_prefix(s, t.drop_last());
    } else {
        assert(s + t =~= s);
    }
}

/// The span lies in the source, is not empty, and starts and ends on character boundaries.
pub open spec fn span_within(b: Seq<u8>, s: Span) -> bool {
    &&& s.start < s.end <= b.len()
    &&& is_char_boundary(b, s.start as int)
    &&& is_char_boundary(b, s.end as int)
}

/// Every span of the document lies in the source (see [`span_within`]).
pub open spec fn doc_spans_within(d: DocumentModel, b: Seq<u8>) -> bool {
    &&& span_within(b, d.profile.span)
    &&& (d.root_span matches Some(s) ==> span_within(b, s))
    &&& forall|i: int| 0 <= i < d.layers.len() ==> span_within(b, #[trigger] d.layers[i].span)
    &&& forall|i: int| 0 <= i < d.dependencies.len() ==> span_within(b, #[trigger] d.dependencies[i].span)
}

/// The message of a syntax error, given to pest for rendering.
pub open spec fn syntax_message() -> Seq<char> {
    "expected a declaration: `profile NAME@VERSION`, `root \"PATH\"`, `layer NAME` or `depends NAME on NAME`"@
}

/// The text that pest's `Error` displays for a custom error with `message` at
/// byte offset `pos` of `source`: a `--> line:column` header, the source line
/// and a caret under the position, then the message.
pub uninterp spec fn pest_error_text(source: Seq<char>, pos: int, message: Seq<char>) -> Seq<char>;

/// Builds a pest `Error` with `ErrorVariant::CustomError { message }` at
/// `Position::new(source, pos)` and renders it with `Display`. The contract
/// claims only that the text is a function of the three arguments: the same
/// source, offset and message always render the same text.
#[verifier::external_body]
fn render_parse_error(source: &str, pos: usize, message: String) -> (text: String)
    requires
        pos <= bytes_of(source).len(),
        is_char_boundary(bytes_of(source), pos as int),
    ensures
        text@ == pest_error_text(source@, pos as int, message@),
{
    match pest::Position::new(source, pos) {
        Some(position) => pest::error::Error::<u8>::new_from_pos(
            pest::error::ErrorVariant::CustomError { message },
            position,
        ).to_string(),
        None => message,
    }
}

/// The diagnostic of a line that departs from the grammar at `at`.
pub open spec fn syntax_error_model(b: Seq<u8>, at: usize, rendered: Seq<char>) -> DiagnosticModel {
    error_model(
        DiagnosticCode::SyntaxUnexpectedToken,
        rendered,
        None,
        seq![spec_location(b, at, (at + 1) as usize)],
    )
}

/// The diagnostic of a document without a profile.
pub open spec fn missing_profile_model(b: Seq<u8>) -> DiagnosticModel {
    error_model(
        DiagnosticCode::SyntaxUnexpectedToken,
        "document must declare a profile"@,
        None,
        seq![spec_location(b, 0, if b.len() < 1 { b.len() as usize } else { 1 })],
    )
}

/// The diagnostics of a line that departs from the grammar at `at`, given the
/// error text that was rendered for it.
pub fn syntax_error(source: &str, at: usize, rendered: String) -> (ds: Diagnostics)
    requires
        at <= bytes_of(source).len(),
        bytes_of(source).len() < usize::MAX,
        locatable(bytes_of(source), at),
    ensures
        ds@ == seq![syntax_error_model(bytes_of(source), at, rendered@)],
{
    let mut locations = Vec::new();
    locations.push(Location::from_source(source, at, at + 1));
    Diagnostics::single(Diagnostic::error(DiagnosticCode::SyntaxUnexpectedToken, rendered, None, locations))
}

/// The diagnostics of a document that declares no profile.
fn missing_profile(source: &str) -> (ds: Diagnostics)
    requires
        locatable(bytes_of(source), 0),
    ensures
        ds@ == seq![missing_profile_model(bytes_of(source))],
{
    let n = source.as_bytes().len();
    let end = if n < 1 { n } else { 1 };
    let mut locations = Vec::new();
    locations.push(Location::from_source(source, 0, end));
    Diagnostics::single(
        Diagnostic::error(
            DiagnosticCode::SyntaxUnexpectedToken,
            "document must declare a profile".to_owned(),
            None,
            locations,
        ),
    )
}

pub open spec fn opt_profile(p: Option<ProfileDecl>) -> Option<ProfileModel> {
    match p {
        Some(d) => Some(d@),
        None => None,
    }
}

pub open spec fn opt_profile_of(b: Seq<u8>, l: Option<LineSyntax>) -> Option<ProfileModel> {
    match l {
        Some(line) => Some(profile_model(b, line)),
        None => None,
    }
}

/// Parses a document. The first malformed line is a syntax error, rendered by
/// pest; a well-formed document without a profile is refused as well.
#[verifier::rlimit(50)]
pub fn parse(source: &str) -> (res: Result<AstDocument, Diagnostics>)
    requires
        bytes_of(source).len() < usize::MAX,
    ensures
        match spec_parse(bytes_of(source)) {
            ParseOutcome::Parsed(m) => res matches Ok(doc) && doc@ == m,
            ParseOutcome::SyntaxError(at) => res matches Err(ds) && ds@ == seq![
                syntax_error_model(
                    bytes_of(source),
                    at,
                    pest_error_text(source@, at as int, syntax_message()),
                ),
            ],
            ParseOutcome::MissingProfile => res matches Err(ds) && ds@ == seq![
                missing_profile_model(bytes_of(source)),
            ],
        },
        res matches Ok(doc) ==> doc_spans_within(doc@, bytes_of(source)),
        res matches Ok(doc) ==> (doc@.root is Some <==> doc@.root_span is Some),
        lines_follow_grammar(bytes_of(source), 0),
{
    let ghost b = bytes_of(source);
    let bytes = source.as_bytes();
    let n = bytes.len();
    proof {
        encode_utf8_valid_utf8(source@);
        is_char_boundary_start_end_of_seq(b);
        law_documents_follow_the_grammar(b, 0);
    }
    let mut profile: Option<ProfileDecl> = None;
    let mut root: Option<String> = None;
    let mut root_at: Option<Span> = None;
    let mut layers: Vec<LayerDecl> = Vec::new();
    let mut dependencies: Vec<DependencyDecl> = Vec::new();
    let mut pos: usize = 0;
    let mut more = true;
    let ghost mut done: Seq<LineSyntax> = Seq::empty();
    assert(doc_lines(b, 0) =~= done + doc_lines(b, 0));
    while more
        invariant
            b == bytes_of(source),
            bytes@ == b,
            n == b.len(),
            n < usize::MAX,
            valid_utf8(b),
            lines_follow_grammar(b, 0),
            pos <= n,
            pos == 0 || b[pos - 1] == ('\n' as u8),
            doc_lines(b, 0) == done + (if more { doc_lines(b, pos as int) } else { Seq::empty() }),
            first_malformed(done) is None,
            opt_profile(profile) == opt_profile_of(b, last_profile(done)),
            profile matches Some(p) ==> span_within(b, p.span),
            opt_text(root) == root_text(b, last_root(done)),
            root_at == root_span(last_root(done)),
            root_at matches Some(s) ==> span_within(b, s),
            layers@.map_values(|l: LayerDecl| l@) == layer_models(b, done),
            forall|i: int| 0 <= i < layers@.len() ==> span_within(b, #[trigger] layers@[i].span),
            dependencies@.map_values(|d: DependencyDecl| d@) == dependency_models(b, done),
            forall|i: int| 0 <= i < dependencies@.len() ==> span_within(b, #[trigger] dependencies@[i].span),
        decreases n - pos + (if more { 1int } else { 0int }),
    {
        let le = find_line_end(bytes, pos);
        proof {
            lemma_line_end(b, pos as int);
            lemma_line_well_placed(b, pos as int, le as int);
        }
        let line = scan_line(bytes, pos, le);
        let ghost next = done.push(line);
        proof {
            assert(next.drop_last() =~= done);
            if le >= n {
                assert(doc_lines(b, pos as int) =~= seq![line]);
            } else {
                assert(doc_lines(b, pos as int) =~= seq![line] + doc_lines(b, le + 1));
            }
        }
        match line {
            LineSyntax::Blank => {},
            LineSyntax::Malformed { at } => {
                proof {
                    lemma_ascii_adjacent_boundary(b, at as int);
                    let rest = if le >= n { Seq::empty() } else { doc_lines(b, le + 1) };
                    assert(doc_lines(b, 0) =~= next + rest);
                    lemma_first_malformed_prefix(next, rest);
                    reveal_strlit("expected a declaration: `profile NAME@VERSION`, `root \"PATH\"`, `layer NAME` or `depends NAME on NAME`");
                }
                let message = "expected a declaration: `profile NAME@VERSION`, `root \"PATH\"`, `layer NAME` or `depends NAME on NAME`".to_owned();
                let rendered = render_parse_error(source, at, message);
                return Err(syntax_error(source, at, rendered));
            },
            LineSyntax::Profile { start, end, name, version } => {
                proof {
                    lemma_ascii_adjacent_boundary(b, start as int);
                    lemma_ascii_adjacent_boundary(b, name.0 as int);
                    lemma_ascii_adjacent_boundary(b, name.1 as int);
                    lemma_ascii_adjacent_boundary(b, version.0 as int);
                    lemma_ascii_adjacent_boundary(b, version.1 as int);
                }
                let decl = ProfileDecl {
                    name: slice_text(source, name.0, name.1),
                    version: slice_text(source, version.0, version.1),
                    span: Span { start, end },
                };
                profile = Some(decl);
            },
            LineSyntax::Root { start, end, path } => {
                proof {
                    lemma_ascii_adjacent_boundary(b, start as int);
                    lemma_ascii_adjacent_boundary(b, path.0 as int);
                    lemma_ascii_adjacent_boundary(b, path.1 as int);
                    lemma_ascii_adjacent_boundary(b, end as int);
                }
                root = Some(slice_text(source, path.0, path.1));
                root_at = Some(Span { start, end });
            },
            LineSyntax::Layer { start, end, name } => {
                proof {
                    lemma_ascii_adjacent_boundary(b, start as int);
                    lemma_ascii_adjacent_boundary(b, name.0 as int);
                    lemma_ascii_adjacent_boundary(b, name.1 as int);
                }
                let decl = LayerDecl { name: slice_text(source, name.0, name.1), span: Span { start, end } };
                let ghost old_layers = layers@;
                layers.push(decl);
                assert(layers@.map_values(|l: LayerDecl| l@) =~= old_layers.map_values(
                    |l: LayerDecl| l@,
                ).push(decl@));
            },
            LineSyntax::Depends { start, end, source: src, target } => {
                proof {
                    lemma_ascii_adjacent_boundary(b, start as int);
                    lemma_ascii_adjacent_boundary(b, src.0 as int);
                    lemma_ascii_adjacent_boundary(b, src.1 as int);
                    lemma_ascii_adjacent_boundary(b, target.0 as int);
                    lemma_ascii_adjacent_boundary(b, target.1 as int);
                }
                let decl = DependencyDecl {
                    source: slice_text(source, src.0, src.1),
                    target: slice_text(source, target.0, target.1),
                    span: Span { start, end },
                };
                let ghost old_deps = dependencies@;
                dependencies.push(decl);
                assert(dependencies@.map_values(|d: DependencyDecl| d@) =~= old_deps.map_values(
                    |d: DependencyDecl| d@,
                ).push(decl@));
            },
        }
        proof {
            done = next;
        }
        if le >= n {
            more = false;
        } else {
            pos = le + 1;
        }
    }
    match profile {
        None => {
            proof {
                is_char_boundary_start_end_of_seq(b);
            }
            Err(missing_profile(source))
        },
        Some(profile) => {
            let doc = AstDocument { profile, root, root_span: root_at, layers, dependencies };
            assert(doc@.layers == layer_models(b, done));
            Ok(doc)
        },
    }
}

} // verus!
