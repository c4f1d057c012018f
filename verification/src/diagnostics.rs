//! Diagnostics: what a refused document is answered with.

use vstd::prelude::*;
use vstd::string::StringExecFns;
use vstd::utf8::*;

use crate::text::{bytes_of, str_eq};

verus! {

/// How serious a diagnostic is.
#[derive(Debug, Clone, Copy, PartialEq, Eq)]
pub enum Severity {
    Error,
    Warning,
}

/// The kind of a diagnostic; its stable name is given by [`DiagnosticCode::as_str`].
#[derive(Debug, Clone, Copy, PartialEq, Eq)]
pub enum DiagnosticCode {
    SyntaxUnexpectedToken,
    ProfileUnsupported,
    SymbolDuplicate,
    SymbolUnresolved,
    DependencyForbidden,
    DependencyCycle,
    ContractContradiction,
    ContractMissingRoot,
    ContractMissingLayer,
}

/// The stable, dotted name of each diagnostic code.
pub open spec fn code_name(code: DiagnosticCode) -> Seq<char> {
    match code {
        DiagnosticCode::SyntaxUnexpectedToken => "syntax.unexpected_token"@,
        DiagnosticCode::ProfileUnsupported => "profile.unsupported"@,
        DiagnosticCode::SymbolDuplicate => "symbol.duplicate"@,
        DiagnosticCode::SymbolUnresolved => "symbol.unresolved"@,
        DiagnosticCode::DependencyForbidden => "dependency.forbidden"@,
        DiagnosticCode::DependencyCycle => "dependency.cycle"@,
        DiagnosticCode::ContractContradiction => "contract.contradiction"@,
        DiagnosticCode::ContractMissingRoot => "contract.missing_root"@,
        DiagnosticCode::ContractMissingLayer => "contract.missing_layer"@,
    }
}

impl DiagnosticCode {
    /// The stable, dotted name of this code, such as `symbol.duplicate`.
    pub fn as_str(self) -> (name: &'static str)
        ensures
            name@ == code_name(self),
    {
        match self {
            Self::SyntaxUnexpectedToken => "syntax.unexpected_token",
            Self::ProfileUnsupported => "profile.unsupported",
            Self::SymbolDuplicate => "symbol.duplicate",
            Self::SymbolUnresolved => "symbol.unresolved",
            Self::DependencyForbidden => "dependency.forbidden",
            Self::DependencyCycle => "dependency.cycle",
            Self::ContractContradiction => "contract.contradiction",
            Self::ContractMissingRoot => "contract.missing_root",
            Self::ContractMissingLayer => "contract.missing_layer",
        }
    }
}

/// A place in the source: byte offsets, and the 1-based line and column
/// (in bytes) of `start`.
#[derive(Debug, Clone, Copy, PartialEq, Eq)]
pub struct Location {
    pub start: usize,
    pub end: usize,
    pub line: usize,
    pub column: usize,
}

/// The number of newline bytes among the first `k` bytes of `b`.
pub open spec fn newlines_before(b: Seq<u8>, k: int) -> nat
    decreases k,
{
    if k <= 0 {
        0
    } else {
        newlines_before(b, k - 1) + (if b[k - 1] == 10 { 1nat } else { 0nat })
    }
}

/// The offset where the line holding offset `k` begins: just after the last
/// newline byte before `k`, or 0.
pub open spec fn line_start(b: Seq<u8>, k: int) -> int
    decreases k,
{
    if k <= 0 {
        0
    } else if b[k - 1] == 10 {
        k
    } else {
        line_start(b, k - 1)
    }
}

/// The location that `Location::from_source` computes: line and column of
/// `start`, clamped to the end of the source.
pub open spec fn spec_location(b: Seq<u8>, start: usize, end: usize) -> Location {
    let k = if start < b.len() { start as int } else { b.len() as int };
    Location {
        start,
        end,
        line: (newlines_before(b, k) + 1) as usize,
        column: (k - line_start(b, k) + 1) as usize,
    }
}

/// Where `Location::from_source` can look: the clamped start falls on a
/// character boundary (the prefix before it must be a `str` slice), and the
/// source is short enough for the line and column counts to fit in `usize`.
pub open spec fn locatable(b: Seq<u8>, start: usize) -> bool {
    let k = if start < b.len() { start as int } else { b.len() as int };
    &&& b.len() < usize::MAX
    &&& is_char_boundary(b, k)
}

proof fn lemma_line_start_bounds(b: Seq<u8>, k: int)
    requires
        0 <= k,
    ensures
        0 <= line_start(b, k) <= k,
        newlines_before(b, k) <= k,
    decreases k,
{
    if k > 0 {
        lemma_line_start_bounds(b, k - 1);
    }
}

proof fn lemma_lines_advance(b: Seq<u8>, a: int, c: int)
    requires
        0 <= a <= c,
    ensures
        newlines_before(b, a) <= newlines_before(b, c),
        newlines_before(b, a) == newlines_before(b, c) ==> line_start(b, a) == line_start(b, c),
    decreases c - a,
{
    if c > a {
        lemma_lines_advance(b, a, c - 1);
    }
}

/// Locations advance with the offset: lines and columns start at 1; a later
/// start offset lies on the same or a later line; and on the same line, the
/// columns differ by exactly the difference of the offsets.
pub proof fn law_locations_advance(b: Seq<u8>, a: usize, c: usize, end_a: usize, end_c: usize)
    requires
        a <= c <= b.len(),
        b.len() < usize::MAX,
    ensures
        ({
            let x = spec_location(b, a, end_a);
            let y = spec_location(b, c, end_c);
            &&& x.line >= 1 && x.column >= 1
            &&& x.line <= y.line
            &&& x.line == y.line ==> y.column - x.column == c - a
        }),
{
    lemma_line_start_bounds(b, a as int);
    lemma_line_start_bounds(b, c as int);
    lemma_lines_advance(b, a as int, c as int);
}

/// The test for the newline byte `\n`, the only byte that ends a line.
pub open spec fn newline_byte() -> spec_fn(u8) -> bool {
    |c: u8| c == 10u8
}

/// Two sources that agree on their first `k` bytes have as many newlines there.
proof fn lemma_newlines_prefix(b1: Seq<u8>, b2: Seq<u8>, k: int)
    requires
        0 <= k <= b1.len(),
        k <= b2.len(),
        forall|i: int| 0 <= i < k ==> b1[i] == b2[i],
    ensures
        newlines_before(b1, k) == newlines_before(b2, k),
    decreases k,
{
    if k > 0 {
        lemma_newlines_prefix(b1, b2, k - 1);
    }
}

/// `newlines_before` counts exactly the newline bytes of the prefix.
proof fn lemma_newlines_count(b: Seq<u8>, k: int)
    requires
        0 <= k <= b.len(),
    ensures
        newlines_before(b, k) == b.take(k).filter(newline_byte()).len(),
    decreases k,
{
    reveal(Seq::filter);
    if k == 0 {
        assert(b.take(0) =~= Seq::<u8>::empty());
    } else {
        lemma_newlines_count(b, k - 1);
        assert(b.take(k).drop_last() =~= b.take(k - 1));
        assert(b.take(k).last() == b[k - 1]);
    }
}

/// The line start of `k` follows a newline byte (or is 0), and no newline
/// byte lies between it and `k`.
proof fn lemma_line_start_follows_newline(b: Seq<u8>, k: int)
    requires
        0 <= k <= b.len(),
    ensures
        0 <= line_start(b, k) <= k,
        line_start(b, k) == 0 || b[line_start(b, k) - 1] == 10u8,
        forall|i: int| line_start(b, k) <= i < k ==> b[i] != 10u8,
    decreases k,
{
    if k > 0 && b[k - 1] != 10u8 {
        lemma_line_start_follows_newline(b, k - 1);
    }
}

/// Inserting a byte at or before `k` adds one newline before `k` exactly when
/// the byte is a newline.
proof fn lemma_newlines_insert(b: Seq<u8>, j: int, x: u8, k: int)
    requires
        0 <= j <= k <= b.len(),
    ensures
        newlines_before(b.insert(j, x), k + 1) == newlines_before(b, k) + (if x == 10u8 { 1int } else { 0int }),
    decreases k - j,
{
    let c = b.insert(j, x);
    b.insert_ensures(j, x);
    if k == j {
        lemma_newlines_prefix(c, b, j);
    } else {
        lemma_newlines_insert(b, j, x, k - 1);
        assert(c[k] == b[k - 1]);
    }
}

/// The line of a location is one more than the number of newline bytes
/// (`\n`, and no other byte) before its start, clamped to the end of the
/// source; its column is one more than the number of bytes since the last
/// newline byte before that start, or since the beginning of the source.
pub proof fn law_location_counts_newlines(b: Seq<u8>, start: usize, end: usize)
    requires
        b.len() < usize::MAX,
    ensures
        ({
            let k = if start < b.len() { start as int } else { b.len() as int };
            let loc = spec_location(b, start, end);
            let s = k - (loc.column - 1);
            &&& loc.start == start && loc.end == end
            &&& loc.line == b.take(k).filter(newline_byte()).len() + 1
            &&& 0 <= s <= k
            &&& (s == 0 || b[s - 1] == 10u8)
            &&& forall|i: int| s <= i < k ==> b[i] != 10u8
        }),
{
    let k = if start < b.len() { start as int } else { b.len() as int };
    lemma_line_start_bounds(b, k);
    lemma_newlines_count(b, k);
    lemma_line_start_follows_newline(b, k);
}

/// Inserting a byte before an offset moves the offset one line down if the
/// byte is a newline, and leaves its line unchanged otherwise (a carriage
/// return, in particular, starts no line).
pub proof fn law_inserted_byte_moves_lines(b: Seq<u8>, j: int, x: u8, start: usize, end: usize)
    requires
        0 <= j <= start < b.len(),
        b.len() + 1 < usize::MAX,
    ensures
        spec_location(b.insert(j, x), (start + 1) as usize, end).line == spec_location(b, start, end).line
            + (if x == 10u8 { 1int } else { 0int }),
{
    let c = b.insert(j, x);
    b.insert_ensures(j, x);
    lemma_newlines_insert(b, j, x, start as int);
    lemma_line_start_bounds(b, start as int);
    lemma_line_start_bounds(c, start + 1);
}

impl Location {
    /// The location of the byte range `start..end` of `source`, with the line
    /// and column of `start` (or of the end of the source, past it).
    pub fn from_source(source: &str, start: usize, end: usize) -> (loc: Self)
        requires
            locatable(bytes_of(source), start),
        ensures
            loc == spec_location(bytes_of(source), start, end),
    {
        let bytes = source.as_bytes();
        let k = if start < bytes.len() { start } else { bytes.len() };
        let mut newlines: usize = 0;
        let mut current_line_start: usize = 0;
        let mut i: usize = 0;
        while i < k
            invariant
                k <= bytes@.len(),
                bytes@ == bytes_of(source),
                bytes@.len() < usize::MAX,
                i <= k,
                newlines == newlines_before(bytes@, i as int),
                current_line_start == line_start(bytes@, i as int),
            decreases k - i,
        {
            proof { lemma_line_start_bounds(bytes@, i as int); }
            if bytes[i] == 10u8 {
                newlines = newlines + 1;
                current_line_start = i + 1;
            }
            i = i + 1;
        }
        proof { lemma_line_start_bounds(bytes@, k as int); }
        Location { start, end, line: newlines + 1, column: k - current_line_start + 1 }
    }
}

/// One diagnostic: a code, a severity, a message, an optional context (such
/// as the name concerned) and the places it concerns.
#[derive(Debug, Clone, PartialEq, Eq)]
pub struct Diagnostic {
    pub code: String,
    pub severity: Severity,
    pub message: String,
    pub context: Option<String>,
    pub locations: Vec<Location>,
}

/// The mathematical value of a [`Diagnostic`].
pub struct DiagnosticModel {
    pub code: Seq<char>,
    pub severity: Severity,
    pub message: Seq<char>,
    pub context: Option<Seq<char>>,
    pub locations: Seq<Location>,
}

pub open spec fn opt_text(o: Option<String>) -> Option<Seq<char>> {
    match o {
        Some(s) => Some(s@),
        None => None,
    }
}

impl View for Diagnostic {
    type V = DiagnosticModel;

    open spec fn view(&self) -> DiagnosticModel {
        DiagnosticModel {
            code: self.code@,
            severity: self.severity,
            message: self.message@,
            context: opt_text(self.context),
            locations: self.locations@,
        }
    }
}

/// The value of an error diagnostic.
pub open spec fn error_model(
    code: DiagnosticCode,
    message: Seq<char>,
    context: Option<Seq<char>>,
    locations: Seq<Location>,
) -> DiagnosticModel {
    DiagnosticModel { code: code_name(code), severity: Severity::Error, message, context, locations }
}

impl Diagnostic {
    /// An error diagnostic with the given code, message, context and locations.
    pub fn error(
        code: DiagnosticCode,
        message: String,
        context: Option<String>,
        locations: Vec<Location>,
    ) -> (d: Self)
        ensures
            d@ == error_model(code, message@, opt_text(context), locations@),
    {
        Self {
            code: code.as_str().to_owned(),
            severity: Severity::Error,
            message,
            context,
            locations,
        }
    }
}

/// A list of diagnostics, in the order in which they were found.
#[derive(Debug, Clone, PartialEq, Eq)]
pub struct Diagnostics {
    pub diagnostics: Vec<Diagnostic>,
}

impl View for Diagnostics {
    type V = Seq<DiagnosticModel>;

    open spec fn view(&self) -> Seq<DiagnosticModel> {
        self.diagnostics@.map_values(|d: Diagnostic| d@)
    }
}

/// The text of a list of diagnostics: one `code: message` line for each.
pub open spec fn render_diagnostics(ds: Seq<DiagnosticModel>) -> Seq<char>
    decreases ds.len(),
{
    if ds.len() == 0 {
        Seq::empty()
    } else if ds.len() == 1 {
        ds[0].code + ": "@ + ds[0].message
    } else {
        render_diagnostics(ds.drop_last()) + "\n"@ + ds.last().code + ": "@ + ds.last().message
    }
}

/// The line that one diagnostic renders to: its code, a colon, and its message.
pub open spec fn diagnostic_line(d: DiagnosticModel) -> Seq<char> {
    d.code + ": "@ + d.message
}

/// The test for the newline character.
pub open spec fn newline_char() -> spec_fn(char) -> bool {
    |c: char| c == '\n'
}

/// Rendering splits between any two diagnostics: the text of a list is the
/// text of its first `i` diagnostics, a newline, and the text of the others;
/// and a single diagnostic renders to its own line.
pub proof fn law_rendering_splits(ds: Seq<DiagnosticModel>, i: int)
    requires
        0 < i < ds.len(),
    ensures
        render_diagnostics(ds) == render_diagnostics(ds.take(i)) + "\n"@ + render_diagnostics(ds.skip(i)),
        render_diagnostics(seq![ds[i]]) == diagnostic_line(ds[i]),
    decreases ds.len(),
{
    let last = ds.last();
    if ds.len() == i + 1 {
        assert(ds.take(i) =~= ds.drop_last());
        assert(ds.skip(i) =~= seq![last]);
        assert(render_diagnostics(ds) =~= render_diagnostics(ds.take(i)) + "\n"@ + diagnostic_line(last));
    } else {
        law_rendering_splits(ds.drop_last(), i);
        assert(ds.drop_last().take(i) =~= ds.take(i));
        assert(ds.skip(i).drop_last() =~= ds.drop_last().skip(i));
        assert(ds.skip(i).last() == last);
        let head = render_diagnostics(ds.take(i));
        let mid = render_diagnostics(ds.drop_last().skip(i));
        assert(render_diagnostics(ds.skip(i)) =~= mid + "\n"@ + diagnostic_line(last));
        assert(render_diagnostics(ds) =~= head + "\n"@ + mid + "\n"@ + diagnostic_line(last));
        assert(head + "\n"@ + mid + "\n"@ + diagnostic_line(last) =~= head + "\n"@ + (mid + "\n"@
            + diagnostic_line(last)));
    }
    assert(seq![ds[i]][0] == ds[i]);
}

/// When no code or message holds a newline, the text has exactly one line per
/// diagnostic: one newline fewer than there are diagnostics.
pub proof fn law_one_line_per_diagnostic(ds: Seq<DiagnosticModel>)
    requires
        ds.len() > 0,
        forall|i: int| 0 <= i < ds.len() ==> (#[trigger] diagnostic_line(ds[i])).filter(newline_char()).len() == 0,
    ensures
        render_diagnostics(ds).filter(newline_char()).len() == ds.len() - 1,
    decreases ds.len(),
{
    if ds.len() == 1 {
        assert(render_diagnostics(ds) =~= diagnostic_line(ds[0]));
    } else {
        let front = ds.drop_last();
        assert forall|i: int| 0 <= i < front.len() implies (#[trigger] diagnostic_line(front[i])).filter(
            newline_char(),
        ).len() == 0 by {
            assert(front[i] == ds[i]);
        }
        law_one_line_per_diagnostic(front);
        let line = diagnostic_line(ds.last());
        assert(diagnostic_line(ds[ds.len() - 1]) == line);
        let nl: Seq<char> = "\n"@;
        reveal_strlit("\n");
        assert(render_diagnostics(ds) =~= render_diagnostics(front) + (nl + line));
        Seq::filter_distributes_over_add(render_diagnostics(front), nl + line, newline_char());
        Seq::filter_distributes_over_add(nl, line, newline_char());
        reveal_with_fuel(Seq::filter, 2);
        assert(nl.drop_last() =~= Seq::<char>::empty());
        assert(nl.filter(newline_char()).len() == 1);
    }
}

impl Diagnostics {
    /// An empty list.
    pub fn new() -> (ds: Self)
        ensures
            ds@ == Seq::<DiagnosticModel>::empty(),
    {
        let ds = Diagnostics { diagnostics: Vec::new() };
        assert(ds@ =~= Seq::<DiagnosticModel>::empty());
        ds
    }

    /// A list holding one diagnostic.
    pub fn single(diagnostic: Diagnostic) -> (ds: Self)
        ensures
            ds@ == seq![diagnostic@],
    {
        let mut diagnostics = Vec::new();
        diagnostics.push(diagnostic);
        let ds = Diagnostics { diagnostics };
        assert(ds@ =~= seq![diagnostic@]);
        ds
    }

    /// Appends a diagnostic at the end.
    pub fn push(&mut self, diagnostic: Diagnostic)
        ensures
            final(self)@ == old(self)@.push(diagnostic@),
    {
        self.diagnostics.push(diagnostic);
        assert(self@ =~= old(self)@.push(diagnostic@));
    }

    /// Whether no diagnostic was recorded.
    pub fn is_empty(&self) -> (e: bool)
        ensures
            e == (self@.len() == 0),
    {
        self.diagnostics.len() == 0
    }

    /// Whether some diagnostic has the given code.
    pub fn has_code(&self, code: DiagnosticCode) -> (found: bool)
        ensures
            found == exists|i: int| 0 <= i < self@.len() && #[trigger] self@[i].code == code_name(code),
    {
        let name = code.as_str();
        let mut i: usize = 0;
        while i < self.diagnostics.len()
            invariant
                i <= self.diagnostics.len(),
                name@ == code_name(code),
                forall|j: int| 0 <= j < i ==> #[trigger] self@[j].code != code_name(code),
            decreases self.diagnostics.len() - i,
        {
            if str_eq(self.diagnostics[i].code.as_str(), name) {
                assert(self@[i as int].code == code_name(code));
                return true;
            }
            i = i + 1;
        }
        false
    }

    /// The diagnostics as text, one `code: message` line each, separated by newlines.
    pub fn to_text(&self) -> (text: String)
        ensures
            text@ == render_diagnostics(self@),
    {
        let mut text = String::new();
        let mut i: usize = 0;
        while i < self.diagnostics.len()
            invariant
                i <= self.diagnostics.len(),
                text@ == render_diagnostics(self@.take(i as int)),
            decreases self.diagnostics.len() - i,
        {
            let d = &self.diagnostics[i];
            if i > 0 {
                text.append("\n");
            }
            text.append(d.code.as_str());
            text.append(": ");
            text.append(d.message.as_str());
            assert(self@.take(i + 1).drop_last() =~= self@.take(i as int));
            i = i + 1;
        }
        assert(self@.take(self@.len() as int) =~= self@);
        text
    }
}

} // verus!
