//! Parsing and compiling of architecture description documents.
//!
//! A document declares a profile, a root path, layers and the dependencies
//! between them. [`parse`] reads its syntax; [`compile`] checks it against the
//! `feature-clean` profile and yields a normalized [`ArchitectureContract`], or
//! every [`Diagnostic`] found.

pub mod ast;
pub mod contract;
pub mod diagnostics;
pub mod graph;
pub mod semantic;
pub mod syntax;
pub mod text;

pub use ast::{AstDocument, DependencyDecl, LayerDecl, ProfileDecl, Span};
pub use contract::{ArchitectureContract, DependencyEdge, Dimensions, ProfileVersion, ResolvedSymbol};
pub use diagnostics::{Diagnostic, DiagnosticCode, Diagnostics, Location, Severity};

use vstd::prelude::*;

use crate::diagnostics::locatable;
use crate::semantic::{compile_locatable, compiled, outcome};
use crate::syntax::{
    doc_spans_within, lines_follow_grammar, missing_profile_model, pest_error_text, spec_parse, syntax_error_model,
    syntax_message, ParseOutcome,
};
use crate::text::bytes_of;

verus! {

/// Parses a document into its syntax tree (see [`syntax::parse`]).
pub fn parse(source: &str) -> (res: Result<AstDocument, Diagnostics>)
    requires
        bytes_of(source).len() < usize::MAX,
    ensures
        match spec_parse(bytes_of(source)) {
            ParseOutcome::Parsed(m) => res matches Ok(doc) && doc@ == m,
            ParseOutcome::SyntaxError(at) => res matches Err(ds) && ds@ == seq![
                syntax_error_model(
                    bytes_of(source),
                    at,
                    pest_error_text(source@, at as int, syntax_message()),
                ),
            ],
            ParseOutcome::MissingProfile => res matches Err(ds) && ds@ == seq![
                missing_profile_model(bytes_of(source)),
            ],
        },
        res matches Ok(doc) ==> doc_spans_within(doc@, bytes_of(source)),
        res matches Ok(doc) ==> (doc@.root is Some <==> doc@.root_span is Some),
        lines_follow_grammar(bytes_of(source), 0),
{
    syntax::parse(source)
}

/// Checks a parsed document and compiles it (see [`semantic::compile`]).
pub fn compile(document: &AstDocument, source: &str) -> (res: Result<ArchitectureContract, Diagnostics>)
    requires
        compile_locatable(document@, bytes_of(source)),
    ensures
        compiled(document@, bytes_of(source), outcome(res)),
{
    semantic::compile(document, source)
}

/// A parsed document meets what compiling it asks of its source.
pub proof fn lemma_parsed_document_compiles(d: ast::DocumentModel, b: Seq<u8>)
    requires
        doc_spans_within(d, b),
        b.len() < usize::MAX,
    ensures
        compile_locatable(d, b),
{
    assert forall|i: int| 0 <= i < d.dependencies.len() implies locatable(b, #[trigger] d.dependencies[i].span.start) by {
        assert(syntax::span_within(b, d.dependencies[i].span));
    }
    assert forall|i: int|
        0 <= i < d.layers.len() && semantic::layer_names(d.layers.take(i)).contains(#[trigger] d.layers[i].name)
        implies locatable(b, d.layers[i].span.start) by {
        assert(syntax::span_within(b, d.layers[i].span));
    }
}

/// Parses, then compiles, a document.
pub fn compile_source(source: &str) -> (res: Result<ArchitectureContract, Diagnostics>)
    requires
        bytes_of(source).len() < usize::MAX,
    ensures
        match spec_parse(bytes_of(source)) {
            ParseOutcome::Parsed(m) => compiled(m, bytes_of(source), outcome(res)),
            ParseOutcome::SyntaxError(at) => res matches Err(ds) && ds@ == seq![
                syntax_error_model(
                    bytes_of(source),
                    at,
                    pest_error_text(source@, at as int, syntax_message()),
                ),
            ],
            ParseOutcome::MissingProfile => res matches Err(ds) && ds@ == seq![
                missing_profile_model(bytes_of(source)),
            ],
        },
{
    let document = match parse(source) {
        Ok(document) => document,
        Err(ds) => return Err(ds),
    };
    proof {
        lemma_parsed_document_compiles(document@, bytes_of(source));
    }
    compile(&document, source)
}

} // verus!
