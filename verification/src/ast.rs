//! The syntax tree of an architecture document, as the parser produces it.

use vstd::prelude::*;

verus! {

/// A byte range of the source.
#[derive(Debug, Clone, Copy, PartialEq, Eq)]
pub struct Span {
    pub start: usize,
    pub end: usize,
}

/// `profile NAME@VERSION`
#[derive(Debug, Clone, PartialEq, Eq)]
pub struct ProfileDecl {
    pub name: String,
    pub version: String,
    pub span: Span,
}

/// `layer NAME`
#[derive(Debug, Clone, PartialEq, Eq)]
pub struct LayerDecl {
    pub name: String,
    pub span: Span,
}

/// `depends SOURCE on TARGET`
#[derive(Debug, Clone, PartialEq, Eq)]
pub struct DependencyDecl {
    pub source: String,
    pub target: String,
    pub span: Span,
}

/// A parsed document: its profile, its optional root path, and its layer and
/// dependency declarations in the order in which they were written.
#[derive(Debug, Clone, PartialEq, Eq)]
pub struct AstDocument {
    pub profile: ProfileDecl,
    pub root: Option<String>,
    pub root_span: Option<Span>,
    pub layers: Vec<LayerDecl>,
    pub dependencies: Vec<DependencyDecl>,
}

/// The value of a [`ProfileDecl`].
pub struct ProfileModel {
    pub name: Seq<char>,
    pub version: Seq<char>,
    pub span: Span,
}

/// The value of a [`LayerDecl`].
pub struct LayerModel {
    pub name: Seq<char>,
    pub span: Span,
}

/// The value of a [`DependencyDecl`].
pub struct DependencyModel {
    pub source: Seq<char>,
    pub target: Seq<char>,
    pub span: Span,
}

/// The value of an [`AstDocument`].
pub struct DocumentModel {
    pub profile: ProfileModel,
    pub root: Option<Seq<char>>,
    pub root_span: Option<Span>,
    pub layers: Seq<LayerModel>,
    pub dependencies: Seq<DependencyModel>,
}

impl View for ProfileDecl {
    type V = ProfileModel;

    open spec fn view(&self) -> ProfileModel {
        ProfileModel { name: self.name@, version: self.version@, span: self.span }
    }
}

impl View for LayerDecl {
    type V = LayerModel;

    open spec fn view(&self) -> LayerModel {
        LayerModel { name: self.name@, span: self.span }
    }
}

impl View for DependencyDecl {
    type V = DependencyModel;

    open spec fn view(&self) -> DependencyModel {
        DependencyModel { source: self.source@, target: self.target@, span: self.span }
    }
}

impl View for AstDocument {
    type V = DocumentModel;

    open spec fn view(&self) -> DocumentModel {
        DocumentModel {
            profile: self.profile@,
            root: match self.root {
                Some(r) => Some(r@),
                None => None,
            },
            root_span: self.root_span,
            layers: self.layers@.map_values(|l: LayerDecl| l@),
            dependencies: self.dependencies@.map_values(|d: DependencyDecl| d@),
        }
    }
}

} // verus!
