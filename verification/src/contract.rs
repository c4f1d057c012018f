//! The architecture contract that a valid document compiles to.

use vstd::prelude::*;

verus! {

/// The profile a contract was compiled under.
#[derive(Debug, Clone, PartialEq, Eq)]
pub struct ProfileVersion {
    pub name: String,
    pub version: String,
}

/// How the architecture is organised.
#[derive(Debug, Clone, PartialEq, Eq)]
pub struct Dimensions {
    pub decomposition: String,
    pub internal_structure: String,
    pub dependency_policy: String,
    pub visibility: String,
}

/// A declared symbol (a layer), with its stable identifier.
#[derive(Debug, Clone, PartialEq, Eq)]
pub struct ResolvedSymbol {
    pub id: String,
    pub name: String,
    pub kind: String,
}

/// An allowed dependency between two layers.
#[derive(Debug, Clone, PartialEq, Eq)]
pub struct DependencyEdge {
    pub source: String,
    pub target: String,
}

/// The compiled contract: a normal form of a valid document.
#[derive(Debug, Clone, PartialEq, Eq)]
pub struct ArchitectureContract {
    pub schema: String,
    pub profile: ProfileVersion,
    pub root: String,
    pub dimensions: Dimensions,
    pub symbols: Vec<ResolvedSymbol>,
    pub dependencies: Vec<DependencyEdge>,
}

/// The value of a [`ResolvedSymbol`].
pub struct SymbolModel {
    pub id: Seq<char>,
    pub name: Seq<char>,
    pub kind: Seq<char>,
}

/// The value of an [`ArchitectureContract`].
pub struct ContractModel {
    pub schema: Seq<char>,
    pub profile: (Seq<char>, Seq<char>),
    pub root: Seq<char>,
    pub dimensions: (Seq<char>, Seq<char>, Seq<char>, Seq<char>),
    pub symbols: Seq<SymbolModel>,
    pub dependencies: Seq<(Seq<char>, Seq<char>)>,
}

impl View for ResolvedSymbol {
    type V = SymbolModel;

    open spec fn view(&self) -> SymbolModel {
        SymbolModel { id: self.id@, name: self.name@, kind: self.kind@ }
    }
}

impl View for DependencyEdge {
    type V = (Seq<char>, Seq<char>);

    open spec fn view(&self) -> (Seq<char>, Seq<char>) {
        (self.source@, self.target@)
    }
}

/// The names of a list of symbols.
pub open spec fn symbol_names(symbols: Seq<SymbolModel>) -> Seq<Seq<char>> {
    symbols.map_values(|s: SymbolModel| s.name)
}

/// The pairs `(source, target)` of a list of edges.
pub open spec fn edge_pairs(edges: Seq<DependencyEdge>) -> Seq<(Seq<char>, Seq<char>)> {
    edges.map_values(|e: DependencyEdge| e@)
}

impl View for ArchitectureContract {
    type V = ContractModel;

    open spec fn view(&self) -> ContractModel {
        ContractModel {
            schema: self.schema@,
            profile: (self.profile.name@, self.profile.version@),
            root: self.root@,
            dimensions: (
                self.dimensions.decomposition@,
                self.dimensions.internal_structure@,
                self.dimensions.dependency_policy@,
                self.dimensions.visibility@,
            ),
            symbols: self.symbols@.map_values(|s: ResolvedSymbol| s@),
            dependencies: edge_pairs(self.dependencies@),
        }
    }
}

} // verus!
