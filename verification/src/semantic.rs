//! Semantic checks of a parsed document against the `feature-clean` profile,
//! and its compilation into an architecture contract.

use vstd::prelude::*;
use vstd::string::StringExecFns;

use crate::ast::{AstDocument, DependencyModel, DocumentModel, LayerModel};
use crate::contract::{
    edge_pairs, symbol_names, ArchitectureContract, ContractModel, DependencyEdge, Dimensions,
    ProfileVersion, ResolvedSymbol,
};
use crate::diagnostics::{
    error_model, locatable, spec_location, Diagnostic, DiagnosticCode, DiagnosticModel, Diagnostics,
    Location, Severity,
};
use crate::graph::{cycle_report, find_cycle, has_cycle, has_edge, is_walk, lemma_witness_has_cycle};
use crate::text::{
    bytes_of, compare_pair, lemma_pair_lt_irreflexive, lemma_pair_lt_total, lemma_pair_lt_transitive,
    lemma_text_lt_irreflexive, lemma_text_lt_transitive, pair_lt, pairs_strictly_sorted, set_contains,
    set_insert, str_eq, strictly_sorted, text_lt, texts,
};

verus! {

/// The only profile this compiler supports: its name...
pub const PROFILE_NAME: &'static str = "feature-clean";

/// ... and its version.
pub const PROFILE_VERSION: &'static str = "0.1";

/// The names of the declared layers, in order.
pub open spec fn layer_names(ls: Seq<LayerModel>) -> Seq<Seq<char>> {
    ls.map_values(|l: LayerModel| l.name)
}

/// The `(source, target)` pairs of the declared dependencies, in order.
pub open spec fn dependency_pairs(ds: Seq<DependencyModel>) -> Seq<(Seq<char>, Seq<char>)> {
    ds.map_values(|d: DependencyModel| (d.source, d.target))
}

/// The dependencies that the clean-layers policy allows: inner layers never
/// depend on outer ones.
pub open spec fn allowed(source: Seq<char>, target: Seq<char>) -> bool {
    ||| source == "application"@ && target == "domain"@
    ||| source == "infrastructure"@ && target == "application"@
    ||| source == "infrastructure"@ && target == "domain"@
    ||| source == "presentation"@ && target == "application"@
    ||| source == "presentation"@ && target == "domain"@
}

/// The layers that every `feature-clean` document must declare, in the order
/// in which their absence is reported.
pub open spec fn required_layers() -> Seq<Seq<char>> {
    seq!["domain"@, "application"@, "infrastructure"@, "presentation"@]
}

pub open spec fn span_location(b: Seq<u8>, start: usize, end: usize) -> Seq<crate::diagnostics::Location> {
    seq![spec_location(b, start, end)]
}

/// An unsupported profile is reported, with the span of its declaration.
pub open spec fn profile_diagnostics(d: DocumentModel, b: Seq<u8>) -> Seq<DiagnosticModel> {
    if d.profile.name == PROFILE_NAME@ && d.profile.version == PROFILE_VERSION@ {
        Seq::empty()
    } else {
        seq![
            error_model(
                DiagnosticCode::ProfileUnsupported,
                "unsupported profile "@ + d.profile.name + "@"@ + d.profile.version,
                Some("supported profile: feature-clean@0.1"@),
                span_location(b, d.profile.span.start, d.profile.span.end),
            ),
        ]
    }
}

/// A missing root path is reported, with the span of the root declaration
/// when the document has one.
pub open spec fn root_diagnostics(d: DocumentModel, b: Seq<u8>) -> Seq<DiagnosticModel> {
    match d.root {
        Some(_) => Seq::empty(),
        None => seq![
            error_model(
                DiagnosticCode::ContractMissingRoot,
                "feature-clean requires a root path"@,
                None,
                match d.root_span {
                    Some(s) => span_location(b, s.start, s.end),
                    None => Seq::empty(),
                },
            ),
        ],
    }
}

/// Every layer declared again after its first declaration is reported.
pub open spec fn duplicate_diagnostics(ls: Seq<LayerModel>, b: Seq<u8>) -> Seq<DiagnosticModel>
    decreases ls.len(),
{
    if ls.len() == 0 {
        Seq::empty()
    } else {
        duplicate_diagnostics(ls.drop_last(), b) + if layer_names(ls.drop_last()).contains(
            ls.last().name,
        ) {
            seq![
                error_model(
                    DiagnosticCode::SymbolDuplicate,
                    "layer `"@ + ls.last().name + "` is declared more than once"@,
                    Some(ls.last().name),
                    span_location(b, ls.last().span.start, ls.last().span.end),
                ),
            ]
        } else {
            Seq::empty()
        }
    }
}

/// Every required layer that is not declared is reported, in order.
pub open spec fn missing_layer_diagnostics(names: Seq<Seq<char>>, required: Seq<Seq<char>>) -> Seq<
    DiagnosticModel,
>
    decreases required.len(),
{
    if required.len() == 0 {
        Seq::empty()
    } else {
        missing_layer_diagnostics(names, required.drop_last()) + if names.contains(required.last()) {
            Seq::empty()
        } else {
            seq![
                error_model(
                    DiagnosticCode::ContractMissingLayer,
                    "feature-clean requires the `"@ + required.last() + "` layer"@,
                    Some(required.last()),
                    Seq::empty(),
                ),
            ]
        }
    }
}

/// What one dependency declaration is reported for: an unknown source, an
/// unknown target, a direction the policy forbids, and a repetition of an
/// earlier declaration, in this order.
pub open spec fn one_dependency_diagnostics(
    d: DependencyModel,
    names: Seq<Seq<char>>,
    earlier: Seq<(Seq<char>, Seq<char>)>,
    b: Seq<u8>,
) -> Seq<DiagnosticModel> {
    let loc = span_location(b, d.span.start, d.span.end);
    (if names.contains(d.source) {
        Seq::empty()
    } else {
        seq![
            error_model(
                DiagnosticCode::SymbolUnresolved,
                "unknown dependency source `"@ + d.source + "`"@,
                Some(d.source),
                loc,
            ),
        ]
    }) + (if names.contains(d.target) {
        Seq::empty()
    } else {
        seq![
            error_model(
                DiagnosticCode::SymbolUnresolved,
                "unknown dependency target `"@ + d.target + "`"@,
                Some(d.target),
                loc,
            ),
        ]
    }) + (if allowed(d.source, d.target) {
        Seq::empty()
    } else {
        seq![
            error_model(
                DiagnosticCode::DependencyForbidden,
                "layer `"@ + d.source + "` cannot depend on `"@ + d.target + "`"@,
                None,
                loc,
            ),
        ]
    }) + (if earlier.contains((d.source, d.target)) {
        seq![
            error_model(
                DiagnosticCode::ContractContradiction,
                "dependency `"@ + d.source + "` -> `"@ + d.target + "` is declared more than once"@,
                None,
                loc,
            ),
        ]
    } else {
        Seq::empty()
    })
}

/// The reports on all dependency declarations, in order.
pub open spec fn dependency_diagnostics(
    ds: Seq<DependencyModel>,
    names: Seq<Seq<char>>,
    b: Seq<u8>,
) -> Seq<DiagnosticModel>
    decreases ds.len(),
{
    if ds.len() == 0 {
        Seq::empty()
    } else {
        dependency_diagnostics(ds.drop_last(), names, b) + one_dependency_diagnostics(
            ds.last(),
            names,
            dependency_pairs(ds.drop_last()),
            b,
        )
    }
}

/// The parts joined by `sep`.
pub open spec fn join(parts: Seq<Seq<char>>, sep: Seq<char>) -> Seq<char>
    decreases parts.len(),
{
    if parts.len() == 0 {
        Seq::empty()
    } else if parts.len() == 1 {
        parts[0]
    } else {
        join(parts.drop_last(), sep) + sep + parts.last()
    }
}

/// A dependency cycle is reported with the walk that found it.
pub open spec fn cycle_diagnostics(c: Option<Seq<Seq<char>>>) -> Seq<DiagnosticModel> {
    match c {
        Some(p) => seq![
            error_model(
                DiagnosticCode::DependencyCycle,
                "dependency cycle detected: "@ + join(p, " -> "@),
                None,
                Seq::empty(),
            ),
        ],
        None => Seq::empty(),
    }
}

/// Every diagnostic but the one on cycles, in the order of the checks.
pub open spec fn static_diagnostics(d: DocumentModel, b: Seq<u8>) -> Seq<DiagnosticModel> {
    profile_diagnostics(d, b) + root_diagnostics(d, b) + duplicate_diagnostics(d.layers, b)
        + missing_layer_diagnostics(layer_names(d.layers), required_layers())
        + dependency_diagnostics(d.dependencies, layer_names(d.layers), b)
}

/// Every diagnostic of a document, given the cycle that the search reported.
pub open spec fn all_diagnostics(d: DocumentModel, b: Seq<u8>, c: Option<Seq<Seq<char>>>) -> Seq<
    DiagnosticModel,
> {
    static_diagnostics(d, b) + cycle_diagnostics(c)
}

/// The places where compiling reads the source for a location, each of which
/// must be locatable (see [`locatable`]). These are the profile when unsupported, the
/// root declaration when it has no path, each repeated layer, and every
/// dependency.
pub open spec fn compile_locatable(d: DocumentModel, b: Seq<u8>) -> bool {
    &&& !(d.profile.name == PROFILE_NAME@ && d.profile.version == PROFILE_VERSION@) ==> locatable(
        b,
        d.profile.span.start,
    )
    &&& (d.root is None && d.root_span is Some) ==> locatable(b, d.root_span->0.start)
    &&& forall|i: int|
        0 <= i < d.layers.len() && layer_names(d.layers.take(i)).contains(#[trigger] d.layers[i].name)
            ==> locatable(b, d.layers[i].span.start)
    &&& forall|i: int| 0 <= i < d.dependencies.len() ==> locatable(b, #[trigger] d.dependencies[i].span.start)
}

/// The contract that a valid document compiles to: the fixed schema, profile
/// and dimensions, the document's root, its layers as symbols sorted by name,
/// and its dependencies sorted by source and target.
pub open spec fn contract_of(d: DocumentModel, m: ContractModel) -> bool {
    let names = symbol_names(m.symbols);
    &&& m.schema == "architecture-contract@0.1"@
    &&& m.profile == (PROFILE_NAME@, PROFILE_VERSION@)
    &&& d.root == Some(m.root)
    &&& m.dimensions == ("feature"@, "clean-layers"@, "clean"@, "public-api"@)
    &&& strictly_sorted(names)
    &&& forall|x: Seq<char>| names.contains(x) <==> layer_names(d.layers).contains(x)
    &&& forall|i: int| 0 <= i < m.symbols.len() ==> (#[trigger] m.symbols[i]).id == "layer:"@ + m.symbols[i].name
        && m.symbols[i].kind == "layer"@
    &&& pairs_strictly_sorted(m.dependencies)
    &&& forall|p: (Seq<char>, Seq<char>)| m.dependencies.contains(p) <==> dependency_pairs(d.dependencies).contains(p)
}


/// The location of `start..end` in `source`.
fn location(source: &str, start: usize, end: usize) -> (loc: Location)
    requires
        locatable(bytes_of(source), start),
    ensures
        loc == spec_location(bytes_of(source), start, end),
{
    Location::from_source(source, start, end)
}

/// One location, as a list.
fn one_location(source: &str, start: usize, end: usize) -> (locs: Vec<Location>)
    requires
        locatable(bytes_of(source), start),
    ensures
        locs@ == span_location(bytes_of(source), start, end),
{
    let mut locs = Vec::new();
    locs.push(location(source, start, end));
    locs
}

/// Whether the clean-layers policy allows `source` to depend on `target`.
pub fn allowed_dependency(source: &str, target: &str) -> (ok: bool)
    ensures
        ok == allowed(source@, target@),
{
    (str_eq(source, "application") && str_eq(target, "domain"))
        || (str_eq(source, "infrastructure") && str_eq(target, "application"))
        || (str_eq(source, "infrastructure") && str_eq(target, "domain"))
        || (str_eq(source, "presentation") && str_eq(target, "application"))
        || (str_eq(source, "presentation") && str_eq(target, "domain"))
}

/// `a`, then `b`, then `c`, as one string.
fn concat3(a: &str, b: &str, c: &str) -> (s: String)
    ensures
        s@ == a@ + b@ + c@,
{
    let mut s = a.to_owned();
    s.append(b);
    s.append(c);
    s
}

/// `a`, `b`, `c`, `d`, `e`, as one string.
fn concat5(a: &str, b: &str, c: &str, d: &str, e: &str) -> (s: String)
    ensures
        s@ == a@ + b@ + c@ + d@ + e@,
{
    let mut s = concat3(a, b, c);
    s.append(d);
    s.append(e);
    s
}

fn check_profile(document: &AstDocument, source: &str, ds: &mut Diagnostics)
    requires
        compile_locatable(document@, bytes_of(source)),
    ensures
        final(ds)@ == old(ds)@ + profile_diagnostics(document@, bytes_of(source)),
{
    let profile = &document.profile;
    if str_eq(profile.name.as_str(), PROFILE_NAME) && str_eq(profile.version.as_str(), PROFILE_VERSION) {
        assert(old(ds)@ + Seq::<DiagnosticModel>::empty() =~= old(ds)@);
        return;
    }
    let message = concat3("unsupported profile ", profile.name.as_str(), "@");
    let mut message = message;
    message.append(profile.version.as_str());
    let d = Diagnostic::error(
        DiagnosticCode::ProfileUnsupported,
        message,
        Some("supported profile: feature-clean@0.1".to_owned()),
        one_location(source, profile.span.start, profile.span.end),
    );
    ds.push(d);
}

fn check_root(document: &AstDocument, source: &str, ds: &mut Diagnostics) -> (root: String)
    requires
        compile_locatable(document@, bytes_of(source)),
    ensures
        final(ds)@ == old(ds)@ + root_diagnostics(document@, bytes_of(source)),
        document@.root matches Some(r) ==> root@ == r,
{
    match &document.root {
        Some(root) => {
            assert(old(ds)@ + Seq::<DiagnosticModel>::empty() =~= old(ds)@);
            root.clone()
        },
        None => {
            let locations = match document.root_span {
                Some(span) => one_location(source, span.start, span.end),
                None => {
                    let v = Vec::new();
                    assert(v@ =~= Seq::<Location>::empty());
                    v
                },
            };
            ds.push(Diagnostic::error(
                DiagnosticCode::ContractMissingRoot,
                "feature-clean requires a root path".to_owned(),
                None,
                locations,
            ));
            String::new()
        },
    }
}


/// Collects the declared layer names into a sorted set, reporting repetitions.
fn collect_symbols(document: &AstDocument, source: &str, ds: &mut Diagnostics) -> (symbols: Vec<String>)
    requires
        compile_locatable(document@, bytes_of(source)),
    ensures
        final(ds)@ == old(ds)@ + duplicate_diagnostics(document@.layers, bytes_of(source)),
        strictly_sorted(texts(symbols@)),
        forall|x: Seq<char>| texts(symbols@).contains(x) <==> layer_names(document@.layers).contains(x),
{
    let ghost ls = document@.layers;
    let ghost b = bytes_of(source);
    let ghost ds0 = ds@;
    let mut symbols: Vec<String> = Vec::new();
    let mut i: usize = 0;
    assert(ls.take(0) =~= Seq::<LayerModel>::empty());
    assert(ds@ =~= ds0 + duplicate_diagnostics(ls.take(0), b));
    while i < document.layers.len()
        invariant
            ls == document@.layers,
            b == bytes_of(source),
            compile_locatable(document@, b),
            i <= ls.len(),
            strictly_sorted(texts(symbols@)),
            forall|x: Seq<char>| texts(symbols@).contains(x) <==> layer_names(ls.take(i as int)).contains(x),
            ds@ == ds0 + duplicate_diagnostics(ls.take(i as int), b),
        decreases ls.len() - i,
    {
        let layer = &document.layers[i];
        assert(ls[i as int] == layer@);
        let ghost next = ls.take(i + 1);
        assert(next.drop_last() =~= ls.take(i as int));
        assert(next.last() == layer@);
        assert(layer_names(next) =~= layer_names(ls.take(i as int)).push(layer.name@));
        let inserted = set_insert(&mut symbols, &layer.name);
        assert forall|x: Seq<char>| texts(symbols@).contains(x) <==> layer_names(next).contains(x) by {
            let prev = layer_names(ls.take(i as int));
            if layer_names(next).contains(x) {
                let k = choose|k: int| 0 <= k < layer_names(next).len() && layer_names(next)[k] == x;
                if k < prev.len() {
                    assert(prev[k] == x);
                }
            }
            if prev.contains(x) {
                let k = choose|k: int| 0 <= k < prev.len() && prev[k] == x;
                assert(layer_names(next)[k] == x);
            }
            if x == layer.name@ {
                assert(layer_names(next)[i as int] == x);
            }
        }
        if !inserted {
            assert(layer_names(ls.take(i as int)).contains(ls[i as int].name));
            let message = concat3("layer `", layer.name.as_str(), "` is declared more than once");
            let d = Diagnostic::error(
                DiagnosticCode::SymbolDuplicate,
                message,
                Some(layer.name.clone()),
                one_location(source, layer.span.start, layer.span.end),
            );
            ds.push(d);
            assert(ds@ =~= ds0 + duplicate_diagnostics(next, b));
        } else {
            assert(ds@ =~= ds0 + duplicate_diagnostics(next, b));
        }
        i = i + 1;
    }
    assert(ls.take(ls.len() as int) =~= ls);
    symbols
}

/// Reports `name` if it is not among the symbols.
fn require_layer(symbols: &Vec<String>, name: &str, ds: &mut Diagnostics)
    ensures
        final(ds)@ == old(ds)@ + if texts(symbols@).contains(name@) {
            Seq::<DiagnosticModel>::empty()
        } else {
            seq![
                error_model(
                    DiagnosticCode::ContractMissingLayer,
                    "feature-clean requires the `"@ + name@ + "` layer"@,
                    Some(name@),
                    Seq::empty(),
                ),
            ]
        },
{
    let owned = name.to_owned();
    if set_contains(symbols, &owned) {
        assert(old(ds)@ + Seq::<DiagnosticModel>::empty() =~= old(ds)@);
        return;
    }
    let locations: Vec<Location> = Vec::new();
    assert(locations@ =~= Seq::<Location>::empty());
    ds.push(Diagnostic::error(
        DiagnosticCode::ContractMissingLayer,
        concat3("feature-clean requires the `", name, "` layer"),
        Some(owned),
        locations,
    ));
}

/// Reports each required layer that is not declared.
fn check_required_layers(symbols: &Vec<String>, names: Ghost<Seq<Seq<char>>>, ds: &mut Diagnostics)
    requires
        forall|x: Seq<char>| texts(symbols@).contains(x) <==> names@.contains(x),
    ensures
        final(ds)@ == old(ds)@ + missing_layer_diagnostics(names@, required_layers()),
{
    let ghost ds0 = ds@;
    let ghost req = required_layers();
    proof {
        reveal_strlit("domain");
        reveal_strlit("application");
        reveal_strlit("infrastructure");
        reveal_strlit("presentation");
        assert(missing_layer_diagnostics(names@, req.take(0)) =~= Seq::<DiagnosticModel>::empty());
    }
    require_layer(symbols, "domain", ds);
    proof {
        assert(req.take(1).drop_last() =~= req.take(0));
        assert(req.take(1).last() == "domain"@);
        assert(texts(symbols@).contains("domain"@) == names@.contains("domain"@));
        assert(ds@ =~= ds0 + missing_layer_diagnostics(names@, req.take(1)));
    }
    require_layer(symbols, "application", ds);
    proof {
        assert(req.take(2).drop_last() =~= req.take(1));
        assert(req.take(2).last() == "application"@);
        assert(texts(symbols@).contains("application"@) == names@.contains("application"@));
        assert(ds@ =~= ds0 + missing_layer_diagnostics(names@, req.take(2)));
    }
    require_layer(symbols, "infrastructure", ds);
    proof {
        assert(req.take(3).drop_last() =~= req.take(2));
        assert(req.take(3).last() == "infrastructure"@);
        assert(texts(symbols@).contains("infrastructure"@) == names@.contains("infrastructure"@));
        assert(ds@ =~= ds0 + missing_layer_diagnostics(names@, req.take(3)));
    }
    require_layer(symbols, "presentation", ds);
    proof {
        assert(req.drop_last() =~= req.take(3));
        assert(req.last() == "presentation"@);
        assert(texts(symbols@).contains("presentation"@) == names@.contains("presentation"@));
    }
    assert(ds@ =~= ds0 + missing_layer_diagnostics(names@, req));
}


/// Adds the edge `source -> target` to a strictly sorted set of edges;
/// returns whether it was absent.
fn edge_set_insert(set: &mut Vec<DependencyEdge>, source: &String, target: &String) -> (inserted: bool)
    requires
        pairs_strictly_sorted(edge_pairs(old(set)@)),
    ensures
        inserted == !edge_pairs(old(set)@).contains((source@, target@)),
        pairs_strictly_sorted(edge_pairs(final(set)@)),
        forall|p: (Seq<char>, Seq<char>)| #[trigger] edge_pairs(final(set)@).contains(p)
            <==> (edge_pairs(old(set)@).contains(p) || p == (source@, target@)),
{
    let ghost old_t = edge_pairs(set@);
    let ghost x = (source@, target@);
    let mut i: usize = 0;
    while i < set.len() && compare_pair(&set[i].source, &set[i].target, source, target) == -1
        invariant
            i <= set.len(),
            set@ == old(set)@,
            old_t == edge_pairs(set@),
            x == (source@, target@),
            forall|j: int| 0 <= j < i ==> pair_lt(#[trigger] old_t[j], x),
        decreases set.len() - i,
    {
        i = i + 1;
    }
    if i < set.len() && compare_pair(&set[i].source, &set[i].target, source, target) == 0 {
        assert(old_t[i as int] == x);
        return false;
    }
    proof {
        if i < set.len() {
            assert(old_t[i as int] == set@[i as int]@);
            assert(!pair_lt(old_t[i as int], x));
            lemma_pair_lt_total(old_t[i as int], x);
        }
        assert forall|j: int| 0 <= j < old_t.len() implies old_t[j] != x by {
            if j < i {
                lemma_pair_lt_irreflexive(x);
            } else {
                if j > i {
                    lemma_pair_lt_transitive(x, old_t[i as int], old_t[j]);
                }
                lemma_pair_lt_irreflexive(x);
            }
        }
    }
    set.insert(i, DependencyEdge { source: source.clone(), target: target.clone() });
    let ghost new_t = edge_pairs(set@);
    assert(new_t =~= old_t.insert(i as int, x));
    proof {
        assert forall|a: int, b: int| 0 <= a < b < new_t.len() implies pair_lt(
            #[trigger] new_t[a],
            #[trigger] new_t[b],
        ) by {
            if b < i {
            } else if a < i && b == i {
            } else if a < i && b > i {
                assert(new_t[b] == old_t[b - 1]);
            } else if a == i {
                assert(new_t[b] == old_t[b - 1]);
                if b - 1 > i {
                    lemma_pair_lt_transitive(x, old_t[i as int], old_t[b - 1]);
                }
            } else {
                assert(new_t[a] == old_t[a - 1]);
                assert(new_t[b] == old_t[b - 1]);
            }
        }
        assert forall|p: (Seq<char>, Seq<char>)| #[trigger] new_t.contains(p) <==> (old_t.contains(p) || p == x) by {
            if new_t.contains(p) {
                let k = choose|k: int| 0 <= k < new_t.len() && new_t[k] == p;
                if k < i {
                    assert(old_t[k] == p);
                } else if k > i {
                    assert(old_t[k - 1] == p);
                }
            }
            if old_t.contains(p) {
                let k = choose|k: int| 0 <= k < old_t.len() && old_t[k] == p;
                if k < i {
                    assert(new_t[k] == p);
                } else {
                    assert(new_t[k + 1] == p);
                }
            }
            if p == x {
                assert(new_t[i as int] == p);
            }
        }
        assert(!old_t.contains(x));
    }
    true
}


/// Checks every dependency declaration in order; returns all the declared
/// edges in order, and the set of distinct edges, sorted.
#[verifier::rlimit(30)]
fn check_dependencies(
    document: &AstDocument,
    source: &str,
    symbols: &Vec<String>,
    names: Ghost<Seq<Seq<char>>>,
    ds: &mut Diagnostics,
) -> (res: (Vec<DependencyEdge>, Vec<DependencyEdge>))
    requires
        compile_locatable(document@, bytes_of(source)),
        forall|x: Seq<char>| texts(symbols@).contains(x) <==> names@.contains(x),
    ensures
        final(ds)@ == old(ds)@ + dependency_diagnostics(document@.dependencies, names@, bytes_of(source)),
        edge_pairs(res.0@) == dependency_pairs(document@.dependencies),
        pairs_strictly_sorted(edge_pairs(res.1@)),
        forall|p: (Seq<char>, Seq<char>)| edge_pairs(res.1@).contains(p) <==> dependency_pairs(
            document@.dependencies,
        ).contains(p),
{
    let ghost deps = document@.dependencies;
    let ghost b = bytes_of(source);
    let ghost ds0 = ds@;
    let mut edges: Vec<DependencyEdge> = Vec::new();
    let mut seen: Vec<DependencyEdge> = Vec::new();
    let mut i: usize = 0;
    assert(deps.take(0) =~= Seq::<DependencyModel>::empty());
    assert(ds@ =~= ds0 + dependency_diagnostics(deps.take(0), names@, b));
    assert(edge_pairs(edges@) =~= dependency_pairs(deps.take(0)));
    while i < document.dependencies.len()
        invariant
            deps == document@.dependencies,
            b == bytes_of(source),
            compile_locatable(document@, b),
            forall|x: Seq<char>| texts(symbols@).contains(x) <==> names@.contains(x),
            i <= deps.len(),
            ds@ == ds0 + dependency_diagnostics(deps.take(i as int), names@, b),
            edge_pairs(edges@) == dependency_pairs(deps.take(i as int)),
            pairs_strictly_sorted(edge_pairs(seen@)),
            forall|p: (Seq<char>, Seq<char>)| edge_pairs(seen@).contains(p) <==> dependency_pairs(
                deps.take(i as int),
            ).contains(p),
        decreases deps.len() - i,
    {
        let dep = &document.dependencies[i];
        let ghost d = dep@;
        assert(deps[i as int] == d);
        let ghost next = deps.take(i + 1);
        let ghost earlier = dependency_pairs(deps.take(i as int));
        assert(next.drop_last() =~= deps.take(i as int));
        assert(next.last() == d);
        let ghost start = ds@;
        assert(locatable(b, document@.dependencies[i as int].span.start));
        let loc = one_location(source, dep.span.start, dep.span.end);
        let ghost locs = loc@;
        if !set_contains(symbols, &dep.source) {
            let m = concat3("unknown dependency source `", dep.source.as_str(), "`");
            ds.push(Diagnostic::error(DiagnosticCode::SymbolUnresolved, m, Some(dep.source.clone()), loc.clone()));
        }
        let ghost after1 = ds@;
        if !set_contains(symbols, &dep.target) {
            let m = concat3("unknown dependency target `", dep.target.as_str(), "`");
            ds.push(Diagnostic::error(DiagnosticCode::SymbolUnresolved, m, Some(dep.target.clone()), loc.clone()));
        }
        let ghost after2 = ds@;
        if !allowed_dependency(dep.source.as_str(), dep.target.as_str()) {
            let m = concat5("layer `", dep.source.as_str(), "` cannot depend on `", dep.target.as_str(), "`");
            ds.push(Diagnostic::error(DiagnosticCode::DependencyForbidden, m, None, loc.clone()));
        }
        let ghost after3 = ds@;
        let fresh = edge_set_insert(&mut seen, &dep.source, &dep.target);
        if !fresh {
            let m = concat5("dependency `", dep.source.as_str(), "` -> `", dep.target.as_str(), "` is declared more than once");
            ds.push(Diagnostic::error(DiagnosticCode::ContractContradiction, m, None, loc));
        }
        proof {
            let part = one_dependency_diagnostics(d, names@, earlier, b);
            assert(after1 == start + (if names@.contains(d.source) { Seq::<DiagnosticModel>::empty() } else {
                seq![error_model(DiagnosticCode::SymbolUnresolved, "unknown dependency source `"@ + d.source + "`"@, Some(d.source), locs)]
            }));
            assert(ds@ =~= start + part);
            assert(ds@ =~= ds0 + dependency_diagnostics(next, names@, b));
        }
        let ghost old_edges = edges@;
        edges.push(DependencyEdge { source: dep.source.clone(), target: dep.target.clone() });
        proof {
            assert(dependency_pairs(next) =~= earlier.push((d.source, d.target)));
            assert(edge_pairs(edges@) =~= edge_pairs(old_edges).push((d.source, d.target)));
            assert forall|p: (Seq<char>, Seq<char>)| edge_pairs(seen@).contains(p) <==> dependency_pairs(next).contains(p) by {
                if dependency_pairs(next).contains(p) {
                    let k = choose|k: int| 0 <= k < dependency_pairs(next).len() && dependency_pairs(next)[k] == p;
                    if k < earlier.len() {
                        assert(earlier[k] == p);
                    }
                }
                if earlier.contains(p) {
                    let k = choose|k: int| 0 <= k < earlier.len() && earlier[k] == p;
                    assert(dependency_pairs(next)[k] == p);
                }
                if p == (d.source, d.target) {
                    assert(dependency_pairs(next)[i as int] == p);
                }
            }
        }
        i = i + 1;
    }
    assert(deps.take(deps.len() as int) =~= deps);
    (edges, seen)
}


/// The value of a compilation result.
pub open spec fn outcome(res: Result<ArchitectureContract, Diagnostics>) -> Result<ContractModel, Seq<DiagnosticModel>> {
    match res {
        Ok(k) => Ok(k@),
        Err(ds) => Err(ds@),
    }
}

/// What compiling `d` gives: a contract exactly when no check fails and the
/// dependencies have no cycle; then the contract of `d`, else every diagnostic
/// in the order of the checks, the cycle reported being one that the search
/// may find.
pub open spec fn compiled(d: DocumentModel, b: Seq<u8>, res: Result<ContractModel, Seq<DiagnosticModel>>) -> bool {
    &&& (res is Ok <==> (static_diagnostics(d, b).len() == 0 && !has_cycle(dependency_pairs(d.dependencies))))
    &&& exists|c: Option<Seq<Seq<char>>>|
        #[trigger] cycle_report(dependency_pairs(d.dependencies), c) && match res {
            Ok(k) => contract_of(d, k),
            Err(ds) => ds == all_diagnostics(d, b, c),
        }
}

/// The parts joined by `sep`.
fn join_text(parts: &Vec<String>, sep: &str) -> (s: String)
    ensures
        s@ == join(texts(parts@), sep@),
{
    let ghost t = texts(parts@);
    let mut s = String::new();
    let mut i: usize = 0;
    assert(join(t.take(0), sep@) =~= Seq::<char>::empty());
    while i < parts.len()
        invariant
            i <= parts@.len(),
            t == texts(parts@),
            s@ == join(t.take(i as int), sep@),
        decreases parts@.len() - i,
    {
        if i > 0 {
            s.append(sep);
        }
        s.append(parts[i].as_str());
        assert(t.take(i + 1).drop_last() =~= t.take(i as int));
        assert(t.take(i + 1).last() == parts@[i as int]@);
        if i == 0 {
            assert(t.take(1)[0] == parts@[0]@);
        }
        i = i + 1;
    }
    assert(t.take(parts@.len() as int) =~= t);
    s
}

/// The symbols of the contract, one for each name of the sorted set.
fn resolve_symbols(symbols: &Vec<String>) -> (out: Vec<ResolvedSymbol>)
    ensures
        symbol_names(out@.map_values(|s: ResolvedSymbol| s@)) == texts(symbols@),
        forall|i: int| 0 <= i < out@.len() ==> (#[trigger] out@[i]).id@ == "layer:"@ + out@[i].name@
            && out@[i].kind@ == "layer"@,
{
    let mut out: Vec<ResolvedSymbol> = Vec::new();
    let mut i: usize = 0;
    while i < symbols.len()
        invariant
            i <= symbols@.len(),
            out@.len() == i,
            forall|j: int| 0 <= j < i ==> (#[trigger] out@[j]).name@ == symbols@[j]@,
            forall|j: int| 0 <= j < i ==> (#[trigger] out@[j]).id@ == "layer:"@ + out@[j].name@
                && out@[j].kind@ == "layer"@,
        decreases symbols@.len() - i,
    {
        let name = &symbols[i];
        let mut id = "layer:".to_owned();
        id.append(name.as_str());
        out.push(ResolvedSymbol { id, name: name.clone(), kind: "layer".to_owned() });
        i = i + 1;
    }
    assert(symbol_names(out@.map_values(|s: ResolvedSymbol| s@)) =~= texts(symbols@));
    out
}

/// Checks a parsed document against the `feature-clean` profile. Refuses it
/// with every diagnostic found, in the order of the checks; else compiles it
/// to its contract, in which symbols and dependencies are sorted.
#[verifier::rlimit(30)]
pub fn compile(document: &AstDocument, source: &str) -> (res: Result<ArchitectureContract, Diagnostics>)
    requires
        compile_locatable(document@, bytes_of(source)),
    ensures
        compiled(document@, bytes_of(source), outcome(res)),
{
    let ghost d = document@;
    let ghost b = bytes_of(source);
    let ghost names = layer_names(d.layers);
    let mut ds = Diagnostics::new();
    check_profile(document, source, &mut ds);
    let root = check_root(document, source, &mut ds);
    let symbols = collect_symbols(document, source, &mut ds);
    check_required_layers(&symbols, Ghost(names), &mut ds);
    let (edges, seen) = check_dependencies(document, source, &symbols, Ghost(names), &mut ds);
    assert(ds@ =~= static_diagnostics(d, b));
    let cycle = find_cycle(&edges);
    let ghost c = match &cycle {
        Some(v) => Some(texts(v@)),
        None => None,
    };
    assert(cycle_report(dependency_pairs(d.dependencies), c));
    match &cycle {
        Some(path) => {
            let mut message = "dependency cycle detected: ".to_owned();
            let joined = join_text(path, " -> ");
            message.append(joined.as_str());
            let locations: Vec<Location> = Vec::new();
            assert(locations@ =~= Seq::<Location>::empty());
            ds.push(Diagnostic::error(DiagnosticCode::DependencyCycle, message, None, locations));
            proof { lemma_witness_has_cycle(dependency_pairs(d.dependencies), c->0); }
        },
        None => {},
    }
    assert(ds@ =~= all_diagnostics(d, b, c));
    if !ds.is_empty() {
        return Err(ds);
    }
    assert(profile_diagnostics(d, b).len() == 0);
    assert(root_diagnostics(d, b).len() == 0);
    let contract = ArchitectureContract {
        schema: "architecture-contract@0.1".to_owned(),
        profile: ProfileVersion { name: PROFILE_NAME.to_owned(), version: PROFILE_VERSION.to_owned() },
        root,
        dimensions: Dimensions {
            decomposition: "feature".to_owned(),
            internal_structure: "clean-layers".to_owned(),
            dependency_policy: "clean".to_owned(),
            visibility: "public-api".to_owned(),
        },
        symbols: resolve_symbols(&symbols),
        dependencies: seen,
    };
    Ok(contract)
}


/// Two strictly increasing sequences with the same elements are equal.
proof fn lemma_sorted_same_elements<A>(s1: Seq<A>, s2: Seq<A>, lt: spec_fn(A, A) -> bool)
    requires
        forall|a: A, b: A| #[trigger] lt(a, b) ==> !lt(b, a),
        forall|i: int, j: int| 0 <= i < j < s1.len() ==> lt(#[trigger] s1[i], #[trigger] s1[j]),
        forall|i: int, j: int| 0 <= i < j < s2.len() ==> lt(#[trigger] s2[i], #[trigger] s2[j]),
        forall|x: A| s1.contains(x) <==> s2.contains(x),
    ensures
        s1 == s2,
    decreases s1.len(),
{
    if s1.len() == 0 {
        if s2.len() > 0 {
            assert(s2.contains(s2[0]));
        }
        assert(s1 =~= s2);
    } else {
        assert(s1.contains(s1[0]));
        assert(s2.len() > 0);
        assert(s2.contains(s2[0]));
        if s1[0] != s2[0] {
            let k = choose|k: int| 0 <= k < s2.len() && s2[k] == s1[0];
            let j = choose|j: int| 0 <= j < s1.len() && s1[j] == s2[0];
            assert(k > 0 && j > 0);
            assert(lt(s2[0], s2[k]));
            assert(lt(s1[0], s1[j]));
        }
        let t1 = s1.drop_first();
        let t2 = s2.drop_first();
        assert forall|x: A| t1.contains(x) <==> t2.contains(x) by {
            if t1.contains(x) {
                let i = choose|i: int| 0 <= i < t1.len() && t1[i] == x;
                assert(s1[i + 1] == x);
                assert(lt(s1[0], s1[i + 1]));
                assert(s2.contains(x));
                let k = choose|k: int| 0 <= k < s2.len() && s2[k] == x;
                if k == 0 {
                    assert(lt(x, x));
                } else {
                    assert(t2[k - 1] == x);
                }
            }
            if t2.contains(x) {
                let i = choose|i: int| 0 <= i < t2.len() && t2[i] == x;
                assert(s2[i + 1] == x);
                assert(lt(s2[0], s2[i + 1]));
                assert(s1.contains(x));
                let k = choose|k: int| 0 <= k < s1.len() && s1[k] == x;
                if k == 0 {
                    assert(lt(x, x));
                } else {
                    assert(t1[k - 1] == x);
                }
            }
        }
        assert forall|i: int, j: int| 0 <= i < j < t1.len() implies lt(#[trigger] t1[i], #[trigger] t1[j]) by {
            assert(lt(s1[i + 1], s1[j + 1]));
        }
        assert forall|i: int, j: int| 0 <= i < j < t2.len() implies lt(#[trigger] t2[i], #[trigger] t2[j]) by {
            assert(lt(s2[i + 1], s2[j + 1]));
        }
        lemma_sorted_same_elements(t1, t2, lt);
        assert(s1 =~= seq![s1[0]] + t1);
        assert(s2 =~= seq![s2[0]] + t2);
    }
}

proof fn lemma_text_lt_asymmetric_all()
    ensures
        forall|a: Seq<char>, b: Seq<char>| #[trigger] text_lt(a, b) ==> !text_lt(b, a),
{
    assert forall|a: Seq<char>, b: Seq<char>| #[trigger] text_lt(a, b) implies !text_lt(b, a) by {
        if text_lt(b, a) {
            lemma_text_lt_transitive(a, b, a);
            lemma_text_lt_irreflexive(a);
        }
    }
}

proof fn lemma_pair_lt_asymmetric_all()
    ensures
        forall|a: (Seq<char>, Seq<char>), b: (Seq<char>, Seq<char>)| #[trigger] pair_lt(a, b) ==> !pair_lt(b, a),
{
    assert forall|a: (Seq<char>, Seq<char>), b: (Seq<char>, Seq<char>)| #[trigger] pair_lt(a, b) implies !pair_lt(b, a) by {
        if pair_lt(b, a) {
            lemma_pair_lt_transitive(a, b, a);
            lemma_pair_lt_irreflexive(a);
        }
    }
}

/// Declaration order does not matter: two documents with the same root, the
/// same set of layer names and the same set of dependencies compile to the
/// same contract.
pub proof fn law_compile_normalizes_declaration_order(
    d1: DocumentModel,
    b1: Seq<u8>,
    k1: ContractModel,
    d2: DocumentModel,
    b2: Seq<u8>,
    k2: ContractModel,
)
    requires
        compiled(d1, b1, Ok(k1)),
        compiled(d2, b2, Ok(k2)),
        d1.root == d2.root,
        forall|x: Seq<char>| layer_names(d1.layers).contains(x) <==> layer_names(d2.layers).contains(x),
        forall|p: (Seq<char>, Seq<char>)| dependency_pairs(d1.dependencies).contains(p)
            <==> dependency_pairs(d2.dependencies).contains(p),
    ensures
        k1 == k2,
{
    let c1 = choose|c: Option<Seq<Seq<char>>>| #[trigger] cycle_report(dependency_pairs(d1.dependencies), c)
        && contract_of(d1, k1);
    let c2 = choose|c: Option<Seq<Seq<char>>>| #[trigger] cycle_report(dependency_pairs(d2.dependencies), c)
        && contract_of(d2, k2);
    assert(contract_of(d1, k1) && contract_of(d2, k2));
    lemma_text_lt_asymmetric_all();
    lemma_pair_lt_asymmetric_all();
    let n1 = symbol_names(k1.symbols);
    let n2 = symbol_names(k2.symbols);
    lemma_sorted_same_elements(n1, n2, |a: Seq<char>, b: Seq<char>| text_lt(a, b));
    lemma_sorted_same_elements(k1.dependencies, k2.dependencies, |a: (Seq<char>, Seq<char>), b: (Seq<char>, Seq<char>)| pair_lt(a, b));
    assert forall|i: int| 0 <= i < k1.symbols.len() implies #[trigger] k1.symbols[i] == k2.symbols[i] by {
        assert(n1[i] == n2[i]);
        assert(k1.symbols[i].name == n1[i]);
        assert(k2.symbols[i].name == n2[i]);
    }
    assert(k1.symbols =~= k2.symbols);
}

proof fn lemma_no_dependency_diagnostics(ds: Seq<DependencyModel>, names: Seq<Seq<char>>, b: Seq<u8>)
    requires
        dependency_diagnostics(ds, names, b).len() == 0,
    ensures
        forall|i: int| 0 <= i < ds.len() ==> {
            &&& names.contains((#[trigger] ds[i]).source)
            &&& names.contains(ds[i].target)
            &&& allowed(ds[i].source, ds[i].target)
        },
    decreases ds.len(),
{
    if ds.len() > 0 {
        lemma_no_dependency_diagnostics(ds.drop_last(), names, b);
        assert forall|i: int| 0 <= i < ds.len() implies {
            &&& names.contains((#[trigger] ds[i]).source)
            &&& names.contains(ds[i].target)
            &&& allowed(ds[i].source, ds[i].target)
        } by {
            if i < ds.len() - 1 {
                assert(ds[i] == ds.drop_last()[i]);
            }
        }
    }
}

proof fn lemma_no_missing_layer(names: Seq<Seq<char>>, required: Seq<Seq<char>>)
    requires
        missing_layer_diagnostics(names, required).len() == 0,
    ensures
        forall|r: Seq<char>| required.contains(r) ==> names.contains(r),
    decreases required.len(),
{
    if required.len() > 0 {
        lemma_no_missing_layer(names, required.drop_last());
        assert forall|r: Seq<char>| required.contains(r) implies names.contains(r) by {
            let k = choose|k: int| 0 <= k < required.len() && required[k] == r;
            if k < required.len() - 1 {
                assert(required.drop_last()[k] == r);
            }
        }
    }
}

/// A compiled contract declares every required layer, and holds only
/// dependencies that the clean-layers policy allows, between declared layers.
pub proof fn law_contract_respects_policy(d: DocumentModel, b: Seq<u8>, k: ContractModel)
    requires
        compiled(d, b, Ok(k)),
    ensures
        forall|r: Seq<char>| required_layers().contains(r) ==> symbol_names(k.symbols).contains(r),
        forall|p: (Seq<char>, Seq<char>)| #[trigger] k.dependencies.contains(p) ==> {
            &&& allowed(p.0, p.1)
            &&& symbol_names(k.symbols).contains(p.0)
            &&& symbol_names(k.symbols).contains(p.1)
        },
{
    let c = choose|c: Option<Seq<Seq<char>>>| #[trigger] cycle_report(dependency_pairs(d.dependencies), c)
        && contract_of(d, k);
    assert(contract_of(d, k));
    let names = layer_names(d.layers);
    lemma_no_missing_layer(names, required_layers());
    lemma_no_dependency_diagnostics(d.dependencies, names, b);
    assert forall|p: (Seq<char>, Seq<char>)| #[trigger] k.dependencies.contains(p) implies {
        &&& allowed(p.0, p.1)
        &&& symbol_names(k.symbols).contains(p.0)
        &&& symbol_names(k.symbols).contains(p.1)
    } by {
        assert(dependency_pairs(d.dependencies).contains(p));
        let i = choose|i: int| 0 <= i < dependency_pairs(d.dependencies).len() && dependency_pairs(d.dependencies)[i] == p;
        assert(d.dependencies[i].source == p.0 && d.dependencies[i].target == p.1);
    }
}


/// How far out a layer of the profile lies: the domain at the centre, then
/// the application, then infrastructure and presentation side by side at the
/// edge; other names are no layer of the profile.
pub open spec fn ring(layer: Seq<char>) -> Option<int> {
    if layer == "domain"@ {
        Some(0)
    } else if layer == "application"@ {
        Some(1)
    } else if layer == "infrastructure"@ || layer == "presentation"@ {
        Some(2)
    } else {
        None
    }
}

/// The policy points inward: a dependency is allowed exactly when both ends
/// are layers of the profile and the source lies strictly further out than
/// the target. So nothing may depend on presentation or infrastructure, the
/// domain depends on nothing, and no layer depends on itself.
pub proof fn law_policy_points_inward(source: Seq<char>, target: Seq<char>)
    ensures
        allowed(source, target) <==> (ring(source) is Some && ring(target) is Some && ring(source)->0
            > ring(target)->0),
        !allowed(source, "presentation"@),
        !allowed(source, "infrastructure"@),
        !allowed("domain"@, target),
        !allowed(source, source),
{
    reveal_strlit("domain");
    reveal_strlit("application");
    reveal_strlit("infrastructure");
    reveal_strlit("presentation");
    let (dom, app, inf, pre) = ("domain"@, "application"@, "infrastructure"@, "presentation"@);
    assert(dom.len() == 6 && app.len() == 11 && inf.len() == 14 && pre.len() == 12);
    assert(dom != app && dom != inf && dom != pre && app != inf && app != pre && inf != pre);
}

/// Every edge of an accepted contract points inward (see
/// [`law_policy_points_inward`]): none leads into presentation or
/// infrastructure, none leaves the domain.
pub proof fn law_contracts_point_inward(d: DocumentModel, b: Seq<u8>, k: ContractModel)
    requires
        compiled(d, b, Ok(k)),
    ensures
        forall|p: (Seq<char>, Seq<char>)| #[trigger] k.dependencies.contains(p) ==> {
            &&& ring(p.0) is Some && ring(p.1) is Some && ring(p.0)->0 > ring(p.1)->0
            &&& p.1 != "presentation"@ && p.1 != "infrastructure"@ && p.0 != "domain"@
        },
{
    law_contract_respects_policy(d, b, k);
    assert forall|p: (Seq<char>, Seq<char>)| #[trigger] k.dependencies.contains(p) implies {
        &&& ring(p.0) is Some && ring(p.1) is Some && ring(p.0)->0 > ring(p.1)->0
        &&& p.1 != "presentation"@ && p.1 != "infrastructure"@ && p.0 != "domain"@
    } by {
        law_policy_points_inward(p.0, p.1);
        law_policy_points_inward(p.0, "presentation"@);
        law_policy_points_inward(p.0, "infrastructure"@);
        law_policy_points_inward("domain"@, p.1);
    }
}

/// The report that a dependency goes against the policy.
pub open spec fn forbidden_report(d: DependencyModel, b: Seq<u8>) -> DiagnosticModel {
    error_model(
        DiagnosticCode::DependencyForbidden,
        "layer `"@ + d.source + "` cannot depend on `"@ + d.target + "`"@,
        None,
        span_location(b, d.span.start, d.span.end),
    )
}

proof fn lemma_contains_concat<A>(x: Seq<A>, y: Seq<A>, e: A)
    ensures
        x.contains(e) ==> (x + y).contains(e),
        y.contains(e) ==> (x + y).contains(e),
{
    if x.contains(e) {
        let j = choose|j: int| 0 <= j < x.len() && x[j] == e;
        assert((x + y)[j] == e);
    }
    if y.contains(e) {
        let j = choose|j: int| 0 <= j < y.len() && y[j] == e;
        assert((x + y)[x.len() + j] == e);
    }
}

/// The report that a dependency names an undeclared source layer.
pub open spec fn unknown_source_report(d: DependencyModel, b: Seq<u8>) -> DiagnosticModel {
    error_model(
        DiagnosticCode::SymbolUnresolved,
        "unknown dependency source `"@ + d.source + "`"@,
        Some(d.source),
        span_location(b, d.span.start, d.span.end),
    )
}

/// The report that a dependency names an undeclared target layer.
pub open spec fn unknown_target_report(d: DependencyModel, b: Seq<u8>) -> DiagnosticModel {
    error_model(
        DiagnosticCode::SymbolUnresolved,
        "unknown dependency target `"@ + d.target + "`"@,
        Some(d.target),
        span_location(b, d.span.start, d.span.end),
    )
}

proof fn lemma_dependency_reported(ds: Seq<DependencyModel>, names: Seq<Seq<char>>, b: Seq<u8>, i: int)
    requires
        0 <= i < ds.len(),
    ensures
        !allowed(ds[i].source, ds[i].target) ==> dependency_diagnostics(ds, names, b).contains(
            forbidden_report(ds[i], b),
        ),
        !names.contains(ds[i].source) ==> dependency_diagnostics(ds, names, b).contains(
            unknown_source_report(ds[i], b),
        ),
        !names.contains(ds[i].target) ==> dependency_diagnostics(ds, names, b).contains(
            unknown_target_report(ds[i], b),
        ),
    decreases ds.len(),
{
    let front = ds.drop_last();
    let all = dependency_diagnostics(ds, names, b);
    let fr = forbidden_report(ds[i], b);
    let us = unknown_source_report(ds[i], b);
    let ut = unknown_target_report(ds[i], b);
    if i < ds.len() - 1 {
        assert(front[i] == ds[i]);
        lemma_dependency_reported(front, names, b, i);
        let one = one_dependency_diagnostics(ds.last(), names, dependency_pairs(front), b);
        lemma_contains_concat(dependency_diagnostics(front, names, b), one, fr);
        lemma_contains_concat(dependency_diagnostics(front, names, b), one, us);
        lemma_contains_concat(dependency_diagnostics(front, names, b), one, ut);
    } else {
        let d = ds.last();
        let loc = span_location(b, d.span.start, d.span.end);
        let unknown_source = if names.contains(d.source) {
            Seq::empty()
        } else {
            seq![us]
        };
        let unknown_target = if names.contains(d.target) {
            Seq::empty()
        } else {
            seq![ut]
        };
        let forbidden = if allowed(d.source, d.target) {
            Seq::empty()
        } else {
            seq![fr]
        };
        let repeated = if dependency_pairs(front).contains((d.source, d.target)) {
            seq![
                error_model(
                    DiagnosticCode::ContractContradiction,
                    "dependency `"@ + d.source + "` -> `"@ + d.target + "` is declared more than once"@,
                    None,
                    loc,
                ),
            ]
        } else {
            Seq::empty()
        };
        let one = one_dependency_diagnostics(d, names, dependency_pairs(front), b);
        assert(one == unknown_source + unknown_target + forbidden + repeated);
        assert(seq![fr][0] == fr);
        assert(seq![us][0] == us);
        assert(seq![ut][0] == ut);
        let prior = dependency_diagnostics(front, names, b);
        assert(all == prior + one);
        lemma_contains_concat(unknown_source, unknown_target, us);
        lemma_contains_concat(unknown_source, unknown_target, ut);
        lemma_contains_concat(unknown_source + unknown_target, forbidden, us);
        lemma_contains_concat(unknown_source + unknown_target, forbidden, ut);
        lemma_contains_concat(unknown_source + unknown_target, forbidden, fr);
        lemma_contains_concat(unknown_source + unknown_target + forbidden, repeated, us);
        lemma_contains_concat(unknown_source + unknown_target + forbidden, repeated, ut);
        lemma_contains_concat(unknown_source + unknown_target + forbidden, repeated, fr);
        lemma_contains_concat(prior, one, us);
        lemma_contains_concat(prior, one, ut);
        lemma_contains_concat(prior, one, fr);
    }
}

/// Every dependency is reported, at its declaration, for each fault it has,
/// independently of the others: as forbidden when the policy does not allow
/// it (whether or not its layers are declared), and as unresolved for an
/// undeclared source and for an undeclared target. So a document with such a
/// dependency is always refused.
pub proof fn law_faulty_dependencies_are_reported(
    d: DocumentModel,
    b: Seq<u8>,
    res: Result<ContractModel, Seq<DiagnosticModel>>,
    i: int,
)
    requires
        compiled(d, b, res),
        0 <= i < d.dependencies.len(),
    ensures
        !allowed(d.dependencies[i].source, d.dependencies[i].target) ==> (res matches Err(ds) && ds.contains(
            forbidden_report(d.dependencies[i], b),
        )),
        !layer_names(d.layers).contains(d.dependencies[i].source) ==> (res matches Err(ds) && ds.contains(
            unknown_source_report(d.dependencies[i], b),
        )),
        !layer_names(d.layers).contains(d.dependencies[i].target) ==> (res matches Err(ds) && ds.contains(
            unknown_target_report(d.dependencies[i], b),
        )),
{
    let dep = d.dependencies[i];
    let names = layer_names(d.layers);
    lemma_dependency_reported(d.dependencies, names, b, i);
    let deps = dependency_diagnostics(d.dependencies, names, b);
    let before = profile_diagnostics(d, b) + root_diagnostics(d, b) + duplicate_diagnostics(d.layers, b)
        + missing_layer_diagnostics(names, required_layers());
    assert(static_diagnostics(d, b) == before + deps);
    let c = choose|c: Option<Seq<Seq<char>>>|
        #[trigger] cycle_report(dependency_pairs(d.dependencies), c) && match res {
            Ok(k) => contract_of(d, k),
            Err(ds) => ds == all_diagnostics(d, b, c),
        };
    assert(static_diagnostics(d, b).len() >= deps.len());
    let fr = forbidden_report(dep, b);
    let us = unknown_source_report(dep, b);
    let ut = unknown_target_report(dep, b);
    lemma_contains_concat(before, deps, fr);
    lemma_contains_concat(before, deps, us);
    lemma_contains_concat(before, deps, ut);
    lemma_contains_concat(static_diagnostics(d, b), cycle_diagnostics(c), fr);
    lemma_contains_concat(static_diagnostics(d, b), cycle_diagnostics(c), us);
    lemma_contains_concat(static_diagnostics(d, b), cycle_diagnostics(c), ut);
}

/// The report that a required layer is not declared.
pub open spec fn missing_layer_report(layer: Seq<char>) -> DiagnosticModel {
    error_model(
        DiagnosticCode::ContractMissingLayer,
        "feature-clean requires the `"@ + layer + "` layer"@,
        Some(layer),
        Seq::empty(),
    )
}

proof fn lemma_missing_reported(names: Seq<Seq<char>>, required: Seq<Seq<char>>, i: int)
    requires
        0 <= i < required.len(),
        !names.contains(required[i]),
    ensures
        missing_layer_diagnostics(names, required).contains(missing_layer_report(required[i])),
    decreases required.len(),
{
    let front = required.drop_last();
    let r = missing_layer_report(required[i]);
    let tail = if names.contains(required.last()) {
        Seq::empty()
    } else {
        seq![missing_layer_report(required.last())]
    };
    assert(missing_layer_diagnostics(names, required) == missing_layer_diagnostics(names, front) + tail);
    if i < required.len() - 1 {
        assert(front[i] == required[i]);
        lemma_missing_reported(names, front, i);
    } else {
        assert(tail[0] == r);
    }
    lemma_contains_concat(missing_layer_diagnostics(names, front), tail, r);
}

/// Every layer that the profile requires and the document does not declare
/// is reported, so such a document is always refused.
pub proof fn law_missing_layers_are_reported(
    d: DocumentModel,
    b: Seq<u8>,
    res: Result<ContractModel, Seq<DiagnosticModel>>,
    layer: Seq<char>,
)
    requires
        compiled(d, b, res),
        required_layers().contains(layer),
        !layer_names(d.layers).contains(layer),
    ensures
        res matches Err(ds) && ds.contains(missing_layer_report(layer)),
{
    let names = layer_names(d.layers);
    let i = choose|i: int| 0 <= i < required_layers().len() && required_layers()[i] == layer;
    lemma_missing_reported(names, required_layers(), i);
    let r = missing_layer_report(layer);
    let a = profile_diagnostics(d, b) + root_diagnostics(d, b) + duplicate_diagnostics(d.layers, b);
    let m = missing_layer_diagnostics(names, required_layers());
    let deps = dependency_diagnostics(d.dependencies, names, b);
    assert(static_diagnostics(d, b) == a + m + deps);
    lemma_contains_concat(a, m, r);
    lemma_contains_concat(a + m, deps, r);
    let c = choose|c: Option<Seq<Seq<char>>>|
        #[trigger] cycle_report(dependency_pairs(d.dependencies), c) && match res {
            Ok(k) => contract_of(d, k),
            Err(ds) => ds == all_diagnostics(d, b, c),
        };
    lemma_contains_concat(static_diagnostics(d, b), cycle_diagnostics(c), r);
}

/// Every diagnostic in the list is an error.
pub open spec fn all_errors(ds: Seq<DiagnosticModel>) -> bool {
    forall|i: int| 0 <= i < ds.len() ==> (#[trigger] ds[i]).severity == Severity::Error
}

proof fn lemma_all_errors_concat(a: Seq<DiagnosticModel>, b: Seq<DiagnosticModel>)
    requires
        all_errors(a),
        all_errors(b),
    ensures
        all_errors(a + b),
{
    assert forall|i: int| 0 <= i < (a + b).len() implies (#[trigger] (a + b)[i]).severity == Severity::Error by {
        if i < a.len() {
            assert((a + b)[i] == a[i]);
        } else {
            assert((a + b)[i] == b[i - a.len()]);
        }
    }
}

proof fn lemma_duplicates_are_errors(ls: Seq<LayerModel>, b: Seq<u8>)
    ensures
        all_errors(duplicate_diagnostics(ls, b)),
    decreases ls.len(),
{
    if ls.len() > 0 {
        lemma_duplicates_are_errors(ls.drop_last(), b);
        let part = if layer_names(ls.drop_last()).contains(ls.last().name) {
            seq![
                error_model(
                    DiagnosticCode::SymbolDuplicate,
                    "layer `"@ + ls.last().name + "` is declared more than once"@,
                    Some(ls.last().name),
                    span_location(b, ls.last().span.start, ls.last().span.end),
                ),
            ]
        } else {
            Seq::empty()
        };
        lemma_all_errors_concat(duplicate_diagnostics(ls.drop_last(), b), part);
    }
}

proof fn lemma_missing_are_errors(names: Seq<Seq<char>>, required: Seq<Seq<char>>)
    ensures
        all_errors(missing_layer_diagnostics(names, required)),
    decreases required.len(),
{
    if required.len() > 0 {
        lemma_missing_are_errors(names, required.drop_last());
        let part = if names.contains(required.last()) {
            Seq::empty()
        } else {
            seq![
                error_model(
                    DiagnosticCode::ContractMissingLayer,
                    "feature-clean requires the `"@ + required.last() + "` layer"@,
                    Some(required.last()),
                    Seq::empty(),
                ),
            ]
        };
        lemma_all_errors_concat(missing_layer_diagnostics(names, required.drop_last()), part);
    }
}

proof fn lemma_dependency_reports_are_errors(ds: Seq<DependencyModel>, names: Seq<Seq<char>>, b: Seq<u8>)
    ensures
        all_errors(dependency_diagnostics(ds, names, b)),
    decreases ds.len(),
{
    if ds.len() > 0 {
        lemma_dependency_reports_are_errors(ds.drop_last(), names, b);
        let part = one_dependency_diagnostics(ds.last(), names, dependency_pairs(ds.drop_last()), b);
        assert(all_errors(part));
        lemma_all_errors_concat(dependency_diagnostics(ds.drop_last(), names, b), part);
    }
}

/// Compiling reports errors only: every diagnostic it gives has the severity
/// `Error`, whatever cycle the search reports.
pub proof fn law_diagnostics_are_errors(d: DocumentModel, b: Seq<u8>, c: Option<Seq<Seq<char>>>)
    ensures
        all_errors(all_diagnostics(d, b, c)),
{
    lemma_duplicates_are_errors(d.layers, b);
    lemma_missing_are_errors(layer_names(d.layers), required_layers());
    lemma_dependency_reports_are_errors(d.dependencies, layer_names(d.layers), b);
    let p = profile_diagnostics(d, b);
    let r = root_diagnostics(d, b);
    assert(all_errors(p));
    assert(all_errors(r));
    lemma_all_errors_concat(p, r);
    lemma_all_errors_concat(p + r, duplicate_diagnostics(d.layers, b));
    lemma_all_errors_concat(
        p + r + duplicate_diagnostics(d.layers, b),
        missing_layer_diagnostics(layer_names(d.layers), required_layers()),
    );
    lemma_all_errors_concat(
        p + r + duplicate_diagnostics(d.layers, b) + missing_layer_diagnostics(
            layer_names(d.layers),
            required_layers(),
        ),
        dependency_diagnostics(d.dependencies, layer_names(d.layers), b),
    );
    assert(all_errors(cycle_diagnostics(c)));
    lemma_all_errors_concat(static_diagnostics(d, b), cycle_diagnostics(c));
}


/// What a document must be for compiling to find nothing to report but a
/// cycle: the supported profile, a root path, no layer declared twice, every
/// required layer, dependencies only between declared layers in allowed
/// directions, and no dependency declared twice.
pub open spec fn acceptable(d: DocumentModel) -> bool {
    let names = layer_names(d.layers);
    let pairs = dependency_pairs(d.dependencies);
    &&& d.profile.name == PROFILE_NAME@ && d.profile.version == PROFILE_VERSION@
    &&& d.root is Some
    &&& names.no_duplicates()
    &&& forall|r: Seq<char>| required_layers().contains(r) ==> names.contains(r)
    &&& forall|p: (Seq<char>, Seq<char>)| #[trigger] pairs.contains(p) ==> names.contains(p.0)
        && names.contains(p.1) && allowed(p.0, p.1)
    &&& pairs.no_duplicates()
}

proof fn lemma_no_duplicates_push<A>(s: Seq<A>, x: A)
    ensures
        s.push(x).no_duplicates() <==> (s.no_duplicates() && !s.contains(x)),
{
    let t = s.push(x);
    if t.no_duplicates() {
        assert forall|i: int, j: int| 0 <= i < s.len() && 0 <= j < s.len() && i != j implies s[i] != s[j] by {
            assert(t[i] == s[i] && t[j] == s[j]);
        }
        if s.contains(x) {
            let k = choose|k: int| 0 <= k < s.len() && s[k] == x;
            assert(t[k] == t[s.len() as int]);
        }
    }
    if s.no_duplicates() && !s.contains(x) {
        assert forall|i: int, j: int| 0 <= i < t.len() && 0 <= j < t.len() && i != j implies t[i] != t[j] by {
            if i < s.len() && j < s.len() {
                assert(t[i] == s[i] && t[j] == s[j]);
            } else if i < s.len() {
                assert(t[i] == s[i]);
            } else if j < s.len() {
                assert(t[j] == s[j]);
            }
        }
    }
}

proof fn lemma_duplicates_empty(ls: Seq<LayerModel>, b: Seq<u8>)
    ensures
        duplicate_diagnostics(ls, b).len() == 0 <==> layer_names(ls).no_duplicates(),
    decreases ls.len(),
{
    if ls.len() == 0 {
        assert(layer_names(ls).len() == 0);
    } else {
        lemma_duplicates_empty(ls.drop_last(), b);
        assert(layer_names(ls) =~= layer_names(ls.drop_last()).push(ls.last().name));
        lemma_no_duplicates_push(layer_names(ls.drop_last()), ls.last().name);
    }
}

proof fn lemma_missing_empty(names: Seq<Seq<char>>, required: Seq<Seq<char>>)
    ensures
        missing_layer_diagnostics(names, required).len() == 0 <==> forall|r: Seq<char>|
            required.contains(r) ==> names.contains(r),
    decreases required.len(),
{
    if required.len() > 0 {
        lemma_missing_empty(names, required.drop_last());
        let init = required.drop_last();
        assert forall|r: Seq<char>| required.contains(r) <==> (init.contains(r) || r == required.last()) by {
            if required.contains(r) {
                let k = choose|k: int| 0 <= k < required.len() && required[k] == r;
                if k < init.len() {
                    assert(init[k] == r);
                }
            }
            if init.contains(r) {
                let k = choose|k: int| 0 <= k < init.len() && init[k] == r;
                assert(required[k] == r);
            }
            if r == required.last() {
                assert(required[required.len() - 1] == r);
            }
        }
    }
}

proof fn lemma_dependencies_empty(ds: Seq<DependencyModel>, names: Seq<Seq<char>>, b: Seq<u8>)
    ensures
        dependency_diagnostics(ds, names, b).len() == 0 <==> {
            &&& forall|p: (Seq<char>, Seq<char>)| #[trigger] dependency_pairs(ds).contains(p)
                ==> names.contains(p.0) && names.contains(p.1) && allowed(p.0, p.1)
            &&& dependency_pairs(ds).no_duplicates()
        },
    decreases ds.len(),
{
    let pairs = dependency_pairs(ds);
    if ds.len() == 0 {
        assert(pairs.len() == 0);
    } else {
        let init = ds.drop_last();
        lemma_dependencies_empty(init, names, b);
        let d = ds.last();
        assert(pairs =~= dependency_pairs(init).push((d.source, d.target)));
        lemma_no_duplicates_push(dependency_pairs(init), (d.source, d.target));
        assert forall|p: (Seq<char>, Seq<char>)| #[trigger] pairs.contains(p) <==> (dependency_pairs(init).contains(p) || p == (d.source, d.target)) by {
            if pairs.contains(p) {
                let k = choose|k: int| 0 <= k < pairs.len() && pairs[k] == p;
                if k < init.len() {
                    assert(dependency_pairs(init)[k] == p);
                }
            }
            if dependency_pairs(init).contains(p) {
                let k = choose|k: int| 0 <= k < init.len() && dependency_pairs(init)[k] == p;
                assert(pairs[k] == p);
            }
            if p == (d.source, d.target) {
                assert(pairs[pairs.len() - 1] == p);
            }
        }
        let ip = dependency_pairs(init);
        let part = one_dependency_diagnostics(d, names, ip, b);
        assert(dependency_diagnostics(ds, names, b) == dependency_diagnostics(init, names, b) + part);
        assert(part.len() == 0 <==> (names.contains(d.source) && names.contains(d.target) && allowed(d.source, d.target) && !ip.contains((d.source, d.target))));
        let good = forall|p: (Seq<char>, Seq<char>)| #[trigger] pairs.contains(p)
            ==> names.contains(p.0) && names.contains(p.1) && allowed(p.0, p.1);
        let good_init = forall|p: (Seq<char>, Seq<char>)| #[trigger] ip.contains(p)
            ==> names.contains(p.0) && names.contains(p.1) && allowed(p.0, p.1);
        if good {
            assert(pairs.contains((d.source, d.target)));
            assert forall|p: (Seq<char>, Seq<char>)| #[trigger] ip.contains(p)
                implies names.contains(p.0) && names.contains(p.1) && allowed(p.0, p.1) by {
                assert(pairs.contains(p));
            }
        }
        if good_init && names.contains(d.source) && names.contains(d.target) && allowed(d.source, d.target) {
            assert forall|p: (Seq<char>, Seq<char>)| #[trigger] pairs.contains(p)
                implies names.contains(p.0) && names.contains(p.1) && allowed(p.0, p.1) by {
                if p != (d.source, d.target) {
                    assert(ip.contains(p));
                }
            }
        }
    }
}

/// Compiling finds nothing to report but a cycle exactly on acceptable documents.
pub proof fn lemma_static_diagnostics_empty(d: DocumentModel, b: Seq<u8>)
    ensures
        static_diagnostics(d, b).len() == 0 <==> acceptable(d),
{
    lemma_duplicates_empty(d.layers, b);
    lemma_missing_empty(layer_names(d.layers), required_layers());
    lemma_dependencies_empty(d.dependencies, layer_names(d.layers), b);
}

proof fn lemma_same_multiset<A>(s1: Seq<A>, s2: Seq<A>)
    requires
        s1.to_multiset() == s2.to_multiset(),
    ensures
        forall|x: A| s1.contains(x) <==> s2.contains(x),
        s1.no_duplicates() <==> s2.no_duplicates(),
{
    broadcast use vstd::seq_lib::group_to_multiset_ensures;
    assert forall|x: A| s1.contains(x) <==> s2.contains(x) by {
        assert(s1.contains(x) <==> s1.to_multiset().count(x) > 0);
        assert(s2.contains(x) <==> s2.to_multiset().count(x) > 0);
    }
    if s1.no_duplicates() {
        s1.lemma_multiset_has_no_duplicates();
        s2.lemma_multiset_has_no_duplicates_conv();
    }
    if s2.no_duplicates() {
        s2.lemma_multiset_has_no_duplicates();
        s1.lemma_multiset_has_no_duplicates_conv();
    }
}

proof fn lemma_same_edges_same_cycles(e1: Seq<(Seq<char>, Seq<char>)>, e2: Seq<(Seq<char>, Seq<char>)>)
    requires
        forall|p: (Seq<char>, Seq<char>)| e1.contains(p) <==> e2.contains(p),
    ensures
        has_cycle(e1) <==> has_cycle(e2),
{
    assert forall|u: Seq<char>, v: Seq<char>| has_edge(e1, u, v) <==> has_edge(e2, u, v) by {
        if has_edge(e1, u, v) {
            assert(e1.contains((u, v)));
            assert(e2.contains((u, v)));
        }
        if has_edge(e2, u, v) {
            assert(e2.contains((u, v)));
            assert(e1.contains((u, v)));
        }
    }
    if has_cycle(e1) {
        let p = choose|p: Seq<Seq<char>>| p.len() >= 2 && p[0] == p.last() && #[trigger] is_walk(e1, p);
        assert(is_walk(e2, p));
    }
    if has_cycle(e2) {
        let p = choose|p: Seq<Seq<char>>| p.len() >= 2 && p[0] == p.last() && #[trigger] is_walk(e2, p);
        assert(is_walk(e1, p));
    }
}

/// Declaration order does not matter at all: documents with the same profile
/// and root whose layer names, and whose dependency pairs, are permutations of
/// each other are both refused or both compiled, and then to the same contract.
pub proof fn law_compile_ignores_declaration_order(
    d1: DocumentModel,
    b1: Seq<u8>,
    r1: Result<ContractModel, Seq<DiagnosticModel>>,
    d2: DocumentModel,
    b2: Seq<u8>,
    r2: Result<ContractModel, Seq<DiagnosticModel>>,
)
    requires
        compiled(d1, b1, r1),
        compiled(d2, b2, r2),
        d1.profile.name == d2.profile.name,
        d1.profile.version == d2.profile.version,
        d1.root == d2.root,
        layer_names(d1.layers).to_multiset() == layer_names(d2.layers).to_multiset(),
        dependency_pairs(d1.dependencies).to_multiset() == dependency_pairs(d2.dependencies).to_multiset(),
    ensures
        r1 is Ok <==> r2 is Ok,
        r1 is Ok ==> r1 == r2,
{
    lemma_static_diagnostics_empty(d1, b1);
    lemma_static_diagnostics_empty(d2, b2);
    lemma_same_multiset(layer_names(d1.layers), layer_names(d2.layers));
    lemma_same_multiset(dependency_pairs(d1.dependencies), dependency_pairs(d2.dependencies));
    lemma_same_edges_same_cycles(dependency_pairs(d1.dependencies), dependency_pairs(d2.dependencies));
    assert(acceptable(d1) <==> acceptable(d2));
    if r1 is Ok && r2 is Ok {
        law_compile_normalizes_declaration_order(d1, b1, r1->Ok_0, d2, b2, r2->Ok_0);
    }
}

/// Without a cycle, what compiling gives is fully determined: any two results
/// that meet the contract of `compile` on the same document and source are
/// equal.
pub proof fn law_compile_is_determined_without_cycle(
    d: DocumentModel,
    b: Seq<u8>,
    r1: Result<ContractModel, Seq<DiagnosticModel>>,
    r2: Result<ContractModel, Seq<DiagnosticModel>>,
)
    requires
        compiled(d, b, r1),
        compiled(d, b, r2),
        !has_cycle(dependency_pairs(d.dependencies)),
    ensures
        r1 == r2,
{
    let pairs = dependency_pairs(d.dependencies);
    if r1 is Ok {
        law_compile_normalizes_declaration_order(d, b, r1->Ok_0, d, b, r2->Ok_0);
    } else {
        let c1 = choose|c: Option<Seq<Seq<char>>>| #[trigger] cycle_report(pairs, c) && match r1 {
            Ok(k) => contract_of(d, k),
            Err(ds) => ds == all_diagnostics(d, b, c),
        };
        let c2 = choose|c: Option<Seq<Seq<char>>>| #[trigger] cycle_report(pairs, c) && match r2 {
            Ok(k) => contract_of(d, k),
            Err(ds) => ds == all_diagnostics(d, b, c),
        };
        if c1 is Some {
            lemma_witness_has_cycle(pairs, c1->0);
        }
        if c2 is Some {
            lemma_witness_has_cycle(pairs, c2->0);
        }
    }
}

} // verus!
