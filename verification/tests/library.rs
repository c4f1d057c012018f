use brotaparser::graph::find_cycle;
use brotaparser::semantic::allowed_dependency;
use brotaparser::text::{compare_text, set_contains, set_insert, slice_text};
use brotaparser::{
    compile, compile_source, parse, AstDocument, DependencyDecl, DependencyEdge, Diagnostic,
    DiagnosticCode, Diagnostics, LayerDecl, Location, ProfileDecl, Severity, Span,
};

const VALID_SOURCE: &str = "profile feature-clean@0.1\nroot \"src\"\nlayer domain\nlayer application\nlayer infrastructure\nlayer presentation\ndepends application on domain\n";

fn codes(ds: &Diagnostics) -> Vec<&str> {
    ds.diagnostics.iter().map(|d| d.code.as_str()).collect()
}

#[test]
fn location_counts_lines_and_byte_columns() {
    let source = "ab\ncd\nef";
    let loc = Location::from_source(source, 4, 5);
    assert_eq!(loc, Location { start: 4, end: 5, line: 2, column: 2 });
    let start = Location::from_source(source, 0, 1);
    assert_eq!((start.line, start.column), (1, 1));
    let past = Location::from_source(source, 100, 101);
    assert_eq!((past.start, past.end, past.line, past.column), (100, 101, 3, 3));
    let after_newline = Location::from_source(source, 3, 3);
    assert_eq!((after_newline.line, after_newline.column), (2, 1));
}

#[test]
fn location_columns_count_bytes() {
    let source = "é\nü x";
    let loc = Location::from_source(source, 5, 6);
    assert_eq!((loc.line, loc.column), (2, 3));
}

#[test]
fn diagnostic_codes_have_stable_names() {
    assert_eq!(DiagnosticCode::SyntaxUnexpectedToken.as_str(), "syntax.unexpected_token");
    assert_eq!(DiagnosticCode::ProfileUnsupported.as_str(), "profile.unsupported");
    assert_eq!(DiagnosticCode::SymbolDuplicate.as_str(), "symbol.duplicate");
    assert_eq!(DiagnosticCode::SymbolUnresolved.as_str(), "symbol.unresolved");
    assert_eq!(DiagnosticCode::DependencyForbidden.as_str(), "dependency.forbidden");
    assert_eq!(DiagnosticCode::DependencyCycle.as_str(), "dependency.cycle");
    assert_eq!(DiagnosticCode::ContractContradiction.as_str(), "contract.contradiction");
    assert_eq!(DiagnosticCode::ContractMissingRoot.as_str(), "contract.missing_root");
    assert_eq!(DiagnosticCode::ContractMissingLayer.as_str(), "contract.missing_layer");
}

#[test]
fn error_diagnostics_carry_their_code_and_message() {
    let d = Diagnostic::error(
        DiagnosticCode::SymbolDuplicate,
        "twice".to_string(),
        Some("x".to_string()),
        vec![],
    );
    assert_eq!(d.code, "symbol.duplicate");
    assert_eq!(d.severity, Severity::Error);
    assert_eq!(d.message, "twice");
    assert_eq!(d.context.as_deref(), Some("x"));
}

#[test]
fn pushed_codes_are_found() {
    let mut ds = Diagnostics::single(Diagnostic::error(
        DiagnosticCode::DependencyCycle,
        "c".to_string(),
        None,
        vec![],
    ));
    assert!(ds.has_code(DiagnosticCode::DependencyCycle));
    assert!(!ds.has_code(DiagnosticCode::SymbolUnresolved));
    ds.push(Diagnostic::error(DiagnosticCode::SymbolUnresolved, "u".to_string(), None, vec![]));
    assert!(ds.has_code(DiagnosticCode::SymbolUnresolved));
    assert_eq!(ds.diagnostics.len(), 2);
    assert_eq!(ds.to_text(), "dependency.cycle: c\nsymbol.unresolved: u");
}

#[test]
fn empty_diagnostics_render_as_empty_text() {
    assert_eq!(Diagnostics::new().to_text(), "");
    assert!(Diagnostics::new().is_empty());
}

#[test]
fn parse_records_declaration_spans() {
    let source = "profile feature-clean@0.1\n  layer domain  \nroot \"src\"\ndepends a on b";
    let document = parse(source).unwrap();
    assert_eq!(document.profile.span, Span { start: 0, end: 25 });
    assert_eq!(document.layers[0].span, Span { start: 28, end: 40 });
    assert_eq!(document.root_span, Some(Span { start: 43, end: 53 }));
    assert_eq!(document.dependencies[0].span, Span { start: 54, end: 68 });
    assert_eq!(document.dependencies[0].source, "a");
    assert_eq!(document.dependencies[0].target, "b");
}

#[test]
fn parse_accepts_tabs_and_carriage_returns() {
    let document = parse("profile\tfeature-clean@0.1\r\nlayer  domain\r\n\r\n").unwrap();
    assert_eq!(document.profile.name, "feature-clean");
    assert_eq!(document.layers[0].name, "domain");
    assert_eq!(document.layers.len(), 1);
}

#[test]
fn parse_keeps_the_last_profile_and_root() {
    let document =
        parse("profile a@1\nroot \"x\"\nprofile b@2.0\nroot \"y z ü\"\n").unwrap();
    assert_eq!(document.profile.name, "b");
    assert_eq!(document.profile.version, "2.0");
    assert_eq!(document.root.as_deref(), Some("y z ü"));
}

#[test]
fn parse_requires_a_profile() {
    let error = parse("layer domain\n").unwrap_err();
    assert_eq!(error.diagnostics.len(), 1);
    let d = &error.diagnostics[0];
    assert_eq!(d.code, "syntax.unexpected_token");
    assert_eq!(d.message, "document must declare a profile");
    assert_eq!(d.locations, vec![Location { start: 0, end: 1, line: 1, column: 1 }]);

    let empty = parse("").unwrap_err();
    assert_eq!(empty.diagnostics[0].locations, vec![Location { start: 0, end: 0, line: 1, column: 1 }]);
}

#[test]
fn syntax_errors_point_at_the_malformed_line() {
    let error = parse("profile feature-clean@0.1\n  layer").unwrap_err();
    assert_eq!(error.diagnostics.len(), 1);
    let d = &error.diagnostics[0];
    assert_eq!(d.locations, vec![Location { start: 33, end: 34, line: 2, column: 8 }]);
    assert!(d.message.contains("2:8"));
    assert!(d.message.contains("expected a declaration"));
    assert_ne!(
        d.message,
        "expected a declaration: `profile NAME@VERSION`, `root \"PATH\"`, `layer NAME` or `depends NAME on NAME`"
    );
}

#[test]
fn malformed_lines_are_refused() {
    for source in [
        "profile feature-clean 0.1",
        "profile feature-clean@",
        "profile @0.1",
        "layer a b",
        "layerdomain",
        "depends a b",
        "depends a on",
        "depends a onb",
        "root src",
        "root \"src",
        "root \"src\" x",
        "unknown x",
        "profile x@1\n#comment",
    ] {
        let error = parse(source).unwrap_err();
        assert!(error.has_code(DiagnosticCode::SyntaxUnexpectedToken), "{source}");
        assert_ne!(error.diagnostics[0].message, "document must declare a profile", "{source}");
    }
}

#[test]
fn syntax_errors_sit_where_the_line_departs_from_the_grammar() {
    for (source, at) in [
        ("profile feature-clean 0.1", 21),
        ("profile feature-clean@", 22),
        ("profile @0.1", 8),
        ("layer", 5),
        ("layer a b", 8),
        ("layer a;", 7),
        ("layerdomain", 0),
        ("depends a b", 10),
        ("depends a on", 12),
        ("depends a onb", 10),
        ("root src", 5),
        ("root \"src", 9),
        ("root \"src\" x", 11),
        ("  unknown x", 2),
        ("profile x@1\n#comment", 12),
    ] {
        let error = parse(source).unwrap_err();
        assert_eq!(error.diagnostics[0].locations[0].start, at, "{source}");
        assert_eq!(error.diagnostics[0].locations[0].end, at + 1, "{source}");
    }
}

#[test]
fn the_first_malformed_line_is_reported() {
    let error = parse("profile x@1\nbad one\nworse two\n").unwrap_err();
    assert_eq!(error.diagnostics[0].locations[0].start, 12);
}

#[test]
fn a_minimal_valid_document_compiles_to_its_normal_form() {
    let contract = compile_source(VALID_SOURCE).unwrap();
    assert_eq!(contract.schema, "architecture-contract@0.1");
    assert_eq!(contract.root, "src");
    assert_eq!(contract.dimensions.internal_structure, "clean-layers");
    assert_eq!(contract.dimensions.dependency_policy, "clean");
    assert_eq!(contract.dimensions.visibility, "public-api");
    let names: Vec<&str> = contract.symbols.iter().map(|s| s.name.as_str()).collect();
    assert_eq!(names, vec!["application", "domain", "infrastructure", "presentation"]);
    assert_eq!(contract.symbols[0].id, "layer:application");
    assert_eq!(contract.symbols[0].kind, "layer");
    assert_eq!(
        contract.dependencies,
        vec![DependencyEdge { source: "application".to_string(), target: "domain".to_string() }]
    );
}

#[test]
fn dependencies_are_sorted_by_source_then_target() {
    let source = "profile feature-clean@0.1\nroot \"r\"\nlayer domain\nlayer application\nlayer infrastructure\nlayer presentation\ndepends presentation on domain\ndepends infrastructure on domain\ndepends presentation on application\ndepends application on domain\n";
    let contract = compile_source(source).unwrap();
    let pairs: Vec<(&str, &str)> = contract
        .dependencies
        .iter()
        .map(|e| (e.source.as_str(), e.target.as_str()))
        .collect();
    assert_eq!(
        pairs,
        vec![
            ("application", "domain"),
            ("infrastructure", "domain"),
            ("presentation", "application"),
            ("presentation", "domain"),
        ]
    );
}

#[test]
fn unsupported_profiles_are_reported_with_their_declaration() {
    let error = compile_source(
        "profile vertical-slice@0.1\nroot \"src\"\nlayer domain\nlayer application\nlayer infrastructure\nlayer presentation\n",
    )
    .unwrap_err();
    assert_eq!(error.diagnostics.len(), 1);
    let d = &error.diagnostics[0];
    assert_eq!(d.message, "unsupported profile vertical-slice@0.1");
    assert_eq!(d.context.as_deref(), Some("supported profile: feature-clean@0.1"));
    assert_eq!(d.locations, vec![Location { start: 0, end: 26, line: 1, column: 1 }]);
}

#[test]
fn a_missing_root_is_reported() {
    let error = compile_source(
        "profile feature-clean@0.1\nlayer domain\nlayer application\nlayer infrastructure\nlayer presentation\n",
    )
    .unwrap_err();
    assert_eq!(codes(&error), vec!["contract.missing_root"]);
    assert_eq!(error.diagnostics[0].message, "feature-clean requires a root path");
    assert!(error.diagnostics[0].locations.is_empty());
}

fn doc(root: Option<&str>, root_span: Option<Span>, layers: &[&str], deps: &[(&str, &str)]) -> AstDocument {
    AstDocument {
        profile: ProfileDecl {
            name: "feature-clean".to_string(),
            version: "0.1".to_string(),
            span: Span { start: 0, end: 1 },
        },
        root: root.map(|r| r.to_string()),
        root_span,
        layers: layers
            .iter()
            .map(|n| LayerDecl { name: n.to_string(), span: Span { start: 2, end: 3 } })
            .collect(),
        dependencies: deps
            .iter()
            .map(|(s, t)| DependencyDecl {
                source: s.to_string(),
                target: t.to_string(),
                span: Span { start: 4, end: 5 },
            })
            .collect(),
    }
}

#[test]
fn a_root_declaration_without_path_is_located() {
    let source = "ab\ncdef";
    let document = doc(None, Some(Span { start: 3, end: 5 }), &["domain", "application", "infrastructure", "presentation"], &[]);
    let error = compile(&document, source).unwrap_err();
    assert_eq!(codes(&error), vec!["contract.missing_root"]);
    assert_eq!(error.diagnostics[0].locations, vec![Location { start: 3, end: 5, line: 2, column: 1 }]);
}

#[test]
fn missing_layers_are_reported_in_order() {
    let document = doc(Some("r"), None, &["application"], &[]);
    let error = compile(&document, "0123456789").unwrap_err();
    assert_eq!(codes(&error), vec!["contract.missing_layer", "contract.missing_layer", "contract.missing_layer"]);
    let contexts: Vec<&str> = error.diagnostics.iter().map(|d| d.context.as_deref().unwrap()).collect();
    assert_eq!(contexts, vec!["domain", "infrastructure", "presentation"]);
    assert_eq!(error.diagnostics[0].message, "feature-clean requires the `domain` layer");
}

#[test]
fn duplicate_layers_are_reported_once_per_repetition() {
    let document = doc(Some("r"), None, &["domain", "application", "domain", "infrastructure", "presentation", "domain"], &[]);
    let error = compile(&document, "0123456789").unwrap_err();
    assert_eq!(codes(&error), vec!["symbol.duplicate", "symbol.duplicate"]);
    assert_eq!(error.diagnostics[0].message, "layer `domain` is declared more than once");
    assert_eq!(error.diagnostics[0].locations, vec![Location { start: 2, end: 3, line: 1, column: 3 }]);
}

#[test]
fn dependency_checks_run_in_order() {
    let layers = ["domain", "application", "infrastructure", "presentation"];
    let document = doc(Some("r"), None, &layers, &[("domain", "missing"), ("ghost", "domain"), ("application", "domain"), ("application", "domain")]);
    let error = compile(&document, "0123456789").unwrap_err();
    assert_eq!(
        codes(&error),
        vec!["symbol.unresolved", "dependency.forbidden", "symbol.unresolved", "dependency.forbidden", "contract.contradiction"]
    );
    let messages: Vec<&str> = error.diagnostics.iter().map(|d| d.message.as_str()).collect();
    assert_eq!(
        messages,
        vec![
            "unknown dependency target `missing`",
            "layer `domain` cannot depend on `missing`",
            "unknown dependency source `ghost`",
            "layer `ghost` cannot depend on `domain`",
            "dependency `application` -> `domain` is declared more than once",
        ]
    );
    assert_eq!(error.diagnostics[0].context.as_deref(), Some("missing"));
    assert_eq!(error.diagnostics[1].context, None);
    assert_eq!(error.diagnostics[4].locations, vec![Location { start: 4, end: 5, line: 1, column: 5 }]);
}

#[test]
fn cycles_are_reported_with_the_walk_that_closes_them() {
    let source = "profile feature-clean@0.1\nroot \"src\"\nlayer domain\nlayer application\nlayer infrastructure\nlayer presentation\ndepends application on domain\ndepends domain on application\n";
    let error = compile_source(source).unwrap_err();
    assert_eq!(codes(&error), vec!["dependency.forbidden", "dependency.cycle"]);
    assert_eq!(
        error.diagnostics[1].message,
        "dependency cycle detected: application -> domain -> application"
    );
    assert!(error.diagnostics[1].locations.is_empty());
}

fn edges(pairs: &[(&str, &str)]) -> Vec<DependencyEdge> {
    pairs
        .iter()
        .map(|(s, t)| DependencyEdge { source: s.to_string(), target: t.to_string() })
        .collect()
}

#[test]
fn cycle_search_finds_cycles_and_only_cycles() {
    assert_eq!(find_cycle(&edges(&[])), None);
    assert_eq!(find_cycle(&edges(&[("a", "b"), ("b", "c"), ("a", "c")])), None);
    assert_eq!(find_cycle(&edges(&[("a", "a")])), Some(vec!["a".to_string(), "a".to_string()]));
    assert_eq!(
        find_cycle(&edges(&[("x", "a"), ("a", "b"), ("b", "a")])),
        Some(vec!["x".to_string(), "a".to_string(), "b".to_string(), "a".to_string()])
    );
}

#[test]
fn the_policy_allows_only_inward_dependencies() {
    assert!(allowed_dependency("application", "domain"));
    assert!(allowed_dependency("infrastructure", "application"));
    assert!(allowed_dependency("infrastructure", "domain"));
    assert!(allowed_dependency("presentation", "application"));
    assert!(allowed_dependency("presentation", "domain"));
    assert!(!allowed_dependency("domain", "application"));
    assert!(!allowed_dependency("presentation", "infrastructure"));
    assert!(!allowed_dependency("domain", "domain"));
}

#[test]
fn compiled_contracts_declare_required_layers_and_allowed_edges() {
    let contract = compile_source(VALID_SOURCE).unwrap();
    for required in ["domain", "application", "infrastructure", "presentation"] {
        assert!(contract.symbols.iter().any(|s| s.name == required));
    }
    for edge in &contract.dependencies {
        assert!(allowed_dependency(&edge.source, &edge.target));
    }
}

#[test]
fn compile_source_reports_syntax_errors_first() {
    let error = compile_source("profile nope@1\nlayer").unwrap_err();
    assert_eq!(codes(&error), vec!["syntax.unexpected_token"]);
}

#[test]
fn every_reported_diagnostic_is_an_error() {
    let layers = ["domain"];
    let mut document = doc(None, None, &layers, &[("domain", "domain"), ("domain", "domain")]);
    document.profile.version = "9".to_string();
    let error = compile(&document, "0123456789").unwrap_err();
    assert_eq!(
        codes(&error),
        vec![
            "profile.unsupported",
            "contract.missing_root",
            "contract.missing_layer",
            "contract.missing_layer",
            "contract.missing_layer",
            "dependency.forbidden",
            "dependency.forbidden",
            "contract.contradiction",
            "dependency.cycle",
        ]
    );
    assert!(error.diagnostics.iter().all(|d| d.severity == Severity::Error));
    assert_eq!(error.diagnostics[8].message, "dependency cycle detected: domain -> domain");
}

#[test]
fn strings_are_ordered_by_their_bytes() {
    assert_eq!(compare_text(&"a".to_string(), &"b".to_string()), -1);
    assert_eq!(compare_text(&"ab".to_string(), &"a".to_string()), 1);
    assert_eq!(compare_text(&"é".to_string(), &"z".to_string()), 1);
    assert_eq!(compare_text(&"x".to_string(), &"x".to_string()), 0);
    let mut set: Vec<String> = Vec::new();
    for name in ["presentation", "domain", "application", "domain"] {
        set_insert(&mut set, &name.to_string());
    }
    assert_eq!(set, vec!["application", "domain", "presentation"]);
    assert!(set_contains(&set, &"domain".to_string()));
    assert!(!set_contains(&set, &"infrastructure".to_string()));
    assert_eq!(slice_text("aé b", 1, 3), "é");
}

#[test]
fn a_self_dependency_is_reported_as_a_two_node_walk() {
    let zero = Span { start: 0, end: 0 };
    let document = AstDocument {
        profile: ProfileDecl { name: "feature-clean".to_string(), version: "0.1".to_string(), span: zero },
        root: Some("src".to_string()),
        root_span: Some(zero),
        layers: vec![LayerDecl { name: "domain".to_string(), span: zero }],
        dependencies: vec![DependencyDecl { source: "domain".to_string(), target: "domain".to_string(), span: zero }],
    };
    let error = compile(&document, "").unwrap_err();
    assert_eq!(
        codes(&error),
        vec!["contract.missing_layer", "contract.missing_layer", "contract.missing_layer", "dependency.forbidden", "dependency.cycle"]
    );
    assert_eq!(error.diagnostics[3].message, "layer `domain` cannot depend on `domain`");
    assert_eq!(error.diagnostics[4].message, "dependency cycle detected: domain -> domain");
}
