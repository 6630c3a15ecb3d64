use resolver::build_graph::PartialDepsGraph;
use resolver::cst::{CstEvent, NixSyntax};
use resolver::cst as c;
use rnix::SyntaxKind as K;
use resolver::codegen::{nix_attrset, nix_bind, nix_let};
use resolver::error::{DepNamesError, ResolveError};
use resolver::locator::PackageLocations;
use resolver::package::SourcePos;
use rowan::ast::AstNode;

fn pos(row: usize, col: usize) -> SourcePos {
    SourcePos { file: String::from("f.nix"), row, col }
}

fn lambda(name: &str, file: &str) -> String {
    format!("«lambda {} @ {}:1:1»", name, file)
}

/// Eval output with three packages a, b, c of the flake `core`.
fn eval_output() -> String {
    format!(
        "{{ core = {{ a = {}; b = {}; c = {}; }}; }}",
        lambda("a", "/a.nix"),
        lambda("b", "/b.nix"),
        lambda("c", "/c.nix")
    )
}

fn graph_of(sources: Vec<String>) -> PartialDepsGraph {
    let locs = PackageLocations::from_eval_output(&eval_output()).unwrap();
    let mut g = PartialDepsGraph::default();
    g.add_from_locs(locs, &files(sources)).unwrap();
    g
}

/// File contents, each read successfully.
fn files(v: Vec<String>) -> Vec<Option<String>> {
    v.into_iter().map(Some).collect()
}

fn abc_sources() -> Vec<String> {
    vec![
        String::from("{ stdenv }: stdenv"),
        String::from("{ a, stdenv }: a"),
        String::from("{ a, b }: b"),
    ]
}

#[test]
fn offset_of_first_row() {
    assert_eq!(pos(1, 1).to_offset("abc\ndef"), Some(0));
    assert_eq!(pos(1, 3).to_offset("abc\ndef"), Some(2));
}

#[test]
fn offset_of_later_rows() {
    assert_eq!(pos(2, 2).to_offset("abc\ndef\nghi"), Some(5));
    assert_eq!(pos(3, 1).to_offset("abc\ndef\nghi"), Some(8));
}

#[test]
fn offset_counts_bytes() {
    assert_eq!(pos(2, 1).to_offset("é\nx"), Some(3));
}

#[test]
fn offset_past_last_row() {
    assert_eq!(pos(4, 1).to_offset("abc\ndef\nghi"), None);
    assert_eq!(pos(2, 1).to_offset(""), None);
}

#[test]
fn package_displays_its_name() {
    let locs = PackageLocations::from_eval_output(&eval_output()).unwrap();
    assert_eq!(locs.as_slice()[1].to_string(), "b");
}

#[test]
fn eval_output_locations() {
    let out = format!(
        "{{ core = {{ hello = {}; nested = {{ tool = {}; }}; }}; extra = {{ x = {}; }}; }}",
        lambda("hello", "/nix/store/s/hello.nix"),
        "«lambda @ /t.nix:3:14»",
        lambda("x", "/x.nix")
    );
    let locs = PackageLocations::from_eval_output(&out).unwrap();
    assert_eq!(locs.len(), 3);
    let ps = locs.as_slice();
    assert_eq!(ps[0].name, "hello");
    assert_eq!(ps[0].flake_slug, "core");
    assert_eq!(ps[0].pos.file, "/nix/store/s/hello.nix");
    assert_eq!((ps[0].pos.row, ps[0].pos.col), (1, 1));
    assert_eq!(ps[1].name, "nested.tool");
    assert_eq!(ps[1].flake_slug, "core");
    assert_eq!((ps[1].pos.file.as_str(), ps[1].pos.row, ps[1].pos.col), ("/t.nix", 3, 14));
    assert_eq!(ps[2].name, "x");
    assert_eq!(ps[2].flake_slug, "extra");
}

#[test]
fn eval_output_not_an_attrset() {
    let r = PackageLocations::from_eval_output("[ 1 2 ]");
    assert!(matches!(r, Err(ResolveError::NotAnAttrSet)));
}

#[test]
fn eval_output_bad_location() {
    let r = PackageLocations::from_eval_output("{ core = { a = \"/a.nix:x:1\"; }; }");
    assert!(matches!(r, Err(ResolveError::LambdaPosition)));
    let r = PackageLocations::from_eval_output("{ core = { a = \"/a.nix\"; }; }");
    assert!(matches!(r, Err(ResolveError::LambdaPosition)));
}

#[test]
fn eval_output_complex_ident() {
    let r = PackageLocations::from_eval_output("{ core = { \"a\" = \"/a.nix:1:1\"; }; }");
    assert!(matches!(r, Err(ResolveError::ComplexIdent)));
}

#[test]
fn eval_output_unrecognised_value() {
    let r = PackageLocations::from_eval_output("{ core = { a = 1; }; }");
    assert!(matches!(r, Err(ResolveError::UnrecognisedValue(Some(_)))));
}

#[test]
fn eval_output_without_flake_gives_up() {
    let r = PackageLocations::try_from_eval_output("{ a = \"/a.nix:1:1\"; }");
    assert!(r.is_none());
}

#[test]
fn dependency_names_are_read() {
    let g = graph_of(abc_sources());
    let d = g.finalize();
    assert!(matches!(d, Err(ResolveError::MissingDependency { .. })));
}

#[test]
fn missing_dependency_is_reported() {
    let g = graph_of(abc_sources());
    match g.finalize() {
        Err(ResolveError::MissingDependency { package, dependency }) => {
            assert_eq!(package, "a");
            assert_eq!(dependency, "stdenv");
        }
        _ => panic!("expected a missing dependency"),
    }
}

fn abc_graph() -> resolver::deps::DepsGraph {
    let g = graph_of(vec![
        String::from("{ }: 1"),
        String::from("{ a }: a"),
        String::from("{ a, b }: b"),
    ]);
    match g.finalize() {
        Ok(d) => d,
        Err(_) => panic!("expected a graph"),
    }
}

#[test]
fn levels_put_dependencies_first() {
    let d = abc_graph();
    assert_eq!(d.to_levels(), vec![vec![0], vec![1], vec![2]]);
}

#[test]
fn independent_packages_share_a_level() {
    let g = graph_of(vec![
        String::from("{ }: 1"),
        String::from("{ a }: a"),
        String::from("{ a }: a"),
    ]);
    let d = match g.finalize() {
        Ok(d) => d,
        Err(_) => panic!("expected a graph"),
    };
    let levels = d.to_levels();
    assert_eq!(levels.len(), 2);
    assert_eq!(levels[0], vec![0]);
    let mut second = levels[1].clone();
    second.sort();
    assert_eq!(second, vec![1, 2]);
}

#[test]
fn packages_are_sorted_by_name() {
    let out = format!(
        "{{ core = {{ zeta = {}; alpha = {}; mid = {}; }}; }}",
        lambda("z", "/z.nix"),
        lambda("a", "/a.nix"),
        lambda("m", "/m.nix")
    );
    let locs = PackageLocations::from_eval_output(&out).unwrap();
    let mut g = PartialDepsGraph::default();
    let sources = vec![
        String::from("{ alpha }: 1"),
        String::from("{ }: 1"),
        String::from("{ alpha }: 1"),
    ];
    g.add_from_locs(locs, &files(sources)).unwrap();
    let d = match g.finalize() {
        Ok(d) => d,
        Err(_) => panic!("expected a graph"),
    };
    assert_eq!(d.get(0).name, "alpha");
    assert_eq!(d.get(1).name, "mid");
    assert_eq!(d.get(2).name, "zeta");
}

#[test]
fn unreferenced_last_package_is_levelled() {
    let g = graph_of(vec![
        String::from("{ }: 1"),
        String::from("{ a }: a"),
        String::from("{ }: 1"),
    ]);
    let d = match g.finalize() {
        Ok(d) => d,
        Err(_) => panic!("expected a graph"),
    };
    let levels = d.try_to_levels().unwrap();
    let mut all: Vec<usize> = levels.iter().flatten().copied().collect();
    all.sort();
    assert_eq!(all, vec![0, 1, 2]);
    assert!(d.to_graphviz().contains("    2 [ label=\"core.c\"]\n"));
}

#[test]
fn dependency_cycle_cannot_be_levelled() {
    let g = graph_of(vec![
        String::from("{ b }: 1"),
        String::from("{ a }: a"),
        String::from("{ a }: a"),
    ]);
    let d = match g.finalize() {
        Ok(d) => d,
        Err(_) => panic!("expected a graph"),
    };
    assert!(d.try_to_levels().is_none());
}

#[test]
fn nix_code_for_levels() {
    let d = abc_graph();
    let levels = d.to_levels();
    let code = d.levels_to_nix(&levels);
    let expected = "{ core,  ... }: let lvl0 = {} // {\na = core.a {  };\n\n};\n\n\
lvl1 = lvl0 // {\nb = core.b {  a = lvl2.a; };\n\n};\n\n\
lvl2 = lvl1 // {\nc = core.c {  b = lvl2.b; a = lvl2.a; };\n\n};\n\n\n in lvl2";
    assert_eq!(code, expected);
}

#[test]
fn nix_code_lists_each_flake_once_in_order() {
    let out = format!(
        "{{ zz = {{ a = {}; }}; core = {{ b = {}; c = {}; }}; }}",
        lambda("a", "/a.nix"),
        lambda("b", "/b.nix"),
        lambda("c", "/c.nix")
    );
    let locs = PackageLocations::from_eval_output(&out).unwrap();
    let mut g = PartialDepsGraph::default();
    let sources = vec![
        String::from("{ }: 1"),
        String::from("{ a }: 1"),
        String::from("{ b }: 1"),
    ];
    g.add_from_locs(locs, &files(sources)).unwrap();
    let d = match g.finalize() {
        Ok(d) => d,
        Err(_) => panic!("expected a graph"),
    };
    let code = d.levels_to_nix(&d.to_levels());
    assert!(code.starts_with("{ core, zz,  ... }: let "));
}

#[test]
fn level_names_count_in_decimal() {
    let mut sources = Vec::new();
    let mut attrs = String::new();
    for i in 0..12 {
        let name = format!("p{:02}", i);
        attrs.push_str(&format!("{} = {}; ", name, lambda(&name, "/p.nix")));
        if i == 0 {
            sources.push(String::from("{ }: 1"));
        } else {
            sources.push(format!("{{ p{:02} }}: 1", i - 1));
        }
    }
    let out = format!("{{ core = {{ {}}}; }}", attrs);
    let locs = PackageLocations::from_eval_output(&out).unwrap();
    let mut g = PartialDepsGraph::default();
    g.add_from_locs(locs, &files(sources)).unwrap();
    let d = match g.finalize() {
        Ok(d) => d,
        Err(_) => panic!("expected a graph"),
    };
    let levels = d.to_levels();
    assert_eq!(levels.len(), 12);
    let code = d.levels_to_nix(&levels);
    assert!(code.ends_with("\n in lvl11"));
    assert!(code.contains("lvl10 = lvl9 // {"));
}

#[test]
fn graphviz_rendering() {
    let d = abc_graph();
    let expected = "digraph {\n    0 [ label=\"core.a\"]\n    1 [ label=\"core.b\"]\n    2 [ label=\"core.c\"]\n    0 -> 1 [ ]\n    0 -> 2 [ ]\n    1 -> 2 [ ]\n}\n";
    assert_eq!(d.to_graphviz(), expected);
}

#[test]
fn bind_text() {
    assert_eq!(nix_bind("x", "1"), "x = 1;\n");
}

#[test]
fn let_and_attrset_text() {
    let vals = vec![(String::from("a"), String::from("1")), (String::from("b"), String::from("2"))];
    assert_eq!(nix_let(&vals, "a"), "let a = 1;\n\nb = 2;\n\n\n in a");
    assert_eq!(nix_attrset(&vals), "{\na = 1;\nb = 2;\n\n}");
    assert_eq!(nix_attrset(&Vec::new()), "{\n\n}");
}

#[test]
fn parse_error_is_reported() {
    let locs = PackageLocations::from_eval_output(&eval_output()).unwrap();
    let mut g = PartialDepsGraph::default();
    let sources = vec![String::from("{ }: 1"), String::from("{ a, : ("), String::from("{ }: 1")];
    match g.add_from_locs(locs, &files(sources)) {
        Err(ResolveError::Package { package, error: DepNamesError::Parse(_) }) => assert_eq!(package, "b"),
        _ => panic!("expected a parse error"),
    }
}

#[test]
fn position_beyond_file_is_reported() {
    let out = format!("{{ core = {{ a = {}; }}; }}", "«lambda @ /a.nix:5:1»");
    let locs = PackageLocations::from_eval_output(&out).unwrap();
    let mut g = PartialDepsGraph::default();
    let r = g.add_from_locs(locs, &files(vec![String::from("{ }: 1")]));
    assert!(matches!(r, Err(ResolveError::Package { error: DepNamesError::PositionInvalid, .. })));
}

#[test]
fn empty_file_does_not_parse() {
    let locs = PackageLocations::from_eval_output(&eval_output()).unwrap();
    let mut g = PartialDepsGraph::default();
    let r = g.add_from_locs(locs, &files(vec![String::from("# nothing\n"), String::new(), String::new()]));
    assert!(matches!(r, Err(ResolveError::Package { error: DepNamesError::Parse(_), .. })));
}

#[test]
fn position_not_at_lambda_is_reported() {
    let locs = PackageLocations::from_eval_output(&eval_output()).unwrap();
    let mut g = PartialDepsGraph::default();
    let r = g.add_from_locs(locs, &files(vec![String::from("let x = 1; in x"), String::new(), String::new()]));
    assert!(matches!(r, Err(ResolveError::Package { error: DepNamesError::NotALambda, .. })));
}

#[test]
fn lambda_found_inside_application_and_attrset() {
    let out = format!("{{ core = {{ a = {}; }}; }}", "«lambda @ /a.nix:2:9»");
    let locs = PackageLocations::from_eval_output(&out).unwrap();
    let mut g = PartialDepsGraph::default();
    let src = String::from("f {\n  pkg = { x, y ? 1 }: x;\n}");
    g.add_from_locs(locs, &files(vec![src])).unwrap();
    match g.finalize() {
        Err(ResolveError::MissingDependency { package, dependency }) => {
            assert_eq!(package, "a");
            assert_eq!(dependency, "x");
        }
        _ => panic!("expected the dependency x"),
    }
}

#[test]
fn plain_identifier_parameter_has_no_dependencies() {
    let locs = PackageLocations::from_eval_output(&eval_output()).unwrap();
    let mut g = PartialDepsGraph::default();
    let sources = vec![String::from("x: x"), String::from("{ a }: a"), String::from("{ b }: b")];
    g.add_from_locs(locs, &files(sources)).unwrap();
    let d = match g.finalize() {
        Ok(d) => d,
        Err(_) => panic!("expected a graph"),
    };
    assert_eq!(d.to_levels(), vec![vec![0], vec![1], vec![2]]);
}

#[test]
fn unsupported_position_gives_up() {
    let out = format!("{{ core = {{ a = {}; }}; }}", "«lambda @ /a.nix:1:1»");
    let locs = PackageLocations::from_eval_output(&out).unwrap();
    let mut g = PartialDepsGraph::default();
    let r = g.try_add_from_locs(locs, &files(vec![String::from("let x = 1; in x")]));
    assert!(matches!(r, Some(Err(ResolveError::Package { error: DepNamesError::NotALambda, .. }))));
    let locs = PackageLocations::from_eval_output(&out).unwrap();
    let r = g.try_add_from_locs(locs, &files(vec![String::from("[ 1 ]")]));
    assert!(r.is_none());
}

#[test]
fn syntax_kind_numbers_match_rnix() {
    let pairs = [
        (c::TOKEN_LET, K::TOKEN_LET), (c::TOKEN_IDENT, K::TOKEN_IDENT), (c::NODE_APPLY, K::NODE_APPLY),
        (c::NODE_ASSERT, K::NODE_ASSERT), (c::NODE_ATTRPATH, K::NODE_ATTRPATH), (c::NODE_DYNAMIC, K::NODE_DYNAMIC),
        (c::NODE_ERROR, K::NODE_ERROR), (c::NODE_IDENT, K::NODE_IDENT), (c::NODE_IF_ELSE, K::NODE_IF_ELSE),
        (c::NODE_SELECT, K::NODE_SELECT), (c::NODE_INHERIT, K::NODE_INHERIT), (c::NODE_STRING, K::NODE_STRING),
        (c::NODE_LAMBDA, K::NODE_LAMBDA), (c::NODE_IDENT_PARAM, K::NODE_IDENT_PARAM),
        (c::NODE_LEGACY_LET, K::NODE_LEGACY_LET), (c::NODE_LET_IN, K::NODE_LET_IN), (c::NODE_LIST, K::NODE_LIST),
        (c::NODE_BIN_OP, K::NODE_BIN_OP), (c::NODE_PAREN, K::NODE_PAREN), (c::NODE_PATTERN, K::NODE_PATTERN),
        (c::NODE_PAT_ENTRY, K::NODE_PAT_ENTRY), (c::NODE_ROOT, K::NODE_ROOT), (c::NODE_ATTR_SET, K::NODE_ATTR_SET),
        (c::NODE_ATTRPATH_VALUE, K::NODE_ATTRPATH_VALUE), (c::NODE_UNARY_OP, K::NODE_UNARY_OP),
        (c::NODE_LITERAL, K::NODE_LITERAL), (c::NODE_WITH, K::NODE_WITH), (c::NODE_PATH, K::NODE_PATH),
        (c::NODE_HAS_ATTR, K::NODE_HAS_ATTR),
    ];
    for (ours, theirs) in pairs {
        assert_eq!(ours, theirs as u16);
    }
}

#[test]
fn unreadable_file_is_reported_in_order() {
    let locs = PackageLocations::from_eval_output(&eval_output()).unwrap();
    let mut g = PartialDepsGraph::default();
    let sources = vec![Some(String::from("{ }: 1")), None, Some(String::from("{ a, : ("))];
    match g.add_from_locs(locs, &sources) {
        Err(ResolveError::Package { package, error: DepNamesError::Unreadable }) => assert_eq!(package, "b"),
        _ => panic!("expected the file of b to be unreadable"),
    }
}

/// The graph of the packages `names`, added in that order, each with the
/// dependency list of `sources`.
fn graph_in_order(names: &[&str], sources: Vec<String>) -> resolver::deps::DepsGraph {
    let attrs: String = names
        .iter()
        .map(|n| format!("{} = {}; ", n, lambda(n, "/p.nix")))
        .collect();
    let locs = PackageLocations::from_eval_output(&format!("{{ core = {{ {}}}; }}", attrs)).unwrap();
    let mut g = PartialDepsGraph::default();
    g.add_from_locs(locs, &files(sources)).unwrap();
    match g.finalize() {
        Ok(d) => d,
        Err(_) => panic!("expected a graph"),
    }
}

#[test]
fn package_order_does_not_depend_on_input_order() {
    let d1 = graph_in_order(
        &["b", "a", "c"],
        vec![String::from("{ a }: 1"), String::from("{ }: 1"), String::from("{ a, b }: 1")],
    );
    let d2 = graph_in_order(
        &["c", "b", "a"],
        vec![String::from("{ a, b }: 1"), String::from("{ a }: 1"), String::from("{ }: 1")],
    );
    for i in 0..3 {
        assert_eq!(d1.get(i).name, d2.get(i).name);
    }
    assert_eq!(d1.get(0).name, "a");
    assert_eq!(d1.to_levels(), d2.to_levels());
    assert_eq!(d1.levels_to_nix(&d1.to_levels()), d2.levels_to_nix(&d2.to_levels()));
}

#[test]
fn lambda_mark_without_space_after_at_is_left_alone() {
    let out = String::from("{ core = { a = «lambda a @/a.nix:1:1»; }; }");
    assert!(!matches!(PackageLocations::try_from_eval_output(&out), Some(Ok(_))));
}

#[test]
fn offset_past_end_of_row_is_out_of_bounds() {
    assert_eq!(pos(1, 10).to_offset("ab"), None);
    assert_eq!(pos(1, 3).to_offset("ab"), Some(2));
    assert_eq!(pos(1, 4).to_offset("ab\ncd"), None);
    assert_eq!(pos(1, 3).to_offset("ab\ncd"), Some(2));
}

#[test]
fn row_or_column_zero_is_out_of_bounds() {
    assert_eq!(pos(0, 1).to_offset("ab"), None);
    assert_eq!(pos(1, 0).to_offset("ab"), None);
    assert_eq!(pos(2, 0).to_offset("ab\ncd"), None);
}

#[test]
fn independent_packages_finalize_to_one_level() {
    let out = format!("{{ f = {{ a = {}; b = {}; }}; }}", lambda("a", "/a.nix"), lambda("b", "/b.nix"));
    let locs = PackageLocations::from_eval_output(&out).unwrap();
    let mut g = PartialDepsGraph::default();
    g.add_from_locs(locs, &files(vec![String::from("{ }: 1"), String::from("{ }: 1")])).unwrap();
    let d = match g.finalize() {
        Ok(d) => d,
        Err(_) => panic!("expected a graph"),
    };
    let levels = d.to_levels();
    assert_eq!(levels.len(), 1);
    let mut l = levels[0].clone();
    l.sort();
    assert_eq!(l, vec![0, 1]);
}

#[test]
fn single_package_gets_a_node() {
    let out = format!("{{ f = {{ a = {}; }}; }}", lambda("a", "/a.nix"));
    let locs = PackageLocations::from_eval_output(&out).unwrap();
    let mut g = PartialDepsGraph::default();
    g.add_from_locs(locs, &files(vec![String::from("{ }: 1")])).unwrap();
    let d = match g.finalize() {
        Ok(d) => d,
        Err(_) => panic!("expected a graph"),
    };
    assert_eq!(d.to_graphviz(), "digraph {\n    0 [ label=\"f.a\"]\n}\n");
    assert_eq!(d.to_levels(), vec![vec![0]]);
}

#[test]
fn malformed_string_in_package_file_is_a_parse_error() {
    let out = format!("{{ f = {{ a = {}; }}; }}", lambda("a", "/a.nix"));
    let locs = PackageLocations::from_eval_output(&out).unwrap();
    let mut g = PartialDepsGraph::default();
    let r = g.try_add_from_locs(locs, &files(vec![String::from("\"${}\" + ./a/${b}/c")]));
    assert!(matches!(r, Some(Err(ResolveError::Package { error: DepNamesError::Parse(_), .. }))));
}

#[test]
fn error_messages() {
    let e = ResolveError::MissingDependency { package: String::from("b"), dependency: String::from("c") };
    assert_eq!(e.message(), "b has missing dependency c");
    assert_eq!(ResolveError::NotAnAttrSet.message(), "result of evaluating lambdas was not an attribute set");
    assert_eq!(ResolveError::ComplexIdent.message(), "todo: value with complex ident");
    assert_eq!(ResolveError::LambdaPosition.message(), "failed to extract lambda position");
    let p = ResolveError::Package { package: String::from("b"), error: DepNamesError::NotALambda };
    assert_eq!(p.message(), "error processing package b");
    assert_eq!(DepNamesError::NotALambda.message(), "lambda location doesn't point to a lambda");
    assert_eq!(DepNamesError::PositionInvalid.message(), "source position invalid");
    assert_eq!(DepNamesError::FileEmpty.message(), "file is empty");
    assert_eq!(DepNamesError::Parse(String::from("x")).message(), "x");
    assert_eq!(ResolveError::UnrecognisedValue(None).message(), "unrecognised value type for attribute: None");
}

#[test]
fn unrecognised_value_message_matches_rnix_debug() {
    let out = String::from("{ core = { a = 1; }; }");
    let e = match PackageLocations::from_eval_output(&out) {
        Err(e) => e,
        Ok(_) => panic!("expected an error"),
    };
    let root = rnix::Root::parse(&out).tree();
    let lit = root
        .syntax()
        .descendants()
        .find_map(rnix::ast::Literal::cast)
        .unwrap();
    let expected = format!("unrecognised value type for attribute: {:?}", Some(rnix::ast::Expr::Literal(lit)));
    assert_eq!(e.message(), expected);
}

#[test]
fn appending_text_keeps_a_found_offset() {
    let p = pos(2, 2);
    assert_eq!(p.to_offset("ab\ncd"), Some(4));
    assert_eq!(p.to_offset("ab\ncdef\ngh"), Some(4));
    let q = SourcePos { file: String::from("other.nix"), row: 2, col: 2 };
    assert_eq!(q.to_offset("ab\ncd"), Some(4));
}

#[test]
fn packages_added_one_at_a_time() {
    let locs = PackageLocations::from_eval_output(&eval_output()).unwrap();
    let mut g = PartialDepsGraph::default();
    let mut pkgs = locs.into_vec().into_iter();
    let a = pkgs.next().unwrap();
    assert!(matches!(g.add_package(a, &Some(String::from("{ x }: 1"))), Some(Ok(()))));
    let b = pkgs.next().unwrap();
    match g.add_package(b, &None) {
        Some(Err(ResolveError::Package { package, error: DepNamesError::Unreadable })) => assert_eq!(package, "b"),
        _ => panic!("expected the file of b to be unreadable"),
    }
    match g.finalize() {
        Err(ResolveError::MissingDependency { package, dependency }) => {
            assert_eq!(package, "a");
            assert_eq!(dependency, "x");
        }
        _ => panic!("expected the dependency x to be missing"),
    }
}

#[test]
fn lambda_position_from_normalized_parts() {
    let p = PackageLocations::get_lambda_position(&vec![Some(String::from("/a.nix:3:7"))]).unwrap();
    assert_eq!(p.file, "/a.nix");
    assert_eq!((p.row, p.col), (3, 7));
    assert!(PackageLocations::get_lambda_position(&vec![None, Some(String::from("/a.nix:3:7"))]).is_none());
    assert!(PackageLocations::get_lambda_position(&vec![Some(String::from("/a.nix:3"))]).is_none());
    assert!(PackageLocations::get_lambda_position(&Vec::new()).is_none());
}

#[test]
fn walk_of_hand_built_syntax() {
    let open = |kind: u16, start: u32, end: u32| CstEvent::Open { kind, start, end, text: None };
    let syn = NixSyntax {
        events: vec![open(c::NODE_ROOT, 0, 3), open(c::NODE_LIST, 0, 3), CstEvent::Close, CstEvent::Close],
        first_error: None,
    };
    assert!(matches!(PackageLocations::walk_eval_syntax(&syn, &vec![None, None, None, None]), Some(Err(ResolveError::NotAnAttrSet))));
    let empty = NixSyntax { events: Vec::new(), first_error: None };
    assert!(PackageLocations::walk_eval_syntax(&empty, &Vec::new()).is_none());
    let set = NixSyntax {
        events: vec![open(c::NODE_ROOT, 0, 2), open(c::NODE_ATTR_SET, 0, 2), CstEvent::Close, CstEvent::Close],
        first_error: None,
    };
    match PackageLocations::walk_eval_syntax(&set, &vec![None, None, None, None]) {
        Some(Ok(l)) => assert_eq!(l.len(), 0),
        _ => panic!("expected no packages"),
    }
}
