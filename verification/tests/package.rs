use satysfi_documents::cst::{CstText, LineCol, Span};
use satysfi_documents::documents::{
    BlockCmd, CustomType, Dependency, DependencyKind, DocumentData, DocumentError, Environment, InlineCmd,
    MathCmd, PackageVisibility, Variable, Variant,
};
use satysfi_documents::parse::ParseError;
use satysfi_documents::rule::Rule;

const PACKAGE: &str = "@require: math\n@import: ../lib/foo\n\nlet x = 1\nlet (a, b) = (1, 2)\nlet y = let z = 3 in z\nlet-inline ctx \\hello = {x}\nlet-block +greet = '<>\nmodule M = struct\n  let w = 1\n  let-inline \\inmod = {y}\nend\n";

fn package() -> CstText {
    CstText::parse(PACKAGE).expect("the package parses")
}

#[test]
fn parse_keeps_text_and_root() {
    let ct = package();
    assert_eq!(ct.text(), PACKAGE);
    assert_eq!(ct.cst().rule, Rule::program_satyh);
    assert_eq!(ct.cst().span, Span { start: 0, end: PACKAGE.len() });
}

#[test]
fn parse_document_with_body() {
    let ct = CstText::parse("@require: stdja\n\nlet x = 1 in x").expect("the document parses");
    assert_eq!(ct.cst().rule, Rule::program_saty);
    let stmts = ct.cst().pickup(Rule::let_stmt);
    assert_eq!(stmts.len(), 1);
    assert_eq!(ct.get_text(stmts[0]), "let x = 1");
}

#[test]
fn parse_syntax_error() {
    match CstText::parse("let x = in") {
        Err(ParseError::Syntax { linecol, expect }) => {
            assert_eq!(linecol.line, 0);
            assert!(!expect.is_empty());
        }
        other => panic!("unexpected result: {:?}", other.map(|ct| ct.text().to_string())),
    }
}

#[test]
fn variables_of_package() {
    let ct = package();
    let vars = Variable::extract_from_package(&ct);
    let names: Vec<&str> = vars.iter().map(|v| v.body.name.as_str()).collect();
    // `w` is defined inside the module and is left out.
    assert_eq!(names, vec!["x", "a", "b", "y", "z"]);

    let x = &vars[0];
    assert_eq!(x.visibility, PackageVisibility::Public);
    assert_eq!(x.scope, Span { start: 45, end: PACKAGE.len() });
    assert_eq!(x.pos_definition, 40);
    assert!(x.body.type_.is_none());
    assert!(x.body.type_declaration.is_none());

    // a statement may define several variables at once
    assert_eq!(vars[1].pos_definition, 50);
    assert_eq!(vars[2].pos_definition, 50);
    assert_eq!(vars[1].scope, vars[2].scope);

    let z = &vars[4];
    assert_eq!(z.visibility, PackageVisibility::Binded);
    // from the end of `let z = 3` to the end of `let z = 3 in z`
    assert_eq!(z.scope, Span { start: 83, end: 88 });
    assert_eq!(z.pos_definition, 78);
}

#[test]
fn variable_find_parent() {
    let ct = package();
    let stmts = ct.cst().pickup(Rule::let_stmt);
    let parents: Vec<Option<Rule>> =
        stmts.iter().map(|s| Variable::find_parent(&ct, s)).collect();
    assert_eq!(
        parents,
        vec![
            Some(Rule::preamble),
            Some(Rule::preamble),
            Some(Rule::preamble),
            Some(Rule::bind_stmt),
            Some(Rule::module_stmt),
        ]
    );
}

#[test]
fn variable_new_reads_pattern() {
    let ct = package();
    let stmts = ct.cst().pickup(Rule::let_stmt);
    let vars = Variable::new(&ct, stmts[1]);
    let names: Vec<&str> = vars.iter().map(|v| v.name.as_str()).collect();
    assert_eq!(names, vec!["a", "b"]);
}

#[test]
fn inline_commands_of_package() {
    let ct = package();
    let cmds = InlineCmd::extract_from_package(&ct);
    let names: Vec<&str> = cmds.iter().map(|c| c.body.name.as_str()).collect();
    // the one defined inside the module belongs to the module and is left out
    assert_eq!(names, vec!["\\hello"]);
    assert_eq!(cmds[0].visibility, PackageVisibility::Public);
    assert_eq!(cmds[0].scope, Span { start: 116, end: PACKAGE.len() });
    assert_eq!(cmds[0].pos_definition, 104);
}

#[test]
fn block_commands_of_package() {
    let ct = package();
    let cmds = BlockCmd::extract_from_package(&ct);
    assert_eq!(cmds.len(), 1);
    assert_eq!(cmds[0].body.name, "+greet");
    assert_eq!(cmds[0].pos_definition, 127);
    assert_eq!(cmds[0].scope, Span { start: 139, end: PACKAGE.len() });
    assert_eq!(cmds[0].visibility, PackageVisibility::Public);
}

#[test]
fn command_find_parent() {
    let ct = package();
    let ctx = ct.cst().pickup(Rule::let_inline_stmt_ctx);
    let noctx = ct.cst().pickup(Rule::let_inline_stmt_noctx);
    assert_eq!(InlineCmd::find_parent(&ct, ctx[0]), Some(Rule::preamble));
    assert_eq!(InlineCmd::find_parent(&ct, noctx[0]), Some(Rule::module_stmt));
    let block = ct.cst().pickup(Rule::let_block_stmt_noctx);
    assert_eq!(BlockCmd::find_parent(&ct, block[0]), Some(Rule::preamble));
    assert_eq!(InlineCmd::new(&ct, ctx[0]).name, "\\hello");
    assert_eq!(BlockCmd::new(&ct, block[0]).name, "+greet");
}

const TYPES: &str = "type t = A | B of int\nlet-math \\sq x = ${x}\nlet y = let-math \\loc = ${a} in 1\nmodule N = struct\n  type u = C\n  let-math \\inner = ${b}\nend\n";

fn types_package() -> CstText {
    CstText::parse(TYPES).expect("the package parses")
}

#[test]
fn custom_type_find_parent() {
    let ct = types_package();
    let stmts = ct.cst().pickup(Rule::type_stmt);
    assert_eq!(stmts.len(), 2);
    assert_eq!(CustomType::find_parent(&ct, stmts[0]), Some(Rule::preamble));
    assert_eq!(CustomType::find_parent(&ct, stmts[1]), Some(Rule::module_stmt));
}

#[test]
fn types_of_package() {
    let ct = types_package();
    let types = CustomType::extract_from_package(&ct);
    // `u` is defined inside the module and is left out
    assert_eq!(types.len(), 1);
    let t = &types[0];
    assert_eq!(t.body.name, "t");
    assert!(t.body.definition.starts_with("t = A | B of int"));
    assert_eq!(t.pos_definition, 5);
    assert_eq!(t.visibility, PackageVisibility::Public);
    let stmt = ct.cst().pickup(Rule::type_stmt)[0];
    assert_eq!(t.scope, Span { start: stmt.span.end, end: TYPES.len() });
}

#[test]
fn variants_of_package() {
    let ct = types_package();
    let variants = Variant::extract_from_package(&ct);
    let names: Vec<(&str, &str)> =
        variants.iter().map(|v| (v.body.name.as_str(), v.body.typename.as_str())).collect();
    assert_eq!(names, vec![("A", "t"), ("B", "t")]);
    assert_eq!(variants[0].pos_definition, 9);
    assert_eq!(variants[1].pos_definition, 13);
    assert_eq!(variants[1].scope.end, TYPES.len());
}

#[test]
fn math_commands_of_package() {
    let ct = types_package();
    let cmds = MathCmd::extract_from_package(&ct);
    let names: Vec<&str> = cmds.iter().map(|c| c.body.name.as_str()).collect();
    // `\inner` is defined inside the module and is left out
    assert_eq!(names, vec!["\\sq", "\\loc"]);
    let stmts = ct.cst().pickup(Rule::let_math_stmt);
    assert_eq!(stmts.len(), 3);

    let sq = &cmds[0];
    assert_eq!(sq.visibility, PackageVisibility::Public);
    assert_eq!(sq.pos_definition, 31);
    assert_eq!(sq.scope, Span { start: stmts[0].span.end, end: TYPES.len() });

    // defined in a binding: usable up to the end of the expression it binds
    let loc = &cmds[1];
    assert_eq!(loc.visibility, PackageVisibility::Binded);
    assert_eq!(loc.pos_definition, 61);
    assert_eq!(loc.scope, Span { start: stmts[1].span.end, end: 77 });

    assert_eq!(MathCmd::find_parent(&ct, stmts[0]), Some(Rule::preamble));
    assert_eq!(MathCmd::find_parent(&ct, stmts[1]), Some(Rule::bind_stmt));
    assert_eq!(MathCmd::find_parent(&ct, stmts[2]), Some(Rule::module_stmt));
    assert_eq!(MathCmd::new(&ct, stmts[2]).name, "\\inner");
}

#[test]
fn environment_reads_types_variants_and_math() {
    let ct = types_package();
    let env = Environment::new(&ct, None, None);
    assert!(env.dependencies.is_empty());
    assert_eq!(env.types.len(), 1);
    assert_eq!(env.variants.len(), 2);
    assert_eq!(env.math_cmds.len(), 2);
    assert_eq!(env.variables.len(), 1);
    assert_eq!(env.variables[0].body.name, "y");
}

#[test]
fn dependencies_of_package() {
    let ct = package();
    let deps = Dependency::extract(&ct, Some("/home/u"), Some("/proj/doc/main.satyh"));
    assert_eq!(deps.len(), 2);
    assert_eq!(deps[0].name(), "math");
    assert_eq!(deps[0].kind(), DependencyKind::Require);
    assert_eq!(deps[0].definition(), Span { start: 10, end: 14 });
    assert_eq!(deps[0].path(), "/home/u/.satysfi/dist/packages/math.satyh");
    assert_eq!(deps[0].url(), None);
    assert_eq!(deps[1].name(), "../lib/foo");
    assert_eq!(deps[1].kind(), DependencyKind::Import);
    assert_eq!(deps[1].definition(), Span { start: 24, end: 34 });
    assert_eq!(deps[1].path(), "/proj/doc/../lib/foo.satyh");
}

#[test]
fn dependencies_need_home_and_path() {
    let ct = package();
    let deps = Dependency::extract(&ct, None, Some("/proj/doc/main.satyh"));
    assert_eq!(deps.len(), 1);
    assert_eq!(deps[0].kind(), DependencyKind::Import);
    let deps = Dependency::extract(&ct, Some("/home/u"), None);
    assert_eq!(deps.len(), 1);
    assert_eq!(deps[0].kind(), DependencyKind::Require);
    assert!(Dependency::extract(&ct, None, None).is_empty());
}

#[test]
fn dependency_resolution() {
    let ct = package();
    let mut deps = Dependency::extract(&ct, Some("/home/u"), None);
    deps[0].resolve(false);
    assert_eq!(deps[0].url(), None);
    deps[0].resolve(true);
    assert_eq!(deps[0].url(), Some("file:///home/u/.satysfi/dist/packages/math.satyh"));
}

#[test]
fn environment_of_package() {
    let ct = package();
    let env = Environment::new(&ct, Some("/home/u"), Some("/proj/doc/main.satyh"));
    assert_eq!(env.dependencies.len(), 2);
    assert!(env.modules.is_empty());
    assert!(env.types.is_empty());
    assert!(env.variants.is_empty());
    assert!(env.math_cmds.is_empty());
    assert_eq!(env.variables.len(), 5);
    assert_eq!(env.inline_cmds.len(), 1);
    assert_eq!(env.block_cmds.len(), 1);
    assert_eq!(
        env.dependency_paths(),
        vec![
            "/home/u/.satysfi/dist/packages/math.satyh".to_string(),
            "/proj/doc/../lib/foo.satyh".to_string()
        ]
    );
}

#[test]
fn environment_resolution_keeps_definitions() {
    let ct = package();
    let mut env = Environment::new(&ct, Some("/home/u"), Some("/proj/doc/main.satyh"));
    env.resolve_dependencies(&vec![true, false]);
    assert_eq!(
        env.dependencies[0].url(),
        Some("file:///home/u/.satysfi/dist/packages/math.satyh")
    );
    assert_eq!(env.dependencies[1].url(), None);
    assert_eq!(env.variables.len(), 5);
}

#[test]
fn environment_default_is_empty() {
    let env = Environment::default();
    assert!(env.dependencies.is_empty());
    assert!(env.variables.is_empty());
    assert!(env.inline_cmds.is_empty());
}

#[test]
fn document_parsed() {
    let doc = DocumentData::from_path(PACKAGE, Some("/home/u"), Some("/proj/doc/main.satyh"))
        .expect("the file has a parent directory");
    match &doc {
        DocumentData::Parsed { csttext, environment } => {
            assert_eq!(csttext.text(), PACKAGE);
            assert_eq!(environment.variables.len(), 5);
        }
        DocumentData::NotParsed { .. } => panic!("the package parses"),
    }
    assert_eq!(doc.dependency_paths().len(), 2);
}

#[test]
fn document_not_parsed_keeps_text() {
    let text = "let x = in";
    let doc = DocumentData::from_path(text, None, None).expect("nothing to look up");
    match doc {
        DocumentData::NotParsed { text: t, linecol, expect } => {
            assert_eq!(t, text);
            assert_eq!(linecol.line, 0);
            assert!(!expect.is_empty());
        }
        DocumentData::Parsed { .. } => panic!("the text does not parse"),
    }
}

#[test]
fn document_without_parent_directory() {
    // a parsed file whose path has no parent: the imported packages cannot be looked for
    assert!(matches!(
        DocumentData::from_path(PACKAGE, None, Some("/")),
        Err(DocumentError::NoParentDirectory)
    ));
    // a file that does not parse needs no parent
    let doc = DocumentData::from_path("let x = in", None, Some("/")).expect("not parsed");
    assert!(matches!(doc, DocumentData::NotParsed { .. }));
}

#[test]
fn document_resolution() {
    let mut doc = DocumentData::from_path(PACKAGE, Some("/home/u"), None).expect("no file path");
    doc.resolve_dependencies(&vec![true]);
    match &doc {
        DocumentData::Parsed { environment, .. } => assert_eq!(
            environment.dependencies[0].url(),
            Some("file:///home/u/.satysfi/dist/packages/math.satyh")
        ),
        DocumentData::NotParsed { .. } => panic!("the package parses"),
    }
    let mut not_parsed = DocumentData::from_path("let x = in", None, None).expect("not parsed");
    not_parsed.resolve_dependencies(&vec![]);
    assert!(not_parsed.dependency_paths().is_empty());
    let _ = LineCol { line: 0, column: 0 };
}

#[test]
fn document_from_url() {
    // a `file:` URL names the file's path, next to which imported packages are looked for
    let doc = DocumentData::new(PACKAGE, Some("/home/u"), "file:///proj/doc/main.satyh")
        .expect("the file has a parent directory");
    assert_eq!(
        doc.dependency_paths(),
        vec![
            "/home/u/.satysfi/dist/packages/math.satyh".to_string(),
            "/proj/doc/../lib/foo.satyh".to_string()
        ]
    );
    // a URL that names no file: only the required packages are known
    let doc = DocumentData::new(PACKAGE, Some("/home/u"), "untitled:Untitled-1").expect("no path");
    assert_eq!(doc.dependency_paths(), vec!["/home/u/.satysfi/dist/packages/math.satyh".to_string()]);
    // the root has no parent directory
    assert!(matches!(
        DocumentData::new(PACKAGE, None, "file:///"),
        Err(DocumentError::NoParentDirectory)
    ));
}

#[test]
fn definitions_come_before_their_scopes() {
    for text in [PACKAGE, TYPES] {
        let ct = CstText::parse(text).expect("parses");
        let env = Environment::new(&ct, Some("/home/u"), Some("/proj/doc/main.satyh"));
        let mut bounds: Vec<(usize, Span)> = Vec::new();
        bounds.extend(env.variables.iter().map(|c| (c.pos_definition, c.scope)));
        bounds.extend(env.inline_cmds.iter().map(|c| (c.pos_definition, c.scope)));
        bounds.extend(env.block_cmds.iter().map(|c| (c.pos_definition, c.scope)));
        bounds.extend(env.math_cmds.iter().map(|c| (c.pos_definition, c.scope)));
        assert!(!bounds.is_empty());
        for (pos, scope) in bounds {
            assert!(pos < scope.start && scope.start <= scope.end && scope.end <= text.len());
        }
    }
}
