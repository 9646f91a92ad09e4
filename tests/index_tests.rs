use rails_lsp::dispatch::{step, workspace_roots, Action, Event, Folder, ServerState};
use rails_lsp::index::{Occurrence, WorkspaceIndex};
use rails_lsp::resolve::sort_by_place;
use rails_lsp::token::{classify, line_col, parse, TokenKind};
use rails_lsp::workspace::{SourceFile, Workspace};
use rails_lsp::LspError;

fn s(x: &str) -> String {
    x.to_string()
}

fn occ(name: &str, path: &str, line: usize, declaration: bool) -> Occurrence {
    Occurrence {
        name: s(name),
        path: s(path),
        line,
        column: 0,
        width: name.len(),
        declaration,
        scope: vec![],
    }
}

fn names(v: &[Occurrence]) -> Vec<(String, String, usize)> {
    v.iter().map(|o| (o.name.clone(), o.path.clone(), o.line)).collect()
}

#[test]
fn replace_file_twice_does_not_duplicate() {
    let mut index = WorkspaceIndex::new();
    index.replace_file(&s("/w/b.rb"), vec![occ("Bar", "/w/b.rb", 0, true)]);
    index.replace_file(&s("/w/a.rb"), vec![occ("Foo", "/w/a.rb", 0, true), occ("Bar", "/w/a.rb", 1, false)]);
    let first = (names(&index.lookup(&s("Foo"))), names(&index.lookup(&s("Bar"))));
    index.replace_file(&s("/w/a.rb"), vec![occ("Foo", "/w/a.rb", 0, true), occ("Bar", "/w/a.rb", 1, false)]);
    let second = (names(&index.lookup(&s("Foo"))), names(&index.lookup(&s("Bar"))));
    assert_eq!(first, second);
    assert_eq!(index.lookup(&s("Foo")).len(), 1);
    assert_eq!(index.lookup(&s("Bar")).len(), 2);
}

#[test]
fn remove_file_purges_its_occurrences() {
    let mut index = WorkspaceIndex::new();
    index.replace_file(&s("/w/a.rb"), vec![occ("Foo", "/w/a.rb", 0, true)]);
    index.replace_file(&s("/w/b.rb"), vec![occ("Foo", "/w/b.rb", 3, false)]);
    index.remove_file(&s("/w/a.rb"));
    let found = index.lookup(&s("Foo"));
    assert_eq!(found.len(), 1);
    assert!(found.iter().all(|o| o.path != "/w/a.rb"));
    index.remove_file(&s("/w/nowhere.rb"));
    assert_eq!(index.lookup(&s("Foo")).len(), 1);
}

#[test]
fn lookup_is_case_sensitive() {
    let mut ws = Workspace::new();
    ws.add_file(&s("/w/a.rb"), b"class Foo; end".to_vec());
    assert_eq!(ws.index().lookup(&s("Foo")).len(), 1);
    assert!(ws.index().lookup(&s("foo")).is_empty());
    assert!(ws.index().lookup(&s("FOO")).is_empty());
}

#[test]
fn reopened_class_has_two_declarations() {
    let mut ws = Workspace::new();
    ws.add_file(&s("/w/a.rb"), b"class Foo; end".to_vec());
    ws.add_file(&s("/w/b.rb"), b"class Foo; end".to_vec());
    let decls = ws.index().declarations_for(&s("Foo"));
    assert_eq!(decls.len(), 2);
    let mut paths: Vec<String> = decls.iter().map(|o| o.path.clone()).collect();
    paths.sort();
    assert_eq!(paths, vec![s("/w/a.rb"), s("/w/b.rb")]);
}

#[test]
fn nearest_scope_wins() {
    let mut ws = Workspace::new();
    ws.add_file(&s("/w/nested.rb"), b"module A; class B; end; end".to_vec());
    ws.add_file(&s("/w/top.rb"), b"class B; end".to_vec());
    let inner = ws.index().resolve(&s("B"), &vec![s("A")]);
    assert_eq!(inner.len(), 1);
    assert_eq!(inner[0].path, "/w/nested.rb");
    assert_eq!(inner[0].scope, vec![s("A")]);
    assert_eq!(inner[0].column, 16);
    let top = ws.index().resolve(&s("B"), &vec![]);
    assert_eq!(top.len(), 1);
    assert_eq!(top[0].path, "/w/top.rb");
    let outer = ws.index().resolve(&s("A"), &vec![s("A")]);
    assert_eq!(outer.len(), 1);
    assert_eq!(outer[0].path, "/w/nested.rb");
}

#[test]
fn unknown_symbol_resolves_to_nothing() {
    let mut ws = Workspace::new();
    ws.add_file(&s("/w/a.rb"), b"class Widget; end".to_vec());
    assert!(ws.index().resolve(&s("Zzyzx"), &vec![]).is_empty());
    assert!(WorkspaceIndex::new().resolve(&s("Zzyzx"), &vec![]).is_empty());
}

#[test]
fn definition_end_to_end() {
    let ws_files = vec![
        SourceFile { path: s("/w/a.rb"), text: b"class Widget; end".to_vec() },
        SourceFile { path: s("/w/b.rb"), text: b"Widget.new".to_vec() },
    ];
    let mut ws = Workspace::from_path(ws_files);
    let found = ws.definition(&s("/w/b.rb"), 0, 0);
    assert_eq!(found.len(), 1);
    assert_eq!(found[0].path, "/w/a.rb");
    assert_eq!((found[0].line, found[0].column), (0, 6));
    assert_eq!(ws.definition(&s("/w/b.rb"), 0, 5).len(), 1);
    assert!(ws.definition(&s("/w/b.rb"), 0, 6).is_empty());
    ws.remove_file(&s("/w/a.rb"));
    assert!(ws.definition(&s("/w/b.rb"), 0, 0).is_empty());
}

#[test]
fn ambiguous_definitions_sorted_by_path_then_line() {
    let mut ws = Workspace::new();
    ws.add_file(&s("/w/z.rb"), b"class Foo; end".to_vec());
    ws.add_file(&s("/w/a.rb"), b"\n\nclass Foo; end\nclass Foo; end".to_vec());
    ws.add_file(&s("/w/use.rb"), b"Foo".to_vec());
    let found = ws.definition(&s("/w/use.rb"), 0, 1);
    let places: Vec<(String, usize)> = found.iter().map(|o| (o.path.clone(), o.line)).collect();
    assert_eq!(places, vec![(s("/w/a.rb"), 2), (s("/w/a.rb"), 3), (s("/w/z.rb"), 0)]);
}

#[test]
fn sort_by_place_orders_and_keeps() {
    let v = vec![occ("X", "b", 1, true), occ("X", "a", 9, true), occ("X", "b", 0, true), occ("X", "ab", 0, true)];
    let r = sort_by_place(v);
    let places: Vec<(String, usize)> = r.iter().map(|o| (o.path.clone(), o.line)).collect();
    assert_eq!(places, vec![(s("a"), 9), (s("ab"), 0), (s("b"), 0), (s("b"), 1)]);
}

#[test]
fn rename_moves_occurrences() {
    let mut ws = Workspace::new();
    ws.add_file(&s("/w/old.rb"), b"class Gadget; end".to_vec());
    ws.rename_file(&s("/w/old.rb"), &s("/w/new.rb"), b"class Gadget; end".to_vec());
    let found = ws.index().lookup(&s("Gadget"));
    assert_eq!(found.len(), 1);
    assert_eq!(found[0].path, "/w/new.rb");
}

#[test]
fn indexer_roles_and_scopes() {
    let mut ws = Workspace::new();
    ws.add_file(&s("/w/m.rb"), b"module Outer\n  LIMIT = 3\n  class Inner < Base\n    def go\n      Helper.call\n    end\n  end\nend\nTail".to_vec());
    let limit = ws.index().lookup(&s("LIMIT"));
    assert_eq!(limit.len(), 1);
    assert!(limit[0].declaration);
    assert_eq!(limit[0].scope, vec![s("Outer")]);
    assert_eq!((limit[0].line, limit[0].column), (1, 2));
    let base = ws.index().lookup(&s("Base"));
    assert!(!base[0].declaration);
    assert_eq!(base[0].scope, vec![s("Outer"), s("Inner")]);
    let helper = ws.index().lookup(&s("Helper"));
    assert!(!helper[0].declaration);
    assert_eq!(helper[0].scope, vec![s("Outer"), s("Inner")]);
    assert_eq!((helper[0].line, helper[0].column), (4, 6));
    let tail = ws.index().lookup(&s("Tail"));
    assert!(tail[0].scope.is_empty());
    assert_eq!(ws.index().declarations_for(&s("Inner")).len(), 1);
    assert!(ws.index().declarations_for(&s("Helper")).is_empty());
}

#[test]
fn from_paths_indexes_every_root() {
    let roots = vec![
        vec![SourceFile { path: s("/r1/a.rb"), text: b"class One; end".to_vec() }],
        vec![SourceFile { path: s("/r2/b.rb"), text: b"class Two; end".to_vec() }],
    ];
    let ws = Workspace::from_paths(roots);
    assert_eq!(ws.index().declarations_for(&s("One")).len(), 1);
    assert_eq!(ws.index().declarations_for(&s("Two")).len(), 1);
}

#[test]
fn tokenize_places_tokens() {
    let parsed = parse(&s("t.rb"), b"class Foo\nend".to_vec());
    assert!(parsed.diagnostics.is_empty());
    let toks = parsed.tokens;
    let kinds: Vec<TokenKind> = toks.iter().map(|t| t.kind).collect();
    assert!(kinds.contains(&TokenKind::Class));
    assert!(kinds.contains(&TokenKind::End));
    let foo = toks.iter().find(|t| t.kind == TokenKind::Constant).unwrap();
    assert_eq!(foo.text, "Foo");
    assert_eq!((foo.line, foo.column), (0, 6));
    let end = toks.iter().find(|t| t.kind == TokenKind::End).unwrap();
    assert_eq!((end.line, end.column), (1, 0));
}

#[test]
fn tokenize_survives_syntax_errors() {
    let parsed = parse(&s("bad.rb"), b"class Foo; def (".to_vec());
    assert!(!parsed.diagnostics.is_empty());
    assert!(parsed.tokens.iter().any(|t| t.kind == TokenKind::Constant && t.text == "Foo"));
}

#[test]
fn line_col_counts_lines_and_columns() {
    let src = b"ab\ncd\n\nxyz".to_vec();
    assert_eq!(line_col(&src, 0), (0, 0));
    assert_eq!(line_col(&src, 4), (1, 1));
    assert_eq!(line_col(&src, 6), (2, 0));
    assert_eq!(line_col(&src, 9), (3, 2));
    assert_eq!(line_col(&src, 100), (3, 3));
}

#[test]
fn server_lifecycle() {
    let (st, a) = step(ServerState::Uninitialized, Event::Definition);
    assert_eq!((st, a), (ServerState::Uninitialized, Action::RejectRequest));
    let (st, a) = step(ServerState::Uninitialized, Event::Initialize);
    assert_eq!((st, a), (ServerState::Initializing, Action::Initialize));
    let (st, a) = step(st, Event::Initialized);
    assert_eq!((st, a), (ServerState::Running, Action::Ready));
    assert_eq!(step(st, Event::Definition), (ServerState::Running, Action::ResolveDefinition));
    assert_eq!(step(st, Event::FilesCreated), (ServerState::Running, Action::IndexCreated));
    assert_eq!(step(st, Event::FilesRenamed), (ServerState::Running, Action::IndexRenamed));
    assert_eq!(step(st, Event::FilesDeleted), (ServerState::Running, Action::PurgeDeleted));
    assert_eq!(step(st, Event::OtherRequest), (ServerState::Running, Action::MethodNotFound));
    assert_eq!(step(st, Event::OtherNotification), (ServerState::Running, Action::Ignore));
    let (st, a) = step(st, Event::Shutdown);
    assert_eq!((st, a), (ServerState::ShuttingDown, Action::ReplyShutdown));
    assert_eq!(step(st, Event::Definition), (ServerState::ShuttingDown, Action::RejectRequest));
    assert_eq!(step(st, Event::Exit), (ServerState::Exited, Action::Terminate(0)));
}

#[test]
fn exit_without_shutdown_is_an_error_status() {
    assert_eq!(step(ServerState::Running, Event::Exit), (ServerState::Exited, Action::Terminate(1)));
    assert_eq!(step(ServerState::Uninitialized, Event::Exit), (ServerState::Exited, Action::Terminate(1)));
}

#[test]
fn roots_keep_only_file_folders() {
    let folders = vec![
        Folder { scheme: s("file"), path: Some(s("/home/a")) },
        Folder { scheme: s("ssh"), path: None },
        Folder { scheme: s("file"), path: Some(s("/home/b")) },
    ];
    assert_eq!(workspace_roots(&folders, None), Ok(vec![s("/home/a"), s("/home/b")]));
}

#[test]
fn roots_fall_back_to_current_dir() {
    let folders = vec![Folder { scheme: s("http"), path: None }];
    assert_eq!(workspace_roots(&folders, Some(s("/cwd"))), Ok(vec![s("/cwd")]));
    assert_eq!(workspace_roots(&vec![], Some(s("/cwd"))), Ok(vec![s("/cwd")]));
}

#[test]
fn roots_fail_without_any_directory() {
    assert_eq!(workspace_roots(&vec![], None), Err(LspError::WorkspaceError));
}

#[test]
fn classify_by_token_name() {
    assert_eq!(classify(&s("kCLASS")), TokenKind::Class);
    assert_eq!(classify(&s("kMODULE")), TokenKind::Module);
    assert_eq!(classify(&s("kDO_BLOCK")), TokenKind::Opener);
    assert_eq!(classify(&s("kDO_COND")), TokenKind::Other);
    assert_eq!(classify(&s("kEND")), TokenKind::End);
    assert_eq!(classify(&s("tCONSTANT")), TokenKind::Constant);
    assert_eq!(classify(&s("tEQL")), TokenKind::Assign);
    assert_eq!(classify(&s("tIDENTIFIER")), TokenKind::Other);
}

#[test]
fn file_entries_follow_the_files() {
    let mut ws = Workspace::new();
    ws.add_file(&s("/w/a.rb"), b"class A; end".to_vec());
    ws.add_file(&s("/w/bad.rb"), b"class (".to_vec());
    assert_eq!(ws.files().len(), 2);
    let a = ws.files().iter().find(|f| f.path == "/w/a.rb").unwrap();
    assert_eq!(a.length, 12);
    assert!(a.diagnostics.is_empty());
    let bad = ws.files().iter().find(|f| f.path == "/w/bad.rb").unwrap();
    assert!(!bad.diagnostics.is_empty());
    ws.add_file(&s("/w/a.rb"), b"class A\nend\n".to_vec());
    assert_eq!(ws.files().len(), 2);
    assert_eq!(ws.files().iter().find(|f| f.path == "/w/a.rb").unwrap().length, 12);
    ws.remove_file(&s("/w/bad.rb"));
    assert_eq!(ws.files().len(), 1);
    assert_eq!(ws.files()[0].path, "/w/a.rb");
}

#[test]
fn qualified_names_are_recorded() {
    let files = vec![SourceFile { path: s("p/a.rb"), text: b"module A; class B; end; end".to_vec() }];
    let mut ws = Workspace::new();
    ws.add_path(&files);
    let qualified = ws.index().declarations_for(&s("A::B"));
    assert_eq!(qualified.len(), 1);
    assert_eq!((qualified[0].path.as_str(), qualified[0].line, qualified[0].column), ("p/a.rb", 0, 16));
    let bare = ws.index().declarations_for(&s("B"));
    assert_eq!(bare.len(), 1);
    assert_eq!((bare[0].line, bare[0].column), (0, 16));
    let outer = ws.index().declarations_for(&s("A"));
    assert_eq!(outer.len(), 1);
    assert_eq!((outer[0].line, outer[0].column), (0, 7));
    let deep = Workspace::from_path(vec![SourceFile {
        path: s("p/d.rb"),
        text: b"module X\n  module Y\n    Z = 1\n  end\nend".to_vec(),
    }]);
    assert_eq!(deep.index().declarations_for(&s("X::Y::Z")).len(), 1);
    assert_eq!(deep.index().declarations_for(&s("X::Y")).len(), 1);
}

#[test]
fn definition_span_uses_bytes() {
    let mut ws = Workspace::new();
    ws.add_file(&s("/w/a.rb"), "class Caf\u{e9}; end".as_bytes().to_vec());
    ws.add_file(&s("/w/b.rb"), "Caf\u{e9}.new".as_bytes().to_vec());
    assert_eq!(ws.definition(&s("/w/b.rb"), 0, 4).len(), 1);
    assert!(ws.definition(&s("/w/b.rb"), 0, 5).is_empty());
}

#[test]
fn large_file_is_indexed() {
    let mut text = b"class Big; end\n".to_vec();
    for _ in 0..4000 {
        text.extend_from_slice(b"x = 1\n");
    }
    text.extend_from_slice(b"class Last; end\n");
    assert!(text.len() > 20000);
    let mut ws = Workspace::new();
    ws.add_file(&s("/w/big.rb"), text);
    assert_eq!(ws.index().declarations_for(&s("Big")).len(), 1);
    let last = ws.index().declarations_for(&s("Last"));
    assert_eq!(last.len(), 1);
    assert_eq!((last[0].line, last[0].column), (4001, 6));
    assert!(ws.files()[0].diagnostics.is_empty());
}

#[test]
fn file_entries_keep_tokens() {
    let ws = Workspace::from_path(vec![SourceFile { path: s("/w/a.rb"), text: b"class Foo; end".to_vec() }]);
    let toks = &ws.files()[0].tokens;
    assert!(toks.iter().any(|t| t.kind == TokenKind::Constant && t.text == "Foo" && t.column == 6 && t.width == 3));
}

#[test]
fn add_path_twice_changes_nothing() {
    let files = vec![
        SourceFile { path: s("/w/a.rb"), text: b"module M; class Foo; end; end".to_vec() },
        SourceFile { path: s("/w/b.rb"), text: b"Foo.new\nM::Foo".to_vec() },
    ];
    let mut ws = Workspace::new();
    ws.add_path(&files);
    let once: Vec<_> = ["Foo", "M", "M::Foo"].iter().map(|n| names(&ws.index().lookup(&s(n)))).collect();
    ws.add_path(&files);
    let twice: Vec<_> = ["Foo", "M", "M::Foo"].iter().map(|n| names(&ws.index().lookup(&s(n)))).collect();
    assert_eq!(once, twice);
    assert_eq!(ws.index().lookup(&s("Foo")).len(), 3);
    assert_eq!(ws.files().len(), 2);
}

#[test]
fn add_path_leaves_other_names_alone() {
    let mut ws = Workspace::new();
    ws.add_file(&s("/w/lower.rb"), b"foo = 1\nFOO = 2".to_vec());
    let before = names(&ws.index().lookup(&s("foo")));
    ws.add_path(&vec![SourceFile { path: s("/w/up.rb"), text: b"class Foo; end".to_vec() }]);
    assert_eq!(names(&ws.index().lookup(&s("foo"))), before);
    assert!(ws.index().lookup(&s("foo")).is_empty());
    assert_eq!(ws.index().lookup(&s("FOO")).len(), 1);
}
