use std::path::PathBuf;

use sv_parser_pp::defines::MacroTable;
use sv_parser_pp::directives::{include_dir_choice, include_file_name, select_branches};
use sv_parser_pp::macro_text::{ident_char, remove_double_backticks, split_text};
use sv_parser_pp::macros::MacroDefinition;
use sv_parser_pp::preprocessed::PreprocessedText;
use sv_parser_pp::preprocessor::{source_text, Action, Directive, Event, Preprocessor};
use sv_parser_pp::range::Range;

fn strings(v: &[&str]) -> Vec<String> {
    v.iter().map(|s| s.to_string()).collect()
}

const TEST1_TEXT: &str = "module and_op (a, b, c);\noutput a;\ninput b, c;\n\nand a1 (a,b,c);\nendmodule\n";

#[test]
fn split_text_cuts_between_identifier_and_other_characters() {
    assert_eq!(split_text("a b"), strings(&["", "a", " ", "b"]));
    assert_eq!(split_text("(x + y1)"), strings(&["(", "x", " + ", "y1", ")"]));
    assert_eq!(split_text("a_b c"), strings(&["", "a_b", " ", "c"]));
    assert_eq!(
        split_text("NAME[INDEX].y;"),
        strings(&["", "NAME", "[", "INDEX", "].", "y", ";"])
    );
    assert_eq!(
        split_text("NAME``_``INDEX``__x"),
        strings(&["", "NAME", "``", "_", "``", "INDEX", "``", "__x"])
    );
}

#[test]
fn split_text_keeps_the_last_piece() {
    assert_eq!(split_text("abc"), strings(&["", "abc"]));
    assert_eq!(split_text("+-"), strings(&["+-"]));
    assert_eq!(split_text("8"), strings(&["", "8"]));
    assert_eq!(split_text(""), strings(&[]));
}

#[test]
fn identifier_characters() {
    assert!(ident_char('a'));
    assert!(ident_char('Z'));
    assert!(ident_char('7'));
    assert!(ident_char('_'));
    assert!(!ident_char('`'));
    assert!(!ident_char(' '));
    assert!(!ident_char('é'));
}

#[test]
fn double_backticks_are_removed() {
    assert_eq!(remove_double_backticks("a``b"), "ab");
    assert_eq!(remove_double_backticks("```"), "`");
    assert_eq!(remove_double_backticks("````"), "");
    assert_eq!(remove_double_backticks("`x`"), "`x`");
    assert_eq!(remove_double_backticks("plain"), "plain");
}

#[test]
fn pushed_text_traces_back_to_its_origin() {
    let mut t = PreprocessedText::new();
    let p = PathBuf::from("p.sv");
    let q = PathBuf::from("q.sv");
    t.push("abc", p.clone(), Range::new(10, 13));
    t.push("", q.clone(), Range::new(0, 0));
    t.push("de", q.clone(), Range::new(40, 42));
    assert_eq!(t.text(), "abcde");
    assert_eq!(t.origin(0), Some((&p, 10)));
    assert_eq!(t.origin(2), Some((&p, 12)));
    assert_eq!(t.origin(3), Some((&q, 40)));
    assert_eq!(t.origin(4), Some((&q, 41)));
    assert_eq!(t.origin(5), None);
    assert_eq!(t.origin(100), None);
}

#[test]
fn origins_count_bytes_not_characters() {
    let mut t = PreprocessedText::new();
    let p = PathBuf::from("u.sv");
    t.push("é", p.clone(), Range::new(0, 2));
    t.push("x", p.clone(), Range::new(7, 8));
    assert_eq!(t.origin(1), Some((&p, 1)));
    assert_eq!(t.origin(2), Some((&p, 7)));
    assert_eq!(t.origin(3), None);
}

#[test]
fn merged_text_keeps_the_origins_of_both_parts() {
    let a = PathBuf::from("a.sv");
    let b = PathBuf::from("b.svh");
    let mut t = PreprocessedText::new();
    t.push("0123", a.clone(), Range::new(0, 4));
    let mut u = PreprocessedText::new();
    u.push("xy", b.clone(), Range::new(20, 22));
    u.push("z", b.clone(), Range::new(30, 31));
    t.merge(u);
    assert_eq!(t.text(), "0123xyz");
    assert_eq!(t.origin(3), Some((&a, 3)));
    assert_eq!(t.origin(4), Some((&b, 20)));
    assert_eq!(t.origin(5), Some((&b, 21)));
    assert_eq!(t.origin(6), Some((&b, 30)));
    assert_eq!(t.origin(7), None);
}

#[test]
fn empty_text_has_no_origins() {
    let t = PreprocessedText::new();
    assert_eq!(t.text(), "");
    assert_eq!(t.origin(0), None);
}

fn connect_macro() -> MacroDefinition {
    MacroDefinition {
        params: vec![
            ("NAME".to_string(), None),
            ("INDEX".to_string(), Some("0".to_string())),
        ],
        body: Some(("assign NAME``_``INDEX = 1;\n".to_string(), Range::new(5, 31))),
    }
}

#[test]
fn macro_expansion_substitutes_arguments_and_defaults() {
    let d = connect_macro();
    assert!(d.can_expand(&strings(&["a"])));
    assert_eq!(d.expand(&strings(&["a"])), "assign a_0 = 1;\n");
    assert_eq!(d.expand(&strings(&["b", "3"])), "assign b_3 = 1;\n");
}

#[test]
fn macro_without_default_needs_an_argument() {
    let d = connect_macro();
    assert!(!d.can_expand(&strings(&[])));
    let no_body = MacroDefinition { params: vec![], body: None };
    assert!(!no_body.can_expand(&strings(&[])));
}

#[test]
fn later_parameter_with_same_name_wins() {
    let d = MacroDefinition {
        params: vec![("X".to_string(), None), ("X".to_string(), None)],
        body: Some(("(X)".to_string(), Range::new(0, 3))),
    };
    assert_eq!(d.expand(&strings(&["first", "second"])), "(second)");
}

#[test]
fn macro_table_defines_and_undefines() {
    let mut t = MacroTable::new();
    let a = "A".to_string();
    let b = "B".to_string();
    assert!(!t.contains(&a));
    t.insert(a.clone(), None);
    assert!(t.contains(&a));
    assert!(matches!(t.get(&a), Some(None)));
    t.insert(b.clone(), Some((connect_macro(), PathBuf::from("m.sv"))));
    assert!(matches!(t.get(&b), Some(Some(_))));
    t.insert(a.clone(), Some((connect_macro(), PathBuf::from("n.sv"))));
    match t.get(&a) {
        Some(Some((_, p))) => assert_eq!(p, &PathBuf::from("n.sv")),
        _ => panic!("A should be defined as a macro"),
    }
    let copy = t.duplicate();
    t.remove(&a);
    assert!(!t.contains(&a));
    assert!(t.contains(&b));
    assert!(copy.contains(&a));
    t.clear();
    assert!(!t.contains(&b));
    assert!(t.get(&b).is_none());
}

#[test]
fn ifdef_keeps_the_first_branch_whose_condition_holds() {
    let mut t = MacroTable::new();
    t.insert("B".to_string(), None);
    let s = select_branches(&t, false, &"A".to_string(), &strings(&["B", "B"]), true);
    assert!(s.skip_if);
    assert_eq!(s.skip_elsif, vec![false, true]);
    assert!(s.skip_else);
    let s = select_branches(&t, false, &"B".to_string(), &strings(&["B"]), true);
    assert!(!s.skip_if);
    assert_eq!(s.skip_elsif, vec![true]);
    assert!(s.skip_else);
    let s = select_branches(&t, false, &"A".to_string(), &strings(&["C"]), true);
    assert!(s.skip_if);
    assert_eq!(s.skip_elsif, vec![true]);
    assert!(!s.skip_else);
}

#[test]
fn ifndef_keeps_its_body_when_the_name_is_undefined() {
    let t = MacroTable::new();
    let s = select_branches(&t, true, &"A".to_string(), &strings(&[]), true);
    assert!(!s.skip_if);
    assert!(s.skip_else);
    let mut t = MacroTable::new();
    t.insert("A".to_string(), None);
    let s = select_branches(&t, true, &"A".to_string(), &strings(&[]), false);
    assert!(s.skip_if);
    assert!(!s.skip_else);
}

#[test]
fn include_literals_lose_their_delimiters() {
    assert_eq!(include_file_name("\"test2.svh\"", false), "test2.svh");
    assert_eq!(include_file_name("<test2.svh>", true), "test2.svh");
    assert_eq!(include_file_name("\"\"", false), "");
    assert_eq!(include_file_name("<<a>>", true), "a");
}

/// Walks the events of a file laid out like `test1.sv`: a module
/// whose `ifdef behavioral` body is dropped unless `behavioral` is defined.
fn walk_test1(defines: MacroTable) -> PreprocessedText {
    let path = PathBuf::from("test1.sv");
    let mut pp = Preprocessor::new(path, defines);
    let head = &TEST1_TEXT[..48];
    pp.step(Event::Directive(Directive::SourceText { text: head.to_string(), range: Range::new(0, 48) }));
    let skips = match pp.step(Event::Directive(Directive::Conditional {
        negate: false,
        name: "behavioral".to_string(),
        elsif_names: vec![],
        has_else: true,
    })) {
        Action::Skip(s) => s,
        _ => panic!("a conditional asks which bodies to skip"),
    };
    pp.step(Event::EnterOther { marked: skips.skip_if });
    pp.step(Event::Directive(Directive::SourceText {
        text: "wire a = b & c;\n".to_string(),
        range: Range::new(70, 86),
    }));
    pp.step(Event::Leave { marked: skips.skip_if });
    pp.step(Event::EnterOther { marked: skips.skip_else });
    pp.step(Event::Directive(Directive::SourceText {
        text: "and a1 (a,b,c);\n".to_string(),
        range: Range::new(96, 112),
    }));
    pp.step(Event::Leave { marked: skips.skip_else });
    pp.step(Event::Directive(Directive::SourceText {
        text: "endmodule\n".to_string(),
        range: Range::new(119, 129),
    }));
    pp.finish()
}

#[test]
fn walk_without_define_keeps_the_else_branch() {
    let ret = walk_test1(MacroTable::new());
    assert_eq!(ret.text(), TEST1_TEXT);
    assert_eq!(ret.origin(10).unwrap().0, &PathBuf::from("test1.sv"));
    assert_eq!(ret.origin(10).unwrap().1, 10);
    assert_eq!(ret.origin(50).unwrap().1, 98);
    assert_eq!(ret.origin(70).unwrap().1, 125);
}

#[test]
fn walk_with_predefine_keeps_the_ifdef_branch() {
    let mut defines = MacroTable::new();
    defines.insert("behavioral".to_string(), None);
    let ret = walk_test1(defines);
    assert_eq!(
        ret.text(),
        "module and_op (a, b, c);\noutput a;\ninput b, c;\n\nwire a = b & c;\nendmodule\n"
    );
    assert_eq!(ret.origin(50).unwrap().1, 72);
}

#[test]
fn walk_expands_a_macro_defined_earlier() {
    let path = PathBuf::from("m.sv");
    let mut pp = Preprocessor::new(path.clone(), MacroTable::new());
    pp.step(Event::Directive(Directive::Define { name: "connect".to_string(), definition: connect_macro() }));
    assert!(pp.can_expand(&"connect".to_string(), &strings(&["a"])));
    pp.step(Event::Directive(Directive::MacroUse { name: "connect".to_string(), args: strings(&["a"]) }));
    pp.step(Event::Directive(Directive::Undefine("connect".to_string())));
    assert!(!pp.can_expand(&"connect".to_string(), &strings(&["a"])));
    let ret = pp.finish();
    assert_eq!(ret.text(), "assign a_0 = 1;\n");
    assert_eq!(ret.origin(0), Some((&path, 5)));
    assert_eq!(ret.origin(13), Some((&path, 18)));
    assert_eq!(ret.origin(15), Some((&path, 20)));
    assert_eq!(ret.origin(16), None);
}

#[test]
fn walk_hands_includes_to_the_caller_and_merges_them() {
    let main = PathBuf::from("test2.sv");
    let header = PathBuf::from("test2.svh");
    let mut pp = Preprocessor::new(main.clone(), MacroTable::new());
    pp.step(Event::Directive(Directive::SourceText { text: "module m;\n".to_string(), range: Range::new(0, 10) }));
    match pp.step(Event::Directive(Directive::Include { literal: "\"test2.svh\"".to_string(), angle: false })) {
        Action::Include(name) => assert_eq!(name, "test2.svh"),
        _ => panic!("an include is handed to the caller"),
    }
    let mut sub = Preprocessor::new(header.clone(), pp.defines().duplicate());
    sub.step(Event::Directive(Directive::SourceText { text: "wire w;\n".to_string(), range: Range::new(3, 11) }));
    pp.merge_include(sub.finish());
    pp.step(Event::Directive(Directive::SourceText { text: "endmodule\n".to_string(), range: Range::new(30, 40) }));
    let ret = pp.finish();
    assert_eq!(ret.text(), "module m;\nwire w;\nendmodule\n");
    assert_eq!(ret.origin(9), Some((&main, 9)));
    assert_eq!(ret.origin(10), Some((&header, 3)));
    assert_eq!(ret.origin(18), Some((&main, 30)));
}

#[test]
fn resetall_forgets_every_macro() {
    let mut pp = Preprocessor::new(PathBuf::from("r.sv"), MacroTable::new());
    pp.step(Event::Directive(Directive::Define { name: "A".to_string(), definition: connect_macro() }));
    assert!(pp.defines().contains(&"A".to_string()));
    pp.step(Event::Directive(Directive::Resetall));
    assert!(!pp.defines().contains(&"A".to_string()));
    pp.step(Event::Directive(Directive::Define { name: "A".to_string(), definition: connect_macro() }));
    pp.step(Event::Directive(Directive::Undefineall));
    assert!(!pp.defines().contains(&"A".to_string()));
}

#[test]
fn directives_inside_a_skipped_body_are_ignored() {
    let mut pp = Preprocessor::new(PathBuf::from("s.sv"), MacroTable::new());
    pp.step(Event::EnterOther { marked: true });
    assert!(pp.skipping());
    pp.step(Event::Directive(Directive::Define { name: "A".to_string(), definition: connect_macro() }));
    pp.step(Event::Directive(Directive::SourceText { text: "x".to_string(), range: Range::new(0, 1) }));
    pp.step(Event::EnterOther { marked: false });
    pp.step(Event::Leave { marked: false });
    assert!(pp.skipping());
    pp.step(Event::Leave { marked: true });
    assert!(!pp.skipping());
    assert!(!pp.defines().contains(&"A".to_string()));
    assert_eq!(pp.output().text(), "");
}

#[test]
fn pieces_and_last_run_rebuild_the_text() {
    for s in ["x+= y1", "ab", "a+b", "`define W 8", ""] {
        assert_eq!(split_text(s).concat(), s);
    }
}

#[test]
fn no_double_backtick_survives() {
    let out = remove_double_backticks("a`````b`` ``");
    assert_eq!(out, "a`b ");
    assert!(!out.contains("``"));
}

#[test]
fn one_run_body_expands_to_itself() {
    let d = MacroDefinition { params: vec![], body: Some(("8".to_string(), Range::new(10, 11))) };
    assert_eq!(d.expand(&strings(&[])), "8");
    let d = MacroDefinition { params: vec![], body: Some(("a;".to_string(), Range::new(0, 2))) };
    assert_eq!(d.expand(&strings(&[])), "a;");
}

/// Walks the events of a file laid out like `test3.sv`: a macro with a
/// defaulted argument, used twice in a module.
#[test]
fn walk_of_two_macro_uses_keeps_every_run_of_the_body() {
    let body = "\\\n  assign NAME``_``INDEX``__x = NAME[INDEX].x; \\\n  assign NAME``_``INDEX``__y = NAME[INDEX].y;";
    let definition = MacroDefinition {
        params: vec![
            ("NAME".to_string(), None),
            ("INDEX".to_string(), Some("0".to_string())),
        ],
        body: Some((body.to_string(), Range::new(36, 36 + body.len()))),
    };
    let mut pp = Preprocessor::new(PathBuf::from("test3.sv"), MacroTable::new());
    pp.step(Event::Directive(Directive::Define { name: "connect".to_string(), definition }));
    let mut pos = 150;
    let mut text = |pp: &mut Preprocessor, t: &str| {
        pp.step(Event::Directive(Directive::SourceText { text: t.to_string(), range: Range::new(pos, pos + t.len()) }));
        pos += t.len() + 20;
    };
    text(&mut pp, "\n\nmodule a ();\n\n  ");
    pp.step(Event::Directive(Directive::MacroUse { name: "connect".to_string(), args: strings(&["a"]) }));
    text(&mut pp, "\n  ");
    pp.step(Event::Directive(Directive::MacroUse { name: "connect".to_string(), args: strings(&["a", "1"]) }));
    text(&mut pp, "\n\nendmodule\n");
    let ret = pp.finish();
    assert_eq!(
        ret.text(),
        r##"

module a ();

  \
  assign a_0__x = a[0].x; \
  assign a_0__y = a[0].y;
  \
  assign a_1__x = a[1].x; \
  assign a_1__y = a[1].y;

endmodule
"##
    );
    let path = PathBuf::from("test3.sv");
    assert_eq!(ret.origin(17), Some((&path, 167)));
    assert_eq!(ret.origin(18), Some((&path, 36)));
}

#[test]
fn source_text_is_the_file_bytes_in_its_range() {
    let file = "module é;\nendmodule\n";
    match source_text(file, Range::new(7, 11)) {
        Directive::SourceText { text, range } => {
            assert_eq!(text, "é;\n");
            assert_eq!(range, Range::new(7, 11));
        }
        _ => panic!("a source-text directive"),
    }
    match source_text(file, Range::new(3, 3)) {
        Directive::SourceText { text, .. } => assert_eq!(text, ""),
        _ => panic!("a source-text directive"),
    }
}

#[test]
fn source_text_step_appends_the_file_bytes() {
    let file = "abcdefgh";
    let path = PathBuf::from("f.sv");
    let mut pp = Preprocessor::new(path.clone(), MacroTable::new());
    pp.step(Event::Directive(source_text(file, Range::new(2, 5))));
    pp.step(Event::Directive(source_text(file, Range::new(6, 8))));
    let ret = pp.finish();
    assert_eq!(ret.text(), "cdegh");
    for pos in 0..ret.text().len() {
        let (p, q) = ret.origin(pos).unwrap();
        assert_eq!(p, &path);
        assert_eq!(ret.text().as_bytes()[pos], file.as_bytes()[q]);
    }
}

#[test]
fn include_is_looked_up_in_the_first_directory_that_has_it() {
    assert_eq!(include_dir_choice(true, false, &vec![false, true, true]), Some(1));
    assert_eq!(include_dir_choice(true, false, &vec![false, false]), None);
    assert_eq!(include_dir_choice(true, true, &vec![true]), None);
    assert_eq!(include_dir_choice(false, false, &vec![true]), None);
}
