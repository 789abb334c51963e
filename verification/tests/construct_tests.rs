//! What the compiler makes of single constructs, and where it stops.

use objj::assembler::{AssembleOptions, AssembleReply, AssembleStep, Assembler};
use objj::compiler::{compile, ClassInfo, ClassTable, CompileOptions, MacroTable, MacroValue};
use objj::paths::normalize;

fn code_of(source: &str) -> String {
    compile(source, &CompileOptions::default()).expect("compilation should succeed").code
}

fn error_of(source: &str) -> String {
    match compile(source, &CompileOptions::default()) {
        Ok(_) => panic!("compilation should fail"),
        Err(e) => e,
    }
}

#[test]
fn selector_becomes_sel_get_uid() {
    let code = code_of("var s = @selector(foo:bar:);\n");
    assert!(code.contains("var s = sel_getUid(\"foo:bar:\");"), "{}", code);
}

#[test]
fn selector_without_parenthesis_fails_in_the_file() {
    let e = error_of("var s = @selector foo;\n");
    assert!(e.starts_with("*** Expected '('"), "{}", e);
    assert!(e.contains(" <File: (anonymous)"), "{}", e);
}

#[test]
fn empty_selector_fails() {
    let e = error_of("var s = @selector();\n");
    assert!(e.contains("can't have empty @selector()"), "{}", e);
}

#[test]
fn empty_class_is_created_and_registered() {
    let code = code_of("@implementation Foo @end\n");
    assert!(
        code.contains("{var the_class = objj_allocateClassPair(Nil, \"Foo\"),\nmeta_class = the_class.isa;objj_registerClassPair(the_class);\n}"),
        "{}",
        code
    );
}

#[test]
fn class_name_must_start_with_a_word_character() {
    let e = error_of("@implementation +Foo @end\n");
    assert!(e.starts_with("*** Expected class name, found \"+\"."), "{}", e);
}

#[test]
fn empty_brackets_are_an_empty_array() {
    let code = code_of("var a = [];\n");
    assert!(code.contains("var a = [];"), "{}", code);
}

#[test]
fn method_with_empty_body() {
    let code = code_of("@implementation Foo\n- (int)count:(int)x {}\n@end\n");
    assert!(
        code.contains("new objj_method(sel_getUid(\"count:\"), function(self, _cmd, x)\n{\n})"),
        "{}",
        code
    );
}

#[test]
fn comma_in_method_header_needs_an_ellipsis() {
    let e = error_of("@implementation Foo\n- (void)log:(id)f, x {}\n@end\n");
    assert!(e.starts_with("*** Argument list expected after ','."), "{}", e);
}

#[test]
fn accessor_getter_is_named_by_its_attribute() {
    let code = code_of("@implementation Foo\n{\n    id x @accessors(getter=theX);\n}\n@end\n");
    assert!(code.contains("sel_getUid(\"theX\")"), "{}", code);
    assert!(code.contains("sel_getUid(\"setX:\")"), "{}", code);
}

#[test]
fn setter_value_without_colon_fails() {
    let e = error_of("@implementation Foo\n{\n    id x @accessors(setter=putX);\n}\n@end\n");
    assert!(e.contains("setter attribute requires"), "{}", e);
}

#[test]
fn import_needs_a_quoted_or_bracketed_url() {
    let e = error_of("@import Foo.j\n");
    assert!(e.starts_with("*** Expecting '<' or '\"', found \"Foo\"."), "{}", e);
}

#[test]
fn unterminated_angle_import_fails() {
    let e = error_of("@import <Foo.j\n");
    assert!(e.starts_with("*** Unterminated import statement."), "{}", e);
}

#[test]
fn undef_leaves_the_name_unexpanded() {
    let code = code_of("#define N 1\n#undef N\nvar x = N;\n");
    assert!(code.contains("var x = N;"), "{}", code);
}

#[test]
fn ifdef_keeps_a_defined_branch() {
    let code = code_of("#define A\n#ifdef A\nvar on = 1;\n#endif\n");
    assert!(code.contains("var on = 1;"), "{}", code);
}

#[test]
fn ifndef_skips_a_defined_branch() {
    let code = code_of("#define A\n#ifndef A\nvar off = 1;\n#endif\nvar after = 2;\n");
    assert!(!code.contains("var off = 1;"), "{}", code);
    assert!(code.contains("var after = 2;"), "{}", code);
}

#[test]
fn missing_endif_ends_compiling() {
    let e = error_of("#if 0\nvar x = 1;\n");
    assert!(e.starts_with("*** Unterminated conditional: missing #endif"), "{}", e);
}

#[test]
fn macro_name_starting_with_a_digit_fails() {
    let e = error_of("#define 1A 2\n");
    assert!(e.starts_with("*** Invalid macro name: "), "{}", e);
}

#[test]
fn compile_errors_name_the_source_url() {
    let mut opts = CompileOptions::default();
    opts.source_url = "Foo.j".to_string();
    let e = match compile("#bogus\n", &opts) {
        Ok(_) => panic!("compilation should fail"),
        Err(e) => e,
    };
    assert!(e.contains(" <File: Foo.j>"), "{}", e);
}

#[test]
fn assembling_first_reads_the_main_file() {
    let mut a = Assembler::new(AssembleOptions::new("/p".to_string()));
    match a.assemble("src/../main.j") {
        AssembleStep::Read(p) => assert_eq!(p, "/p/main.j"),
        _ => panic!("the main file should be read first"),
    }
}

#[test]
fn a_file_that_does_not_compile_ends_assembling() {
    let mut a = Assembler::new(AssembleOptions::new("/p".to_string()));
    let _ = a.assemble("main.j");
    match a.answer(AssembleReply::Text("#bogus\n".to_string())) {
        AssembleStep::Done(Err(e)) => assert!(e.starts_with("Failed to compile \"/p/main.j\": "), "{}", e),
        _ => panic!("assembling should fail"),
    }
}

#[test]
fn a_quoted_import_is_looked_for_next_to_its_importer() {
    let mut a = Assembler::new(AssembleOptions::new("/p".to_string()));
    let _ = a.assemble("lib/main.j");
    match a.answer(AssembleReply::Text("@import \"Foo.j\"\n".to_string())) {
        AssembleStep::Exists(p) => assert_eq!(p, "/p/lib/Foo.j"),
        _ => panic!("the import should be looked for"),
    }
}

#[test]
fn a_framework_import_asks_for_the_shared_directory() {
    let mut a = Assembler::new(AssembleOptions::new("/p".to_string()));
    let _ = a.assemble("main.j");
    let step = a.answer(AssembleReply::Text("@import <AppKit/AppKit.j>\n".to_string()));
    assert!(matches!(step, AssembleStep::SharedFrameworks));
}

#[test]
fn debug_types_are_written_as_json_strings() {
    let opts = CompileOptions { include_debug_symbols: true, ..CompileOptions::default() };
    let code = compile("@implementation Foo\n- (a\u{1}b)doIt { }\n@end\n", &opts).unwrap().code;
    assert!(code.contains("[\"a\\u0001b\"]"), "{}", code);
}

#[test]
fn false_if_takes_the_else_branch() {
    let code = code_of("#if 1 - 1\nvar a = 1;\n#else\nvar b = 2;\n#endif\nvar c = 3;\n");
    assert!(!code.contains("var a = 1;"), "{}", code);
    assert!(code.contains("var b = 2;"), "{}", code);
    assert!(code.contains("var c = 3;"), "{}", code);
}

#[test]
fn false_if_without_else_drops_its_branch() {
    let code = code_of("#if 0\nvar a = 1;\n#endif\nvar c = 3;\n");
    assert!(!code.contains("var a = 1;"), "{}", code);
    assert!(code.contains("var c = 3;"), "{}", code);
}

#[test]
fn define_value_is_the_trimmed_rest_of_the_line() {
    let r = compile("#define GREETING   hello  world  \nvar g = GREETING;\n", &CompileOptions::default()).unwrap();
    assert!(r.code.contains("var g = hello  world;"), "{}", r.code);
}

#[test]
fn function_macro_arguments_split_at_outer_commas() {
    let code = code_of("#define PAIR(a, b) (a) * (b)\nvar p = PAIR(f(1, 2), 3);\n");
    assert!(code.contains("var p = (f(1, 2)) * (3);"), "{}", code);
}

#[test]
fn function_macro_name_without_arguments_is_left_alone() {
    let code = code_of("#define TWICE(a) a a\nvar t = TWICE;\n");
    assert!(code.contains("var t = TWICE;"), "{}", code);
}

#[test]
fn unknown_directive_message_is_exact() {
    assert_eq!(error_of("#frobnicate\n"), "*** Unknown preprocessor directive: #frobnicate <File: (anonymous)>");
}

#[test]
fn duplicate_else_message_is_exact() {
    assert_eq!(error_of("#if 1\n#else\n#else\n#endif\n"), "*** Duplicate #else <File: (anonymous)>");
}

#[test]
fn import_of_a_bare_word_names_what_was_found() {
    assert_eq!(error_of("@import foo\n"), "*** Expecting '<' or '\"', found \"foo\". <File: (anonymous)>");
}

#[test]
fn selector_without_parenthesis_message_is_exact() {
    assert_eq!(error_of("var s = @selector foo;\n"), "*** Expected '(' <File: (anonymous)>");
}

#[test]
fn plain_code_keeps_the_given_classes() {
    let mut opts = CompileOptions::default();
    opts.classes.insert(
        "Base".to_string(),
        objj::compiler::ClassInfo { super_class_name: None, ivars: vec!["shared".to_string()] },
    );
    let result = compile("var x = 1;\n@import \"a.j\"\n", &opts).unwrap();
    assert!(result.classes.contains_key("Base"));
    assert_eq!(result.classes.len(), 1);
}

#[test]
fn class_with_ivars_inside_a_category_free_file_is_known() {
    let result = compile("@implementation Point : Base\n{\n    int x;\n}\n- (int)x { return x; }\n@end\n", &CompileOptions::default()).unwrap();
    assert!(result.classes.contains_key("Point"));
}

#[test]
fn plain_method_body_is_copied() {
    let code = code_of("@implementation Foo\n- (int)sum { return 1 + 2; }\n@end\n");
    assert!(code.contains("function(self, _cmd)\n{ return 1 + 2; \n})"), "{}", code);
}

#[test]
fn shebang_line_is_kept_as_a_comment() {
    assert_eq!(code_of("#!/bin/objj\nvar x = 1;\n"), "///bin/objj\nvar x = 1;\n\n");
}

#[test]
fn failing_ifdef_takes_the_else_branch() {
    let code = code_of("#ifdef NOPE\nvar a = 1;\n#else\nvar b = 2;\n#endif\n");
    assert!(!code.contains("var a = 1;"), "{}", code);
    assert!(code.contains("var b = 2;"), "{}", code);
}

#[test]
fn false_if_takes_a_true_elif() {
    let code = code_of("#if 0\nvar a = 1;\n#elif 2 > 1\nvar b = 2;\n#else\nvar c = 3;\n#endif\n");
    assert!(!code.contains("var a = 1;"), "{}", code);
    assert!(code.contains("var b = 2;"), "{}", code);
    assert!(!code.contains("var c = 3;"), "{}", code);
}

#[test]
fn class_table_insert_replaces_the_stored_info() {
    let mut t = ClassTable::new();
    t.insert("A".to_string(), ClassInfo { super_class_name: None, ivars: vec!["x".to_string()] });
    t.insert("B".to_string(), ClassInfo { super_class_name: Some("A".to_string()), ivars: vec![] });
    t.insert("A".to_string(), ClassInfo { super_class_name: Some("Root".to_string()), ivars: vec![] });
    assert_eq!(t.len(), 2);
    let a = t.get("A").expect("A is known");
    assert_eq!(a.super_class_name.as_deref(), Some("Root"));
    assert!(a.ivars.is_empty());
    let b = t.get("B").expect("B is known");
    assert_eq!(b.super_class_name.as_deref(), Some("A"));
}

#[test]
fn macro_table_copy_keeps_the_values() {
    let mut t = MacroTable::new();
    t.insert("A".to_string(), MacroValue::Str("1".to_string()));
    t.insert("F".to_string(), MacroValue::Func { params: vec!["x".to_string()], body: "x+1".to_string() });
    let c = t.copy();
    assert_eq!(c.len(), 2);
    assert!(matches!(c.get("A"), Some(MacroValue::Str(v)) if v == "1"));
    match c.get("F") {
        Some(MacroValue::Func { params, body }) => {
            assert_eq!(params, &vec!["x".to_string()]);
            assert_eq!(body, "x+1");
        }
        other => panic!("unexpected {:?}", other),
    }
}

#[test]
fn normalizing_twice_changes_nothing() {
    for p in ["/a/./b/../c//d", "a/../../b/./", "./x/y/..", "/../a", ""] {
        let once = normalize(p);
        assert_eq!(normalize(&once), once, "{}", p);
        assert!(!once.split('/').any(|c| c == "." || c == ".."), "{}", once);
    }
}

#[test]
fn define_with_invalid_name_fails() {
    assert_eq!(error_of("#define 1x\n"), "*** Invalid macro name: 1x <File: (anonymous)>");
}

#[test]
fn define_with_invalid_parameter_fails() {
    assert_eq!(error_of("#define F(a; b) x\n"), "*** Invalid macro parameter: ; <File: (anonymous)>");
}

#[test]
fn define_with_unterminated_parameters_fails() {
    assert_eq!(error_of("#define F(a"), "*** Unterminated macro parameter list <File: (anonymous)>");
}

#[test]
fn subclass_pair_names_its_superclass() {
    let code = code_of("@implementation A : B\n@end\n");
    assert!(code.contains("objj_allocateClassPair(B, \"A\")"), "{}", code);
    assert!(code.contains("objj_registerClassPair(the_class);"), "{}", code);
}

#[test]
fn function_declaration_becomes_assigned_expression() {
    let code = code_of("function foo(a) {}\n");
    assert!(code.contains("var foo = function(a) {}"), "{}", code);
}

#[test]
fn given_classes_come_back_unchanged() {
    let mut opts = CompileOptions::default();
    opts.classes.insert("Base".to_string(), ClassInfo { super_class_name: None, ivars: vec!["shared".to_string()] });
    let r = compile("var x = 1;\n", &opts).expect("plain code compiles");
    let base = r.classes.get("Base").expect("Base stays known");
    assert_eq!(base.ivars, vec!["shared".to_string()]);
    assert!(base.super_class_name.is_none());
}

#[test]
fn empty_category_name_fails() {
    assert_eq!(
        error_of("@implementation Foo () @end\n"),
        "*** Can't have empty category name. <File: (anonymous) Class: Foo>"
    );
}

#[test]
fn unclosed_category_fails() {
    assert_eq!(
        error_of("@implementation Foo (Bar @end\n"),
        "*** Improper category definition. <File: (anonymous) Class: Foo>"
    );
}

#[test]
fn superclass_must_be_a_name() {
    assert_eq!(
        error_of("@implementation Foo : + @end\n"),
        "*** Expected class name, found \"+\". <File: (anonymous) Class: Foo>"
    );
}

#[test]
fn class_name_must_be_a_word() {
    assert_eq!(
        error_of("@implementation + @end\n"),
        "*** Expected class name, found \"+\". <File: (anonymous)>"
    );
}

#[test]
fn defined_text_replaces_later_names() {
    let r = compile("#define N 7\nvar a = N + N;\n", &CompileOptions::default()).expect("compiles");
    assert!(r.code.contains("var a = 7 + 7;"), "{}", r.code);
    assert!(matches!(r.defines.get("N"), Some(MacroValue::Str(v)) if v == "7"));
}

#[test]
fn ivar_only_class_is_recorded_with_its_names_once() {
    let r = compile("@implementation Foo : Bar\n{\n    int _count;\n    id _x;\n    int _count;\n}\n@end\n", &CompileOptions::default())
        .expect("compiles");
    let foo = r.classes.get("Foo").expect("Foo is recorded");
    assert_eq!(foo.super_class_name.as_deref(), Some("Bar"));
    assert_eq!(foo.ivars, vec!["_count".to_string(), "_x".to_string()]);
}

#[test]
fn given_macros_are_expanded() {
    let mut opts = CompileOptions::default();
    opts.defines.insert("N".to_string(), MacroValue::Str("5".to_string()));
    let r = compile("var a = N;\n", &opts).expect("compiles");
    assert_eq!(r.code, "var a = 5;\n\n");
    assert!(matches!(r.defines.get("N"), Some(MacroValue::Str(v)) if v == "5"));
}
