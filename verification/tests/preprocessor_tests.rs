//! Behaviour of the compiler's preprocessor and code generation.

use objj::compiler::{compile, CompileOptions, MacroValue};
use objj::lexer::Lexer;

fn code_of(source: &str) -> String {
    compile(source, &CompileOptions::default()).expect("compiles").code
}

fn error_of(source: &str) -> String {
    match compile(source, &CompileOptions::default()) {
        Ok(_) => panic!("expected an error"),
        Err(e) => e,
    }
}

#[test]
fn plain_code_is_copied_exactly() {
    let source = "var a = 1 + 2; // note\nfoo(bar, \"x\");";
    assert_eq!(code_of(source), format!("{}\n", source));
}

#[test]
fn lexer_tokens_join_back_to_the_source() {
    let source = "var x = 'a\\'b' + 1.5e3; /* c */ y";
    let lexer = Lexer::new(source);
    let joined: String = lexer.token_texts().concat();
    assert_eq!(joined, format!("{}\n", source));
    assert!(lexer.token_texts().iter().all(|t| !t.is_empty()));
}

#[test]
fn shebang_line_becomes_a_comment() {
    assert_eq!(code_of("#!/usr/bin/env objj\nvar x;"), "///usr/bin/env objj\nvar x;\n");
}

#[test]
fn function_macro_substitutes_arguments() {
    let code = code_of("#define ADD(a, b) ((a) + (b))\nvar x = ADD(1, 2);\n");
    assert!(code.contains("var x = ((1) + (2));"), "{}", code);
    let result = compile("#define ADD(a, b) ((a) + (b))\n", &CompileOptions::default()).unwrap();
    match result.defines.get("ADD") {
        Some(MacroValue::Func { params, body }) => {
            assert_eq!(params, &vec!["a".to_string(), "b".to_string()]);
            assert_eq!(body, "((a) + (b))");
        }
        _ => panic!("ADD should be a function macro"),
    }
}

#[test]
fn define_without_value_is_a_flag() {
    let result = compile("#define ON\n", &CompileOptions::default()).unwrap();
    assert!(matches!(result.defines.get("ON"), Some(MacroValue::Flag(true))));
}

#[test]
fn continued_define_joins_lines() {
    let result = compile("#define LONG 1 + \\\n 2\nvar x = LONG;\n", &CompileOptions::default()).unwrap();
    match result.defines.get("LONG") {
        Some(MacroValue::Str(v)) => assert_eq!(v, "1 +  2"),
        _ => panic!("LONG should be a text macro"),
    }
}

#[test]
fn undef_removes_a_macro() {
    let result = compile("#define A 1\n#undef A\nvar x = A;\n", &CompileOptions::default()).unwrap();
    assert!(result.code.contains("var x = A;"));
    assert!(!result.defines.contains_key("A"));
}

#[test]
fn ifdef_and_ifndef_select_branches() {
    let code = code_of("#define X\n#ifdef X\na();\n#endif\n#ifndef X\nb();\n#endif\n");
    assert!(code.contains("a();"));
    assert!(!code.contains("b();"));
}

#[test]
fn elif_takes_the_first_true_branch() {
    let code = code_of("#if 0\nfirst();\n#elif 1\nsecond();\n#elif 1\nthird();\n#else\nfourth();\n#endif\n");
    assert!(code.contains("second();"));
    assert!(!code.contains("first();"));
    assert!(!code.contains("third();"));
    assert!(!code.contains("fourth();"));
}

#[test]
fn nested_conditionals_follow_the_outer_branch() {
    let code = code_of("#if 0\n#if 1\ninner();\n#endif\n#else\nouter();\n#endif\n");
    assert!(!code.contains("inner();"));
    assert!(code.contains("outer();"));
}

#[test]
fn condition_arithmetic_and_logic() {
    let code = code_of("#if (2 + 3) * 4 == 20 && !0 && 7 % 4 == 3 || 0\nyes();\n#endif\n");
    assert!(code.contains("yes();"), "{}", code);
    let code = code_of("#if 10 - 2 * 3 > 4\nno();\n#endif\n");
    assert!(!code.contains("no();"));
}

#[test]
fn defined_operator_in_conditions() {
    let code = code_of("#define F\n#if defined(F) && !defined G\nyes();\n#endif\n");
    assert!(code.contains("yes();"));
}

#[test]
fn macro_values_take_part_in_conditions() {
    let code = code_of("#define LEVEL 3\n#if LEVEL >= 2 && true\nyes();\n#endif\n");
    assert!(code.contains("yes();"));
}

#[test]
fn unevaluable_condition_is_false() {
    let code = code_of("#if \"text\"\nno();\n#else\nfallback();\n#endif\n");
    assert!(!code.contains("no();"));
    assert!(code.contains("fallback();"));
}

#[test]
fn stray_elif_is_refused() {
    assert_eq!(error_of("#elif 1\n"), "*** #elif without matching #if <File: (anonymous)>");
}

#[test]
fn stray_else_is_refused() {
    assert_eq!(error_of("#else\n"), "*** #else without matching #if <File: (anonymous)>");
}

#[test]
fn stray_endif_is_refused() {
    assert_eq!(error_of("#endif\n"), "*** #endif without matching #if <File: (anonymous)>");
}

#[test]
fn second_else_is_refused() {
    assert!(error_of("#if 1\n#else\n#else\n#endif\n").starts_with("*** Duplicate #else"));
}

#[test]
fn elif_after_else_is_refused() {
    assert!(error_of("#if 1\n#elif 1\n#else\n#elif 1\n#endif\n").starts_with("*** #elif after #else"));
}

#[test]
fn unknown_directive_is_refused() {
    assert!(error_of("#foo\n").starts_with("*** Unknown preprocessor directive: #foo"));
}

#[test]
fn missing_endif_is_refused() {
    assert!(error_of("#if 0\nx();\n").starts_with("*** Unterminated conditional: missing #endif"));
}

#[test]
fn invalid_macro_name_is_refused() {
    assert!(error_of("#define 1x 2\n").starts_with("*** Invalid macro name: 1x"));
}

#[test]
fn invalid_macro_parameter_is_refused() {
    assert!(error_of("#define F(a, 2) a\n").starts_with("*** Invalid macro parameter: 2"));
}

#[test]
fn unterminated_macro_arguments_are_refused() {
    assert!(error_of("#define F(a) a\nF(1, 2\n").starts_with("*** Unterminated macro arguments"));
}

#[test]
fn source_url_appears_in_errors() {
    let opts = CompileOptions { source_url: "Foo.j".to_string(), ..CompileOptions::default() };
    let e = compile("#endif\n", &opts).err().unwrap();
    assert_eq!(e, "*** #endif without matching #if <File: Foo.j>");
}

#[test]
fn array_literal_is_kept() {
    assert!(code_of("var a = [1, 2];").contains("var a = [1, 2];"));
}

#[test]
fn message_send_with_arguments() {
    let code = code_of("[obj doThing:1 with:2];");
    assert!(code.contains("objj_msgSend(obj, \"doThing:with:\", 1, 2);"), "{}", code);
}

#[test]
fn nested_message_sends() {
    let code = code_of("[[Foo alloc] init];");
    assert!(code.contains("objj_msgSend(objj_msgSend(Foo, \"alloc\"), \"init\");"), "{}", code);
}

#[test]
fn unterminated_message_send_is_refused() {
    assert!(error_of("[a foo").starts_with("*** Expected ']' - Unterminated message send or array."));
}

#[test]
fn super_sends_name_the_superclass() {
    let code = code_of("@implementation A : B\n- (id)init { return [super init]; }\n+ (id)make { return [super new]; }\n@end\n");
    assert!(code.contains("objj_msgSendSuper({ receiver:self, super_class:objj_getClass(\"A\").super_class }, \"init\")"), "{}", code);
    assert!(code.contains("objj_msgSendSuper({ receiver:self, super_class:objj_getMetaClass(\"A\").super_class }, \"new\")"), "{}", code);
    assert!(code.contains("class_addMethods(meta_class, ["));
}

#[test]
fn instance_variables_are_reached_through_self() {
    let code = code_of("@implementation A\n{\n    int count;\n}\n- (int)get { return count; }\n- (void)set:(int)count { x = count; }\n@end\n");
    assert!(code.contains("return self.count;"), "{}", code);
    assert!(code.contains("x = count;"), "{}", code);
    assert!(code.contains("class_addIvars(the_class, [new objj_ivar(\"count\")]);"), "{}", code);
}

#[test]
fn accessors_generate_getter_and_setter() {
    let code = code_of("@implementation A\n{\n    id name @accessors;\n}\n@end\n");
    assert!(code.contains("sel_getUid(\"name\")"), "{}", code);
    assert!(code.contains("sel_getUid(\"setName:\")"), "{}", code);
    assert!(code.contains("self.name = newValue;"), "{}", code);
}

#[test]
fn readonly_property_accessor_has_no_setter() {
    let code = code_of("@implementation A\n{\n    id _title @accessors(property=title, readonly);\n}\n@end\n");
    assert!(code.contains("sel_getUid(\"title\")"), "{}", code);
    assert!(!code.contains("setTitle:"), "{}", code);
    assert!(code.contains("return self._title;"), "{}", code);
}

#[test]
fn copy_accessor_copies_the_new_value() {
    let code = code_of("@implementation A\n{\n    id x @accessors(copy);\n}\n@end\n");
    assert!(code.contains("objj_msgSend(newValue, \"copy\")"), "{}", code);
}

#[test]
fn setter_attribute_needs_a_colon() {
    let e = error_of("@implementation A\n{\n    id x @accessors(setter=put);\n}\n@end\n");
    assert!(e.starts_with("*** @accessors setter attribute requires \":\" at end."), "{}", e);
}

#[test]
fn selector_directive_becomes_sel_get_uid() {
    assert!(code_of("var s = @selector(doThing:with:);").contains("var s = sel_getUid(\"doThing:with:\");"));
}

#[test]
fn selector_errors() {
    assert!(error_of("@selector(a b)").starts_with("*** Unexpected whitespace in @selector()."));
    assert!(error_of("@selector()").starts_with("*** Unexpected ')', can't have empty @selector()"));
    assert!(error_of("@selector x").starts_with("*** Expected '('"));
    assert!(error_of("@selector(a!)").starts_with("*** Illegal character '!' in @selector()."));
}

#[test]
fn import_errors() {
    assert!(error_of("@import foo").starts_with("*** Expecting '<' or '\"', found \"foo\"."));
    assert!(error_of("@import <Foo.j").starts_with("*** Unterminated import statement."));
}

#[test]
fn category_extends_an_existing_class() {
    let code = code_of("@implementation Foo (Bar)\n- (void)x { }\n@end\n");
    assert!(code.contains("var the_class = objj_getClass(\"Foo\")"), "{}", code);
    assert!(code.contains("throw new SyntaxError(\"*** Could not find class \\\"Foo\\\"\");"), "{}", code);
}

#[test]
fn empty_category_is_refused() {
    assert!(error_of("@implementation Foo ()\n@end\n").starts_with("*** Can't have empty category name."));
}

#[test]
fn missing_semicolon_in_ivars_is_refused() {
    assert!(error_of("@implementation Foo\n{\n    int a\n}\n@end\n").starts_with("*** Expected ';' in ivar declaration."));
}

#[test]
fn bad_end_is_refused() {
    assert!(error_of("@implementation Foo\n@foo\n").starts_with("*** Expected \"@end\", found \"@foo\"."));
}

#[test]
fn debug_symbols_name_method_functions() {
    let opts = CompileOptions { include_debug_symbols: true, ..CompileOptions::default() };
    let code = compile("@implementation Foo\n- (void)doIt:(int)a { }\n@end\n", &opts).unwrap().code;
    assert!(code.contains("function $Foo__doIt_(self, _cmd, a)"), "{}", code);
    assert!(code.contains(",[\"void\",\"int\"])"), "{}", code);
}

#[test]
fn type_signatures_describe_ivars() {
    let opts = CompileOptions { include_type_signatures: true, ..CompileOptions::default() };
    let code = compile("@implementation Foo\n{\n    unsigned int _count;\n}\n@end\n", &opts).unwrap().code;
    assert!(code.contains("new objj_ivar(\"_count\", \"unsigned int\")"), "{}", code);
}

#[test]
fn named_functions_become_variables() {
    assert!(code_of("function foo(a) {}").contains("var foo = function(a) {}"));
    assert!(code_of("var f = function (x) {};").contains("var f = function (x) {};"));
}

#[test]
fn class_directive_is_dropped() {
    assert_eq!(code_of("@class Foo;"), ";\n");
}

#[test]
fn string_directive_is_kept() {
    assert!(code_of("var s = @\"hello\";").contains("var s = \"hello\";"));
}

#[test]
fn predefined_macros_are_used() {
    let mut opts = CompileOptions::default();
    opts.defines.insert("WIDTH".to_string(), MacroValue::Str("80".to_string()));
    let code = compile("var w = WIDTH;\n", &opts).unwrap().code;
    assert!(code.contains("var w = 80;"));
}

#[test]
fn predefined_classes_lend_their_ivars() {
    let mut opts = CompileOptions::default();
    opts.classes.insert(
        "Base".to_string(),
        objj::compiler::ClassInfo { super_class_name: None, ivars: vec!["shared".to_string()] },
    );
    let code = compile("@implementation Sub : Base\n{\n    int own;\n}\n- (id)f { return shared + own; }\n@end\n", &opts)
        .unwrap()
        .code;
    assert!(code.contains("return self.shared + self.own;"), "{}", code);
}

#[test]
fn shift_operators_are_not_understood() {
    let code = code_of("#if (1 << 0) == 1\nno();\n#endif\n");
    assert!(!code.contains("no();"));
}

#[test]
fn unicode_letters_belong_to_words() {
    let code = code_of("#define aé 3\nvar x = aé;\n");
    assert!(code.contains("var x = 3;"), "{}", code);
}

#[test]
fn unicode_spaces_separate_condition_terms() {
    let code = code_of("#if 1\u{2003}+\u{2003}1 == 2\nyes();\n#endif\n");
    assert!(code.contains("yes();"), "{}", code);
}

#[test]
fn conditions_compute_with_fractions() {
    let code = code_of("#define VERSION 1.5\n#if VERSION > 1.25 && 7 / 2 == 3.5 && 1 / 2 && 5.5 % 2 == 1.5 && ~0 == -1 && (6 | 1) == 7\nyes();\n#endif\n");
    assert!(code.contains("yes();"), "{}", code);
}

#[test]
fn malformed_numbers_make_conditions_false() {
    let code = code_of("#if 1.2.3\nno();\n#endif\n");
    assert!(!code.contains("no();"));
}
