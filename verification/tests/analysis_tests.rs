//! The method reachability analysis on compiled code.

use objj::analyzer::{AnalyzerOptions, CompiledEntry, MethodReachabilityAnalyzer};
use objj::compiler::{compile, CompileOptions};
use objj::tables::{MacroTable, NameSet};
use objj::compiler::MacroValue;

fn entry(path: &str, source: &str) -> CompiledEntry {
    CompiledEntry {
        path: path.to_string(),
        source: source.to_string(),
        code: compile(source, &CompileOptions::default()).expect("compile").code,
    }
}

#[test]
fn sends_are_followed_through_method_bodies() {
    let entries = vec![entry(
        "A.j",
        "@implementation A\n- (void)foo { [self bar]; }\n- (void)bar { }\n- (void)baz { }\n@end\n\
         function main() {\n    [A foo];\n}\n",
    )];
    let mut analyzer = MethodReachabilityAnalyzer::new(&entries, AnalyzerOptions::default());
    let result = analyzer.analyze("main");
    assert!(result.reachable_selectors.contains("foo"));
    assert!(result.reachable_selectors.contains("bar"));
    assert!(!result.reachable_selectors.contains("baz"));
    assert_eq!(result.stats.total_methods, 3);
    assert_eq!(result.stats.reachable_methods, 2);
}

#[test]
fn entry_point_may_be_a_function_variable() {
    let entries = vec![CompiledEntry {
        path: "m.js".to_string(),
        source: String::new(),
        code: "var start = function() {\n    objj_msgSend(x, \"go\");\n}\n".to_string(),
    }];
    let mut analyzer = MethodReachabilityAnalyzer::new(&entries, AnalyzerOptions::default());
    let result = analyzer.analyze("start");
    assert!(result.reachable_selectors.contains("go"));
}

#[test]
fn key_value_coding_keys_and_setters_are_kept() {
    let entries = vec![CompiledEntry {
        path: "k.js".to_string(),
        source: "@implementation K\n{\n    id owner @accessors;\n}\n@end\n".to_string(),
        code: "objj_msgSend(x, \"valueForKey:\", \"title\");\nobjj_msgSend(x, \"valueForKeyPath:\", \"a.@count.b\");".to_string(),
    }];
    let mut analyzer = MethodReachabilityAnalyzer::new(&entries, AnalyzerOptions::default());
    let result = analyzer.analyze("main");
    for key in ["title", "setTitle:", "a", "setA:", "b", "setB:", "owner", "setOwner:"] {
        assert!(result.reachable_selectors.contains(key), "{} should be kept", key);
    }
    assert!(!result.reachable_selectors.contains("@count"));
    assert_eq!(result.stats.kvc_keys, 4);
}

#[test]
fn kvc_keys_are_not_kept_when_not_asked() {
    let entries = vec![CompiledEntry {
        path: "k.js".to_string(),
        source: String::new(),
        code: "objj_msgSend(x, \"valueForKey:\", \"title\");".to_string(),
    }];
    let opts = AnalyzerOptions { preserve_kvc: false, ..AnalyzerOptions::default() };
    let mut analyzer = MethodReachabilityAnalyzer::new(&entries, opts);
    let result = analyzer.analyze("main");
    assert!(!result.reachable_selectors.contains("title"));
    assert_eq!(result.stats.kvc_keys, 1);
}

#[test]
fn computed_selectors_mark_their_class() {
    let entries = vec![CompiledEntry {
        path: "d.js".to_string(),
        source: String::new(),
        code: "{var the_class = objj_allocateClassPair(Nil, \"Dyn\"),\nmeta_class = the_class.isa;\nobjj_msgSend(self, aSelector);\n}".to_string(),
    }];
    let mut analyzer = MethodReachabilityAnalyzer::new(&entries, AnalyzerOptions::default());
    let result = analyzer.analyze("main");
    assert!(result.dynamic_classes.contains("Dyn"));
    assert_eq!(result.stats.dynamic_classes, 1);
}

#[test]
fn selector_variables_mark_the_file_classes() {
    let entries = vec![CompiledEntry {
        path: "v.js".to_string(),
        source: String::new(),
        code: "var the_class = objj_getClass(\"Cat\")\nvar s = sel_getUid(\"meow\");\nobjj_msgSend(cat, s);".to_string(),
    }];
    let mut analyzer = MethodReachabilityAnalyzer::new(&entries, AnalyzerOptions::default());
    let result = analyzer.analyze("main");
    assert!(result.dynamic_classes.contains("Cat"));
}

#[test]
fn macro_table_gives_back_what_was_stored() {
    let mut t = MacroTable::new();
    t.insert("A".to_string(), MacroValue::Str("1".to_string()));
    t.insert("B".to_string(), MacroValue::Flag(true));
    t.insert("A".to_string(), MacroValue::Str("2".to_string()));
    assert_eq!(t.len(), 2);
    assert!(matches!(t.get("A"), Some(MacroValue::Str(v)) if v == "2"));
    assert!(matches!(t.get("B"), Some(MacroValue::Flag(true))));
    assert!(t.get("C").is_none());
}

#[test]
fn name_set_holds_each_name_once() {
    let mut s = NameSet::new();
    s.insert("x".to_string());
    s.insert("y".to_string());
    s.insert("x".to_string());
    assert_eq!(s.len(), 2);
    assert!(s.contains("x") && s.contains("y") && !s.contains("z"));
    assert_eq!(s.to_vec(), vec!["x".to_string(), "y".to_string()]);
}
