//! The assembler driven with files held in memory.

use objj::assembler::{minify, AssembleOptions, AssembleReply, AssembleStep, Assembler, BundleOptions};
use objj::paths::{normalize, resolve};
use std::collections::HashMap;

/// Runs the assembler over `files`; `shared` answers the question for the
/// shared frameworks directory. Returns the outcome and the questions
/// asked about paths.
fn run(assembler: &mut Assembler, main: &str, files: &HashMap<&str, &str>, shared: Option<&str>) -> (Result<Vec<String>, String>, Vec<String>) {
    let mut asked = Vec::new();
    let mut step = assembler.assemble(main);
    loop {
        let reply = match step {
            AssembleStep::Read(path) => match files.get(path.as_str()) {
                Some(text) => AssembleReply::Text(text.to_string()),
                None => AssembleReply::ReadFailed("No such file".to_string()),
            },
            AssembleStep::Exists(path) => {
                asked.push(path.clone());
                AssembleReply::Exists(files.contains_key(path.as_str()))
            }
            AssembleStep::SharedFrameworks => AssembleReply::SharedFrameworks(shared.map(|s| s.to_string())),
            AssembleStep::Done(r) => return (r, asked),
        };
        step = assembler.answer(reply);
    }
}

#[test]
fn imports_come_before_their_importers() {
    let mut files = HashMap::new();
    files.insert("/p/main.j", "@import \"Foo.j\"\nvar m;");
    files.insert("/p/Foo.j", "@import \"Bar.j\"\nvar f;");
    files.insert("/p/Bar.j", "var b;");
    let mut a = Assembler::new(AssembleOptions::new("/p".to_string()));
    let (r, _) = run(&mut a, "main.j", &files, None);
    assert_eq!(r.unwrap(), vec!["/p/Bar.j", "/p/Foo.j", "/p/main.j"]);
}

#[test]
fn shared_imports_appear_once() {
    let mut files = HashMap::new();
    files.insert("/p/main.j", "@import \"A.j\"\n@import \"B.j\"\n");
    files.insert("/p/A.j", "@import \"C.j\"\n");
    files.insert("/p/B.j", "@import \"C.j\"\n");
    files.insert("/p/C.j", "var c;");
    let mut a = Assembler::new(AssembleOptions::new("/p".to_string()));
    let (r, _) = run(&mut a, "main.j", &files, None);
    assert_eq!(r.unwrap(), vec!["/p/C.j", "/p/A.j", "/p/B.j", "/p/main.j"]);
}

#[test]
fn circular_imports_end() {
    let mut files = HashMap::new();
    files.insert("/p/A.j", "@import \"B.j\"\n");
    files.insert("/p/B.j", "@import \"A.j\"\n");
    let mut a = Assembler::new(AssembleOptions::new("/p".to_string()));
    let (r, _) = run(&mut a, "A.j", &files, None);
    assert_eq!(r.unwrap(), vec!["/p/B.j", "/p/A.j"]);
}

#[test]
fn import_without_extension_tries_dot_j() {
    let mut files = HashMap::new();
    files.insert("/p/main.j", "@import \"lib/Foo\"\n");
    files.insert("/p/lib/Foo.j", "var f;");
    let mut a = Assembler::new(AssembleOptions::new("/p".to_string()));
    let (r, asked) = run(&mut a, "main.j", &files, None);
    assert_eq!(r.unwrap(), vec!["/p/lib/Foo.j", "/p/main.j"]);
    assert_eq!(asked, vec!["/p/lib/Foo", "/p/lib/Foo.j"]);
}

#[test]
fn missing_local_import_is_an_error() {
    let mut files = HashMap::new();
    files.insert("/p/main.j", "@import \"Foo.j\"\n");
    let mut a = Assembler::new(AssembleOptions::new("/p".to_string()));
    let (r, _) = run(&mut a, "main.j", &files, None);
    assert_eq!(r.unwrap_err(), "Local import \"Foo.j\" not found (imported from \"/p/main.j\")");
}

#[test]
fn framework_imports_search_the_framework_directories() {
    let mut files = HashMap::new();
    files.insert("/p/main.j", "@import <Kit/View.j>\n");
    files.insert("/shared/Kit/View.j", "var v;");
    let mut opts = AssembleOptions::new("/p".to_string());
    opts.framework_paths.push("/fw".to_string());
    let mut a = Assembler::new(opts);
    let (r, asked) = run(&mut a, "main.j", &files, Some("/shared"));
    assert_eq!(r.unwrap(), vec!["/shared/Kit/View.j", "/p/main.j"]);
    assert_eq!(asked, vec!["/fw/Kit/View.j", "/p/Frameworks/Kit/View.j", "/shared/Kit/View.j"]);
}

#[test]
fn framework_import_without_extension_tries_dot_j_in_each_directory() {
    let mut files = HashMap::new();
    files.insert("/p/main.j", "@import <Kit/View>\n");
    files.insert("/p/Frameworks/Kit/View.j", "var v;");
    let mut opts = AssembleOptions::new("/p/".to_string());
    opts.framework_paths.push("/fw".to_string());
    let mut a = Assembler::new(opts);
    let (r, asked) = run(&mut a, "main.j", &files, Some("/shared"));
    assert_eq!(r.unwrap(), vec!["/p/Frameworks/Kit/View.j", "/p/main.j"]);
    assert_eq!(asked, vec!["/fw/Kit/View", "/fw/Kit/View.j", "/p/Frameworks/Kit/View", "/p/Frameworks/Kit/View.j"]);
}

#[test]
fn missing_framework_import_is_a_warning() {
    let mut files = HashMap::new();
    files.insert("/p/main.j", "@import <Kit/View.j>\nvar m;");
    let mut a = Assembler::new(AssembleOptions::new("/p".to_string()));
    let (r, _) = run(&mut a, "main.j", &files, None);
    assert_eq!(r.unwrap(), vec!["/p/main.j"]);
    assert_eq!(a.warnings().len(), 1);
    assert_eq!(
        a.warnings()[0],
        "Framework import \"Kit/View.j\" not found in framework paths (imported from \"/p/main.j\")"
    );
}

#[test]
fn unreadable_file_is_reported() {
    let files = HashMap::new();
    let mut a = Assembler::new(AssembleOptions::new("/p".to_string()));
    let (r, _) = run(&mut a, "main.j", &files, None);
    assert_eq!(r.unwrap_err(), "Failed to read file \"/p/main.j\": No such file");
}

#[test]
fn compile_errors_name_the_file() {
    let mut files = HashMap::new();
    files.insert("/p/main.j", "#endif\n");
    let mut a = Assembler::new(AssembleOptions::new("/p".to_string()));
    let (r, _) = run(&mut a, "main.j", &files, None);
    assert_eq!(r.unwrap_err(), "Failed to compile \"/p/main.j\": *** #endif without matching #if <File: /p/main.j>");
}

#[test]
fn macros_flow_into_later_files() {
    let mut files = HashMap::new();
    files.insert("/p/main.j", "@import \"Config.j\"\nvar size = SIZE;");
    files.insert("/p/Config.j", "#define SIZE 12\n");
    let mut a = Assembler::new(AssembleOptions::new("/p".to_string()));
    let (r, _) = run(&mut a, "main.j", &files, None);
    let files_in_order = r.unwrap();
    let bundle = a.bundle(&files_in_order, &BundleOptions::default());
    assert!(bundle.code.contains("var size = 12;"), "{}", bundle.code);
}

#[test]
fn bundle_wraps_each_file_in_a_region() {
    let mut files = HashMap::new();
    files.insert("/p/main.j", "@import \"Foo.j\"\nvar m;");
    files.insert("/p/Foo.j", "var f;");
    let mut a = Assembler::new(AssembleOptions::new("/p".to_string()));
    let (r, _) = run(&mut a, "main.j", &files, None);
    let order = r.unwrap();
    let b = a.bundle(&order, &BundleOptions::default());
    let expected = "// #region /p/Foo.j\n// File: /p/Foo.j\nvar f;\n\n// #endregion\n\n\
                    // #region /p/main.j\n// File: /p/main.j\n// @import \"Foo.j\"\nvar m;\n\n// #endregion\n";
    assert_eq!(b.code, expected);
    assert_eq!(b.file_count, 2);
    assert_eq!(b.total_size, expected.len());
    assert_eq!(b.files, order);
    assert!(b.tree_shaking.is_none());
}

#[test]
fn bundle_can_start_main_on_load_and_be_minified() {
    let mut files = HashMap::new();
    files.insert("/p/main.j", "var m; /* note */");
    let mut a = Assembler::new(AssembleOptions::new("/p".to_string()));
    let (r, _) = run(&mut a, "main.j", &files, None);
    let order = r.unwrap();
    let opts = BundleOptions { append_window_onload: true, minify: true, ..BundleOptions::default() };
    let b = a.bundle(&order, &opts);
    assert_eq!(b.code, "var m; \nwindow.onload = main;\n");
}

#[test]
fn minify_strips_comments_and_blank_lines() {
    assert_eq!(minify("a\n// c\n\nb /* x */\n"), "a\nb \n");
    assert_eq!(minify("x\n\n\n\ny"), "x\ny");
}

#[test]
fn tree_shaking_drops_unreachable_methods() {
    let mut files = HashMap::new();
    files.insert(
        "/p/main.j",
        "@implementation Foo\n- (void)used { }\n- (void)unused { }\n@end\nfunction main() {\n    [Foo used];\n}\n",
    );
    let mut a = Assembler::new(AssembleOptions::new("/p".to_string()));
    let (r, _) = run(&mut a, "main.j", &files, None);
    let order = r.unwrap();
    let opts = BundleOptions { tree_shake: true, ..BundleOptions::default() };
    let b = a.bundle(&order, &opts);
    assert!(b.code.contains("sel_getUid(\"used\")"), "{}", b.code);
    assert!(!b.code.contains("sel_getUid(\"unused\")"), "{}", b.code);
    let stats = b.tree_shaking.unwrap();
    assert_eq!(stats.total_methods, 2);
    assert_eq!(stats.reachable_methods, 1);
}

#[test]
fn tree_shaking_off_keeps_everything() {
    let mut files = HashMap::new();
    files.insert("/p/main.j", "@implementation Foo\n- (void)unused { }\n@end\n");
    let mut a = Assembler::new(AssembleOptions::new("/p".to_string()));
    let (r, _) = run(&mut a, "main.j", &files, None);
    let order = r.unwrap();
    let opts = BundleOptions { tree_shake: true, tree_shake_mode: Some("off".to_string()), ..BundleOptions::default() };
    let b = a.bundle(&order, &opts);
    assert!(b.code.contains("sel_getUid(\"unused\")"));
    assert!(b.tree_shaking.is_none());
}

#[test]
fn all_methods_pruned_leaves_a_comment() {
    let mut files = HashMap::new();
    files.insert("/p/main.j", "@implementation Foo\n- (void)unused { }\n@end\n");
    let mut a = Assembler::new(AssembleOptions::new("/p".to_string()));
    let (r, _) = run(&mut a, "main.j", &files, None);
    let order = r.unwrap();
    let opts = BundleOptions { tree_shake: true, ..BundleOptions::default() };
    let b = a.bundle(&order, &opts);
    assert!(b.code.contains("// class_addMethods(the_class, []); - all methods pruned"), "{}", b.code);
}

#[test]
fn paths_are_normalized() {
    assert_eq!(normalize("/a/./b/../c//d/"), "/a/c/d");
    assert_eq!(normalize("../x/y"), "x/y");
    assert_eq!(normalize("a/.."), "");
    assert_eq!(normalize("/.."), "/");
    assert_eq!(resolve("/p", "Foo.j"), "/p/Foo.j");
    assert_eq!(resolve("/p/q", "../Foo.j"), "/p/Foo.j");
    assert_eq!(resolve("/p", "/abs/x"), "/abs/x");
    assert_eq!(resolve("", "x/./y"), "x/y");
}
