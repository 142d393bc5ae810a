use diagen::extract::{extract_module_name, extract_use_deps};

#[test]
fn module_name_simple() {
    assert_eq!(extract_module_name("module Foo {"), Some("Foo".to_string()));
}

#[test]
fn module_name_first_of_several() {
    let text = "module A_1 {\n}\nmodule B {\n}\n";
    assert_eq!(extract_module_name(text), Some("A_1".to_string()));
}

#[test]
fn module_name_needs_line_start() {
    assert_eq!(extract_module_name("  module Foo {"), None);
    assert_eq!(extract_module_name("x\nmodule B{"), Some("B".to_string()));
}

#[test]
fn module_name_needs_space_after_keyword() {
    assert_eq!(extract_module_name("moduleX {"), None);
}

#[test]
fn module_name_brace_on_next_line() {
    assert_eq!(extract_module_name("module  X\n{"), Some("X".to_string()));
}

#[test]
fn module_name_missing() {
    assert_eq!(extract_module_name("script {\n    fun main() {}\n}\n"), None);
    assert_eq!(extract_module_name(""), None);
}

#[test]
fn use_deps_in_order() {
    let text = "module M {\n    use 0x1::A;\n    use 0x1::B;\n}\n";
    assert_eq!(extract_use_deps(text), vec!["A".to_string(), "B".to_string()]);
}

#[test]
fn use_deps_keep_duplicates() {
    let text = "use 0x1::A;\nuse 0x1::A;\n";
    assert_eq!(extract_use_deps(text), vec!["A".to_string(), "A".to_string()]);
}

#[test]
fn use_deps_member_import_captures_module() {
    assert_eq!(extract_use_deps("use 0x1::Foo::bar;"), vec!["Foo".to_string()]);
}

#[test]
fn use_deps_need_terminator() {
    assert_eq!(extract_use_deps("use 0x1::X"), Vec::<String>::new());
}

#[test]
fn use_deps_none() {
    assert_eq!(extract_use_deps("module M {\n}\n"), Vec::<String>::new());
}
