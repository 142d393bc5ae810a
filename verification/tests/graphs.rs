use diagen::builder::build_graphs;

fn strings(texts: &[&str]) -> Vec<String> {
    texts.iter().map(|t| t.to_string()).collect()
}

#[test]
fn round_trip_two_modules() {
    let contents = strings(&[
        "module A {\n    use 0x1::B;\n}\n",
        "module B {\n}\n",
    ]);
    let g = build_graphs(&contents);

    assert_eq!(g.forward.len(), 2);
    assert_eq!(g.forward.get(&"A".to_string()), Some(&vec!["B".to_string()]));
    assert_eq!(g.forward.get(&"B".to_string()), Some(&Vec::new()));

    assert_eq!(g.inverse.len(), 2);
    assert_eq!(g.inverse.get(&"A".to_string()), Some(&Vec::new()));
    assert_eq!(g.inverse.get(&"B".to_string()), Some(&vec!["A".to_string()]));
}

#[test]
fn skips_file_without_declaration() {
    let contents = strings(&[
        "// no declaration here\nuse 0x1::A;\n",
        "module B {\n}\n",
    ]);
    let g = build_graphs(&contents);
    assert_eq!(g.forward.len(), 1);
    assert_eq!(g.forward.get(&"B".to_string()), Some(&Vec::new()));
    assert_eq!(g.inverse.len(), 1);
    assert_eq!(g.inverse.get(&"A".to_string()), None);
}

#[test]
fn all_files_without_declaration_give_empty_graphs() {
    let contents = strings(&["fun main() {}\n", ""]);
    let g = build_graphs(&contents);
    assert_eq!(g.forward.len(), 0);
    assert_eq!(g.inverse.len(), 0);
}

#[test]
fn referenced_but_undeclared_module_is_a_sink() {
    let contents = strings(&["module A {\n    use 0x1::X;\n}\n"]);
    let g = build_graphs(&contents);
    assert_eq!(g.forward.len(), 1);
    assert_eq!(g.forward.get(&"X".to_string()), None);
    assert_eq!(g.inverse.get(&"X".to_string()), Some(&vec!["A".to_string()]));
    assert_eq!(g.inverse.get(&"A".to_string()), Some(&Vec::new()));
}

#[test]
fn duplicate_declaration_overwrites_forward_entry() {
    let contents = strings(&[
        "module M {\n    use 0x1::A;\n}\n",
        "module M {\n    use 0x1::B;\n}\n",
    ]);
    let g = build_graphs(&contents);
    // The later declaration overwrites the forward entry; the inverse graph
    // keeps the dependents recorded by both declarations.
    assert_eq!(g.forward.get(&"M".to_string()), Some(&vec!["B".to_string()]));
    assert_eq!(g.inverse.get(&"A".to_string()), Some(&vec!["M".to_string()]));
    assert_eq!(g.inverse.get(&"B".to_string()), Some(&vec!["M".to_string()]));
}

#[test]
fn duplicate_references_are_preserved_in_order() {
    let contents = strings(&["module A {\n    use 0x1::B;\n    use 0x1::C;\n    use 0x1::B;\n}\n"]);
    let g = build_graphs(&contents);
    assert_eq!(
        g.forward.get(&"A".to_string()),
        Some(&vec!["B".to_string(), "C".to_string(), "B".to_string()])
    );
    assert_eq!(
        g.inverse.get(&"B".to_string()),
        Some(&vec!["A".to_string(), "A".to_string()])
    );
}

#[test]
fn keys_iterate_in_sorted_order() {
    let contents = strings(&[
        "module C {\n}\n",
        "module A {\n    use 0x1::C;\n}\n",
        "module B {\n}\n",
    ]);
    let g = build_graphs(&contents);
    let keys: Vec<String> = g.forward.entries.iter().map(|e| e.key.clone()).collect();
    assert_eq!(keys, vec!["A".to_string(), "B".to_string(), "C".to_string()]);
}
