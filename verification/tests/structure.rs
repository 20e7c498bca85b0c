use folder_plot::structure::{
    entry_kind, find_class, is_ignored, weight_input, Entry, FileType, Item, Unlayoutable,
};

fn file(name: &str, size: u64, class: FileType) -> Item {
    Item::File {
        name: name.to_string(),
        full_name: format!("root/{}", name),
        size,
        class,
        refs: vec![],
    }
}

fn folder(name: &str, items: Vec<Item>) -> Item {
    Item::Folder { name: name.to_string(), items }
}

#[test]
fn class_of_code_extensions() {
    for ext in ["rs", "cs", "js", "ts", "r", "cpp", "py"] {
        assert_eq!(find_class(Some(ext)), FileType::Code);
    }
}

#[test]
fn class_of_data_extensions() {
    for ext in ["csv", "tsv", "xlsx", "xls", "fasta"] {
        assert_eq!(find_class(Some(ext)), FileType::Data);
    }
}

#[test]
fn class_of_configuration_extensions() {
    for ext in ["yaml", "toml", "lock"] {
        assert_eq!(find_class(Some(ext)), FileType::Configuration);
    }
}

#[test]
fn class_of_other_extensions_is_unknown() {
    assert_eq!(find_class(Some("md")), FileType::Unknown);
    assert_eq!(find_class(Some("RS")), FileType::Unknown);
    assert_eq!(find_class(Some("")), FileType::Unknown);
    assert_eq!(find_class(Some("rss")), FileType::Unknown);
    assert_eq!(find_class(None), FileType::Unknown);
}

#[test]
fn ignored_names_are_found_in_the_list() {
    let ignore = [".vscode", "target", ".git"];
    assert!(is_ignored("target", &ignore));
    assert!(is_ignored(".git", &ignore));
    assert!(!is_ignored("src", &ignore));
    assert!(!is_ignored("targets", &ignore));
    assert!(!is_ignored("target", &[]));
}

#[test]
fn a_directory_becomes_a_folder_unless_ignored() {
    let ignore = ["target"];
    assert_eq!(entry_kind(true, false, Some("src"), &ignore), Entry::Folder);
    assert_eq!(entry_kind(true, false, Some("target"), &ignore), Entry::Skipped);
    assert_eq!(entry_kind(true, false, None, &ignore), Entry::Skipped);
}

#[test]
fn a_file_becomes_a_leaf_even_if_its_name_is_listed() {
    let ignore = ["target"];
    assert_eq!(entry_kind(false, true, Some("main.rs"), &ignore), Entry::File);
    assert_eq!(entry_kind(false, true, Some("target"), &ignore), Entry::File);
    assert_eq!(entry_kind(false, true, None, &ignore), Entry::Skipped);
}

#[test]
fn what_is_neither_file_nor_directory_is_skipped() {
    assert_eq!(entry_kind(false, false, Some("socket"), &[]), Entry::Skipped);
}

#[test]
fn an_empty_file_weighs_as_much_as_one_byte() {
    assert_eq!(weight_input(0), 1);
    assert_eq!(weight_input(1), 1);
    assert_eq!(weight_input(0), weight_input(1));
}

#[test]
fn a_file_weighs_its_length() {
    assert_eq!(weight_input(2), 2);
    assert_eq!(weight_input(300), 300);
    assert_eq!(weight_input(u64::MAX), u64::MAX);
}

#[test]
fn files_are_counted_through_all_folders() {
    let tree = folder(
        "root",
        vec![
            file("a.rs", 100, FileType::Code),
            folder(
                "sub",
                vec![file("b.csv", 300, FileType::Data), folder("empty", vec![])],
            ),
            file("c.toml", 7, FileType::Configuration),
        ],
    );
    assert_eq!(tree.files(), 3);
    assert_eq!(tree.checked_files(), Some(3));
    assert_eq!(file("x", 1, FileType::Unknown).files(), 1);
    assert_eq!(folder("empty", vec![]).files(), 0);
}

#[test]
fn names_are_handed_out() {
    assert_eq!(file("a.rs", 1, FileType::Code).name(), "a.rs");
    assert_eq!(folder("src", vec![]).name(), "src");
}

#[test]
fn each_kind_has_its_colour() {
    assert_eq!(file("a", 1, FileType::Code).colour(), "var(--color-primary)");
    assert_eq!(file("a", 1, FileType::Data).colour(), "var(--color-primary-shade)");
    assert_eq!(file("a", 1, FileType::Configuration).colour(), "var(--color-secondary)");
    assert_eq!(file("a", 1, FileType::Unknown).colour(), "var(--color-tertiary)");
    assert_eq!(folder("d", vec![]).colour(), "var(--color-light)");
}

#[test]
fn a_tree_with_files_is_layoutable() {
    let tree = folder(
        "root",
        vec![file("a", 100, FileType::Code), file("b", 300, FileType::Code)],
    );
    assert_eq!(tree.check_layoutable(), Ok(2));
    assert_eq!(file("a", 2, FileType::Code).check_layoutable(), Ok(1));
    assert_eq!(folder("root", vec![file("a", 1, FileType::Code)]).check_layoutable(), Ok(1));
}

#[test]
fn a_tree_without_files_is_not_layoutable() {
    assert_eq!(folder("root", vec![]).check_layoutable(), Err(Unlayoutable::NoFiles));
    let nested = folder("root", vec![folder("a", vec![folder("b", vec![])])]);
    assert_eq!(nested.check_layoutable(), Err(Unlayoutable::NoFiles));
}

#[test]
fn a_single_file_of_weight_one_is_not_layoutable() {
    assert_eq!(
        file("a", 1, FileType::Code).check_layoutable(),
        Err(Unlayoutable::UnitWeight)
    );
    assert_eq!(
        file("a", 0, FileType::Code).check_layoutable(),
        Err(Unlayoutable::UnitWeight)
    );
}
