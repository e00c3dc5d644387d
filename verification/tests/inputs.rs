//! Picking the input files of a directory.
use copc_converter::inputs::{
    collect_input_files, is_directory_input, DirectoryEntry, NoInputFiles,
};

fn entries(names: &[(&str, bool)]) -> Vec<DirectoryEntry> {
    names
        .iter()
        .map(|(name, is_file)| DirectoryEntry { name: name.as_bytes().to_vec(), is_file: *is_file })
        .collect()
}

fn picked(names: &[(&str, bool)]) -> Vec<String> {
    collect_input_files(&entries(names))
        .unwrap()
        .into_iter()
        .map(|i| names[i].0.to_string())
        .collect()
}

#[test]
fn point_clouds_are_picked_in_name_order() {
    let names = [
        ("b.laz", true),
        ("a.las", true),
        ("notes.txt", true),
        ("C.LAZ", true),
        ("sub.laz", false),
        ("ab.LAS", true),
        ("a.laz", true),
    ];
    assert_eq!(picked(&names), ["C.LAZ", "a.las", "a.laz", "ab.LAS", "b.laz"]);
}

#[test]
fn extension_needs_a_stem() {
    let names = [
        (".laz", true),
        ("laz", true),
        ("x.Laz", true),
        ("x.laz.bak", true),
        ("x.lazz", true),
        ("..laz", true),
        (".x.las", true),
    ];
    assert_eq!(picked(&names), ["..laz", ".x.las"]);
}

#[test]
fn same_rule_as_the_paths_of_the_standard_library() {
    let mut names: Vec<String> = Vec::new();
    for stem in ["", "a", ".", "a.b", " ", "é", "a."] {
        for ext in ["laz", "las", "LAZ", "LAS", "Las", "la", "lazs", ""] {
            names.push(format!("{stem}.{ext}"));
            names.push(format!("{stem}{ext}"));
        }
    }
    names.retain(|n| !n.is_empty() && n != "." && n != "..");
    names.sort();
    names.dedup();
    names.reverse();
    let listed: Vec<(&str, bool)> = names.iter().map(|n| (n.as_str(), true)).collect();
    let mut expected: Vec<String> = names
        .iter()
        .filter(|n| {
            matches!(
                std::path::Path::new(n.as_str()).extension().and_then(|s| s.to_str()),
                Some("laz") | Some("las") | Some("LAZ") | Some("LAS")
            )
        })
        .cloned()
        .collect();
    expected.sort();
    assert_eq!(picked(&listed), expected);
}

#[test]
fn directory_without_point_clouds_is_an_error() {
    assert_eq!(collect_input_files(&Vec::new()), Err(NoInputFiles));
    assert_eq!(collect_input_files(&entries(&[("a.txt", true), ("b.laz", false)])), Err(NoInputFiles));
}

#[test]
fn one_directory_is_searched() {
    assert!(is_directory_input(1, true));
    assert!(!is_directory_input(1, false));
    assert!(!is_directory_input(2, true));
    assert!(!is_directory_input(0, true));
}
