//! Imports and the files that they name.

use codetracer_ton_recorder::directives::parse_imports;
use codetracer_ton_recorder::loader::{ImportLoader, SourceFile};

/// The files of a small project.
fn read(path: &str) -> Option<String> {
    let source = match path {
        "main.tolk" => "import \"a.tolk\";\nimport \"b.tolk\"\n",
        "a.tolk" => "import \"c.tolk\";\nimport \"main.tolk\";\n",
        "b.tolk" => "import \"c.tolk\";\nimport \"missing.tolk\";\nimport \"a.tolk\";\n",
        "c.tolk" => "import \"a.tolk\";\n",
        _ => return None,
    };
    Some(source.to_string())
}

/// Loads everything that a file imports; gives the files and the requests.
fn load(entry: &str) -> (Vec<SourceFile>, Vec<(String, String)>) {
    let mut requests = Vec::new();
    let mut loader = ImportLoader::new(entry, &read(entry).unwrap());
    while let Some(request) = loader.next_request() {
        requests.push((request.from, request.path.clone()));
        if loader.note(&request.path) {
            if let Some(source) = read(&request.path) {
                loader.provide(&request.path, source);
            }
        }
    }
    (loader.into_files(), requests)
}

#[test]
fn each_file_is_loaded_once() {
    let (files, _) = load("main.tolk");
    let paths: Vec<&str> = files.iter().map(|f| f.path.as_str()).collect();
    assert_eq!(paths, vec!["a.tolk", "c.tolk", "b.tolk"]);
    for file in &files {
        assert_eq!(Some(&file.source), read(&file.path).as_ref());
    }
}

#[test]
fn the_imports_of_a_file_come_before_the_next_of_its_importer() {
    let (_, requests) = load("main.tolk");
    let requests: Vec<(&str, &str)> =
        requests.iter().map(|(a, b)| (a.as_str(), b.as_str())).collect();
    assert_eq!(
        requests,
        vec![
            ("main.tolk", "a.tolk"),
            ("a.tolk", "c.tolk"),
            ("c.tolk", "a.tolk"),
            ("a.tolk", "main.tolk"),
            ("main.tolk", "b.tolk"),
            ("b.tolk", "c.tolk"),
            ("b.tolk", "missing.tolk"),
            ("b.tolk", "a.tolk"),
        ]
    );
}

#[test]
fn imports_are_lines_of_the_source() {
    assert_eq!(
        parse_imports(
            "  import \"x.tolk\" ;\nimport\"y\"\nimport \"\";\nimport z;\nimport \"open\n\
             // import \"no\";\nfun main() {}\n"
        ),
        vec!["x.tolk", "y"]
    );
}
