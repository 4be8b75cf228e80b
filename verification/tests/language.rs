use todone::language::{by_extension, grammar, Grammar, ALL};

#[test]
fn resolves_known_extensions() {
    let cases = [
        ("a.rs", "rust"),
        ("a.py", "python"),
        ("a.pyi", "python"),
        ("a.c", "c"),
        ("a.h", "c"),
        ("a.cpp", "cpp"),
        ("a.hpp", "cpp"),
        ("a.go", "go"),
        ("a.ts", "typescript"),
        ("a.tsx", "tsx"),
        ("a.sh", "bash"),
        ("a.bash", "bash"),
        ("a.json", "json"),
    ];
    for (file, id) in cases {
        assert_eq!(
            by_extension(file).map(|l| l.id),
            Some(id),
            "{file}"
        );
    }
}

#[test]
fn unknown_and_extensionless_files_resolve_to_none() {
    assert!(by_extension("Makefile").is_none());
    assert!(by_extension("notes.txt").is_none());
    assert!(by_extension("noext").is_none());
}

#[test]
fn c_wins_over_cpp_for_dot_h() {
    assert_eq!(by_extension("x.h").unwrap().id, "c");
}

#[test]
fn ids_are_unique_and_found() {
    for (i, g) in ALL.iter().enumerate() {
        let id = g.language().id;
        assert_eq!(grammar(id).unwrap(), *g);
        for other in &ALL[i + 1..] {
            assert_ne!(id, other.language().id);
        }
    }
    assert_eq!(grammar("rust").unwrap(), Grammar::Rust);
    assert!(grammar("lisp").is_err());
}

#[test]
fn extensions_follow_the_last_dot() {
    assert_eq!(by_extension("dir.py/a.tar.rs").unwrap().id, "rust");
    assert!(by_extension(".rs").is_none());
    assert!(by_extension("a.RS").is_none());
}
