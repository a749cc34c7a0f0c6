use wasm_split_cli::identifier::SplitModuleIdentifier;
use wasm_split_cli::order::{names_lt, str_lt};
use wasm_split_cli::text::{clone_names, join, strip_prefix};

fn list(names: &[&str]) -> Vec<String> {
    names.iter().map(|s| s.to_string()).collect()
}

#[test]
fn prefix_is_stripped() {
    assert_eq!(strip_prefix("__wasm_split_load_alpha", "__wasm_split_load_"), Some("alpha".into()));
    assert_eq!(strip_prefix("abc", "abc"), Some(String::new()));
    assert_eq!(strip_prefix("abc", ""), Some("abc".into()));
    assert_eq!(strip_prefix("ab", "abc"), None);
    assert_eq!(strip_prefix("abd", "abc"), None);
    assert_eq!(strip_prefix("", "a"), None);
    assert_eq!(strip_prefix("\u{e9}t\u{e9}", "\u{e9}"), Some("t\u{e9}".into()));
}

#[test]
fn names_are_joined() {
    assert_eq!(join(&list(&[]), "_"), "");
    assert_eq!(join(&list(&["a"]), "_"), "a");
    assert_eq!(join(&list(&["a", "b", "c"]), "_"), "a_b_c");
    assert_eq!(join(&list(&["a", "", "c"]), ", "), "a, , c");
    assert_eq!(clone_names(&list(&["x", "y"])), list(&["x", "y"]));
}

#[test]
fn lists_of_names_are_ordered_lexicographically() {
    assert!(names_lt(&list(&["a", "b"]), &list(&["a", "c"])));
    assert!(!names_lt(&list(&["a", "c"]), &list(&["a", "b"])));
    assert!(names_lt(&list(&["a"]), &list(&["a", "b"])));
    assert!(!names_lt(&list(&["a", "b"]), &list(&["a"])));
    assert!(!names_lt(&list(&["a", "b"]), &list(&["a", "b"])));
    assert!(names_lt(&list(&[]), &list(&["a"])));
    assert!(!names_lt(&list(&[]), &list(&[])));
    // Strings compare by their characters, a prefix first.
    assert!(names_lt(&list(&["ab"]), &list(&["b"])));
    assert!(names_lt(&list(&["a"]), &list(&["ab"])));
    assert!(names_lt(&list(&["Z"]), &list(&["a"])));
    assert!(names_lt(&list(&["z"]), &list(&["\u{e9}"])));
    assert!(!names_lt(&list(&["b"]), &list(&["a", "z"])));
}

#[test]
fn identifier_names() {
    assert_eq!(SplitModuleIdentifier::Main.name(), "main");
    assert_eq!(SplitModuleIdentifier::Split("alpha".into()).name(), "alpha");
    assert_eq!(SplitModuleIdentifier::Chunk(list(&["alpha", "beta"])).name(), "alpha_beta");
    assert_eq!(SplitModuleIdentifier::Chunk(list(&["a", "b", "c"])).name(), "a_b_c");
    let chunk = SplitModuleIdentifier::Chunk(list(&["a", "b"]));
    assert_eq!(chunk.duplicate(), chunk);
    assert_eq!(chunk.file_name(), "a_b.wasm");
    assert!(chunk.same(&SplitModuleIdentifier::Chunk(list(&["a", "b"]))));
    assert!(!chunk.same(&SplitModuleIdentifier::Chunk(list(&["a", "c"]))));
    assert!(!chunk.same(&SplitModuleIdentifier::Chunk(list(&["a"]))));
    assert!(!chunk.same(&SplitModuleIdentifier::Split("a_b".into())));
    assert!(SplitModuleIdentifier::Main.same(&SplitModuleIdentifier::Main));
    assert!(!SplitModuleIdentifier::Main.same(&chunk));
    assert!(SplitModuleIdentifier::Split("x".into()).same(&SplitModuleIdentifier::Split("x".into())));
    assert!(!SplitModuleIdentifier::Split("x".into()).same(&SplitModuleIdentifier::Split("y".into())));
    assert_eq!(SplitModuleIdentifier::Main.file_name(), "main.wasm");
    assert_eq!(SplitModuleIdentifier::Split("alpha".into()).file_name(), "alpha.wasm");
}

#[test]
fn identifiers_are_ordered_main_chunks_splits() {
    let main = SplitModuleIdentifier::Main;
    let chunk_ab = SplitModuleIdentifier::Chunk(list(&["a", "b"]));
    let chunk_ac = SplitModuleIdentifier::Chunk(list(&["a", "c"]));
    let split_a = SplitModuleIdentifier::Split("a".into());
    let split_b = SplitModuleIdentifier::Split("b".into());
    assert!(main < chunk_ab);
    assert!(chunk_ab < chunk_ac);
    assert!(chunk_ac < split_a);
    assert!(split_a < split_b);
    assert!(main < split_a);
}

#[test]
fn strings_are_ordered_by_code_point() {
    assert!(str_lt("", "a"));
    assert!(!str_lt("", ""));
    assert!(!str_lt("a", ""));
    assert!(str_lt("alpha", "beta"));
    assert!(!str_lt("beta", "alpha"));
    assert!(str_lt("alpha", "alphabet"));
    assert!(!str_lt("alphabet", "alpha"));
    assert!(!str_lt("alpha", "alpha"));
    assert!(str_lt("Zeta", "alpha"));
    assert!(str_lt("a_b", "ab"));
    // Beyond ASCII the order is that of the code points, as that of `<` is.
    let words = ["", "z", "é", "éa", "日本", "𝄞", "\u{ffff}", "a\u{10000}", "a\u{ffff}"];
    for a in words {
        for b in words {
            assert_eq!(str_lt(a, b), a < b, "{a:?} {b:?}");
        }
    }
}
