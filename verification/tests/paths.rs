//! Tests of the path utilities, grouping and the derived tree view.
use libft_docs::grouping::{
    all_category_paths, build_tree_structure, group_functions_by_path, indent_level, parent_path,
    sanitize_id, sanitize_tag_class,
};
use libft_docs::parser::{LibftParser, SourceFile};
use libft_docs::text::{clean_path_str, split_str, str_has_sub, str_lt, trim_str};

fn source(path: &str, content: &str) -> SourceFile {
    SourceFile { path: path.to_string(), content: content.to_string() }
}

#[test]
fn sanitizers() {
    assert_eq!(sanitize_id("Hello World!"), "hello-world-");
    assert_eq!(sanitize_id("cat-strings/sub"), "cat-strings-sub");
    assert_eq!(sanitize_tag_class("Linked List"), "linked_list");
    assert_eq!(sanitize_tag_class("C99"), "c99");
}

#[test]
fn parent_and_depth() {
    assert_eq!(parent_path("a/b/c"), Some("a/b".to_string()));
    assert_eq!(parent_path("alone"), None);
    assert_eq!(indent_level("a/b/c"), 2);
    assert_eq!(indent_level(""), 0);
    assert_eq!(indent_level("top"), 0);
}

#[test]
fn text_helpers() {
    assert_eq!(trim_str("  hi there\t"), "hi there");
    assert_eq!(split_str("a/b//c", '/'), vec!["a", "b", "", "c"]);
    assert_eq!(clean_path_str("a//b/"), "a/b");
    assert!(str_has_sub("hello world", "lo wo"));
    assert!(!str_has_sub("hello", "world"));
    assert!(str_lt("abc", "abd"));
    assert!(!str_lt("abd", "abc"));
    assert!(str_lt("ab", "abc"));
}

#[test]
fn grouping_and_tree() {
    let parser = LibftParser::new(".".to_string());
    let files = vec![
        source("strings/sub/ft_a.c", "/* The first helper function. */\nint\tft_a(void)\n{\n}\n"),
        source("strings/ft_b.c", "/* The second helper function. */\nint\tft_b(void)\n{\n}\n"),
        source("math/ft_c.c", "/* The third helper function. */\nint\tft_c(void)\n{\n}\n"),
    ];
    let cat = parser.parse(false, &Vec::new(), &files, Vec::new());
    let groups = group_functions_by_path(&cat.functions);
    let keys: Vec<String> = groups.iter().map(|g| g.path.clone()).collect();
    assert_eq!(keys, vec!["math".to_string(), "strings".to_string(), "strings/sub".to_string()]);
    let strings_group = groups.iter().find(|g| g.path == "strings").unwrap();
    assert_eq!(strings_group.members.len(), 1);
    assert_eq!(cat.functions[strings_group.members[0]].name, "ft_b");

    let cats = all_category_paths(&groups);
    assert_eq!(
        cats,
        vec!["math".to_string(), "strings".to_string(), "strings/sub".to_string()],
    );

    let tree = build_tree_structure(&groups);
    assert_eq!(tree.len(), 3);
    let sub = tree.iter().find(|n| n.path == "strings/sub").unwrap();
    assert_eq!(sub.name, "sub");
    assert!(sub.is_leaf);
    assert_eq!(sub.function_count, 1);
    let top = tree.iter().find(|n| n.path == "strings").unwrap();
    assert!(top.is_leaf);
    assert_eq!(top.function_count, 1);
}

#[test]
fn tree_includes_intermediate_prefixes() {
    let parser = LibftParser::new(".".to_string());
    let files = vec![source(
        "data_structures/vector/ft_vec.c",
        "/* Vector helper lives here. */\nint\tft_vec(void)\n{\n}\n",
    )];
    let cat = parser.parse(false, &Vec::new(), &files, Vec::new());
    let groups = group_functions_by_path(&cat.functions);
    let tree = build_tree_structure(&groups);
    let paths: Vec<String> = tree.iter().map(|n| n.path.clone()).collect();
    assert_eq!(
        paths,
        vec!["data_structures".to_string(), "data_structures/vector".to_string()],
    );
    let mid = tree.iter().find(|n| n.path == "data_structures").unwrap();
    assert!(!mid.is_leaf);
    assert_eq!(mid.function_count, 0);
    assert!(mid.children.is_empty());
}
