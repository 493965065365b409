//! Tests of the per-file heuristics: tag rules, difficulty, description
//! and prototype extraction.
use libft_docs::parser::LibftParser;

fn parser() -> LibftParser {
    LibftParser::new(".".to_string())
}

#[test]
fn name_prefix_tags() {
    let tags = parser().generate_tags("ft_strlen", "");
    assert_eq!(tags, vec!["string".to_string(), "basic".to_string()]);
    let tags = parser().generate_tags("ft_memset", "");
    assert_eq!(tags, vec!["memory".to_string(), "basic".to_string()]);
    let tags = parser().generate_tags("ft_isdigit", "");
    assert_eq!(tags, vec!["validation".to_string(), "basic".to_string()]);
}

#[test]
fn content_tags_and_difficulty() {
    let tags = parser().generate_tags("ft_strdup", "char *d = malloc(n); while (i) ;");
    assert_eq!(
        tags,
        vec![
            "string".to_string(),
            "allocation".to_string(),
            "iteration".to_string(),
            "intermediate".to_string(),
        ],
    );
}

#[test]
fn recursion_marker_is_advanced() {
    let tags = parser().generate_tags("ft_fact", "// a recursive helper");
    assert!(tags.contains(&"recursion".to_string()));
    assert_eq!(tags.last().unwrap(), "advanced");
}

#[test]
fn threading_marker_is_advanced() {
    let tags = parser().generate_tags("ft_pool_run", "pthread_create(&t, 0, f, 0);");
    assert!(tags.contains(&"threading".to_string()));
    assert_eq!(tags.last().unwrap(), "advanced");
}

#[test]
fn data_structure_name_is_intermediate() {
    let tags = parser().generate_tags("ft_map_new", "");
    assert!(tags.contains(&"data_structure".to_string()));
    assert_eq!(tags.last().unwrap(), "intermediate");
}

#[test]
fn plain_function_is_basic() {
    let tags = parser().generate_tags("ft_abs", "int r; return r;");
    assert_eq!(tags, vec!["basic".to_string()]);
}

#[test]
fn description_from_block_comment() {
    let d = parser().extract_description("/* Computes string length. */\nint x;");
    assert_eq!(d, "Computes string length.");
}

#[test]
fn description_strips_decoration() {
    let d = parser().extract_description("/* hello world of text */");
    assert_eq!(d, "hello world of text");
}

#[test]
fn short_comment_falls_through() {
    let d = parser().extract_description("/* short */\nint x;");
    assert_eq!(d, "No description available.");
}

#[test]
fn line_comment_used_last() {
    let d = parser().extract_description("// a line comment description\nint x;");
    assert_eq!(d, "a line comment description");
}

#[test]
fn prototype_from_definition() {
    let p = parser().extract_function_prototype(
        "size_t\tft_strlen(const char *s)\n{\n\treturn 0;\n}\n",
        "ft_strlen",
    );
    assert_eq!(p, "ft_strlen(const char *s)");
}

#[test]
fn prototype_from_declaration() {
    let p = parser().extract_function_prototype("size_t\tft_strlen(const char *s);\n", "ft_strlen");
    assert_eq!(p, "size_t\tft_strlen(const char *s)");
}

#[test]
fn prototype_placeholder_when_no_match() {
    let p = parser().extract_function_prototype("nothing relevant here", "ft_x");
    assert_eq!(p, "/* Function: ft_x */");
}

#[test]
fn category_extraction() {
    let p = parser();
    assert_eq!(p.extract_category_from_path(false, "strings/ft_strlen.c"), "strings");
    assert_eq!(p.extract_category_from_path(false, "a/b/c/ft_q.c"), "a");
    assert_eq!(p.extract_category_path_from_path(false, "a/b/c/ft_q.c"), "a/b/c");
    assert_eq!(p.extract_category_path_from_path(false, "ft_solo.c"), "ft_solo.c");
    assert_eq!(p.extract_category_from_path(true, "libft/strings/ft_strlen.c"), "strings");
    assert_eq!(p.extract_category_from_path(true, "elsewhere/ft_q.c"), "misc");
}
