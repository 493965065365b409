//! End-to-end tests of the catalog pipeline: parsing, the declaration
//! fallback, manual overrides, precedence and order stability.
use libft_docs::parser::{DirListing, LibftParser, OverrideDoc, SourceFile};
use libft_docs::{Example, FunctionMetadata, LibraryMetadata, Parameter};

fn empty_record(name: &str) -> FunctionMetadata {
    FunctionMetadata {
        name: name.to_string(),
        category: String::new(),
        category_path: String::new(),
        tags: Vec::new(),
        prototype: String::new(),
        description: String::new(),
        parameters: Vec::new(),
        return_value: String::new(),
        examples: Vec::new(),
        complexity: None,
        notes: Vec::new(),
        see_also: Vec::new(),
        updated_at: None,
        author_role: None,
        related: Vec::new(),
        manual_path: None,
        manual_html: None,
    }
}

fn source(path: &str, content: &str) -> SourceFile {
    SourceFile { path: path.to_string(), content: content.to_string() }
}

fn lookup<'a>(cat: &'a LibraryMetadata, name: &str) -> &'a FunctionMetadata {
    cat.functions.iter().find(|f| f.name == name).expect("function missing from catalog")
}

fn parse(files: Vec<SourceFile>, docs: Vec<OverrideDoc>) -> LibraryMetadata {
    let parser = LibftParser::new(".".to_string());
    parser.parse(false, &Vec::new(), &files, docs)
}

#[test]
fn impl_file_yields_full_record() {
    let cat = parse(
        vec![source(
            "strings/ft_strlen.c",
            "/* Computes string length. */\nsize_t\tft_strlen(const char *s)\n{\n\treturn 0;\n}\n",
        )],
        Vec::new(),
    );
    let rec = lookup(&cat, "ft_strlen");
    assert_eq!(rec.category, "strings");
    assert_eq!(rec.category_path, "strings");
    assert_eq!(rec.description, "Computes string length.");
    assert!(rec.prototype.len() > "ft_strlen".len());
    assert_eq!(rec.prototype, "ft_strlen(const char *s)");
    assert_eq!(cat.order, vec!["ft_strlen".to_string()]);
}

#[test]
fn header_declaration_fallback() {
    let cat = parse(vec![source("include/ft.h", "void\tft_push(int x);\n")], Vec::new());
    let rec = lookup(&cat, "ft_push");
    assert_eq!(rec.prototype, "void\tft_push(int x)");
    assert!(!rec.prototype.is_empty());
    assert_eq!(rec.category, "include");
    assert_eq!(cat.order, vec!["ft_push".to_string()]);
}

#[test]
fn override_copies_category_into_path() {
    let mut rec = empty_record("ft_calloc");
    rec.category = "stdlib".to_string();
    let cat = parse(
        Vec::new(),
        vec![OverrideDoc {
            file_stem: "ft_calloc".to_string(),
            record: rec,
            manual_text: None,
        }],
    );
    let rec = lookup(&cat, "ft_calloc");
    assert_eq!(rec.category_path, "stdlib");
    assert_eq!(rec.category, "stdlib");
}

#[test]
fn override_derives_category_from_path() {
    let mut rec = empty_record("ft_vec");
    rec.category_path = "data_structures/vector".to_string();
    let cat = parse(
        Vec::new(),
        vec![OverrideDoc { file_stem: "ft_vec".to_string(), record: rec, manual_text: None }],
    );
    let rec = lookup(&cat, "ft_vec");
    assert_eq!(rec.category, "data_structures");
    assert_eq!(rec.category_path, "data_structures/vector");
}

#[test]
fn blank_category_path_falls_back_to_category() {
    let mut rec = empty_record("ft_ws");
    rec.category = "stdlib".to_string();
    rec.category_path = " ".to_string();
    let cat = parse(
        Vec::new(),
        vec![OverrideDoc { file_stem: "ft_ws".to_string(), record: rec, manual_text: None }],
    );
    let rec = lookup(&cat, "ft_ws");
    assert_eq!(rec.category_path, "stdlib");
    assert_eq!(rec.category, "stdlib");
}

#[test]
fn blank_category_and_path_get_misc() {
    let mut rec = empty_record("ft_void");
    rec.category = "  ".to_string();
    rec.category_path = " ".to_string();
    let cat = parse(
        Vec::new(),
        vec![OverrideDoc { file_stem: "ft_void".to_string(), record: rec, manual_text: None }],
    );
    let rec = lookup(&cat, "ft_void");
    assert_eq!(rec.category, "misc");
    assert_eq!(rec.category_path, "");
}

#[test]
fn override_with_neither_category_gets_misc() {
    let cat = parse(
        Vec::new(),
        vec![OverrideDoc {
            file_stem: "ft_lost".to_string(),
            record: empty_record("ft_lost"),
            manual_text: None,
        }],
    );
    let rec = lookup(&cat, "ft_lost");
    assert_eq!(rec.category, "misc");
    assert_eq!(rec.category_path, "");
}

#[test]
fn later_override_wins() {
    let mut first = empty_record("ft_dup");
    first.description = "first description".to_string();
    first.category = "stdlib".to_string();
    let mut second = empty_record("ft_dup");
    second.description = "second description".to_string();
    second.category = "stdlib".to_string();
    let cat = parse(
        Vec::new(),
        vec![
            OverrideDoc { file_stem: "a".to_string(), record: first, manual_text: None },
            OverrideDoc { file_stem: "b".to_string(), record: second, manual_text: None },
        ],
    );
    assert_eq!(cat.functions.len(), 1);
    let rec = lookup(&cat, "ft_dup");
    assert_eq!(rec.description, "second description");
}

#[test]
fn override_replaces_but_keeps_order_index() {
    let mut over = empty_record("ft_strlen");
    over.category = "stdlib".to_string();
    over.description = "hand written".to_string();
    let cat = parse(
        vec![
            source("strings/ft_strlen.c", "/* Computes string length. */\nsize_t\tft_strlen(const char *s)\n{\n}\n"),
            source("strings/ft_strcpy.c", "/* Copies one string somewhere. */\nchar\t*ft_strcpy(char *d, const char *s)\n{\n}\n"),
        ],
        vec![OverrideDoc { file_stem: "x".to_string(), record: over, manual_text: None }],
    );
    assert_eq!(cat.order[0], "ft_strlen");
    assert_eq!(cat.order[1], "ft_strcpy");
    let rec = lookup(&cat, "ft_strlen");
    assert_eq!(rec.description, "hand written");
    assert_eq!(rec.category, "stdlib");
}

#[test]
fn implementation_beats_declaration() {
    let cat = parse(
        vec![
            source("include/ft.h", "int\tft_abs(int x);\n"),
            source("math/ft_abs.c", "/* Absolute value of an integer. */\nint\tft_abs(int x)\n{\n}\n"),
        ],
        Vec::new(),
    );
    let rec = lookup(&cat, "ft_abs");
    assert_eq!(rec.category, "math");
    assert_eq!(rec.prototype, "ft_abs(int x)");
    assert_eq!(cat.functions.len(), 1);
}

#[test]
fn first_implementation_wins() {
    let cat = parse(
        vec![
            source("alpha/ft_x.c", "/* First version of the helper. */\nint\tft_x(void)\n{\n}\n"),
            source("beta/ft_x.c", "/* Second version of the helper. */\nint\tft_x(void)\n{\n}\n"),
        ],
        Vec::new(),
    );
    assert_eq!(cat.functions.len(), 1);
    let rec = lookup(&cat, "ft_x");
    assert_eq!(rec.category, "alpha");
}

#[test]
fn entry_point_files_are_skipped() {
    let cat = parse(
        vec![source("src/main.c", "/* The program entry point here. */\nint\tmain(void)\n{\n}\n")],
        Vec::new(),
    );
    assert!(cat.functions.is_empty());
    assert!(cat.order.is_empty());
}

#[test]
fn nested_paths_and_libft_root() {
    let parser = LibftParser::new("/src".to_string());
    let files = vec![source(
        "libft/data_structures/vector/ft_vec_new.c",
        "/* Makes a brand new vector. */\nt_vec\t*ft_vec_new(void)\n{\n}\n",
    )];
    let cat = parser.parse(true, &Vec::new(), &files, Vec::new());
    let rec = lookup(&cat, "ft_vec_new");
    assert_eq!(rec.category, "data_structures");
    assert_eq!(rec.category_path, "data_structures/vector");
}

#[test]
fn file_outside_libft_root_is_misc() {
    let parser = LibftParser::new("/src".to_string());
    let files = vec![source("extras/ft_odd.c", "/* An odd helper lives here. */\nint\tft_odd(int x)\n{\n}\n")];
    let cat = parser.parse(true, &Vec::new(), &files, Vec::new());
    let rec = lookup(&cat, "ft_odd");
    assert_eq!(rec.category, "misc");
    assert_eq!(rec.category_path, "misc");
}

#[test]
fn catalog_identity_fields() {
    let cat = parse(Vec::new(), Vec::new());
    assert_eq!(cat.name, "libft");
    assert_eq!(cat.version, "1.0.0");
    assert_eq!(cat.author, "dlesieur");
    assert_eq!(cat.description, "42 School C Library - Extended standard library functions");
}

#[test]
fn discover_categories_filters_and_sorts() {
    let parser = LibftParser::new(".".to_string());
    let entries = vec![
        DirListing { name: "zeta".to_string(), files: vec!["r.h".to_string()] },
        DirListing { name: "docs".to_string(), files: vec!["x.c".to_string()] },
        DirListing { name: ".git".to_string(), files: vec!["a.c".to_string()] },
        DirListing { name: "alpha".to_string(), files: vec!["readme.md".to_string()] },
        DirListing { name: "strings".to_string(), files: vec!["sub/ft_strlen.c".to_string()] },
    ];
    let cats = parser.discover_categories(&entries);
    assert_eq!(cats, vec!["strings".to_string(), "zeta".to_string()]);
}

#[test]
fn categories_root_prefers_libft() {
    let parser = LibftParser::new("/src".to_string());
    assert_eq!(parser.categories_root(true), "/src/libft");
    assert_eq!(parser.categories_root(false), "/src");
}

#[test]
fn manual_markdown_is_rendered() {
    let mut rec = empty_record("ft_doc");
    rec.category = "stdlib".to_string();
    rec.manual_path = Some("ft_doc.md".to_string());
    let cat = parse(
        Vec::new(),
        vec![OverrideDoc {
            file_stem: "ft_doc".to_string(),
            record: rec,
            manual_text: Some("# Title".to_string()),
        }],
    );
    let rec = lookup(&cat, "ft_doc");
    let html = rec.manual_html.as_ref().expect("manual html missing");
    assert!(html.contains("<h1>"));
    assert!(html.contains("Title"));
}

#[test]
fn blank_override_name_falls_back_to_stem() {
    let mut rec = empty_record("");
    rec.category = "stdlib".to_string();
    let cat = parse(
        Vec::new(),
        vec![OverrideDoc { file_stem: "ft_stem".to_string(), record: rec, manual_text: None }],
    );
    assert!(cat.functions.iter().any(|f| f.name == "ft_stem"));
}

#[test]
fn record_placeholders_are_generated() {
    let cat = parse(
        vec![source("strings/ft_strlen.c", "size_t\tft_strlen(const char *s)\n{\n}\n")],
        Vec::new(),
    );
    let rec = lookup(&cat, "ft_strlen");
    assert_eq!(rec.return_value, "Return value description not available.");
    assert_eq!(rec.examples.len(), 1);
    assert_eq!(rec.examples[0].title, "Basic usage of ft_strlen");
    assert_eq!(
        rec.examples[0].code,
        "// Example usage of ft_strlen\n// TODO: Add real example",
    );
    assert!(rec.parameters.is_empty());
    assert_eq!(rec.description, "No description available.");
}

#[test]
fn unused_model_types_construct() {
    let p = Parameter {
        name: "s".to_string(),
        param_type: "const char *".to_string(),
        description: "the input".to_string(),
    };
    assert_eq!(p.param_type, "const char *");
    let e = Example { title: "t".to_string(), code: "c".to_string(), output: None };
    assert!(e.output.is_none());
}
