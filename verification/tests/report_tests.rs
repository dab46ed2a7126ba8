use flaunt::cli::parse_args;
use flaunt::report::{
    generate, leetcode_problem_url, map_lang, parse_solving, title_fits, title_leetcode_id,
    Difficult, ProblemSet, Solving,
};

#[test]
fn map_lang_known_extensions() {
    assert_eq!(map_lang("rs"), "Rust");
    assert_eq!(map_lang("cs"), "C#");
    assert_eq!(map_lang("py"), "Python");
    assert_eq!(map_lang("exs"), "Elixir");
    assert_eq!(map_lang("dart"), "Dart");
}

#[test]
fn map_lang_unknown_extension_stands_for_itself() {
    assert_eq!(map_lang("zig"), "zig");
    assert_eq!(map_lang(""), "");
}

#[test]
fn difficult_from_folder_names() {
    assert_eq!(Difficult::from_str("hard"), Ok(Difficult::Hard));
    assert_eq!(Difficult::from_str("medium"), Ok(Difficult::Medium));
    assert_eq!(Difficult::from_str("easy"), Ok(Difficult::Easy));
    assert_eq!(Difficult::from_str("weird"), Err(()));
}

#[test]
fn difficult_to_str_names() {
    assert_eq!(Difficult::Hard.to_str(), "Hard");
    assert_eq!(Difficult::Medium.to_str(), "Medium");
    assert_eq!(Difficult::Easy.to_str(), "Easy");
}

#[test]
fn url_is_id_behind_problems() {
    assert_eq!(
        leetcode_problem_url(&"two-sum".to_string()),
        "https://leetcode.com/problems/two-sum"
    );
}

#[test]
fn title_capitalizes_every_part() {
    assert_eq!(title_leetcode_id("two-sum"), "Two Sum");
    assert_eq!(title_leetcode_id("house-robber"), "House Robber");
    assert_eq!(title_leetcode_id("sqrtx"), "Sqrtx");
}

#[test]
fn title_uppercases_trailing_roman_numeral() {
    assert_eq!(title_leetcode_id("linked-list-cycle-ii"), "Linked List Cycle II");
    assert_eq!(title_leetcode_id("house-robber-iii"), "House Robber III");
    assert_eq!(title_leetcode_id("x"), "X");
}

#[test]
fn title_fitness_is_decidable() {
    assert!(title_fits("two-sum"));
    assert!(title_fits("x"));
    assert!(!title_fits(""));
    assert!(!title_fits("a--b"));
    assert!(!title_fits("-a"));
    assert!(!title_fits("\u{00E9}clair-cake"));
}

#[test]
fn parse_solving_reads_leading_comment() {
    let s = parse_solving(
        "easy/two-sum.rs".to_string(),
        "rs",
        "// solved with a map\nfn main() {}\n",
    );
    assert_eq!(s.language, "Rust");
    assert_eq!(s.path, "easy/two-sum.rs");
    assert_eq!(s.comment, Some("solved with a map".to_string()));
}

#[test]
fn parse_solving_reads_dash_and_hash_comments() {
    let sql = parse_solving("easy/q.sql".to_string(), "sql", "--  join twice \nselect 1;");
    assert_eq!(sql.language, "SQL");
    assert_eq!(sql.comment, Some("join twice".to_string()));
    let py = parse_solving("easy/q.py".to_string(), "py", "## two pointers\r\npass\n");
    assert_eq!(py.language, "Python");
    assert_eq!(py.comment, Some("two pointers".to_string()));
}

#[test]
fn parse_solving_trims_tabs_and_spaces() {
    let s = parse_solving(
        "hard/word-ladder.ex".to_string(),
        "ex",
        "//\tbreadth first\t \nx = 1\n",
    );
    assert_eq!(s.language, "Elixir");
    assert_eq!(s.comment, Some("breadth first".to_string()));
}

#[test]
fn parse_solving_without_comment() {
    let s = parse_solving("easy/two-sum.go".to_string(), "go", "package main\n");
    assert_eq!(s.language, "Go");
    assert_eq!(s.comment, None);
    let empty = parse_solving("easy/empty.c".to_string(), "c", "");
    assert_eq!(empty.comment, None);
}

#[test]
fn args_default_folder() {
    assert_eq!(parse_args(&vec![]), Some(".".to_string()));
}

#[test]
fn args_named_folder() {
    let args = vec!["--folder".to_string(), "solutions".to_string()];
    assert_eq!(parse_args(&args), Some("solutions".to_string()));
}

#[test]
fn args_trailing_flag_keeps_default() {
    let args = vec!["--folder".to_string()];
    assert_eq!(parse_args(&args), Some(".".to_string()));
}

#[test]
fn args_stray_argument_is_rejected() {
    let args = vec!["stray".to_string()];
    assert_eq!(parse_args(&args), None);
}

#[test]
fn problems_stay_ordered() {
    let mut set = ProblemSet::new();
    set.add_solving(
        "two-sum".to_string(),
        Difficult::Easy,
        Solving {
            language: "Rust".to_string(),
            path: "easy/two-sum.rs".to_string(),
            comment: None,
        },
    );
    set.add_solving(
        "three-sum".to_string(),
        Difficult::Medium,
        Solving {
            language: "Go".to_string(),
            path: "medium/three-sum.go".to_string(),
            comment: None,
        },
    );
    set.add_solving(
        "two-sum".to_string(),
        Difficult::Hard,
        Solving {
            language: "Go".to_string(),
            path: "easy/two-sum.go".to_string(),
            comment: None,
        },
    );
    let ps = set.problems();
    assert_eq!(ps.len(), 2);
    assert_eq!(ps[0].id, "three-sum");
    assert_eq!(ps[1].id, "two-sum");
    // the difficulty a problem was first seen under is kept
    assert_eq!(ps[1].difficult, Difficult::Easy);
    // solvings are ordered by language
    assert_eq!(ps[1].solvings[0].language, "Go");
    assert_eq!(ps[1].solvings[1].language, "Rust");
}

fn table(summary: &str, body: &str) -> String {
    format!(
        "\n<details>\n<summary>{summary}</summary>\n\n| #     | Problem            | Difficulty | Solvings                |\n|:-----:|:------------------:|:----------:|:-----------------------:|\n{body}\n</details>\n"
    )
}

#[test]
fn generate_renders_whole_report() {
    let mut set = ProblemSet::new();
    set.add_solving(
        "two-sum".to_string(),
        Difficult::Easy,
        Solving {
            language: "Rust".to_string(),
            path: "easy/two-sum.rs".to_string(),
            comment: Some("with a map".to_string()),
        },
    );
    set.add_solving(
        "three-sum".to_string(),
        Difficult::Medium,
        Solving {
            language: "Go".to_string(),
            path: "medium/three-sum.go".to_string(),
            comment: None,
        },
    );
    set.add_solving(
        "two-sum".to_string(),
        Difficult::Easy,
        Solving {
            language: "Go".to_string(),
            path: "easy/two-sum.go".to_string(),
            comment: None,
        },
    );

    let three_row_1 =
        "|1|[Three Sum](https://leetcode.com/problems/three-sum)|Medium|[Go](medium/three-sum.go)|";
    let two_row = "[Two Sum](https://leetcode.com/problems/two-sum)|Easy|[Go](easy/two-sum.go), [Rust (with a map)](easy/two-sum.rs)|";
    let all_body = format!("{three_row_1}\n|2|{two_row}");
    let two_row_1 = format!("|1|{two_row}");

    let expected = format!(
        "# This repo contains my leetcode problem solving tasks\n\n## All \u{1F4C8}: 2\n{}\n## Hard \u{1F92F}: 0\n{}\n## Medium \u{1F628}: 1\n{}\n## Easy \u{1F971}: 1\n{}\n\n## Go: 2{}\n## Rust: 1{}\nGenerated by [flaunt](https://github.com/vadimalekseev/flaunt).",
        table("All", &all_body),
        table("Hard", ""),
        table("Medium", three_row_1),
        table("Easy", &two_row_1),
        table("Go", &all_body),
        table("Rust", &two_row_1),
    );

    assert_eq!(generate(&set), expected);
}

#[test]
fn generate_on_empty_set() {
    let set = ProblemSet::new();
    let expected = format!(
        "# This repo contains my leetcode problem solving tasks\n\n## All \u{1F4C8}: 0\n{}\n## Hard \u{1F92F}: 0\n{}\n## Medium \u{1F628}: 0\n{}\n## Easy \u{1F971}: 0\n{}\n\nGenerated by [flaunt](https://github.com/vadimalekseev/flaunt).",
        table("All", ""),
        table("Hard", ""),
        table("Medium", ""),
        table("Easy", ""),
    );
    assert_eq!(generate(&set), expected);
}
