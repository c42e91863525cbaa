use terra::compile::{compile, indent_block, split_statements};
use terra::text::strip_comment;
use terra::ctx::Ctx;
use terra::translate::translate;

fn t(line: &str) -> Result<String, String> {
    translate(line, &mut Ctx::new(false), &[])
}

fn declared(names: &[&str], machine: bool) -> Ctx {
    let mut ctx = Ctx::new(machine);
    for n in names {
        translate(&format!("{n}.1"), &mut ctx, &[]).unwrap();
    }
    ctx
}

// ---------- laws on concrete values ----------

#[test]
fn first_mention_declares_then_assigns_in_both_modes() {
    let mut ctx = Ctx::new(false);
    assert_eq!(translate("a.1", &mut ctx, &[]).unwrap(), "    let mut a: i64 = 1;");
    assert_eq!(translate("a.2", &mut ctx, &[]).unwrap(), "    a = 2;");
    let mut ctx = Ctx::new(true);
    assert_eq!(translate("a.1", &mut ctx, &[]).unwrap(), "");
    assert_eq!(translate("a.2", &mut ctx, &[]).unwrap(), "    a = 2;");
}

#[test]
fn machine_mode_hoists_non_literal_with_zero() {
    let mut ctx = declared(&["a"], true);
    assert_eq!(translate("b.a", &mut ctx, &[]).unwrap(), "    b = a;");
    let body = compile("a.5\nb.a\nj.done\n:done\nlog.b\n").unwrap();
    assert!(body.starts_with("    let mut a: i64 = 5;\n    let mut b: i64 = 0;\n"));
}

#[test]
fn rejected_statement_leaves_state_unchanged() {
    let mut ctx = Ctx::new(false);
    assert!(translate("x.+nope", &mut ctx, &[]).is_err());
    // x was not declared by the failed line
    assert_eq!(translate("x.1", &mut ctx, &[]).unwrap(), "    let mut x: i64 = 1;");
}

#[test]
fn negative_literal_on_fresh_and_existing() {
    let mut ctx = Ctx::new(false);
    assert_eq!(translate("n.-7", &mut ctx, &[]).unwrap(), "    let mut n: i64 = -7;");
    assert_eq!(translate("n.-7", &mut ctx, &[]).unwrap(), "    n = n - 7;");
    let mut ctx = Ctx::new(true);
    assert_eq!(translate("n.-7", &mut ctx, &[]).unwrap(), "");
}

#[test]
fn division_by_any_written_zero() {
    let mut ctx = declared(&["x"], false);
    assert_eq!(
        translate("x./0", &mut ctx.clone(), &[]).unwrap_err(),
        "division by zero (/0)"
    );
    assert_eq!(
        translate("x.%0", &mut ctx.clone(), &[]).unwrap_err(),
        "division by zero (%0)"
    );
    assert_eq!(
        translate("x./00", &mut ctx.clone(), &[]).unwrap_err(),
        "division by zero (/00)"
    );
    assert_eq!(
        translate("x.%000", &mut ctx.clone(), &[]).unwrap_err(),
        "division by zero (%000)"
    );
    assert_eq!(translate("x./01", &mut ctx, &[]).unwrap(), "    x = x / 01;");
}

#[test]
fn jump_law_known_and_unknown_label() {
    let labels = ["top".to_string()];
    let mut ctx = Ctx::new(true);
    assert_eq!(
        translate("j.top", &mut ctx, &labels).unwrap(),
        "    __pc = \"top\";\n    continue '__run;"
    );
    assert_eq!(translate("j.bottom", &mut ctx, &labels).unwrap_err(), "unknown label 'bottom'");
}

#[test]
fn quit_law_in_both_modes() {
    assert_eq!(translate("q.", &mut Ctx::new(false), &[]).unwrap(), "    return;");
    assert_eq!(translate("q.", &mut Ctx::new(true), &[]).unwrap(), "    break '__run;");
}

#[test]
fn blank_and_comment_lines_change_nothing() {
    let mut ctx = Ctx::new(false);
    assert_eq!(translate("  # x.1", &mut ctx, &[]).unwrap(), "");
    assert_eq!(translate("\t \u{3000}", &mut ctx, &[]).unwrap(), "");
    assert_eq!(translate("x.1", &mut ctx, &[]).unwrap(), "    let mut x: i64 = 1;");
}

#[test]
fn escaping_is_per_character() {
    assert_eq!(
        t(r#"log."a\b{c}""#).unwrap(),
        r#"    println!("a\\b{{c}}");"#
    );
    assert_eq!(t(r#"log."plain text""#).unwrap(), r#"    println!("plain text");"#);
}

#[test]
fn diagnostics_carry_multi_digit_line_numbers() {
    let src = "x.1\n".repeat(11) + "log.nope\n";
    let errs = compile(&src).unwrap_err();
    assert_eq!(errs, vec!["line 12: unknown variable 'nope'".to_string()]);
}

#[test]
fn statement_numbers_follow_lines() {
    let stmts = split_statements("a.1;b.2\n\nc.3\r\nd.4");
    let nums: Vec<usize> = stmts.iter().map(|(n, _)| *n).collect();
    assert_eq!(nums, vec![1, 1, 2, 3, 4]);
    assert_eq!(stmts[3].1, "c.3");
}

// ---------- every error the translator reports ----------

#[test]
fn log_errors() {
    let mut ctx = declared(&["n"], false);
    assert_eq!(
        translate(r#"log."a" n"#, &mut ctx, &[]).unwrap_err(),
        "expected '.<variable>' after the string"
    );
    assert_eq!(
        translate(r#"log."a".9"#, &mut ctx, &[]).unwrap_err(),
        "'9' is not a variable name"
    );
    assert_eq!(
        translate(r#"log."a".m"#, &mut ctx, &[]).unwrap_err(),
        "unknown variable 'm'"
    );
    assert_eq!(
        translate("log.+", &mut ctx, &[]).unwrap_err(),
        "log expects a quoted string or a variable, got '+'"
    );
}

#[test]
fn in_errors() {
    assert_eq!(t("in.5").unwrap_err(), "in expects a variable name, got '5'");
}

#[test]
fn ask_errors() {
    assert_eq!(t("ask.5").unwrap_err(), "ask expects a quoted prompt, got '{operand}'");
    assert_eq!(t(r#"ask."p"#).unwrap_err(), "unterminated prompt string");
    assert_eq!(t(r#"ask."p""#).unwrap_err(), "ask expects '.<variable>' after the prompt");
    assert_eq!(t(r#"ask."p".9"#).unwrap_err(), "'9' is not a variable name");
}

#[test]
fn rnd_errors_and_expression() {
    assert_eq!(t("rnd.x.y.z").unwrap_err(), "rnd expects '<var>.<limit>', got 'x.y.z'");
    assert_eq!(t("rnd.x.-1").unwrap_err(), "bad limit '-1' (whole number expected)");
    let out = t("rnd.x.6").unwrap();
    assert!(out.starts_with("    let mut x: i64 = {\n            use std::time::{SystemTime, UNIX_EPOCH};"));
    assert!(out.ends_with("% 6.max(1)) as i64\n        };"));
}

#[test]
fn jump_errors() {
    let labels = ["top".to_string()];
    let mut ctx = declared(&["i"], true);
    assert_eq!(
        translate("jeq.9.1.top", &mut ctx, &labels).unwrap_err(),
        "'9' is not a variable name"
    );
    assert_eq!(
        translate("jne.i.nope.top", &mut ctx, &labels).unwrap_err(),
        "unknown variable 'nope'"
    );
    assert_eq!(
        translate("jge.i.1.nowhere", &mut ctx, &labels).unwrap_err(),
        "unknown label 'nowhere'"
    );
    assert_eq!(
        translate("jle.i.1", &mut ctx, &labels).unwrap_err(),
        "jle expects '<var>.<value>.<label>', got 'i.1'"
    );
    assert_eq!(
        translate("jge.i.i.top", &mut ctx, &labels).unwrap(),
        "    if i >= i {\n        __pc = \"top\";\n        continue '__run;\n    }"
    );
}

#[test]
fn assignment_errors() {
    let mut ctx = declared(&["x"], false);
    assert_eq!(
        translate(r#"x."s""#, &mut ctx, &[]).unwrap_err(),
        "unknown operand '\"s\"' (integer, +N/-N/*N//N/-N or variable expected)"
    );
    assert_eq!(
        translate("y.+1", &mut ctx, &[]).unwrap_err(),
        "unknown variable 'y'"
    );
    assert_eq!(
        translate("x.*!", &mut ctx, &[]).unwrap_err(),
        "bad arithmetic operand '*!' (expected +N/-N/*N//N/%N or +var)"
    );
    assert_eq!(t("x").unwrap_err(), "expected '<verb>.<operand>', got 'x'");
}

// ---------- generated code ----------

#[test]
fn input_and_wait_code() {
    let out = t("in.x").unwrap();
    assert!(out.starts_with("    let mut x: i64 = {\n        use std::io::BufRead;"));
    assert_eq!(
        t("w.250").unwrap(),
        "    std::thread::sleep(std::time::Duration::from_millis(250));"
    );
}

#[test]
fn linear_body_exactly() {
    assert_eq!(
        compile("x.3 # three\nlog.\"n = \".x\n").unwrap(),
        "    let mut x: i64 = 3;\n    println!(\"n = {}\", x);\n"
    );
    assert_eq!(compile("").unwrap(), "");
}

#[test]
fn machine_body_exactly() {
    let body = compile(":a\nq.\n").unwrap();
    assert_eq!(
        body,
        "    let mut __pc = \"@begin\";\n    '__run: loop {\n        match __pc {\n            \"@begin\" => {\n                __pc = \"a\";\n                continue '__run;\n            }\n            \"a\" => {\n                break '__run;\n            }\n            _ => {}\n        }\n    }\n"
    );
}

#[test]
fn multi_line_statements_are_indented() {
    let body = compile(":a\ncls.\n").unwrap();
    assert!(body.contains("                print!(\"\\x1b[2J\\x1b[H\");\n                {\n                    use std::io::Write;"));
}

#[test]
fn label_errors_stop_before_translation() {
    let errs = compile(":9\nlog.nope\n").unwrap_err();
    assert_eq!(errs, vec!["line 1: bad label ':9'".to_string()]);
}

#[test]
fn readme_reserved_words_are_not_variables() {
    for w in ["len", "up", "low", "abs", "min", "max", "now", "bell", "chr", "ord"] {
        assert_eq!(t(&format!("{w}.5")).unwrap_err(), format!("'{w}' is a reserved word"));
        assert_eq!(t(&format!("in.{w}")).unwrap_err(), format!("'{w}' is a reserved word"));
    }
    assert_eq!(t("in.log").unwrap_err(), "'log' is a reserved word");
    assert_eq!(t(r#"ask."p".rnd"#).unwrap_err(), "'rnd' is a reserved word");
    assert_eq!(t("rnd.q.5").unwrap_err(), "'q' is a reserved word");
}

#[test]
fn numbers_must_fit_their_type() {
    assert_eq!(
        t("x.9223372036854775807").unwrap(),
        "    let mut x: i64 = 9223372036854775807;"
    );
    assert_eq!(
        t("x.9223372036854775808").unwrap_err(),
        "number '9223372036854775808' does not fit in i64"
    );
    assert!(compile("x.9223372036854775808\n").is_err());
    assert_eq!(
        t("x.-9223372036854775808").unwrap(),
        "    let mut x: i64 = -9223372036854775808;"
    );
    assert_eq!(
        t("x.-9223372036854775809").unwrap_err(),
        "number '-9223372036854775809' does not fit in i64"
    );
    let mut ctx = declared(&["x"], false);
    assert_eq!(
        translate("x.-9223372036854775808", &mut ctx, &[]).unwrap_err(),
        "number '9223372036854775808' does not fit in i64"
    );
    assert_eq!(
        translate("jeq.x.99999999999999999999.top", &mut ctx, &["top".to_string()]).unwrap_err(),
        "number '99999999999999999999' does not fit in i64"
    );
    assert_eq!(
        t("w.18446744073709551616").unwrap_err(),
        "number '18446744073709551616' does not fit in u64"
    );
    assert!(t("w.18446744073709551615").is_ok());
    assert_eq!(
        t("rnd.r.18446744073709551616").unwrap_err(),
        "number '18446744073709551616' does not fit in u64"
    );
}

#[test]
fn quoted_loop_text_is_not_an_exit() {
    let body = compile(":a\nlog.\"break '__run;\"\n").unwrap();
    assert!(body.contains(
        "                println!(\"break '__run;\");\n                break '__run;\n            }\n"
    ));
    let body = compile(":a\nlog.\"x continue '__run;\"\n:b\n").unwrap();
    assert!(body.contains("continue '__run;\");\n                __pc = \"b\";"));
}

// ---------- layout laws on concrete values ----------

fn chars(s: &str) -> Vec<char> {
    s.chars().collect()
}

fn text(v: &[char]) -> String {
    v.iter().collect()
}

#[test]
fn comment_cut_is_prefix_and_idempotent() {
    let line = chars(r#"log."a # b" # c"#);
    let once = strip_comment(&line);
    assert_eq!(text(&once), r#"log."a # b" "#);
    assert_eq!(strip_comment(&once), once);
    assert_eq!(text(&strip_comment(&chars("no comment"))), "no comment");
}

#[test]
fn line_pieces_join_back_to_the_line() {
    let src = r#"a.1;log."x;y";b.2 # c;d"#;
    let stmts = split_statements(src);
    let texts: Vec<&str> = stmts.iter().map(|(_, s)| s.as_str()).collect();
    assert_eq!(texts.join(";"), r#"a.1;log."x;y";b.2 "#);
    assert_eq!(stmts.len(), 3);
}

#[test]
fn indenting_adds_up() {
    let code = chars("a\n\n  b");
    assert_eq!(indent_block(&code, 0), code);
    assert_eq!(indent_block(&indent_block(&code, 2), 3), indent_block(&code, 5));
    assert_eq!(text(&indent_block(&code, 2)), "  a\n\n    b");
}

#[test]
fn lines_or_semicolons_same_program() {
    let by_lines = compile("x.1\nlog.x\nx.+2\n").unwrap();
    let by_semis = compile("x.1;log.x;x.+2").unwrap();
    assert_eq!(by_lines, by_semis);
    let e1 = compile("x.1\nlog.y\nz.+1").unwrap_err();
    let e2 = compile("x.1;log.y;z.+1").unwrap_err();
    assert_eq!(e1, vec!["line 2: unknown variable 'y'".to_string(), "line 3: unknown variable 'z'".to_string()]);
    assert_eq!(e2, vec!["line 1: unknown variable 'y'".to_string(), "line 1: unknown variable 'z'".to_string()]);
}

#[test]
fn label_errors_alone_then_all_statement_errors() {
    let errs = compile(":a\n:a\nlog.nope\n").unwrap_err();
    assert_eq!(errs, vec!["line 2: duplicate label 'a'".to_string()]);
    let errs = compile(":a\nlog.nope\nq.5\n").unwrap_err();
    assert_eq!(
        errs,
        vec!["line 2: unknown variable 'nope'".to_string(), "line 3: q takes no operand".to_string()]
    );
}

#[test]
fn hoisted_lines_follow_first_binding_order() {
    let body = compile("b.-3\nj.x\n:x\na.b\nb.7\nc.9\na.1\n").unwrap();
    assert!(body.starts_with(
        "    let mut b: i64 = -3;\n    let mut a: i64 = 0;\n    let mut c: i64 = 9;\n    let mut __pc"
    ));
}
