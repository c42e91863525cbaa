use terra::compile::{compile, split_statements};
use terra::ctx::Ctx;
use terra::translate::{read_int_expr, translate};

const COND_OPS: [(&str, &str); 6] = [
    ("jeq", "=="),
    ("jne", "!="),
    ("jlt", "<"),
    ("jgt", ">"),
    ("jle", "<="),
    ("jge", ">="),
];

fn t(line: &str) -> Result<String, String> {
    translate(line, &mut Ctx::new(false), &[])
}

#[test]
fn assignment_then_reassignment() {
    let mut ctx = Ctx::new(false);
    assert_eq!(translate("x.10", &mut ctx, &[]).unwrap(), "    let mut x: i64 = 10;");
    assert_eq!(translate("x.20", &mut ctx, &[]).unwrap(), "    x = 20;");
}

#[test]
fn arithmetic_ops() {
    let mut ctx = Ctx::new(false);
    translate("x.10", &mut ctx, &[]).unwrap();
    assert_eq!(translate("x.+5", &mut ctx, &[]).unwrap(), "    x = x + 5;");
    assert_eq!(translate("x.-2", &mut ctx, &[]).unwrap(), "    x = x - 2;");
    assert_eq!(translate("x.*3", &mut ctx, &[]).unwrap(), "    x = x * 3;");
    assert_eq!(translate("x./4", &mut ctx, &[]).unwrap(), "    x = x / 4;");
}

#[test]
fn arithmetic_on_undeclared_is_error() {
    assert!(t("y.+5").unwrap_err().contains("unknown variable 'y'"));
}

#[test]
fn negative_literal_declares_when_new() {
    assert_eq!(t("x.-5").unwrap(), "    let mut x: i64 = -5;");
}

#[test]
fn negative_literal_still_subtracts_when_declared() {
    let mut ctx = Ctx::new(false);
    translate("x.10", &mut ctx, &[]).unwrap();
    assert_eq!(translate("x.-5", &mut ctx, &[]).unwrap(), "    x = x - 5;");
}

#[test]
fn bad_arithmetic_operand() {
    let mut ctx = Ctx::new(false);
    translate("x.1", &mut ctx, &[]).unwrap();
    // 'abc' would be a valid variable name; this is genuinely malformed
    assert!(t("x.+ab!c").unwrap_err().contains("bad arithmetic operand"));
}

#[test]
fn division_by_zero_is_compile_error() {
    let mut ctx = Ctx::new(false);
    translate("x.1", &mut ctx, &[]).unwrap();
    assert!(t("x./0").unwrap_err().contains("division by zero"));
    assert!(t("y./0").unwrap_err().contains("division by zero"));
}

// ---------- variable arithmetic ----------

#[test]
fn in_place_ops_accept_variables() {
    let mut ctx = declared_ctx();
    for (line, expected) in [
        ("i.+k", "    i = i + k;"),
        ("i.-k", "    i = i - k;"),
        ("i.*k", "    i = i * k;"),
        ("i./k", "    i = i / k;"),
        ("i.%k", "    i = i % k;"),
    ] {
        let out = translate(line, &mut ctx.clone(), &[]).unwrap();
        assert_eq!(out, expected, "{line}");
    }
}

#[test]
fn in_place_var_rhs_must_be_declared() {
    let mut ctx = Ctx::new(false);
    translate("i.1", &mut ctx, &[]).unwrap();
    assert!(t("i.+nope").unwrap_err().contains("unknown variable 'nope'"));
}

#[test]
fn modulo_by_zero_is_compile_error() {
    let mut ctx = Ctx::new(false);
    translate("x.1", &mut ctx, &[]).unwrap();
    assert!(t("x.%0").unwrap_err().contains("division by zero"));
}

// ---------- rnd and cls ----------

#[test]
fn rnd_declares_and_uses_modulo_range() {
    let out = t("rnd.x.50").unwrap();
    assert!(out.contains("let mut x: i64"), "{out}");
    assert!(out.contains("% 50.max(1)"), "{out}");
}

#[test]
fn rnd_reuses_existing_variable() {
    let mut ctx = Ctx::new(false);
    translate("rnd.x.10", &mut ctx, &[]).unwrap();
    let out = translate("rnd.x.20", &mut ctx, &[]).unwrap();
    assert!(out.starts_with("    x = "), "{out}");
    assert!(out.contains("% 20.max(1)"));
}

#[test]
fn rnd_bad_shapes_are_errors() {
    assert!(t("rnd.x").unwrap_err().contains("'<var>.<limit>'"));
    assert!(t("rnd.x.a").unwrap_err().contains("bad limit"));
    assert!(t("rnd.5.10").unwrap_err().contains("not a variable name"));
}

#[test]
fn cls_clears_screen_with_ansi() {
    let out = t("cls.").unwrap();
    assert!(out.contains("\\x1b[2J"));
    assert!(out.contains("flush"));
    assert!(t("cls.5").unwrap_err().contains("takes no operand"));
}

#[test]
fn reader_reprompts_instead_of_panic() {
    assert!(read_int_expr().contains("a whole number, please"));
    assert!(!read_int_expr().contains("expect("));
}

#[test]
fn copy_variable() {
    let mut ctx = Ctx::new(false);
    translate("a.7", &mut ctx, &[]).unwrap();
    assert_eq!(translate("b.a", &mut ctx, &[]).unwrap(), "    let mut b: i64 = a;");
}

#[test]
fn copy_from_undeclared_is_error() {
    assert!(t("b.zz").unwrap_err().contains("unknown variable 'zz'"));
}

#[test]
fn log_text_and_escaping() {
    assert_eq!(
        t(r#"log."hi {there}""#).unwrap(),
        r#"    println!("hi {{there}}");"#
    );
    assert!(t(r#"log."say "hi""#).is_err()); // inner quote ends the string early
}

#[test]
fn log_variable() {
    let mut ctx = Ctx::new(false);
    translate("n.1", &mut ctx, &[]).unwrap();
    assert_eq!(translate("log.n", &mut ctx, &[]).unwrap(), "    println!(\"{}\", n);");
}

#[test]
fn log_unknown_variable_is_error() {
    assert!(t("log.nope").unwrap_err().contains("unknown variable 'nope'"));
}

#[test]
fn log_text_plus_variable() {
    let mut ctx = Ctx::new(false);
    translate("n.1", &mut ctx, &[]).unwrap();
    assert_eq!(
        translate(r#"log."value = ".n"#, &mut ctx, &[]).unwrap(),
        r#"    println!("value = {}", n);"#
    );
}

#[test]
fn unterminated_string_is_error() {
    assert!(t(r#"log."oops"#).unwrap_err().contains("unterminated"));
}

#[test]
fn wait_command() {
    assert!(t("w.500")
        .unwrap()
        .contains("Duration::from_millis(500)"));
    assert!(t("w.abc").unwrap_err().contains("expects milliseconds"));
}

#[test]
fn quit_command() {
    assert_eq!(t("q.").unwrap(), "    return;");
    assert!(t("q.42").unwrap_err().contains("takes no operand"));
}

#[test]
fn input_command_declares_once() {
    let mut ctx = Ctx::new(false);
    let out = translate("in.x", &mut ctx, &[]).unwrap();
    assert!(out.contains("let mut x: i64"));
    let out = translate("in.x", &mut ctx, &[]).unwrap();
    assert!(out.starts_with("    x = "));
}

#[test]
fn ask_prompts_without_newline_then_reads() {
    let mut ctx = Ctx::new(false);
    let out = translate(r##"ask."num: ".x"##, &mut ctx, &[]).unwrap();
    assert!(out.starts_with(r#"    print!("num: ");"#));
    assert!(out.contains("let mut x: i64"));
    assert!(out.contains("read_line"));
}

#[test]
fn ask_rejects_missing_variable_or_bad_string() {
    assert!(t(r##"ask."no var""##).is_err());
    assert!(t(r##"ask."oops"##).is_err());
    assert!(t("ask.5").is_err());
}

#[test]
fn comments_and_blank_lines_are_skipped() {
    assert_eq!(t("# note").unwrap(), "");
    assert_eq!(t("").unwrap(), "");
    assert_eq!(t("   ").unwrap(), "");
}

#[test]
fn inline_comments_are_stripped_but_not_inside_strings() {
    let mut ctx = Ctx::new(false);
    assert_eq!(
        translate("x.10 # ten", &mut ctx, &[]).unwrap(),
        "    let mut x: i64 = 10;"
    );
    // '#' inside quotes is content, not a comment
    assert_eq!(
        translate(r##"log."#1 winner""##, &mut ctx, &[]).unwrap(),
        r##"    println!("#1 winner");"##
    );
}

#[test]
fn lines_without_dot_are_errors() {
    assert!(t("hello world").unwrap_err().contains("expected '<verb>.<operand>'"));
}

#[test]
fn unknown_command_is_reported() {
    assert!(t("5.x").unwrap_err().contains("unknown command '5'"));
    assert!(t("?.x").unwrap_err().contains("unknown command '?'"));
}

#[test]
fn reserved_words_rejected_as_variables() {
    assert!(t("log.10").unwrap_err().contains("log expects"));
    assert!(t("w.x").unwrap_err().contains("expects milliseconds"));
    assert!(t("j.x").unwrap_err().contains("unknown label 'x'"));
    assert!(t("jeq.x").is_err());
}

#[test]
fn missing_operand_is_error() {
    assert!(t("x.").unwrap_err().contains("missing operand"));
}

// ---------- conditional jumps ----------

fn tj(line: &str) -> Result<String, String> {
    let mut ctx = Ctx::new(false);
    let labels = ["top".to_string(), "end".to_string()];
    translate(line, &mut ctx, &labels)
}

fn declared_ctx() -> Ctx {
    let mut ctx = Ctx::new(false);
    translate("i.1", &mut ctx, &[]).unwrap();
    translate("k.2", &mut ctx, &[]).unwrap();
    ctx
}

#[test]
fn conditional_ops_map_to_rust_comparisons() {
    for (verb, op) in COND_OPS {
        let ctx = declared_ctx();
        let line = format!("{verb}.i.k.top");
        let out = translate(&line, &mut { ctx }, &["top".to_string()]).unwrap();
        assert!(out.contains(&format!("if i {op} k")), "{out}");
        assert!(out.contains("__pc = \"top\""), "{out}");
    }
}

#[test]
fn conditional_accepts_literal_rhs() {
    let mut ctx = declared_ctx();
    let out = translate("jlt.i.10.end", &mut ctx, &["end".to_string()]).unwrap();
    assert!(out.contains("if i < 10"));
    assert!(out.contains("__pc = \"end\";"));
}

#[test]
fn conditional_requires_declared_lhs() {
    assert!(tj("jeq.nope.1.top").unwrap_err().contains("unknown variable 'nope'"));
}

#[test]
fn conditional_rejects_bad_shape() {
    assert!(tj("jeq.i.1").unwrap_err().contains("expects '<var>.<value>.<label>'"));
    let mut ctx = declared_ctx();
    assert!(
        translate("jeq.i.x y.top", &mut ctx, &["top".to_string()])
            .unwrap_err()
            .contains("bad comparison operand")
    );
}

#[test]
fn jump_unknown_label_is_error() {
    assert!(tj("j.nowhere").unwrap_err().contains("unknown label 'nowhere'"));
}

// ---------- compile(): modes, labels, machine ----------

#[test]
fn compile_collects_diagnostics_with_line_numbers() {
    let src = "x.10\nz.\nlog.zz\n";
    let errs = compile(src).unwrap_err();
    assert_eq!(errs.len(), 2);
    assert!(errs[0].starts_with("line 2:"));
    assert!(errs[1].starts_with("line 3:"));
}

#[test]
fn statements_split_on_semis_comments_and_newlines() {
    let stmts = split_statements("x.10; log.\"a;b\".x # trailing\ny.2");
    let texts: Vec<(usize, &str)> =
        stmts.iter().map(|(n, s)| (*n, s.as_str())).collect();
    // ';' inside the string survives, comment cuts the rest of its line
    assert_eq!(texts, [(1, "x.10"), (1, " log.\"a;b\".x "), (2, "y.2")]);
}

#[test]
fn whole_program_on_one_line_compiles_to_machine() {
    let body =
        compile("i.3; :top; log.i; i.-1; jgt.i.0.top; q.").unwrap();
    assert!(body.contains("let mut __pc = \"@begin\";"));
    assert!(body.contains("\"top\" => {"));
}

#[test]
fn semicolon_errors_keep_real_line_numbers() {
    let errs = compile("x.1\nz.; log.zz\n").unwrap_err();
    assert_eq!(errs.len(), 2);
    assert!(errs[0].starts_with("line 2:"));
    assert!(errs[1].starts_with("line 2:"));
}

#[test]
fn compile_happy_path_generates_body() {
    let body = compile("x.3\nlog.\"n = \".x\n").unwrap();
    assert!(body.contains("let mut x: i64 = 3;"));
    assert!(body.contains("println!(\"n = {}\", x);"));
    assert!(!body.contains("__pc")); // linear mode stays flat
}

#[test]
fn duplicate_labels_are_errors() {
    let errs = compile(":top\n:top\n").unwrap_err();
    assert!(errs[0].contains("duplicate label 'top'"));
}

#[test]
fn bad_label_names_are_errors() {
    let errs = compile(":9lives\n").unwrap_err();
    assert!(errs[0].contains("bad label"));
}

#[test]
fn machine_mode_wraps_body_in_state_loop() {
    let body = compile("i.3\n:top\nj.top\n").unwrap();
    assert!(body.contains("let mut __pc = \"@begin\";"));
    assert!(body.contains("'__run: loop {"));
    assert!(body.contains("match __pc {"));
    assert!(body.contains("\"top\" => {"));
}

#[test]
fn machine_mode_hoists_declarations() {
    let src = "a.5\nb.a\nj.done\n:done\nlog.b\n";
    let body = compile(src).unwrap();
    assert_eq!(body.matches("let mut a: i64").count(), 1);
    assert!(body.contains("let mut b: i64 = 0;")); // hoisted with safe init
    assert!(body.contains("    b = a;") || body.contains("\n    b = a;"));
}

#[test]
fn machine_mode_last_segment_exits_loop() {
    let body = compile(":only\nq.\n").unwrap();
    assert!(body.contains("break '__run;"));
}

#[test]
fn machine_mode_q_breaks_instead_of_return() {
    let body = compile(":top\nq.\nj.top\n").unwrap();
    assert!(body.contains("break '__run;"));
    assert!(!body.contains("    return;"));
}

#[test]
fn countdown_example_shapes_correctly() {
    let src = "i.3\n:top\nlog.\"t minus \".i\ni.-1\njgt.i.0.top\nlog.\"liftoff\"\nq.\n";
    let body = compile(src).unwrap();
    assert!(body.contains("if i > 0 {\n            __pc = \"top\";") || body.contains("if i > 0 {"));
    assert!(body.contains("\"top\" => {"));
    // i hoisted once, then decremented in place
    assert_eq!(body.matches("let mut i: i64").count(), 1);
    assert!(body.contains("i = i - 1;"));
}

#[test]
fn jump_before_declaration_still_compiles() {
    // textual order lies in machine mode; hoisting makes this valid
    let body = compile("j.skip\nx.10\n:skip\nlog.x\n").unwrap();
    assert!(body.contains("let mut x: i64 = 10;"));
    assert!(body.contains("__pc = \"skip\";"));
}
