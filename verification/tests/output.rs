use crok::failure::{format_match_trace_tree, PatternTraceNote};
use crok::output::engine::{Lines, OutputMatchContext};
use crok::output::grok::GrokPattern;
use crok::output::pattern::{OutputPattern, OutputPatternType, OutputPatterns};
use crok::output::show::PatternTree;
use crok::parser::checked_parse_script;
use crok::parser::v0::normalize::normalize_segments;
use crok::parser::v0::patterns::parse_script_v0_segments;
use crok::parser::v0::segment::segment_script;
use crok::script::{ScriptBlock, ScriptFile, ScriptLine, ScriptLocation, ScriptRunContext};

fn parse_patterns(pattern: &str) -> OutputPattern {
    let lines = ScriptLine::parse(ScriptFile::new("test.cli"), pattern);
    let segments = segment_script(true, &mut lines.as_slice()).unwrap();
    let normalized = normalize_segments(segments);
    let builder = match parse_script_v0_segments(&normalized) {
        Ok(builder) => builder,
        Err(_) => panic!("not parsed"),
    };
    let mut all = OutputPattern::new_sequence(
        ScriptLocation::new(ScriptFile::new("test.cli"), 1),
        builder.patterns,
    );
    if !builder.ignore.is_empty() {
        all.ignore = OutputPatterns::new(builder.ignore);
    }
    if !builder.reject.is_empty() {
        all.reject = OutputPatterns::new(builder.reject);
    }
    all
}

fn parse_pattern(pattern: &str) -> OutputPattern {
    let lines = ScriptLine::parse(ScriptFile::new("test.cli"), pattern);
    let segments = segment_script(true, &mut lines.as_slice()).unwrap();
    let normalized = normalize_segments(segments);
    match parse_script_v0_segments(&normalized) {
        Ok(builder) => builder.patterns.first().unwrap().clone(),
        Err(_) => panic!("not parsed"),
    }
}

fn parse_lines(lines: &str) -> Lines {
    Lines::new(lines.lines().map(|l| l.to_string()).collect::<Vec<_>>())
}

fn prepared(pattern: &str) -> OutputPattern {
    let grok = grok::Grok::with_default_patterns();
    match parse_patterns(pattern).prepare(&grok) {
        Ok(p) => p,
        Err(e) => panic!("not prepared: {}", e.error),
    }
}

/// The lines left behind a match, or the failure.
fn run_with(pattern: &str, output: &str, context: &ScriptRunContext) -> Result<Vec<String>, String> {
    let pattern = prepared(pattern);
    let mut context = OutputMatchContext::new(context);
    match pattern.checked_matches(&mut context, parse_lines(output)) {
        None => panic!("not sure to end"),
        Some(Ok(lines)) => Ok(lines.into_inner()),
        Some(Err(e)) => Err(e.message("x")),
    }
}

fn run(pattern: &str, output: &str) -> Result<Vec<String>, String> {
    run_with(pattern, output, &ScriptRunContext::default())
}

fn none() -> Vec<String> {
    Vec::new()
}

#[test]
fn test_v0_patterns() {
    let patterns = vec![
        parse_pattern("! a\n! b\n! c\n"),
        parse_pattern("!!!\na\nb\nc\n!!!\n"),
    ];

    let context = ScriptRunContext::default();
    let mut context = OutputMatchContext::new(&context);
    let output = parse_lines("a\nb\nc\n");

    for pattern in patterns {
        let result = pattern.matches(&mut context, output.clone());
        assert!(result.is_ok());
    }
}

#[test]
fn test_v0_block_pattern() {
    let pattern = r#"
        repeat {
            choice {
    ? pattern1 %{DATA}
    ? pattern2 %{DATA}
    ? pattern3 %{DATA}
            }
        }
        "#;
    let pattern = parse_pattern(pattern);
    assert_eq!(
        pattern.to_debug(),
        "Repeat(Choice([Pattern(/\"pattern1 %{DATA}\\\\s*$\"/), Pattern(/\"pattern2 %{DATA}\\\\s*$\"/), Pattern(/\"pattern3 %{DATA}\\\\s*$\"/)]))"
    );
}

#[test]
fn literal_lines_match_exact_output() {
    assert_eq!(run("! a\n! b\n", "a\nb  \nc\n"), Ok(vec!["c".to_string()]));
    assert_eq!(
        run("! a\n! b\n", "a\nx\n"),
        Err("\"b\" at line x does not match output line \"x\"".to_string())
    );
    assert_eq!(
        run("! a\n! b\n", "a\n"),
        Err("\"b\" at line x does not match output".to_string())
    );
    assert_eq!(run("! red\n", "\x1b[31mred\x1b[0m\n"), Ok(none()));
}

#[test]
fn grok_patterns_match() {
    assert_eq!(run("! [%{WORD}] Hello, %{GREEDYDATA}\n", "[LOG] Hello, world!\n"), Ok(none()));
    assert_eq!(run("? \\[%{log=(LOG)}\\] %{GREEDYDATA}\n", "[LOG] Hello\n"), Ok(none()));
    assert_eq!(run("? ^  X  $\n", "  X  \n"), Ok(none()));
    assert_eq!(run("? Count: %{NUMBER}\n", "\x1b[1mCount: 42\x1b[0m\n"), Ok(none()));
    assert_eq!(
        run("? Count: %{NUMBER}\n", "Count: x\n"),
        Err("pattern \"Count: %{NUMBER}\" at line x does not match output line \"Count: x\"".to_string())
    );
}

#[test]
fn names_keep_one_value() {
    assert_eq!(run("! %{WORD:a} %{WORD:a2}\n! %{WORD:a}\n", "x y\nx\n"), Ok(none()));
    let pattern = prepared("! %{WORD:a}\n! %{WORD:a}\n");
    let context = ScriptRunContext::default();
    let mut context = OutputMatchContext::new(&context);
    let result = pattern.matches(&mut context, parse_lines("x\ny\n"));
    assert!(result.is_err());
    assert_eq!(context.expects(), vec![("a".to_string(), "y".to_string())]);
    let traces = context.traces();
    assert!(matches!(
        &traces[0].children[1].note,
        Some(PatternTraceNote::AliasMismatch(a, b)) if a == "x" && b == "y"
    ));
    assert_eq!(
        format_match_trace_tree(&traces),
        "[XX] missed sequence { ... }\n\
         \u{20} [OK] matched pattern \"%{WORD:a}\" = \"x\"\n\
         \u{20} [XX] missed pattern \"%{WORD:a}\" != \"y\" (alias conflict: \"x\" != \"y\")\n"
    );
    context.expect("a", "z".to_string());
    assert_eq!(context.expects(), vec![("a".to_string(), "z".to_string())]);
}

#[test]
fn wildcards_are_lazy() {
    assert_eq!(run("! a\n*\n! d\n! e\n", "a\nb\nc\nd\ne\n"), Ok(none()));
    assert_eq!(run("*\n! a\n", "x\na\na\n"), Ok(vec!["a".to_string()]));
    assert_eq!(
        run("*\n! q\n", "a\nb\n"),
        Err("\"q\" at line x does not match output".to_string())
    );
    assert_eq!(
        run("repeat {\n! start\n*\n! end\n}\n", "start\n1\nend\nstart\nend\n"),
        Ok(none())
    );
}

#[test]
fn blocks_match() {
    assert_eq!(run("repeat {\nchoice {\n! a\n! b\n}\n}\n", "a\nb\na\nc\n"), Ok(vec!["c".to_string()]));
    assert!(run("repeat {\n! a\n}\n", "b\n").is_err());
    assert_eq!(run("unordered {\n! a\n! b\n! c\n}\n", "b\na\nc\n"), Ok(none()));
    assert_eq!(
        run("unordered {\n! a\n! b\n}\n", "b\nc\n"),
        Err("unordered { ... } at line x does not match output line \"c\"".to_string())
    );
    assert_eq!(
        run("choice {\n! a\n! b\n}\n", "c\n"),
        Err("choice { ... } at line x does not match output line \"c\"".to_string())
    );
    assert_eq!(run("sequence {\n! a\n! b\n}\n", "a\nb\n"), Ok(none()));
    assert_eq!(run("optional {\n! a\n}\n! b\n", "b\n"), Ok(none()));
    assert_eq!(run("optional {\n! a\n}\n! b\n", "a\nb\n"), Ok(none()));
}

#[test]
fn not_takes_up_no_lines() {
    assert_eq!(run("not {\n! ERROR\n}\n", "Hello\n"), Ok(vec!["Hello".to_string()]));
    assert_eq!(
        run("not {\n! ERROR\n}\n", "ERROR\n"),
        Err("not { ... } at line x does not match output line \"ERROR\"".to_string())
    );
}

#[test]
fn skipped_and_rejected_lines() {
    let warned = "ignore {\n? WARNING: %{DATA}\n}\n! Hello\n! World\n";
    assert_eq!(run(warned, "WARNING: a\nHello\nWARNING: b\nWARNING: c\nWorld\n"), Ok(none()));
    assert_eq!(
        run("reject {\n! ERROR\n}\n! Hello\n! World\n", "Hello\nERROR\n"),
        Err("reject at line x rejected output line \"ERROR\"".to_string())
    );
    let expected = "reject {\nsequence {\nnot {\n! ERROR: a\n}\n! ERROR: %{GREEDYDATA}\n}\n}\n! ERROR: a\n! x\n";
    assert_eq!(run(expected, "ERROR: a\nx\n"), Ok(none()));
    assert!(run(expected, "ERROR: a\nERROR: b\n").is_err());
}

#[test]
fn conditions_choose_patterns() {
    let context = ScriptRunContext {
        env: vec![("TARGET_OS".to_string(), "linux".to_string())],
    };
    let pattern = "if $TARGET_OS == \"linux\" {\n! Linux\n}\nif $TARGET_OS != \"linux\" {\n! Other\n}\n";
    assert_eq!(run_with(pattern, "Linux\n", &context), Ok(none()));
    assert_eq!(run_with(pattern, "Other\n", &ScriptRunContext::default()), Ok(none()));
    let p = prepared(pattern);
    let mut c = OutputMatchContext::new(&context);
    assert!(p.matches(&mut c, parse_lines("Linux\n")).is_ok());
    assert_eq!(
        format_match_trace_tree(&c.traces()),
        "[OK] matched sequence { ... }\n\
         \u{20} [OK] matched if { ... } (if EnvEq(false, \"$TARGET_OS\", \"linux\"))\n\
         \u{20}   [OK] matched \"Linux\"\n\
         \u{20} [OK] matched if { ... } (if skipped EnvEq(true, \"$TARGET_OS\", \"linux\"))\n"
    );
}

#[test]
fn traces_show_what_was_tried() {
    let pattern = prepared("ignore {\n! i\n}\n! a\nunordered {\n! b\n! c\n}\n");
    let context = ScriptRunContext::default();
    let mut context = OutputMatchContext::new(&context);
    assert!(pattern.matches(&mut context, parse_lines("i\na\nc\nb\n")).is_ok());
    let text = format_match_trace_tree(&context.traces());
    assert!(text.starts_with("[OK] matched sequence { ... }\n  [OK]- matched \"i\" (ignore)\n"));
    assert!(text.contains("  [XX]- missed \"i\" != \"a\" (ignore)\n  [OK] matched \"a\"\n"));
    assert!(context.traces().is_empty());
}

#[test]
fn open_blocks_are_traced_as_they_are() {
    let context = ScriptRunContext::default();
    let mut context = OutputMatchContext::new(&context);
    context.composite_pattern_begin(OutputPatternType::End);
    context.composite_pattern_begin(OutputPatternType::Nothing);
    context.composite_pattern_end(true, None, None);
    let traces = context.traces();
    assert_eq!(traces.len(), 1);
    assert!(!traces[0].succeeded);
    assert_eq!(traces[0].children.len(), 1);
    assert!(traces[0].children[0].succeeded);
}

#[test]
fn the_end_is_matched() {
    let context = ScriptRunContext::default();
    let mut context = OutputMatchContext::new(&context);
    let location = ScriptLocation::new(ScriptFile::new("t"), 1);
    let end = OutputPatternType::End;
    assert!(end.matches(&location, &mut context, parse_lines("")).is_ok());
    match end.matches(&location, &mut context, parse_lines("a\n")) {
        Ok(_) => panic!("matched"),
        Err(e) => assert_eq!(e.message("1"), "<eof> at line 1 does not match output line \"a\""),
    }
}

#[test]
fn lines_are_read_one_by_one() {
    let context = ScriptRunContext::default();
    let mut context = OutputMatchContext::new(&context);
    let lines = parse_lines("a\nb\n");
    assert!(!lines.is_empty());
    assert_eq!(lines.next_line().unwrap().text, "a");
    let (line, rest) = match lines.next(&mut context) {
        Ok(found) => found,
        Err(_) => panic!("rejected"),
    };
    assert_eq!(line.unwrap().number, 0);
    assert_eq!(rest.to_text(), "b");
    assert!(!rest.is_exhausted());
    let (line, rest) = match rest.next(&mut context) {
        Ok(found) => found,
        Err(_) => panic!("rejected"),
    };
    assert_eq!(line.unwrap().text, "b");
    assert!(rest.is_exhausted());
    assert!(rest.next_line().is_none());
}

#[test]
fn counts_of_lines() {
    let p = parse_patterns("! a\nrepeat {\n! b\n! c\n}\noptional {\n! d\n}\nchoice {\n! e\nsequence {\n! f\n! g\n}\n}\n");
    assert_eq!(p.min_matches(), 4);
    assert_eq!(p.max_matches(), usize::MAX);
    let p = parse_patterns("! a\noptional {\n! d\n}\nchoice {\n! e\nsequence {\n! f\n! g\n}\n}\nnot {\n! h\n}\n");
    assert_eq!(p.min_matches(), 2);
    assert_eq!(p.max_matches(), 4);
    assert_eq!(parse_patterns("repeat {\nnot {\n! a\n}\n}\n").max_matches(), 0);
    assert_eq!(parse_patterns("*\n! a\n").min_matches(), 1);
    assert_eq!(parse_patterns("if true {\n! a\n! b\n}\n! c\n").min_matches(), 1);
    assert_eq!(parse_patterns("if true {\n! a\n! b\n}\n! c\n").max_matches(), 3);
}

#[test]
fn endless_patterns_are_told_apart() {
    let context = ScriptRunContext::default();
    let mut context = OutputMatchContext::new(&context);
    let endless = prepared("repeat {\noptional {\n! a\n}\n}\n");
    assert!(!endless.is_ready(&ScriptRunContext::default()));
    assert!(endless.checked_matches(&mut context, parse_lines("b\n")).is_none());
    let unprepared = parse_patterns("! %{WORD}\n! a\n");
    assert!(!unprepared.is_ready(&ScriptRunContext::default()));
    assert!(unprepared.checked_matches(&mut context, parse_lines("b\n")).is_none());
    let ready = prepared("! %{WORD}\n! a\n");
    assert!(ready.is_ready(&ScriptRunContext::default()));
    let lines = parse_lines("b\n").with_ignore(&OutputPatterns::new(vec![endless.clone()]));
    assert!(!lines.is_ready(&ScriptRunContext::default()));
    assert!(ready.checked_matches(&mut context, lines).is_none());
    let lines = parse_lines("b\na\n").with_reject(&OutputPatterns::new(vec![prepared("! c\n")]));
    assert!(matches!(ready.checked_matches(&mut context, lines), Some(Ok(_))));
}

#[test]
fn conditions_are_evaluated_before_matching() {
    assert_eq!(run("repeat {\nif true {\n! x\n}\n}\n", "x\nx\ny\n"), Ok(vec!["y".to_string()]));
    let context = ScriptRunContext {
        env: vec![("OS".to_string(), "linux".to_string())],
    };
    let pattern = "repeat {\nif $OS == linux {\n! x\n}\n}\n";
    assert_eq!(run_with(pattern, "x\nx\n", &context), Ok(none()));
    let mut unset = OutputMatchContext::new(&context);
    let never = prepared("repeat {\nif $OS == other {\n! x\n}\n}\n");
    assert!(never.checked_matches(&mut unset, parse_lines("x\n")).is_none());
    assert_eq!(
        run("if false {\nrepeat {\noptional {\n! x\n}\n}\n}\n! y\n", "y\n"),
        Ok(none())
    );
}

#[test]
fn patterns_are_prepared_with_definitions() {
    let mut grok = grok::Grok::empty();
    let p = parse_patterns("! a\nrepeat {\n! %{MINE}\n}\n");
    let e = match p.prepare(&grok) {
        Ok(_) => panic!("prepared"),
        Err(e) => e,
    };
    assert_eq!(e.location.line, 3);
    assert_eq!(e.pattern, "%{MINE}$");
    assert!(!e.error.is_empty());
    grok.add_pattern("MINE", "[0-9]+");
    let p = match p.prepare(&grok) {
        Ok(p) => p,
        Err(_) => panic!("not prepared"),
    };
    let context = ScriptRunContext::default();
    let mut context = OutputMatchContext::new(&context);
    assert!(p.matches(&mut context, parse_lines("a\n42\n")).is_ok());
    assert!(p.matches(&mut context, parse_lines("a\nx\n")).is_err());
    // A prepared pattern stays as it is.
    let again = match p.prepare(&grok::Grok::empty()) {
        Ok(p) => p,
        Err(_) => panic!("not prepared"),
    };
    assert!(again.matches(&mut context, parse_lines("a\n42\n")).is_ok());
}

#[test]
fn grok_patterns_are_compiled() {
    let p = GrokPattern::compile("a.b %{WORD:x} %{NUMBER}", "orig".to_string(), true).unwrap_or_else(|e| panic!("{}", e));
    assert_eq!(p.display_source(), "orig");
    assert_eq!(p.source(), "a\\.b\\ %{WORD:x}\\ %{NUMBER}$");
    assert!(!p.is_prepared());
    let p = match p.prepare(&grok::Grok::with_default_patterns()) {
        Ok(p) => p,
        Err(e) => panic!("{}", e),
    };
    assert!(p.is_prepared());
    let found = p.matches("a.b foo 3").unwrap();
    assert!(found.contains(&("x".to_string(), "foo".to_string())));
    assert!(p.matches("axb foo 3").is_none());
    let bad = |line: &str| GrokPattern::compile(line, String::new(), false).err();
    assert!(bad("(").is_some());
    assert_eq!(bad("%{a b}"), Some("Invalid character in pattern: ' '".to_string()));
    assert!(bad("%{a").is_some());
}

#[test]
fn patterns_as_plain_data() {
    let p = parse_patterns("! a\n? b\nrepeat {\n! c\n}\nunordered {\n! d\n! e\n}\n*\n! f\nif true {\n! g\n}\n");
    let list = match p.to_tree() {
        PatternTree::List("sequence", list) => list,
        _ => panic!("no list"),
    };
    assert!(matches!(&list[0], PatternTree::Text(t) if t == "! a"));
    assert!(matches!(&list[1], PatternTree::Text(t) if t == "b"));
    assert!(matches!(&list[2], PatternTree::Block("repeat", t) if matches!(&**t, PatternTree::Text(_))));
    assert!(matches!(&list[3], PatternTree::List("unordered", v) if v.len() == 2));
    assert!(matches!(&list[4], PatternTree::Block("any", _)));
    assert!(matches!(&list[5], PatternTree::If(_, _)));
}

#[test]
fn lists_of_patterns_grow() {
    let mut list = OutputPatterns::default();
    assert!(list.is_empty());
    list.extend(&OutputPatterns::new(vec![parse_pattern("! a\n")]));
    list.extend(&OutputPatterns::new(vec![parse_pattern("! b\n"), parse_pattern("! c\n")]));
    assert_eq!(list.len(), 3);
    let shown: Vec<String> = list.patterns.iter().map(|p| p.to_debug()).collect();
    assert_eq!(shown, vec!["\"a\"", "\"b\"", "\"c\""]);
}

#[test]
fn kinds_of_patterns_are_presented() {
    let p = parse_pattern("? a\n");
    assert_eq!(p.pattern.keyword(), "? ...");
    assert!(!p.pattern.is_container());
    assert_eq!(p.pattern.trace_string(), "pattern \"a\"");
    let p = parse_pattern("*\n! b\n");
    assert_eq!(p.pattern.keyword(), "*");
    assert!(!p.pattern.is_container());
    assert_eq!(p.pattern.trace_string(), "* ... \"b\"");
    let p = OutputPatternType::Any(Box::new(OutputPattern::bare(
        ScriptLocation::new(ScriptFile::new("t"), 1),
        OutputPatternType::End,
    )));
    assert_eq!(p.trace_string(), "*");
    let p = parse_pattern("repeat {\n! b\n}\n");
    assert_eq!(p.pattern.trace_string(), "repeat { ... }");
    assert!(p.pattern.is_container());
    assert_eq!(OutputPatternType::Nothing.trace_string(), "None");
    assert_eq!(OutputPatternType::Nothing.keyword(), "none");
}

/// Whether the output of a command with some patterns matches.
fn command_passes(patterns: &str, output: &str) -> bool {
    let script = format!("#!/usr/bin/env crok --v0\n$ x\n{}", patterns);
    let script = match checked_parse_script(ScriptFile::new("test.cli"), &script) {
        Some(Ok(script)) => script,
        _ => panic!("not parsed"),
    };
    let pattern = match &script.commands[0] {
        ScriptBlock::Command(c) => c.pattern.clone(),
        _ => panic!("no command"),
    };
    let context = ScriptRunContext::default();
    let mut context = OutputMatchContext::new(&context);
    matches!(
        pattern.checked_matches(&mut context, parse_lines(output)),
        Some(Ok(_))
    )
}

#[test]
fn all_output_is_taken_up() {
    assert!(command_passes("", ""));
    assert!(!command_passes("", "a\n"));
    assert!(command_passes("! a\n", "a\n"));
    assert!(!command_passes("! a\n", "a\nb\n"));
    assert!(command_passes("! a\n*\n", "a\nb\nc\n"));
    assert!(command_passes("ignore {\n! b\n}\n! a\n", "a\nb\n"));
    assert!(!command_passes("reject {\n! b\n}\n! a\n*\n", "a\nb\n"));
}

#[test]
fn unordered_lines_count() {
    let pattern = "unordered {\n! a\n! a\n! b\n}\n";
    assert_eq!(run(pattern, "a\nb\na\nc\n"), Ok(vec!["c".to_string()]));
    assert!(run(pattern, "a\nb\nb\n").is_err());
    assert!(run(pattern, "a\nb\n").is_err());
    assert_eq!(run("unordered {\n}\n! x\n", "x\n"), Ok(none()));
}

#[test]
fn choice_takes_the_first_match() {
    let pattern = "choice {\nsequence {\n! a\n! b\n}\n! a\n}\n";
    assert_eq!(run(pattern, "a\nb\n"), Ok(none()));
    assert_eq!(run(pattern, "a\nc\n"), Ok(vec!["c".to_string()]));
}

#[test]
fn repeat_goes_on_as_long_as_it_can() {
    let pattern = "repeat {\nsequence {\n! a\n! b\n}\n}\n";
    assert_eq!(run(pattern, "a\nb\na\nb\na\n"), Ok(vec!["a".to_string()]));
    assert!(run(pattern, "a\na\n").is_err());
}
