use crok::output::pattern::OutputPatternType;
use crok::parser::v0::command_line::parse_command_line;
use crok::parser::v0::normalize::normalize_segments;
use crok::parser::v0::segment::{segment_script, ScriptV0Segment};
use crok::parser::v0::show::show_segments;
use crok::parser::{
    attach_includes, checked_parse_script, parse_script, parse_script_files, script_path,
    ScriptReadError,
};
use crok::script::{
    CommandExit, ForCondition, IfCondition, InternalCommand, Script, ScriptBlock, ScriptCommand,
    ScriptError, ScriptErrorType, ScriptFile, ScriptLine, ScriptLocation, ScriptRunContext,
};
use crok::util::path::Platform;
use crok::util::shell::ShellBit;

fn file() -> ScriptFile {
    ScriptFile::new("test.cli")
}

fn parse(body: &str) -> Result<Script, ScriptError> {
    let script = format!("#!/usr/bin/env crok --v0\n{}", body);
    checked_parse_script(file(), &script).expect("script can be read")
}

fn error_of(body: &str) -> (ScriptErrorType, usize, Option<String>) {
    match parse(body) {
        Ok(_) => panic!("parsed: {}", body),
        Err(e) => (e.error, e.location.line, e.data),
    }
}

fn unreadable(body: &str) -> bool {
    let script = format!("#!/usr/bin/env crok --v0\n{}", body);
    checked_parse_script(file(), &script).is_none()
}

fn only_command(body: &str) -> ScriptCommand {
    let script = parse(body).unwrap();
    for block in script.commands {
        if let ScriptBlock::Command(c) = block {
            return c;
        }
    }
    panic!("no command")
}

#[test]
fn accepts_clitest_shebang() {
    let script = "#!/usr/bin/env clitest --v0\n\n$ echo hi\n! hi\n";
    assert!(parse_script(ScriptFile::new("test.cli"), script).is_ok());
}

#[test]
fn accepts_clitest_shebang_without_v0_flag() {
    let script = "#!/usr/bin/env clitest\n\n$ echo hi\n! hi\n";
    assert!(parse_script(ScriptFile::new("test.cli"), script).is_ok());
}

#[test]
fn refuses_other_headers() {
    for script in ["", "$ echo hi\n", "#!/usr/bin/env crok\n", " #!/usr/bin/env crok --v0\n"] {
        match checked_parse_script(file(), script) {
            Some(Err(e)) => {
                assert_eq!(e.error, ScriptErrorType::InvalidVersion);
                assert_eq!(e.location.line, 1);
            }
            _ => panic!("accepted"),
        }
    }
}

const SEGMENTS: &str = r#"
ignore {
  ! pattern
}
$ echo "hello"
ignore {
  ! pattern
}
$ echo "world"
"#;

#[test]
fn test_segments() {
    let lines = ScriptLine::parse(ScriptFile::new("test"), SEGMENTS);
    let segments = segment_script(true, &mut lines.as_slice()).unwrap();
    assert_eq!(segments.len(), 5);
    let normalized = normalize_segments(segments);
    assert_eq!(
        show_segments(&normalized, ""),
        ":2 \"ignore\"[] {\n  :3 [\n    \"! pattern\"\n  ]\n}\n\
         :5 $[\n  \"$ echo \\\"hello\\\"\"\n]\n\
         :6 \"ignore\"[] {\n  :7 [\n    \"! pattern\"\n  ]\n}\n\
         :8 [\n  \"end\"\n]\n\
         :9 $[\n  \"$ echo \\\"world\\\"\"\n]\n\
         :8 [\n  \"end\"\n]\n"
    );
}

#[test]
fn test_parse_command_line() {
    let location = ScriptLocation::new(ScriptFile::new("test"), 1);

    let command = "echo 'hello' && echo 'world'";
    let command = parse_command_line(location.clone(), 1, command).unwrap();
    assert_eq!(command.command, "echo 'hello' && echo 'world'");

    let command = r#"echo "hello\n" && echo 'world'"#;
    let command = parse_command_line(location.clone(), 1, command).unwrap();
    assert_eq!(command.command, r#"echo "hello\n" && echo 'world'"#);

    let command = r#"echo "hello\x1b" && echo 'world'"#;
    let command = parse_command_line(location.clone(), 1, command).unwrap();
    assert_eq!(command.command, r#"echo "hello\x1b" && echo 'world'"#);
}

fn command_error(command: &str) -> Option<ScriptErrorType> {
    let location = ScriptLocation::new(ScriptFile::new("test"), 1);
    parse_command_line(location, 1, command).err()
}

#[test]
fn commands_are_refused() {
    assert_eq!(command_error("echo 'a"), Some(ScriptErrorType::UnclosedQuote));
    assert_eq!(command_error("echo \"a"), Some(ScriptErrorType::UnclosedQuote));
    assert_eq!(command_error("echo a \\"), Some(ScriptErrorType::UnclosedBackslash));
    assert_eq!(command_error("echo \"a\\"), Some(ScriptErrorType::UnclosedBackslash));
    assert_eq!(
        command_error("sleep 1 &"),
        Some(ScriptErrorType::BackgroundProcessNotAllowed)
    );
    assert_eq!(
        command_error("sleep 1 & echo a"),
        Some(ScriptErrorType::BackgroundProcessNotAllowed)
    );
    for background in ["sleep 1&", "sleep 1& echo a", "a&b", "a&&b&", "'a'&", "a\\>&", "a 2>&1&",
        "echo $(a&)", "echo $((6))&", "echo ${x}&", "echo ${x:-$(a&)}", "\\((a&", "$((1)) (a&b)",
        "echo $(( 6 & 3 ))"] {
        assert_eq!(
            command_error(background),
            Some(ScriptErrorType::BackgroundProcessNotAllowed),
            "{}",
            background
        );
    }
    for foreground in ["a&&b", "a 2>&1", "a 0<&3", "'a&'", "\"a&\"", "a\\&", "a # &", "a&& b",
        "echo $((6&3))", "echo $(((6)&3))", "((6&3))", "echo ${x&y}", "echo ${x:-$((6&3))}",
        "a|&b", "make&>log", "a |\u{17c}|"] {
        assert_eq!(command_error(foreground), None, "{}", foreground);
    }
    assert_eq!(
        command_error("a ;\u{126}& b"),
        Some(ScriptErrorType::BackgroundProcessNotAllowed)
    );
    assert_eq!(command_error("echo a >& f"), Some(ScriptErrorType::UnsupportedRedirection));
    assert_eq!(command_error("echo a |"), Some(ScriptErrorType::IllegalShellCommand));
    assert_eq!(command_error("echo a ;"), None);
    assert_eq!(command_error("echo a || echo b"), None);
}

#[test]
fn a_comment_ends_a_command() {
    assert_eq!(command_error("echo a # it's"), None);
    assert_eq!(command_error("echo a#it's"), None);
    assert_eq!(command_error("# it's & more"), None);
    assert_eq!(command_error("echo '# it"), Some(ScriptErrorType::UnclosedQuote));
}

#[test]
fn a_backslash_escapes_the_next_character() {
    assert_eq!(command_error("echo it\\'s"), None);
    assert_eq!(command_error("echo \"a\\\"b\""), None);
    assert_eq!(command_error("echo 'a\\'"), None);
}

#[test]
fn lines_are_split_and_numbered() {
    let lines = ScriptLine::parse(ScriptFile::new("test"), "a\r\n b \n\nc\r");
    let texts: Vec<&str> = lines.iter().map(|l| l.text_untrimmed()).collect();
    assert_eq!(texts, vec!["a", " b ", "", "c\r"]);
    assert_eq!(lines[1].text(), "b");
    assert_eq!(lines[3].location.line, 4);
    assert!(lines[2].is_empty());
    assert!(lines[1].starts_with("b"));
}

#[test]
fn white_space_is_that_of_unicode() {
    for n in 0..0x11_0000u32 {
        if let Some(c) = char::from_u32(n) {
            assert_eq!(crok::util::text::is_whitespace(c), c.is_whitespace());
            assert_eq!(crok::util::text::is_alphabetic(c), c.is_alphabetic());
        }
    }
}

#[test]
fn every_line_stands_in_one_segment() {
    fn spanned(segments: &[ScriptV0Segment]) -> usize {
        segments
            .iter()
            .map(|s| match s {
                ScriptV0Segment::Block(b) => b.lines.len(),
                ScriptV0Segment::SubBlock(_, _, _, inner) => 2 + spanned(inner),
                ScriptV0Segment::Semi(_, _, _) => 1,
            })
            .sum()
    }
    let script = "# a\n\n$ echo \\\n  b\n%EXIT 1\n! b\nif true {\n$ c\n*\n}\ncd x;\n!!!\n}\n!!!\n";
    let lines = ScriptLine::parse(ScriptFile::new("test"), script);
    let segments = segment_script(true, &mut lines.as_slice()).unwrap();
    assert_eq!(spanned(&segments), lines.len());
}

#[test]
fn a_block_is_a_command_where_its_first_block_is() {
    let block = |body: &str| {
        let lines = ScriptLine::parse(ScriptFile::new("test"), body);
        let segments = segment_script(true, &mut lines.as_slice()).unwrap();
        normalize_segments(segments).remove(0)
    };
    let patterns_first = block("if true {\n! a\n$ x\n}\n");
    assert!(!patterns_first.is_command_block());
    assert!(patterns_first.contains_command());
    assert!(block("if true {\n$ x\n! a\n}\n").is_command_block());
    assert!(block("cd x;\n").is_command_block());
    assert!(!block("repeat {\n! a\n}\n").contains_command());
}

#[test]
fn a_block_is_split_up_to_its_brace() {
    let lines = ScriptLine::parse(ScriptFile::new("test"), "! a\n}\n! b\n");
    let mut rest = lines.as_slice();
    let segments = segment_script(false, &mut rest).unwrap();
    assert_eq!(segments.len(), 1);
    assert_eq!(rest.len(), 1);
    assert_eq!(rest[0].text(), "! b");
    assert_eq!(segments[0].last_location().line, 1);
}

#[test]
fn commands_continue_over_lines() {
    let c = only_command("$ echo a \\\n   b\n! a b\n");
    assert_eq!(c.command.command, "echo a \\\nb");
    assert_eq!(c.command.line_count, 2);
    assert_eq!(c.command.location.line, 2);
}

#[test]
fn normalizing_leaves_no_comments_and_no_empty_blocks() {
    let lines = ScriptLine::parse(
        ScriptFile::new("test"),
        "# c\n$ a\n# d\n! x\n\n! y\nrepeat {\n# e\n}\n*\n! z\n",
    );
    let segments = segment_script(true, &mut lines.as_slice()).unwrap();
    let normalized = normalize_segments(segments);
    assert_eq!(
        show_segments(&normalized, ""),
        ":2 $[\n  \"$ a\"\n]\n\
         :4 [\n  \"! x\"\n  \"! y\"\n]\n\
         :10 \"*\"[] {\n  :11 [\n    \"! z\"\n  ]\n}\n\
         :10 [\n  \"end\"\n]\n"
    );
}

#[test]
fn script_errors() {
    assert_eq!(error_of("foo\n"), (ScriptErrorType::ExpectedBlockOrSemi, 2, None));
    assert_eq!(
        error_of("if 'a {\n}\n"),
        (ScriptErrorType::InvalidBlockArgs, 2, Some("if 'a".to_string()))
    );
    assert_eq!(error_of("}\n"), (ScriptErrorType::InvalidBlockEnd, 2, None));
    assert_eq!(error_of("if true {\n$ a\n"), (ScriptErrorType::InvalidBlockEnd, 3, None));
    assert_eq!(error_of("if true {"), (ScriptErrorType::InvalidBlockEnd, 2, None));
    assert_eq!(
        error_of("what {\n$ a\n}\n"),
        (ScriptErrorType::InvalidBlockType, 2, Some("what".to_string()))
    );
    assert_eq!(
        error_of("for a of b {\n$ a\n}\n"),
        (
            ScriptErrorType::InvalidBlockType,
            2,
            Some("for [\"a\", \"of\", \"b\"]".to_string())
        )
    );
    assert_eq!(error_of("$ a\n%EXIT x\n"), (ScriptErrorType::InvalidExitStatus, 3, None));
    assert_eq!(
        error_of("if maybe {\n$ a\n}\n"),
        (ScriptErrorType::InvalidIfCondition, 2, Some("[\"maybe\"]".to_string()))
    );
    assert_eq!(
        error_of("frob \"a b\";\n"),
        (
            ScriptErrorType::InvalidInternalCommand,
            2,
            Some("frob [\"a b\"]".to_string())
        )
    );
    assert_eq!(error_of("$ a\n%\n"), (ScriptErrorType::InvalidMetaCommand, 3, None));
    assert_eq!(error_of("$ a\n%EXIT\n"), (ScriptErrorType::InvalidMetaCommand, 3, None));
    assert_eq!(error_of("$ a\n%TIMEOUT soon\n"), (ScriptErrorType::InvalidMetaCommand, 3, None));
    assert_eq!(error_of("$ a\n%EXPECT a\n"), (ScriptErrorType::InvalidMetaCommand, 3, None));
    assert_eq!(
        error_of("$ a\n%EXIT 'x\n"),
        (
            ScriptErrorType::InvalidMetaCommand,
            3,
            Some("unmatched quote ('): %EXIT 'x".to_string())
        )
    );
    assert_eq!(
        error_of("$ a\n%WHAT\n"),
        (ScriptErrorType::InvalidMetaCommand, 3, Some("\"%WHAT\"".to_string()))
    );
    assert_eq!(error_of("$ a\n%SET\n"), (ScriptErrorType::InvalidSetVariable, 3, None));
    assert_eq!(
        error_of("$ a\n+ b\n"),
        (ScriptErrorType::InvalidPattern, 3, Some("\"+ b\"".to_string()))
    );
    assert_eq!(
        error_of("$ a\nwhatever {\n! b\n}\n"),
        (ScriptErrorType::InvalidPattern, 3, Some("whatever".to_string()))
    );
    assert_eq!(
        error_of("$ a\nrepeat x {\n! b\n}\n"),
        (ScriptErrorType::InvalidPattern, 3, Some("repeat [\"x\"]".to_string()))
    );
    assert_eq!(
        error_of("$ a\nignore {\nreject {\n! b\n}\n}\n"),
        (ScriptErrorType::InvalidPattern, 3, None)
    );
    assert_eq!(error_of("$ echo 'a\n"), (ScriptErrorType::UnclosedQuote, 2, None));
    assert_eq!(error_of("$ echo \\\n"), (ScriptErrorType::UnclosedBackslash, 2, None));
    assert_eq!(
        error_of("$ a\nreject {\nrepeat {\nnone\n}\n}\n").0,
        ScriptErrorType::ExpectedBlockOrSemi
    );
    assert_eq!(error_of("$ a &\n"), (ScriptErrorType::BackgroundProcessNotAllowed, 2, None));
    assert_eq!(error_of("$ a >&2\n"), (ScriptErrorType::UnsupportedRedirection, 2, None));
    assert_eq!(error_of("$ a |\n"), (ScriptErrorType::IllegalShellCommand, 2, None));
    let (error, line, data) = error_of("$ a\n? (\n");
    assert_eq!((error, line), (ScriptErrorType::InvalidPattern, 3));
    assert!(data.is_some());
    let (error, line, data) = error_of("$ a\n! %{a%}\n");
    assert_eq!((error, line), (ScriptErrorType::InvalidPattern, 3));
    assert!(data.unwrap().starts_with("Invalid"));
}

#[test]
fn a_command_within_patterns_is_refused() {
    assert_eq!(
        error_of("$ a\nif true {\n! b\n}\nignore {\n$ b\n}\n").0,
        ScriptErrorType::UnsupportedCommandPosition
    );
    assert_eq!(
        error_of("ignore {\n$ b\n}\n").0,
        ScriptErrorType::UnsupportedCommandPosition
    );
}

#[test]
fn unreadable_scripts_are_told_apart() {
    assert!(unreadable("pattern X;\n"));
    assert!(unreadable("cd x;\n! a\n"));
    assert!(unreadable("$ a\n !!!\n\u{e9}\n !!!\n"));
    assert!(unreadable("$ a\n%TIMEOUT 18446744073709551615s 1000ms\n"));
    assert!(unreadable("$ a\n%TIMEOUT 18446744073709551615.5s 0.5s\n"));
    assert!(!unreadable("$ a\n%TIMEOUT 18446744073709551615s 999ms\n"));
    assert!(!unreadable("$ a\n%TIMEOUT 99999999999999999999999y\n"));
    for refused in [
        "99999999999999999.5 fortnights",
        "600000000000y 1ms",
        "500000000000y 500000000000y 1ms",
        "18446744073709551614s 2s 1ms",
        "18446744073709551614s 2000ms",
        "18446744073709551615s 1s 1000ms",
        "99999999999999999999s 1000ms",
    ] {
        assert_eq!(
            error_of(&format!("$ a\n%TIMEOUT {}\n", refused)),
            (ScriptErrorType::InvalidMetaCommand, 3, None)
        );
    }
    assert!(!unreadable("$ a\n !!!\nb\n !!!\n"));
}

#[test]
fn lengths_of_time_may_have_many_digits() {
    let timeout = |text: &str| {
        only_command(&format!("$ a\n%TIMEOUT {}\n", text))
            .timeout
            .map(|t| (t.secs, t.nanos))
    };
    assert_eq!(timeout("1234567890123456s"), Some((1234567890123456, 0)));
    assert_eq!(timeout("00000000000000000005s"), Some((5, 0)));
    assert_eq!(timeout("1y 12345678901234ns"), Some((31557600 + 12345, 678901234)));
    assert_eq!(timeout("0.000000001s"), Some((0, 1)));
    assert_eq!(timeout("18446744073709551615.5s"), Some((u64::MAX, 500_000_000)));
    assert_eq!(timeout("18446744073709551614s 1000ms"), Some((u64::MAX, 0)));
    assert_eq!(
        timeout("18446744073709551615s 999999999ns"),
        Some((u64::MAX, 999_999_999))
    );
    assert_eq!(
        error_of("$ a\n%TIMEOUT 99999999999999999999999s\n"),
        (ScriptErrorType::InvalidMetaCommand, 3, None)
    );
    assert_eq!(
        error_of("$ a\n%TIMEOUT 18446744073709551615s 1s\n"),
        (ScriptErrorType::InvalidMetaCommand, 3, None)
    );
}

#[test]
fn meta_lines_are_read() {
    let c = only_command(
        "$ a\n%EXIT -3\n%TIMEOUT 1m 30s\n%SET X\n%SET Y \"$a\"\n%EXPECT k v\n%EXPECT k w\n%EXPECT_FAILURE\n! b\n",
    );
    assert_eq!(c.exit, CommandExit::Failure(-3));
    let timeout = c.timeout.unwrap();
    assert_eq!((timeout.secs, timeout.nanos), (90, 0));
    assert_eq!(c.set_var.unwrap(), "X");
    assert_eq!(c.set_vars.len(), 1);
    assert_eq!(c.set_vars[0].0, "Y");
    assert_eq!(c.set_vars[0].1.as_str(), "$a");
    assert_eq!(c.expect.len(), 1);
    assert_eq!(c.expect[0].1.as_str(), "w");
    assert!(c.expect_failure);
    assert_eq!(only_command("$ a\n%exit any\n").exit, CommandExit::Any);
    assert_eq!(only_command("$ a\n%EXIT fail\n").exit, CommandExit::AnyFailure);
    assert_eq!(only_command("$ a\n%EXIT timeout\n").exit, CommandExit::Timeout);
    assert_eq!(only_command("$ a\n%EXIT +7\n").exit, CommandExit::Failure(7));
    assert_eq!(only_command("$ a\n").exit, CommandExit::Success);
    let half = only_command("$ a\n%TIMEOUT 500ms\n").timeout.unwrap();
    assert_eq!((half.secs, half.nanos), (0, 500_000_000));
}

#[test]
fn exit_statuses_fit_32_bits() {
    assert_eq!(crok::util::number::parse_i32("2147483647"), Some(i32::MAX));
    assert_eq!(crok::util::number::parse_i32("-2147483648"), Some(i32::MIN));
    assert_eq!(crok::util::number::parse_i32("2147483648"), None);
    assert_eq!(crok::util::number::parse_i32("-2147483649"), None);
    assert_eq!(crok::util::number::parse_i32("0000000000000000000000012"), Some(12));
    assert_eq!(crok::util::number::parse_i32("-"), None);
    assert_eq!(crok::util::number::parse_i32(""), None);
    assert_eq!(crok::util::number::parse_i32("1a"), None);
}

#[test]
fn internal_commands_are_read() {
    let script = parse(
        "using tempdir;\nusing dir a;\nusing new dir 'b';\ncd c;\nset D \"e\";\nexit script;\ninclude \"f.cli\";\npattern G [0-9]+;\n",
    )
    .unwrap();
    let shown: Vec<String> = script
        .commands
        .iter()
        .map(|b| match b {
            ScriptBlock::InternalCommand(l, c) => format!(
                "{} {}",
                l.line,
                match c {
                    InternalCommand::UsingTempdir => "tempdir".to_string(),
                    InternalCommand::UsingDir(d, new) => format!("dir {} {}", d.as_str(), new),
                    InternalCommand::ChangeDir(d) => format!("cd {}", d.as_str()),
                    InternalCommand::SetVariable(n, v) => format!("set {} {}", n, v.as_str()),
                    InternalCommand::ExitScript => "exit".to_string(),
                    InternalCommand::Include(p) => format!("run {}", p),
                    InternalCommand::Pattern(n, p) => format!("pattern {} {}", n, p),
                }
            ),
            _ => panic!("another part"),
        })
        .collect();
    assert_eq!(
        shown,
        vec![
            "2 tempdir",
            "3 dir a false",
            "4 dir b true",
            "5 cd c",
            "6 set D e",
            "7 exit",
            "8 run f.cli",
            "9 pattern G [0-9]+"
        ]
    );
}

#[test]
fn control_blocks_are_read() {
    let script = parse(
        "ignore {\n! i\n}\nreject {\n! r\n}\nif $A == \"b\" {\n$ c\n}\nfor X in 1 2 {\n$ d\n}\nbackground {\n$ e\n}\nretry {\n$ f\n}\ndefer {\n$ g\n}\nif true {\ninclude x;\n}\n",
    )
    .unwrap();
    assert!(matches!(&script.commands[0], ScriptBlock::GlobalIgnore(p) if p.len() == 1));
    assert!(matches!(&script.commands[1], ScriptBlock::GlobalReject(p) if p.len() == 1));
    assert!(matches!(
        &script.commands[2],
        ScriptBlock::If(IfCondition::EnvEq(false, n, ShellBit::Quoted(v)), b)
            if n == "$A" && v == "b" && b.len() == 1
    ));
    assert!(matches!(
        &script.commands[3],
        ScriptBlock::For(ForCondition::Env(n, v), b) if n == "X" && v.len() == 2 && b.len() == 1
    ));
    assert!(matches!(&script.commands[4], ScriptBlock::Background(b) if b.len() == 1));
    assert!(matches!(&script.commands[5], ScriptBlock::Retry(b) if b.len() == 1));
    assert!(matches!(&script.commands[6], ScriptBlock::Defer(b) if b.len() == 1));
    let paths = script.includes();
    assert_eq!(paths.len(), 1);
    assert_eq!(paths[0].1, "x");
    assert_eq!(paths[0].0.line, 24);
}

#[test]
fn patterns_of_a_command_are_read() {
    let c = only_command("$ a\n! b\n  \"\"\"\n  c %{d}\n    e\n  \"\"\"\n!\n*\n");
    assert_eq!(
        c.pattern.to_debug(),
        "Sequence([\"b\", \"c %{d}\", \"  e\", \"\", Any(End)])"
    );
    let c = only_command("$ a\n? b$\n? c\n! d.%{WORD:x}e\n");
    assert_eq!(
        c.pattern.to_debug(),
        "Sequence([Pattern(/\"b$$\"/), Pattern(/\"c\\\\s*$\"/), Pattern(/\"d\\\\.%{WORD:x}e$\"/), End])"
    );
    let c = only_command("$ a\nchoice {\n! b\nnot {\n! c\n}\n}\nif false {\noptional {\n! d\n}\n}\nunordered {\n! e\n! f\n}\n");
    assert_eq!(
        c.pattern.to_debug(),
        "Sequence([Choice([\"b\", Not(\"c\")]), If(False, Optional(\"d\")), Unordered([\"e\", \"f\"]), End])"
    );
    assert!(matches!(c.pattern.pattern, OutputPatternType::Sequence(_)));
}

#[test]
fn conditions_compare_variables() {
    let context = ScriptRunContext {
        env: vec![
            ("OS".to_string(), "linux".to_string()),
            ("N".to_string(), "lin".to_string()),
        ],
    };
    let eq = |negated: bool, name: &str, value: ShellBit| {
        IfCondition::EnvEq(negated, name.to_string(), value).matches(&context)
    };
    assert!(eq(false, "OS", ShellBit::Quoted("linux".to_string())));
    assert!(eq(false, "$OS", ShellBit::Quoted("${N}ux".to_string())));
    assert!(!eq(true, "OS", ShellBit::Quoted("linux".to_string())));
    assert!(!eq(false, "OS", ShellBit::Literal("${N}ux".to_string())));
    assert!(eq(false, "UNSET", ShellBit::Literal("".to_string())));
    assert!(IfCondition::True.matches(&context));
    assert!(!IfCondition::False.matches(&context));
    assert_eq!(context.expand("$N-$OS \\$N $ ${N"), "lin-linux $N $ ${N");
}

#[test]
fn read_scripts_are_put_together() {
    let main = parse("include a;\ninclude b;\n").unwrap();
    let a = parse("$ a\n").unwrap();
    let b = parse("$ b\n").unwrap();
    let b2 = parse("$ b2\n$ b3\n").unwrap();
    let whole = match attach_includes(
        main,
        vec![
            ("a".to_string(), Ok(a)),
            ("b".to_string(), Ok(b)),
            ("b".to_string(), Ok(b2)),
        ],
    ) {
        Ok(s) => s,
        Err(_) => panic!("errors"),
    };
    assert_eq!(whole.includes.len(), 2);
    assert_eq!(whole.includes[0].0, "a");
    assert_eq!(whole.includes[1].0, "b");
    assert_eq!(whole.includes[1].1.commands.len(), 2);

    let io = || {
        Err(vec![ScriptReadError::IoError {
            file: file(),
            error: "gone".to_string(),
        }])
    };
    let bad = || {
        Err(vec![ScriptReadError::ParseError {
            file: file(),
            error: parse("}\n").err().unwrap(),
        }])
    };
    match parse_script_files(vec![
        ("a".to_string(), io()),
        ("b".to_string(), parse("$ b\n").map_err(|_| vec![])),
        ("c".to_string(), bad()),
    ]) {
        Ok(_) => panic!("no errors"),
        Err(errors) => {
            assert_eq!(errors.len(), 2);
            assert!(matches!(&errors[0], ScriptReadError::IoError { error, .. } if error == "gone"));
            assert!(matches!(&errors[1], ScriptReadError::ParseError { .. }));
        }
    }
    match parse_script_files(vec![("a".to_string(), parse("$ a\n").map_err(|_| vec![]))]) {
        Ok(s) => assert_eq!(s.scripts.len(), 1),
        Err(_) => panic!("errors"),
    }
    let read = |body: &str| parse(body).map_err(|_| vec![]);
    match parse_script_files(vec![
        ("x".to_string(), read("$ 1\n")),
        ("y".to_string(), read("$ 2\n")),
        ("x".to_string(), read("$ 3\n$ 4\n")),
    ]) {
        Ok(s) => {
            let mut keys: Vec<&str> = s.scripts.iter().map(|e| e.0.as_str()).collect();
            keys.sort();
            assert_eq!(keys, vec!["x", "y"]);
        }
        Err(_) => panic!("errors"),
    }
}

#[test]
fn scripts_are_found_behind_their_parents() {
    let parent = ScriptFile::new("/a/b/main.cli");
    let child = ScriptFile::new("c/d.cli");
    assert_eq!(script_path(Some(&parent), &child, Platform::Unix).path, "/a/b/c/d.cli");
    assert_eq!(script_path(None, &child, Platform::Unix).path, "c/d.cli");
    let parent = ScriptFile::new(r"C:\a\b\main.cli");
    assert_eq!(script_path(Some(&parent), &child, Platform::Windows).path, r"C:\a\b\c/d.cli");
    let at = ScriptFile::new_with_line("x.rs", 12);
    assert_eq!((at.file.path.as_str(), at.base_line), ("x.rs", 12));
}

#[test]
fn documented_scripts_can_be_read() {
    let scripts = [
        "$ printf \"[LOG] Hello, world!\\n\"\n? \\[LOG\\] Hello, world!\n",
        "$ printf \"  X  \\n\"\n? ^  X  $\n",
        "# Match any output\n$ printf \"a\\nb\\nc\\n\"\n*\n\n$ printf \"a\"\n! a\n*\n! d\n",
        "for OS in \"linux\" \"macos\" \"windows\" {\n    $ uname -a | grep $OS\n    %EXIT any\n    optional {\n        ! %{GREEDYDATA}\n    }\n}\n",
        "if TARGET_OS == \"windows\" {\n    exit script;\n}\n\n# ... other commands ...\n",
        "using tempdir;\n\nbackground {\n    $ python3 -m http.server 60801 2> server.log\n    %EXIT any\n}\n\n$ echo \"OK\" > health\n\nretry {\n    $ curl -s http://localhost:60801/health\n    ! OK\n}\n",
        "defer {\n    $ echo \"Second cleanup\"\n    ! Second cleanup\n}\n\n$ echo \"Running!\"\n! Running!\n",
        "retry {\n    $ true\n    %TIMEOUT 100ms\n}\n",
        "pattern MY_PATTERN [abcd]+;\nset VARIABLE \"value\";\n$ echo \"run\"\n! run\n",
        "$ echo \"This is a very long command that \\\nspans multiple lines\"\n! x\n\n$ echo \"This is another way to\nsplit a command across lines\"\n! y\n",
        "$ echo \"Hello, world!\"\n%SET CAPTURED_GREETING \"${greeting} ${word}\"\n! %{WORD:greeting}, %{WORD:word}!\n",
        "$ echo \"ERROR: We expect this one\"\nreject {\n    # We don't want to reject this\n    sequence {\n        not {\n            ! ERROR: We expect this one\n        }\n        ! ERROR: %{GREEDYDATA}\n    }\n}\n# But remember\n! ERROR: We expect this one\n",
        "ignore {\n    ! No configuration file found, creating default at %{GREEDYDATA}\n}\n\nreject {\n    ! Critical error, corrupted configuration file.\n}\n\nusing tempdir;\n",
        "$ cat server.log\nrepeat {\n    choice {\n        ? %{IPORHOST} %{GREEDYDATA} code %{NUMBER}, %{GREEDYDATA}\n        ? %{IPORHOST} %{GREEDYDATA} \"GET /%{DATA} %{DATA}\" %{NUMBER} -\n    }\n}\n",
    ];
    for script in scripts {
        assert!(parse(script).is_ok(), "{}", script);
    }
}

#[test]
fn indentation_of_multi_line_patterns_is_removed() {
    let c = only_command("$ printf \"abc\\n\\ndef\\n\"\n  !!!\n  abc\n\n    def\n  !!!\n");
    assert_eq!(c.pattern.to_debug(), "Sequence([\"abc\", \"\", \"  def\", End])");
    let c = only_command("$ x\n???\na\nb\n???\n");
    assert_eq!(
        c.pattern.to_debug(),
        "Sequence([Pattern(/\"a\\\\s*$\"/), Pattern(/\"b\\\\s*$\"/), End])"
    );
}

#[test]
fn patterns_reach_the_end_of_the_output() {
    for body in ["$ a\n! x\n", "$ a\n", "$ a\n! x\n*\n", "$ a\n! x\n\n$ b\n! y\n"] {
        let debug = only_command(body).pattern.to_debug();
        assert!(
            debug.ends_with("End])") || debug == "End" || debug.ends_with("Any(End)])"),
            "{}",
            debug
        );
    }
    let script = parse("if true {\n$ a\n! x\nretry {\n$ b\n*\n}\n}\n").unwrap();
    match &script.commands[0] {
        ScriptBlock::If(_, inner) => {
            assert!(matches!(
                &inner[0],
                ScriptBlock::Command(c) if c.pattern.to_debug() == "Sequence([\"x\", End])"
            ));
            assert!(matches!(
                &inner[1],
                ScriptBlock::Retry(v)
                    if matches!(&v[0], ScriptBlock::Command(c) if c.pattern.to_debug() == "Any(End)")
            ));
        }
        _ => panic!("another part"),
    }
}
