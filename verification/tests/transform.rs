use crok::procstream::ansi::{strip_event, Ansi, AnsiFilter, VtEvent};
use crok::procstream::collapse::{CollapseLine, Overwrite};
use crok::procstream::framer::{Framer, Line, LineEnding, LineFramer, Overlong};
use crok::procstream::transform::{
    ByteFilter, LineRecipe, MakeFramer, RawRecipe, Transform,
};
use crok::procstream::utf8::{Utf8, Utf8Filter};

fn byte_out(mut filter: impl ByteFilter, input: &str) -> Vec<String> {
    let mut out = filter.push(input.as_bytes());
    out.extend(filter.flush());
    out.iter()
        .map(|b| String::from_utf8_lossy(b).into_owned())
        .collect()
}

fn run_transform<M: MakeFramer>(
    transform: &Transform<M>,
    input: &[u8],
) -> Vec<<<M as MakeFramer>::Made as Framer>::Item> {
    let mut pipeline = transform.build();
    let mut out = pipeline.push(input);
    out.extend(pipeline.flush());
    out
}

fn pieces(lines: &[Line]) -> Vec<(String, LineEnding)> {
    lines.iter().map(|l| (l.as_str_lossy(), l.ending)).collect()
}

fn joined(transform: &Transform<RawRecipe>, input: &str) -> String {
    run_transform(transform, input.as_bytes())
        .into_iter()
        .map(|v| String::from_utf8_lossy(&v).into_owned())
        .collect()
}

#[test]
fn line_framer_tags_endings() {
    let mut framer = LineFramer::new(40, Overlong::Truncate);
    let mut out = Framer::push(&mut framer, b"a\nb\r\nc");
    out.extend(Framer::flush(&mut framer));
    assert_eq!(
        pieces(&out),
        vec![
            ("a".to_string(), LineEnding::Lf),
            ("b".to_string(), LineEnding::CrLf),
            ("c".to_string(), LineEnding::Eof),
        ]
    );
}

#[test]
fn line_framer_caps_long_lines_as_overlong() {
    let long = "0123456789".repeat(6); // 60 chars, cap is 40
    let t = Transform::builder().lines();
    let out = run_transform(&t, long.as_bytes());
    let mut framer = LineFramer::new(40, Overlong::Split);
    let mut lines = Framer::push(&mut framer, long.as_bytes());
    lines.extend(Framer::flush(&mut framer));
    assert_eq!(lines.len(), 2);
    assert_eq!(lines[0].ending, LineEnding::Overlong);
    assert_eq!(lines[0].bytes.len(), 40);
    assert_eq!(lines[1].ending, LineEnding::Eof);
    assert_eq!(lines[1].bytes.len(), 20);
    assert_eq!(out.len(), 1);
    assert_eq!(out[0].ending, LineEnding::Eof);
}

#[test]
fn line_framer_truncates_by_default() {
    let mut framer = LineFramer::new(4, Overlong::Truncate);
    let mut lines = Framer::push(&mut framer, b"abcdefghij\nok\n");
    lines.extend(Framer::flush(&mut framer));
    assert_eq!(
        pieces(&lines),
        vec![
            ("abcd".to_string(), LineEnding::Overlong),
            ("ok".to_string(), LineEnding::Lf),
        ]
    );
}

#[test]
fn line_framer_strips_bare_trailing_cr_at_eof() {
    let t = Transform::builder().lines();
    let out = run_transform(&t, b"done\r");
    assert_eq!(out.len(), 1);
    assert_eq!(out[0].as_str_lossy(), "done");
    assert_eq!(out[0].ending, LineEnding::Eof);
    assert!(run_transform(&t, b"a\n\r").len() == 1);
}

#[test]
fn collapse_line_keeps_final_render() {
    assert_eq!(byte_out(CollapseLine::default(), "10%\r20%\r100%\n"), vec!["100%\n"]);
    assert_eq!(byte_out(CollapseLine::default(), "a\rbc\n"), vec!["bc\n"]);
    assert_eq!(byte_out(CollapseLine::default(), "abc\rX\n"), vec!["Xbc\n"]);
}

#[test]
fn utf8_lossy_replaces_and_reassembles() {
    let mut f = Utf8Filter::default();
    let smiley = "😀".as_bytes(); // F0 9F 98 80
    let mut out = Utf8Filter::push(&mut f, &smiley[..2]);
    out.extend(Utf8Filter::push(&mut f, &smiley[2..]));
    out.extend(Utf8Filter::flush(&mut f));
    assert_eq!(String::from_utf8(out.concat()).unwrap(), "😀");
}

#[test]
fn ansi_strip_all() {
    let t = Transform::builder().ansi(Ansi::StripAll).raw();
    assert_eq!(joined(&t, "a\x1b[31mb\x1b[0mc"), "abc");
    assert_eq!(joined(&t, "x\x1b[2Ky"), "xy");
}

#[test]
fn ansi_keeps_attributes() {
    let t = Transform::builder().ansi(Ansi::StripNonAttribute).raw();
    assert_eq!(joined(&t, "\x1b[31mred\x1b[0m\x1b[2K"), "\x1b[31mred\x1b[0m");
}

#[test]
fn ansi_strips_escapes_with_intermediates() {
    // `ESC ( B` (charset designator / part of tput sgr0) must not leak the final byte.
    let t = Transform::builder().ansi(Ansi::StripAll).raw();
    assert_eq!(joined(&t, "\x1b(Bhello\x1b)0!"), "hello!");
}

#[test]
fn ansi_strips_osc_and_dcs_bodies() {
    let t = Transform::builder().ansi(Ansi::StripAll).raw();
    assert_eq!(joined(&t, "a\x1b]0;title\x07b"), "ab");
    assert_eq!(joined(&t, "a\x1bP1;2q body \x1b\\b"), "ab");
}

#[test]
fn ansi_keeps_newlines() {
    let t = Transform::builder().ansi(Ansi::StripAll).raw();
    assert_eq!(joined(&t, "\x1b[31ma\nb\x1b[0m\n"), "a\nb\n");
}

#[test]
fn ansi_handles_a_sequence_split_across_pushes() {
    let mut f = AnsiFilter::new(Ansi::StripAll);
    let mut out = AnsiFilter::push(&mut f, b"a\x1b[3");
    out.extend(AnsiFilter::push(&mut f, b"1mb"));
    out.extend(AnsiFilter::flush(&mut f));
    assert_eq!(String::from_utf8(out.concat()).unwrap(), "ab");
}

#[test]
fn lines_max_line_caps_and_tags_overlong() {
    let t = Transform::builder().max_line(4).overlong(Overlong::Split).lines();
    let out = run_transform(&t, b"abcdefghij\n");
    assert_eq!(
        pieces(&out),
        vec![
            ("abcd".to_string(), LineEnding::Overlong),
            ("efgh".to_string(), LineEnding::Overlong),
            ("ij".to_string(), LineEnding::Lf),
        ]
    );
}

#[test]
fn pipeline_applies_fixed_order_and_types_line() {
    let t = Transform::builder()
        .ansi(Ansi::StripAll)
        .overwrite(Overwrite::CollapseLine)
        .lines();
    let out = run_transform(&t, b"\x1b[32m10%\r100%\x1b[0m\n");
    assert_eq!(out.len(), 1);
    assert_eq!(out[0].as_str_lossy(), "100%");
    assert_eq!(out[0].ending, LineEnding::Lf);
}

#[test]
fn utf8_stage_runs_before_framing() {
    // 0xff is not valid in a &str. Feed bytes directly.
    let t = Transform::builder().utf8(Utf8::Lossy).lines();
    let out = run_transform(&t, b"a\xffb\n");
    assert_eq!(out.len(), 1);
    assert_eq!(out[0].as_str_lossy(), "a\u{FFFD}b");
    assert_eq!(out[0].ending, LineEnding::Lf);
}

#[test]
fn builder_order_does_not_matter() {
    let input = b"\x1b[1mab\rX\xff\n";
    let one = Transform::builder()
        .ansi(Ansi::StripAll)
        .overwrite(Overwrite::CollapseLine)
        .utf8(Utf8::Lossy)
        .lines();
    let other = Transform::builder()
        .utf8(Utf8::Lossy)
        .overwrite(Overwrite::CollapseLine)
        .ansi(Ansi::StripAll)
        .lines();
    assert_eq!(pieces(&run_transform(&one, input)), pieces(&run_transform(&other, input)));
    assert_eq!(
        pieces(&run_transform(&one, input)),
        vec![("X\u{fffd}".to_string(), LineEnding::Lf)]
    );
}

#[test]
fn lines_do_not_depend_on_pieces() {
    let text = b"ab\r\ncdefghij\nk\r";
    for cut in 0..text.len() {
        let mut whole = LineFramer::new(4, Overlong::Split);
        let mut a = Framer::push(&mut whole, text);
        a.extend(Framer::flush(&mut whole));
        let mut parted = LineFramer::new(4, Overlong::Split);
        let mut b = Framer::push(&mut parted, &text[..cut]);
        b.extend(Framer::push(&mut parted, &text[cut..]));
        b.extend(Framer::flush(&mut parted));
        assert_eq!(pieces(&a), pieces(&b));
        assert!(a.iter().all(|l| l.bytes.len() <= 4));
    }
}

#[test]
fn split_lines_lose_nothing() {
    let text = b"ab\r\ncdefghij\n\nk";
    let mut framer = LineFramer::new(3, Overlong::Split);
    let mut lines = Framer::push(&mut framer, text);
    lines.extend(Framer::flush(&mut framer));
    let mut back = Vec::new();
    for line in &lines {
        back.extend_from_slice(line.as_bytes());
        back.extend_from_slice(match line.ending {
            LineEnding::Lf => b"\n",
            LineEnding::CrLf => b"\r\n",
            _ => b"",
        });
    }
    assert_eq!(back, text.to_vec());
}

#[test]
fn collapsing_does_not_depend_on_pieces() {
    let text = b"10%\r2\r100%\nabc\rx";
    for cut in 0..text.len() {
        let mut whole = CollapseLine::default();
        let mut a = CollapseLine::push(&mut whole, text);
        a.extend(CollapseLine::flush(&mut whole));
        let mut parted = CollapseLine::default();
        let mut b = CollapseLine::push(&mut parted, &text[..cut]);
        b.extend(CollapseLine::push(&mut parted, &text[cut..]));
        b.extend(CollapseLine::flush(&mut parted));
        assert_eq!(a, b);
    }
}

#[test]
fn valid_text_passes_in_any_pieces() {
    let text = "aé日😀".as_bytes();
    for cut in 0..text.len() {
        let mut f = Utf8Filter::default();
        let mut out = Utf8Filter::push(&mut f, &text[..cut]);
        out.extend(Utf8Filter::push(&mut f, &text[cut..]));
        out.extend(Utf8Filter::flush(&mut f));
        assert_eq!(out.concat(), text.to_vec());
    }
}

#[test]
fn invalid_bytes_are_replaced() {
    let mut f = Utf8Filter::default();
    let mut out = Utf8Filter::push(&mut f, b"\xe0\x80a\xf0\x9f");
    assert_eq!(String::from_utf8(out.concat()).unwrap(), "\u{fffd}\u{fffd}a");
    out = Utf8Filter::flush(&mut f);
    assert_eq!(String::from_utf8(out.concat()).unwrap(), "\u{fffd}");
    assert!(Utf8Filter::flush(&mut f).is_empty());
}

#[test]
fn events_are_kept_or_dropped() {
    assert_eq!(strip_event(VtEvent::Text(b"a".to_vec()), false), Some(b"a".to_vec()));
    assert_eq!(strip_event(VtEvent::Control(vec![7]), false), Some(vec![7]));
    assert_eq!(strip_event(VtEvent::Csi(b'm', vec![1]), true), Some(vec![1]));
    assert_eq!(strip_event(VtEvent::Csi(b'm', vec![1]), false), None);
    assert_eq!(strip_event(VtEvent::Csi(b'K', vec![1]), true), None);
    assert_eq!(strip_event(VtEvent::Other, true), None);
}

#[test]
fn framers_are_made_for_each_stream() {
    let recipe = LineRecipe { max: 2, policy: Overlong::Split };
    let t = Transform::builder().ansi(Ansi::StripAll).frame(recipe);
    let expected = vec![
        ("ab".to_string(), LineEnding::Overlong),
        ("c".to_string(), LineEnding::Eof),
    ];
    assert_eq!(pieces(&run_transform(&t, b"ab\x1b[1mc")), expected);
    assert_eq!(pieces(&run_transform(&t, b"abc")), expected);
}

#[test]
fn raw_gives_pieces_as_they_come() {
    let t = Transform::raw();
    assert_eq!(run_transform(&t, b"ab"), vec![b"ab".to_vec()]);
    assert!(run_transform(&t, b"").is_empty());
    let recipe = LineRecipe { max: 3, policy: Overlong::Truncate };
    let mut framer = recipe.make();
    assert_eq!(pieces(&Framer::push(&mut framer, b"abcd\n")), vec![("abc".to_string(), LineEnding::Overlong)]);
}

#[test]
fn output_is_the_lossy_text_however_it_is_cut() {
    let streams: [&[u8]; 7] = [
        b"a\xffb",
        b"\xe0\x80\xe2\x82\xac\xf0\x9f\x98",
        b"\xf0\x9f\x98\x80\xed\xa0\x80z",
        b"\xc3",
        b"\xf4\x90\x80\x80\xf5",
        b"\xe2\x28\xa1\xf0\x28\x8c\xbc",
        b"",
    ];
    for stream in streams {
        let expected = String::from_utf8_lossy(stream).into_owned();
        for a in 0..=stream.len() {
            for b in a..=stream.len() {
                let mut f = Utf8Filter::default();
                let mut out = Utf8Filter::push(&mut f, &stream[..a]);
                out.extend(Utf8Filter::push(&mut f, &stream[a..b]));
                out.extend(Utf8Filter::push(&mut f, &stream[b..]));
                out.extend(Utf8Filter::flush(&mut f));
                assert!(out.iter().all(|piece| std::str::from_utf8(piece).is_ok()));
                assert_eq!(out.concat(), expected.as_bytes());
            }
        }
    }
}
