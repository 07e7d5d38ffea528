//! How shell commands are read.
use crate::parser::v0::command_line::{
    command_fault, is_calculated, last_char, law_calculated_ampersand_passes, lex, nest, nest_step,
    outside_quotes, separator_char, Lex, Lexed,
};
use crate::script::ScriptErrorType;
use crate::util::text::ascii_white;
use vstd::prelude::*;

verus! {

/// Whether a character means nothing to the shell: it neither quotes nor
/// escapes, starts no comment, ends no line and belongs to no operator.
pub open spec fn means_nothing(c: char) -> bool {
    &&& c != '\'' && c != '"' && c != '\\' && c != '#' && c != '\n'
    &&& c != '>' && c != '<' && c != '&' && c != '|' && c != ';'
    &&& c != '(' && c != ')' && c != '='
}

/// Whether the text of a command stands at a place where a word can go on or
/// start.
pub open spec fn at_word(s: Seq<char>) -> bool {
    lex(s) == Lexed::At(Lex::Ground) || lex(s) == Lexed::At(Lex::GroundFirst)
}

/// Words and white space are a command, whatever they are.
pub proof fn law_words_are_commands(s: Seq<char>, words: Seq<char>)
    requires
        at_word(s),
        forall|i: int| 0 <= i < words.len() ==> means_nothing(#[trigger] words[i]),
    ensures
        at_word(s + words),
        command_fault(s + words) is None,
        at_word(Seq::empty()),
    decreases words.len(),
{
    let whole = s + words;
    if words.len() == 0 {
        assert(whole =~= s);
    } else {
        let front = words.drop_last();
        assert forall|i: int| 0 <= i < front.len() implies means_nothing(#[trigger] front[i]) by {
            assert(front[i] == words[i]);
        }
        law_words_are_commands(s, front);
        assert(whole.drop_last() =~= s + front);
        assert(means_nothing(words[words.len() - 1]));
        assert(whole.last() == words[words.len() - 1]);
    }
}

/// A single quote quotes everything up to the next one; without one, the quote
/// is not closed.
pub proof fn law_single_quotes_are_closed(s: Seq<char>, text: Seq<char>)
    requires
        outside_quotes(s),
        !text.contains('\''),
    ensures
        command_fault(s + seq!['\''] + text) == Some(ScriptErrorType::UnclosedQuote),
        lex(s + seq!['\''] + text) == Lexed::At(Lex::SingleQuoted),
        at_word(s + seq!['\''] + text + seq!['\'']),
        command_fault(s + seq!['\''] + text + seq!['\'']) is None,
    decreases text.len(),
{
    let start = s + seq!['\''];
    assert(start.drop_last() =~= s);
    assert(start.last() == '\'');
    let whole = start + text;
    if text.len() == 0 {
        assert(whole =~= start);
    } else {
        let front = text.drop_last();
        lemma_front_holds_less(text);
        law_single_quotes_are_closed(s, front);
        assert(whole.drop_last() =~= start + front);
        assert(whole.last() == text.last());
    }
    let closed = whole + seq!['\''];
    assert(closed.drop_last() =~= whole);
    assert(closed.last() == '\'');
}

proof fn lemma_front_holds_less(text: Seq<char>)
    requires
        text.len() > 0,
    ensures
        text.contains(text.last()),
        forall|c: char| text.drop_last().contains(c) ==> text.contains(c),
{
    assert(text[text.len() - 1] == text.last());
    assert forall|c: char| text.drop_last().contains(c) implies text.contains(c) by {
        let i = choose|i: int| 0 <= i < text.drop_last().len() && text.drop_last()[i] == c;
        assert(text[i] == c);
    }
}

/// A double quote quotes everything up to the next one that is not escaped;
/// without one, the quote is not closed.
pub proof fn law_double_quotes_are_closed(s: Seq<char>, text: Seq<char>)
    requires
        outside_quotes(s),
        !text.contains('"'),
        !text.contains('\\'),
    ensures
        command_fault(s + seq!['"'] + text) == Some(ScriptErrorType::UnclosedQuote),
        lex(s + seq!['"'] + text) == Lexed::At(Lex::DoubleQuoted),
        at_word(s + seq!['"'] + text + seq!['"']),
        command_fault(s + seq!['"'] + text + seq!['"']) is None,
    decreases text.len(),
{
    let start = s + seq!['"'];
    assert(start.drop_last() =~= s);
    assert(start.last() == '"');
    let whole = start + text;
    if text.len() == 0 {
        assert(whole =~= start);
    } else {
        let front = text.drop_last();
        lemma_front_holds_less(text);
        law_double_quotes_are_closed(s, front);
        assert(whole.drop_last() =~= start + front);
        assert(whole.last() == text.last());
    }
    let closed = whole + seq!['"'];
    assert(closed.drop_last() =~= whole);
    assert(closed.last() == '"');
}

/// A backslash at the end of a command is not closed, in double quotes or
/// outside of quotes.
pub proof fn law_backslashes_end_no_command(s: Seq<char>)
    requires
        outside_quotes(s) || lex(s) == Lexed::At(Lex::DoubleQuoted),
    ensures
        command_fault(s + seq!['\\']) == Some(ScriptErrorType::UnclosedBackslash),
{
    let whole = s + seq!['\\'];
    assert(whole.drop_last() =~= s);
    assert(whole.last() == '\\');
}

/// Behind white space an operator has to be followed by something, but for a
/// semicolon; followed by white space, it stands between words. `>&` is no
/// redirection there.
pub proof fn law_operators_stand_between_words(s: Seq<char>, c: char, space: char)
    requires
        lex(s) == Lexed::At(Lex::GroundFirst),
        separator_char(c),
        c != '&',
        ascii_white(space),
        space != '\n',
    ensures
        command_fault(s + seq![c]) == (if c == ';' {
            None
        } else {
            Some(ScriptErrorType::IllegalShellCommand)
        }),
        lex(s + seq![c, space]) == Lexed::At(Lex::GroundFirst),
        command_fault(s + seq!['>', '&']) == Some(ScriptErrorType::UnsupportedRedirection),
        lex(s + seq!['&', '&']) == Lexed::At(Lex::GroundFirst),
        lex(s + seq!['|', '|']) == Lexed::At(Lex::GroundFirst),
{
    let one = s + seq![c];
    assert(one.drop_last() =~= s && one.last() == c);
    let spaced = s + seq![c, space];
    assert(spaced.drop_last() =~= one && spaced.last() == space);
    let greater = s + seq!['>'];
    assert(greater.drop_last() =~= s && greater.last() == '>');
    assert(lex(greater) == Lexed::At(Lex::Separator));
    assert(last_char(greater) == '>');
    let both = s + seq!['>', '&'];
    assert(both.drop_last() =~= greater && both.last() == '&');
    let ampersand = s + seq!['&'];
    assert(ampersand.drop_last() =~= s && ampersand.last() == '&');
    assert(lex(ampersand) == Lexed::At(Lex::Separator));
    assert(last_char(ampersand) == '&');
    let and = s + seq!['&', '&'];
    assert(and.drop_last() =~= ampersand && and.last() == '&');
    let bar = s + seq!['|'];
    assert(bar.drop_last() =~= s && bar.last() == '|');
    assert(lex(bar) == Lexed::At(Lex::Separator));
    assert(last_char(bar) == '|');
    assert(('|' as int) % 256 == '|' as int);
    let or = s + seq!['|', '|'];
    assert(or.drop_last() =~= bar && or.last() == '|');
}

/// Directly behind a word, `<`, `>` and `|` are read on from, as is an
/// ampersand behind one of them or behind another.
pub proof fn law_operators_stand_behind_words(s: Seq<char>, c: char)
    requires
        lex(s) == Lexed::At(Lex::Ground),
        c == '<' || c == '>' || c == '|',
    ensures
        command_fault(s + seq![c]) is None,
        lex(s + seq![c, '&']) == Lexed::At(Lex::Ground),
        lex(s + seq!['&', '&']) == Lexed::At(Lex::Ground),
{
    let one = s + seq![c];
    assert(one.drop_last() =~= s && one.last() == c);
    let two = s + seq![c, '&'];
    assert(two.drop_last() =~= one && two.last() == '&');
    let ampersand = s + seq!['&'];
    assert(ampersand.drop_last() =~= s && ampersand.last() == '&');
    assert(s.push('&') =~= ampersand);
    if is_calculated(nest(s).open) {
        law_calculated_ampersand_passes(s);
        law_calculated_ampersand_passes(ampersand);
        assert(ampersand.push('&') =~= s + seq!['&', '&']);
    } else {
        assert(lex(ampersand) == Lexed::At(Lex::Ampersand));
    }
    let and = s + seq!['&', '&'];
    assert(and.drop_last() =~= ampersand && and.last() == '&');
}

/// Brackets open and close: what stands in `${..}` or `$((..))` is not run,
/// what stands in `$(..)` is, and behind them it is as it was before.
pub proof fn law_brackets_open_and_close(s: Seq<char>)
    requires
        lex(s) == Lexed::At(Lex::Ground),
    ensures
        ({
            let open = nest(s).open;
            &&& is_calculated(nest(s + seq!['$', '{']).open)
            &&& is_calculated(nest(s + seq!['$', '(', '(']).open)
            &&& !is_calculated(nest(s + seq!['$', '(']).open)
            &&& nest(s + seq!['$', '{', '}']).open == open
            &&& nest(s + seq!['$', '(', ')']).open == open
            &&& nest(s + seq!['$', '(', '(', ')', ')']).open == open
        }),
{
    let open = nest(s).open;
    let dollar = s + seq!['$'];
    lemma_one_more(s, '$', dollar);
    let brace = s + seq!['$', '{'];
    lemma_one_more(dollar, '{', brace);
    lemma_one_more(brace, '}', s + seq!['$', '{', '}']);
    assert(nest(s + seq!['$', '{', '}']).open =~= open);
    let one = s + seq!['$', '('];
    lemma_one_more(dollar, '(', one);
    lemma_one_more(one, ')', s + seq!['$', '(', ')']);
    assert(nest(s + seq!['$', '(', ')']).open =~= open);
    let two = s + seq!['$', '(', '('];
    lemma_one_more(one, '(', two);
    let inner = s + seq!['$', '(', '(', ')'];
    lemma_one_more(two, ')', inner);
    lemma_one_more(inner, ')', s + seq!['$', '(', '(', ')', ')']);
    assert(nest(s + seq!['$', '(', '(', ')', ')']).open =~= open);
}

proof fn lemma_one_more(s: Seq<char>, c: char, t: Seq<char>)
    requires
        lex(s) == Lexed::At(Lex::Ground),
        c == '$' || c == '{' || c == '}' || c == '(' || c == ')',
        t =~= s + seq![c],
    ensures
        lex(t) == Lexed::At(Lex::Ground),
        nest(t) == nest_step(nest(s), Lex::Ground, c),
{
    assert(t.drop_last() =~= s);
    assert(t.last() == c);
}

} // verus!
