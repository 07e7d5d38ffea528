//! What expanding variables promises.
use crate::script::{
    brace_index, condition_met, expanded, name_char, name_len, variable, IfConditionView,
};
use crate::util::shell::{
    all_stand_for_themselves, in_double_quotes, law_dollars_stay_escaped, split_words,
    with_dollars_escaped, Quoting, ShellBitView,
};
use crate::util::text::{alphabetic, has_prefix};
use vstd::prelude::*;

verus! {

/// The variables that are set, and their values.
pub type Variables = Map<Seq<char>, Seq<char>>;

/// Whether a text holds neither a dollar sign nor a backslash.
pub open spec fn is_plain(text: Seq<char>) -> bool {
    !text.contains('$') && !text.contains('\\')
}

/// The value that a variable has, where it is set; and nothing where it is
/// not.
pub open spec fn has_value(env: Variables, name: Seq<char>, value: Seq<char>) -> bool {
    if env.contains_key(name) {
        env[name] == value
    } else {
        value.len() == 0
    }
}

proof fn lemma_plain_front(text: Seq<char>, rest: Seq<char>, env: Variables)
    requires
        is_plain(text),
    ensures
        expanded(text + rest, env) == text + expanded(rest, env),
    decreases text.len(),
{
    if text.len() == 0 {
        assert(text + rest =~= rest);
        assert(text + expanded(rest, env) =~= expanded(rest, env));
    } else {
        let s = text + rest;
        let tail = text.skip(1);
        assert(text.contains(text[0]));
        assert forall|c: char| tail.contains(c) implies text.contains(c) by {
            let i = choose|i: int| 0 <= i < tail.len() && tail[i] == c;
            assert(text[i + 1] == c);
        }
        assert(s[0] == text[0]);
        assert(s.skip(1) =~= tail + rest);
        lemma_plain_front(tail, rest, env);
        assert(seq![text[0]] + (tail + expanded(rest, env)) =~= text + expanded(rest, env));
    }
}

/// Text without dollar signs and backslashes stays as it is, wherever it
/// stands before other text.
pub proof fn law_plain_text_stays(text: Seq<char>, rest: Seq<char>, env: Variables)
    requires
        is_plain(text),
    ensures
        expanded(text, env) == text,
        expanded(text + rest, env) == text + expanded(rest, env),
{
    lemma_plain_front(text, rest, env);
    lemma_plain_front(text, Seq::empty(), env);
    assert(text + Seq::<char>::empty() =~= text);
}

proof fn lemma_brace_at(name: Seq<char>, rest: Seq<char>)
    requires
        !name.contains('}'),
    ensures
        brace_index(name + seq!['}'] + rest) == name.len(),
    decreases name.len(),
{
    let s = name + seq!['}'] + rest;
    if name.len() > 0 {
        assert(name.contains(name[0]));
        let tail = name.skip(1);
        assert forall|c: char| tail.contains(c) implies name.contains(c) by {
            let i = choose|i: int| 0 <= i < tail.len() && tail[i] == c;
            assert(name[i + 1] == c);
        }
        assert(s[0] == name[0]);
        assert(s.skip(1) =~= tail + seq!['}'] + rest);
        lemma_brace_at(tail, rest);
    } else {
        assert(s[0] == '}');
    }
}

/// `${NAME}` is replaced by the value of the variable, and nothing around it
/// is changed.
pub proof fn law_braced_names_are_replaced(
    before: Seq<char>,
    name: Seq<char>,
    value: Seq<char>,
    rest: Seq<char>,
    env: Variables,
)
    requires
        is_plain(before),
        !name.contains('}'),
        has_value(env, name, value),
    ensures
        expanded(before + seq!['$', '{'] + name + seq!['}'] + rest, env) == before + value
            + expanded(rest, env),
{
    let s = seq!['$', '{'] + name + seq!['}'] + rest;
    assert(before + seq!['$', '{'] + name + seq!['}'] + rest =~= before + s);
    lemma_plain_front(before, s, env);
    let tail = s.skip(1);
    let inner = seq!['{'] + name;
    assert(!inner.contains('}')) by {
        if inner.contains('}') {
            let i = choose|i: int| 0 <= i < inner.len() && inner[i] == '}';
            assert(name[i - 1] == '}');
        }
    }
    assert(tail =~= inner + seq!['}'] + rest);
    lemma_brace_at(inner, rest);
    assert(s[0] == '$');
    assert(tail[0] == '{');
    assert(tail.subrange(1, inner.len() as int) =~= name);
    assert(tail.skip(inner.len() as int + 1) =~= rest);
    if !env.contains_key(name) {
        assert(value =~= Seq::empty());
    }
    assert(variable(env, name) == value);
    assert(before + (value + expanded(rest, env)) =~= before + value + expanded(rest, env));
}

/// Whether a character can be part of the name of a variable.
pub open spec fn in_names(c: char) -> bool {
    alphabetic(c) || c == '_' || c == '0' || c == '1' || c == '2' || c == '3' || c == '4' || c
        == '5' || c == '6' || c == '7' || c == '8' || c == '9'
}

proof fn lemma_name_at(name: Seq<char>, rest: Seq<char>)
    requires
        forall|i: int| 0 <= i < name.len() ==> in_names(#[trigger] name[i]),
        rest.len() > 0 ==> !in_names(rest[0]),
    ensures
        name_len(name + rest) == name.len(),
    decreases name.len(),
{
    let s = name + rest;
    if name.len() > 0 {
        let tail = name.skip(1);
        assert(in_names(name[0]));
        assert(s[0] == name[0]);
        assert(name_char(s[0]));
        assert forall|i: int| 0 <= i < tail.len() implies in_names(#[trigger] tail[i]) by {
            assert(tail[i] == name[i + 1]);
        }
        assert(s.skip(1) =~= tail + rest);
        lemma_name_at(tail, rest);
    } else {
        assert(s =~= rest);
        if s.len() > 0 {
            assert(!name_char(s[0])) by {
                if '0' <= s[0] <= '9' {
                    assert(s[0] as int >= 48 && s[0] as int <= 57);
                }
            }
        }
    }
}

/// `$NAME` is replaced by the value of the variable, where the name goes as
/// far as its characters do, and nothing around it is changed.
pub proof fn law_names_are_replaced(
    before: Seq<char>,
    name: Seq<char>,
    value: Seq<char>,
    rest: Seq<char>,
    env: Variables,
)
    requires
        is_plain(before),
        name.len() > 0,
        forall|i: int| 0 <= i < name.len() ==> in_names(#[trigger] name[i]),
        rest.len() > 0 ==> !in_names(rest[0]),
        has_value(env, name, value),
    ensures
        expanded(before + seq!['$'] + name + rest, env) == before + value + expanded(rest, env),
{
    let s = seq!['$'] + name + rest;
    assert(before + seq!['$'] + name + rest =~= before + s);
    lemma_plain_front(before, s, env);
    let tail = s.skip(1);
    assert(tail =~= name + rest);
    assert(s[0] == '$');
    lemma_name_at(name, rest);
    assert(in_names(name[0]));
    assert(tail[0] == name[0]);
    assert(tail[0] != '{');
    assert(tail.take(name.len() as int) =~= name);
    assert(tail.skip(name.len() as int) =~= rest);
    if !env.contains_key(name) {
        assert(value =~= Seq::empty());
    }
    assert(variable(env, name) == value);
    assert(before + (value + expanded(rest, env)) =~= before + value + expanded(rest, env));
}

/// A backslash keeps the next character as it is, whatever it is, and goes
/// away itself.
pub proof fn law_backslash_keeps_character(
    before: Seq<char>,
    c: char,
    rest: Seq<char>,
    env: Variables,
)
    requires
        is_plain(before),
    ensures
        expanded(before + seq!['\\', c] + rest, env) == before + seq![c] + expanded(rest, env),
{
    let s = seq!['\\', c] + rest;
    assert(before + seq!['\\', c] + rest =~= before + s);
    lemma_plain_front(before, s, env);
    assert(s[0] == '\\' && s[1] == c);
    assert(s.skip(2) =~= rest);
    assert(before + (seq![c] + expanded(rest, env)) =~= before + seq![c] + expanded(rest, env));
}

/// A dollar sign that no name follows stays.
pub proof fn law_lone_dollar_stays(before: Seq<char>, rest: Seq<char>, env: Variables)
    requires
        is_plain(before),
        rest.len() > 0 ==> !in_names(rest[0]) && rest[0] != '{',
    ensures
        expanded(before + seq!['$'] + rest, env) == before + seq!['$'] + expanded(rest, env),
{
    let s = seq!['$'] + rest;
    assert(before + seq!['$'] + rest =~= before + s);
    lemma_plain_front(before, s, env);
    let tail = s.skip(1);
    assert(tail =~= rest);
    assert(s[0] == '$');
    lemma_name_at(Seq::empty(), rest);
    assert(Seq::<char>::empty() + rest =~= rest);
    assert(before + (seq!['$'] + expanded(rest, env)) =~= before + seq!['$'] + expanded(rest, env));
}

proof fn lemma_escaped_dollars(text: Seq<char>, env: Variables)
    requires
        !text.contains('\\'),
    ensures
        expanded(with_dollars_escaped(text), env) == text,
    decreases text.len(),
{
    let s = with_dollars_escaped(text);
    if text.len() > 0 {
        let tail = text.skip(1);
        assert(text.contains(text[0]));
        assert forall|c: char| tail.contains(c) implies text.contains(c) by {
            let i = choose|i: int| 0 <= i < tail.len() && tail[i] == c;
            assert(text[i + 1] == c);
        }
        lemma_escaped_dollars(tail, env);
        let rest = with_dollars_escaped(tail);
        if text[0] == '$' {
            assert(s =~= seq!['\\', '$'] + rest);
            assert(s[0] == '\\' && s[1] == '$');
            assert(s.skip(2) =~= rest);
        } else {
            assert(s =~= seq![text[0]] + rest);
            assert(s[0] == text[0]);
            assert(s.skip(1) =~= rest);
        }
        assert(seq![text[0]] + tail =~= text);
    } else {
        assert(s =~= Seq::empty());
        assert(text =~= Seq::empty());
    }
}

/// A backslash in front of a dollar sign keeps it from being expanded, in
/// double quotes and outside quotes: the word read from a text with each `$`
/// written as `\$` expands to the text itself, whatever variables are set.
pub proof fn law_escaped_dollars_are_not_expanded(text: Seq<char>, env: Variables)
    requires
        !text.contains('\\'),
    ensures
        all_stand_for_themselves(text, Quoting::Double) ==> (split_words(
            in_double_quotes(with_dollars_escaped(text)),
        ) matches Ok(words) && words.len() == 1 && (words[0] matches ShellBitView::Quoted(word)
            && expanded(word, env) == text)),
        all_stand_for_themselves(text, Quoting::Plain) && text.len() > 0 ==> (split_words(
            with_dollars_escaped(text),
        ) matches Ok(words) && words.len() == 1 && (words[0] matches ShellBitView::Quoted(word)
            && expanded(word, env) == text)),
{
    lemma_escaped_dollars(text, env);
    law_dollars_stay_escaped(text);
}

/// A comparison with `==` is met exactly where the variable has the value, and
/// one with `!=` exactly where it has not. The variable may be written with
/// its `$` or without; a value in single quotes is taken as it is.
pub proof fn law_conditions_compare(
    name: Seq<char>,
    found: Seq<char>,
    value: Seq<char>,
    env: Variables,
)
    requires
        name.len() > 0,
        forall|i: int| 0 <= i < name.len() ==> in_names(#[trigger] name[i]),
        has_value(env, name, found),
    ensures
        condition_met(IfConditionView::EnvEq(false, name, ShellBitView::Literal(value)), env) <==> (
        found == value),
        condition_met(IfConditionView::EnvEq(true, name, ShellBitView::Literal(value)), env) <==> (
        found != value),
        condition_met(
            IfConditionView::EnvEq(false, seq!['$'] + name, ShellBitView::Literal(value)),
            env,
        ) <==> (found == value),
        condition_met(
            IfConditionView::EnvEq(true, seq!['$'] + name, ShellBitView::Literal(value)),
            env,
        ) <==> (found != value),
        is_plain(value) ==> forall|negated: bool, left: Seq<char>| #[trigger]
            condition_met(
                IfConditionView::EnvEq(negated, left, ShellBitView::Quoted(value)),
                env,
            ) == condition_met(
                IfConditionView::EnvEq(negated, left, ShellBitView::Literal(value)),
                env,
            ),
        condition_met(IfConditionView::True, env),
        !condition_met(IfConditionView::False, env),
{
    let none = Seq::<char>::empty();
    reveal_strlit("$");
    assert("$"@ =~= seq!['$']);
    if !env.contains_key(name) {
        assert(found =~= none);
    }
    assert(variable(env, name) == found);
    assert(!has_prefix(name, "$"@)) by {
        assert(in_names(name[0]));
        assert(name.take(1)[0] == name[0]);
        assert("$"@[0] == '$');
    }
    let dollar = seq!['$'] + name;
    assert(has_prefix(dollar, "$"@)) by {
        assert(dollar.take(1) =~= "$"@);
    }
    law_names_are_replaced(none, name, found, none, env);
    assert(none + seq!['$'] + name + none =~= dollar);
    assert(none + found + expanded(none, env) =~= found);
    if is_plain(value) {
        law_plain_text_stays(value, none, env);
    }
}

} // verus!
