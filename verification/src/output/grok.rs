//! Patterns of a single line, written with grok.
use crate::script::share;
use crate::util::assoc::{entry, lookup, pairs_map};
use crate::util::text::{chars_of, push_str, strings_view, push_char};
use std::sync::Arc;
use vstd::prelude::*;

verus! {

/// A set of named grok definitions.
#[verifier::external_type_specification]
#[verifier::external_body]
pub struct ExGrok(grok::Grok);

/// A compiled grok pattern.
#[verifier::external_type_specification]
#[verifier::external_body]
pub struct ExGrokPattern(grok::Pattern);

/// What a set of definitions holds: the regular expression of each name.
pub uninterp spec fn definitions(grok: &grok::Grok) -> Map<Seq<char>, Seq<char>>;

/// What a compiled pattern holds: the definitions and the source that it was
/// compiled from.
pub uninterp spec fn compiled_from(pattern: &grok::Pattern) -> (Map<Seq<char>, Seq<char>>, Seq<char>);

/// What `grok::Grok::compile` objects to in a source, if anything.
pub uninterp spec fn grok_objection(
    definitions: Map<Seq<char>, Seq<char>>,
    source: Seq<char>,
) -> Option<Seq<char>>;

/// What `grok::Pattern::match_against` finds in a text for a source: nothing,
/// or the text of each name that took part in the match.
pub uninterp spec fn match_result(
    definitions: Map<Seq<char>, Seq<char>>,
    source: Seq<char>,
    text: Seq<char>,
) -> Option<Map<Seq<char>, Seq<char>>>;

/// `grok::Grok::empty` gives a set without definitions.
#[verifier::external_body]
pub(crate) fn no_definitions() -> (r: grok::Grok)
    ensures
        definitions(&r) == (Map::<Seq<char>, Seq<char>>::empty()),
{
    grok::Grok::empty()
}

/// `grok::Grok::compile` gives a pattern that matches what the source stands
/// for under the definitions, or says why it cannot.
#[verifier::external_body]
pub(crate) fn compile_source(grok: &grok::Grok, source: &str) -> (r: Result<grok::Pattern, String>)
    ensures
        match r {
            Ok(p) => grok_objection(definitions(grok), source@) is None && compiled_from(&p) == (
                definitions(grok),
                source@,
            ),
            Err(e) => grok_objection(definitions(grok), source@) == Some(e@),
        },
{
    grok.compile(source, false).map_err(|e| e.to_string())
}

/// `grok::Pattern::match_against` looks for the pattern in a text, and
/// `grok::Matches::iter` gives each name that took part with its text.
#[verifier::external_body]
fn match_names(pattern: &grok::Pattern, text: &str) -> (r: Option<Vec<(String, String)>>)
    ensures
        ({
            let found = match_result(compiled_from(pattern).0, compiled_from(pattern).1, text@);
            match r {
                Some(pairs) => found is Some && forall|name: Seq<char>|
                    #![trigger lookup(pairs@, name)]
                    lookup(pairs@, name) == entry(found->Some_0, name),
                None => found is None,
            }
        }),
{
    let found = pattern.match_against(text)?;
    Some(found.iter().map(|(name, value)| (name.to_string(), value.to_string())).collect())
}

/// A pattern of a single line.
pub struct GrokPattern {
    original: String,
    pattern: String,
    aliases: Vec<String>,
    compiled: Option<Arc<grok::Pattern>>,
}

/// The mathematical value of a [`GrokPattern`].
pub struct GrokView {
    /// The text as it stands in the script.
    pub original: Seq<char>,
    /// The source that is compiled.
    pub pattern: Seq<char>,
    /// The names whose values are kept.
    pub aliases: Seq<Seq<char>>,
    /// The definitions that the pattern was prepared with.
    pub prepared: Option<Map<Seq<char>, Seq<char>>>,
}

impl View for GrokPattern {
    type V = GrokView;

    closed spec fn view(&self) -> GrokView {
        GrokView {
            original: self.original@,
            pattern: self.pattern@,
            aliases: strings_view(self.aliases@),
            prepared: match self.compiled {
                Some(p) => Some(compiled_from(&*p).0),
                None => None,
            },
        }
    }
}

impl GrokPattern {
    /// A compiled pattern was compiled from this source.
    #[verifier::type_invariant]
    spec fn compiled_from_source(self) -> bool {
        self.compiled matches Some(p) ==> compiled_from(&*p).1 == self.pattern@
    }
}

impl GrokPattern {
    /// The text as it stands in the script.
    pub fn display_source(&self) -> (r: &str)
        ensures
            r@ == self@.original,
    {
        self.original.as_str()
    }

    /// The source that is compiled.
    pub fn source(&self) -> (r: &str)
        ensures
            r@ == self@.pattern,
    {
        self.pattern.as_str()
    }

    /// Whether the pattern was prepared.
    pub fn is_prepared(&self) -> (r: bool)
        ensures
            r == (self@.prepared is Some),
    {
        self.compiled.is_some()
    }

    /// The number of names whose values are kept.
    pub(crate) fn alias_count(&self) -> (r: usize)
        ensures
            r == self@.aliases.len(),
    {
        self.aliases.len()
    }

    /// A name whose value is kept.
    pub(crate) fn alias(&self, i: usize) -> (r: &str)
        requires
            i < self@.aliases.len(),
        ensures
            r@ == self@.aliases[i as int],
    {
        self.aliases[i].as_str()
    }

    /// What the pattern finds in a text: nothing, or the text of each name
    /// that took part in the match.
    pub fn matches(&self, text: &str) -> (r: Option<Vec<(String, String)>>)
        requires
            self@.prepared is Some,
        ensures
            ({
                let found = match_result(self@.prepared->Some_0, self@.pattern, text@);
                match r {
                    Some(pairs) => found == Some(pairs_map(pairs@)),
                    None => found is None,
                }
            }),
    {
        proof {
            use_type_invariant(self);
        }
        match &self.compiled {
            Some(pattern) => {
                let r = match_names(pattern, text);
                proof {
                    if r is Some {
                        let pairs = r->Some_0;
                        let found = match_result(self@.prepared->Some_0, self@.pattern, text@)->Some_0;
                        assert forall|name: Seq<char>| #[trigger]
                            found.contains_key(name) == pairs_map(pairs@).contains_key(name) by {
                            assert(lookup(pairs@, name) == entry(found, name));
                        }
                        assert forall|name: Seq<char>| #[trigger]
                            found.contains_key(name) implies found[name] == pairs_map(
                            pairs@,
                        )[name] by {
                            assert(lookup(pairs@, name) == entry(found, name));
                        }
                        assert(found =~= pairs_map(pairs@));
                    }
                }
                r
            },
            None => None,
        }
    }
}

/// A part of a line with grok patterns.
pub enum GrokBit {
    /// A regular expression.
    Text(String),
    /// A grok pattern: its whole text, and the name that its value is kept
    /// under.
    Name(String, String),
    /// A character that cannot stand in a grok pattern.
    BadCharacter(char),
    /// A grok pattern of an unknown form.
    BadPattern,
    /// A grok pattern with a definition of an unknown form.
    BadDefinition,
}

/// The mathematical value of a [`GrokBit`].
pub enum GrokBitView {
    /// A regular expression.
    Text(Seq<char>),
    /// A grok pattern.
    Name(Seq<char>, Seq<char>),
    /// A character that cannot stand in a grok pattern.
    BadCharacter(char),
    /// A grok pattern of an unknown form.
    BadPattern,
    /// A grok pattern with a definition of an unknown form.
    BadDefinition,
}

impl View for GrokBit {
    type V = GrokBitView;

    open spec fn view(&self) -> GrokBitView {
        match self {
            GrokBit::Text(s) => GrokBitView::Text(s@),
            GrokBit::Name(s, alias) => GrokBitView::Name(s@, alias@),
            GrokBit::BadCharacter(c) => GrokBitView::BadCharacter(*c),
            GrokBit::BadPattern => GrokBitView::BadPattern,
            GrokBit::BadDefinition => GrokBitView::BadDefinition,
        }
    }
}

/// What `grok::parser::grok_split` splits a line into.
pub uninterp spec fn grok_bits(line: Seq<char>) -> Seq<GrokBitView>;

/// The values of a sequence of parts.
pub open spec fn bits_model(bits: Seq<GrokBit>) -> Seq<GrokBitView> {
    bits.map_values(|b: GrokBit| b@)
}

/// `grok::parser::grok_split` splits a line into regular expressions and grok
/// patterns.
#[verifier::external_body]
fn split_grok(line: &str) -> (r: Vec<GrokBit>)
    ensures
        bits_model(r@) == grok_bits(line@),
{
    grok::parser::grok_split(line)
        .map(|bit| match bit {
            grok::parser::GrokComponent::RegularExpression { string, .. } => GrokBit::Text(string.to_string()),
            grok::parser::GrokComponent::GrokPattern { pattern, alias, .. } => GrokBit::Name(pattern.to_string(), alias.to_string()),
            grok::parser::GrokComponent::PatternError(grok::parser::GrokPatternError::InvalidCharacter(c)) => GrokBit::BadCharacter(c),
            grok::parser::GrokComponent::PatternError(grok::parser::GrokPatternError::InvalidPattern) => GrokBit::BadPattern,
            grok::parser::GrokComponent::PatternError(grok::parser::GrokPatternError::InvalidPatternDefinition) => GrokBit::BadDefinition,
        })
        .collect()
}

/// What formatting a character with `{:?}` gives: the character in single
/// quotes, escaped where it is unprintable.
pub uninterp spec fn char_debug(c: char) -> Seq<char>;

/// `format!` with `{:?}` of a character writes it in single quotes and
/// escaped.
#[verifier::external_body]
fn debug_char(c: char) -> (r: String)
    ensures
        r@ == char_debug(c),
{
    format!("{c:?}")
}

/// Whether a character is escaped to be matched as it is: an ASCII character
/// that is neither a letter nor a digit.
pub open spec fn is_special(c: char) -> bool {
    c as int <= 0x7f && !('a' <= c <= 'z') && !('A' <= c <= 'Z') && !('0' <= c <= '9')
}

/// A text with each special character behind a backslash.
pub open spec fn escaped_text(s: Seq<char>) -> Seq<char>
    decreases s.len(),
{
    if s.len() == 0 {
        Seq::empty()
    } else if is_special(s.last()) {
        escaped_text(s.drop_last()).push('\\').push(s.last())
    } else {
        escaped_text(s.drop_last()).push(s.last())
    }
}

/// What the parts of a line add up to.
pub struct Sources {
    /// The line with each grok pattern made a single dot.
    pub test: Seq<char>,
    /// The line.
    pub full: Seq<char>,
    /// The names that values are kept under.
    pub aliases: Seq<Seq<char>>,
}

/// What the parts of a line add up to, where text is escaped or not; or what
/// is wrong with the first part that is wrong.
pub open spec fn sources_of(bits: Seq<GrokBitView>, escape: bool) -> Result<Sources, Seq<char>>
    decreases bits.len(),
{
    if bits.len() == 0 {
        Ok(Sources { test: Seq::empty(), full: Seq::empty(), aliases: Seq::empty() })
    } else {
        match sources_of(bits.drop_last(), escape) {
            Err(e) => Err(e),
            Ok(front) => match bits.last() {
                GrokBitView::Text(s) => {
                    let text = if escape {
                        escaped_text(s)
                    } else {
                        s
                    };
                    Ok(Sources { test: front.test + text, full: front.full + text, ..front })
                },
                GrokBitView::Name(s, alias) => Ok(
                    Sources {
                        test: front.test.push('.'),
                        full: front.full + s,
                        aliases: if alias.len() == 0 {
                            front.aliases
                        } else {
                            front.aliases.push(alias)
                        },
                    },
                ),
                GrokBitView::BadCharacter(c) => Err(
                    "Invalid character in pattern: "@ + char_debug(c),
                ),
                GrokBitView::BadPattern => Err("Invalid grok pattern"@),
                GrokBitView::BadDefinition => Err("Invalid grok pattern definition"@),
            },
        }
    }
}

/// The pattern that a split line stands for, or what is wrong with it: with
/// one of its parts, or with compiling it.
pub open spec fn pattern_of_bits(
    bits: Seq<GrokBitView>,
    original: Seq<char>,
    escape: bool,
) -> Result<GrokView, Seq<char>> {
    match sources_of(bits, escape) {
        Err(e) => Err(e),
        Ok(sources) => match grok_objection(Map::empty(), sources.test.push('$')) {
            Some(e) => Err(e),
            None => Ok(
                GrokView {
                    original,
                    pattern: sources.full.push('$'),
                    aliases: sources.aliases,
                    prepared: None,
                },
            ),
        },
    }
}

/// What compiling a line gives.
pub open spec fn compiled_line(line: Seq<char>, original: Seq<char>, escape: bool) -> Result<
    GrokView,
    Seq<char>,
> {
    pattern_of_bits(grok_bits(line), original, escape)
}

/// Whether a character is escaped to be matched as it is.
fn needs_escape(c: char) -> (r: bool)
    ensures
        r == is_special(c),
{
    c as u32 <= 0x7f && !('a' <= c && c <= 'z') && !('A' <= c && c <= 'Z') && !('0' <= c && c
        <= '9')
}

/// Appends a text with each special character behind a backslash.
fn push_escaped_text(out: &mut String, text: &str)
    ensures
        final(out)@ == old(out)@ + escaped_text(text@),
{
    let chars = chars_of(text);
    let mut i: usize = 0;
    proof {
        assert(chars@.take(0) =~= Seq::empty());
        assert(out@ + Seq::<char>::empty() =~= out@);
    }
    while i < chars.len()
        invariant
            i <= chars@.len(),
            chars@ == text@,
            out@ == old(out)@ + escaped_text(chars@.take(i as int)),
        decreases chars@.len() - i,
    {
        let c: char = chars[i];
        proof {
            assert(chars@.take(i + 1).drop_last() =~= chars@.take(i as int));
            assert(chars@.take(i + 1).last() == c);
        }
        if needs_escape(c) {
            push_char(out, '\\');
        }
        push_char(out, c);
        proof {
            assert(out@ =~= old(out)@ + escaped_text(chars@.take(i + 1)));
        }
        i += 1;
    }
    proof {
        assert(chars@.take(i as int) =~= text@);
    }
}

/// The pattern that the parts of a line stand for, or what is wrong with it.
pub fn pattern_from_bits(bits: &Vec<GrokBit>, original: String, escape_non_grok: bool) -> (r: Result<
    GrokPattern,
    String,
>)
    ensures
        match r {
            Ok(p) => pattern_of_bits(bits_model(bits@), original@, escape_non_grok) == Ok::<
                GrokView,
                Seq<char>,
            >(p@),
            Err(e) => pattern_of_bits(bits_model(bits@), original@, escape_non_grok) == Err::<
                GrokView,
                Seq<char>,
            >(e@),
        },
{
    let ghost model = bits_model(bits@);
    let mut test = String::new();
    let mut full = String::new();
    let mut aliases: Vec<String> = Vec::new();
    let mut i: usize = 0;
    proof {
        assert(model.take(0) =~= Seq::empty());
        assert(test@ =~= Seq::empty());
        assert(full@ =~= Seq::empty());
        assert(strings_view(aliases@) =~= Seq::empty());
    }
    while i < bits.len()
        invariant
            i <= bits@.len(),
            model == bits_model(bits@),
            sources_of(model.take(i as int), escape_non_grok) == Ok::<Sources, Seq<char>>(
                Sources { test: test@, full: full@, aliases: strings_view(aliases@) },
            ),
        decreases bits@.len() - i,
    {
        proof {
            assert(model.take(i + 1).drop_last() =~= model.take(i as int));
            assert(model.take(i + 1).last() == bits@[i as int]@);
        }
        let ghost had = aliases@;
        let fault: Option<String> = match &bits[i] {
            GrokBit::Text(s) => {
                if escape_non_grok {
                    push_escaped_text(&mut test, s.as_str());
                    push_escaped_text(&mut full, s.as_str());
                } else {
                    push_str(&mut test, s.as_str());
                    push_str(&mut full, s.as_str());
                }
                None
            },
            GrokBit::Name(s, alias) => {
                push_char(&mut test, '.');
                push_str(&mut full, s.as_str());
                if !alias.as_str().is_empty() {
                    aliases.push(alias.clone());
                    proof {
                        assert(strings_view(aliases@) =~= strings_view(had).push(alias@));
                    }
                }
                None
            },
            GrokBit::BadCharacter(c) => {
                let mut e = "Invalid character in pattern: ".to_owned();
                push_str(&mut e, debug_char(*c).as_str());
                Some(e)
            },
            GrokBit::BadPattern => Some("Invalid grok pattern".to_owned()),
            GrokBit::BadDefinition => Some("Invalid grok pattern definition".to_owned()),
        };
        if let Some(e) = fault {
            proof {
                lemma_sources_fault(model, escape_non_grok, i + 1);
            }
            return Err(e);
        }
        i += 1;
    }
    proof {
        assert(model.take(i as int) =~= model);
    }
    push_char(&mut test, '$');
    push_char(&mut full, '$');
    match compile_source(&no_definitions(), test.as_str()) {
        Ok(_) => Ok(GrokPattern { original, pattern: full, aliases, compiled: None }),
        Err(e) => Err(e),
    }
}

/// What is wrong with the first part that is wrong is what is wrong.
proof fn lemma_sources_fault(bits: Seq<GrokBitView>, escape: bool, k: int)
    requires
        0 <= k <= bits.len(),
        sources_of(bits.take(k), escape) is Err,
    ensures
        sources_of(bits, escape) == sources_of(bits.take(k), escape),
    decreases bits.len() - k,
{
    if k < bits.len() {
        assert(bits.take(k + 1).drop_last() =~= bits.take(k));
        lemma_sources_fault(bits, escape, k + 1);
    } else {
        assert(bits.take(k) =~= bits);
    }
}

impl GrokPattern {
    /// The pattern that a line stands for, or what is wrong with it. Text
    /// outside grok patterns is matched as it is, or as a regular expression.
    pub fn compile(line: &str, original: String, escape_non_grok: bool) -> (r: Result<Self, String>)
        ensures
            match r {
                Ok(p) => compiled_line(line@, original@, escape_non_grok) == Ok::<
                    GrokView,
                    Seq<char>,
                >(p@),
                Err(e) => compiled_line(line@, original@, escape_non_grok) == Err::<
                    GrokView,
                    Seq<char>,
                >(e@),
            },
    {
        let bits = split_grok(line);
        pattern_from_bits(&bits, original, escape_non_grok)
    }

    /// The pattern prepared for matching. One that was prepared stays as it
    /// is.
    pub fn prepare(&self, grok: &grok::Grok) -> (r: Result<GrokPattern, String>)
        ensures
            match r {
                Ok(p) => prepared_grok(self@, definitions(grok)) == Ok::<GrokView, Seq<char>>(p@),
                Err(e) => prepared_grok(self@, definitions(grok)) == Err::<GrokView, Seq<char>>(
                    e@,
                ),
            },
    {
        proof {
            use_type_invariant(self);
        }
        let compiled = match &self.compiled {
            Some(pattern) => share(pattern),
            None => match compile_source(grok, self.pattern.as_str()) {
                Ok(pattern) => Arc::new(pattern),
                Err(e) => {
                    return Err(e);
                },
            },
        };
        let mut aliases: Vec<String> = Vec::new();
        let mut i: usize = 0;
        while i < self.aliases.len()
            invariant
                i <= self.aliases@.len(),
                aliases@ == self.aliases@.take(i as int),
            decreases self.aliases@.len() - i,
        {
            aliases.push(self.aliases[i].clone());
            i += 1;
            proof {
                assert(self.aliases@.take(i as int) =~= self.aliases@.take(i - 1).push(
                    self.aliases@[i - 1],
                ));
            }
        }
        proof {
            assert(self.aliases@.take(i as int) =~= self.aliases@);
        }
        Ok(
            GrokPattern {
                original: self.original.clone(),
                pattern: self.pattern.clone(),
                aliases,
                compiled: Some(compiled),
            },
        )
    }
}

/// The pattern prepared for matching, or what compiling it objects to.
pub open spec fn prepared_grok(g: GrokView, definitions: Map<Seq<char>, Seq<char>>) -> Result<
    GrokView,
    Seq<char>,
> {
    if g.prepared is Some {
        Ok(g)
    } else {
        match grok_objection(definitions, g.pattern) {
            Some(e) => Err(e),
            None => Ok(GrokView { prepared: Some(definitions), ..g }),
        }
    }
}

} // verus!
