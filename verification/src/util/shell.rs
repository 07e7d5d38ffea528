//! Splitting a line into shell-like words.
use crate::util::text::{chars_of, push_char};
use vstd::prelude::*;

verus! {

/// Why a line could not be split into words.
#[derive(Debug, Clone, Copy, PartialEq, Eq, Structural)]
pub enum ShellParseError {
    /// The line ended inside the quotes opened by this character.
    UnmatchedQuote(char),
    /// This character stands where a `\x` escape needs a hexadecimal digit.
    InvalidHexEscape(char),
}

/// One word of a shell-like line.
#[derive(Debug, PartialEq, Eq, PartialOrd, Ord, Hash)]
pub enum ShellBit {
    /// A literal string that does not participate in expansion. Comes from
    /// `'string'`.
    Literal(String),
    /// A string that is (possibly) quoted and participates in expansion. Comes
    /// from `"string"` or `string`.
    Quoted(String),
}

/// The mathematical value of a [`ShellBit`].
pub enum ShellBitView {
    /// Text in single quotes.
    Literal(Seq<char>),
    /// Any other text.
    Quoted(Seq<char>),
}

impl View for ShellBit {
    type V = ShellBitView;

    open spec fn view(&self) -> ShellBitView {
        match self {
            ShellBit::Literal(s) => ShellBitView::Literal(s@),
            ShellBit::Quoted(s) => ShellBitView::Quoted(s@),
        }
    }
}

impl ShellBitView {
    /// The text of the word, quotes and escapes resolved.
    pub open spec fn text(self) -> Seq<char> {
        match self {
            ShellBitView::Literal(s) => s,
            ShellBitView::Quoted(s) => s,
        }
    }
}

impl Clone for ShellBit {
    fn clone(&self) -> (r: Self)
        ensures
            r@ == self@,
    {
        match self {
            ShellBit::Literal(s) => ShellBit::Literal(s.clone()),
            ShellBit::Quoted(s) => ShellBit::Quoted(s.clone()),
        }
    }
}

impl ShellBit {
    /// The text of the word, quotes and escapes resolved.
    pub fn as_str(&self) -> (r: &str)
        ensures
            r@ == self@.text(),
    {
        match self {
            ShellBit::Literal(s) => s.as_str(),
            ShellBit::Quoted(s) => s.as_str(),
        }
    }

    /// Whether the text of the word is `other`, however it was quoted.
    pub fn is_text(&self, other: &str) -> (r: bool)
        ensures
            r == (self@.text() == other@),
    {
        *self.as_str() == *other
    }
}

/// The views of a sequence of words.
pub open spec fn bits_view(bits: Seq<ShellBit>) -> Seq<ShellBitView> {
    bits.map_values(|b: ShellBit| b@)
}

/// Which quotes, if any, a position of the line stands in.
#[derive(Clone, Copy, PartialEq, Eq, Structural)]
pub enum Quoting {
    /// Outside quotes.
    Plain,
    /// Between single quotes.
    Single,
    /// Between double quotes.
    Double,
}

/// The number that a hexadecimal digit stands for.
pub open spec fn hex_digit(c: char) -> Option<int> {
    if '0' <= c <= '9' {
        Some(c as int - '0' as int)
    } else if 'a' <= c <= 'f' {
        Some(c as int - 'a' as int + 10)
    } else if 'A' <= c <= 'F' {
        Some(c as int - 'A' as int + 10)
    } else {
        None
    }
}

/// What a backslash followed by `c` stands for, `\x` aside. A pair with no
/// meaning of its own stands for itself.
pub open spec fn escaped(c: char) -> Seq<char> {
    if c == 'a' {
        seq!['\x07']
    } else if c == 'b' {
        seq!['\x08']
    } else if c == 'f' {
        seq!['\x0c']
    } else if c == 'n' {
        seq!['\n']
    } else if c == 'r' {
        seq!['\r']
    } else if c == 't' {
        seq!['\t']
    } else if c == 'v' {
        seq!['\x0b']
    } else if c == 'e' {
        seq!['\x1b']
    } else if c == '0' {
        seq!['\0']
    } else if c == '"' {
        seq!['"']
    } else {
        seq!['\\', c]
    }
}

/// A successful split with `word` in front of it.
pub open spec fn word_first(
    word: ShellBitView,
    rest: Result<Seq<ShellBitView>, ShellParseError>,
) -> Result<Seq<ShellBitView>, ShellParseError> {
    match rest {
        Ok(words) => Ok(seq![word] + words),
        Err(e) => Err(e),
    }
}

/// The words of the rest `s` of a line, where `word` is the text gathered so
/// far of the word that is being read. A space ends a word outside quotes, a
/// closing quote ends one that has quotes; a backslash escapes everywhere but
/// between single quotes, and one with nothing behind it is dropped.
pub open spec fn split_rest(s: Seq<char>, quoting: Quoting, word: Seq<char>) -> Result<
    Seq<ShellBitView>,
    ShellParseError,
>
    decreases s.len(),
{
    let tail = s.skip(1);
    if s.len() == 0 {
        match quoting {
            Quoting::Single => Err(ShellParseError::UnmatchedQuote('\'')),
            Quoting::Double => Err(ShellParseError::UnmatchedQuote('"')),
            Quoting::Plain => if word.len() == 0 {
                Ok(Seq::empty())
            } else {
                Ok(seq![ShellBitView::Quoted(word)])
            },
        }
    } else if quoting == Quoting::Single {
        if s[0] == '\'' {
            word_first(ShellBitView::Literal(word), split_rest(tail, Quoting::Plain, Seq::empty()))
        } else {
            split_rest(tail, quoting, word.push(s[0]))
        }
    } else if s[0] == '\\' {
        if s.len() == 1 {
            split_rest(tail, quoting, word)
        } else if s[1] != 'x' {
            split_rest(s.skip(2), quoting, word + escaped(s[1]))
        } else if s.len() == 2 {
            split_rest(s.skip(2), quoting, word)
        } else if hex_digit(s[2]) is None {
            Err(ShellParseError::InvalidHexEscape(s[2]))
        } else if s.len() == 3 {
            split_rest(s.skip(3), quoting, word)
        } else if hex_digit(s[3]) is None {
            Err(ShellParseError::InvalidHexEscape(s[3]))
        } else {
            let code = 16 * hex_digit(s[2])->Some_0 + hex_digit(s[3])->Some_0;
            split_rest(s.skip(4), quoting, word.push(code as u8 as char))
        }
    } else if quoting == Quoting::Double {
        if s[0] == '"' {
            word_first(ShellBitView::Quoted(word), split_rest(tail, Quoting::Plain, Seq::empty()))
        } else {
            split_rest(tail, quoting, word.push(s[0]))
        }
    } else if s[0] == '\'' {
        split_rest(tail, Quoting::Single, word)
    } else if s[0] == '"' {
        split_rest(tail, Quoting::Double, word)
    } else if s[0] == ' ' {
        if word.len() == 0 {
            split_rest(tail, quoting, word)
        } else {
            word_first(ShellBitView::Quoted(word), split_rest(tail, quoting, Seq::empty()))
        }
    } else {
        split_rest(tail, quoting, word.push(s[0]))
    }
}

/// The words of a line.
pub open spec fn split_words(line: Seq<char>) -> Result<Seq<ShellBitView>, ShellParseError> {
    split_rest(line, Quoting::Plain, Seq::empty())
}

/// A successful split with all of `words` in front of it.
spec fn words_first(
    words: Seq<ShellBitView>,
    rest: Result<Seq<ShellBitView>, ShellParseError>,
) -> Result<Seq<ShellBitView>, ShellParseError> {
    match rest {
        Ok(more) => Ok(words + more),
        Err(e) => Err(e),
    }
}

proof fn lemma_words_first_push(
    words: Seq<ShellBitView>,
    word: ShellBitView,
    rest: Result<Seq<ShellBitView>, ShellParseError>,
)
    ensures
        words_first(words.push(word), rest) == words_first(words, word_first(word, rest)),
{
    if let Ok(more) = rest {
        assert(words.push(word) + more =~= words + (seq![word] + more));
    }
}

/// The number that a hexadecimal digit stands for.
fn hex_value(c: char) -> (r: Option<u8>)
    ensures
        hex_digit(c) == (match r {
            Some(v) => Some(v as int),
            None => None::<int>,
        }),
        r matches Some(v) ==> v < 16,
{
    if '0' <= c && c <= '9' {
        Some((c as u32 - '0' as u32) as u8)
    } else if 'a' <= c && c <= 'f' {
        Some((c as u32 - 'a' as u32 + 10) as u8)
    } else if 'A' <= c && c <= 'F' {
        Some((c as u32 - 'A' as u32 + 10) as u8)
    } else {
        None
    }
}

/// Appends what a backslash followed by `c` stands for.
fn push_escaped(word: &mut String, c: char)
    ensures
        final(word)@ == old(word)@ + escaped(c),
{
    let single: char = match c {
        'a' => '\x07',
        'b' => '\x08',
        'f' => '\x0c',
        'n' => '\n',
        'r' => '\r',
        't' => '\t',
        'v' => '\x0b',
        'e' => '\x1b',
        '0' => '\0',
        '"' => '"',
        _ => {
            push_char(word, '\\');
            push_char(word, c);
            return;
        },
    };
    push_char(word, single);
}

/// Split a shell-ish string into a vector of strings.
pub fn shell_split(input: &str) -> (r: Result<Vec<ShellBit>, ShellParseError>)
    ensures
        match r {
            Ok(bits) => split_words(input@) == Ok::<Seq<ShellBitView>, ShellParseError>(
                bits_view(bits@),
            ),
            Err(e) => split_words(input@) == Err::<Seq<ShellBitView>, ShellParseError>(e),
        },
{
    let chars = chars_of(input);
    let n: usize = chars.len();
    let mut result: Vec<ShellBit> = Vec::new();
    let mut quoting = Quoting::Plain;
    let mut word = String::new();
    let mut i: usize = 0;
    proof {
        assert(chars@.skip(0) =~= chars@);
        assert(bits_view(result@) =~= Seq::empty());
        assert(word@ =~= Seq::empty());
        if let Ok(more) = split_words(input@) {
            assert(Seq::<ShellBitView>::empty() + more =~= more);
        }
    }
    while i < n
        invariant
            i <= n == chars@.len(),
            chars@ == input@,
            split_words(input@) == words_first(
                bits_view(result@),
                split_rest(chars@.skip(i as int), quoting, word@),
            ),
        decreases n - i,
    {
        let ghost rest = chars@.skip(i as int);
        let ghost words = bits_view(result@);
        proof {
            assert(rest.skip(1) =~= chars@.skip(i + 1));
            if rest.len() >= 2 {
                assert(rest.skip(2) =~= chars@.skip(i + 2));
            }
            if rest.len() >= 3 {
                assert(rest.skip(3) =~= chars@.skip(i + 3));
            }
            if rest.len() >= 4 {
                assert(rest.skip(4) =~= chars@.skip(i + 4));
            }
        }
        let c: char = chars[i];
        if matches!(quoting, Quoting::Single) {
            if c == '\'' {
                let mut done = String::new();
                std::mem::swap(&mut done, &mut word);
                proof {
                    lemma_words_first_push(
                        words,
                        ShellBitView::Literal(done@),
                        split_rest(rest.skip(1), Quoting::Plain, Seq::empty()),
                    );
                }
                result.push(ShellBit::Literal(done));
                quoting = Quoting::Plain;
                proof {
                    assert(bits_view(result@) =~= words.push(ShellBitView::Literal(done@)));
                    assert(word@ =~= Seq::empty());
                }
            } else {
                push_char(&mut word, c);
            }
            i += 1;
        } else if c == '\\' {
            if i + 1 == n {
                i += 1;
            } else if chars[i + 1] != 'x' {
                push_escaped(&mut word, chars[i + 1]);
                i += 2;
            } else if i + 2 == n {
                i += 2;
            } else {
                let first: u8 = match hex_value(chars[i + 2]) {
                    Some(v) => v,
                    None => {
                        return Err(ShellParseError::InvalidHexEscape(chars[i + 2]));
                    },
                };
                if i + 3 == n {
                    i += 3;
                } else {
                    let second: u8 = match hex_value(chars[i + 3]) {
                        Some(v) => v,
                        None => {
                            return Err(ShellParseError::InvalidHexEscape(chars[i + 3]));
                        },
                    };
                    let code: u8 = 16 * first + second;
                    push_char(&mut word, code as char);
                    i += 4;
                }
            }
        } else if matches!(quoting, Quoting::Double) && c != '"' {
            push_char(&mut word, c);
            i += 1;
        } else if matches!(quoting, Quoting::Double) || (c == ' ' && !word.as_str().is_empty()) {
            let mut done = String::new();
            std::mem::swap(&mut done, &mut word);
            proof {
                lemma_words_first_push(
                    words,
                    ShellBitView::Quoted(done@),
                    split_rest(rest.skip(1), Quoting::Plain, Seq::empty()),
                );
            }
            result.push(ShellBit::Quoted(done));
            quoting = Quoting::Plain;
            proof {
                assert(bits_view(result@) =~= words.push(ShellBitView::Quoted(done@)));
                assert(word@ =~= Seq::empty());
            }
            i += 1;
        } else if c == '\'' {
            quoting = Quoting::Single;
            i += 1;
        } else if c == '"' {
            quoting = Quoting::Double;
            i += 1;
        } else {
            if c != ' ' {
                push_char(&mut word, c);
            }
            i += 1;
        }
    }
    proof {
        assert(chars@.skip(i as int) =~= Seq::empty());
    }
    match quoting {
        Quoting::Single => Err(ShellParseError::UnmatchedQuote('\'')),
        Quoting::Double => Err(ShellParseError::UnmatchedQuote('"')),
        Quoting::Plain => {
            let ghost words = bits_view(result@);
            let ghost last = word@;
            if !word.as_str().is_empty() {
                result.push(ShellBit::Quoted(word));
                proof {
                    assert(bits_view(result@) =~= words + seq![ShellBitView::Quoted(last)]);
                }
            } else {
                proof {
                    assert(words + Seq::<ShellBitView>::empty() =~= words);
                }
            }
            Ok(result)
        },
    }
}

/// Words in single quotes, with a space behind each.
pub open spec fn single_quoted(words: Seq<Seq<char>>) -> Seq<char>
    decreases words.len(),
{
    if words.len() == 0 {
        Seq::empty()
    } else {
        seq!['\''] + words[0] + seq!['\'', ' '] + single_quoted(words.skip(1))
    }
}

/// Between single quotes every character stands for itself.
proof fn lemma_inside_single_quotes(text: Seq<char>, rest: Seq<char>, word: Seq<char>)
    requires
        !text.contains('\''),
    ensures
        split_rest(text + seq!['\''] + rest, Quoting::Single, word) == word_first(
            ShellBitView::Literal(word + text),
            split_rest(rest, Quoting::Plain, Seq::empty()),
        ),
    decreases text.len(),
{
    let line = text + seq!['\''] + rest;
    if text.len() == 0 {
        assert(line.skip(1) =~= rest);
        assert(word + text =~= word);
    } else {
        assert(text.contains(text[0]));
        assert(line[0] == text[0]);
        let tail = text.skip(1);
        assert forall|c: char| tail.contains(c) implies text.contains(c) by {
            let i = choose|i: int| 0 <= i < tail.len() && tail[i] == c;
            assert(text[i + 1] == c);
        }
        assert(line.skip(1) =~= tail + seq!['\''] + rest);
        lemma_inside_single_quotes(tail, rest, word.push(text[0]));
        assert(word.push(text[0]) + tail =~= word + text);
    }
}

/// Single quotes preserve the literal value of every character within them:
/// words in single quotes are split into exactly these words.
pub proof fn law_single_quotes_preserve_words(words: Seq<Seq<char>>)
    requires
        forall|i: int| 0 <= i < words.len() ==> !(#[trigger] words[i]).contains('\''),
    ensures
        split_words(single_quoted(words)) == Ok::<Seq<ShellBitView>, ShellParseError>(
            words.map_values(|w: Seq<char>| ShellBitView::Literal(w)),
        ),
    decreases words.len(),
{
    let bits = words.map_values(|w: Seq<char>| ShellBitView::Literal(w));
    if words.len() == 0 {
        assert(bits =~= Seq::empty());
    } else {
        let rest = words.skip(1);
        assert forall|i: int| 0 <= i < rest.len() implies !(#[trigger] rest[i]).contains('\'') by {
            assert(rest[i] == words[i + 1]);
        }
        law_single_quotes_preserve_words(rest);
        let line = single_quoted(words);
        let behind = seq![' '] + single_quoted(rest);
        assert(!words[0].contains('\''));
        assert(line[0] == '\'');
        assert(line.skip(1) =~= words[0] + seq!['\''] + behind);
        lemma_inside_single_quotes(words[0], behind, Seq::empty());
        assert(Seq::<char>::empty() + words[0] =~= words[0]);
        assert(behind.skip(1) =~= single_quoted(rest));
        assert(split_rest(behind, Quoting::Plain, Seq::empty()) == split_words(
            single_quoted(rest),
        ));
        let tail = rest.map_values(|w: Seq<char>| ShellBitView::Literal(w));
        assert(bits =~= seq![ShellBitView::Literal(words[0])] + tail);
    }
}

/// Words in double quotes, with a space behind each.
pub open spec fn double_quoted(words: Seq<Seq<char>>) -> Seq<char>
    decreases words.len(),
{
    if words.len() == 0 {
        Seq::empty()
    } else {
        seq!['"'] + words[0] + seq!['"', ' '] + double_quoted(words.skip(1))
    }
}

/// Between double quotes a character that is neither a quote nor a backslash
/// stands for itself.
proof fn lemma_inside_double_quotes(text: Seq<char>, rest: Seq<char>, word: Seq<char>)
    requires
        !text.contains('"'),
        !text.contains('\\'),
    ensures
        split_rest(text + seq!['"'] + rest, Quoting::Double, word) == word_first(
            ShellBitView::Quoted(word + text),
            split_rest(rest, Quoting::Plain, Seq::empty()),
        ),
    decreases text.len(),
{
    let line = text + seq!['"'] + rest;
    if text.len() == 0 {
        assert(line.skip(1) =~= rest);
        assert(word + text =~= word);
    } else {
        assert(text.contains(text[0]));
        assert(line[0] == text[0]);
        let tail = text.skip(1);
        assert forall|c: char| tail.contains(c) implies text.contains(c) by {
            let i = choose|i: int| 0 <= i < tail.len() && tail[i] == c;
            assert(text[i + 1] == c);
        }
        assert(line.skip(1) =~= tail + seq!['"'] + rest);
        lemma_inside_double_quotes(tail, rest, word.push(text[0]));
        assert(word.push(text[0]) + tail =~= word + text);
    }
}

/// Double quotes preserve the literal value of every character within them but
/// backslashes: words in double quotes are split into exactly these words,
/// which still take part in expansion.
pub proof fn law_double_quotes_preserve_words(words: Seq<Seq<char>>)
    requires
        forall|i: int|
            0 <= i < words.len() ==> !(#[trigger] words[i]).contains('"') && !words[i].contains(
                '\\',
            ),
    ensures
        split_words(double_quoted(words)) == Ok::<Seq<ShellBitView>, ShellParseError>(
            words.map_values(|w: Seq<char>| ShellBitView::Quoted(w)),
        ),
    decreases words.len(),
{
    let bits = words.map_values(|w: Seq<char>| ShellBitView::Quoted(w));
    if words.len() == 0 {
        assert(bits =~= Seq::empty());
    } else {
        let rest = words.skip(1);
        assert forall|i: int| 0 <= i < rest.len() implies !(#[trigger] rest[i]).contains('"')
            && !rest[i].contains('\\') by {
            assert(rest[i] == words[i + 1]);
        }
        law_double_quotes_preserve_words(rest);
        let line = double_quoted(words);
        let behind = seq![' '] + double_quoted(rest);
        assert(!words[0].contains('"'));
        assert(line[0] == '"');
        assert(line.skip(1) =~= words[0] + seq!['"'] + behind);
        lemma_inside_double_quotes(words[0], behind, Seq::empty());
        assert(Seq::<char>::empty() + words[0] =~= words[0]);
        assert(behind.skip(1) =~= double_quoted(rest));
        assert(split_rest(behind, Quoting::Plain, Seq::empty()) == split_words(
            double_quoted(rest),
        ));
        let tail = rest.map_values(|w: Seq<char>| ShellBitView::Quoted(w));
        assert(bits =~= seq![ShellBitView::Quoted(words[0])] + tail);
    }
}

/// Whether a piece of a line adds some text to the word that is being read,
/// whatever stands before and behind it.
#[verifier::opaque]
spec fn reads_as(code: Seq<char>, text: Seq<char>, quoting: Quoting) -> bool {
    forall|rest: Seq<char>, word: Seq<char>| #[trigger]
        split_rest(code + rest, quoting, word) == split_rest(rest, quoting, word + text)
}

proof fn lemma_reads_empty(quoting: Quoting)
    ensures
        reads_as(Seq::empty(), Seq::empty(), quoting),
{
    reveal(reads_as);
    assert forall|rest: Seq<char>, word: Seq<char>| #[trigger]
        split_rest(Seq::<char>::empty() + rest, quoting, word) == split_rest(
            rest,
            quoting,
            word + Seq::<char>::empty(),
        ) by {
        assert(Seq::<char>::empty() + rest =~= rest);
        assert(word + Seq::<char>::empty() =~= word);
    }
}

proof fn lemma_reads_concat(
    a: Seq<char>,
    x: Seq<char>,
    b: Seq<char>,
    y: Seq<char>,
    quoting: Quoting,
)
    requires
        reads_as(a, x, quoting),
        reads_as(b, y, quoting),
    ensures
        reads_as(a + b, x + y, quoting),
{
    reveal(reads_as);
    assert forall|rest: Seq<char>, word: Seq<char>| #[trigger]
        split_rest(a + b + rest, quoting, word) == split_rest(rest, quoting, word + (x + y)) by {
        assert(a + b + rest =~= a + (b + rest));
        assert(split_rest(a + (b + rest), quoting, word) == split_rest(
            b + rest,
            quoting,
            word + x,
        ));
        assert(split_rest(b + rest, quoting, word + x) == split_rest(
            rest,
            quoting,
            word + x + y,
        ));
        assert(word + x + y =~= word + (x + y));
    }
}

/// Whether a character stands for itself: within double quotes any but a quote
/// and a backslash, outside quotes any but these, a single quote and a space.
pub open spec fn stands_for_itself(c: char, quoting: Quoting) -> bool {
    c != '\\' && c != '"' && (quoting == Quoting::Plain ==> c != '\'' && c != ' ')
}

proof fn lemma_reads_plain(c: char, quoting: Quoting)
    requires
        quoting != Quoting::Single,
        stands_for_itself(c, quoting),
    ensures
        reads_as(seq![c], seq![c], quoting),
{
    reveal(reads_as);
    let code = seq![c];
    assert forall|rest: Seq<char>, word: Seq<char>| #[trigger]
        split_rest(code + rest, quoting, word) == split_rest(rest, quoting, word + seq![c]) by {
        let s = code + rest;
        assert(s.skip(1) =~= rest);
        assert(s[0] == c);
        assert(word + seq![c] =~= word.push(c));
    }
}

proof fn lemma_reads_pair(c: char, quoting: Quoting)
    requires
        quoting != Quoting::Single,
        c != 'x',
    ensures
        reads_as(seq!['\\', c], escaped(c), quoting),
{
    reveal(reads_as);
    let code = seq!['\\', c];
    assert forall|rest: Seq<char>, word: Seq<char>| #[trigger]
        split_rest(code + rest, quoting, word) == split_rest(
            rest,
            quoting,
            word + escaped(c),
        ) by {
        let s = code + rest;
        assert(s.skip(2) =~= rest);
        assert(s[0] == '\\' && s[1] == c);
    }
}

proof fn lemma_reads_hex(a: char, b: char, quoting: Quoting)
    requires
        quoting != Quoting::Single,
        hex_digit(a) is Some,
        hex_digit(b) is Some,
    ensures
        reads_as(
            seq!['\\', 'x', a, b],
            seq![(16 * hex_digit(a)->Some_0 + hex_digit(b)->Some_0) as u8 as char],
            quoting,
        ),
{
    reveal(reads_as);
    let code = seq!['\\', 'x', a, b];
    let c = (16 * hex_digit(a)->Some_0 + hex_digit(b)->Some_0) as u8 as char;
    assert forall|rest: Seq<char>, word: Seq<char>| #[trigger]
        split_rest(code + rest, quoting, word) == split_rest(
            rest,
            quoting,
            word + seq![c],
        ) by {
        let s = code + rest;
        assert(s.skip(4) =~= rest);
        assert(s[0] == '\\' && s[1] == 'x' && s[2] == a && s[3] == b);
        assert(word + seq![c] =~= word.push(c));
    }
}

/// A line that is one word in double quotes.
pub open spec fn in_double_quotes(code: Seq<char>) -> Seq<char> {
    seq!['"'] + code + seq!['"']
}

proof fn lemma_word_in_quotes(code: Seq<char>, text: Seq<char>)
    requires
        reads_as(code, text, Quoting::Double),
    ensures
        split_words(in_double_quotes(code)) == Ok::<Seq<ShellBitView>, ShellParseError>(
            seq![ShellBitView::Quoted(text)],
        ),
{
    reveal(reads_as);
    let line = in_double_quotes(code);
    let none = Seq::<char>::empty();
    assert(line[0] == '"');
    assert(line.skip(1) =~= code + seq!['"']);
    assert(split_rest(code + seq!['"'], Quoting::Double, none) == split_rest(
        seq!['"'],
        Quoting::Double,
        none + text,
    ));
    assert(none + text =~= text);
    assert(seq!['"'].skip(1) =~= none);
    assert(split_rest(none, Quoting::Plain, none) == Ok::<Seq<ShellBitView>, ShellParseError>(
        Seq::empty(),
    ));
    assert(seq![ShellBitView::Quoted(text)] + Seq::<ShellBitView>::empty() =~= seq![
        ShellBitView::Quoted(text),
    ]);
}

proof fn lemma_word_without_quotes(code: Seq<char>, text: Seq<char>)
    requires
        reads_as(code, text, Quoting::Plain),
        text.len() > 0,
    ensures
        split_words(code) == Ok::<Seq<ShellBitView>, ShellParseError>(
            seq![ShellBitView::Quoted(text)],
        ),
{
    reveal(reads_as);
    let none = Seq::<char>::empty();
    assert(code + none =~= code);
    assert(none + text =~= text);
    assert(split_rest(code + none, Quoting::Plain, none) == split_rest(
        none,
        Quoting::Plain,
        none + text,
    ));
}

/// Whether every character of a text stands for itself.
pub open spec fn all_stand_for_themselves(text: Seq<char>, quoting: Quoting) -> bool {
    forall|i: int| 0 <= i < text.len() ==> stands_for_itself(#[trigger] text[i], quoting)
}

proof fn lemma_reads_text(text: Seq<char>, quoting: Quoting)
    requires
        quoting != Quoting::Single,
        all_stand_for_themselves(text, quoting),
    ensures
        reads_as(text, text, quoting),
    decreases text.len(),
{
    if text.len() == 0 {
        lemma_reads_empty(quoting);
        assert(text =~= Seq::empty());
    } else {
        let front = text.drop_last();
        assert forall|i: int| 0 <= i < front.len() implies stands_for_itself(
            #[trigger] front[i],
            quoting,
        ) by {
            assert(front[i] == text[i]);
        }
        lemma_reads_text(front, quoting);
        assert(stands_for_itself(text[text.len() - 1], quoting));
        lemma_reads_plain(text.last(), quoting);
        lemma_reads_concat(front, front, seq![text.last()], seq![text.last()], quoting);
        assert(front + seq![text.last()] =~= text);
    }
}

/// What reading a pair between two texts gives, within quotes and outside.
spec fn pair_gives(before: Seq<char>, code: Seq<char>, behind: Seq<char>, text: Seq<char>) -> bool {
    let gives = Ok::<Seq<ShellBitView>, ShellParseError>(
        seq![ShellBitView::Quoted(before + text + behind)],
    );
    &&& split_words(in_double_quotes(before + code + behind)) == gives
    &&& split_words(before + code + behind) == gives
}

proof fn lemma_pair_gives(
    before: Seq<char>,
    code: Seq<char>,
    behind: Seq<char>,
    text: Seq<char>,
)
    requires
        all_stand_for_themselves(before, Quoting::Plain),
        all_stand_for_themselves(behind, Quoting::Plain),
        reads_as(code, text, Quoting::Plain),
        reads_as(code, text, Quoting::Double),
        text.len() > 0,
    ensures
        pair_gives(before, code, behind, text),
{
    lemma_reads_text(before, Quoting::Plain);
    lemma_reads_text(behind, Quoting::Plain);
    lemma_reads_concat(before, before, code, text, Quoting::Plain);
    lemma_reads_concat(before + code, before + text, behind, behind, Quoting::Plain);
    lemma_word_without_quotes(before + code + behind, before + text + behind);
    assert(all_stand_for_themselves(before, Quoting::Double));
    assert(all_stand_for_themselves(behind, Quoting::Double));
    lemma_reads_text(before, Quoting::Double);
    lemma_reads_text(behind, Quoting::Double);
    lemma_reads_concat(before, before, code, text, Quoting::Double);
    lemma_reads_concat(before + code, before + text, behind, behind, Quoting::Double);
    lemma_word_in_quotes(before + code + behind, before + text + behind);
}

/// A backslash and a character that has no meaning behind one are both kept,
/// in double quotes and outside quotes: a dollar sign, for one.
pub proof fn law_other_pairs_are_kept(before: Seq<char>, c: char, behind: Seq<char>)
    requires
        all_stand_for_themselves(before, Quoting::Plain),
        all_stand_for_themselves(behind, Quoting::Plain),
        c != 'a' && c != 'b' && c != 'f' && c != 'n' && c != 'r' && c != 't' && c != 'v' && c
            != 'e' && c != '0' && c != '"' && c != 'x',
    ensures
        ({
            let line = before + seq!['\\', c] + behind;
            let same = Ok::<Seq<ShellBitView>, ShellParseError>(seq![ShellBitView::Quoted(line)]);
            split_words(line) == same && split_words(in_double_quotes(line)) == same
        }),
{
    let code = seq!['\\', c];
    assert(escaped(c) =~= code);
    lemma_reads_pair(c, Quoting::Plain);
    lemma_reads_pair(c, Quoting::Double);
    lemma_pair_gives(before, code, behind, code);
}

/// The characters that have a meaning behind a backslash, and what they stand
/// for there, in double quotes and outside quotes.
pub proof fn law_pairs_stand_for_characters(
    before: Seq<char>,
    c: char,
    meant: char,
    behind: Seq<char>,
)
    requires
        all_stand_for_themselves(before, Quoting::Plain),
        all_stand_for_themselves(behind, Quoting::Plain),
        (c == 'a' && meant == '\x07') || (c == 'b' && meant == '\x08') || (c == 'f' && meant
            == '\x0c') || (c == 'n' && meant == '\n') || (c == 'r' && meant == '\r') || (c == 't'
            && meant == '\t') || (c == 'v' && meant == '\x0b') || (c == 'e' && meant == '\x1b')
            || (c == '0' && meant == '\0') || (c == '"' && meant == '"'),
    ensures
        ({
            let line = before + seq!['\\', c] + behind;
            let gives = Ok::<Seq<ShellBitView>, ShellParseError>(
                seq![ShellBitView::Quoted(before.push(meant) + behind)],
            );
            split_words(line) == gives && split_words(in_double_quotes(line)) == gives
        }),
{
    assert(escaped(c) =~= seq![meant]);
    lemma_reads_pair(c, Quoting::Plain);
    lemma_reads_pair(c, Quoting::Double);
    lemma_pair_gives(before, seq!['\\', c], behind, seq![meant]);
    assert(before + seq![meant] + behind =~= before.push(meant) + behind);
}

/// A hexadecimal digit, in small or in capital letters.
pub open spec fn is_hex_digit(c: char, n: int) -> bool {
    ||| 0 <= n < 10 && c as int == 48 + n
    ||| 10 <= n < 16 && (c as int == 87 + n || c as int == 55 + n)
}

/// `\x` and the two hexadecimal digits of a number stand for the character
/// with that number.
pub proof fn law_hex_escapes(
    before: Seq<char>,
    code: u8,
    high: char,
    low: char,
    behind: Seq<char>,
)
    requires
        all_stand_for_themselves(before, Quoting::Plain),
        all_stand_for_themselves(behind, Quoting::Plain),
        is_hex_digit(high, code as int / 16),
        is_hex_digit(low, code as int % 16),
    ensures
        ({
            let line = before + seq!['\\', 'x', high, low] + behind;
            let gives = Ok::<Seq<ShellBitView>, ShellParseError>(
                seq![ShellBitView::Quoted(before.push(code as char) + behind)],
            );
            split_words(line) == gives && split_words(in_double_quotes(line)) == gives
        }),
{
    lemma_reads_hex(high, low, Quoting::Plain);
    lemma_reads_hex(high, low, Quoting::Double);
    let sum = 16 * hex_digit(high)->Some_0 + hex_digit(low)->Some_0;
    assert(sum == code as int);
    assert(sum as u8 as char == code as char);
    lemma_pair_gives(before, seq!['\\', 'x', high, low], behind, seq![code as char]);
    assert(before + seq![code as char] + behind =~= before.push(code as char) + behind);
}

/// A `\x` with a character behind it that is no hexadecimal digit is refused,
/// and the error names the character.
pub proof fn law_bad_hex_escapes_are_refused(
    before: Seq<char>,
    digits: Seq<char>,
    bad: char,
    behind: Seq<char>,
)
    requires
        all_stand_for_themselves(before, Quoting::Plain),
        digits.len() <= 1,
        forall|i: int|
            0 <= i < digits.len() ==> exists|n: int| is_hex_digit(#[trigger] digits[i], n),
        forall|n: int| !is_hex_digit(bad, n),
    ensures
        split_words(before + seq!['\\', 'x'] + digits + seq![bad] + behind) == Err::<
            Seq<ShellBitView>,
            ShellParseError,
        >(ShellParseError::InvalidHexEscape(bad)),
{
    let none = Seq::<char>::empty();
    let rest = seq!['\\', 'x'] + digits + seq![bad] + behind;
    assert(before + seq!['\\', 'x'] + digits + seq![bad] + behind =~= before + rest);
    lemma_reads_text(before, Quoting::Plain);
    assert(split_rest(before + rest, Quoting::Plain, none) == split_rest(
        rest,
        Quoting::Plain,
        none + before,
    )) by {
        reveal(reads_as);
    }
    assert(rest[0] == '\\' && rest[1] == 'x');
    assert(!is_hex_digit(bad, bad as int - 48));
    assert(!is_hex_digit(bad, bad as int - 87));
    assert(!is_hex_digit(bad, bad as int - 55));
    assert(hex_digit(bad) is None);
    if digits.len() == 0 {
        assert(rest[2] == bad);
    } else {
        assert(rest[2] == digits[0]);
        assert(rest[3] == bad);
        let n = choose|n: int| is_hex_digit(digits[0], n);
        assert(hex_digit(digits[0]) is Some);
    }
}

/// A quote that is not closed is refused, and the error names the quote.
pub proof fn law_open_quotes_are_refused(before: Seq<char>, text: Seq<char>)
    requires
        all_stand_for_themselves(before, Quoting::Plain),
    ensures
        !text.contains('\'') ==> split_words(before + seq!['\''] + text) == Err::<
            Seq<ShellBitView>,
            ShellParseError,
        >(ShellParseError::UnmatchedQuote('\'')),
        all_stand_for_themselves(text, Quoting::Double) ==> split_words(
            before + seq!['"'] + text,
        ) == Err::<Seq<ShellBitView>, ShellParseError>(ShellParseError::UnmatchedQuote('"')),
{
    let none = Seq::<char>::empty();
    lemma_reads_text(before, Quoting::Plain);
    if !text.contains('\'') {
        let rest = seq!['\''] + text;
        assert(before + seq!['\''] + text =~= before + rest);
        assert(split_words(before + rest) == split_rest(rest, Quoting::Plain, none + before)) by {
            reveal(reads_as);
        }
        assert(rest.skip(1) =~= text);
        lemma_unclosed_single(text, none + before);
    }
    if all_stand_for_themselves(text, Quoting::Double) {
        let rest = seq!['"'] + text;
        assert(before + seq!['"'] + text =~= before + rest);
        assert(split_words(before + rest) == split_rest(rest, Quoting::Plain, none + before)) by {
            reveal(reads_as);
        }
        assert(rest.skip(1) =~= text);
        lemma_reads_text(text, Quoting::Double);
        assert(split_rest(text + none, Quoting::Double, none + before) == split_rest(
            none,
            Quoting::Double,
            none + before + text,
        )) by {
            reveal(reads_as);
        }
        assert(text + none =~= text);
    }
}

proof fn lemma_unclosed_single(text: Seq<char>, word: Seq<char>)
    requires
        !text.contains('\''),
    ensures
        split_rest(text, Quoting::Single, word) == Err::<Seq<ShellBitView>, ShellParseError>(
            ShellParseError::UnmatchedQuote('\''),
        ),
    decreases text.len(),
{
    if text.len() > 0 {
        assert(text.contains(text[0]));
        let tail = text.skip(1);
        assert forall|c: char| tail.contains(c) implies text.contains(c) by {
            let i = choose|i: int| 0 <= i < tail.len() && tail[i] == c;
            assert(text[i + 1] == c);
        }
        lemma_unclosed_single(tail, word.push(text[0]));
    }
}

/// Words with spaces before each, as many as `gaps` says.
pub open spec fn spaced_words(words: Seq<Seq<char>>, gaps: Seq<nat>) -> Seq<char>
    decreases words.len(),
{
    if words.len() == 0 {
        Seq::empty()
    } else {
        spaces(gaps[0]) + words[0] + spaced_words(words.skip(1), gaps.skip(1))
    }
}

/// A number of spaces.
pub open spec fn spaces(n: nat) -> Seq<char> {
    Seq::new(n, |i: int| ' ')
}

proof fn lemma_leading_spaces(n: nat, rest: Seq<char>)
    ensures
        split_rest(spaces(n) + rest, Quoting::Plain, Seq::empty()) == split_rest(
            rest,
            Quoting::Plain,
            Seq::empty(),
        ),
    decreases n,
{
    if n == 0 {
        assert(spaces(n) + rest =~= rest);
    } else {
        let s = spaces(n) + rest;
        assert(s[0] == ' ');
        assert(s.skip(1) =~= spaces((n - 1) as nat) + rest);
        lemma_leading_spaces((n - 1) as nat, rest);
    }
}

/// Spaces part words, however many there are; and nothing else does, outside
/// quotes and escapes.
pub proof fn law_spaces_part_words(words: Seq<Seq<char>>, gaps: Seq<nat>, trailing: nat)
    requires
        gaps.len() == words.len(),
        forall|i: int|
            0 <= i < words.len() ==> (#[trigger] words[i]).len() > 0 && all_stand_for_themselves(
                words[i],
                Quoting::Plain,
            ),
        forall|i: int| 0 < i < gaps.len() ==> #[trigger] gaps[i] > 0,
    ensures
        split_words(spaced_words(words, gaps) + spaces(trailing)) == Ok::<
            Seq<ShellBitView>,
            ShellParseError,
        >(words.map_values(|w: Seq<char>| ShellBitView::Quoted(w))),
    decreases words.len(),
{
    let none = Seq::<char>::empty();
    let bits = words.map_values(|w: Seq<char>| ShellBitView::Quoted(w));
    if words.len() == 0 {
        assert(spaced_words(words, gaps) + spaces(trailing) =~= spaces(trailing) + none);
        lemma_leading_spaces(trailing, none);
        assert(bits =~= Seq::empty());
    } else {
        let rest_words = words.skip(1);
        let rest_gaps = gaps.skip(1);
        let rest = spaced_words(rest_words, rest_gaps) + spaces(trailing);
        let line = spaced_words(words, gaps) + spaces(trailing);
        assert forall|i: int| 0 <= i < rest_words.len() implies (#[trigger] rest_words[i]).len() > 0
            && all_stand_for_themselves(rest_words[i], Quoting::Plain) by {
            assert(rest_words[i] == words[i + 1]);
        }
        assert forall|i: int| 0 < i < rest_gaps.len() implies #[trigger] rest_gaps[i] > 0 by {
            assert(rest_gaps[i] == gaps[i + 1]);
        }
        law_spaces_part_words(rest_words, rest_gaps, trailing);
        assert(line =~= spaces(gaps[0]) + (words[0] + rest));
        lemma_leading_spaces(gaps[0], words[0] + rest);
        assert(words[0].len() > 0);
        lemma_reads_text(words[0], Quoting::Plain);
        assert(split_rest(words[0] + rest, Quoting::Plain, none) == split_rest(
            rest,
            Quoting::Plain,
            none + words[0],
        )) by {
            reveal(reads_as);
        }
        assert(none + words[0] =~= words[0]);
        let word = ShellBitView::Quoted(words[0]);
        let more = rest_words.map_values(|w: Seq<char>| ShellBitView::Quoted(w));
        assert(bits =~= seq![word] + more);
        if rest.len() == 0 {
            if rest_words.len() > 0 {
                assert(rest_words[0].len() > 0);
                assert(rest.len() >= rest_words[0].len());
            }
            assert(rest =~= none);
            assert(more =~= Seq::empty());
            assert(bits =~= seq![word]);
        } else {
            if rest_words.len() > 0 {
                assert(gaps[1] > 0);
                assert(rest_gaps[0] == gaps[1]);
                assert(spaced_words(rest_words, rest_gaps)[0] == ' ');
            }
            assert(rest[0] == ' ');
            assert(split_rest(rest, Quoting::Plain, words[0]) == word_first(
                word,
                split_rest(rest.skip(1), Quoting::Plain, none),
            ));
            let tail = rest.skip(1);
            assert(rest =~= spaces(1) + tail);
            lemma_leading_spaces(1, tail);
        }
    }
}

/// A text with each dollar sign behind a backslash.
pub open spec fn with_dollars_escaped(text: Seq<char>) -> Seq<char>
    decreases text.len(),
{
    if text.len() == 0 {
        Seq::empty()
    } else {
        (if text[0] == '$' {
            seq!['\\', '$']
        } else {
            seq![text[0]]
        }) + with_dollars_escaped(text.skip(1))
    }
}

proof fn lemma_reads_dollars(text: Seq<char>, quoting: Quoting)
    requires
        quoting != Quoting::Single,
        all_stand_for_themselves(text, quoting),
    ensures
        reads_as(with_dollars_escaped(text), with_dollars_escaped(text), quoting),
    decreases text.len(),
{
    if text.len() == 0 {
        lemma_reads_empty(quoting);
    } else {
        let tail = text.skip(1);
        assert forall|i: int| 0 <= i < tail.len() implies stands_for_itself(
            #[trigger] tail[i],
            quoting,
        ) by {
            assert(tail[i] == text[i + 1]);
        }
        lemma_reads_dollars(tail, quoting);
        let rest = with_dollars_escaped(tail);
        if text[0] == '$' {
            let pair = seq!['\\', '$'];
            lemma_reads_pair('$', quoting);
            assert(escaped('$') =~= pair);
            lemma_reads_concat(pair, pair, rest, rest, quoting);
        } else {
            assert(stands_for_itself(text[0], quoting));
            lemma_reads_plain(text[0], quoting);
            lemma_reads_concat(seq![text[0]], seq![text[0]], rest, rest, quoting);
        }
    }
}

/// A backslash in front of a dollar sign is kept, in double quotes and outside
/// quotes, so that the dollar sign stays escaped.
pub proof fn law_dollars_stay_escaped(text: Seq<char>)
    ensures
        all_stand_for_themselves(text, Quoting::Double) ==> split_words(
            in_double_quotes(with_dollars_escaped(text)),
        ) == Ok::<Seq<ShellBitView>, ShellParseError>(
            seq![ShellBitView::Quoted(with_dollars_escaped(text))],
        ),
        all_stand_for_themselves(text, Quoting::Plain) && text.len() > 0 ==> split_words(
            with_dollars_escaped(text),
        ) == Ok::<Seq<ShellBitView>, ShellParseError>(
            seq![ShellBitView::Quoted(with_dollars_escaped(text))],
        ),
{
    let code = with_dollars_escaped(text);
    if all_stand_for_themselves(text, Quoting::Double) {
        lemma_reads_dollars(text, Quoting::Double);
        lemma_word_in_quotes(code, code);
    }
    if all_stand_for_themselves(text, Quoting::Plain) && text.len() > 0 {
        lemma_reads_dollars(text, Quoting::Plain);
        assert(code.len() > 0);
        lemma_word_without_quotes(code, code);
    }
}

} // verus!
