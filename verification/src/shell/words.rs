//! The words of a command line.

use crate::text::{chars_of, is_white, is_whitespace, texts};
use vstd::prelude::*;

verus! {

/// A line read so far: the words, the beginning of the next word, the quote
/// that is open, and whether a word has begun.
#[verifier::ext_equal]
pub struct ScanModel {
    pub words: Seq<Seq<char>>,
    pub current: Seq<char>,
    pub quote: Option<char>,
    pub in_word: bool,
}

impl ScanModel {
    pub open spec fn empty() -> Self {
        ScanModel { words: Seq::empty(), current: Seq::empty(), quote: None, in_word: false }
    }

    /// The line with one character more. White space outside quotes ends a
    /// word; a quote holds up to the next of its kind and is no part of the
    /// word.
    pub open spec fn with(self, c: char) -> Self {
        match self.quote {
            Some(q) => if c == q {
                ScanModel { quote: None, ..self }
            } else {
                ScanModel { current: self.current.push(c), ..self }
            },
            None => if c == '\'' || c == '"' {
                ScanModel { quote: Some(c), in_word: true, ..self }
            } else if !is_white(c) {
                ScanModel { current: self.current.push(c), in_word: true, ..self }
            } else if self.in_word {
                ScanModel {
                    words: self.words.push(self.current),
                    current: Seq::empty(),
                    in_word: false,
                    ..self
                }
            } else {
                self
            },
        }
    }

    /// The line with more characters.
    pub open spec fn with_all(self, line: Seq<char>) -> Self
        decreases line.len(),
    {
        if line.len() == 0 {
            self
        } else {
            self.with_all(line.drop_last()).with(line.last())
        }
    }

    /// The words of the line.
    pub open spec fn all_words(self) -> Seq<Seq<char>> {
        if self.in_word {
            self.words.push(self.current)
        } else {
            self.words
        }
    }
}

/// The words of a line.
pub open spec fn words_of(line: Seq<char>) -> Seq<Seq<char>> {
    ScanModel::empty().with_all(line).all_words()
}

proof fn with_all_in_turn(scan: ScanModel, first: Seq<char>, second: Seq<char>)
    ensures
        scan.with_all(first + second) == scan.with_all(first).with_all(second),
    decreases second.len(),
{
    if second.len() == 0 {
        assert(first + second =~= first);
    } else {
        assert((first + second).drop_last() =~= first + second.drop_last());
        with_all_in_turn(scan, first, second.drop_last());
    }
}

/// What comes before a word does not change how it is read.
proof fn with_all_after(words: Seq<Seq<char>>, line: Seq<char>)
    ensures
        ({
            let after = (ScanModel { words, ..ScanModel::empty() }).with_all(line);
            let alone = ScanModel::empty().with_all(line);
            after == ScanModel { words: words + alone.words, ..alone }
        }),
    decreases line.len(),
{
    if line.len() == 0 {
        assert(words + Seq::<Seq<char>>::empty() =~= words);
    } else {
        with_all_after(words, line.drop_last());
        let alone = ScanModel::empty().with_all(line.drop_last());
        assert((words + alone.words).push(alone.current) =~= words + alone.words.push(
            alone.current,
        ));
    }
}

/// White space outside quotes parts words: those before it and those behind it
/// are the words of the whole line.
pub proof fn white_space_parts_words(first: Seq<char>, c: char, second: Seq<char>)
    requires
        is_white(c),
        c != '\'',
        c != '"',
        ScanModel::empty().with_all(first).quote is None,
    ensures
        words_of(first.push(c) + second) == words_of(first) + words_of(second),
{
    let empty = ScanModel::empty();
    let before = empty.with_all(first);
    scan_is_clean(first);
    with_all_in_turn(empty, first.push(c), second);
    assert(first.push(c).drop_last() =~= first);
    let cut = empty.with_all(first.push(c));
    assert(cut =~= (ScanModel { words: words_of(first), ..ScanModel::empty() }));
    with_all_after(words_of(first), second);
    let alone = empty.with_all(second);
    if alone.in_word {
        assert((words_of(first) + alone.words).push(alone.current) =~= words_of(first)
            + alone.words.push(alone.current));
    }
}

/// Between words nothing has begun.
proof fn scan_is_clean(line: Seq<char>)
    ensures
        !ScanModel::empty().with_all(line).in_word ==> ScanModel::empty().with_all(
            line,
        ).current.len() == 0 && ScanModel::empty().with_all(line).quote is None,
    decreases line.len(),
{
    if line.len() > 0 {
        scan_is_clean(line.drop_last());
    }
}

/// A text in quotes is one word, whatever stands in it but for the quote.
pub proof fn quoted_text_is_one_word(text: Seq<char>, quote: char)
    requires
        quote == '\'' || quote == '"',
        !text.contains(quote),
    ensures
        words_of(seq![quote] + text + seq![quote]) == seq![text],
{
    let empty = ScanModel::empty();
    let open = empty.with(quote);
    let line = seq![quote] + text;
    assert(seq![quote].drop_last() =~= Seq::<char>::empty());
    assert(empty.with_all(Seq::<char>::empty()) == empty);
    assert(seq![quote].last() == quote);
    assert(empty.with_all(seq![quote]) == open);
    with_all_in_turn(empty, seq![quote], text);
    inside_quotes(open, text);
    assert((line + seq![quote]).drop_last() =~= line);
    assert(open.current + text =~= text);
    assert(words_of(line + seq![quote]) =~= seq![text]);
}

proof fn inside_quotes(open: ScanModel, text: Seq<char>)
    requires
        open.quote is Some,
        !text.contains(open.quote->0),
    ensures
        open.with_all(text) == (ScanModel { current: open.current + text, ..open }),
    decreases text.len(),
{
    if text.len() == 0 {
        assert(open.current + text =~= open.current);
    } else {
        let rest = text.drop_last();
        assert forall|i: int| 0 <= i < rest.len() implies rest[i] != open.quote->0 by {
            assert(text[i] == rest[i]);
        }
        inside_quotes(open, rest);
        assert(text[text.len() - 1] == text.last());
        assert((open.current + rest).push(text.last()) =~= open.current + text);
    }
}

/// A line that starts with neither white space nor a quote starts with a word.
pub proof fn line_starts_with_a_word(line: Seq<char>)
    requires
        line.len() > 0,
        !is_white(line[0]),
        line[0] != '\'',
        line[0] != '"',
    ensures
        words_of(line).len() > 0,
    decreases line.len(),
{
    scan_has_begun(line);
}

proof fn scan_has_begun(line: Seq<char>)
    requires
        line.len() > 0,
        !is_white(line[0]),
        line[0] != '\'',
        line[0] != '"',
    ensures
        ScanModel::empty().with_all(line).in_word || ScanModel::empty().with_all(line).words.len()
            > 0,
    decreases line.len(),
{
    if line.len() == 1 {
        assert(line.drop_last() =~= Seq::<char>::empty());
    } else {
        scan_has_begun(line.drop_last());
    }
}

/// Splits a line into words. Quotes, single or double, hold a word together
/// that has white space in it, and are taken off.
pub fn tokenize(line: &str) -> (r: Vec<String>)
    ensures
        texts(r@) == words_of(line@),
{
    let chars = chars_of(line);
    let mut words: Vec<String> = Vec::new();
    let mut current = String::new();
    let mut quote: Option<char> = None;
    let mut in_word = false;
    let mut i: usize = 0;
    assert(chars@.take(0) =~= Seq::<char>::empty());
    assert(texts(words@) =~= Seq::<Seq<char>>::empty());
    while i < chars.len()
        invariant
            i <= chars@.len(),
            ScanModel::empty().with_all(chars@.take(i as int)) == (ScanModel {
                words: texts(words@),
                current: current@,
                quote,
                in_word,
            }),
        decreases chars@.len() - i,
    {
        assert(chars@.take(i as int + 1).drop_last() =~= chars@.take(i as int));
        let c = chars[i];
        match quote {
            Some(q) => {
                if c == q {
                    quote = None;
                } else {
                    current.push(c);
                }
            },
            None => {
                if c == '\'' || c == '"' {
                    quote = Some(c);
                    in_word = true;
                } else if !is_whitespace(c) {
                    current.push(c);
                    in_word = true;
                } else if in_word {
                    let ghost done = texts(words@);
                    let ghost word = current@;
                    words.push(current);
                    assert(texts(words@) =~= done.push(word));
                    current = String::new();
                    in_word = false;
                }
            },
        }
        i += 1;
    }
    assert(chars@.take(i as int) =~= chars@);
    if in_word {
        let ghost done = texts(words@);
        let ghost word = current@;
        words.push(current);
        assert(texts(words@) =~= done.push(word));
    }
    words
}

} // verus!
