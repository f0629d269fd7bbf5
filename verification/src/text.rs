//! Text as sequences of characters: the string operations that names, SQL and
//! messages are made of.

use vstd::prelude::*;

verus! {

// ---------------------------------------------------------------------------
// Views
// ---------------------------------------------------------------------------

/// The characters of each string.
pub open spec fn texts(v: Seq<String>) -> Seq<Seq<char>> {
    Seq::new(v.len(), |i: int| v[i]@)
}

/// The characters of each string slice.
pub open spec fn words(v: Seq<&str>) -> Seq<Seq<char>> {
    Seq::new(v.len(), |i: int| v[i]@)
}

/// The characters of each row of strings.
pub open spec fn rows_of(v: Seq<Vec<String>>) -> Seq<Seq<Seq<char>>> {
    Seq::new(v.len(), |i: int| texts(v[i]@))
}

/// The characters of an optional string.
pub open spec fn optional(v: Option<String>) -> Option<Seq<char>> {
    match v {
        Some(s) => Some(s@),
        None => None,
    }
}

/// The characters of an optional string slice.
pub open spec fn optional_word(v: Option<&str>) -> Option<Seq<char>> {
    match v {
        Some(s) => Some(s@),
        None => None,
    }
}

/// The characters of an answer or of an error message.
pub open spec fn answer(r: Result<String, String>) -> Result<Seq<char>, Seq<char>> {
    match r {
        Ok(s) => Ok(s@),
        Err(e) => Err(e@),
    }
}

/// An outcome with the message of an error as characters.
pub open spec fn told<T>(r: Result<T, String>) -> Result<T, Seq<char>> {
    match r {
        Ok(v) => Ok(v),
        Err(e) => Err(e@),
    }
}

/// An outcome with an optional name in it.
pub open spec fn told_name(r: Result<Option<String>, String>) -> Result<Option<Seq<char>>, Seq<char>> {
    match r {
        Ok(name) => Ok(optional(name)),
        Err(e) => Err(e@),
    }
}

/// The strings as slices.
pub fn slices(v: &Vec<String>) -> (r: Vec<&str>)
    ensures
        words(r@) == texts(v@),
{
    let ghost all = texts(v@);
    let mut out: Vec<&str> = Vec::new();
    let mut i: usize = 0;
    assert(words(out@) =~= all.take(0));
    while i < v.len()
        invariant
            i <= v@.len(),
            all == texts(v@),
            words(out@) == all.take(i as int),
        decreases v@.len() - i,
    {
        let ghost done = words(out@);
        out.push(v[i].as_str());
        assert(words(out@) =~= done.push(all[i as int]));
        assert(words(out@) =~= all.take(i as int + 1));
        i += 1;
    }
    assert(all.take(i as int) =~= all);
    out
}

/// An optional string as an optional slice.
pub fn word(v: &Option<String>) -> (r: Option<&str>)
    ensures
        optional_word(r) == optional(*v),
{
    match v {
        Some(s) => Some(s.as_str()),
        None => None,
    }
}

// ---------------------------------------------------------------------------
// What the standard library provides
// ---------------------------------------------------------------------------

/// The text is all ASCII.
pub open spec fn is_ascii_text(text: Seq<char>) -> bool {
    forall|i: int| 0 <= i < text.len() ==> (#[trigger] text[i]) <= '\u{7f}'
}

/// An ASCII letter in upper case; any other character as it is.
pub open spec fn large(c: char) -> char {
    if 'a' <= c && c <= 'z' {
        (c as u32 - 32) as char
    } else {
        c
    }
}

/// The result of `str::to_lowercase` on a text that is not all ASCII.
pub uninterp spec fn lowercase_beyond(text: Seq<char>) -> Seq<char>;

/// The result of `str::to_uppercase` on a text that is not all ASCII.
pub uninterp spec fn uppercase_beyond(text: Seq<char>) -> Seq<char>;

/// How `Debug` of `str` writes a text that holds more than what it leaves as it
/// is.
pub uninterp spec fn debug_beyond(text: Seq<char>) -> Seq<char>;

/// The result of `char::is_alphabetic` on a character beyond ASCII.
pub uninterp spec fn is_letter_beyond(c: char) -> bool;

/// The text in lower case.
pub open spec fn lowercase(text: Seq<char>) -> Seq<char> {
    if is_ascii_text(text) {
        Seq::new(text.len(), |i: int| small(text[i]))
    } else {
        lowercase_beyond(text)
    }
}

/// The text in upper case.
pub open spec fn uppercase(text: Seq<char>) -> Seq<char> {
    if is_ascii_text(text) {
        Seq::new(text.len(), |i: int| large(text[i]))
    } else {
        uppercase_beyond(text)
    }
}

/// `Debug` of `str` writes the character as it is: one of ASCII that can be
/// seen, or a blank, but no double quote or backslash.
pub open spec fn is_plain(c: char) -> bool {
    ' ' <= c && c <= '~' && c != '"' && c != '\\'
}

/// The text as `Debug` of `str` writes it: in double quotes, with escapes.
pub open spec fn debug_form(text: Seq<char>) -> Seq<char> {
    if forall|i: int| 0 <= i < text.len() ==> is_plain(#[trigger] text[i]) {
        seq!['"'] + text + seq!['"']
    } else {
        debug_beyond(text)
    }
}

/// The character is white space: it has the `White_Space` property of Unicode.
pub open spec fn is_white(c: char) -> bool {
    ||| '\t' <= c && c <= '\r'
    ||| c == ' '
    ||| c == '\u{85}'
    ||| c == '\u{a0}'
    ||| c == '\u{1680}'
    ||| '\u{2000}' <= c && c <= '\u{200a}'
    ||| c == '\u{2028}'
    ||| c == '\u{2029}'
    ||| c == '\u{202f}'
    ||| c == '\u{205f}'
    ||| c == '\u{3000}'
}

/// The character is a letter.
pub open spec fn is_letter(c: char) -> bool {
    if c <= '\u{7f}' {
        ('a' <= c && c <= 'z') || ('A' <= c && c <= 'Z')
    } else {
        is_letter_beyond(c)
    }
}

/// `String::push` appends the one character.
pub assume_specification[ std::string::String::push ](s: &mut std::string::String, c: char)
    ensures
        final(s)@ == old(s)@.push(c),
;

/// `==` on `str` compares the characters.
pub assume_specification[ <str as PartialEq>::eq ](s: &str, other: &str) -> (r: bool)
    ensures
        r == (s@ == other@),
;

/// `str::to_lowercase`: an ASCII text has its letters in lower case; what comes
/// of another text depends on the text alone.
#[verifier::external_body]
pub(crate) fn to_lowercase(text: &str) -> (r: String)
    ensures
        r@ == lowercase(text@),
        !is_ascii_text(text@) ==> r@ == lowercase_beyond(text@),
{
    text.to_lowercase()
}

/// `str::to_uppercase`: an ASCII text has its letters in upper case; what comes
/// of another text depends on the text alone.
#[verifier::external_body]
pub(crate) fn to_uppercase(text: &str) -> (r: String)
    ensures
        r@ == uppercase(text@),
        !is_ascii_text(text@) ==> r@ == uppercase_beyond(text@),
{
    text.to_uppercase()
}

/// `Debug` of `str`: a text of plain characters comes in double quotes; what
/// comes of another text depends on the text alone.
#[verifier::external_body]
pub(crate) fn to_debug(text: &str) -> (r: String)
    ensures
        r@ == debug_form(text@),
        (exists|i: int| 0 <= i < text@.len() && !is_plain(#[trigger] text@[i])) ==> r@
            == debug_beyond(text@),
{
    format!("{:?}", text)
}

/// `char::is_whitespace` tells the characters with the `White_Space` property of
/// Unicode, which are these few.
#[verifier::external_body]
pub(crate) fn is_whitespace(c: char) -> (r: bool)
    ensures
        r == is_white(c),
{
    c.is_whitespace()
}

/// `char::is_alphabetic`: of ASCII, the small and the large letters are
/// alphabetic; beyond it depends on the character alone.
#[verifier::external_body]
pub(crate) fn is_alphabetic(c: char) -> (r: bool)
    ensures
        r == is_letter(c),
        c > '\u{7f}' ==> r == is_letter_beyond(c),
{
    c.is_alphabetic()
}

// ---------------------------------------------------------------------------
// Characters and strings
// ---------------------------------------------------------------------------

/// The characters of `text`, in order.
pub fn chars_of(text: &str) -> (r: Vec<char>)
    ensures
        r@ == text@,
{
    let mut out: Vec<char> = Vec::new();
    for c in it: text.chars()
        invariant
            out@ == it.seq().take(it.index()),
            it.seq() == text@,
    {
        out.push(c);
    }
    out
}

/// The string made of the characters from `from` up to `to`.
pub fn text_between(chars: &Vec<char>, from: usize, to: usize) -> (r: String)
    requires
        from <= to <= chars@.len(),
    ensures
        r@ == chars@.subrange(from as int, to as int),
{
    let mut out = String::new();
    let mut i: usize = from;
    while i < to
        invariant
            from <= i <= to <= chars@.len(),
            out@ == chars@.subrange(from as int, i as int),
        decreases to - i,
    {
        out.push(chars[i]);
        i += 1;
        assert(out@ =~= chars@.subrange(from as int, i as int));
    }
    out
}

/// True when both hold the same characters.
pub fn same(a: &str, b: &str) -> (r: bool)
    ensures
        r == (a@ == b@),
{
    *a == *b
}

/// A copy of every string.
pub fn copy_texts(v: &Vec<String>) -> (r: Vec<String>)
    ensures
        texts(r@) == texts(v@),
{
    let mut out: Vec<String> = Vec::new();
    for i in 0..v.len()
        invariant
            out@.len() == i,
            forall|j: int| 0 <= j < i ==> out@[j]@ == v@[j]@,
    {
        out.push(v[i].clone());
    }
    assert(texts(out@) =~= texts(v@));
    out
}

/// True when `item` is among `v`.
pub fn has_text(v: &Vec<String>, item: &str) -> (r: bool)
    ensures
        r == texts(v@).contains(item@),
{
    for i in 0..v.len()
        invariant
            forall|j: int| 0 <= j < i ==> v@[j]@ != item@,
    {
        if same(v[i].as_str(), item) {
            assert(texts(v@)[i as int] == item@);
            return true;
        }
    }
    assert forall|j: int| 0 <= j < texts(v@).len() implies texts(v@)[j] != item@ by {}
    false
}

/// The place of the first text equal to `item`.
pub open spec fn place_of(v: Seq<Seq<char>>, item: Seq<char>) -> Option<int>
    decreases v.len(),
{
    if v.len() == 0 {
        None
    } else {
        match place_of(v.drop_last(), item) {
            Some(i) => Some(i),
            None => if v.last() == item {
                Some(v.len() - 1)
            } else {
                None
            },
        }
    }
}

pub proof fn place_of_is_first(v: Seq<Seq<char>>, item: Seq<char>)
    ensures
        match place_of(v, item) {
            Some(i) => 0 <= i < v.len() && v[i] == item && forall|j: int|
                0 <= j < i ==> v[j] != item,
            None => !v.contains(item),
        },
    decreases v.len(),
{
    if v.len() > 0 {
        place_of_is_first(v.drop_last(), item);
        assert forall|j: int| 0 <= j < v.len() - 1 implies v.drop_last()[j] == v[j] by {}
        if place_of(v, item) is None {
            assert forall|j: int| 0 <= j < v.len() implies v[j] != item by {
                if j < v.len() - 1 {
                    assert(v.drop_last()[j] == v[j]);
                    assert(!v.drop_last().contains(item));
                }
            }
        } else if place_of(v.drop_last(), item) is None {
            assert forall|j: int| 0 <= j < v.len() - 1 implies v[j] != item by {
                assert(v.drop_last()[j] == v[j]);
            }
        }
    }
}

/// The place of the first string equal to `item`.
pub fn find_text(v: &Vec<String>, item: &str) -> (r: Option<usize>)
    ensures
        match r {
            Some(i) => place_of(texts(v@), item@) == Some(i as int) && i < v@.len(),
            None => place_of(texts(v@), item@) is None,
        },
{
    for i in 0..v.len()
        invariant
            place_of(texts(v@).take(i as int), item@) is None,
    {
        let ghost upto = texts(v@).take(i as int + 1);
        assert(upto.drop_last() =~= texts(v@).take(i as int));
        if same(v[i].as_str(), item) {
            proof {
                assert(place_of(upto, item@) == Some(i as int));
                place_of_extends(texts(v@), i as int + 1, item@);
            }
            return Some(i);
        }
    }
    assert(texts(v@).take(v@.len() as int) =~= texts(v@));
    None
}

/// A place found in a prefix is the place in the whole.
pub proof fn place_of_extends(v: Seq<Seq<char>>, n: int, item: Seq<char>)
    requires
        0 <= n <= v.len(),
        place_of(v.take(n), item) is Some,
    ensures
        place_of(v, item) == place_of(v.take(n), item),
    decreases v.len() - n,
{
    if n < v.len() {
        assert(v.take(n + 1).drop_last() =~= v.take(n));
        place_of_extends(v, n + 1, item);
    } else {
        assert(v.take(n) =~= v);
    }
}

// ---------------------------------------------------------------------------
// Concatenation
// ---------------------------------------------------------------------------

pub fn cat2(a: &str, b: &str) -> (r: String)
    ensures
        r@ == a@ + b@,
{
    let mut s = a.to_owned();
    s.append(b);
    s
}

pub fn cat3(a: &str, b: &str, c: &str) -> (r: String)
    ensures
        r@ == a@ + b@ + c@,
{
    let mut s = cat2(a, b);
    s.append(c);
    s
}

pub fn cat4(a: &str, b: &str, c: &str, d: &str) -> (r: String)
    ensures
        r@ == a@ + b@ + c@ + d@,
{
    let mut s = cat3(a, b, c);
    s.append(d);
    s
}

pub fn cat5(a: &str, b: &str, c: &str, d: &str, e: &str) -> (r: String)
    ensures
        r@ == a@ + b@ + c@ + d@ + e@,
{
    let mut s = cat4(a, b, c, d);
    s.append(e);
    s
}

pub fn cat7(a: &str, b: &str, c: &str, d: &str, e: &str, f: &str, g: &str) -> (r: String)
    ensures
        r@ == a@ + b@ + c@ + d@ + e@ + f@ + g@,
{
    let mut s = cat5(a, b, c, d, e);
    s.append(f);
    s.append(g);
    s
}

/// The texts one after another, with `separator` between neighbours.
pub open spec fn joined(parts: Seq<Seq<char>>, separator: Seq<char>) -> Seq<char>
    decreases parts.len(),
{
    if parts.len() == 0 {
        Seq::empty()
    } else if parts.len() == 1 {
        parts[0]
    } else {
        joined(parts.drop_last(), separator) + separator + parts.last()
    }
}

pub fn join(parts: &Vec<String>, separator: &str) -> (r: String)
    ensures
        r@ == joined(texts(parts@), separator@),
{
    let mut out = String::new();
    for i in 0..parts.len()
        invariant
            out@ == joined(texts(parts@).take(i as int), separator@),
    {
        let ghost upto = texts(parts@).take(i as int + 1);
        assert(upto.drop_last() =~= texts(parts@).take(i as int));
        if i > 0 {
            out.append(separator);
        }
        out.append(parts[i].as_str());
        assert(out@ =~= joined(upto, separator@));
    }
    assert(texts(parts@).take(parts@.len() as int) =~= texts(parts@));
    out
}

/// Each part on a line of its own.
pub open spec fn lines(parts: Seq<Seq<char>>) -> Seq<char>
    decreases parts.len(),
{
    if parts.len() == 0 {
        Seq::empty()
    } else {
        lines(parts.drop_last()) + parts.last() + seq!['\n']
    }
}

/// The lines of one part after those of another.
pub proof fn lines_in_turn(first: Seq<Seq<char>>, second: Seq<Seq<char>>)
    ensures
        lines(first + second) == lines(first) + lines(second),
    decreases second.len(),
{
    if second.len() == 0 {
        assert(first + second =~= first);
        assert(lines(first) + lines(second) =~= lines(first));
    } else {
        assert((first + second).drop_last() =~= first + second.drop_last());
        lines_in_turn(first, second.drop_last());
        assert(lines(first + second) =~= lines(first) + lines(second));
    }
}

pub proof fn lines_of_one(line: Seq<char>)
    ensures
        lines(seq![line]) == line + seq!['\n'],
{
    assert(seq![line].drop_last() =~= Seq::<Seq<char>>::empty());
    assert(lines(seq![line].drop_last()) =~= Seq::<char>::empty());
    assert(lines(seq![line]) =~= line + seq!['\n']);
}

/// Adds `line` and a line end to `out`.
pub fn push_line(out: &mut String, line: &str)
    ensures
        final(out)@ == old(out)@ + line@ + seq!['\n'],
{
    out.append(line);
    out.push('\n');
    assert(out@ =~= old(out)@ + line@ + seq!['\n']);
}

/// `text` written `n` times.
pub open spec fn repeated(text: Seq<char>, n: nat) -> Seq<char>
    decreases n,
{
    if n == 0 {
        Seq::empty()
    } else {
        repeated(text, (n - 1) as nat) + text
    }
}

pub fn repeat(text: &str, n: usize) -> (r: String)
    ensures
        r@ == repeated(text@, n as nat),
{
    let mut out = String::new();
    for i in 0..n
        invariant
            out@ == repeated(text@, i as nat),
    {
        out.append(text);
    }
    out
}

// ---------------------------------------------------------------------------
// Comparing
// ---------------------------------------------------------------------------

/// `c` with an ASCII capital made small.
pub open spec fn small(c: char) -> char {
    if 'A' <= c && c <= 'Z' {
        (c as u32 + 32) as char
    } else {
        c
    }
}

/// Equal but for the case of ASCII letters.
pub open spec fn same_but_case(a: Seq<char>, b: Seq<char>) -> bool {
    a.len() == b.len() && forall|i: int| 0 <= i < a.len() ==> small(#[trigger] a[i]) == small(b[i])
}

/// Case makes no difference: ASCII texts that are equal but for it have one form
/// in lower case and one in upper case.
pub proof fn case_makes_no_difference(a: Seq<char>, b: Seq<char>)
    requires
        is_ascii_text(a),
        same_but_case(a, b),
    ensures
        is_ascii_text(b),
        lowercase(a) == lowercase(b),
        uppercase(a) == uppercase(b),
{
    assert forall|i: int| 0 <= i < b.len() implies (#[trigger] b[i]) <= '\u{7f}' by {
        assert(small(a[i]) == small(b[i]));
    }
    assert forall|i: int| 0 <= i < a.len() implies large(#[trigger] a[i]) == large(b[i]) by {
        assert(small(a[i]) == small(b[i]));
    }
    assert(lowercase(a) =~= lowercase(b));
    assert(uppercase(a) =~= uppercase(b));
}

fn small_char(c: char) -> (r: char)
    ensures
        r == small(c),
{
    if 'A' <= c && c <= 'Z' {
        ((c as u8) + 32) as char
    } else {
        c
    }
}

pub fn equal_but_case(a: &str, b: &str) -> (r: bool)
    ensures
        r == same_but_case(a@, b@),
{
    let x = chars_of(a);
    let y = chars_of(b);
    if x.len() != y.len() {
        return false;
    }
    for i in 0..x.len()
        invariant
            x@ == a@,
            y@ == b@,
            x@.len() == y@.len(),
            forall|j: int| 0 <= j < i ==> small(#[trigger] a@[j]) == small(b@[j]),
    {
        if small_char(x[i]) != small_char(y[i]) {
            assert(small(a@[i as int]) != small(b@[i as int]));
            return false;
        }
    }
    true
}

/// The place of the first text that equals `item` but for ASCII case.
pub open spec fn place_but_case(v: Seq<Seq<char>>, item: Seq<char>) -> Option<int>
    decreases v.len(),
{
    if v.len() == 0 {
        None
    } else {
        match place_but_case(v.drop_last(), item) {
            Some(i) => Some(i),
            None => if same_but_case(v.last(), item) {
                Some(v.len() - 1)
            } else {
                None
            },
        }
    }
}

/// The place that is found is of an item that differs only in case, if there is one.
pub proof fn place_but_case_finds(v: Seq<Seq<char>>, item: Seq<char>)
    ensures
        match place_but_case(v, item) {
            Some(i) => 0 <= i < v.len() && same_but_case(v[i], item),
            None => forall|i: int| 0 <= i < v.len() ==> !same_but_case(#[trigger] v[i], item),
        },
    decreases v.len(),
{
    if v.len() > 0 {
        let rest = v.drop_last();
        place_but_case_finds(rest, item);
        if place_but_case(v, item) is None {
            assert forall|i: int| 0 <= i < v.len() implies !same_but_case(
                #[trigger] v[i],
                item,
            ) by {
                if i < rest.len() {
                    assert(rest[i] == v[i]);
                }
            }
        }
    }
}

pub proof fn place_but_case_extends(v: Seq<Seq<char>>, n: int, item: Seq<char>)
    requires
        0 <= n <= v.len(),
        place_but_case(v.take(n), item) is Some,
    ensures
        place_but_case(v, item) == place_but_case(v.take(n), item),
    decreases v.len() - n,
{
    if n < v.len() {
        assert(v.take(n + 1).drop_last() =~= v.take(n));
        place_but_case_extends(v, n + 1, item);
    } else {
        assert(v.take(n) =~= v);
    }
}

pub fn find_but_case(v: &Vec<String>, item: &str) -> (r: Option<usize>)
    ensures
        match r {
            Some(i) => place_but_case(texts(v@), item@) == Some(i as int) && i < v@.len(),
            None => place_but_case(texts(v@), item@) is None,
        },
{
    for i in 0..v.len()
        invariant
            place_but_case(texts(v@).take(i as int), item@) is None,
    {
        let ghost upto = texts(v@).take(i as int + 1);
        assert(upto.drop_last() =~= texts(v@).take(i as int));
        if equal_but_case(v[i].as_str(), item) {
            proof {
                assert(place_but_case(upto, item@) == Some(i as int));
                place_but_case_extends(texts(v@), i as int + 1, item@);
            }
            return Some(i);
        }
    }
    assert(texts(v@).take(v@.len() as int) =~= texts(v@));
    None
}

/// Alphabetical order by character value: `a` comes no later than `b`.
pub open spec fn in_order(a: Seq<char>, b: Seq<char>) -> bool
    decreases a.len(),
{
    if a.len() == 0 {
        true
    } else if b.len() == 0 {
        false
    } else if a[0] == b[0] {
        in_order(a.drop_first(), b.drop_first())
    } else {
        a[0] < b[0]
    }
}

pub fn ordered(a: &str, b: &str) -> (r: bool)
    ensures
        r == in_order(a@, b@),
{
    let x = chars_of(a);
    let y = chars_of(b);
    let mut i: usize = 0;
    assert(x@.skip(0) =~= x@ && y@.skip(0) =~= y@);
    while i < x.len()
        invariant
            x@ == a@,
            y@ == b@,
            i <= x@.len(),
            i <= y@.len(),
            in_order(x@, y@) == in_order(x@.skip(i as int), y@.skip(i as int)),
        decreases x@.len() - i,
    {
        if i >= y.len() {
            return false;
        }
        if x[i] != y[i] {
            return x[i] < y[i];
        }
        assert(x@.skip(i as int).drop_first() =~= x@.skip(i as int + 1));
        assert(y@.skip(i as int).drop_first() =~= y@.skip(i as int + 1));
        i += 1;
    }
    true
}

pub proof fn in_order_total(a: Seq<char>, b: Seq<char>)
    ensures
        in_order(a, b) || in_order(b, a),
    decreases a.len(),
{
    if a.len() > 0 && b.len() > 0 && a[0] == b[0] {
        in_order_total(a.drop_first(), b.drop_first());
    }
}

pub proof fn in_order_transitive(a: Seq<char>, b: Seq<char>, c: Seq<char>)
    requires
        in_order(a, b),
        in_order(b, c),
    ensures
        in_order(a, c),
    decreases a.len(),
{
    if a.len() > 0 && a[0] == b[0] && b[0] == c[0] {
        in_order_transitive(a.drop_first(), b.drop_first(), c.drop_first());
    }
}

// ---------------------------------------------------------------------------
// Searching
// ---------------------------------------------------------------------------

/// `v` with `item` in front of the first string that comes after it.
pub open spec fn inserted(v: Seq<Seq<char>>, item: Seq<char>) -> Seq<Seq<char>>
    decreases v.len(),
{
    if v.len() == 0 || in_order(v.last(), item) {
        v.push(item)
    } else {
        inserted(v.drop_last(), item).push(v.last())
    }
}

/// The strings in order.
pub open spec fn sorted(v: Seq<Seq<char>>) -> Seq<Seq<char>>
    decreases v.len(),
{
    if v.len() == 0 {
        v
    } else {
        inserted(sorted(v.drop_last()), v.last())
    }
}

/// Strings of which none comes after a later one.
pub open spec fn is_sorted(v: Seq<Seq<char>>) -> bool {
    forall|i: int, j: int| 0 <= i < j < v.len() ==> in_order(#[trigger] v[i], #[trigger] v[j])
}

proof fn inserted_is_sorted(v: Seq<Seq<char>>, item: Seq<char>)
    requires
        is_sorted(v),
    ensures
        is_sorted(inserted(v, item)),
        inserted(v, item).to_multiset() == v.to_multiset().insert(item),
        forall|i: int|
            0 <= i < inserted(v, item).len() ==> (#[trigger] inserted(v, item)[i]) == item
                || v.contains(inserted(v, item)[i]),
    decreases v.len(),
{
    broadcast use vstd::seq_lib::group_to_multiset_ensures;

    let all = inserted(v, item);
    if v.len() == 0 || in_order(v.last(), item) {
        assert forall|i: int, j: int| 0 <= i < j < all.len() implies in_order(
            #[trigger] all[i],
            #[trigger] all[j],
        ) by {
            if j < v.len() {
                assert(in_order(v[i], v[j]));
            } else if i < v.len() - 1 {
                assert(in_order(v[i], v[v.len() - 1]));
                in_order_transitive(v[i], v.last(), item);
            }
        }
        assert forall|i: int| 0 <= i < all.len() implies (#[trigger] all[i]) == item
            || v.contains(all[i]) by {
            if i < v.len() {
                assert(v.contains(v[i]));
            }
        }
    } else {
        let rest = v.drop_last();
        assert(is_sorted(rest)) by {
            assert forall|i: int, j: int| 0 <= i < j < rest.len() implies in_order(
                #[trigger] rest[i],
                #[trigger] rest[j],
            ) by {
                assert(in_order(v[i], v[j]));
            }
        }
        inserted_is_sorted(rest, item);
        let most = inserted(rest, item);
        in_order_total(v.last(), item);
        assert forall|i: int, j: int| 0 <= i < j < all.len() implies in_order(
            #[trigger] all[i],
            #[trigger] all[j],
        ) by {
            if j < most.len() {
                assert(in_order(most[i], most[j]));
            } else if most[i] != item {
                let k = choose|k: int| 0 <= k < rest.len() && rest[k] == most[i];
                assert(in_order(v[k], v[v.len() - 1]));
            }
        }
        assert forall|i: int| 0 <= i < all.len() implies (#[trigger] all[i]) == item
            || v.contains(all[i]) by {
            if i < most.len() {
                if most[i] != item {
                    let k = choose|k: int| 0 <= k < rest.len() && rest[k] == most[i];
                    assert(v[k] == all[i]);
                }
            } else {
                assert(v[v.len() - 1] == all[i]);
            }
        }
        assert(v =~= rest.push(v.last()));
        assert(all.to_multiset() =~= v.to_multiset().insert(item));
    }
}

/// Sorting puts the strings in order, and neither adds nor loses any.
pub proof fn sorted_is_sorted(v: Seq<Seq<char>>)
    ensures
        is_sorted(sorted(v)),
        sorted(v).to_multiset() == v.to_multiset(),
    decreases v.len(),
{
    broadcast use vstd::seq_lib::group_to_multiset_ensures;

    if v.len() > 0 {
        sorted_is_sorted(v.drop_last());
        inserted_is_sorted(sorted(v.drop_last()), v.last());
        assert(v =~= v.drop_last().push(v.last()));
    }
}

/// Puts `item` into its place among sorted strings.
fn insert_sorted(v: &mut Vec<String>, item: String)
    ensures
        texts(final(v)@) == inserted(texts(old(v)@), item@),
{
    let ghost all = texts(v@);
    let ghost name = item@;
    let mut at: usize = v.len();
    assert(all.take(at as int) =~= all);
    assert(all.skip(at as int) =~= Seq::<Seq<char>>::empty());
    assert(inserted(all, name) =~= inserted(all.take(at as int), name) + all.skip(at as int));
    while at > 0 && !ordered(v[at - 1].as_str(), item.as_str())
        invariant
            at <= v@.len(),
            all == texts(v@),
            name == item@,
            inserted(all, name) == inserted(all.take(at as int), name) + all.skip(at as int),
        decreases at,
    {
        let ghost part = all.take(at as int);
        assert(part.drop_last() =~= all.take(at as int - 1));
        assert(inserted(part, name) == inserted(part.drop_last(), name).push(part.last()));
        assert(inserted(all, name) =~= inserted(all.take(at as int - 1), name) + all.skip(
            at as int - 1,
        ));
        at -= 1;
    }
    v.insert(at, item);
    assert(texts(v@) =~= all.take(at as int).push(name) + all.skip(at as int));
}

/// The strings in order.
pub fn sort_texts(v: &Vec<String>) -> (r: Vec<String>)
    ensures
        texts(r@) == sorted(texts(v@)),
{
    let mut out: Vec<String> = Vec::new();
    let ghost all = texts(v@);
    assert(texts(out@) =~= sorted(all.take(0)));
    for i in 0..v.len()
        invariant
            all == texts(v@),
            texts(out@) == sorted(all.take(i as int)),
    {
        assert(all.take(i as int + 1).drop_last() =~= all.take(i as int));
        insert_sorted(&mut out, v[i].clone());
    }
    assert(all.take(v@.len() as int) =~= all);
    out
}

/// `pattern` stands in `text` at `i`.
pub open spec fn occurs_at(text: Seq<char>, pattern: Seq<char>, i: int) -> bool {
    0 <= i <= text.len() - pattern.len() && text.subrange(i, i + pattern.len()) == pattern
}

/// The first place from `from` on at which `pattern` stands in `text`.
pub open spec fn found_from(text: Seq<char>, pattern: Seq<char>, from: int) -> Option<int>
    decreases text.len() + 1 - from,
{
    if from + pattern.len() > text.len() {
        None
    } else if occurs_at(text, pattern, from) {
        Some(from)
    } else {
        found_from(text, pattern, from + 1)
    }
}

fn matches_at(text: &Vec<char>, pattern: &Vec<char>, at: usize) -> (r: bool)
    requires
        at + pattern@.len() <= text@.len(),
    ensures
        r == occurs_at(text@, pattern@, at as int),
{
    let length = text.len();
    for i in 0..pattern.len()
        invariant
            length == text@.len(),
            at + pattern@.len() <= length,
            forall|j: int| 0 <= j < i ==> text@[at + j] == pattern@[j],
    {
        if text[at + i] != pattern[i] {
            assert(text@.subrange(at as int, at + pattern@.len())[i as int] != pattern@[i as int]);
            return false;
        }
    }
    assert(text@.subrange(at as int, at + pattern@.len()) =~= pattern@);
    true
}

/// The character index of the first `pattern` in `text`.
pub fn find(text: &str, pattern: &str) -> (r: Option<usize>)
    ensures
        match r {
            Some(i) => found_from(text@, pattern@, 0) == Some(i as int) && i + pattern@.len()
                <= text@.len(),
            None => found_from(text@, pattern@, 0) is None,
        },
{
    let t = chars_of(text);
    let p = chars_of(pattern);
    if p.len() > t.len() {
        return None;
    }
    let last = t.len() - p.len();
    let mut i: usize = 0;
    while i <= last
        invariant
            t@ == text@,
            p@ == pattern@,
            last == t@.len() - p@.len(),
            i <= last + 1,
            found_from(text@, pattern@, 0) == found_from(text@, pattern@, i as int),
        decreases last + 1 - i,
    {
        if matches_at(&t, &p, i) {
            return Some(i);
        }
        if i == last {
            assert(found_from(text@, pattern@, i + 1) is None);
            return None;
        }
        i += 1;
    }
    None
}

pub fn starts_with(text: &str, prefix: &str) -> (r: bool)
    ensures
        r == occurs_at(text@, prefix@, 0),
{
    let t = chars_of(text);
    let p = chars_of(prefix);
    if p.len() > t.len() {
        return false;
    }
    matches_at(&t, &p, 0)
}

/// The last place of `c`.
pub open spec fn last_index_of(text: Seq<char>, c: char) -> Option<int>
    decreases text.len(),
{
    if text.len() == 0 {
        None
    } else if text.last() == c {
        Some(text.len() - 1)
    } else {
        last_index_of(text.drop_last(), c)
    }
}

pub fn find_last_char(text: &Vec<char>, c: char) -> (r: Option<usize>)
    ensures
        match r {
            Some(i) => last_index_of(text@, c) == Some(i as int) && i < text@.len(),
            None => last_index_of(text@, c) is None,
        },
{
    let mut n: usize = text.len();
    assert(text@.take(n as int) =~= text@);
    while n > 0
        invariant
            n <= text@.len(),
            last_index_of(text@, c) == last_index_of(text@.take(n as int), c),
        decreases n,
    {
        if text[n - 1] == c {
            return Some(n - 1);
        }
        assert(text@.take(n as int).drop_last() =~= text@.take(n as int - 1));
        n -= 1;
    }
    None
}

// ---------------------------------------------------------------------------
// Trimming and filtering
// ---------------------------------------------------------------------------

/// `text` without the white space before it.
pub open spec fn trimmed_start(text: Seq<char>) -> Seq<char>
    decreases text.len(),
{
    if text.len() > 0 && is_white(text[0]) {
        trimmed_start(text.drop_first())
    } else {
        text
    }
}

/// `text` without the white space behind it.
pub open spec fn trimmed_end(text: Seq<char>) -> Seq<char>
    decreases text.len(),
{
    if text.len() > 0 && is_white(text.last()) {
        trimmed_end(text.drop_last())
    } else {
        text
    }
}

/// `text` without the white space around it.
pub open spec fn trimmed(text: Seq<char>) -> Seq<char> {
    trimmed_end(trimmed_start(text))
}

pub fn trim(text: &str) -> (r: String)
    ensures
        r@ == trimmed(text@),
{
    let t = chars_of(text);
    let mut lo: usize = 0;
    assert(t@.skip(0) =~= t@);
    while lo < t.len() && is_whitespace(t[lo])
        invariant
            lo <= t@.len(),
            trimmed_start(t@) == trimmed_start(t@.skip(lo as int)),
        decreases t@.len() - lo,
    {
        assert(t@.skip(lo as int).drop_first() =~= t@.skip(lo as int + 1));
        lo += 1;
    }
    let mut hi: usize = t.len();
    assert(t@.subrange(lo as int, hi as int) =~= t@.skip(lo as int));
    while hi > lo && is_whitespace(t[hi - 1])
        invariant
            lo <= hi <= t@.len(),
            trimmed_end(t@.skip(lo as int)) == trimmed_end(t@.subrange(lo as int, hi as int)),
        decreases hi,
    {
        assert(t@.subrange(lo as int, hi as int).drop_last() =~= t@.subrange(lo as int, hi - 1));
        hi -= 1;
    }
    text_between(&t, lo, hi)
}

/// `text` without the `c`s at its end.
pub open spec fn without_end(text: Seq<char>, c: char) -> Seq<char>
    decreases text.len(),
{
    if text.len() > 0 && text.last() == c {
        without_end(text.drop_last(), c)
    } else {
        text
    }
}

pub fn trim_end_char(text: &str, c: char) -> (r: String)
    ensures
        r@ == without_end(text@, c),
{
    let t = chars_of(text);
    let mut hi: usize = t.len();
    assert(t@.subrange(0, hi as int) =~= t@);
    while hi > 0 && t[hi - 1] == c
        invariant
            hi <= t@.len(),
            without_end(t@, c) == without_end(t@.subrange(0, hi as int), c),
        decreases hi,
    {
        assert(t@.subrange(0, hi as int).drop_last() =~= t@.subrange(0, hi - 1));
        hi -= 1;
    }
    text_between(&t, 0, hi)
}

/// `text` without any `c`.
pub open spec fn without(text: Seq<char>, c: char) -> Seq<char>
    decreases text.len(),
{
    if text.len() == 0 {
        text
    } else if text.last() == c {
        without(text.drop_last(), c)
    } else {
        without(text.drop_last(), c).push(text.last())
    }
}

pub fn remove_char(text: &str, c: char) -> (r: String)
    ensures
        r@ == without(text@, c),
{
    let t = chars_of(text);
    let mut out = String::new();
    for i in 0..t.len()
        invariant
            out@ == without(t@.take(i as int), c),
    {
        assert(t@.take(i as int + 1).drop_last() =~= t@.take(i as int));
        if t[i] != c {
            out.push(t[i]);
        }
    }
    assert(t@.take(t@.len() as int) =~= t@);
    out
}

/// What stands behind the last `c`, or all of `text` where there is none.
pub open spec fn after_last(text: Seq<char>, c: char) -> Seq<char>
    decreases text.len(),
{
    if text.len() == 0 || text.last() == c {
        Seq::empty()
    } else {
        after_last(text.drop_last(), c).push(text.last())
    }
}

pub fn tail_after_last(text: &str, c: char) -> (r: String)
    ensures
        r@ == after_last(text@, c),
{
    let t = chars_of(text);
    let mut out = String::new();
    for i in 0..t.len()
        invariant
            out@ == after_last(t@.take(i as int), c),
    {
        assert(t@.take(i as int + 1).drop_last() =~= t@.take(i as int));
        if t[i] == c {
            out = String::new();
        } else {
            out.push(t[i]);
        }
    }
    assert(t@.take(t@.len() as int) =~= t@);
    out
}

// ---------------------------------------------------------------------------
// Byte offsets
// ---------------------------------------------------------------------------

/// The bytes that `c` takes in UTF-8.
pub open spec fn width(c: char) -> nat {
    let code = c as u32;
    if code < 0x80 {
        1
    } else if code < 0x800 {
        2
    } else if code < 0x10000 {
        3
    } else {
        4
    }
}

/// The bytes that `text` takes in UTF-8.
pub open spec fn byte_len(text: Seq<char>) -> nat
    decreases text.len(),
{
    if text.len() == 0 {
        0
    } else {
        byte_len(text.drop_last()) + width(text.last())
    }
}

/// The number of characters in the first `offset` bytes of `text`; none where
/// that many bytes are not there or end inside a character.
pub open spec fn chars_in_bytes(text: Seq<char>, offset: int) -> Option<int>
    decreases text.len(),
{
    if offset == 0 {
        Some(0)
    } else if text.len() == 0 || offset < width(text[0]) {
        None
    } else {
        match chars_in_bytes(text.drop_first(), offset - width(text[0])) {
            Some(n) => Some(n + 1),
            None => None,
        }
    }
}

fn char_width(c: char) -> (r: usize)
    ensures
        r == width(c),
{
    let code: u32 = c as u32;
    if code < 0x80 {
        1
    } else if code < 0x800 {
        2
    } else if code < 0x10000 {
        3
    } else {
        4
    }
}

/// The number of characters in the first `offset` bytes.
pub fn char_count_in_bytes(text: &Vec<char>, offset: u128) -> (r: Option<usize>)
    ensures
        match r {
            Some(n) => chars_in_bytes(text@, offset as int) == Some(n as int) && n <= text@.len(),
            None => chars_in_bytes(text@, offset as int) is None,
        },
{
    let mut left: u128 = offset;
    let mut i: usize = 0;
    assert(text@.skip(0) =~= text@);
    while left > 0
        invariant
            i <= text@.len(),
            chars_in_bytes(text@, offset as int) == (match chars_in_bytes(
                text@.skip(i as int),
                left as int,
            ) {
                Some(n) => Some(n + i),
                None => None,
            }),
        decreases left,
    {
        if i >= text.len() {
            return None;
        }
        let w = char_width(text[i]) as u128;
        if left < w {
            return None;
        }
        assert(text@.skip(i as int).drop_first() =~= text@.skip(i as int + 1));
        left -= w;
        i += 1;
    }
    Some(i)
}

/// The number of bytes in the first `n` characters.
pub fn bytes_in_chars(text: &Vec<char>, n: usize) -> (r: u128)
    requires
        n <= text@.len(),
    ensures
        r == byte_len(text@.take(n as int)),
        r <= 4 * n,
{
    let mut count: u128 = 0;
    let mut i: usize = 0;
    while i < n
        invariant
            i <= n <= text@.len(),
            count == byte_len(text@.take(i as int)),
            count <= 4 * i,
        decreases n - i,
    {
        assert(text@.take(i as int + 1).drop_last() =~= text@.take(i as int));
        count += char_width(text[i]) as u128;
        i += 1;
    }
    count
}

// ---------------------------------------------------------------------------
// Numerals
// ---------------------------------------------------------------------------

/// The character of a decimal digit.
pub open spec fn digit(d: nat) -> char {
    (48 + d) as char
}

/// `n` written in decimal.
pub open spec fn decimal(n: nat) -> Seq<char>
    decreases n,
{
    if n < 10 {
        seq![digit(n)]
    } else {
        decimal(n / 10).push(digit(n % 10))
    }
}

pub fn decimal_text(n: u128) -> (r: String)
    ensures
        r@ == decimal(n as nat),
    decreases n,
{
    let last = (48 + (n % 10) as u8) as char;
    if n < 10 {
        let mut s = String::new();
        s.push(last);
        assert(s@ =~= seq![digit(n as nat)]);
        s
    } else {
        let mut s = decimal_text(n / 10);
        s.push(last);
        s
    }
}

} // verus!
