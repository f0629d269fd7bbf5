//! What the operations on text do.

use crate::text::{
    after_last, found_from, in_order, is_white, joined, occurs_at, trimmed, trimmed_end,
    trimmed_start, without,
};
use vstd::prelude::*;

verus! {

/// All of it is white space.
pub open spec fn all_white(text: Seq<char>) -> bool {
    forall|i: int| 0 <= i < text.len() ==> is_white(#[trigger] text[i])
}

/// There is no white space at either end.
pub open spec fn is_tight(text: Seq<char>) -> bool {
    text.len() > 0 ==> !is_white(text[0]) && !is_white(text.last())
}

/// White space around a text is all that trimming takes away.
pub proof fn trimming_takes_white_space_away(front: Seq<char>, text: Seq<char>, back: Seq<char>)
    requires
        all_white(front),
        all_white(back),
        is_tight(text),
    ensures
        trimmed(front + text + back) == text,
        trimmed(text) == text,
    decreases front.len(), back.len(),
{
    let whole = front + text + back;
    if front.len() > 0 {
        let rest = front.drop_first();
        assert forall|i: int| 0 <= i < rest.len() implies is_white(#[trigger] rest[i]) by {
            assert(rest[i] == front[i + 1]);
        }
        trimming_takes_white_space_away(rest, text, back);
        assert(whole[0] == front[0]);
        assert(whole.drop_first() =~= rest + text + back);
    } else if text.len() > 0 {
        assert(whole =~= text + back);
        assert(whole[0] == text[0]);
        white_space_behind_goes(text, back);
        assert(trimmed_start(text) == text);
        assert(trimmed_end(text) == text);
    } else {
        assert(whole =~= back);
        white_space_goes(back);
        assert(text =~= Seq::<char>::empty());
    }
}

proof fn white_space_behind_goes(text: Seq<char>, back: Seq<char>)
    requires
        all_white(back),
        text.len() > 0,
        !is_white(text.last()),
    ensures
        trimmed_end(text + back) == text,
    decreases back.len(),
{
    let whole = text + back;
    if back.len() > 0 {
        let rest = back.drop_last();
        assert forall|i: int| 0 <= i < rest.len() implies is_white(#[trigger] rest[i]) by {
            assert(rest[i] == back[i]);
        }
        white_space_behind_goes(text, rest);
        assert(whole.last() == back[back.len() - 1]);
        assert(whole.drop_last() =~= text + rest);
    } else {
        assert(whole =~= text);
    }
}

proof fn white_space_goes(text: Seq<char>)
    requires
        all_white(text),
    ensures
        trimmed_start(text) == Seq::<char>::empty(),
    decreases text.len(),
{
    if text.len() > 0 {
        let rest = text.drop_first();
        assert forall|i: int| 0 <= i < rest.len() implies is_white(#[trigger] rest[i]) by {
            assert(rest[i] == text[i + 1]);
        }
        white_space_goes(rest);
    } else {
        assert(text =~= Seq::<char>::empty());
    }
}

/// A character that is taken out is gone wherever it stood, and nothing else is.
pub proof fn only_the_character_is_gone(text: Seq<char>, other: Seq<char>, c: char)
    ensures
        !without(text, c).contains(c),
        !text.contains(c) ==> without(text, c) == text,
        without(text + other, c) == without(text, c) + without(other, c),
        without(text.push(c), c) == without(text, c),
    decreases other.len(), text.len(),
{
    if text.len() > 0 {
        only_the_character_is_gone(text.drop_last(), Seq::empty(), c);
        let rest = text.drop_last();
        let left = without(rest, c);
        if !text.contains(c) {
            assert(text[text.len() - 1] != c);
            assert(!rest.contains(c)) by {
                if rest.contains(c) {
                    let i = choose|i: int| 0 <= i < rest.len() && rest[i] == c;
                    assert(text[i] == c);
                }
            }
            assert(rest.push(text.last()) =~= text);
        }
        if without(text, c).contains(c) {
            let all = without(text, c);
            let i = choose|i: int| 0 <= i < all.len() && all[i] == c;
            if i < left.len() {
                assert(left[i] == c);
            }
        }
    }
    let both = text + other;
    if other.len() > 0 {
        only_the_character_is_gone(text, other.drop_last(), c);
        assert(both.drop_last() =~= text + other.drop_last());
        assert(both.last() == other.last());
        assert(without(both, c) =~= without(text, c) + without(other, c));
    } else {
        assert(both =~= text);
        assert(without(both, c) =~= without(text, c) + without(other, c));
    }
    assert(text.push(c).drop_last() =~= text);
}

/// The place that is found is the first at which the pattern stands.
pub proof fn the_first_place_is_found(text: Seq<char>, pattern: Seq<char>, from: int)
    requires
        0 <= from,
    ensures
        match found_from(text, pattern, from) {
            Some(i) => from <= i && occurs_at(text, pattern, i) && forall|k: int|
                from <= k < i ==> !#[trigger] occurs_at(text, pattern, k),
            None => forall|k: int| from <= k ==> !#[trigger] occurs_at(text, pattern, k),
        },
    decreases text.len() + 1 - from,
{
    if from + pattern.len() <= text.len() && !occurs_at(text, pattern, from) {
        the_first_place_is_found(text, pattern, from + 1);
    }
}

/// What follows the last of a character has none of it.
pub proof fn the_end_follows_the_last(front: Seq<char>, text: Seq<char>, c: char)
    requires
        !text.contains(c),
    ensures
        after_last(front.push(c) + text, c) == text,
        after_last(text, c) == text,
    decreases text.len(),
{
    let whole = front.push(c) + text;
    if text.len() > 0 {
        let rest = text.drop_last();
        assert(text[text.len() - 1] != c);
        assert(!rest.contains(c)) by {
            if rest.contains(c) {
                let i = choose|i: int| 0 <= i < rest.len() && rest[i] == c;
                assert(text[i] == c);
            }
        }
        the_end_follows_the_last(front, rest, c);
        assert(whole.drop_last() =~= front.push(c) + rest);
        assert(whole.last() == text.last());
        assert(rest.push(text.last()) =~= text);
    } else {
        assert(whole.last() == c);
        assert(text =~= Seq::<char>::empty());
    }
}

/// Texts are joined in their order, each pair of neighbours by the separator.
pub proof fn neighbours_are_joined(
    parts: Seq<Seq<char>>,
    more: Seq<Seq<char>>,
    separator: Seq<char>,
)
    requires
        parts.len() > 0,
        more.len() > 0,
    ensures
        joined(parts + more, separator) == joined(parts, separator) + separator + joined(
            more,
            separator,
        ),
        joined(seq![parts[0]], separator) == parts[0],
    decreases more.len(),
{
    let all = parts + more;
    assert(all.last() == more.last());
    if more.len() > 1 {
        let rest = more.drop_last();
        neighbours_are_joined(parts, rest, separator);
        assert(all.drop_last() =~= parts + rest);
        assert(joined(all, separator) =~= joined(parts, separator) + separator + joined(
            more,
            separator,
        ));
    } else {
        assert(all.drop_last() =~= parts);
        assert(joined(all, separator) =~= joined(parts, separator) + separator + joined(
            more,
            separator,
        ));
    }
}

/// Of two texts the one comes first that has the lesser character where they first
/// differ, or that ends where the other goes on.
pub proof fn the_first_difference_orders_texts(
    front: Seq<char>,
    a: char,
    b: char,
    back: Seq<char>,
    other: Seq<char>,
)
    ensures
        a != b ==> in_order(front.push(a) + back, front.push(b) + other) == (a < b),
        in_order(front, front + back),
        back.len() > 0 ==> !in_order(front + back, front),
    decreases front.len(),
{
    let (x, y) = (front.push(a) + back, front.push(b) + other);
    if front.len() > 0 {
        let rest = front.drop_first();
        the_first_difference_orders_texts(rest, a, b, back, other);
        assert(x.drop_first() =~= rest.push(a) + back);
        assert(y.drop_first() =~= rest.push(b) + other);
        assert((front + back).drop_first() =~= rest + back);
        assert(x[0] == front[0] && y[0] == front[0] && (front + back)[0] == front[0]);
    } else {
        assert(x[0] == a && y[0] == b);
    }
}

} // verus!
