//! What the sysfs attributes of a multicolor LED say: the channel order of
//! `multi_index` and the top level of `max_brightness`.

use vstd::prelude::*;

use crate::colour::Channel;
use crate::text::{
    NumberError, parse_u32, parsed_u32, split_whitespace, trim, trimmed, words,
};

verus! {

/// The name of `channel` in `multi_index`.
pub open spec fn channel_name(channel: Channel) -> Seq<char> {
    match channel {
        Channel::Red => seq!['r', 'e', 'd'],
        Channel::Green => seq!['g', 'r', 'e', 'e', 'n'],
        Channel::Blue => seq!['b', 'l', 'u', 'e'],
    }
}

/// The code of `c` with ASCII capitals lowered.
pub open spec fn lowered_code(c: char) -> u32 {
    if 'A' <= c <= 'Z' {
        (c as u32 + 32) as u32
    } else {
        c as u32
    }
}

/// Whether `word` is the name of `channel`, ignoring ASCII case.
pub open spec fn names_channel(word: Seq<char>, channel: Channel) -> bool {
    &&& word.len() == channel_name(channel).len()
    &&& forall|i: int|
        0 <= i < word.len() ==> lowered_code(#[trigger] word[i]) == channel_name(channel)[i] as u32
}

/// The channel that `word` names, if any.
pub open spec fn word_channel(word: Seq<char>) -> Option<Channel> {
    if names_channel(word, Channel::Red) {
        Some(Channel::Red)
    } else if names_channel(word, Channel::Green) {
        Some(Channel::Green)
    } else if names_channel(word, Channel::Blue) {
        Some(Channel::Blue)
    } else {
        None
    }
}

/// The channel order that the `multi_index` text `text` gives: three words that name
/// red, green and blue, each once.
pub open spec fn channel_order(text: Seq<char>) -> Option<Seq<Channel>> {
    let w = words(text);
    if w.len() == 3 && word_channel(w[0]) is Some && word_channel(w[1]) is Some && word_channel(
        w[2],
    ) is Some && word_channel(w[0]) != word_channel(w[1]) && word_channel(w[0]) != word_channel(
        w[2],
    ) && word_channel(w[1]) != word_channel(w[2]) {
        Some(seq![word_channel(w[0])->0, word_channel(w[1])->0, word_channel(w[2])->0])
    } else {
        None
    }
}

/// Whether `word` is `name` (lower-case letters) written in any mix of ASCII case.
pub open spec fn spells(word: Seq<char>, name: Seq<char>) -> bool {
    &&& word.len() == name.len()
    &&& forall|i: int|
        0 <= i < word.len() ==> #[trigger] word[i] == name[i] || word[i] as u32 + 32 == name[i]
            as u32
}

/// The channel order gives, position by position, the channel that each word of the
/// `multi_index` text spells: `red`, `green` or `blue`, in any case. A text is an
/// order exactly when it has three words that spell the three names, each once.
pub proof fn law_order_follows_the_words(text: Seq<char>)
    ensures
        channel_order(text) matches Some(order) ==> order.len() == 3 && forall|k: int|
            0 <= k < 3 ==> {
                &&& (#[trigger] order[k] == Channel::Red) == spells(
                    words(text)[k],
                    seq!['r', 'e', 'd'],
                )
                &&& (order[k] == Channel::Green) == spells(
                    words(text)[k],
                    seq!['g', 'r', 'e', 'e', 'n'],
                )
                &&& (order[k] == Channel::Blue) == spells(words(text)[k], seq!['b', 'l', 'u', 'e'])
            },
        channel_order(text) is Some <==> words(text).len() == 3 && exists|a: int, b: int, c: int|
            0 <= a < 3 && 0 <= b < 3 && 0 <= c < 3 && a != b && a != c && b != c && spells(
                #[trigger] words(text)[a],
                seq!['r', 'e', 'd'],
            ) && spells(#[trigger] words(text)[b], seq!['g', 'r', 'e', 'e', 'n']) && spells(
                #[trigger] words(text)[c],
                seq!['b', 'l', 'u', 'e'],
            ),
{
    let w = words(text);
    if w.len() == 3 {
        lemma_spells_name(w[0]);
        lemma_spells_name(w[1]);
        lemma_spells_name(w[2]);
    }
    if words(text).len() == 3 && exists|a: int, b: int, c: int|
        0 <= a < 3 && 0 <= b < 3 && 0 <= c < 3 && a != b && a != c && b != c && spells(
            #[trigger] words(text)[a],
            seq!['r', 'e', 'd'],
        ) && spells(#[trigger] words(text)[b], seq!['g', 'r', 'e', 'e', 'n']) && spells(
            #[trigger] words(text)[c],
            seq!['b', 'l', 'u', 'e'],
        ) {
        let (a, b, c) = choose|a: int, b: int, c: int|
            0 <= a < 3 && 0 <= b < 3 && 0 <= c < 3 && a != b && a != c && b != c && spells(
                #[trigger] words(text)[a],
                seq!['r', 'e', 'd'],
            ) && spells(#[trigger] words(text)[b], seq!['g', 'r', 'e', 'e', 'n']) && spells(
                #[trigger] words(text)[c],
                seq!['b', 'l', 'u', 'e'],
            );
        assert(word_channel(w[a]) == Some(Channel::Red));
        assert(word_channel(w[b]) == Some(Channel::Green));
        assert(word_channel(w[c]) == Some(Channel::Blue));
    }
    if channel_order(text) is Some {
        let a: int = if word_channel(w[0]) == Some(Channel::Red) { 0 } else if word_channel(w[1])
            == Some(Channel::Red) { 1 } else { 2 };
        let b: int = if word_channel(w[0]) == Some(Channel::Green) { 0 } else if word_channel(w[1])
            == Some(Channel::Green) { 1 } else { 2 };
        let c: int = if word_channel(w[0]) == Some(Channel::Blue) { 0 } else if word_channel(w[1])
            == Some(Channel::Blue) { 1 } else { 2 };
        assert(spells(w[a], seq!['r', 'e', 'd']));
        assert(spells(w[b], seq!['g', 'r', 'e', 'e', 'n']));
        assert(spells(w[c], seq!['b', 'l', 'u', 'e']));
    }
}

/// A word names a channel exactly when it spells that channel's name.
proof fn lemma_spells_name(word: Seq<char>)
    ensures
        names_channel(word, Channel::Red) == spells(word, seq!['r', 'e', 'd']),
        names_channel(word, Channel::Green) == spells(word, seq!['g', 'r', 'e', 'e', 'n']),
        names_channel(word, Channel::Blue) == spells(word, seq!['b', 'l', 'u', 'e']),
        (word_channel(word) == Some(Channel::Red)) == spells(word, seq!['r', 'e', 'd']),
        (word_channel(word) == Some(Channel::Green)) == spells(word, seq!['g', 'r', 'e', 'e', 'n']),
        (word_channel(word) == Some(Channel::Blue)) == spells(word, seq!['b', 'l', 'u', 'e']),
{
    let red = seq!['r', 'e', 'd'];
    let green = seq!['g', 'r', 'e', 'e', 'n'];
    let blue = seq!['b', 'l', 'u', 'e'];
    assert(forall|i: int| 0 <= i < 3 ==> 'a' <= #[trigger] red[i] <= 'z');
    assert(forall|i: int| 0 <= i < 5 ==> 'a' <= #[trigger] green[i] <= 'z');
    assert(forall|i: int| 0 <= i < 4 ==> 'a' <= #[trigger] blue[i] <= 'z');
    assert(channel_name(Channel::Red) == red);
    assert(channel_name(Channel::Green) == green);
    assert(channel_name(Channel::Blue) == blue);
    assert forall|i: int| 0 <= i < word.len() && word.len() == 3 implies (lowered_code(
        #[trigger] word[i],
    ) == red[i] as u32) == (word[i] == red[i] || word[i] as u32 + 32 == red[i] as u32) by {
        lemma_lowered(word[i], red[i]);
    }
    assert forall|i: int| 0 <= i < word.len() && word.len() == 5 implies (lowered_code(
        #[trigger] word[i],
    ) == green[i] as u32) == (word[i] == green[i] || word[i] as u32 + 32 == green[i] as u32) by {
        lemma_lowered(word[i], green[i]);
    }
    assert forall|i: int| 0 <= i < word.len() && word.len() == 4 implies (lowered_code(
        #[trigger] word[i],
    ) == blue[i] as u32) == (word[i] == blue[i] || word[i] as u32 + 32 == blue[i] as u32) by {
        lemma_lowered(word[i], blue[i]);
    }
    if spells(word, red) {
        assert(!spells(word, green) && !spells(word, blue));
    }
    if spells(word, green) {
        assert(!spells(word, blue));
    }
}

proof fn lemma_lowered(c: char, n: char)
    requires
        'a' <= n <= 'z',
    ensures
        (lowered_code(c) == n as u32) == (c == n || c as u32 + 32 == n as u32),
{
    if c as u32 + 32 == n as u32 {
        assert('A' <= c <= 'Z');
    }
    if !('A' <= c <= 'Z') && c as u32 == n as u32 {
        assert(c == n);
    }
}

/// Why a `max_brightness` text gives no usable top level.
#[derive(Clone, Copy, Debug, PartialEq, Eq)]
pub enum MaximumError {
    /// The trimmed text is not a `u32`.
    Unparsable(NumberError),
    /// The text says zero.
    Zero,
}

/// The top level that the `max_brightness` text `text` gives.
pub open spec fn maximum_reading(text: Seq<char>) -> Result<u32, MaximumError> {
    match parsed_u32(trimmed(text)) {
        Ok(maximum) => if maximum == 0 {
            Err(MaximumError::Zero)
        } else {
            Ok(maximum)
        },
        Err(error) => Err(MaximumError::Unparsable(error)),
    }
}

fn lowered(c: char) -> (code: u32)
    ensures
        code == lowered_code(c),
{
    let code: u32 = c as u32;
    if 65 <= code && code <= 90 {
        code + 32
    } else {
        code
    }
}

/// Whether `word` is `name` (lower-case ASCII), ignoring ASCII case.
fn is_name(word: &Vec<char>, name: &Vec<char>) -> (same: bool)
    ensures
        same == (word@.len() == name@.len() && forall|i: int|
            0 <= i < word@.len() ==> lowered_code(#[trigger] word@[i]) == name@[i] as u32),
{
    if word.len() != name.len() {
        return false;
    }
    let mut i: usize = 0;
    while i < word.len()
        invariant
            i <= word@.len(),
            word@.len() == name@.len(),
            forall|k: int| 0 <= k < i ==> lowered_code(#[trigger] word@[k]) == name@[k] as u32,
        decreases word@.len() - i,
    {
        if lowered(word[i]) != name[i] as u32 {
            return false;
        }
        i = i + 1;
    }
    true
}

/// The channel that `word` names, if any.
fn channel_of(word: &Vec<char>) -> (channel: Option<Channel>)
    ensures
        channel == word_channel(word@),
{
    let red: Vec<char> = vec!['r', 'e', 'd'];
    let green: Vec<char> = vec!['g', 'r', 'e', 'e', 'n'];
    let blue: Vec<char> = vec!['b', 'l', 'u', 'e'];
    assert(red@ =~= channel_name(Channel::Red));
    assert(green@ =~= channel_name(Channel::Green));
    assert(blue@ =~= channel_name(Channel::Blue));
    if is_name(word, &red) {
        Some(Channel::Red)
    } else if is_name(word, &green) {
        Some(Channel::Green)
    } else if is_name(word, &blue) {
        Some(Channel::Blue)
    } else {
        None
    }
}

fn same_channel(a: Channel, b: Channel) -> (same: bool)
    ensures
        same == (a == b),
{
    match (a, b) {
        (Channel::Red, Channel::Red) => true,
        (Channel::Green, Channel::Green) => true,
        (Channel::Blue, Channel::Blue) => true,
        _ => false,
    }
}

/// The channel order of a `multi_index` text, or `None` where it does not name red,
/// green and blue once each.
pub fn parse_order(text: &str) -> (order: Option<Vec<Channel>>)
    ensures
        match order {
            Some(channels) => channel_order(text@) == Some(channels@),
            None => channel_order(text@) is None,
        },
{
    let found: Vec<Vec<char>> = split_whitespace(text);
    if found.len() != 3 {
        return None;
    }
    let first: Option<Channel> = channel_of(&found[0]);
    let second: Option<Channel> = channel_of(&found[1]);
    let third: Option<Channel> = channel_of(&found[2]);
    match (first, second, third) {
        (Some(a), Some(b), Some(c)) => {
            if same_channel(a, b) || same_channel(a, c) || same_channel(b, c) {
                None
            } else {
                let order: Vec<Channel> = vec![a, b, c];
                assert(order@ =~= seq![a, b, c]);
                Some(order)
            }
        },
        _ => None,
    }
}

/// The top level that a `max_brightness` text gives.
pub fn parse_maximum(text: &str) -> (maximum: Result<u32, MaximumError>)
    ensures
        maximum == maximum_reading(text@),
{
    let trimmed_text: Vec<char> = trim(text);
    match parse_u32(&trimmed_text) {
        Ok(value) => if value == 0 {
            Err(MaximumError::Zero)
        } else {
            Ok(value)
        },
        Err(error) => Err(MaximumError::Unparsable(error)),
    }
}

} // verus!
