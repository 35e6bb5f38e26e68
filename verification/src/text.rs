//! Text of sysfs attributes: Unicode whitespace, words, trimming, and decimal
//! numbers as `str::split_whitespace`, `str::trim`, `u32::from_str` and
//! `u32::to_string` treat them.

use vstd::prelude::*;
use vstd::string::StrSliceExecFns;

verus! {

broadcast use vstd::string::group_string_axioms;

/// Whether `c` has the Unicode `White_Space` property.
pub open spec fn is_white_space(c: char) -> bool {
    ||| '\u{9}' <= c <= '\u{d}'
    ||| c == ' '
    ||| c == '\u{85}'
    ||| c == '\u{a0}'
    ||| c == '\u{1680}'
    ||| '\u{2000}' <= c <= '\u{200a}'
    ||| c == '\u{2028}'
    ||| c == '\u{2029}'
    ||| c == '\u{202f}'
    ||| c == '\u{205f}'
    ||| c == '\u{3000}'
}

/// Splitting `s` at white space, scanned from the left: the words completed so far,
/// and the word still being read.
pub open spec fn scan_words(s: Seq<char>) -> (Seq<Seq<char>>, Seq<char>)
    decreases s.len(),
{
    if s.len() == 0 {
        (Seq::empty(), Seq::empty())
    } else {
        let (done, current) = scan_words(s.drop_last());
        if is_white_space(s.last()) {
            if current.len() > 0 {
                (done.push(current), Seq::empty())
            } else {
                (done, current)
            }
        } else {
            (done, current.push(s.last()))
        }
    }
}

/// The maximal runs of non-white-space characters of `s`, in order.
pub open spec fn words(s: Seq<char>) -> Seq<Seq<char>> {
    let (done, current) = scan_words(s);
    if current.len() > 0 {
        done.push(current)
    } else {
        done
    }
}

/// `s` without its leading white space.
pub open spec fn trim_start(s: Seq<char>) -> Seq<char>
    decreases s.len(),
{
    if s.len() > 0 && is_white_space(s[0]) {
        trim_start(s.drop_first())
    } else {
        s
    }
}

/// `s` without its trailing white space.
pub open spec fn trim_end(s: Seq<char>) -> Seq<char>
    decreases s.len(),
{
    if s.len() > 0 && is_white_space(s.last()) {
        trim_end(s.drop_last())
    } else {
        s
    }
}

/// `s` without its leading and trailing white space.
pub open spec fn trimmed(s: Seq<char>) -> Seq<char> {
    trim_end(trim_start(s))
}

pub open spec fn is_decimal_digit(c: char) -> bool {
    '0' <= c <= '9'
}

pub open spec fn digit_value(c: char) -> nat {
    (c as nat - '0' as nat) as nat
}

pub open spec fn all_decimal_digits(s: Seq<char>) -> bool {
    forall|i: int| 0 <= i < s.len() ==> is_decimal_digit(#[trigger] s[i])
}

/// The number that the decimal digits `s` stand for.
pub open spec fn decimal_value(s: Seq<char>) -> nat
    decreases s.len(),
{
    if s.len() == 0 {
        0
    } else {
        decimal_value(s.drop_last()) * 10 + digit_value(s.last())
    }
}

/// Why a text is not a `u32`, as `u32::from_str` reports it.
#[derive(Clone, Copy, Debug, PartialEq, Eq)]
pub enum NumberError {
    /// The text is empty.
    Empty,
    /// A character is not a decimal digit, or a sign stands alone.
    InvalidDigit,
    /// The digits, read from the left, exceed `u32::MAX` before any other problem.
    Overflow,
}

/// Whether some all-digit prefix of `digits` exceeds `u32::MAX`.
pub open spec fn overflows_u32(digits: Seq<char>) -> bool {
    exists|j: int|
        0 < j <= digits.len() && all_decimal_digits(#[trigger] digits.take(j)) && decimal_value(
            digits.take(j),
        ) > u32::MAX
}

/// What `u32::from_str` gives for the text `s`: an optional `+`, then decimal digits.
pub open spec fn parsed_u32(s: Seq<char>) -> Result<u32, NumberError> {
    if s.len() == 0 {
        Err(NumberError::Empty)
    } else {
        let digits = if s[0] == '+' {
            s.drop_first()
        } else {
            s
        };
        if digits.len() == 0 {
            Err(NumberError::InvalidDigit)
        } else if overflows_u32(digits) {
            Err(NumberError::Overflow)
        } else if !all_decimal_digits(digits) {
            Err(NumberError::InvalidDigit)
        } else {
            Ok(decimal_value(digits) as u32)
        }
    }
}

pub open spec fn digit_char(d: nat) -> char {
    ('0' as nat + d) as char
}

/// The decimal text of `n`, without leading zeros.
pub open spec fn decimal_text(n: nat) -> Seq<char>
    decreases n,
{
    if n < 10 {
        seq![digit_char(n)]
    } else {
        decimal_text(n / 10).push(digit_char(n % 10))
    }
}

/// The characters of `s`.
pub fn chars_of(s: &str) -> (chars: Vec<char>)
    ensures
        chars@ == s@,
{
    let mut chars: Vec<char> = Vec::new();
    for c in it: s.chars()
        invariant
            chars@ == it.seq().take(it.index() as int),
    {
        chars.push(c);
    }
    chars
}

/// Whether `c` is white space, as `char::is_whitespace` decides.
pub fn is_whitespace(c: char) -> (white: bool)
    ensures
        white == is_white_space(c),
{
    ('\u{9}' <= c && c <= '\u{d}') || c == ' ' || c == '\u{85}' || c == '\u{a0}' || c
        == '\u{1680}' || ('\u{2000}' <= c && c <= '\u{200a}') || c == '\u{2028}' || c
        == '\u{2029}' || c == '\u{202f}' || c == '\u{205f}' || c == '\u{3000}'
}

/// The words of `s`, as `str::split_whitespace` yields them.
pub fn split_whitespace(s: &str) -> (found: Vec<Vec<char>>)
    ensures
        found@.len() == words(s@).len(),
        forall|i: int| 0 <= i < found@.len() ==> #[trigger] found@[i]@ == words(s@)[i],
{
    let chars: Vec<char> = chars_of(s);
    let mut done: Vec<Vec<char>> = Vec::new();
    let mut current: Vec<char> = Vec::new();
    let mut i: usize = 0;
    assert(chars@.take(0) =~= Seq::<char>::empty());
    while i < chars.len()
        invariant
            i <= chars@.len(),
            chars@ == s@,
            done@.len() == scan_words(chars@.take(i as int)).0.len(),
            forall|k: int|
                0 <= k < done@.len() ==> #[trigger] done@[k]@ == scan_words(
                    chars@.take(i as int),
                ).0[k],
            current@ == scan_words(chars@.take(i as int)).1,
        decreases chars@.len() - i,
    {
        let c: char = chars[i];
        assert(chars@.take(i + 1).drop_last() =~= chars@.take(i as int));
        if is_whitespace(c) {
            if current.len() > 0 {
                let word: Vec<char> = current;
                done.push(word);
                current = Vec::new();
            }
        } else {
            current.push(c);
        }
        i = i + 1;
    }
    assert(chars@.take(chars@.len() as int) =~= chars@);
    if current.len() > 0 {
        done.push(current);
    }
    done
}

/// The index of the first character of `chars` that is not white space, or its length.
fn first_non_white(chars: &Vec<char>) -> (start: usize)
    ensures
        start <= chars@.len(),
        trim_start(chars@) == chars@.subrange(start as int, chars@.len() as int),
        forall|k: int| 0 <= k < start ==> is_white_space(#[trigger] chars@[k]),
        start < chars@.len() ==> !is_white_space(chars@[start as int]),
{
    let mut start: usize = 0;
    assert(chars@.subrange(0, chars@.len() as int) =~= chars@);
    while start < chars.len() && is_whitespace(chars[start])
        invariant
            start <= chars@.len(),
            trim_start(chars@) == trim_start(chars@.subrange(start as int, chars@.len() as int)),
            forall|k: int| 0 <= k < start ==> is_white_space(#[trigger] chars@[k]),
        decreases chars@.len() - start,
    {
        assert(chars@.subrange(start as int, chars@.len() as int).drop_first() =~= chars@.subrange(
            start + 1,
            chars@.len() as int,
        ));
        start = start + 1;
    }
    start
}

/// The trimmed text of `s`, as `str::trim` gives it.
pub fn trim(s: &str) -> (t: Vec<char>)
    ensures
        t@ == trimmed(s@),
{
    let chars: Vec<char> = chars_of(s);
    let start: usize = first_non_white(&chars);
    let mut end: usize = chars.len();
    let ghost rest = chars@.subrange(start as int, chars@.len() as int);
    assert(rest.subrange(0, rest.len() as int) =~= rest);
    while end > start && is_whitespace(chars[end - 1])
        invariant
            start <= end <= chars@.len(),
            rest == chars@.subrange(start as int, chars@.len() as int),
            trim_end(rest) == trim_end(chars@.subrange(start as int, end as int)),
        decreases end,
    {
        assert(chars@.subrange(start as int, end as int).drop_last() =~= chars@.subrange(
            start as int,
            end - 1,
        ));
        end = end - 1;
    }
    let mut t: Vec<char> = Vec::new();
    let mut k: usize = start;
    while k < end
        invariant
            start <= k <= end <= chars@.len(),
            t@ == chars@.subrange(start as int, k as int),
        decreases end - k,
    {
        t.push(chars[k]);
        k = k + 1;
    }
    t
}

/// The `u32` that the text `s` stands for, as `u32::from_str` reads it.
pub fn parse_u32(s: &Vec<char>) -> (parsed: Result<u32, NumberError>)
    ensures
        parsed == parsed_u32(s@),
{
    if s.len() == 0 {
        return Err(NumberError::Empty);
    }
    let start: usize = if s[0] == '+' {
        1
    } else {
        0
    };
    let ghost digits = if s@[0] == '+' {
        s@.drop_first()
    } else {
        s@
    };
    assert(digits =~= s@.subrange(start as int, s@.len() as int));
    if start == s.len() {
        return Err(NumberError::InvalidDigit);
    }
    let mut value: u64 = 0;
    let mut i: usize = start;
    assert(digits.take(0) =~= Seq::<char>::empty());
    while i < s.len()
        invariant
            start <= i <= s@.len(),
            0 < s@.len(),
            start == (if s@[0] == '+' {
                1int
            } else {
                0int
            }),
            start < s@.len(),
            digits == (if s@[0] == '+' {
                s@.drop_first()
            } else {
                s@
            }),
            digits == s@.subrange(start as int, s@.len() as int),
            all_decimal_digits(digits.take(i - start)),
            value == decimal_value(digits.take(i - start)),
            forall|j: int|
                0 < j <= i - start ==> decimal_value(#[trigger] digits.take(j)) <= u32::MAX,
        decreases s@.len() - i,
    {
        let c: char = s[i];
        if !('0' <= c && c <= '9') {
            proof {
                assert(!all_decimal_digits(digits)) by {
                    assert(digits[i - start] == c);
                }
                assert(!overflows_u32(digits)) by {
                    assert forall|j: int|
                        0 < j <= digits.len() && all_decimal_digits(
                            #[trigger] digits.take(j),
                        ) implies decimal_value(digits.take(j)) <= u32::MAX by {
                        if j > i - start {
                            assert(digits.take(j)[i - start] == c);
                        }
                    }
                }
            }
            return Err(NumberError::InvalidDigit);
        }
        let ghost j = i - start + 1;
        assert(digits.take(j).drop_last() =~= digits.take(j - 1));
        assert(digits.take(j).last() == c);
        let next: u64 = value * 10 + ((c as u32) - ('0' as u32)) as u64;
        assert(all_decimal_digits(digits.take(j))) by {
            assert forall|k: int| 0 <= k < j implies is_decimal_digit(
                #[trigger] digits.take(j)[k],
            ) by {
                if k < j - 1 {
                    assert(digits.take(j)[k] == digits.take(j - 1)[k]);
                }
            }
        }
        assert(decimal_value(digits.take(j)) == value * 10 + digit_value(c));
        if next > 0xffff_ffff {
            assert(overflows_u32(digits)) by {
                assert(0 < j <= digits.len() && all_decimal_digits(digits.take(j))
                    && decimal_value(digits.take(j)) > u32::MAX);
            }
            return Err(NumberError::Overflow);
        }
        value = next;
        i = i + 1;
    }
    proof {
        assert(digits.take(digits.len() as int) =~= digits);
        assert(!overflows_u32(digits));
    }
    Ok(value as u32)
}

/// Trimming removes exactly the white space at both ends: the text is some white
/// space, then the trimmed text, then some white space, and the trimmed text, where
/// not empty, starts and ends with a character that is not white space.
pub proof fn law_trim_strips_the_ends(s: Seq<char>)
    ensures
        exists|a: int, b: int|
            0 <= a <= b <= s.len() && trimmed(s) == s.subrange(a, b) && (forall|i: int|
                0 <= i < a ==> is_white_space(#[trigger] s[i])) && (forall|i: int|
                b <= i < s.len() ==> is_white_space(#[trigger] s[i])),
        trimmed(s).len() > 0 ==> !is_white_space(trimmed(s)[0]) && !is_white_space(
            trimmed(s).last(),
        ),
{
    let a = lemma_trim_start(s);
    let t = s.subrange(a, s.len() as int);
    let b = lemma_trim_end(t);
    assert(t.subrange(0, b) =~= s.subrange(a, a + b));
    assert forall|i: int| a + b <= i < s.len() implies is_white_space(#[trigger] s[i]) by {
        assert(s[i] == t[i - a]);
    }
    if trimmed(s).len() > 0 {
        assert(trimmed(s)[0] == s[a]);
        assert(trimmed(s).last() == t[b - 1]);
    }
    assert(0 <= a <= a + b <= s.len() && trimmed(s) == s.subrange(a, a + b));
}

proof fn lemma_trim_start(s: Seq<char>) -> (a: int)
    ensures
        0 <= a <= s.len(),
        trim_start(s) == s.subrange(a, s.len() as int),
        forall|i: int| 0 <= i < a ==> is_white_space(#[trigger] s[i]),
        a < s.len() ==> !is_white_space(s[a]),
    decreases s.len(),
{
    if s.len() > 0 && is_white_space(s[0]) {
        let a = lemma_trim_start(s.drop_first());
        assert(s.drop_first().subrange(a, s.drop_first().len() as int) =~= s.subrange(
            a + 1,
            s.len() as int,
        ));
        assert forall|i: int| 0 <= i < a + 1 implies is_white_space(#[trigger] s[i]) by {
            if i > 0 {
                assert(s[i] == s.drop_first()[i - 1]);
            }
        }
        a + 1
    } else {
        assert(s.subrange(0, s.len() as int) =~= s);
        0
    }
}

proof fn lemma_trim_end(s: Seq<char>) -> (b: int)
    ensures
        0 <= b <= s.len(),
        trim_end(s) == s.subrange(0, b),
        forall|i: int| b <= i < s.len() ==> is_white_space(#[trigger] s[i]),
        b > 0 ==> !is_white_space(s[b - 1]),
    decreases s.len(),
{
    if s.len() > 0 && is_white_space(s.last()) {
        let b = lemma_trim_end(s.drop_last());
        assert(s.drop_last().subrange(0, b) =~= s.subrange(0, b));
        assert forall|i: int| b <= i < s.len() implies is_white_space(#[trigger] s[i]) by {
            if i < s.len() - 1 {
                assert(s[i] == s.drop_last()[i]);
            }
        }
        b
    } else {
        assert(s.subrange(0, s.len() as int) =~= s);
        s.len() as int
    }
}

/// White space separates words: the words of `a`, a white space character, then `b`
/// are the words of `a` followed by those of `b`.
pub proof fn law_words_split_at_white_space(a: Seq<char>, c: char, b: Seq<char>)
    requires
        is_white_space(c),
    ensures
        words(a + seq![c] + b) == words(a) + words(b),
{
    let x = a + seq![c];
    assert(x.drop_last() =~= a);
    assert(scan_words(x).0 == words(a));
    assert(scan_words(x).1.len() == 0);
    lemma_scan_after_break(x, b);
    assert(x + b =~= a + seq![c] + b);
    if scan_words(b).1.len() > 0 {
        assert((words(a) + scan_words(b).0).push(scan_words(b).1) =~= words(a) + scan_words(
            b,
        ).0.push(scan_words(b).1));
    }
}

/// A non-empty text without white space is a single word; a text of white space
/// alone has none.
pub proof fn law_words_of_one_run(t: Seq<char>)
    ensures
        t.len() > 0 && (forall|i: int| 0 <= i < t.len() ==> !is_white_space(#[trigger] t[i]))
            ==> words(t) == seq![t],
        (forall|i: int| 0 <= i < t.len() ==> is_white_space(#[trigger] t[i])) ==> words(t)
            == Seq::<Seq<char>>::empty(),
{
    if forall|i: int| 0 <= i < t.len() ==> !is_white_space(#[trigger] t[i]) {
        lemma_scan_without_white(t);
    }
    if forall|i: int| 0 <= i < t.len() ==> is_white_space(#[trigger] t[i]) {
        lemma_scan_all_white(t);
    }
}

proof fn lemma_scan_after_break(x: Seq<char>, b: Seq<char>)
    requires
        scan_words(x).1.len() == 0,
    ensures
        scan_words(x + b) == (scan_words(x).0 + scan_words(b).0, scan_words(b).1),
    decreases b.len(),
{
    if b.len() == 0 {
        assert(x + b =~= x);
        assert(scan_words(x).0 + Seq::<Seq<char>>::empty() =~= scan_words(x).0);
        assert(scan_words(x).1 =~= Seq::<char>::empty());
    } else {
        lemma_scan_after_break(x, b.drop_last());
        assert((x + b).drop_last() =~= x + b.drop_last());
        assert((x + b).last() == b.last());
        let d = scan_words(x).0;
        let (bd, bc) = scan_words(b.drop_last());
        if is_white_space(b.last()) && bc.len() > 0 {
            assert((d + bd).push(bc) =~= d + bd.push(bc));
        }
    }
}

proof fn lemma_scan_without_white(t: Seq<char>)
    requires
        forall|i: int| 0 <= i < t.len() ==> !is_white_space(#[trigger] t[i]),
    ensures
        scan_words(t) == (Seq::<Seq<char>>::empty(), t),
    decreases t.len(),
{
    if t.len() > 0 {
        assert(forall|i: int|
            0 <= i < t.drop_last().len() ==> t.drop_last()[i] == #[trigger] t[i]);
        lemma_scan_without_white(t.drop_last());
        assert(!is_white_space(t[t.len() - 1]));
        assert(t.drop_last().push(t.last()) =~= t);
    } else {
        assert(t =~= Seq::<char>::empty());
    }
}

proof fn lemma_scan_all_white(t: Seq<char>)
    requires
        forall|i: int| 0 <= i < t.len() ==> is_white_space(#[trigger] t[i]),
    ensures
        scan_words(t) == (Seq::<Seq<char>>::empty(), Seq::<char>::empty()),
    decreases t.len(),
{
    if t.len() > 0 {
        assert(forall|i: int|
            0 <= i < t.drop_last().len() ==> t.drop_last()[i] == #[trigger] t[i]);
        lemma_scan_all_white(t.drop_last());
        assert(is_white_space(t[t.len() - 1]));
    }
}

/// The decimal text of a number is made of the digits `0` to `9`, has no leading
/// zero, reads back as the number, and `u32::from_str` gives the number back.
pub proof fn law_decimal_text_reads_back(n: nat)
    ensures
        decimal_text(n).len() > 0,
        forall|i: int|
            0 <= i < decimal_text(n).len() ==> '0' <= #[trigger] decimal_text(n)[i] <= '9',
        decimal_text(n)[0] == '0' ==> n == 0 && decimal_text(n).len() == 1,
        decimal_value(decimal_text(n)) == n,
        n <= u32::MAX ==> parsed_u32(decimal_text(n)) == Ok::<u32, NumberError>(n as u32),
    decreases n,
{
    let t = decimal_text(n);
    if n < 10 {
        assert(digit_value(digit_char(n)) == n);
        assert(t.drop_last() =~= Seq::<char>::empty());
        assert(decimal_value(t) == decimal_value(t.drop_last()) * 10 + digit_value(t.last()));
    } else {
        law_decimal_text_reads_back(n / 10);
        let head = decimal_text(n / 10);
        assert(t == head.push(digit_char(n % 10)));
        assert(t.drop_last() =~= head);
        assert(digit_value(digit_char(n % 10)) == n % 10);
        assert(t[0] == head[0]);
        assert(decimal_value(t) == decimal_value(head) * 10 + n % 10);
    }
    assert(t[0] != '+');
    if n <= u32::MAX {
        assert forall|j: int|
            0 < j <= t.len() && all_decimal_digits(#[trigger] t.take(j)) implies decimal_value(
            t.take(j),
        ) <= u32::MAX by {
            lemma_prefix_value(t, j);
        }
    }
}

/// `u32::from_str` accepts exactly an optional `+` followed by one or more digits
/// `0` to `9` whose number fits a `u32`, and gives that number.
pub proof fn law_parse_u32_reads_digits(text: Seq<char>, digits: Seq<char>)
    ensures
        parsed_u32(text) matches Ok(v) ==> {
            let d = if text[0] == '+' {
                text.drop_first()
            } else {
                text
            };
            &&& d.len() > 0
            &&& forall|i: int| 0 <= i < d.len() ==> '0' <= #[trigger] d[i] <= '9'
            &&& decimal_value(d) == v
        },
        digits.len() > 0 && (forall|i: int| 0 <= i < digits.len() ==> '0' <= #[trigger] digits[i]
            <= '9') && decimal_value(digits) <= u32::MAX ==> parsed_u32(digits) == Ok::<
            u32,
            NumberError,
        >(decimal_value(digits) as u32) && parsed_u32(seq!['+'] + digits) == Ok::<
            u32,
            NumberError,
        >(decimal_value(digits) as u32),
{
    if parsed_u32(text) is Ok {
        let d = if text[0] == '+' {
            text.drop_first()
        } else {
            text
        };
        assert(d.take(d.len() as int) =~= d);
        assert(!overflows_u32(d));
    }
    if digits.len() > 0 && (forall|i: int| 0 <= i < digits.len() ==> '0' <= #[trigger] digits[i]
        <= '9') && decimal_value(digits) <= u32::MAX {
        assert forall|j: int|
            0 < j <= digits.len() && all_decimal_digits(#[trigger] digits.take(j)) implies decimal_value(
            digits.take(j),
        ) <= u32::MAX by {
            lemma_prefix_value(digits, j);
        }
        assert(!overflows_u32(digits));
        assert(digits[0] != '+');
        let signed = seq!['+'] + digits;
        assert(signed.drop_first() =~= digits);
        assert(signed[0] == '+');
    }
}

/// A prefix of decimal digits stands for no more than the whole.
proof fn lemma_prefix_value(s: Seq<char>, j: int)
    requires
        0 <= j <= s.len(),
    ensures
        decimal_value(s.take(j)) <= decimal_value(s),
    decreases s.len(),
{
    if j == s.len() {
        assert(s.take(j) =~= s);
    } else {
        lemma_prefix_value(s.drop_last(), j);
        assert(s.drop_last().take(j) =~= s.take(j));
    }
}

/// The single-character text of the decimal digit `d`.
fn digit_str(d: u32) -> (text: &'static str)
    requires
        d < 10,
    ensures
        text@ == seq![digit_char(d as nat)],
{
    let digits: &'static str = "0123456789";
    proof {
        reveal_strlit("0123456789");
    }
    let text: &'static str = digits.substring_char(d as usize, (d + 1) as usize);
    assert(text@ =~= seq![digit_char(d as nat)]);
    text
}

/// Appends the decimal text of `n` to `text`, as `u32::to_string` writes it.
pub fn push_decimal(text: &mut String, n: u32)
    ensures
        final(text)@ == old(text)@ + decimal_text(n as nat),
    decreases n,
{
    if n >= 10 {
        push_decimal(text, n / 10);
    }
    text.append(digit_str(n % 10));
    proof {
        if n >= 10 {
            assert(decimal_text(n as nat) == decimal_text((n / 10) as nat).push(
                digit_char((n % 10) as nat),
            ));
        }
    }
    assert(text@ =~= old(text)@ + decimal_text(n as nat));
}

} // verus!
