//! The text layer of the coordinate list: lines, blank-separated words and
//! decimal numbers, as functions on bytes.

use vstd::prelude::*;

verus! {

/// The line feed, which ends a line.
pub const LINE_FEED: u8 = 10;

/// The blank written between the two numbers of a line.
pub const BLANK: u8 = 32;

/// The digit zero.
pub const ZERO: u8 = 48;

/// The plus sign, which may stand before a number.
pub const PLUS: u8 = 43;

/// A class of bytes, by which a text is cut into runs.
#[derive(Clone, Copy, Debug, PartialEq, Eq, Structural)]
pub enum ByteClass {
    /// White space: the blank, and the bytes from horizontal tab to carriage return.
    Space,
    /// Every byte that is not white space.
    Word,
    /// Every byte but the line feed.
    Line,
}

/// White space: the blank, horizontal tab, line feed, vertical tab, form feed
/// and carriage return.
pub open spec fn is_space(b: u8) -> bool {
    b == BLANK || (9 <= b && b <= 13)
}

/// A decimal digit.
pub open spec fn is_digit(b: u8) -> bool {
    ZERO <= b && b <= 57
}

/// `b` belongs to `class`.
pub open spec fn in_class(class: ByteClass, b: u8) -> bool {
    match class {
        ByteClass::Space => is_space(b),
        ByteClass::Word => !is_space(b),
        ByteClass::Line => b != LINE_FEED,
    }
}

/// The length of the longest prefix of `s` made of bytes of `class`.
pub open spec fn leading(s: Seq<u8>, class: ByteClass) -> nat
    decreases s.len(),
{
    if s.len() == 0 || !in_class(class, s[0]) {
        0
    } else {
        1 + leading(s.drop_first(), class)
    }
}

/// The leading run is a prefix: its bytes belong to the class, and the byte
/// after it, if there is one, does not.
pub proof fn lemma_leading_is_run(s: Seq<u8>, class: ByteClass)
    ensures
        leading(s, class) <= s.len(),
        forall|i: int| 0 <= i < leading(s, class) ==> in_class(class, #[trigger] s[i]),
        leading(s, class) < s.len() ==> !in_class(class, s[leading(s, class) as int]),
    decreases s.len(),
{
    if s.len() > 0 && in_class(class, s[0]) {
        let t = s.drop_first();
        lemma_leading_is_run(t, class);
        assert forall|i: int| 0 <= i < leading(s, class) implies in_class(
            class,
            #[trigger] s[i],
        ) by {
            if i > 0 {
                assert(s[i] == t[i - 1]);
            }
        }
    }
}

/// A prefix of bytes of the class that ends where the text ends, or before a
/// byte outside the class, is the leading run.
pub proof fn lemma_run_is_leading(s: Seq<u8>, class: ByteClass, k: int)
    requires
        0 <= k <= s.len(),
        forall|i: int| 0 <= i < k ==> in_class(class, #[trigger] s[i]),
        k < s.len() ==> !in_class(class, s[k]),
    ensures
        leading(s, class) == k,
    decreases s.len(),
{
    if k > 0 {
        let t = s.drop_first();
        assert forall|i: int| 0 <= i < k - 1 implies in_class(class, #[trigger] t[i]) by {
            assert(t[i] == s[i + 1]);
        }
        lemma_run_is_leading(t, class, k - 1);
    }
}

/// Tells whether `b` belongs to `class`.
pub fn belongs(class: ByteClass, b: u8) -> (yes: bool)
    ensures
        yes == in_class(class, b),
{
    match class {
        ByteClass::Space => b == BLANK || (9 <= b && b <= 13),
        ByteClass::Word => !(b == BLANK || (9 <= b && b <= 13)),
        ByteClass::Line => b != LINE_FEED,
    }
}

/// Runs over the bytes of `class` that start at `from`, and returns where the
/// run ends.
pub fn scan(text: &[u8], from: usize, class: ByteClass) -> (to: usize)
    requires
        from <= text@.len(),
    ensures
        to == from + leading(text@.skip(from as int), class),
        from <= to <= text@.len(),
{
    let mut to: usize = from;
    while to < text.len() && belongs(class, text[to])
        invariant
            from <= to <= text@.len(),
            forall|i: int| from <= i < to ==> in_class(class, #[trigger] text@[i]),
        decreases text@.len() - to,
    {
        to += 1;
    }
    proof {
        let rest = text@.skip(from as int);
        assert forall|i: int| 0 <= i < to - from implies in_class(class, #[trigger] rest[i]) by {
            assert(rest[i] == text@[from + i]);
        }
        lemma_run_is_leading(rest, class, to - from);
    }
    to
}

/// The lines of a text. A line ends before a line feed or where the text
/// ends; a text that ends in a line feed has no empty line after it, and the
/// empty text has no line.
pub open spec fn split_lines(s: Seq<u8>) -> Seq<Seq<u8>>
    decreases s.len(),
{
    if s.len() == 0 {
        Seq::empty()
    } else {
        let k = leading(s, ByteClass::Line);
        if k >= s.len() {
            seq![s]
        } else {
            seq![s.take(k as int)] + split_lines(s.skip(k + 1 as int))
        }
    }
}

/// The words of a line: its longest runs of bytes that are not white space,
/// from left to right.
pub open spec fn words(s: Seq<u8>) -> Seq<Seq<u8>>
    decreases s.len(),
    via words_decreases
{
    if s.len() == 0 {
        Seq::empty()
    } else if is_space(s[0]) {
        words(s.drop_first())
    } else {
        let k = leading(s, ByteClass::Word);
        seq![s.take(k as int)] + words(s.skip(k as int))
    }
}

#[via_fn]
proof fn words_decreases(s: Seq<u8>) {
    lemma_leading_is_run(s, ByteClass::Word);
}

/// After its leading white space, a line holds the words that it held with it.
pub proof fn lemma_words_skip_space(s: Seq<u8>)
    ensures
        words(s) == words(s.skip(leading(s, ByteClass::Space) as int)),
    decreases s.len(),
{
    if s.len() == 0 || !is_space(s[0]) {
        assert(s.skip(0) =~= s);
    } else {
        let t = s.drop_first();
        lemma_words_skip_space(t);
        lemma_leading_is_run(t, ByteClass::Space);
        assert(t.skip(leading(t, ByteClass::Space) as int) =~= s.skip(
            leading(s, ByteClass::Space) as int,
        ));
    }
}

/// The value of a sequence of digits read as a decimal number.
pub open spec fn digits_value(s: Seq<u8>) -> nat
    decreases s.len(),
{
    if s.len() == 0 {
        0
    } else {
        digits_value(s.drop_last()) * 10 + (s.last() - ZERO) as nat
    }
}

/// Every byte of `s` is a decimal digit.
pub open spec fn all_digits(s: Seq<u8>) -> bool {
    forall|i: int| 0 <= i < s.len() ==> is_digit(#[trigger] s[i])
}

/// The number that a word stands for: one or more decimal digits, with or
/// without a plus sign before them. Any other word stands for no number. The
/// value has no upper limit.
pub open spec fn number(word: Seq<u8>) -> Option<nat> {
    let digits = if word.len() > 0 && word[0] == PLUS {
        word.drop_first()
    } else {
        word
    };
    if digits.len() > 0 && all_digits(digits) {
        Some(digits_value(digits))
    } else {
        None
    }
}

/// `v` where it lies below `cap`, else `cap`.
pub open spec fn capped(v: nat, cap: nat) -> nat {
    if v < cap {
        v
    } else {
        cap
    }
}

/// Reads a word as a number. The result is `None` where the word stands for no
/// number; else it is the value where that lies below `cap`, and `cap` for
/// every value from `cap` upwards, however large.
pub fn parse_number(word: &[u8], cap: usize) -> (r: Option<usize>)
    ensures
        r == match number(word@) {
            Some(v) => Some(capped(v, cap as nat) as usize),
            None => None,
        },
{
    let len: usize = word.len();
    let start: usize = if len > 0 && word[0] == PLUS {
        1
    } else {
        0
    };
    let ghost digits = word@.skip(start as int);
    proof {
        if start == 0 {
            assert(digits =~= word@);
        }
    }
    if start == len {
        return None;
    }
    let mut value: usize = 0;
    let mut i: usize = start;
    while i < len
        invariant
            start <= i <= len,
            len == word@.len(),
            digits == word@.skip(start as int),
            number(word@) == if all_digits(digits) {
                Some(digits_value(digits))
            } else {
                None
            },
            all_digits(digits.take(i - start)),
            value == capped(digits_value(digits.take(i - start)), cap as nat),
        decreases len - i,
    {
        let b: u8 = word[i];
        if !(ZERO <= b && b <= 57) {
            assert(!is_digit(digits[i - start]));
            return None;
        }
        let digit: usize = (b - ZERO) as usize;
        let ghost before = digits.take(i - start);
        let ghost after = digits.take(i - start + 1);
        proof {
            assert(after.drop_last() =~= before);
            assert forall|j: int| 0 <= j < after.len() implies is_digit(#[trigger] after[j]) by {
                if j < before.len() {
                    assert(after[j] == before[j]);
                }
            }
        }
        value = if value >= cap {
            cap
        } else {
            match value.checked_mul(10) {
                Some(tens) => match tens.checked_add(digit) {
                    Some(sum) => if sum < cap {
                        sum
                    } else {
                        cap
                    },
                    None => cap,
                },
                None => cap,
            }
        };
        i += 1;
    }
    assert(digits.take(len - start) =~= digits);
    Some(value)
}

/// The decimal digits of `v`, without a sign and without leading zeros.
pub open spec fn decimal(v: nat) -> Seq<u8>
    decreases v,
{
    if v < 10 {
        seq![(ZERO + v) as u8]
    } else {
        decimal(v / 10).push((ZERO + v % 10) as u8)
    }
}

/// Appends the decimal digits of `v` to `out`.
pub fn write_decimal(out: &mut Vec<u8>, v: usize)
    ensures
        final(out)@ == old(out)@ + decimal(v as nat),
    decreases v,
{
    if v < 10 {
        out.push(ZERO + (v as u8));
    } else {
        write_decimal(out, v / 10);
        out.push(ZERO + ((v % 10) as u8));
    }
}

/// A number written in decimal is one word of digits: not empty, and free of
/// white space, line feeds and signs.
pub proof fn lemma_decimal_digits(v: nat)
    ensures
        decimal(v).len() >= 1,
        all_digits(decimal(v)),
    decreases v,
{
    if v >= 10 {
        lemma_decimal_digits(v / 10);
    }
}

/// A number written in decimal and read again is the same number.
pub proof fn lemma_number_of_decimal(v: nat)
    ensures
        number(decimal(v)) == Some(v),
{
    lemma_decimal_digits(v);
    lemma_value_of_decimal(v);
}

/// The digits of `v` have the value `v`.
pub proof fn lemma_value_of_decimal(v: nat)
    ensures
        digits_value(decimal(v)) == v,
    decreases v,
{
    if v < 10 {
        let s = decimal(v);
        assert(digits_value(s.drop_last()) == 0);
    } else {
        lemma_value_of_decimal(v / 10);
        let s = decimal(v);
        assert(s.drop_last() =~= decimal(v / 10));
    }
}

} // verus!
