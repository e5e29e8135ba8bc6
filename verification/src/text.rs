//! Small verified operations on text.

use vstd::prelude::*;
use vstd::string::StrSliceExecFns;
use vstd::string::StringExecFns;

verus! {

/// The decimal digit for a value below ten.
pub open spec fn digit_char(d: nat) -> char {
    if d == 0 {
        '0'
    } else if d == 1 {
        '1'
    } else if d == 2 {
        '2'
    } else if d == 3 {
        '3'
    } else if d == 4 {
        '4'
    } else if d == 5 {
        '5'
    } else if d == 6 {
        '6'
    } else if d == 7 {
        '7'
    } else if d == 8 {
        '8'
    } else {
        '9'
    }
}

/// The decimal numeral of `n`, without leading zeros; zero is "0".
pub open spec fn decimal(n: nat) -> Seq<char>
    decreases n,
{
    if n < 10 {
        seq![digit_char(n)]
    } else {
        decimal(n / 10).push(digit_char(n % 10))
    }
}

/// The value of a decimal digit; zero for any other character.
pub open spec fn digit_value(c: char) -> nat {
    if c == '1' {
        1
    } else if c == '2' {
        2
    } else if c == '3' {
        3
    } else if c == '4' {
        4
    } else if c == '5' {
        5
    } else if c == '6' {
        6
    } else if c == '7' {
        7
    } else if c == '8' {
        8
    } else if c == '9' {
        9
    } else {
        0
    }
}

/// The number that a decimal numeral spells.
pub open spec fn decimal_value(s: Seq<char>) -> nat
    decreases s.len(),
{
    if s.len() == 0 {
        0
    } else {
        decimal_value(s.drop_last()) * 10 + digit_value(s.last())
    }
}

/// A decimal numeral is not empty, holds digits only, and spells its number.
pub proof fn lemma_decimal(n: nat)
    ensures
        decimal(n).len() >= 1,
        forall|i: int|
            0 <= i < decimal(n).len() ==> digit_char(digit_value(#[trigger] decimal(n)[i]))
                == decimal(n)[i],
        decimal_value(decimal(n)) == n,
    decreases n,
{
    if n < 10 {
        assert(decimal(n).drop_last() =~= Seq::<char>::empty());
        assert(decimal_value(decimal(n).drop_last()) == 0);
    } else {
        lemma_decimal(n / 10);
        assert(decimal(n).drop_last() =~= decimal(n / 10));
        assert forall|i: int| 0 <= i < decimal(n).len() implies digit_char(
            digit_value(#[trigger] decimal(n)[i]),
        ) == decimal(n)[i] by {
            if i < decimal(n / 10).len() {
                assert(decimal(n)[i] == decimal(n / 10)[i]);
            }
        }
    }
}

/// Different numbers have different decimal numerals.
pub proof fn lemma_decimal_injective(a: nat, b: nat)
    requires
        decimal(a) == decimal(b),
    ensures
        a == b,
{
    lemma_decimal(a);
    lemma_decimal(b);
}

/// `String::push` appends one character to the end of the string.
pub assume_specification[ String::push ](s: &mut String, c: char)
    ensures
        final(s)@ == old(s)@.push(c),
;

fn digit_of(d: u64) -> (c: char)
    requires
        d < 10,
    ensures
        c == digit_char(d as nat),
{
    if d == 0 {
        '0'
    } else if d == 1 {
        '1'
    } else if d == 2 {
        '2'
    } else if d == 3 {
        '3'
    } else if d == 4 {
        '4'
    } else if d == 5 {
        '5'
    } else if d == 6 {
        '6'
    } else if d == 7 {
        '7'
    } else if d == 8 {
        '8'
    } else {
        '9'
    }
}

/// Appends the decimal numeral of `n` to `out`.
pub fn push_decimal(out: &mut String, n: u64)
    ensures
        final(out)@ == old(out)@ + decimal(n as nat),
    decreases n,
{
    if n >= 10 {
        push_decimal(out, n / 10);
    }
    out.push(digit_of(n % 10));
    proof {
        assert(out@ =~= old(out)@ + decimal(n as nat));
    }
}

/// Appends `tail` to `head`.
pub fn join(head: &str, tail: &str) -> (res: String)
    ensures
        res@ == head@ + tail@,
{
    let mut res = String::from_str(head);
    res.append(tail);
    res
}

/// Whether two texts are the same.
pub fn same_text(a: &str, b: &str) -> (res: bool)
    ensures
        res == (a@ == b@),
{
    let left = String::from_str(a);
    let right = String::from_str(b);
    left == right
}

/// Where the part of `s` after its last `sep` starts: just behind that
/// `sep`, or at 0 where `s` holds none.
pub open spec fn last_segment_start(s: Seq<char>, sep: char) -> int
    decreases s.len(),
{
    if s.len() == 0 {
        0
    } else if s.last() == sep {
        s.len() as int
    } else {
        last_segment_start(s.drop_last(), sep)
    }
}

/// The part of `s` after its last `sep`; all of `s` where it holds none.
pub open spec fn last_segment(s: Seq<char>, sep: char) -> Seq<char> {
    s.skip(last_segment_start(s, sep))
}

/// Where the first `sep` of `s` stands; the length of `s` where it holds
/// none.
pub open spec fn first_segment_end(s: Seq<char>, sep: char) -> int
    decreases s.len(),
{
    if s.len() == 0 {
        0
    } else if s[0] == sep {
        0
    } else {
        1 + first_segment_end(s.drop_first(), sep)
    }
}

/// The part of `s` before its first `sep`; all of `s` where it holds none.
pub open spec fn first_segment(s: Seq<char>, sep: char) -> Seq<char> {
    s.take(first_segment_end(s, sep))
}

/// The start of the last segment lies within the text.
pub proof fn lemma_last_segment_start_bounds(s: Seq<char>, sep: char)
    ensures
        0 <= last_segment_start(s, sep) <= s.len(),
    decreases s.len(),
{
    if s.len() > 0 && s.last() != sep {
        lemma_last_segment_start_bounds(s.drop_last(), sep);
    }
}

/// The last segment holds no separator, and a separator stands right before
/// it unless it is the whole text.
pub proof fn lemma_last_segment_is_clean(s: Seq<char>, sep: char)
    ensures
        forall|i: int| last_segment_start(s, sep) <= i < s.len() ==> s[i] != sep,
        last_segment_start(s, sep) > 0 ==> s[last_segment_start(s, sep) - 1] == sep,
    decreases s.len(),
{
    if s.len() > 0 && s.last() != sep {
        let init = s.drop_last();
        lemma_last_segment_is_clean(init, sep);
        lemma_last_segment_start_bounds(init, sep);
        assert forall|i: int| last_segment_start(s, sep) <= i < s.len() implies s[i] != sep by {
            if i < init.len() {
                assert(init[i] == s[i]);
            }
        }
        if last_segment_start(s, sep) > 0 {
            assert(init[last_segment_start(s, sep) - 1] == s[last_segment_start(s, sep) - 1]);
        }
    }
}

proof fn lemma_first_segment_end(s: Seq<char>, sep: char, i: int)
    requires
        0 <= i <= s.len(),
        forall|j: int| 0 <= j < i ==> s[j] != sep,
        i == s.len() || s[i] == sep,
    ensures
        first_segment_end(s, sep) == i,
    decreases s.len(),
{
    if i > 0 {
        lemma_first_segment_end(s.drop_first(), sep, i - 1);
    }
}

/// The part of `text` after its last `sep`.
pub fn last_segment_of(text: &str, sep: char) -> (res: String)
    ensures
        res@ == last_segment(text@, sep),
{
    let len = text.unicode_len();
    let mut start: usize = 0;
    let mut i: usize = 0;
    proof {
        assert(text@.take(0) =~= Seq::<char>::empty());
    }
    while i < len
        invariant
            0 <= i <= len,
            len == text@.len(),
            0 <= start <= i,
            start == last_segment_start(text@.take(i as int), sep),
        decreases len - i,
    {
        let c = text.get_char(i);
        proof {
            assert(text@.take(i + 1).drop_last() =~= text@.take(i as int));
            assert(text@.take(i + 1).last() == text@[i as int]);
        }
        if c == sep {
            start = i + 1;
        }
        i = i + 1;
    }
    proof {
        assert(text@.take(len as int) =~= text@);
        assert(text@.subrange(start as int, len as int) =~= text@.skip(start as int));
    }
    String::from_str(text.substring_char(start, len))
}

/// The part of `text` before its first `sep`.
pub fn first_segment_of(text: &str, sep: char) -> (res: String)
    ensures
        res@ == first_segment(text@, sep),
{
    let len = text.unicode_len();
    let mut i: usize = 0;
    while i < len && text.get_char(i) != sep
        invariant
            0 <= i <= len,
            len == text@.len(),
            forall|j: int| 0 <= j < i ==> text@[j] != sep,
        decreases len - i,
    {
        i = i + 1;
    }
    proof {
        lemma_first_segment_end(text@, sep, i as int);
        assert(text@.subrange(0, i as int) =~= text@.take(i as int));
    }
    String::from_str(text.substring_char(0, i))
}

} // verus!
