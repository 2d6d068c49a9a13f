//! Numbers and table cells as text.

use vstd::prelude::*;

verus! {

/// The digit of value `d` in a base of at most 16, in lower case.
pub open spec fn digit(d: nat) -> char {
    if d < 10 {
        (48 + d) as char
    } else {
        (87 + d) as char
    }
}

/// `n` written in the given base, without leading zeros.
pub open spec fn numeral(n: nat, base: nat) -> Seq<char>
    decreases n,
{
    if n < base || base < 2 {
        seq![digit(n)]
    } else {
        proof {
            assert(n / base < n) by (nonlinear_arith)
                requires
                    base >= 2,
                    n >= base,
            ;
        }
        numeral(n / base, base).push(digit(n % base))
    }
}

/// `n` in decimal.
pub open spec fn decimal(n: nat) -> Seq<char> {
    numeral(n, 10)
}

/// `n` in decimal, with a sign where it is negative.
pub open spec fn signed_decimal(n: int) -> Seq<char> {
    if n < 0 {
        seq!['-'] + decimal((-n) as nat)
    } else {
        decimal(n as nat)
    }
}

/// `n` in hexadecimal, in lower case.
pub open spec fn hex(n: nat) -> Seq<char> {
    numeral(n, 16)
}

/// `c`, `n` times.
pub open spec fn repeated(c: char, n: nat) -> Seq<char> {
    Seq::new(n, |i: int| c)
}

/// `text` followed by as many spaces as it falls short of `width`.
pub open spec fn left_aligned(text: Seq<char>, width: nat) -> Seq<char> {
    text + repeated(' ', if text.len() < width { (width - text.len()) as nat } else { 0 })
}

/// As many spaces as `text` falls short of `width`, followed by `text`.
pub open spec fn right_aligned(text: Seq<char>, width: nat) -> Seq<char> {
    repeated(' ', if text.len() < width { (width - text.len()) as nat } else { 0 }) + text
}

/// The parts one after another, with the separator between them.
pub open spec fn joined(parts: Seq<Seq<char>>, separator: Seq<char>) -> Seq<char>
    decreases parts.len(),
{
    if parts.len() == 0 {
        seq![]
    } else if parts.len() == 1 {
        parts[0]
    } else {
        joined(parts.drop_last(), separator) + separator + parts.last()
    }
}

/// What a digit stands for.
pub open spec fn digit_value(c: char) -> int {
    if c <= '9' {
        c as int - 48
    } else {
        c as int - 87
    }
}

/// What digits stand for in the given base.
pub open spec fn value_of(digits: Seq<char>, base: nat) -> int
    decreases digits.len(),
{
    if digits.len() == 0 {
        0
    } else {
        value_of(digits.drop_last(), base) * base + digit_value(digits.last())
    }
}

/// A number can be read back from its digits.
pub proof fn law_numeral_reads_back(n: nat, base: nat)
    requires
        2 <= base <= 16,
    ensures
        value_of(numeral(n, base), base) == n,
    decreases n,
{
    reveal_with_fuel(value_of, 2);
    if n < base {
        assert(numeral(n, base).drop_last() =~= seq![]);
        assert(value_of(Seq::<char>::empty(), base) * base == 0) by (nonlinear_arith)
            requires
                value_of(Seq::<char>::empty(), base) == 0,
        ;
    } else {
        assert(n / base < n && n == (n / base) * base + n % base && n % base < base)
            by (nonlinear_arith)
            requires
                base >= 2,
                n >= base,
        ;
        law_numeral_reads_back(n / base, base);
        assert(numeral(n, base).drop_last() =~= numeral(n / base, base));
    }
}

/// Whether Unicode gives a character the property `White_Space`.
pub open spec fn is_white_space(c: char) -> bool {
    ||| '\u{9}' <= c <= '\u{d}'
    ||| c == ' '
    ||| c == '\u{85}'
    ||| c == '\u{a0}'
    ||| c == '\u{1680}'
    ||| '\u{2000}' <= c <= '\u{200a}'
    ||| c == '\u{2028}'
    ||| c == '\u{2029}'
    ||| c == '\u{202f}'
    ||| c == '\u{205f}'
    ||| c == '\u{3000}'
}

/// A text without the white space at both ends.
pub open spec fn trimmed(text: Seq<char>) -> Seq<char>
    decreases text.len(),
{
    if text.len() > 0 && is_white_space(text.first()) {
        trimmed(text.drop_first())
    } else if text.len() > 0 && is_white_space(text.last()) {
        trimmed(text.drop_last())
    } else {
        text
    }
}

/// `str::trim` takes away the white space at both ends.
pub assume_specification[ str::trim ](text: &str) -> (rest: &str)
    ensures
        rest@ == trimmed(text@),
;

/// Neither end of a trimmed text is white space.
pub proof fn lemma_trimmed(text: Seq<char>)
    ensures
        trimmed(text).len() > 0 ==> !is_white_space(trimmed(text).first()) && !is_white_space(
            trimmed(text).last(),
        ),
    decreases text.len(),
{
    if text.len() > 0 && is_white_space(text.first()) {
        lemma_trimmed(text.drop_first());
    } else if text.len() > 0 && is_white_space(text.last()) {
        lemma_trimmed(text.drop_last());
    }
}

/// The lowest `width` decimal digits of `n`.
pub open spec fn low_digits(n: nat, width: nat) -> Seq<char>
    decreases width,
{
    if width == 0 {
        seq![]
    } else {
        low_digits(n / 10, (width - 1) as nat).push(digit(n % 10))
    }
}

/// Digits without the zeros at their end.
pub open spec fn without_trailing_zeros(digits: Seq<char>) -> Seq<char>
    decreases digits.len(),
{
    if digits.len() > 0 && digits.last() == '0' {
        without_trailing_zeros(digits.drop_last())
    } else {
        digits
    }
}

/// Where `c` stands last among the first `n` characters; -1 where it does not.
pub open spec fn last_index(text: Seq<char>, c: char, n: int) -> int
    decreases n,
{
    if n <= 0 {
        -1
    } else if text[n - 1] == c {
        n - 1
    } else {
        last_index(text, c, n - 1)
    }
}

/// Where `c` stands first from `from` on; the length where it does not.
pub open spec fn first_index(text: Seq<char>, c: char, from: int) -> int
    decreases text.len() - from,
{
    if from >= text.len() {
        text.len() as int
    } else if text[from] == c {
        from
    } else {
        first_index(text, c, from + 1)
    }
}

/// What follows the first `n` characters does not matter to where `c` stands last in them.
pub proof fn lemma_last_index_prefix(text: Seq<char>, c: char, n: int)
    requires
        0 <= n <= text.len(),
    ensures
        last_index(text, c, n) == last_index(text.take(n), c, n),
        -1 <= last_index(text, c, n) < n || n == 0 && last_index(text, c, n) == -1,
    decreases n,
{
    if n > 0 {
        lemma_last_index_prefix(text, c, n - 1);
        lemma_last_index_prefix(text.take(n), c, n - 1);
        assert(text.take(n).take(n - 1) =~= text.take(n - 1));
    }
}

/// `String::push` puts the character at the end.
pub assume_specification[ String::push ](text: &mut String, c: char)
    ensures
        final(text)@ == old(text)@.push(c),
;

fn push_digit(out: &mut String, d: u64)
    requires
        d < 16,
    ensures
        final(out)@ == old(out)@.push(digit(d as nat)),
{
    let code: u8 = if d < 10 {
        48 + d as u8
    } else {
        87 + d as u8
    };
    out.push(code as char);
}

fn push_numeral(out: &mut String, n: u64, base: u64)
    requires
        2 <= base <= 16,
    ensures
        final(out)@ == old(out)@ + numeral(n as nat, base as nat),
    decreases n,
{
    if n < base {
        push_digit(out, n);
        assert(out@ =~= old(out)@ + numeral(n as nat, base as nat));
    } else {
        assert(n / base < n) by (nonlinear_arith)
            requires
                base >= 2,
                n >= base,
        ;
        push_numeral(out, n / base, base);
        push_digit(out, n % base);
        assert(out@ =~= old(out)@ + numeral(n as nat, base as nat));
    }
}

/// Appends `n` in decimal.
pub fn push_decimal(out: &mut String, n: u64)
    ensures
        final(out)@ == old(out)@ + decimal(n as nat),
{
    push_numeral(out, n, 10);
}

/// Appends `n` in hexadecimal.
pub fn push_hex(out: &mut String, n: u64)
    ensures
        final(out)@ == old(out)@ + hex(n as nat),
{
    push_numeral(out, n, 16);
}

/// Appends `n` in decimal, with a sign where it is negative.
pub fn push_signed_decimal(out: &mut String, n: i32)
    ensures
        final(out)@ == old(out)@ + signed_decimal(n as int),
{
    if n < 0 {
        out.push('-');
        push_decimal(out, (-(n as i64)) as u64);
        assert(out@ =~= old(out)@ + signed_decimal(n as int));
    } else {
        push_decimal(out, n as u64);
    }
}

/// Appends `c`, `n` times.
pub fn push_repeated(out: &mut String, c: char, n: usize)
    ensures
        final(out)@ == old(out)@ + repeated(c, n as nat),
{
    let mut i: usize = 0;
    assert(out@ =~= old(out)@ + repeated(c, 0));
    while i < n
        invariant
            i <= n,
            out@ == old(out)@ + repeated(c, i as nat),
        decreases n - i,
    {
        out.push(c);
        i += 1;
        assert(out@ =~= old(out)@ + repeated(c, i as nat));
    }
}

/// Appends `text`, filled up with spaces behind it.
pub fn push_left_aligned(out: &mut String, text: &str, width: usize)
    ensures
        final(out)@ == old(out)@ + left_aligned(text@, width as nat),
{
    let len: usize = text.unicode_len();
    out.append(text);
    if len < width {
        push_repeated(out, ' ', width - len);
    }
    assert(out@ =~= old(out)@ + left_aligned(text@, width as nat));
}

/// Appends `text`, filled up with spaces in front of it.
pub fn push_right_aligned(out: &mut String, text: &str, width: usize)
    ensures
        final(out)@ == old(out)@ + right_aligned(text@, width as nat),
{
    let len: usize = text.unicode_len();
    if len < width {
        push_repeated(out, ' ', width - len);
    }
    out.append(text);
    assert(out@ =~= old(out)@ + right_aligned(text@, width as nat));
}

/// A text of its own.
pub fn owned(text: &str) -> (string: String)
    ensures
        string@ == text@,
{
    let mut string = String::new();
    string.append(text);
    assert(string@ =~= text@);
    string
}

/// The characters of a text.
pub fn chars_of(text: &str) -> (chars: Vec<char>)
    ensures
        chars@ == text@,
{
    let mut chars: Vec<char> = Vec::new();
    for c in it: text.chars()
        invariant
            it.seq() == text@,
            chars@ == text@.take(it.index()),
    {
        chars.push(c);
        assert(chars@ =~= text@.take(it.index() + 1));
    }
    assert(chars@ =~= text@);
    chars
}

/// Where `c` stands last.
pub fn find_last(text: &Vec<char>, c: char) -> (index: Option<usize>)
    ensures
        match index {
            Some(i) => i < text@.len() && i == last_index(text@, c, text@.len() as int),
            None => last_index(text@, c, text@.len() as int) == -1,
        },
{
    let mut n: usize = text.len();
    while n > 0
        invariant
            n <= text@.len(),
            last_index(text@, c, n as int) == last_index(text@, c, text@.len() as int),
        decreases n,
    {
        if text[n - 1] == c {
            return Some(n - 1);
        }
        n -= 1;
    }
    None
}

/// Where `c` stands first; the length where it does not.
pub fn find_first(text: &Vec<char>, c: char) -> (index: usize)
    ensures
        index <= text@.len(),
        index == first_index(text@, c, 0),
{
    let mut i: usize = 0;
    while i < text.len()
        invariant
            i <= text@.len(),
            first_index(text@, c, i as int) == first_index(text@, c, 0),
        decreases text@.len() - i,
    {
        if text[i] == c {
            return i;
        }
        i += 1;
    }
    i
}

/// Appends the characters from `from` to before `to`.
pub fn push_chars(out: &mut String, text: &Vec<char>, from: usize, to: usize)
    requires
        from <= to <= text@.len(),
    ensures
        final(out)@ == old(out)@ + text@.subrange(from as int, to as int),
{
    let mut i: usize = from;
    assert(out@ =~= old(out)@ + text@.subrange(from as int, from as int));
    while i < to
        invariant
            from <= i <= to <= text@.len(),
            out@ == old(out)@ + text@.subrange(from as int, i as int),
        decreases to - i,
    {
        out.push(text[i]);
        i += 1;
        assert(out@ =~= old(out)@ + text@.subrange(from as int, i as int));
    }
}

/// Whether a character is a digit in a base of at most 16, in lower case.
pub open spec fn is_digit(c: char, base: nat) -> bool {
    ||| '0' <= c <= '9' && c as int - 48 < base
    ||| 'a' <= c <= 'f' && c as int - 87 < base
}

/// A numeral is made of digits of its base, and does not begin with a zero unless it is one.
pub proof fn law_numeral_is_made_of_digits(n: nat, base: nat)
    requires
        2 <= base <= 16,
    ensures
        numeral(n, base).len() > 0,
        forall|i: int| 0 <= i < numeral(n, base).len() ==> is_digit(#[trigger] numeral(n, base)[i], base),
        numeral(n, base).first() == '0' ==> n == 0,
        n < base ==> numeral(n, base).len() == 1,
    decreases n,
{
    if n >= base {
        assert(0 < n / base < n && n % base < base) by (nonlinear_arith)
            requires
                base >= 2,
                n >= base,
        ;
        law_numeral_is_made_of_digits(n / base, base);
        assert(numeral(n, base).first() == numeral(n / base, base).first());
    }
}

/// Decimal and hexadecimal are numerals in base 10 and 16 that can be read back, and no two
/// numbers have the same.
pub proof fn law_decimal_and_hex_read_back(n: nat)
    ensures
        value_of(decimal(n), 10) == n,
        value_of(hex(n), 16) == n,
        forall|i: int| 0 <= i < decimal(n).len() ==> is_digit(#[trigger] decimal(n)[i], 10),
        forall|i: int| 0 <= i < hex(n).len() ==> is_digit(#[trigger] hex(n)[i], 16),
        decimal(n).first() == '0' ==> n == 0,
        hex(n).first() == '0' ==> n == 0,
        n < 10 ==> decimal(n).len() == 1,
        n < 16 ==> hex(n).len() == 1,
{
    law_numeral_reads_back(n, 10);
    law_numeral_reads_back(n, 16);
    law_numeral_is_made_of_digits(n, 10);
    law_numeral_is_made_of_digits(n, 16);
}

/// A number with a sign is its decimal, behind a minus where it is below zero.
pub proof fn law_signed_decimal_reads_back(n: int)
    ensures
        n >= 0 ==> signed_decimal(n) == decimal(n as nat),
        n < 0 ==> signed_decimal(n).first() == '-' && value_of(signed_decimal(n).drop_first(), 10)
            == -n,
{
    if n < 0 {
        law_numeral_reads_back((-n) as nat, 10);
        assert(signed_decimal(n).drop_first() =~= decimal((-n) as nat));
    }
}

/// Text that is aligned fills its width, and more only where it is longer itself; it stands
/// whole at its end, and the rest is spaces.
pub proof fn law_alignment_fills_with_spaces(text: Seq<char>, width: nat)
    ensures
        ({
            let left = left_aligned(text, width);
            let right = right_aligned(text, width);
            let filled = if text.len() < width {
                width
            } else {
                text.len()
            };
            &&& left.len() == filled
            &&& right.len() == filled
            &&& left.take(text.len() as int) == text
            &&& right.skip(filled - text.len()) == text
            &&& forall|i: int| text.len() <= i < filled ==> #[trigger] left[i] == ' '
            &&& forall|i: int| 0 <= i < filled - text.len() ==> #[trigger] right[i] == ' '
        }),
{
    let left = left_aligned(text, width);
    let right = right_aligned(text, width);
    assert(left.take(text.len() as int) =~= text);
    assert(right.skip(right.len() - text.len()) =~= text);
}

/// A character repeated is so many of it.
pub proof fn law_repeated_is_so_many(c: char, n: nat)
    ensures
        repeated(c, n).len() == n,
        forall|i: int| 0 <= i < n ==> #[trigger] repeated(c, n)[i] == c,
{
}

/// Texts that are joined stand one after the other, each whole, with the separator between
/// two of them and nowhere else.
pub proof fn law_joined_from_the_front(parts: Seq<Seq<char>>, separator: Seq<char>)
    ensures
        parts.len() == 0 ==> joined(parts, separator) == Seq::<char>::empty(),
        parts.len() == 1 ==> joined(parts, separator) == parts[0],
        parts.len() >= 2 ==> joined(parts, separator) == parts[0] + separator + joined(
            parts.drop_first(),
            separator,
        ),
    decreases parts.len(),
{
    if parts.len() == 2 {
        law_joined_from_the_front(parts.drop_last(), separator);
        law_joined_from_the_front(parts.drop_first(), separator);
    } else if parts.len() > 2 {
        law_joined_from_the_front(parts.drop_last(), separator);
        assert(parts.drop_last().drop_first() =~= parts.drop_first().drop_last());
        assert(joined(parts, separator) =~= parts[0] + separator + joined(
            parts.drop_first(),
            separator,
        ));
    }
}

/// A trimmed text is what stands between white space at both ends: a part of the text, with
/// nothing but white space before and behind it.
pub proof fn law_trimmed_leaves_what_is_between(text: Seq<char>) -> (ends: (int, int))
    ensures
        0 <= ends.0 <= ends.1 <= text.len(),
        trimmed(text) == text.subrange(ends.0, ends.1),
        forall|i: int| 0 <= i < ends.0 || ends.1 <= i < text.len() ==> is_white_space(#[trigger] text[i]),
        trimmed(text).len() > 0 ==> !is_white_space(trimmed(text).first()) && !is_white_space(
            trimmed(text).last(),
        ),
    decreases text.len(),
{
    lemma_trimmed(text);
    if text.len() > 0 && is_white_space(text.first()) {
        let rest = text.drop_first();
        let (from, to) = law_trimmed_leaves_what_is_between(rest);
        assert(rest.subrange(from, to) =~= text.subrange(from + 1, to + 1));
        assert forall|i: int| 0 <= i < from + 1 || to + 1 <= i < text.len() implies is_white_space(
            #[trigger] text[i],
        ) by {
            if i > 0 {
                assert(is_white_space(rest[i - 1]));
            }
        }
        (from + 1, to + 1)
    } else if text.len() > 0 && is_white_space(text.last()) {
        let rest = text.drop_last();
        let (from, to) = law_trimmed_leaves_what_is_between(rest);
        assert(rest.subrange(from, to) =~= text.subrange(from, to));
        assert forall|i: int| 0 <= i < from || to <= i < text.len() implies is_white_space(
            #[trigger] text[i],
        ) by {
            if i < text.len() - 1 {
                assert(is_white_space(rest[i]));
            }
        }
        (from, to)
    } else {
        assert(text.subrange(0, text.len() as int) =~= text);
        (0, text.len() as int)
    }
}

/// Where a character stands last: it stands there, and nowhere behind; or it does not stand
/// anywhere.
pub proof fn law_last_index(text: Seq<char>, c: char, n: int)
    requires
        0 <= n <= text.len(),
    ensures
        -1 <= last_index(text, c, n) < n || n == 0 && last_index(text, c, n) == -1,
        last_index(text, c, n) >= 0 ==> text[last_index(text, c, n)] == c,
        forall|i: int| last_index(text, c, n) < i < n ==> #[trigger] text[i] != c,
    decreases n,
{
    if n > 0 && text[n - 1] != c {
        law_last_index(text, c, n - 1);
    }
}

/// Where a character stands first: it stands there, and nowhere before; or it does not stand
/// anywhere.
pub proof fn law_first_index(text: Seq<char>, c: char, from: int)
    requires
        0 <= from <= text.len(),
    ensures
        from <= first_index(text, c, from) <= text.len(),
        first_index(text, c, from) < text.len() ==> text[first_index(text, c, from)] == c,
        forall|i: int| from <= i < first_index(text, c, from) ==> #[trigger] text[i] != c,
    decreases text.len() - from,
{
    if from < text.len() && text[from] != c {
        law_first_index(text, c, from + 1);
    }
}

} // verus!
