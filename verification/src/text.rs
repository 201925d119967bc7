//! Text: numbers, lines and surrounding spaces.

use vstd::prelude::*;

verus! {

/// `String::push`: appends a character.
pub assume_specification[ std::string::String::push ](s: &mut String, c: char)
    ensures
        final(s)@ == old(s)@.push(c),
;

/// `String::push_str`: appends a string.
pub assume_specification[ std::string::String::push_str ](s: &mut String, more: &str)
    ensures
        final(s)@ == old(s)@ + more@,
;

/// The character of a digit.
pub open spec fn digit(d: nat) -> char {
    if d < 10 {
        (48 + d) as char
    } else {
        (87 + d) as char
    }
}

/// The digits of a number in a base, most significant first.
pub open spec fn digits(n: nat, base: nat) -> Seq<char>
    decreases n,
{
    if base < 2 || n < base {
        seq![digit(n)]
    } else {
        proof {
            assert(n / base < n) by (nonlinear_arith)
                requires
                    2 <= base <= n,
            ;
        }
        digits(n / base, base).push(digit(n % base))
    }
}

/// A number in decimal digits.
pub open spec fn decimal(n: nat) -> Seq<char> {
    digits(n, 10)
}

/// Exec counterpart of `digit`.
fn digit_char(d: u8) -> (c: char)
    requires
        d < 16,
    ensures
        c == digit(d as nat),
{
    if d < 10 {
        (48 + d) as char
    } else {
        (87 + d) as char
    }
}

/// The digits of a number in base ten or sixteen.
fn digits_text(n: u128, base: u128) -> (text: String)
    requires
        base == 10 || base == 16,
    ensures
        text@ == digits(n as nat, base as nat),
    decreases n,
{
    if n < base {
        let mut text = String::new();
        text.push(digit_char(n as u8));
        assert(text@ =~= digits(n as nat, base as nat));
        text
    } else {
        let mut text = digits_text(n / base, base);
        text.push(digit_char((n % base) as u8));
        text
    }
}

/// Writes a number in decimal digits.
pub fn decimal_text(n: u128) -> (text: String)
    ensures
        text@ == decimal(n as nat),
{
    digits_text(n, 10)
}

/// A number in decimal digits, at least two of them.
pub open spec fn padded(n: nat) -> Seq<char> {
    if n < 10 {
        seq!['0', digit(n)]
    } else {
        decimal(n)
    }
}

/// Writes a number in decimal digits, at least two of them.
pub fn padded_text(n: u8) -> (text: String)
    ensures
        text@ == padded(n as nat),
{
    if n < 10 {
        let mut text = String::new();
        text.push('0');
        text.push(digit_char(n));
        assert(text@ =~= padded(n as nat));
        text
    } else {
        decimal_text(n as u128)
    }
}

/// A number in hexadecimal digits, at least two of them.
pub open spec fn hex(n: nat) -> Seq<char> {
    if n < 16 {
        seq!['0', digit(n)]
    } else {
        digits(n, 16)
    }
}

/// Writes a number in hexadecimal digits, at least two of them.
pub fn hex_text(n: u64) -> (text: String)
    ensures
        text@ == hex(n as nat),
{
    if n < 16 {
        let mut text = String::new();
        text.push('0');
        text.push(digit_char(n as u8));
        assert(text@ =~= hex(n as nat));
        text
    } else {
        digits_text(n as u128, 16)
    }
}

/// A byte string in hexadecimal digits, two for each byte.
pub open spec fn hex_bytes(bytes: Seq<u8>) -> Seq<char>
    decreases bytes.len(),
{
    if bytes.len() == 0 {
        Seq::empty()
    } else {
        hex_bytes(bytes.drop_last()) + hex(bytes.last() as nat)
    }
}

/// Writes a byte string in hexadecimal digits, two for each byte.
pub fn hex_bytes_text(bytes: &[u8]) -> (text: String)
    ensures
        text@ == hex_bytes(bytes@),
{
    let mut text = String::new();
    let mut i: usize = 0;
    assert(bytes@.take(0) =~= Seq::empty());
    while i < bytes.len()
        invariant
            i <= bytes@.len(),
            text@ == hex_bytes(bytes@.take(i as int)),
        decreases bytes@.len() - i,
    {
        assert(bytes@.take(i + 1).drop_last() =~= bytes@.take(i as int));
        let pair = hex_text(bytes[i] as u64);
        text.push_str(pair.as_str());
        i += 1;
    }
    assert(bytes@.take(i as int) =~= bytes@);
    text
}

// ---------------------------------------------------------------------------
// Characters
// ---------------------------------------------------------------------------

/// The characters of a text.
fn chars_of(s: &str) -> (chars: Vec<char>)
    ensures
        chars@ == s@,
{
    let mut chars: Vec<char> = Vec::new();
    for c in it: s.chars()
        invariant
            chars@ == it.seq().take(it.index()),
            it.seq() == s@,
    {
        chars.push(c);
        assert(it.seq().take(it.index() + 1) =~= it.seq().take(it.index()).push(c));
    }
    assert(chars@ =~= s@);
    chars
}

/// The text of characters `from..to`.
fn text_between(chars: &Vec<char>, from: usize, to: usize) -> (text: String)
    requires
        from <= to <= chars@.len(),
    ensures
        text@ == chars@.subrange(from as int, to as int),
{
    let mut text = String::new();
    let mut i: usize = from;
    while i < to
        invariant
            from <= i <= to <= chars@.len(),
            text@ =~= chars@.subrange(from as int, i as int),
        decreases to - i,
    {
        text.push(chars[i]);
        i += 1;
    }
    text
}

/// The first characters of a text, at most `limit` of them.
pub fn take_chars(s: &str, limit: usize) -> (text: String)
    ensures
        text@ == if s@.len() <= limit {
            s@
        } else {
            s@.take(limit as int)
        },
{
    let chars = chars_of(s);
    let end: usize = if chars.len() <= limit {
        chars.len()
    } else {
        limit
    };
    let text = text_between(&chars, 0, end);
    assert(text@ =~= s@.take(end as int));
    assert(s@.take(s@.len() as int) =~= s@);
    text
}

/// Whether two texts are the same.
pub fn same_text(a: &str, b: &str) -> (same: bool)
    ensures
        same == (a@ == b@),
{
    let x = chars_of(a);
    let y = chars_of(b);
    if x.len() != y.len() {
        return false;
    }
    let mut i: usize = 0;
    while i < x.len()
        invariant
            i <= x@.len(),
            x@.len() == y@.len(),
            x@ == a@,
            y@ == b@,
            forall|k: int| 0 <= k < i ==> x@[k] == y@[k],
        decreases x@.len() - i,
    {
        if x[i] != y[i] {
            return false;
        }
        i += 1;
    }
    assert(a@ =~= b@);
    true
}

// ---------------------------------------------------------------------------
// Reading numbers
// ---------------------------------------------------------------------------

/// Whether a character is a decimal digit.
pub open spec fn is_digit(c: char) -> bool {
    '0' <= c <= '9'
}

/// The number that decimal digits stand for.
pub open spec fn digits_value(word: Seq<char>) -> int
    decreases word.len(),
{
    if word.len() == 0 {
        0
    } else {
        digits_value(word.drop_last()) * 10 + (word.last() as int - 48)
    }
}

/// The digits of a number that may have a plus sign in front.
pub open spec fn without_sign(word: Seq<char>) -> Seq<char> {
    if word.len() > 0 && word[0] == '+' {
        word.skip(1)
    } else {
        word
    }
}

/// The number up to 255 that a text stands for, if it does: decimal digits, at
/// least one, perhaps with a plus sign in front.
pub open spec fn u8_of(word: Seq<char>) -> Option<u8> {
    let digits = without_sign(word);
    if digits.len() > 0 && (forall|i: int| 0 <= i < digits.len() ==> is_digit(#[trigger] digits[i]))
        && digits_value(digits) <= 255 {
        Some(digits_value(digits) as u8)
    } else {
        None
    }
}

proof fn lemma_digits_value_grows(word: Seq<char>, n: int)
    requires
        0 <= n <= word.len(),
        forall|i: int| 0 <= i < word.len() ==> is_digit(#[trigger] word[i]),
    ensures
        0 <= digits_value(word.take(n)) <= digits_value(word),
    decreases word.len(),
{
    if n == word.len() {
        assert(word.take(n) =~= word);
        if n > 0 {
            assert forall|i: int| 0 <= i < word.drop_last().len() implies is_digit(
                #[trigger] word.drop_last()[i],
            ) by {
                assert(word.drop_last()[i] == word[i]);
            }
            lemma_digits_value_grows(word.drop_last(), n - 1);
            assert(is_digit(word[n - 1]));
        }
    } else {
        assert forall|i: int| 0 <= i < word.drop_last().len() implies is_digit(
            #[trigger] word.drop_last()[i],
        ) by {
            assert(word.drop_last()[i] == word[i]);
        }
        lemma_digits_value_grows(word.drop_last(), n);
        assert(word.drop_last().take(n) =~= word.take(n));
        assert(is_digit(word[word.len() - 1]));
    }
}

/// Reads a number up to 255.
pub fn parse_u8(word: &str) -> (number: Option<u8>)
    ensures
        number == u8_of(word@),
{
    let chars = chars_of(word);
    let from: usize = if chars.len() > 0 && chars[0] == '+' {
        1
    } else {
        0
    };
    let ghost digits = without_sign(word@);
    assert(digits =~= word@.skip(from as int));
    if chars.len() == from {
        return None;
    }
    let mut value: u32 = 0;
    let mut i: usize = from;
    assert(digits.take(0) =~= Seq::empty());
    while i < chars.len()
        invariant
            chars@ == word@,
            from <= i <= chars@.len(),
            from <= 1,
            digits == without_sign(word@),
            digits == word@.skip(from as int),
            value == digits_value(digits.take(i - from)),
            value <= 255,
            forall|k: int| 0 <= k < i - from ==> is_digit(#[trigger] digits[k]),
        decreases chars@.len() - i,
    {
        let c = chars[i];
        assert(digits[i - from] == c);
        if c < '0' || c > '9' {
            return None;
        }
        let next: u32 = value * 10 + (c as u32 - 48);
        assert(digits.take(i - from + 1).drop_last() =~= digits.take(i - from));
        assert(next == digits_value(digits.take(i - from + 1)));
        if next > 255 {
            proof {
                if u8_of(word@) is Some {
                    lemma_digits_value_grows(digits, i - from + 1);
                }
            }
            return None;
        }
        value = next;
        i += 1;
    }
    assert(digits.take(i - from) =~= digits);
    Some(value as u8)
}

/// A number up to 255 is read back from the digits that it is written with.
pub proof fn law_number_is_read_back(n: u8)
    ensures
        u8_of(padded(n as nat)) == Some(n),
{
    lemma_decimal(n as nat);
    let word = padded(n as nat);
    if n < 10 {
        assert(word.drop_last() =~= seq!['0']);
        assert(seq!['0'].drop_last() =~= Seq::<char>::empty());
        assert(digits_value(Seq::<char>::empty()) == 0);
        assert(digits_value(seq!['0']) == 0);
        assert(digits_value(word) == n);
    }
    assert(word[0] != '+');
    assert(without_sign(word) == word);
    assert forall|i: int| 0 <= i < word.len() implies is_digit(#[trigger] word[i]) by {}
}

proof fn lemma_decimal(n: nat)
    ensures
        decimal(n).len() > 0,
        forall|i: int| 0 <= i < decimal(n).len() ==> is_digit(#[trigger] decimal(n)[i]),
        digits_value(decimal(n)) == n,
    decreases n,
{
    if n < 10 {
        assert(decimal(n) =~= seq![digit(n)]);
        assert(decimal(n).drop_last() =~= Seq::<char>::empty());
        assert(digits_value(decimal(n).drop_last()) == 0);
    } else {
        lemma_decimal(n / 10);
        assert(decimal(n) == decimal(n / 10).push(digit(n % 10)));
        assert(decimal(n).drop_last() =~= decimal(n / 10));
    }
}

/// A number is written in digits, at least two, and in no more than two where it
/// is below a hundred.
pub proof fn lemma_padded(n: nat)
    ensures
        padded(n).len() >= 2,
        n < 100 ==> padded(n).len() == 2,
        forall|i: int| 0 <= i < padded(n).len() ==> is_digit(#[trigger] padded(n)[i]),
{
    lemma_decimal(n);
    if n >= 10 {
        lemma_decimal(n / 10);
        assert(decimal(n) == decimal(n / 10).push(digit(n % 10)));
        if n < 100 {
            assert(decimal(n / 10) =~= seq![digit(n / 10)]);
        }
    }
}

/// A number below a hundred is padded to its tens and its ones.
pub proof fn law_small_numbers_have_two_digits(n: nat)
    requires
        n < 100,
    ensures
        padded(n) == seq![('0' as int + n / 10) as char, ('0' as int + n % 10) as char],
{
    if n >= 10 {
        assert(decimal(n) == decimal(n / 10).push(digit(n % 10)));
        assert(decimal(n / 10) =~= seq![digit(n / 10)]);
    } else {
        assert(decimal(n) =~= seq![digit(n)]);
    }
    assert(padded(n) =~= seq![('0' as int + n / 10) as char, ('0' as int + n % 10) as char]);
}

// ---------------------------------------------------------------------------
// Spaces and lines
// ---------------------------------------------------------------------------

/// Whether a character is white space in Unicode.
pub open spec fn is_white(c: char) -> bool {
    ||| '\u{9}' <= c <= '\u{d}'
    ||| c == ' '
    ||| c == '\u{85}'
    ||| c == '\u{a0}'
    ||| c == '\u{1680}'
    ||| '\u{2000}' <= c <= '\u{200a}'
    ||| c == '\u{2028}'
    ||| c == '\u{2029}'
    ||| c == '\u{202f}'
    ||| c == '\u{205f}'
    ||| c == '\u{3000}'
}

fn white(c: char) -> (yes: bool)
    ensures
        yes == is_white(c),
{
    ('\u{9}' <= c && c <= '\u{d}') || c == ' ' || c == '\u{85}' || c == '\u{a0}' || c
        == '\u{1680}' || ('\u{2000}' <= c && c <= '\u{200a}') || c == '\u{2028}' || c == '\u{2029}'
        || c == '\u{202f}' || c == '\u{205f}' || c == '\u{3000}'
}

/// A text without the white space in front.
pub open spec fn trimmed_start(s: Seq<char>) -> Seq<char>
    decreases s.len(),
{
    if s.len() > 0 && is_white(s[0]) {
        trimmed_start(s.skip(1))
    } else {
        s
    }
}

/// A text without the white space behind.
pub open spec fn trimmed_end(s: Seq<char>) -> Seq<char>
    decreases s.len(),
{
    if s.len() > 0 && is_white(s.last()) {
        trimmed_end(s.drop_last())
    } else {
        s
    }
}

/// A text without the white space around it.
pub open spec fn trimmed(s: Seq<char>) -> Seq<char> {
    trimmed_end(trimmed_start(s))
}

/// Takes the white space around a text away.
pub fn trim_text(s: &str) -> (text: String)
    ensures
        text@ == trimmed(s@),
{
    let chars = chars_of(s);
    let mut from: usize = 0;
    assert(s@.skip(0) =~= s@);
    while from < chars.len() && white(chars[from])
        invariant
            chars@ == s@,
            from <= chars@.len(),
            trimmed_start(s@) == trimmed_start(s@.skip(from as int)),
        decreases chars@.len() - from,
    {
        assert(s@.skip(from as int).skip(1) =~= s@.skip(from + 1));
        from += 1;
    }
    let ghost rest = s@.skip(from as int);
    let mut to: usize = chars.len();
    assert(s@.subrange(from as int, to as int) =~= rest);
    while to > from && white(chars[to - 1])
        invariant
            chars@ == s@,
            from <= to <= chars@.len(),
            trimmed_end(rest) == trimmed_end(s@.subrange(from as int, to as int)),
        decreases to,
    {
        assert(s@.subrange(from as int, to as int).drop_last() =~= s@.subrange(
            from as int,
            to - 1,
        ));
        to -= 1;
    }
    text_between(&chars, from, to)
}

/// Whether a text is nothing but white space.
pub open spec fn is_blank(s: Seq<char>) -> bool {
    forall|i: int| 0 <= i < s.len() ==> is_white(#[trigger] s[i])
}

proof fn lemma_trimmed_start(pad: Seq<char>, s: Seq<char>)
    requires
        is_blank(pad),
    ensures
        trimmed_start(pad + s) == trimmed_start(s),
    decreases pad.len(),
{
    if pad.len() > 0 {
        assert(is_white(pad[0]));
        assert((pad + s).skip(1) =~= pad.skip(1) + s);
        assert forall|i: int| 0 <= i < pad.skip(1).len() implies is_white(
            #[trigger] pad.skip(1)[i],
        ) by {
            assert(pad.skip(1)[i] == pad[i + 1]);
        }
        lemma_trimmed_start(pad.skip(1), s);
    } else {
        assert(pad + s =~= s);
    }
}

proof fn lemma_trimmed_end(s: Seq<char>, pad: Seq<char>)
    requires
        is_blank(pad),
    ensures
        trimmed_end(s + pad) == trimmed_end(s),
    decreases pad.len(),
{
    if pad.len() > 0 {
        assert(is_white(pad[pad.len() - 1]));
        assert((s + pad).last() == pad.last());
        assert((s + pad).drop_last() =~= s + pad.drop_last());
        assert forall|i: int| 0 <= i < pad.drop_last().len() implies is_white(
            #[trigger] pad.drop_last()[i],
        ) by {
            assert(pad.drop_last()[i] == pad[i]);
        }
        lemma_trimmed_end(s, pad.drop_last());
    } else {
        assert(s + pad =~= s);
    }
}

/// Nothing of a blank text is left.
proof fn lemma_blank(s: Seq<char>)
    requires
        is_blank(s),
    ensures
        trimmed_start(s) == Seq::<char>::empty(),
{
    lemma_trimmed_start(s, Seq::empty());
    assert(s + Seq::<char>::empty() =~= s);
}

/// Where some of a text is left without the white space in front, that in front
/// comes off and nothing else does.
proof fn lemma_trimmed_start_append(s: Seq<char>, pad: Seq<char>)
    requires
        trimmed_start(s).len() > 0,
    ensures
        trimmed_start(s + pad) == trimmed_start(s) + pad,
    decreases s.len(),
{
    if s.len() > 0 && is_white(s[0]) {
        assert((s + pad).skip(1) =~= s.skip(1) + pad);
        lemma_trimmed_start_append(s.skip(1), pad);
    }
}

/// A text whose white space in front leaves nothing is blank.
proof fn lemma_nothing_left(s: Seq<char>)
    requires
        trimmed_start(s).len() == 0,
    ensures
        is_blank(s),
    decreases s.len(),
{
    if s.len() > 0 {
        lemma_nothing_left(s.skip(1));
        assert forall|i: int| 0 <= i < s.len() implies is_white(#[trigger] s[i]) by {
            if i > 0 {
                assert(s.skip(1)[i - 1] == s[i]);
            }
        }
    }
}

proof fn lemma_trimmed_end_keeps_front(s: Seq<char>)
    ensures
        trimmed_end(s).len() <= s.len(),
        trimmed_end(s) == s.take(trimmed_end(s).len() as int),
        trimmed_end(s).len() > 0 ==> !is_white(trimmed_end(s).last()),
    decreases s.len(),
{
    if s.len() > 0 && is_white(s.last()) {
        lemma_trimmed_end_keeps_front(s.drop_last());
        let t = trimmed_end(s);
        assert(s.drop_last().take(t.len() as int) =~= s.take(t.len() as int));
    } else {
        assert(s.take(s.len() as int) =~= s);
    }
}

proof fn lemma_trimmed_start_keeps_back(s: Seq<char>)
    ensures
        trimmed_start(s).len() > 0 ==> !is_white(trimmed_start(s)[0]),
    decreases s.len(),
{
    if s.len() > 0 && is_white(s[0]) {
        lemma_trimmed_start_keeps_back(s.skip(1));
    }
}

/// What is left without the white space around it has none around it.
pub proof fn law_trimming_twice_is_trimming_once(s: Seq<char>)
    ensures
        trimmed(trimmed(s)) == trimmed(s),
{
    let start = trimmed_start(s);
    let t = trimmed(s);
    lemma_trimmed_start_keeps_back(s);
    lemma_trimmed_end_keeps_front(start);
    if t.len() > 0 {
        assert(t[0] == start[0]);
    }
}

/// White space around a text makes no difference to what is left without it.
pub proof fn law_spaces_around_do_not_matter(front: Seq<char>, s: Seq<char>, back: Seq<char>)
    requires
        is_blank(front),
        is_blank(back),
    ensures
        trimmed(front + s + back) == trimmed(s),
{
    assert(front + s + back =~= front + (s + back));
    lemma_trimmed_start(front, s + back);
    if trimmed_start(s).len() > 0 {
        lemma_trimmed_start_append(s, back);
        lemma_trimmed_end(trimmed_start(s), back);
    } else {
        lemma_nothing_left(s);
        assert forall|i: int| 0 <= i < (s + back).len() implies is_white(
            #[trigger] (s + back)[i],
        ) by {
            if i < s.len() {
                assert(is_white(s[i]));
            } else {
                assert(is_white(back[i - s.len()]));
            }
        }
        lemma_blank(s + back);
    }
}

/// Where the first line feed of a text stands, or its length.
pub open spec fn line_end(s: Seq<char>) -> int
    decreases s.len(),
{
    if s.len() == 0 || s[0] == '\n' {
        0
    } else {
        1 + line_end(s.skip(1))
    }
}

/// A line without the carriage return at its end.
pub open spec fn without_return(line: Seq<char>) -> Seq<char> {
    if line.len() > 0 && line.last() == '\r' {
        line.drop_last()
    } else {
        line
    }
}

/// The lines of a text. A line ends with a line feed, or a carriage return and a
/// line feed; the last line may go without.
pub open spec fn lines(s: Seq<char>) -> Seq<Seq<char>>
    decreases s.len(),
{
    let end = line_end(s);
    if s.len() == 0 {
        Seq::empty()
    } else if end < 0 || end >= s.len() {
        seq![s]
    } else {
        seq![without_return(s.take(end))] + lines(s.skip(end + 1))
    }
}

proof fn lemma_line_end(s: Seq<char>, end: int)
    requires
        0 <= end <= s.len(),
        forall|i: int| 0 <= i < end ==> s[i] != '\n',
        end < s.len() ==> s[end] == '\n',
    ensures
        line_end(s) == end,
    decreases s.len(),
{
    if end > 0 {
        lemma_line_end(s.skip(1), end - 1);
    }
}

/// Whether a text is empty or ends with a line feed.
pub open spec fn ends_line(s: Seq<char>) -> bool {
    s.len() > 0 ==> s.last() == '\n'
}

proof fn lemma_line_end_found(s: Seq<char>)
    ensures
        0 <= line_end(s) <= s.len(),
        line_end(s) < s.len() ==> s[line_end(s)] == '\n',
        forall|i: int| 0 <= i < line_end(s) ==> s[i] != '\n',
    decreases s.len(),
{
    if s.len() > 0 && s[0] != '\n' {
        lemma_line_end_found(s.skip(1));
        assert forall|i: int| 0 <= i < line_end(s) implies s[i] != '\n' by {
            if i > 0 {
                assert(s.skip(1)[i - 1] == s[i]);
            }
        }
    }
}

/// The lines of a text that ends with a line feed and of a text behind it are the
/// lines of the two.
pub proof fn lemma_lines_concat(a: Seq<char>, b: Seq<char>)
    requires
        ends_line(a),
    ensures
        lines(a + b) == lines(a) + lines(b),
    decreases a.len(),
{
    if a.len() == 0 {
        assert(a + b =~= b);
        assert(lines(a) + lines(b) =~= lines(b));
    } else {
        let end = line_end(a);
        lemma_line_end_found(a);
        assert(a[a.len() - 1] == '\n');
        assert(end < a.len());
        assert forall|i: int| 0 <= i < end implies (a + b)[i] != '\n' by {
            assert((a + b)[i] == a[i]);
        }
        lemma_line_end(a + b, end);
        assert((a + b).take(end) =~= a.take(end));
        assert((a + b).skip(end + 1) =~= a.skip(end + 1) + b);
        let rest = a.skip(end + 1);
        if rest.len() > 0 {
            assert(rest.last() == a.last());
        }
        lemma_lines_concat(rest, b);
        assert(lines(a + b) =~= lines(a) + lines(b));
    }
}

/// A text without a line feed is one line, once it is ended by one.
pub proof fn lemma_one_line(line: Seq<char>)
    requires
        !line.contains('\n'),
    ensures
        lines(line.push('\n')) == seq![without_return(line)],
{
    let s = line.push('\n');
    assert forall|i: int| 0 <= i < line.len() implies s[i] != '\n' by {
        assert(line.contains(line[i]));
    }
    lemma_line_end(s, line.len() as int);
    assert(s.take(line.len() as int) =~= line);
    assert(s.skip(line.len() as int + 1) =~= Seq::<char>::empty());
    assert(lines(s.skip(line.len() as int + 1)).len() == 0);
    assert(lines(s) =~= seq![without_return(line)]);
}

/// A text without a line feed is one line, unless it is empty.
pub proof fn lemma_bare_line(line: Seq<char>)
    requires
        !line.contains('\n'),
    ensures
        lines(line) == if line.len() == 0 {
            Seq::empty()
        } else {
            seq![line]
        },
{
    assert forall|i: int| 0 <= i < line.len() implies line[i] != '\n' by {
        assert(line.contains(line[i]));
    }
    lemma_line_end(line, line.len() as int);
}

/// Splits a text into its lines.
pub fn split_lines(s: &str) -> (out: Vec<String>)
    ensures
        out@.len() == lines(s@).len(),
        forall|i: int| 0 <= i < out@.len() ==> (#[trigger] out@[i])@ == lines(s@)[i],
{
    let chars = chars_of(s);
    let mut out: Vec<String> = Vec::new();
    let mut from: usize = 0;
    let ghost all = lines(s@);
    assert(s@.skip(0) =~= s@);
    while from < chars.len()
        invariant
            chars@ == s@,
            from <= chars@.len(),
            all == lines(s@),
            all.len() == out@.len() + lines(s@.skip(from as int)).len(),
            forall|i: int| 0 <= i < out@.len() ==> (#[trigger] out@[i])@ == all[i],
            forall|i: int|
                0 <= i < lines(s@.skip(from as int)).len() ==> all[out@.len() + i]
                    == #[trigger] lines(s@.skip(from as int))[i],
        decreases chars@.len() - from,
    {
        let mut end: usize = from;
        while end < chars.len() && chars[end] != '\n'
            invariant
                chars@ == s@,
                from <= end <= chars@.len(),
                forall|i: int| from <= i < end ==> s@[i] != '\n',
            decreases chars@.len() - end,
        {
            end += 1;
        }
        let ghost rest = s@.skip(from as int);
        let ghost left = lines(rest);
        proof {
            lemma_line_end(rest, end - from);
        }
        if end == chars.len() {
            let line = text_between(&chars, from, end);
            assert(line@ =~= rest);
            assert(left[0] == rest);
            assert(lines(s@.skip(end as int)) =~= Seq::empty());
            out.push(line);
            from = end;
        } else {
            let stop: usize = if end > from && chars[end - 1] == '\r' {
                end - 1
            } else {
                end
            };
            let line = text_between(&chars, from, stop);
            assert(line@ =~= without_return(rest.take(end - from)));
            assert(rest.skip(end - from + 1) =~= s@.skip(end + 1));
            let ghost later = lines(s@.skip(end + 1));
            assert(left == seq![line@] + later);
            assert(left[0] == line@);
            assert forall|i: int| 0 <= i < later.len() implies all[out@.len() + 1 + i]
                == #[trigger] later[i] by {
                assert(left[i + 1] == later[i]);
            }
            out.push(line);
            from = end + 1;
        }
    }
    assert(lines(s@.skip(from as int)) =~= Seq::empty());
    out
}

/// The number that a digit stands for, letters counting on from ten.
pub open spec fn digit_worth(c: char) -> int {
    if '0' <= c <= '9' {
        c as int - '0' as int
    } else {
        c as int - 'a' as int + 10
    }
}

/// The number that digits in a base stand for.
pub open spec fn worth(word: Seq<char>, base: int) -> int
    decreases word.len(),
{
    if word.len() == 0 {
        0
    } else {
        worth(word.drop_last(), base) * base + digit_worth(word.last())
    }
}

/// A number is written in the digits that stand for it, in any base from two to
/// sixteen, without zeros in front.
pub proof fn law_digits_stand_for_the_number(n: nat, base: nat)
    requires
        2 <= base <= 16,
    ensures
        worth(digits(n, base), base as int) == n,
        digits(n, base).len() > 0,
        n > 0 ==> digits(n, base)[0] != '0',
        forall|i: int|
            0 <= i < digits(n, base).len() ==> 0 <= digit_worth(#[trigger] digits(n, base)[i])
                < base,
    decreases n,
{
    let word = digits(n, base);
    if n < base {
        assert(word.drop_last() =~= Seq::empty());
        assert(worth(word.drop_last(), base as int) == 0);
        assert(0 * base == 0) by (nonlinear_arith);
    } else {
        let front = digits(n / base, base);
        assert(n / base < n && n / base > 0) by (nonlinear_arith)
            requires
                2 <= base <= n,
        ;
        law_digits_stand_for_the_number(n / base, base);
        assert(word.drop_last() =~= front);
        assert((n / base) * base + n % base == n && n % base < base) by (nonlinear_arith)
            requires
                2 <= base,
        ;
        assert forall|i: int| 0 <= i < word.len() implies 0 <= digit_worth(#[trigger] word[i])
            < base by {
            if i < front.len() {
                assert(word[i] == front[i]);
            }
        }
    }
}

/// A byte string is written in two hexadecimal digits for each byte, in order.
pub proof fn law_bytes_have_two_digits_each(bytes: Seq<u8>, i: int)
    requires
        0 <= i < bytes.len(),
    ensures
        hex_bytes(bytes).len() == 2 * bytes.len(),
        16 * digit_worth(hex_bytes(bytes)[2 * i]) + digit_worth(hex_bytes(bytes)[2 * i + 1])
            == bytes[i],
    decreases bytes.len(),
{
    let front = bytes.drop_last();
    let last = bytes.last() as nat;
    if front.len() > 0 {
        law_bytes_have_two_digits_each(front, 0);
    } else {
        assert(hex_bytes(front).len() == 0);
    }
    if last >= 16 {
        assert(digits(last / 16, 16) =~= seq![digit(last / 16)]);
        assert(digits(last, 16) =~= seq![digit(last / 16), digit(last % 16)]);
    }
    assert(hex(last).len() == 2);
    if i < front.len() {
        law_bytes_have_two_digits_each(front, i);
    }
}

/// Trimming takes away white space and nothing else, and leaves none at either end.
pub proof fn law_trimming_takes_white_space_only(s: Seq<char>)
    ensures
        exists|i: int, j: int|
            0 <= i <= j <= s.len() && trimmed(s) == #[trigger] s.subrange(i, j) && is_blank(
                s.subrange(0, i),
            ) && is_blank(s.subrange(j, s.len() as int)),
        trimmed(s).len() > 0 ==> !is_white(trimmed(s)[0]) && !is_white(trimmed(s).last()),
{
    let i = lemma_where_text_starts(s);
    let rest = s.subrange(i, s.len() as int);
    let k = lemma_where_text_ends(rest);
    let j = i + k;
    assert(trimmed(s) =~= s.subrange(i, j));
    assert(is_blank(s.subrange(j, s.len() as int))) by {
        assert(s.subrange(j, s.len() as int) =~= rest.subrange(k, rest.len() as int));
    }
    if k > 0 {
        assert(trimmed(s)[0] == rest[0]);
    }
}

proof fn lemma_where_text_starts(s: Seq<char>) -> (i: int)
    ensures
        0 <= i <= s.len(),
        trimmed_start(s) == s.subrange(i, s.len() as int),
        is_blank(s.subrange(0, i)),
        i < s.len() ==> !is_white(s[i]),
    decreases s.len(),
{
    if s.len() > 0 && is_white(s[0]) {
        let rest = s.skip(1);
        let i = lemma_where_text_starts(rest);
        assert(rest.subrange(i, rest.len() as int) =~= s.subrange(i + 1, s.len() as int));
        assert forall|k: int| 0 <= k < i + 1 implies is_white(#[trigger] s.subrange(0, i + 1)[k]) by {
            if k > 0 {
                assert(s.subrange(0, i + 1)[k] == rest.subrange(0, i)[k - 1]);
            }
        }
        i + 1
    } else {
        assert(s.subrange(0, s.len() as int) =~= s);
        0
    }
}

proof fn lemma_where_text_ends(s: Seq<char>) -> (j: int)
    ensures
        0 <= j <= s.len(),
        trimmed_end(s) == s.subrange(0, j),
        is_blank(s.subrange(j, s.len() as int)),
        j > 0 ==> !is_white(s[j - 1]),
    decreases s.len(),
{
    if s.len() > 0 && is_white(s.last()) {
        let front = s.drop_last();
        let j = lemma_where_text_ends(front);
        assert(front.subrange(0, j) =~= s.subrange(0, j));
        let tail = s.subrange(j, s.len() as int);
        assert forall|k: int| 0 <= k < tail.len() implies is_white(#[trigger] tail[k]) by {
            if k < tail.len() - 1 {
                assert(tail[k] == front.subrange(j, front.len() as int)[k]);
            }
        }
        j
    } else {
        assert(s.subrange(0, s.len() as int) =~= s);
        s.len() as int
    }
}

/// In ASCII, white space is the space and the five characters from tab to carriage
/// return, and no letter, digit or punctuation mark is.
pub proof fn law_ascii_white_space(c: char)
    requires
        c as int <= 127,
    ensures
        is_white(c) <==> (c == ' ' || c == '\t' || c == '\n' || c == '\u{b}' || c == '\u{c}' || c
            == '\r'),
{
}

/// A plus sign in front of a number makes no difference, and nothing but digits may
/// stand behind it.
pub proof fn law_plus_sign_makes_no_difference(word: Seq<char>)
    requires
        word.len() > 0,
        word[0] != '+',
    ensures
        u8_of(seq!['+'] + word) == u8_of(word),
        u8_of(word) is Some ==> forall|i: int| 0 <= i < word.len() ==> is_digit(#[trigger] word[i]),
{
    assert((seq!['+'] + word).skip(1) =~= word);
}

} // verus!
