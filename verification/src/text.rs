//! Text as sequences of characters: white space, trimming, the removal of
//! separators, and decimal numbers.

use vstd::prelude::*;

verus! {

/// What can be wrong with the text of a number.
#[derive(Debug, Clone, Copy, PartialEq, Eq)]
pub enum IntErrorKind {
    /// The text is empty.
    Empty,
    /// The text holds a character that is no digit where a digit must stand.
    InvalidDigit,
    /// The number is too large for 64 bits.
    PosOverflow,
    /// The number is too small. It does not occur with unsigned numbers.
    NegOverflow,
    /// The number is zero where zero is not allowed.
    Zero,
}

/// Whether `c` is white space as Unicode defines it.
pub open spec fn is_whitespace(c: char) -> bool {
    let u = c as u32;
    ||| 0x09 <= u <= 0x0D
    ||| u == 0x20
    ||| u == 0x85
    ||| u == 0xA0
    ||| u == 0x1680
    ||| 0x2000 <= u <= 0x200A
    ||| u == 0x2028
    ||| u == 0x2029
    ||| u == 0x202F
    ||| u == 0x205F
    ||| u == 0x3000
}

/// `s` without the white space it begins with.
pub open spec fn trim_start(s: Seq<char>) -> Seq<char>
    decreases s.len(),
{
    if s.len() > 0 && is_whitespace(s.first()) {
        trim_start(s.drop_first())
    } else {
        s
    }
}

/// `s` without the white space it ends with.
pub open spec fn trim_end(s: Seq<char>) -> Seq<char>
    decreases s.len(),
{
    if s.len() > 0 && is_whitespace(s.last()) {
        trim_end(s.drop_last())
    } else {
        s
    }
}

/// `s` without the white space around it.
pub open spec fn trim(s: Seq<char>) -> Seq<char> {
    trim_end(trim_start(s))
}

/// The predicate "is not `c`".
pub open spec fn other_than(c: char) -> spec_fn(char) -> bool {
    |x: char| x != c
}

/// `s` without any occurrence of `c`.
pub open spec fn without(s: Seq<char>, c: char) -> Seq<char> {
    s.filter(other_than(c))
}

/// The value of a decimal digit, or `None` for any other character.
pub open spec fn digit_value(c: char) -> Option<nat> {
    let u = c as u32;
    if 0x30 <= u <= 0x39 {
        Some((u - 0x30) as nat)
    } else {
        None
    }
}

/// Reads `s` as decimal digits that follow a number `so_far`, from left to
/// right. The first character that is no digit, or the first digit with
/// which the number no longer fits in 64 bits, decides the error.
pub open spec fn read_digits(s: Seq<char>, so_far: nat) -> Result<u64, IntErrorKind>
    decreases s.len(),
{
    if s.len() == 0 {
        Ok(so_far as u64)
    } else {
        match digit_value(s.first()) {
            None => Err(IntErrorKind::InvalidDigit),
            Some(d) => if so_far * 10 + d > u64::MAX {
                Err(IntErrorKind::PosOverflow)
            } else {
                read_digits(s.drop_first(), so_far * 10 + d)
            },
        }
    }
}

/// Reads `s` as an unsigned decimal number: an optional `+`, then at least
/// one digit, and nothing else.
pub open spec fn decimal(s: Seq<char>) -> Result<u64, IntErrorKind> {
    if s.len() == 0 {
        Err(IntErrorKind::Empty)
    } else {
        let digits = if s.first() == '+' {
            s.drop_first()
        } else {
            s
        };
        if digits.len() == 0 {
            Err(IntErrorKind::InvalidDigit)
        } else {
            read_digits(digits, 0)
        }
    }
}

/// Reads `s` as an unsigned decimal number other than zero.
pub open spec fn nonzero_decimal(s: Seq<char>) -> Result<u64, IntErrorKind> {
    match decimal(s) {
        Ok(value) => if value == 0 {
            Err(IntErrorKind::Zero)
        } else {
            Ok(value)
        },
        Err(kind) => Err(kind),
    }
}

/// The character that stands for the digit `d`, for `d < 10`.
pub open spec fn digit_char(d: nat) -> char {
    (0x30 + d) as char
}

/// `n` in decimal digits, without leading zeros.
pub open spec fn decimal_text(n: nat) -> Seq<char>
    decreases n,
{
    if n < 10 {
        seq![digit_char(n)]
    } else {
        decimal_text(n / 10).push(digit_char(n % 10))
    }
}

/// Reading digits that end in one more digit gives ten times the number
/// read without it, plus that digit, as long as this fits in 64 bits.
pub proof fn lemma_read_one_more(s: Seq<char>, so_far: nat, d: nat)
    requires
        d < 10,
        so_far <= u64::MAX,
        read_digits(s, so_far) is Ok,
        read_digits(s, so_far)->Ok_0 * 10 + d <= u64::MAX,
    ensures
        read_digits(s.push(digit_char(d)), so_far) == Ok::<u64, IntErrorKind>(
            (read_digits(s, so_far)->Ok_0 * 10 + d) as u64,
        ),
    decreases s.len(),
{
    let longer = s.push(digit_char(d));
    if s.len() == 0 {
        assert(longer.drop_first() =~= s);
        assert(digit_value(longer.first()) == Some(d));
        assert(read_digits(s, so_far * 10 + d) == Ok::<u64, IntErrorKind>(
            (so_far * 10 + d) as u64,
        ));
    } else {
        assert(longer.drop_first() =~= s.drop_first().push(digit_char(d)));
        assert(longer.first() == s.first());
        let first = digit_value(s.first())->Some_0;
        lemma_read_one_more(s.drop_first(), so_far * 10 + first, d);
    }
}

/// The decimal digits of a number that fits in 64 bits read back as that
/// number.
pub proof fn lemma_decimal_round_trip(n: nat)
    requires
        n <= u64::MAX,
    ensures
        decimal_text(n).len() > 0,
        decimal_text(n).first() != '+',
        read_digits(decimal_text(n), 0) == Ok::<u64, IntErrorKind>(n as u64),
        decimal(decimal_text(n)) == Ok::<u64, IntErrorKind>(n as u64),
    decreases n,
{
    if n < 10 {
        let s = decimal_text(n);
        assert(s.drop_first() =~= Seq::<char>::empty());
        assert(digit_value(s.first()) == Some(n));
        assert(read_digits(s.drop_first(), n) == Ok::<u64, IntErrorKind>(n as u64));
    } else {
        lemma_decimal_round_trip(n / 10);
        lemma_read_one_more(decimal_text(n / 10), 0, n % 10);
        assert(decimal_text(n).first() == decimal_text(n / 10).first());
    }
}

/// The characters of `text`, in order.
pub fn characters(text: &str) -> (chars: Vec<char>)
    ensures
        chars@ == text@,
{
    let mut chars: Vec<char> = Vec::new();
    for c in it: text.chars()
        invariant
            chars@ == it.seq().take(it.index() as int),
            it.seq() == text@,
    {
        chars.push(c);
    }
    chars
}

/// Whether `c` is white space.
pub fn is_space(c: char) -> (space: bool)
    ensures
        space == is_whitespace(c),
{
    let u: u32 = c as u32;
    (0x09 <= u && u <= 0x0D) || u == 0x20 || u == 0x85 || u == 0xA0 || u == 0x1680 || (0x2000 <= u
        && u <= 0x200A) || u == 0x2028 || u == 0x2029 || u == 0x202F || u == 0x205F || u == 0x3000
}

/// Whether `c` occurs in `chars`.
pub fn occurs(chars: &Vec<char>, c: char) -> (found: bool)
    ensures
        found == chars@.contains(c),
{
    let mut i: usize = 0;
    while i < chars.len()
        invariant
            i <= chars.len(),
            forall|j: int| 0 <= j < i ==> chars@[j] != c,
        decreases chars.len() - i,
    {
        if chars[i] == c {
            return true;
        }
        i += 1;
    }
    false
}

/// `chars` without any occurrence of `c`.
pub fn remove_all(chars: &Vec<char>, c: char) -> (kept: Vec<char>)
    ensures
        kept@ == without(chars@, c),
{
    let mut kept: Vec<char> = Vec::new();
    let mut i: usize = 0;
    proof {
        reveal(Seq::filter);
        assert(chars@.take(0) =~= Seq::<char>::empty());
    }
    while i < chars.len()
        invariant
            i <= chars.len(),
            kept@ == without(chars@.take(i as int), c),
        decreases chars.len() - i,
    {
        proof {
            reveal(Seq::filter);
            assert(chars@.take(i + 1).drop_last() =~= chars@.take(i as int));
        }
        if chars[i] != c {
            kept.push(chars[i]);
        }
        i += 1;
    }
    proof {
        assert(chars@.take(i as int) =~= chars@);
    }
    kept
}

/// Where `chars` without the white space around it begins and ends.
pub fn trim_bounds(chars: &Vec<char>) -> (bounds: (usize, usize))
    ensures
        bounds.0 <= bounds.1 <= chars.len(),
        chars@.subrange(bounds.0 as int, bounds.1 as int) == trim(chars@),
{
    let len = chars.len();
    let mut from: usize = 0;
    proof {
        assert(chars@.subrange(0, len as int) =~= chars@);
    }
    while from < len && is_space(chars[from])
        invariant
            from <= len == chars.len(),
            trim_start(chars@.subrange(from as int, len as int)) == trim_start(chars@),
        decreases len - from,
    {
        proof {
            let s = chars@.subrange(from as int, len as int);
            assert(s.drop_first() =~= chars@.subrange(from + 1, len as int));
        }
        from += 1;
    }
    let mut to: usize = len;
    while to > from && is_space(chars[to - 1])
        invariant
            from <= to <= len == chars.len(),
            trim_start(chars@) == chars@.subrange(from as int, len as int),
            trim_end(chars@.subrange(from as int, to as int)) == trim(chars@),
        decreases to,
    {
        proof {
            let s = chars@.subrange(from as int, to as int);
            assert(s.drop_last() =~= chars@.subrange(from as int, to - 1));
        }
        to -= 1;
    }
    (from, to)
}

/// The value of the decimal digit `c`, or `None` if it is no digit.
pub fn digit(c: char) -> (value: Option<u64>)
    ensures
        match value {
            Some(d) => digit_value(c) == Some(d as nat),
            None => digit_value(c) is None,
        },
{
    let u: u32 = c as u32;
    if 0x30 <= u && u <= 0x39 {
        Some((u - 0x30) as u64)
    } else {
        None
    }
}

/// Reads the characters of `chars` from `from` up to `to` as an unsigned
/// decimal number.
pub fn parse_decimal(chars: &Vec<char>, from: usize, to: usize) -> (result: Result<
    u64,
    IntErrorKind,
>)
    requires
        from <= to <= chars.len(),
    ensures
        result == decimal(chars@.subrange(from as int, to as int)),
{
    if from == to {
        return Err(IntErrorKind::Empty);
    }
    let ghost text = chars@.subrange(from as int, to as int);
    let mut i: usize = from;
    if chars[from] == '+' {
        i = from + 1;
        proof {
            assert(text.drop_first() =~= chars@.subrange(i as int, to as int));
        }
    }
    if i == to {
        return Err(IntErrorKind::InvalidDigit);
    }
    let mut value: u64 = 0;
    while i < to
        invariant
            from <= i <= to <= chars.len(),
            text == chars@.subrange(from as int, to as int),
            decimal(text) == read_digits(chars@.subrange(i as int, to as int), value as nat),
        decreases to - i,
    {
        proof {
            let s = chars@.subrange(i as int, to as int);
            assert(s.drop_first() =~= chars@.subrange(i + 1, to as int));
        }
        match digit(chars[i]) {
            None => {
                return Err(IntErrorKind::InvalidDigit);
            },
            Some(d) => {
                if value > (u64::MAX - d) / 10 {
                    return Err(IntErrorKind::PosOverflow);
                }
                value = value * 10 + d;
            },
        }
        i += 1;
    }
    Ok(value)
}

/// Reads the characters of `chars` from `from` up to `to` as an unsigned
/// decimal number other than zero.
pub fn parse_nonzero_decimal(chars: &Vec<char>, from: usize, to: usize) -> (result: Result<
    u64,
    IntErrorKind,
>)
    requires
        from <= to <= chars.len(),
    ensures
        result == nonzero_decimal(chars@.subrange(from as int, to as int)),
{
    match parse_decimal(chars, from, to) {
        Ok(value) => if value == 0 {
            Err(IntErrorKind::Zero)
        } else {
            Ok(value)
        },
        Err(kind) => Err(kind),
    }
}

/// The text of the digit `d`.
fn digit_text(d: u64) -> (text: &'static str)
    requires
        d < 10,
    ensures
        text@ == seq![digit_char(d as nat)],
{
    proof {
        reveal_strlit("0");
        reveal_strlit("1");
        reveal_strlit("2");
        reveal_strlit("3");
        reveal_strlit("4");
        reveal_strlit("5");
        reveal_strlit("6");
        reveal_strlit("7");
        reveal_strlit("8");
        reveal_strlit("9");
    }
    let text = match d {
        0 => "0",
        1 => "1",
        2 => "2",
        3 => "3",
        4 => "4",
        5 => "5",
        6 => "6",
        7 => "7",
        8 => "8",
        _ => "9",
    };
    assert(text@ =~= seq![digit_char(d as nat)]);
    text
}

/// `n` in decimal digits.
pub fn to_decimal(n: u64) -> (text: String)
    ensures
        text@ == decimal_text(n as nat),
    decreases n,
{
    if n < 10 {
        digit_text(n).to_owned()
    } else {
        let mut text = to_decimal(n / 10);
        text.append(digit_text(n % 10));
        proof {
            let d = digit_char((n % 10) as nat);
            assert(decimal_text((n / 10) as nat) + seq![d] =~= decimal_text((n / 10) as nat).push(
                d,
            ));
        }
        text
    }
}

} // verus!
