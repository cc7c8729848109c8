//! Text primitives shared by the loader and the query layer: splitting a
//! line on a separator, comparing texts, and decimal notation for `usize`.

use vstd::prelude::*;
use vstd::utf8::encode_utf8_decode_utf8;

verus! {

/// The texts held by a sequence of strings.
pub open spec fn texts(v: Seq<String>) -> Seq<Seq<char>> {
    Seq::new(v.len(), |i: int| v[i]@)
}

/// The pieces of `s` between occurrences of `sep`. A text with `n`
/// separators has `n + 1` pieces, some of which may be empty.
pub open spec fn split(s: Seq<char>, sep: char) -> Seq<Seq<char>>
    decreases s.len(),
{
    if s.len() == 0 {
        seq![Seq::empty()]
    } else {
        let before = split(s.drop_last(), sep);
        if s.last() == sep {
            before.push(Seq::empty())
        } else {
            before.drop_last().push(before.last().push(s.last()))
        }
    }
}

/// The pieces put together again, with `sep` between each and the next.
pub open spec fn join(pieces: Seq<Seq<char>>, sep: char) -> Seq<char>
    decreases pieces.len(),
{
    if pieces.len() == 0 {
        Seq::empty()
    } else if pieces.len() == 1 {
        pieces[0]
    } else {
        join(pieces.drop_last(), sep).push(sep) + pieces.last()
    }
}

/// Splitting loses nothing: no piece holds the separator, and the pieces
/// joined by the separator are the text again.
pub proof fn lemma_join_split(s: Seq<char>, sep: char)
    ensures
        forall|i: int, j: int|
            0 <= i < split(s, sep).len() && 0 <= j < split(s, sep)[i].len() ==> #[trigger] split(
                s,
                sep,
            )[i][j] != sep,
        join(split(s, sep), sep) == s,
    decreases s.len(),
{
    if s.len() > 0 {
        let shorter = s.drop_last();
        let before = split(shorter, sep);
        let now = split(s, sep);
        lemma_join_split(shorter, sep);
        lemma_split_sizes(shorter, sep);
        if s.last() == sep {
            assert(now.drop_last() =~= before);
            assert(join(now, sep) =~= join(before, sep).push(sep) + Seq::<char>::empty());
            assert(join(now, sep) =~= s);
            assert forall|i: int, j: int| 0 <= i < now.len() && 0 <= j < now[i].len() implies #[trigger] now[i][j]
                != sep by {
                assert(now[i] == before[i]);
            }
        } else {
            let grown = before.last().push(s.last());
            assert(now.last() == grown);
            assert forall|i: int, j: int| 0 <= i < now.len() && 0 <= j < now[i].len() implies #[trigger] now[i][j]
                != sep by {
                if i < now.len() - 1 {
                    assert(now[i] == before[i]);
                } else if j < before.last().len() {
                    assert(now[i][j] == before[i][j]);
                }
            }
            if before.len() == 1 {
                assert(join(now, sep) =~= s);
            } else {
                assert(now.drop_last() =~= before.drop_last());
                assert(join(before, sep) == join(before.drop_last(), sep).push(sep) + before.last());
                assert(join(now, sep) =~= join(before, sep).push(s.last()));
                assert(join(now, sep) =~= s);
            }
        }
    } else {
        assert(join(split(s, sep), sep) =~= s);
    }
}

/// A text has at most one piece more than it has characters, and no piece
/// is longer than the text.
pub proof fn lemma_split_sizes(s: Seq<char>, sep: char)
    ensures
        1 <= split(s, sep).len() <= s.len() + 1,
        forall|i: int| 0 <= i < split(s, sep).len() ==> (#[trigger] split(s, sep)[i]).len() <= s.len(),
    decreases s.len(),
{
    if s.len() > 0 {
        lemma_split_sizes(s.drop_last(), sep);
        let before = split(s.drop_last(), sep);
        assert forall|i: int| 0 <= i < split(s, sep).len() implies (#[trigger] split(s, sep)[i]).len()
            <= s.len() by {
            if i < before.len() - 1 {
                assert(split(s, sep)[i] == before[i]);
            } else if i == before.len() - 1 {
                assert(before[i].len() <= s.len() - 1);
            }
        }
    }
}

/// Makes a `String` of characters with `String::from_iter`, which the
/// standard library has for an iterator over `&char`. The contract claims
/// that the string holds exactly the characters of `v`, in their order.
#[verifier::external_body]
pub(crate) fn string_from_chars(v: &Vec<char>) -> (s: String)
    ensures
        s@ == v@,
{
    String::from_iter(v)
}

/// Splits `s` on every occurrence of `sep`.
pub fn split_on(s: &str, sep: char) -> (pieces: Vec<String>)
    ensures
        texts(pieces@) == split(s@, sep),
{
    let mut pieces: Vec<String> = Vec::new();
    let mut cur: Vec<char> = Vec::new();
    for c in it: s.chars()
        invariant
            it.seq() == s@,
            texts(pieces@).push(cur@) == split(s@.take(it.index()), sep),
    {
        let ghost prefix = s@.take(it.index());
        let ghost longer = s@.take(it.index() + 1);
        proof {
            assert(longer.drop_last() =~= prefix);
            assert(longer.last() == c);
        }
        if c == sep {
            let piece = string_from_chars(&cur);
            let ghost was = texts(pieces@);
            pieces.push(piece);
            cur = Vec::new();
            proof {
                assert(texts(pieces@) =~= was.push(piece@));
            }
        } else {
            let ghost was = cur@;
            cur.push(c);
            proof {
                assert(texts(pieces@).push(was).drop_last() =~= texts(pieces@));
            }
        }
    }
    let piece = string_from_chars(&cur);
    proof {
        assert(s@.take(s@.len() as int) =~= s@);
        assert(texts(pieces@.push(piece)) =~= texts(pieces@).push(cur@));
    }
    pieces.push(piece);
    pieces
}

/// Copies a list of texts.
pub fn copy_texts(list: &[String]) -> (r: Vec<String>)
    ensures
        texts(r@) == texts(list@),
{
    let mut r: Vec<String> = Vec::new();
    for i in 0..list.len()
        invariant
            texts(r@) == texts(list@).take(i as int),
    {
        let ghost was = texts(r@);
        r.push(list[i].clone());
        proof {
            assert(texts(r@) =~= was.push(list[i as int]@));
            assert(texts(r@) =~= texts(list@).take(i + 1));
        }
    }
    proof {
        assert(texts(list@).take(list@.len() as int) =~= texts(list@));
    }
    r
}

/// Whether two texts hold the same characters.
pub fn same_text(a: &str, b: &str) -> (r: bool)
    ensures
        r == (a@ == b@),
{
    let x = a.as_bytes();
    let y = b.as_bytes();
    proof {
        encode_utf8_decode_utf8(a@);
        encode_utf8_decode_utf8(b@);
    }
    if x.len() != y.len() {
        return false;
    }
    let mut i: usize = 0;
    while i < x.len()
        invariant
            i <= x.len(),
            x.len() == y.len(),
            forall|j: int| 0 <= j < i ==> x[j] == y[j],
            x@ != y@ ==> a@ != b@,
        decreases x.len() - i,
    {
        if x[i] != y[i] {
            return false;
        }
        i += 1;
    }
    proof {
        assert(x@ =~= y@);
    }
    true
}

/// Why a text is no decimal numeral of a `usize`.
#[derive(Clone, Copy, Debug, PartialEq, Eq, Structural)]
pub enum NumeralError {
    /// The text is empty.
    Empty,
    /// A character is no decimal digit, or a lone `+` stands for the number.
    InvalidDigit,
    /// The number does not fit in a `usize`.
    TooLarge,
}

impl NumeralError {
    /// What is wrong with the numeral, in the words that the standard
    /// library uses for the same fault.
    pub open spec fn spec_message(self) -> Seq<char> {
        match self {
            NumeralError::Empty => "cannot parse integer from empty string"@,
            NumeralError::InvalidDigit => "invalid digit found in string"@,
            NumeralError::TooLarge => "number too large to fit in target type"@,
        }
    }

    /// A sentence that says what is wrong with the numeral.
    pub fn message(&self) -> (m: String)
        ensures
            m@ == self.spec_message(),
    {
        match self {
            NumeralError::Empty => String::from_str("cannot parse integer from empty string"),
            NumeralError::InvalidDigit => String::from_str("invalid digit found in string"),
            NumeralError::TooLarge => String::from_str("number too large to fit in target type"),
        }
    }
}

/// Whether a character is a decimal digit.
pub open spec fn is_digit(c: char) -> bool {
    '0' <= c <= '9'
}

/// The value of a decimal digit.
pub open spec fn digit_value(c: char) -> nat {
    (c as nat - '0' as nat) as nat
}

/// The decimal digit of a value below ten.
pub open spec fn digit_char(d: nat) -> char {
    ('0' as nat + d) as char
}

/// The value of a run of decimal digits read from the left, or the first
/// fault met on the way: a character that is no digit, or a value that has
/// grown beyond `usize::MAX`.
pub open spec fn digits_value(s: Seq<char>) -> Result<nat, NumeralError>
    decreases s.len(),
{
    if s.len() == 0 {
        Ok(0)
    } else {
        match digits_value(s.drop_last()) {
            Err(e) => Err(e),
            Ok(v) => if !is_digit(s.last()) {
                Err(NumeralError::InvalidDigit)
            } else if v * 10 + digit_value(s.last()) > usize::MAX {
                Err(NumeralError::TooLarge)
            } else {
                Ok(v * 10 + digit_value(s.last()))
            },
        }
    }
}

/// The number that a text denotes: decimal digits, with an optional `+` in
/// front of them.
pub open spec fn numeral_value(s: Seq<char>) -> Result<nat, NumeralError> {
    if s.len() == 0 {
        Err(NumeralError::Empty)
    } else if s == seq!['+'] {
        Err(NumeralError::InvalidDigit)
    } else if s[0] == '+' {
        digits_value(s.skip(1))
    } else {
        digits_value(s)
    }
}

/// Reads a `usize` written in decimal notation.
pub fn read_usize(s: &str) -> (r: Result<usize, NumeralError>)
    ensures
        match r {
            Ok(n) => numeral_value(s@) == Ok::<nat, NumeralError>(n as nat),
            Err(e) => numeral_value(s@) == Err::<nat, NumeralError>(e),
        },
{
    let mut value: usize = 0;
    let mut first = true;
    let mut signed = false;
    for c in it: s.chars()
        invariant
            it.seq() == s@,
            first == (it.index() == 0),
            signed ==> it.index() >= 1 && s@[0] == '+',
            !signed && !first ==> s@[0] != '+',
            digits_value(s@.subrange(if signed { 1int } else { 0int }, it.index() as int))
                == Ok::<nat, NumeralError>(value as nat),
    {
        let ghost from = if signed { 1int } else { 0int };
        let ghost upto = it.index() as int;
        if first && c == '+' {
            signed = true;
            first = false;
            proof {
                assert(s@.subrange(1, 1) =~= Seq::<char>::empty());
            }
        } else {
            first = false;
            proof {
                let longer = s@.subrange(from, upto + 1);
                assert(longer.drop_last() =~= s@.subrange(from, upto));
                assert(longer.last() == c);
            }
            if c < '0' || c > '9' {
                proof {
                    lemma_digits_fault_stays(s@, from, upto + 1);
                    lemma_numeral_of_digits(s@, signed);
                }
                return Err(NumeralError::InvalidDigit);
            }
            let d: usize = (c as u32 - '0' as u32) as usize;
            let next = match value.checked_mul(10) {
                Some(tenfold) => tenfold.checked_add(d),
                None => None,
            };
            match next {
                Some(n) => {
                    value = n;
                },
                None => {
                    proof {
                        lemma_digits_fault_stays(s@, from, upto + 1);
                        lemma_numeral_of_digits(s@, signed);
                    }
                    return Err(NumeralError::TooLarge);
                },
            }
        }
    }
    if first {
        Err(NumeralError::Empty)
    } else if signed && s.unicode_len() == 1 {
        proof {
            assert(s@ =~= seq!['+']);
        }
        Err(NumeralError::InvalidDigit)
    } else {
        proof {
            lemma_numeral_of_digits(s@, signed);
        }
        Ok(value)
    }
}

/// Once reading the digits has met a fault, reading further keeps it.
proof fn lemma_digits_fault_stays(s: Seq<char>, from: int, upto: int)
    requires
        0 <= from <= upto <= s.len(),
        digits_value(s.subrange(from, upto)) is Err,
    ensures
        digits_value(s.subrange(from, s.len() as int)) == digits_value(s.subrange(from, upto)),
    decreases s.len() - upto,
{
    if upto < s.len() {
        let longer = s.subrange(from, upto + 1);
        assert(longer.drop_last() =~= s.subrange(from, upto));
        lemma_digits_fault_stays(s, from, upto + 1);
    } else {
        assert(s.subrange(from, upto) =~= s.subrange(from, s.len() as int));
    }
}

/// Relates the numeral to the digits behind its optional sign.
proof fn lemma_numeral_of_digits(s: Seq<char>, signed: bool)
    requires
        s.len() > 0,
        signed ==> s[0] == '+',
        !signed ==> s[0] != '+',
        s != seq!['+'],
    ensures
        numeral_value(s) == digits_value(s.subrange(if signed { 1int } else { 0int }, s.len() as int)),
{
    assert(s.subrange(0, s.len() as int) =~= s);
    assert(s.subrange(1, s.len() as int) =~= s.skip(1));
}

/// The decimal notation of `n`, without sign or leading zeros.
pub open spec fn decimal(n: nat) -> Seq<char>
    decreases n,
{
    if n < 10 {
        seq![digit_char(n)]
    } else {
        decimal(n / 10).push(digit_char(n % 10))
    }
}

/// Writes `n` in decimal notation.
pub fn usize_to_string(n: usize) -> (s: String)
    ensures
        s@ == decimal(n as nat),
{
    let mut reversed: Vec<char> = Vec::new();
    let mut rest: usize = n;
    while rest >= 10
        invariant
            decimal(n as nat) == decimal(rest as nat) + reversed@.reverse(),
        decreases rest,
    {
        let d: u8 = (rest % 10) as u8;
        let ghost was = reversed@;
        reversed.push((48u8 + d) as char);
        proof {
            assert(reversed@.reverse() =~= seq![digit_char((rest % 10) as nat)] + was.reverse());
            assert(decimal(rest as nat) + was.reverse() =~= decimal((rest / 10) as nat)
                + reversed@.reverse());
        }
        rest = rest / 10;
    }
    reversed.push((48u8 + rest as u8) as char);
    let mut digits: Vec<char> = Vec::new();
    let mut i: usize = reversed.len();
    while i > 0
        invariant
            i <= reversed.len(),
            digits@ == reversed@.reverse().take(reversed.len() - i),
        decreases i,
    {
        i -= 1;
        digits.push(reversed[i]);
        proof {
            let r = reversed@.reverse();
            assert(digits@ =~= r.take(reversed.len() - i));
        }
    }
    proof {
        let r = reversed@.reverse();
        assert(r.take(reversed.len() as int) =~= r);
    }
    string_from_chars(&digits)
}

} // verus!
