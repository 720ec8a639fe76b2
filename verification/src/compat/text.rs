//! Text as sequences of characters.
use vstd::prelude::*;
use vstd::string::*;

verus! {

/// Whether a character outside ASCII has the Unicode property `Alphabetic`.
pub uninterp spec fn alphabetic_beyond_ascii(c: char) -> bool;

/// Whether a character outside ASCII is in one of the Unicode categories of numbers.
pub uninterp spec fn numeric_beyond_ascii(c: char) -> bool;

/// Whether a character outside ASCII has the Unicode property `White_Space`.
pub uninterp spec fn white_space_beyond_ascii(c: char) -> bool;

pub open spec fn is_ascii_char(c: char) -> bool {
    c <= '\x7f'
}

/// Whether a character is alphabetic: in ASCII, a letter.
pub open spec fn alphabetic(c: char) -> bool {
    if is_ascii_char(c) {
        'a' <= c <= 'z' || 'A' <= c <= 'Z'
    } else {
        alphabetic_beyond_ascii(c)
    }
}

/// Whether a character is a number: in ASCII, a digit.
pub open spec fn numeric(c: char) -> bool {
    if is_ascii_char(c) {
        '0' <= c <= '9'
    } else {
        numeric_beyond_ascii(c)
    }
}

/// Whether a character is whitespace: in ASCII, the space, the tab, the line feed, the vertical
/// tab, the form feed or the carriage return.
pub open spec fn white_space(c: char) -> bool {
    if is_ascii_char(c) {
        c == ' ' || '\t' <= c <= '\r'
    } else {
        white_space_beyond_ascii(c)
    }
}

/// `char::is_alphabetic` tells the Unicode property `Alphabetic`, which in ASCII the letters have.
pub assume_specification[ char::is_alphabetic ](c: char) -> (r: bool)
    ensures
        r == (if is_ascii_char(c) {
            'a' <= c <= 'z' || 'A' <= c <= 'Z'
        } else {
            alphabetic_beyond_ascii(c)
        }),
;

/// `char::is_alphanumeric` tells whether a character is alphabetic or in one of the Unicode
/// categories of numbers, which in ASCII the digits are.
pub assume_specification[ char::is_alphanumeric ](c: char) -> (r: bool)
    ensures
        r == (alphabetic(c) || if is_ascii_char(c) {
            '0' <= c <= '9'
        } else {
            numeric_beyond_ascii(c)
        }),
;

/// `char::is_whitespace` tells the Unicode property `White_Space`, which in ASCII the space and
/// the five control characters from tab to carriage return have.
pub assume_specification[ char::is_whitespace ](c: char) -> (r: bool)
    ensures
        r == (if is_ascii_char(c) {
            c == ' ' || '\t' <= c <= '\r'
        } else {
            white_space_beyond_ascii(c)
        }),
;

/// `String::push`: appends a character.
pub assume_specification[ String::push ](s: &mut String, c: char)
    ensures
        final(s)@ == old(s)@.push(c),
;

/// The characters of a text.
pub fn characters(s: &str) -> (r: Vec<char>)
    ensures
        r@ == s@,
{
    let mut r: Vec<char> = Vec::new();
    for c in iter: s.chars()
        invariant
            iter.seq() == s@,
            r@ =~= s@.take(iter.index()),
    {
        r.push(c);
    }
    assert(r@ =~= s@);
    r
}

/// The text made of some characters.
pub fn text_of(chars: &Vec<char>) -> (r: String)
    ensures
        r@ == chars@,
{
    let mut r = String::new();
    for i in 0..chars.len()
        invariant
            r@ =~= chars@.take(i as int),
    {
        r.push(chars[i]);
    }
    assert(r@ =~= chars@);
    r
}

/// Whether two texts are equal.
pub fn same_text(a: &str, b: &str) -> (r: bool)
    ensures
        r == (a@ == b@),
{
    a.to_owned() == b.to_owned()
}

/// `a` comes before `b`: at the first difference its character is the lesser one, or it ends.
pub open spec fn precedes(a: Seq<char>, b: Seq<char>) -> bool
    decreases a.len(),
{
    if b.len() == 0 {
        false
    } else if a.len() == 0 {
        true
    } else if a[0] == b[0] {
        precedes(a.drop_first(), b.drop_first())
    } else {
        a[0] < b[0]
    }
}

/// Whether `a` comes before `b`.
pub fn comes_before(a: &str, b: &str) -> (r: bool)
    ensures
        r == precedes(a@, b@),
{
    let x = characters(a);
    let y = characters(b);
    let n = if x.len() <= y.len() {
        x.len()
    } else {
        y.len()
    };
    assert(x@.skip(0) =~= x@ && y@.skip(0) =~= y@);
    for i in 0..n
        invariant
            n <= x@.len(),
            n <= y@.len(),
            x@ == a@,
            y@ == b@,
            precedes(x@, y@) == precedes(x@.skip(i as int), y@.skip(i as int)),
    {
        proof {
            assert(x@.skip(i as int).drop_first() =~= x@.skip(i + 1));
            assert(y@.skip(i as int).drop_first() =~= y@.skip(i + 1));
        }
        if x[i] != y[i] {
            return x[i] < y[i];
        }
    }
    x.len() < y.len()
}

/// A number in decimal.
pub open spec fn decimal(n: nat) -> Seq<char>
    decreases n,
{
    let last = seq![(('0' as int) + n % 10) as char];
    if n < 10 {
        last
    } else {
        decimal(n / 10) + last
    }
}

fn digit(n: usize) -> (r: char)
    requires
        n < 10,
    ensures
        r == (('0' as int) + n) as char,
{
    (48u8 + n as u8) as char
}

/// Writes a number in decimal.
pub fn number_text(n: usize) -> (r: String)
    ensures
        r@ == decimal(n as nat),
    decreases n,
{
    let mut r = if n < 10 {
        String::new()
    } else {
        number_text(n / 10)
    };
    r.push(digit(n % 10));
    assert(r@ =~= decimal(n as nat));
    r
}

/// The texts with a separator between each and the next.
pub open spec fn separated(parts: Seq<Seq<char>>, separator: Seq<char>) -> Seq<char>
    decreases parts.len(),
{
    if parts.len() == 0 {
        seq![]
    } else if parts.len() == 1 {
        parts[0]
    } else {
        separated(parts.drop_last(), separator) + separator + parts.last()
    }
}

/// What some texts hold.
pub open spec fn texts(parts: Seq<String>) -> Seq<Seq<char>> {
    Seq::new(parts.len(), |i: int| parts[i]@)
}

/// Writes the texts with a separator between each and the next.
pub fn join(parts: &Vec<String>, separator: &str) -> (r: String)
    ensures
        r@ == separated(texts(parts@), separator@),
{
    let mut r = String::new();
    for i in 0..parts.len()
        invariant
            r@ =~= separated(texts(parts@).take(i as int), separator@),
    {
        assert(texts(parts@).take(i + 1).drop_last() =~= texts(parts@).take(i as int));
        r = if i == 0 {
            parts[i].clone()
        } else {
            r.concat(separator).concat(parts[i].as_str())
        };
    }
    assert(texts(parts@).take(parts@.len() as int) =~= texts(parts@));
    r
}

/// The number that some decimal digits stand for.
pub open spec fn number_of(digits: Seq<char>) -> int
    decreases digits.len(),
{
    if digits.len() == 0 {
        0
    } else {
        10 * number_of(digits.drop_last()) + (digits.last() as int - '0' as int)
    }
}

/// A number in decimal is made of digits, stands for the number, and begins with a zero only if it
/// is zero.
pub proof fn law_decimal(n: nat)
    ensures
        number_of(decimal(n)) == n,
        decimal(n).len() > 0,
        forall|i: int| 0 <= i < decimal(n).len() ==> '0' <= #[trigger] decimal(n)[i] <= '9',
        decimal(n)[0] == '0' ==> n == 0,
    decreases n,
{
    let c = (('0' as int) + n % 10) as char;
    assert(c as int == '0' as int + n % 10);
    let d = decimal(n);
    assert(d.last() == c);
    if n < 10 {
        assert(d.drop_last() =~= seq![]);
        reveal_with_fuel(number_of, 2);
    } else {
        law_decimal(n / 10);
        assert(d.drop_last() =~= decimal(n / 10));
        assert(d[0] == decimal(n / 10)[0]);
        assert forall|i: int| 0 <= i < d.len() implies '0' <= #[trigger] d[i] <= '9' by {
            if i < d.len() - 1 {
                assert(d[i] == decimal(n / 10)[i]);
            }
        }
    }
}

} // verus!
