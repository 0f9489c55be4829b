//! Text as sequences of characters: decimal numbers, padding, lines, fields and
//! integer parsing.
use vstd::arithmetic::power2::{lemma2_to64, lemma_pow2_pos, lemma_pow2_unfold, pow2};
use vstd::prelude::*;
use vstd::slice::slice_subrange;
use vstd::string::*;

verus! {

/// `String::push` appends one character at the end.
pub assume_specification[ String::push ](s: &mut String, c: char)
    ensures
        final(s)@ == old(s)@.push(c),
;

// ---- plain conversions ----

/// The characters of a string.
pub fn chars_of(s: &str) -> (r: Vec<char>)
    ensures
        r@ == s@,
{
    let mut r: Vec<char> = Vec::new();
    for c in it: s.chars()
        invariant
            r@ == it.seq().take(it.index()),
            it.seq() == s@,
    {
        r.push(c);
    }
    assert(s@.take(s@.len() as int) =~= s@);
    r
}

/// The string made of the given characters.
pub fn text_of(s: &[char]) -> (r: String)
    ensures
        r@ == s@,
{
    let mut r = String::new();
    let mut i: usize = 0;
    while i < s.len()
        invariant
            i <= s.len(),
            r@ == s@.take(i as int),
        decreases s.len() - i,
    {
        r.push(s[i]);
        i = i + 1;
        assert(s@.take(i as int) =~= s@.take(i - 1).push(s@[i - 1]));
    }
    assert(s@.take(s@.len() as int) =~= s@);
    r
}

/// Whether two strings hold the same characters.
pub fn same_text(a: &str, b: &str) -> (r: bool)
    ensures
        r == (a@ == b@),
{
    a.to_owned() == b.to_owned()
}

/// Whether two character slices hold the same characters.
pub fn same_chars(a: &[char], b: &[char]) -> (r: bool)
    ensures
        r == (a@ == b@),
{
    if a.len() != b.len() {
        return false;
    }
    let mut i: usize = 0;
    while i < a.len()
        invariant
            i <= a.len(),
            a.len() == b.len(),
            forall|j: int| 0 <= j < i ==> a@[j] == b@[j],
        decreases a.len() - i,
    {
        if a[i] != b[i] {
            assert(a@[i as int] != b@[i as int]);
            return false;
        }
        i = i + 1;
    }
    assert(a@ =~= b@);
    true
}

/// The texts of a list of strings.
pub open spec fn texts(v: Seq<String>) -> Seq<Seq<char>> {
    Seq::new(v.len(), |i: int| v[i]@)
}

/// The character sequences of a list of slices.
pub open spec fn slices(v: Seq<&[char]>) -> Seq<Seq<char>> {
    Seq::new(v.len(), |i: int| v[i]@)
}

// ---- joining and padding ----

/// The parts, with `sep` between neighbours.
pub open spec fn joined(parts: Seq<Seq<char>>, sep: Seq<char>) -> Seq<char>
    decreases parts.len(),
{
    if parts.len() == 0 {
        Seq::empty()
    } else if parts.len() == 1 {
        parts[0]
    } else {
        joined(parts.drop_last(), sep) + sep + parts.last()
    }
}

/// The strings, with `sep` between neighbours.
pub fn join(parts: &[String], sep: &str) -> (r: String)
    ensures
        r@ == joined(texts(parts@), sep@),
{
    let mut r = String::new();
    let mut i: usize = 0;
    while i < parts.len()
        invariant
            i <= parts.len(),
            r@ == joined(texts(parts@).take(i as int), sep@),
        decreases parts.len() - i,
    {
        proof {
            let t = texts(parts@).take(i + 1);
            assert(t.drop_last() =~= texts(parts@).take(i as int));
            assert(t.last() == parts@[i as int]@);
        }
        if i > 0 {
            r.append(sep);
        }
        r.append(parts[i].as_str());
        proof {
            assert(i == 0 ==> r@ =~= parts@[0]@);
        }
        i = i + 1;
    }
    assert(texts(parts@).take(parts@.len() as int) =~= texts(parts@));
    r
}

/// `n` copies of `c`.
pub open spec fn repeated(c: char, n: int) -> Seq<char> {
    Seq::new(
        if n > 0 {
            n as nat
        } else {
            0
        },
        |i: int| c,
    )
}

/// Appends `n` copies of `c`.
pub fn push_repeated(out: &mut String, c: char, n: usize)
    ensures
        final(out)@ == old(out)@ + repeated(c, n as int),
{
    let mut i: usize = 0;
    while i < n
        invariant
            i <= n,
            out@ == old(out)@ + repeated(c, i as int),
        decreases n - i,
    {
        out.push(c);
        i = i + 1;
        assert(out@ =~= old(out)@ + repeated(c, i as int));
    }
}

/// `s` in a column of `width` characters, flush left.
pub open spec fn flush_left(s: Seq<char>, width: int) -> Seq<char> {
    s + repeated(' ', width - s.len())
}

/// `s` in a column of `width` characters, flush right.
pub open spec fn flush_right(s: Seq<char>, width: int) -> Seq<char> {
    repeated(' ', width - s.len()) + s
}

fn missing(s: &str, width: usize) -> (r: usize)
    ensures
        r == if width > s@.len() {
            width - s@.len()
        } else {
            0
        },
{
    let n = s.unicode_len();
    if width > n {
        width - n
    } else {
        0
    }
}

/// Appends `s`, padded with spaces on the right to `width` characters.
pub fn push_left(out: &mut String, s: &str, width: usize)
    ensures
        final(out)@ == old(out)@ + flush_left(s@, width as int),
{
    out.append(s);
    push_repeated(out, ' ', missing(s, width));
    assert(repeated(' ', missing_of(s@, width as int)) =~= repeated(' ', width - s@.len()));
    assert(out@ =~= old(out)@ + flush_left(s@, width as int));
}

/// Appends `s`, padded with spaces on the left to `width` characters.
pub fn push_right(out: &mut String, s: &str, width: usize)
    ensures
        final(out)@ == old(out)@ + flush_right(s@, width as int),
{
    push_repeated(out, ' ', missing(s, width));
    out.append(s);
    assert(repeated(' ', missing_of(s@, width as int)) =~= repeated(' ', width - s@.len()));
    assert(out@ =~= old(out)@ + flush_right(s@, width as int));
}

spec fn missing_of(s: Seq<char>, width: int) -> int {
    if width > s.len() {
        width - s.len()
    } else {
        0
    }
}

// ---- decimal numbers ----

/// The character of a decimal digit.
pub open spec fn digit_char(d: int) -> char {
    (48 + d) as char
}

/// A number in decimal digits, without leading zeros.
pub open spec fn decimal(n: nat) -> Seq<char>
    decreases n,
{
    if n < 10 {
        seq![digit_char(n as int)]
    } else {
        decimal(n / 10).push(digit_char((n % 10) as int))
    }
}

/// An integer in decimal digits, with `-` before a negative one.
pub open spec fn signed_decimal(n: int) -> Seq<char> {
    if n < 0 {
        seq!['-'] + decimal((-n) as nat)
    } else {
        decimal(n as nat)
    }
}

/// An integer in at least `width` characters, the sign counted, filled up with zeros
/// behind the sign.
pub open spec fn zero_padded(n: int, width: int) -> Seq<char> {
    if n < 0 {
        let digits = decimal((-n) as nat);
        seq!['-'] + repeated('0', width - 1 - digits.len()) + digits
    } else {
        let digits = decimal(n as nat);
        repeated('0', width - digits.len()) + digits
    }
}

/// Appends a number in decimal digits.
pub fn push_decimal(out: &mut String, n: u128)
    ensures
        final(out)@ == old(out)@ + decimal(n as nat),
    decreases n,
{
    if n < 10 {
        out.push((48u8 + n as u8) as char);
        assert(out@ =~= old(out)@ + decimal(n as nat));
    } else {
        push_decimal(out, n / 10);
        out.push((48u8 + (n % 10) as u8) as char);
        assert(out@ =~= old(out)@ + decimal(n as nat));
    }
}

/// The absolute value of an integer.
pub fn magnitude(n: i64) -> (r: u64)
    ensures
        r == if n < 0 {
            -n
        } else {
            n as int
        },
{
    if n >= 0 {
        n as u64
    } else if n == i64::MIN {
        9_223_372_036_854_775_808
    } else {
        (-n) as u64
    }
}

/// Appends an integer in decimal digits.
pub fn push_signed(out: &mut String, n: i64)
    ensures
        final(out)@ == old(out)@ + signed_decimal(n as int),
{
    if n < 0 {
        out.push('-');
    }
    push_decimal(out, magnitude(n) as u128);
    assert(out@ =~= old(out)@ + signed_decimal(n as int));
}

/// Appends an integer, filled up with zeros to `width` characters.
pub fn push_zero_padded(out: &mut String, n: i64, width: usize)
    ensures
        final(out)@ == old(out)@ + zero_padded(n as int, width as int),
{
    let mut digits = String::new();
    push_decimal(&mut digits, magnitude(n) as u128);
    assert(digits@ =~= decimal(magnitude_of(n as int)));
    let len = digits.as_str().unicode_len();
    if n < 0 {
        out.push('-');
        let fill: usize = if width > 0 && width - 1 > len {
            width - 1 - len
        } else {
            0
        };
        push_repeated(out, '0', fill);
        out.append(digits.as_str());
        assert(repeated('0', fill as int) =~= repeated('0', width - 1 - digits@.len()));
        assert(out@ =~= old(out)@ + zero_padded(n as int, width as int));
    } else {
        let fill: usize = if width > len {
            width - len
        } else {
            0
        };
        push_repeated(out, '0', fill);
        out.append(digits.as_str());
        assert(repeated('0', fill as int) =~= repeated('0', width - digits@.len()));
        assert(out@ =~= old(out)@ + zero_padded(n as int, width as int));
    }
}

spec fn magnitude_of(n: int) -> nat {
    if n < 0 {
        (-n) as nat
    } else {
        n as nat
    }
}

// ---- searching ----

/// The first place of `c` in `s`, or the length of `s` where there is none.
pub open spec fn place_of(s: Seq<char>, c: char) -> nat
    decreases s.len(),
{
    if s.len() == 0 || s[0] == c {
        0
    } else {
        1 + place_of(s.drop_first(), c)
    }
}

/// `place_of` gives a place that holds `c` with no `c` before it, or the length where
/// `s` holds no `c`.
pub proof fn place_of_is_first(s: Seq<char>, c: char)
    ensures
        place_of(s, c) <= s.len(),
        forall|i: int| 0 <= i < place_of(s, c) ==> s[i] != c,
        place_of(s, c) < s.len() ==> s[place_of(s, c) as int] == c,
    decreases s.len(),
{
    if s.len() == 0 || s[0] == c {
    } else {
        let t = s.drop_first();
        place_of_is_first(t, c);
        assert forall|i: int| 0 <= i < place_of(s, c) implies s[i] != c by {
            if i > 0 {
                assert(t[i - 1] != c);
            }
        }
    }
}

proof fn place_of_unique(s: Seq<char>, c: char, k: int)
    requires
        0 <= k <= s.len(),
        forall|i: int| 0 <= i < k ==> s[i] != c,
        k < s.len() ==> s[k] == c,
    ensures
        place_of(s, c) == k,
{
    place_of_is_first(s, c);
    let p = place_of(s, c) as int;
    if p < k {
        assert(s[p] != c);
    } else if k < p {
        assert(s[k] != c);
    }
}

/// The first place of `c`, or the length where there is none.
pub fn find_char(s: &[char], c: char) -> (r: usize)
    ensures
        r == place_of(s@, c),
        r <= s@.len(),
{
    let mut i: usize = 0;
    while i < s.len()
        invariant
            i <= s.len(),
            forall|j: int| 0 <= j < i ==> s@[j] != c,
        decreases s.len() - i,
    {
        if s[i] == c {
            proof {
                place_of_unique(s@, c, i as int);
            }
            return i;
        }
        i = i + 1;
    }
    proof {
        place_of_unique(s@, c, i as int);
    }
    i
}

/// Whether `s` starts with `prefix`.
pub open spec fn starts_with(s: Seq<char>, prefix: Seq<char>) -> bool {
    prefix.len() <= s.len() && s.take(prefix.len() as int) == prefix
}

/// Whether `s` starts with `prefix`.
pub fn has_prefix(s: &[char], prefix: &[char]) -> (r: bool)
    ensures
        r == starts_with(s@, prefix@),
{
    if prefix.len() > s.len() {
        return false;
    }
    same_chars(slice_subrange(s, 0, prefix.len()), prefix)
}

// ---- lines and fields ----

/// White space, as Unicode lists it.
pub open spec fn is_space(c: char) -> bool {
    ||| 0x09 <= c as int <= 0x0d
    ||| c as int == 0x20
    ||| c as int == 0x85
    ||| c as int == 0xa0
    ||| c as int == 0x1680
    ||| 0x2000 <= c as int <= 0x200a
    ||| c as int == 0x2028
    ||| c as int == 0x2029
    ||| c as int == 0x202f
    ||| c as int == 0x205f
    ||| c as int == 0x3000
}

/// Whether a character is white space.
pub fn space(c: char) -> (r: bool)
    ensures
        r == is_space(c),
{
    let n = c as u32;
    (0x09 <= n && n <= 0x0d) || n == 0x20 || n == 0x85 || n == 0xa0 || n == 0x1680 || (0x2000 <= n
        && n <= 0x200a) || n == 0x2028 || n == 0x2029 || n == 0x202f || n == 0x205f || n == 0x3000
}

/// `s` without the white space at its start.
pub open spec fn trim_start(s: Seq<char>) -> Seq<char>
    decreases s.len(),
{
    if s.len() > 0 && is_space(s[0]) {
        trim_start(s.drop_first())
    } else {
        s
    }
}

/// `s` without the white space at its end.
pub open spec fn trim_end(s: Seq<char>) -> Seq<char>
    decreases s.len(),
{
    if s.len() > 0 && is_space(s.last()) {
        trim_end(s.drop_last())
    } else {
        s
    }
}

/// `s` without the white space at both ends.
pub open spec fn trimmed(s: Seq<char>) -> Seq<char> {
    trim_end(trim_start(s))
}

/// The text without the white space at both ends.
pub fn trim(s: &[char]) -> (r: &[char])
    ensures
        r@ == trimmed(s@),
{
    let mut i: usize = 0;
    assert(s@.skip(0) =~= s@);
    while i < s.len() && space(s[i])
        invariant
            i <= s.len(),
            trim_start(s@) == trim_start(s@.skip(i as int)),
        decreases s.len() - i,
    {
        assert(s@.skip(i as int).drop_first() =~= s@.skip(i + 1));
        i = i + 1;
    }
    let mut j: usize = s.len();
    let ghost t = s@.skip(i as int);
    assert(trim_start(s@) == t);
    assert(s@.subrange(i as int, j as int) =~= t);
    while i < j && space(s[j - 1])
        invariant
            i <= j <= s.len(),
            trim_end(t) == trim_end(s@.subrange(i as int, j as int)),
        decreases j,
    {
        assert(s@.subrange(i as int, j as int).drop_last() =~= s@.subrange(i as int, j - 1));
        j = j - 1;
    }
    slice_subrange(s, i, j)
}

/// The number of characters before the first white space.
pub open spec fn word_len(s: Seq<char>) -> nat
    decreases s.len(),
{
    if s.len() == 0 || is_space(s[0]) {
        0
    } else {
        1 + word_len(s.drop_first())
    }
}

pub proof fn word_len_bound(s: Seq<char>)
    ensures
        word_len(s) <= s.len(),
    decreases s.len(),
{
    if s.len() == 0 || is_space(s[0]) {
    } else {
        word_len_bound(s.drop_first());
    }
}

proof fn trim_start_bound(s: Seq<char>)
    ensures
        trim_start(s).len() <= s.len(),
        trim_start(s).len() > 0 ==> !is_space(trim_start(s)[0]),
    decreases s.len(),
{
    if s.len() > 0 && is_space(s[0]) {
        trim_start_bound(s.drop_first());
    }
}

/// The runs of characters other than white space, in order.
pub open spec fn fields(s: Seq<char>) -> Seq<Seq<char>>
    decreases s.len(),
    via fields_shrink
{
    let t = trim_start(s);
    if t.len() == 0 {
        Seq::empty()
    } else {
        seq![t.take(word_len(t) as int)] + fields(t.skip(word_len(t) as int))
    }
}

#[via_fn]
proof fn fields_shrink(s: Seq<char>) {
    trim_start_bound(s);
    let t = trim_start(s);
    if t.len() > 0 {
        word_len_bound(t);
        assert(word_len(t) > 0);
    }
}

/// The runs of characters other than white space, in order.
pub fn split_fields<'a>(s: &'a [char]) -> (r: Vec<&'a [char]>)
    ensures
        slices(r@) == fields(s@),
{
    let mut out: Vec<&'a [char]> = Vec::new();
    let mut i: usize = 0;
    assert(s@.skip(0) =~= s@);
    assert(slices(out@) + fields(s@) =~= fields(s@));
    while i < s.len()
        invariant
            i <= s.len(),
            fields(s@) == slices(out@) + fields(s@.skip(i as int)),
        decreases s.len() - i,
    {
        let ghost rest = s@.skip(i as int);
        if space(s[i]) {
            assert(rest.drop_first() =~= s@.skip(i + 1));
            assert(trim_start(rest) == trim_start(rest.drop_first()));
            i = i + 1;
        } else {
            let mut j: usize = i;
            while j < s.len() && !space(s[j])
                invariant
                    i <= j <= s.len(),
                    rest == s@.skip(i as int),
                    word_len(rest) == (j - i) + word_len(s@.skip(j as int)),
                decreases s.len() - j,
            {
                assert(s@.skip(j as int).drop_first() =~= s@.skip(j + 1));
                j = j + 1;
            }
            assert(word_len(s@.skip(j as int)) == 0);
            let word = slice_subrange(s, i, j);
            proof {
                assert(trim_start(rest) == rest);
                assert(rest.take(j - i) =~= word@);
                assert(rest.skip(j - i) =~= s@.skip(j as int));
                assert(slices(out@.push(word)) =~= slices(out@).push(word@));
                assert(slices(out@).push(word@) + fields(s@.skip(j as int)) =~= slices(out@) + (
                seq![word@] + fields(s@.skip(j as int))));
            }
            out.push(word);
            i = j;
        }
    }
    assert(s@.skip(i as int).len() == 0);
    assert(slices(out@) + fields(s@.skip(i as int)) =~= slices(out@));
    out
}

/// A line without the carriage return that ends it.
pub open spec fn without_return(s: Seq<char>) -> Seq<char> {
    if s.len() > 0 && s.last() == '\r' {
        s.drop_last()
    } else {
        s
    }
}

/// The lines of a text: each ends at a line feed, which is left out with a carriage
/// return before it; a last line may lack the line feed.
pub open spec fn lines(s: Seq<char>) -> Seq<Seq<char>>
    decreases s.len(),
    via lines_shrink
{
    let k = place_of(s, '\n');
    if s.len() == 0 {
        Seq::empty()
    } else if k == s.len() {
        seq![s]
    } else {
        seq![without_return(s.take(k as int))] + lines(s.skip(k as int + 1))
    }
}

#[via_fn]
proof fn lines_shrink(s: Seq<char>) {
    place_of_is_first(s, '\n');
}

/// The lines of a text.
pub fn split_lines<'a>(s: &'a [char]) -> (r: Vec<&'a [char]>)
    ensures
        slices(r@) == lines(s@),
{
    let mut out: Vec<&'a [char]> = Vec::new();
    let mut i: usize = 0;
    assert(s@.skip(0) =~= s@);
    assert(slices(out@) + lines(s@) =~= lines(s@));
    while i < s.len()
        invariant
            i <= s.len(),
            lines(s@) == slices(out@) + lines(s@.skip(i as int)),
        decreases s.len() - i,
    {
        let rest = slice_subrange(s, i, s.len());
        assert(rest@ =~= s@.skip(i as int));
        let k = find_char(rest, '\n');
        if k == rest.len() {
            proof {
                assert(lines(rest@) == seq![rest@]);
                assert(slices(out@.push(rest)) =~= slices(out@).push(rest@));
                assert(slices(out@).push(rest@) =~= slices(out@) + seq![rest@]);
            }
            out.push(rest);
            return out;
        }
        let end: usize = if k > 0 && rest[k - 1] == '\r' {
            k - 1
        } else {
            k
        };
        let line = slice_subrange(rest, 0, end);
        proof {
            let whole = rest@.take(k as int);
            assert(line@ =~= without_return(whole));
            assert(rest@.skip(k + 1) =~= s@.skip(i + k + 1));
            assert(slices(out@.push(line)) =~= slices(out@).push(line@));
            assert(slices(out@).push(line@) + lines(s@.skip(i + k + 1)) =~= slices(out@) + (seq![
                line@,
            ] + lines(s@.skip(i + k + 1))));
        }
        out.push(line);
        i = i + k + 1;
    }
    assert(s@.skip(i as int).len() == 0);
    assert(slices(out@) + lines(s@.skip(i as int)) =~= slices(out@));
    out
}

// ---- integers ----

/// The value of a digit in radix 10 or 16.
pub open spec fn digit_value(c: char, radix: int) -> Option<int> {
    if '0' <= c && c <= '9' {
        Some(c as int - '0' as int)
    } else if radix == 16 && 'a' <= c && c <= 'f' {
        Some(c as int - 'a' as int + 10)
    } else if radix == 16 && 'A' <= c && c <= 'F' {
        Some(c as int - 'A' as int + 10)
    } else {
        None
    }
}

/// The value of a row of digits; none where one of them is no digit.
pub open spec fn digits_value(s: Seq<char>, radix: int) -> Option<int>
    decreases s.len(),
{
    if s.len() == 0 {
        Some(0)
    } else {
        match (digits_value(s.drop_last(), radix), digit_value(s.last(), radix)) {
            (Some(v), Some(d)) => Some(v * radix + d),
            _ => None,
        }
    }
}

/// One or more digits whose value is at most `max`.
pub open spec fn bounded_value(s: Seq<char>, radix: int, max: int) -> Option<int> {
    match digits_value(s, radix) {
        Some(v) => if s.len() > 0 && v <= max {
            Some(v)
        } else {
            None
        },
        None => None,
    }
}

/// An unsigned number: a plus sign or none, then digits; at most `max`.
pub open spec fn unsigned_value(s: Seq<char>, radix: int, max: int) -> Option<int> {
    if s.len() > 0 && s[0] == '+' {
        bounded_value(s.drop_first(), radix, max)
    } else {
        bounded_value(s, radix, max)
    }
}

/// A decimal number with a sign or none, in the range of 64 bits.
pub open spec fn signed_value(s: Seq<char>) -> Option<int> {
    if s.len() > 0 && s[0] == '-' {
        match bounded_value(s.drop_first(), 10, 0x8000_0000_0000_0000) {
            Some(v) => Some(-v),
            None => None,
        }
    } else {
        unsigned_value(s, 10, i64::MAX as int)
    }
}

proof fn digits_value_grows(s: Seq<char>, k: int, radix: int)
    requires
        0 <= k <= s.len(),
        radix == 10 || radix == 16,
    ensures
        digits_value(s.take(k), radix) is None ==> digits_value(s, radix) is None,
        digits_value(s, radix) is Some ==> digits_value(s.take(k), radix) is Some && 0
            <= digits_value(s.take(k), radix)->0 <= digits_value(s, radix)->0,
    decreases s.len(),
{
    if k == s.len() {
        assert(s.take(k) =~= s);
        if s.len() > 0 {
            digits_value_grows(s.drop_last(), 0, radix);
        }
    } else {
        assert(s.drop_last().take(k) =~= s.take(k));
        digits_value_grows(s.drop_last(), k, radix);
    }
}

fn one_digit(c: char, radix: u64) -> (r: Option<u64>)
    requires
        radix == 10 || radix == 16,
    ensures
        match r {
            Some(d) => digit_value(c, radix as int) == Some(d as int) && d < radix,
            None => digit_value(c, radix as int) is None,
        },
{
    let n = c as u32;
    if 48 <= n && n <= 57 {
        Some((n - 48) as u64)
    } else if radix == 16 && 97 <= n && n <= 102 {
        Some((n - 97 + 10) as u64)
    } else if radix == 16 && 65 <= n && n <= 70 {
        Some((n - 65 + 10) as u64)
    } else {
        None
    }
}

/// One or more digits whose value is at most `max`.
pub fn parse_digits(s: &[char], radix: u64, max: u64) -> (r: Option<u64>)
    requires
        radix == 10 || radix == 16,
        max >= 16,
    ensures
        match r {
            Some(v) => bounded_value(s@, radix as int, max as int) == Some(v as int),
            None => bounded_value(s@, radix as int, max as int) is None,
        },
{
    if s.len() == 0 {
        return None;
    }
    let mut v: u64 = 0;
    let mut i: usize = 0;
    while i < s.len()
        invariant
            i <= s.len(),
            radix == 10 || radix == 16,
            max >= 16,
            v <= max,
            digits_value(s@.take(i as int), radix as int) == Some(v as int),
        decreases s.len() - i,
    {
        proof {
            let t = s@.take(i + 1);
            assert(t.drop_last() =~= s@.take(i as int));
            digits_value_grows(s@, i + 1, radix as int);
        }
        match one_digit(s[i], radix) {
            None => {
                return None;
            },
            Some(d) => {
                if v > (max - d) / radix {
                    proof {
                        assert(v * radix + d > max) by (nonlinear_arith)
                            requires
                                v > (max - d) / (radix as int),
                                radix == 10 || radix == 16,
                                max >= d,
                        ;
                    }
                    return None;
                }
                proof {
                    assert(v * radix + d <= max) by (nonlinear_arith)
                        requires
                            v <= (max - d) / (radix as int),
                            radix == 10 || radix == 16,
                            max >= d,
                    ;
                }
                v = v * radix + d;
                i = i + 1;
            },
        }
    }
    assert(s@.take(s@.len() as int) =~= s@);
    Some(v)
}

/// An unsigned number: a plus sign or none, then digits; at most `max`.
pub fn parse_unsigned(s: &[char], radix: u64, max: u64) -> (r: Option<u64>)
    requires
        radix == 10 || radix == 16,
        max >= 16,
    ensures
        match r {
            Some(v) => unsigned_value(s@, radix as int, max as int) == Some(v as int),
            None => unsigned_value(s@, radix as int, max as int) is None,
        },
{
    if s.len() > 0 && s[0] == '+' {
        let rest = slice_subrange(s, 1, s.len());
        assert(rest@ =~= s@.drop_first());
        parse_digits(rest, radix, max)
    } else {
        parse_digits(s, radix, max)
    }
}

/// A decimal number with a sign or none, in the range of 64 bits.
pub fn parse_signed(s: &[char]) -> (r: Option<i64>)
    ensures
        match r {
            Some(v) => signed_value(s@) == Some(v as int),
            None => signed_value(s@) is None,
        },
{
    if s.len() > 0 && s[0] == '-' {
        let rest = slice_subrange(s, 1, s.len());
        assert(rest@ =~= s@.drop_first());
        match parse_digits(rest, 10, 0x8000_0000_0000_0000) {
            None => None,
            Some(v) => if v == 0x8000_0000_0000_0000 {
                Some(i64::MIN)
            } else {
                Some(-(v as i64))
            },
        }
    } else {
        match parse_unsigned(s, 10, 0x7fff_ffff_ffff_ffff) {
            None => None,
            Some(v) => Some(v as i64),
        }
    }
}

// ---- large numbers ----

/// The number that a row of decimal digits makes, the first one highest.
spec fn row_value(row: Seq<u8>) -> nat
    decreases row.len(),
{
    if row.len() == 0 {
        0
    } else {
        row_value(row.drop_last()) * 10 + row.last() as nat
    }
}

/// Whether a row holds decimal digits, the first of them not zero.
spec fn is_row(row: Seq<u8>) -> bool {
    &&& forall|i: int| 0 <= i < row.len() ==> #[trigger] row[i] <= 9
    &&& row.len() > 0 ==> row[0] > 0
}

proof fn row_text(row: Seq<u8>)
    requires
        is_row(row),
        row.len() > 0,
    ensures
        decimal(row_value(row)) == Seq::new(row.len(), |i: int| digit_char(row[i] as int)),
        row_value(row) > 0,
    decreases row.len(),
{
    let before = row.drop_last();
    assert(row[row.len() - 1] <= 9);
    if before.len() == 0 {
        assert(row_value(before) == 0);
        assert(decimal(row_value(row)) =~= Seq::new(row.len(), |i: int| digit_char(row[i] as int)));
    } else {
        assert forall|i: int| 0 <= i < before.len() implies #[trigger] before[i] <= 9 by {
            assert(row[i] <= 9);
        }
        row_text(before);
        let n = row_value(row);
        assert(n / 10 == row_value(before) && n % 10 == row.last());
        assert(decimal(n) =~= Seq::new(row.len(), |i: int| digit_char(row[i] as int)));
    }
}

fn row_of(n: u64) -> (r: Vec<u8>)
    ensures
        is_row(r@),
        row_value(r@) == n,
    decreases n,
{
    if n == 0 {
        Vec::new()
    } else {
        let mut r = row_of(n / 10);
        let ghost had = r@;
        r.push((n % 10) as u8);
        assert(r@.drop_last() =~= had);
        r
    }
}

/// Twice the number of a row, and a carry more.
fn doubled(row: &[u8], carry: u8) -> (r: Vec<u8>)
    requires
        is_row(row@),
        carry <= 1,
    ensures
        is_row(r@),
        row_value(r@) == 2 * row_value(row@) + carry,
        r@.len() >= row@.len(),
    decreases row@.len(),
{
    if row.len() == 0 {
        let mut r: Vec<u8> = Vec::new();
        if carry > 0 {
            r.push(carry);
            assert(r@.drop_last() =~= Seq::empty());
            assert(row_value(r@.drop_last()) == 0);
        }
        r
    } else {
        let k = row.len() - 1;
        assert(row@[k as int] <= 9);
        let d = 2 * row[k] + carry;
        let before = slice_subrange(row, 0, k);
        assert(before@ =~= row@.drop_last());
        assert forall|i: int| 0 <= i < before@.len() implies #[trigger] before@[i] <= 9 by {
            assert(row@[i] <= 9);
        }
        let mut r = doubled(before, d / 10);
        let ghost had = r@;
        r.push(d % 10);
        assert(r@.drop_last() =~= had);
        proof {
            if had.len() == 0 {
                assert(row_value(had) == 0);
            }
            assert forall|i: int| 0 <= i < r@.len() implies #[trigger] r@[i] <= 9 by {
                if i < had.len() {
                    assert(had[i] <= 9);
                }
            }
        }
        r
    }
}

/// Appends `mant` times two to the power `exp`, in decimal digits.
pub fn push_scaled(out: &mut String, mant: u64, exp: u32)
    requires
        mant > 0,
    ensures
        final(out)@ == old(out)@ + decimal(mant as nat * pow2(exp as nat)),
{
    let mut row = row_of(mant);
    let mut i: u32 = 0;
    proof {
        lemma2_to64();
    }
    while i < exp
        invariant
            i <= exp,
            is_row(row@),
            row_value(row@) == mant as nat * pow2(i as nat),
        decreases exp - i,
    {
        proof {
            lemma_pow2_unfold((i + 1) as nat);
            let p = pow2(i as nat);
            assert(mant as nat * (2 * p) == 2 * (mant as nat * p)) by (nonlinear_arith);
        }
        row = doubled(row.as_slice(), 0);
        i = i + 1;
    }
    proof {
        lemma_pow2_pos(exp as nat);
        let p = pow2(exp as nat);
        assert(mant as nat * p > 0) by (nonlinear_arith)
            requires
                mant > 0,
                p > 0,
        ;
        if row@.len() == 0 {
            assert(row_value(row@) == 0);
        }
        row_text(row@);
    }
    let ghost digits = decimal(mant as nat * pow2(exp as nat));
    let mut k: usize = 0;
    while k < row.len()
        invariant
            k <= row.len(),
            is_row(row@),
            digits.len() == row.len(),
            forall|i: int| 0 <= i < row.len() ==> #[trigger] digits[i] == digit_char(row@[i] as int),
            out@ == old(out)@ + digits.take(k as int),
        decreases row.len() - k,
    {
        assert(row@[k as int] <= 9);
        out.push((48u8 + row[k]) as char);
        assert(digits.take(k + 1) =~= digits.take(k as int).push(digits[k as int]));
        k = k + 1;
    }
    assert(digits.take(k as int) =~= digits);
}

// ---- texts put together and taken apart ----

/// A text taken apart at a character: the pieces between its places.
pub open spec fn pieces(s: Seq<char>, c: char) -> Seq<Seq<char>>
    decreases s.len(),
    via pieces_shrink
{
    let p = place_of(s, c) as int;
    if p >= s.len() {
        seq![s]
    } else {
        seq![s.take(p)] + pieces(s.skip(p + 1), c)
    }
}

#[via_fn]
proof fn pieces_shrink(s: Seq<char>, c: char) {
    place_of_is_first(s, c);
}

/// A text that does not hold a character, then the character, then a rest, is taken apart
/// into the text and the pieces of the rest.
pub proof fn pieces_of_two(a: Seq<char>, c: char, b: Seq<char>)
    requires
        !a.contains(c),
    ensures
        pieces(a + seq![c] + b, c) == seq![a] + pieces(b, c),
        pieces(a, c) == seq![a],
{
    let s = a + seq![c] + b;
    assert forall|i: int| 0 <= i < a.len() implies s[i] != c by {
        assert(a.contains(a[i]));
    }
    place_of_unique(s, c, a.len() as int);
    assert(s.take(a.len() as int) =~= a);
    assert(s.skip(a.len() as int + 1) =~= b);
    assert forall|i: int| 0 <= i < a.len() implies a[i] != c by {
        assert(a.contains(a[i]));
    }
    place_of_unique(a, c, a.len() as int);
}

/// Where the part at `i` starts among parts with `gap` characters between neighbours.
pub open spec fn offset_of(parts: Seq<Seq<char>>, gap: nat, i: int) -> int
    decreases i,
{
    if i <= 0 {
        0
    } else {
        offset_of(parts, gap, i - 1) + parts[i - 1].len() + gap
    }
}

/// Every part stands in the joined text, in order, with the separator between neighbours
/// and nothing else.
pub proof fn joined_holds_every_part(parts: Seq<Seq<char>>, sep: Seq<char>, i: int)
    requires
        0 <= i < parts.len(),
    ensures
        ({
            let s = joined(parts, sep);
            let at = offset_of(parts, sep.len(), i);
            &&& 0 <= at <= at + parts[i].len() <= s.len()
            &&& s.subrange(at, at + parts[i].len()) == parts[i]
            &&& s.len() + sep.len() == offset_of(parts, sep.len(), parts.len() as int)
            &&& i > 0 ==> sep.len() <= at && s.subrange(at - sep.len(), at) == sep
        }),
    decreases parts.len(),
{
    let s = joined(parts, sep);
    let n = parts.len() as int;
    let at = offset_of(parts, sep.len(), i);
    if n == 1 {
        assert(s.subrange(0, parts[0].len() as int) =~= parts[0]);
        assert(offset_of(parts, sep.len(), 1) == offset_of(parts, sep.len(), 0) + parts[0].len()
            + sep.len());
    } else {
        let fewer = parts.drop_last();
        let t = joined(fewer, sep);
        let k = if i < n - 1 {
            i
        } else {
            n - 2
        };
        joined_holds_every_part(fewer, sep, k);
        offsets_agree(fewer, parts, sep.len(), k);
        offsets_agree(fewer, parts, sep.len(), n - 1);
        assert(offset_of(parts, sep.len(), n) == offset_of(parts, sep.len(), n - 1) + parts[n
            - 1].len() + sep.len());
        if i < n - 1 {
            assert(s.subrange(at, at + parts[i].len()) =~= t.subrange(at, at + parts[i].len()));
            if i > 0 {
                assert(s.subrange(at - sep.len(), at) =~= t.subrange(at - sep.len(), at));
            }
        } else {
            assert(at == t.len() + sep.len());
            assert(s.subrange(at, at + parts[i].len()) =~= parts[i]);
            assert(s.subrange(at - sep.len(), at) =~= sep);
        }
    }
}

proof fn offsets_agree(a: Seq<Seq<char>>, b: Seq<Seq<char>>, gap: nat, i: int)
    requires
        0 <= i <= a.len() <= b.len(),
        forall|k: int| 0 <= k < a.len() ==> a[k] == b[k],
    ensures
        offset_of(a, gap, i) == offset_of(b, gap, i),
        offset_of(a, gap, i) >= 0,
    decreases i,
{
    if i > 0 {
        offsets_agree(a, b, gap, i - 1);
    }
}

/// Joining one part more puts the separator and the part behind the others.
pub proof fn joined_with_one_more(parts: Seq<Seq<char>>, more: Seq<char>, sep: Seq<char>)
    ensures
        parts.len() == 0 ==> joined(parts.push(more), sep) == more,
        parts.len() > 0 ==> joined(parts.push(more), sep) == joined(parts, sep) + sep + more,
{
    assert(parts.push(more).drop_last() =~= parts);
}

/// Joining one part more in front puts it and the separator before the others.
pub proof fn joined_with_one_before(first: Seq<char>, parts: Seq<Seq<char>>, sep: Seq<char>)
    requires
        parts.len() > 0,
    ensures
        joined(seq![first] + parts, sep) == first + sep + joined(parts, sep),
    decreases parts.len(),
{
    let all = seq![first] + parts;
    if parts.len() == 1 {
        assert(all.drop_last() =~= seq![first]);
        assert(joined(all.drop_last(), sep) == first);
        assert(all.last() == parts[0]);
        assert(joined(all, sep) =~= first + sep + parts[0]);
    } else {
        joined_with_one_before(first, parts.drop_last(), sep);
        assert(all.drop_last() =~= seq![first] + parts.drop_last());
        assert(joined(all, sep) =~= first + sep + joined(parts, sep));
    }
}

/// Parts that do not hold a character, joined by it, are given back by taking the text apart
/// at it.
pub proof fn joined_parts_come_apart(parts: Seq<Seq<char>>, c: char)
    requires
        parts.len() > 0,
        forall|i: int| 0 <= i < parts.len() ==> !(#[trigger] parts[i]).contains(c),
    ensures
        pieces(joined(parts, seq![c]), c) == parts,
    decreases parts.len(),
{
    let first = parts[0];
    assert(!first.contains(c));
    if parts.len() == 1 {
        pieces_of_two(first, c, Seq::empty());
        assert(parts =~= seq![first]);
    } else {
        let more = parts.drop_first();
        assert forall|i: int| 0 <= i < more.len() implies !(#[trigger] more[i]).contains(c) by {
            assert(!parts[i + 1].contains(c));
        }
        joined_parts_come_apart(more, c);
        joined_with_one_before(first, more, seq![c]);
        assert(parts =~= seq![first] + more);
        pieces_of_two(first, c, joined(more, seq![c]));
    }
}

/// A text that does not start with white space is not trimmed at its start.
proof fn trim_start_of(a: Seq<char>, t: Seq<char>)
    requires
        forall|i: int| 0 <= i < a.len() ==> is_space(#[trigger] a[i]),
        t.len() > 0 ==> !is_space(t[0]),
    ensures
        trim_start(a + t) == t,
    decreases a.len(),
{
    if a.len() == 0 {
        assert(a + t =~= t);
    } else {
        assert(is_space(a[0]));
        assert((a + t).drop_first() =~= a.drop_first() + t);
        assert forall|i: int| 0 <= i < a.drop_first().len() implies is_space(
            #[trigger] a.drop_first()[i],
        ) by {
            assert(is_space(a[i + 1]));
        }
        trim_start_of(a.drop_first(), t);
    }
}

proof fn trim_end_of(t: Seq<char>, b: Seq<char>)
    requires
        forall|i: int| 0 <= i < b.len() ==> is_space(#[trigger] b[i]),
        t.len() > 0 ==> !is_space(t.last()),
    ensures
        trim_end(t + b) == t,
    decreases b.len(),
{
    if b.len() == 0 {
        assert(t + b =~= t);
    } else {
        assert(is_space(b[b.len() - 1]));
        assert((t + b).drop_last() =~= t + b.drop_last());
        assert forall|i: int| 0 <= i < b.drop_last().len() implies is_space(
            #[trigger] b.drop_last()[i],
        ) by {
            assert(is_space(b[i]));
        }
        trim_end_of(t, b.drop_last());
    }
}

/// White space before and behind a text is taken away, and nothing of the text.
pub proof fn only_white_space_is_trimmed(a: Seq<char>, t: Seq<char>, b: Seq<char>)
    requires
        forall|i: int| 0 <= i < a.len() ==> is_space(#[trigger] a[i]),
        forall|i: int| 0 <= i < b.len() ==> is_space(#[trigger] b[i]),
        t.len() > 0,
        !is_space(t[0]),
        !is_space(t.last()),
    ensures
        trimmed(a + t + b) == t,
        trimmed(t) == t,
{
    assert(a + t + b =~= a + (t + b));
    trim_start_of(a, t + b);
    trim_end_of(t, b);
    trim_start_of(Seq::empty(), t);
    assert(Seq::<char>::empty() + t =~= t);
    trim_end_of(t, Seq::empty());
    assert(t + Seq::<char>::empty() =~= t);
}

/// The blank, the tabulator and the ends of lines are white space; no visible character of
/// ASCII is.
pub proof fn visible_characters_are_no_space(c: char)
    ensures
        is_space(' ') && is_space('\t') && is_space('\n') && is_space('\r'),
        0x21 <= c as int <= 0x7e ==> !is_space(c),
{
}

/// White space before a field makes no field.
pub proof fn fields_behind_space(c: char, s: Seq<char>)
    requires
        is_space(c),
    ensures
        fields(seq![c] + s) == fields(s),
        fields(Seq::empty()).len() == 0,
{
    let t = seq![c] + s;
    assert(t.drop_first() =~= s);
    assert(trim_start(t) == trim_start(s));
}

proof fn word_len_of(word: Seq<char>, s: Seq<char>)
    requires
        forall|i: int| 0 <= i < word.len() ==> !is_space(#[trigger] word[i]),
        s.len() > 0 ==> is_space(s[0]),
    ensures
        word_len(word + s) == word.len(),
    decreases word.len(),
{
    if word.len() == 0 {
        assert(word + s =~= s);
    } else {
        assert(!is_space(word[0]));
        assert((word + s).drop_first() =~= word.drop_first() + s);
        assert forall|i: int| 0 <= i < word.drop_first().len() implies !is_space(
            #[trigger] word.drop_first()[i],
        ) by {
            assert(!is_space(word[i + 1]));
        }
        word_len_of(word.drop_first(), s);
    }
}

/// A run of characters other than white space is one field, and what follows it makes the
/// other fields.
pub proof fn a_word_is_a_field(word: Seq<char>, s: Seq<char>)
    requires
        word.len() > 0,
        forall|i: int| 0 <= i < word.len() ==> !is_space(#[trigger] word[i]),
        s.len() > 0 ==> is_space(s[0]),
    ensures
        fields(word + s) == seq![word] + fields(s),
{
    let t = word + s;
    assert(!is_space(word[0]));
    assert(trim_start(t) == t);
    word_len_of(word, s);
    assert(t.take(word.len() as int) =~= word);
    assert(t.skip(word.len() as int) =~= s);
}

/// A line feed ends a line, and with it a carriage return right before it; what follows
/// makes the other lines. A last line may lack the line feed.
pub proof fn a_line_feed_ends_a_line(line: Seq<char>, s: Seq<char>)
    requires
        !line.contains('\n'),
    ensures
        line.len() > 0 && line.last() == '\r' ==> lines(line + seq!['\n'] + s) == seq![
            line.drop_last(),
        ] + lines(s),
        line.len() == 0 || line.last() != '\r' ==> lines(line + seq!['\n'] + s) == seq![line]
            + lines(s),
        line.len() > 0 ==> lines(line) == seq![line],
        lines(Seq::empty()).len() == 0,
{
    let t = line + seq!['\n'] + s;
    assert forall|i: int| 0 <= i < line.len() implies t[i] != '\n' && line[i] != '\n' by {
        assert(line.contains(line[i]));
    }
    place_of_unique(t, '\n', line.len() as int);
    place_of_unique(line, '\n', line.len() as int);
    assert(t.take(line.len() as int) =~= line);
    assert(t.skip(line.len() as int + 1) =~= s);
}

// ---- numbers are read as they are written ----

/// The digits stand for the numbers 0 to 9, and in radix 16 the letters of either case for
/// 10 to 15; nothing else is a digit.
pub proof fn digits_have_their_values(c: char)
    ensures
        forall|d: int| 0 <= d <= 9 ==> #[trigger] digit_value((0x30 + d) as char, 10) == Some(d),
        forall|d: int| 0 <= d <= 9 ==> #[trigger] digit_value((0x30 + d) as char, 16) == Some(d),
        forall|d: int| 10 <= d <= 15 ==> #[trigger] digit_value((0x57 + d) as char, 16) == Some(d),
        forall|d: int| 10 <= d <= 15 ==> #[trigger] digit_value((0x37 + d) as char, 16) == Some(d),
        digit_value(c, 10) is Some ==> 0x30 <= c as int <= 0x39,
        digit_value(c, 16) is Some ==> 0x30 <= c as int <= 0x39 || 0x41 <= c as int <= 0x46 || 0x61
            <= c as int <= 0x66,
{
}

/// One digit more makes a number as many times greater as the radix says, and the digit
/// more.
pub proof fn one_more_digit(s: Seq<char>, c: char, radix: int)
    requires
        digits_value(s, radix) is Some,
        digit_value(c, radix) is Some,
    ensures
        digits_value(s.push(c), radix) == Some(
            digits_value(s, radix)->0 * radix + digit_value(c, radix)->0,
        ),
{
    assert(s.push(c).drop_last() =~= s);
}

/// No row of digits stands for a negative number.
pub proof fn values_are_not_negative(s: Seq<char>, radix: int)
    requires
        radix == 10 || radix == 16,
    ensures
        digits_value(s, radix) matches Some(n) ==> 0 <= n,
{
    digits_value_grows(s, 0, radix);
    if digits_value(s, radix) is Some {
        assert(0 <= digits_value(s.take(0), radix)->0);
    }
}

proof fn decimal_digits(n: nat)
    ensures
        digits_value(decimal(n), 10) == Some(n as int),
        decimal(n).len() > 0,
        forall|i: int|
            0 <= i < decimal(n).len() ==> '0' <= #[trigger] decimal(n)[i] && decimal(n)[i] <= '9',
        n > 0 ==> decimal(n)[0] != '0',
    decreases n,
{
    reveal_with_fuel(digits_value, 2);
    if n < 10 {
        let c = digit_char(n as int);
        assert(c as int == 48 + n);
        let s = seq![c];
        assert(s.drop_last() =~= Seq::empty());
        assert(digits_value(s.drop_last(), 10) == Some(0int));
    } else {
        decimal_digits(n / 10);
        let c = digit_char((n % 10) as int);
        assert(c as int == 48 + n % 10);
        let s = decimal(n / 10).push(c);
        assert(s.drop_last() =~= decimal(n / 10));
        assert forall|i: int| 0 <= i < s.len() implies '0' <= #[trigger] s[i] && s[i] <= '9' by {
            if i < s.len() - 1 {
                assert(s[i] == decimal(n / 10)[i]);
            }
        }
    }
}

/// A number in decimal digits has no other characters and no zero in front, and is read
/// back as that number, if it is not too great.
pub proof fn numbers_are_read_back(n: nat, max: int)
    ensures
        unsigned_value(decimal(n), 10, max) == if n <= max {
            Some(n as int)
        } else {
            None
        },
        decimal(n).len() > 0,
        forall|i: int|
            0 <= i < decimal(n).len() ==> '0' <= #[trigger] decimal(n)[i] && decimal(n)[i] <= '9',
        n > 0 ==> decimal(n)[0] != '0',
{
    decimal_digits(n);
}

/// An integer in decimal digits is read back as that integer, if it fits.
pub proof fn integers_are_read_back(n: int)
    ensures
        signed_value(signed_decimal(n)) == if i64::MIN <= n <= i64::MAX {
            Some(n)
        } else {
            None
        },
        forall|i: int|
            0 <= i < signed_decimal(n).len() ==> (#[trigger] signed_decimal(n)[i] == '-' || '0'
                <= signed_decimal(n)[i] && signed_decimal(n)[i] <= '9'),
{
    if n < 0 {
        decimal_digits((-n) as nat);
        let s = signed_decimal(n);
        assert(s.drop_first() =~= decimal((-n) as nat));
        assert forall|i: int| 0 <= i < s.len() implies (#[trigger] s[i] == '-' || '0' <= s[i]
            && s[i] <= '9') by {
            if i > 0 {
                assert(s[i] == decimal((-n) as nat)[i - 1]);
            }
        }
    } else {
        decimal_digits(n as nat);
    }
}

/// A plus sign before a number that starts with a digit changes nothing; other characters
/// than digits make it no number.
pub proof fn only_digits_are_numbers(s: Seq<char>, radix: int, max: int)
    requires
        radix == 10 || radix == 16,
    ensures
        s.len() == 0 ==> unsigned_value(s, radix, max) is None,
        s.len() > 0 && s[0] != '+' ==> unsigned_value(seq!['+'] + s, radix, max) == unsigned_value(
            s,
            radix,
            max,
        ),
        forall|i: int|
            0 < i < s.len() && digit_value(#[trigger] s[i], radix) is None ==> unsigned_value(
                s,
                radix,
                max,
            ) is None,
{
    if s.len() > 0 && s[0] != '+' {
        assert((seq!['+'] + s).drop_first() =~= s);
    }
    assert forall|i: int|
        0 < i < s.len() && digit_value(#[trigger] s[i], radix) is None implies unsigned_value(
        s,
        radix,
        max,
    ) is None by {
        if s[0] == '+' {
            no_digit_no_value(s.drop_first(), i - 1, radix);
        } else {
            no_digit_no_value(s, i, radix);
        }
    }
}

proof fn no_digit_no_value(s: Seq<char>, i: int, radix: int)
    requires
        0 <= i < s.len(),
        digit_value(s[i], radix) is None,
    ensures
        digits_value(s, radix) is None,
    decreases s.len(),
{
    if i < s.len() - 1 {
        no_digit_no_value(s.drop_last(), i, radix);
    }
}

proof fn zeros_in_front(k: nat, s: Seq<char>)
    requires
        digits_value(s, 10) is Some,
    ensures
        digits_value(repeated('0', k as int) + s, 10) == digits_value(s, 10),
    decreases s.len(), k,
{
    let t = repeated('0', k as int) + s;
    if s.len() > 0 {
        assert(t.drop_last() =~= repeated('0', k as int) + s.drop_last());
        zeros_in_front(k, s.drop_last());
    } else if k > 0 {
        assert(t.drop_last() =~= repeated('0', k - 1) + s);
        zeros_in_front((k - 1) as nat, s);
        assert(digit_value('0', 10) == Some(0int));
    } else {
        assert(t =~= s);
    }
}

/// A number that is filled up with zeros is as long as asked for where its digits are not
/// longer, and still the same number.
pub proof fn zeros_do_not_change_a_number(n: nat, width: int)
    ensures
        digits_value(zero_padded(n as int, width), 10) == Some(n as int),
        zero_padded(n as int, width).len() == if decimal(n).len() < width {
            width
        } else {
            decimal(n).len() as int
        },
{
    decimal_digits(n);
    let k = width - decimal(n).len();
    zeros_in_front(
        if k > 0 {
            k as nat
        } else {
            0
        },
        decimal(n),
    );
    if k <= 0 {
        assert(repeated('0', k) =~= repeated('0', 0));
    }
}

/// A text in a column stands there whole, at the left or at the right end, with blanks in
/// the rest; a text that is wider than the column stands alone.
pub proof fn columns_hold_their_text(s: Seq<char>, width: int)
    ensures
        ({
            let (left, right) = (flush_left(s, width), flush_right(s, width));
            &&& left.len() == right.len()
            &&& left.len() == if s.len() < width {
                width
            } else {
                s.len() as int
            }
            &&& left.take(s.len() as int) == s
            &&& right.skip(right.len() - s.len()) == s
            &&& forall|i: int| s.len() <= i < left.len() ==> #[trigger] left[i] == ' '
            &&& forall|i: int| 0 <= i < right.len() - s.len() ==> #[trigger] right[i] == ' '
        }),
{
    let (left, right) = (flush_left(s, width), flush_right(s, width));
    assert(left.take(s.len() as int) =~= s);
    assert(right.skip(right.len() - s.len()) =~= s);
}

/// A text starts with another just where it is that and something behind it.
pub proof fn prefixes_are_followed_by_the_rest(s: Seq<char>, prefix: Seq<char>, tail: Seq<char>)
    ensures
        starts_with(prefix + tail, prefix),
        starts_with(s, prefix) ==> s == prefix + s.skip(prefix.len() as int),
        prefix.len() > s.len() ==> !starts_with(s, prefix),
{
    assert((prefix + tail).take(prefix.len() as int) =~= prefix);
    if starts_with(s, prefix) {
        assert(s =~= prefix + s.skip(prefix.len() as int));
    }
}

/// White space alone is trimmed to nothing.
pub proof fn white_space_alone_is_trimmed(a: Seq<char>)
    requires
        forall|i: int| 0 <= i < a.len() ==> is_space(#[trigger] a[i]),
    ensures
        trimmed(a).len() == 0,
        trim_end(a).len() == 0,
{
    trim_start_of(a, Seq::empty());
    assert(a + Seq::<char>::empty() =~= a);
    trim_end_of(Seq::empty(), a);
    assert(Seq::<char>::empty() + a =~= a);
    assert(trim_end(Seq::empty()).len() == 0);
}

} // verus!
