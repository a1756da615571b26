//! Text: decimal and hexadecimal numerals, joining, and substring search, each
//! stated over the characters of a string.

use vstd::prelude::*;

verus! {

/// `String::push`: puts one character behind the text.
pub assume_specification[ String::push ](s: &mut String, c: char)
    ensures
        final(s)@ == old(s)@.push(c),
;

/// The sixteen numerals, lower case.
pub open spec fn numerals() -> Seq<char> {
    seq!['0', '1', '2', '3', '4', '5', '6', '7', '8', '9', 'a', 'b', 'c', 'd', 'e', 'f']
}

/// `n` in decimal, most significant numeral first, without leading zeros.
pub open spec fn decimal(n: nat) -> Seq<char>
    decreases n,
{
    if n < 10 {
        seq![numerals()[n as int]]
    } else {
        decimal(n / 10).push(numerals()[(n % 10) as int])
    }
}

/// `n` in decimal, with a minus sign where it is negative.
pub open spec fn signed_decimal(n: int) -> Seq<char> {
    if n < 0 {
        seq!['-'] + decimal((-n) as nat)
    } else {
        decimal(n as nat)
    }
}

/// The last `width` hexadecimal numerals of `n`, padded with zeros.
pub open spec fn hex_padded(n: nat, width: nat) -> Seq<char>
    decreases width,
{
    if width == 0 {
        Seq::empty()
    } else {
        hex_padded(n / 16, (width - 1) as nat).push(numerals()[(n % 16) as int])
    }
}

/// What a hexadecimal digit is worth, in either case; `None` for other characters.
pub open spec fn hex_value(c: char) -> Option<nat> {
    if '0' <= c && c <= '9' {
        Some((c as int - '0' as int) as nat)
    } else if 'a' <= c && c <= 'f' {
        Some((c as int - 'a' as int + 10) as nat)
    } else if 'A' <= c && c <= 'F' {
        Some((c as int - 'A' as int + 10) as nat)
    } else {
        None
    }
}

/// The number that the digits of `s` write in base sixteen; `None` where one of
/// them is no digit.
pub open spec fn hex_number(s: Seq<char>) -> Option<nat>
    decreases s.len(),
{
    if s.len() == 0 {
        Some(0)
    } else {
        match (hex_number(s.drop_last()), hex_value(s.last())) {
            (Some(n), Some(d)) => Some(n * 16 + d),
            _ => None,
        }
    }
}

/// How a hexadecimal `u128` is read: digits behind an optional plus sign, at
/// least one of them, and a value that fits.
pub open spec fn hex_reading(s: Seq<char>) -> Option<u128> {
    let digits = if s.len() > 0 && s[0] == '+' {
        s.skip(1)
    } else {
        s
    };
    match hex_number(digits) {
        Some(n) if digits.len() > 0 && n <= u128::MAX => Some(n as u128),
        _ => None,
    }
}

/// `parts` one behind the other, with `sep` between any two.
pub open spec fn joined(parts: Seq<Seq<char>>, sep: Seq<char>) -> Seq<char>
    decreases parts.len(),
{
    if parts.len() == 0 {
        Seq::empty()
    } else if parts.len() == 1 {
        parts[0]
    } else {
        joined(parts.drop_last(), sep) + sep + parts.last()
    }
}

/// The views of the strings of a list.
pub open spec fn views(list: Seq<String>) -> Seq<Seq<char>> {
    list.map_values(|s: String| s@)
}

/// `needle` stands somewhere in `hay`.
pub open spec fn occurs_in(needle: Seq<char>, hay: Seq<char>) -> bool {
    exists|i: int| #[trigger] occurs_at(needle, hay, i)
}

/// `needle` stands in `hay` at position `i`.
pub open spec fn occurs_at(needle: Seq<char>, hay: Seq<char>, i: int) -> bool {
    &&& 0 <= i
    &&& i + needle.len() <= hay.len()
    &&& hay.subrange(i, i + needle.len()) =~= needle
}

/// The numeral of a digit below sixteen.
fn numeral_of(d: u8) -> (c: char)
    requires
        d < 16,
    ensures
        c == numerals()[d as int],
{
    match d {
        0 => '0',
        1 => '1',
        2 => '2',
        3 => '3',
        4 => '4',
        5 => '5',
        6 => '6',
        7 => '7',
        8 => '8',
        9 => '9',
        10 => 'a',
        11 => 'b',
        12 => 'c',
        13 => 'd',
        14 => 'e',
        _ => 'f',
    }
}

/// Puts `n` in decimal behind `out`.
pub fn push_decimal(out: &mut String, n: u64)
    ensures
        final(out)@ == old(out)@ + decimal(n as nat),
    decreases n,
{
    if n >= 10 {
        push_decimal(out, n / 10);
    }
    out.push(numeral_of((n % 10) as u8));
    assert(out@ =~= old(out)@ + decimal(n as nat));
}

/// Puts `n` in decimal behind `out`, with a minus sign where it is negative.
pub fn push_signed(out: &mut String, n: i64)
    ensures
        final(out)@ == old(out)@ + signed_decimal(n as int),
{
    if n < 0 {
        out.push('-');
        let magnitude: u64 = (-(n + 1)) as u64 + 1;
        push_decimal(out, magnitude);
        assert(out@ =~= old(out)@ + signed_decimal(n as int));
    } else {
        push_decimal(out, n as u64);
    }
}

/// Puts the last `width` hexadecimal numerals of `n` behind `out`.
pub fn push_hex_padded(out: &mut String, n: u128, width: u8)
    ensures
        final(out)@ == old(out)@ + hex_padded(n as nat, width as nat),
    decreases width,
{
    if width > 0 {
        push_hex_padded(out, n / 16, width - 1);
        out.push(numeral_of((n % 16) as u8));
    }
    assert(out@ =~= old(out)@ + hex_padded(n as nat, width as nat));
}

/// The characters of `s`.
pub fn chars_of(s: &str) -> (v: Vec<char>)
    ensures
        v@ == s@,
{
    let mut v: Vec<char> = Vec::new();
    for c in it: s.chars()
        invariant
            v@ == it.seq().take(it.index()),
            it.seq() == s@,
    {
        v.push(c);
    }
    assert(s@.take(s@.len() as int) =~= s@);
    v
}

/// What a hexadecimal digit is worth.
fn digit_value(c: char) -> (r: Option<u128>)
    ensures
        match r {
            Some(d) => hex_value(c) == Some(d as nat) && d < 16,
            None => hex_value(c) is None,
        },
{
    if '0' <= c && c <= '9' {
        Some((c as u32 - '0' as u32) as u128)
    } else if 'a' <= c && c <= 'f' {
        Some((c as u32 - 'a' as u32 + 10) as u128)
    } else if 'A' <= c && c <= 'F' {
        Some((c as u32 - 'A' as u32 + 10) as u128)
    } else {
        None
    }
}

/// A prefix of digits writes no more than the whole.
proof fn hex_number_prefix(s: Seq<char>, k: int)
    requires
        0 <= k <= s.len(),
        hex_number(s) is Some,
    ensures
        hex_number(s.take(k)) is Some,
        hex_number(s.take(k))->0 <= hex_number(s)->0,
    decreases s.len(),
{
    if k == s.len() {
        assert(s.take(k) =~= s);
    } else {
        hex_number_prefix(s.drop_last(), k);
        assert(s.drop_last().take(k) =~= s.take(k));
    }
}

/// Reads a hexadecimal `u128`: digits in either case behind an optional plus
/// sign. `None` where there is no digit, another character, or a value that
/// does not fit.
pub fn parse_hex(s: &str) -> (r: Option<u128>)
    ensures
        r == hex_reading(s@),
{
    let chars = chars_of(s);
    let start: usize = if chars.len() > 0 && chars[0] == '+' {
        1
    } else {
        0
    };
    let ghost digits = s@.skip(start as int);
    proof {
        if start == 0 {
            assert(digits =~= s@);
        }
    }
    if start == chars.len() {
        return None;
    }
    let mut n: u128 = 0;
    let mut i: usize = start;
    while i < chars.len()
        invariant
            chars@ == s@,
            start <= i <= chars.len(),
            digits == s@.skip(start as int),
            hex_number(digits.take(i - start)) == Some(n as nat),
            digits.len() > 0,
            digits == if s@.len() > 0 && s@[0] == '+' {
                s@.skip(1)
            } else {
                s@
            },
        decreases chars.len() - i,
    {
        let ghost k = (i - start) as int;
        proof {
            assert(digits.take(k + 1).drop_last() =~= digits.take(k));
            assert(digits.take(k + 1).last() == chars@[i as int]);
        }
        match digit_value(chars[i]) {
            None => {
                proof {
                    if hex_number(digits) is Some {
                        hex_number_prefix(digits, k + 1);
                    }
                }
                return None;
            },
            Some(d) => {
                if n > (u128::MAX - d) / 16 {
                    proof {
                        if hex_number(digits) is Some {
                            hex_number_prefix(digits, k + 1);
                        }
                    }
                    return None;
                }
                n = n * 16 + d;
            },
        }
        i = i + 1;
    }
    proof {
        assert(digits.take(i - start) =~= digits);
    }
    Some(n)
}

/// Padded hexadecimal is read back as the number that it writes, modulo what
/// `width` digits can hold.
proof fn hex_padded_number(n: nat, width: nat)
    ensures
        hex_padded(n, width).len() == width,
        hex_number(hex_padded(n, width)) is Some,
        n < vstd::arithmetic::power::pow(16, width) ==> hex_number(hex_padded(n, width)) == Some(n),
        width > 0 ==> hex_padded(n, width)[0] != '+',
    decreases width,
{
    use_pow(width);
    if width > 0 {
        let w = (width - 1) as nat;
        hex_padded_number(n / 16, w);
        let s = hex_padded(n, width);
        assert(s.drop_last() =~= hex_padded(n / 16, w));
        assert(hex_value(numerals()[(n % 16) as int]) == Some(n % 16));
        if w > 0 {
            assert(s[0] == hex_padded(n / 16, w)[0]);
        }
    }
}

proof fn use_pow(width: nat)
    ensures
        width == 0 ==> vstd::arithmetic::power::pow(16, width) == 1,
        width > 0 ==> vstd::arithmetic::power::pow(16, width) == 16
            * vstd::arithmetic::power::pow(16, (width - 1) as nat),
{
    vstd::arithmetic::power::lemma_pow0(16);
    if width > 0 {
        reveal(vstd::arithmetic::power::pow);
    }
}

/// A number written as 32 hexadecimal digits is read back unchanged.
pub proof fn hex_round_trip(n: u128)
    ensures
        hex_reading(hex_padded(n as nat, 32)) == Some(n),
{
    let s = hex_padded(n as nat, 32);
    hex_padded_number(n as nat, 32);
    assert(vstd::arithmetic::power::pow(16, 32) == 0x1_0000_0000_0000_0000_0000_0000_0000_0000) by {
        reveal_with_fuel(vstd::arithmetic::power::pow, 33);
    }
}

/// Joins `parts` with `sep` between any two.
pub fn join(parts: &[String], sep: &str) -> (out: String)
    ensures
        out@ == joined(views(parts@), sep@),
{
    let mut out = String::new();
    let mut i: usize = 0;
    while i < parts.len()
        invariant
            i <= parts.len(),
            out@ == joined(views(parts@).take(i as int), sep@),
        decreases parts.len() - i,
    {
        if i > 0 {
            out.append(sep);
        }
        out.append(parts[i].as_str());
        proof {
            let before = views(parts@).take(i as int);
            let after = views(parts@).take(i + 1);
            assert(after.drop_last() =~= before);
            assert(out@ =~= joined(after, sep@));
        }
        i = i + 1;
    }
    proof {
        assert(views(parts@).take(i as int) =~= views(parts@));
    }
    out
}

/// Whether `needle` stands in `hay` at position `at`.
fn matches_at(needle: &Vec<char>, hay: &Vec<char>, at: usize) -> (r: bool)
    ensures
        r == occurs_at(needle@, hay@, at as int),
{
    if at > hay.len() || needle.len() > hay.len() - at {
        return false;
    }
    let mut k: usize = 0;
    while k < needle.len()
        invariant
            k <= needle.len(),
            at + needle.len() <= hay.len(),
            forall|j: int| 0 <= j < k ==> needle@[j] == hay@[at + j],
        decreases needle.len() - k,
    {
        if needle[k] != hay[at + k] {
            assert(hay@.subrange(at as int, at + needle@.len())[k as int] != needle@[k as int]);
            return false;
        }
        k = k + 1;
    }
    true
}

/// Whether `needle` stands somewhere in `hay`.
pub fn contains(hay: &str, needle: &str) -> (r: bool)
    ensures
        r == occurs_in(needle@, hay@),
{
    let h = chars_of(hay);
    let n = chars_of(needle);
    let mut i: usize = 0;
    while i <= h.len()
        invariant
            h@ == hay@,
            n@ == needle@,
            i <= h.len() + 1,
            forall|j: int| 0 <= j < i ==> !occurs_at(needle@, hay@, j),
        decreases h.len() + 1 - i,
    {
        if matches_at(&n, &h, i) {
            return true;
        }
        if i == h.len() {
            return false;
        }
        i = i + 1;
    }
    false
}

/// Whether `s` begins with `prefix`.
pub fn starts_with(s: &str, prefix: &str) -> (r: bool)
    ensures
        r == prefix@.is_prefix_of(s@),
{
    let h = chars_of(s);
    let n = chars_of(prefix);
    let r = matches_at(&n, &h, 0);
    proof {
        if prefix@.is_prefix_of(s@) {
            assert(s@.subrange(0, prefix@.len() as int) =~= prefix@);
        }
    }
    r
}

/// What follows `prefix` in `s`, where `s` begins with it.
pub fn strip_prefix(s: &str, prefix: &str) -> (r: Option<String>)
    ensures
        match r {
            Some(rest) => s@ == prefix@ + rest@,
            None => !prefix@.is_prefix_of(s@),
        },
{
    if !starts_with(s, prefix) {
        return None;
    }
    let rest = s.substring_char(prefix.unicode_len(), s.unicode_len()).to_owned();
    proof {
        assert(s@ =~= prefix@ + rest@);
    }
    Some(rest)
}

/// Whether two texts are the same, character for character.
pub fn same_text(a: &str, b: &str) -> (r: bool)
    ensures
        r == (a@ == b@),
{
    let r = a.unicode_len() == b.unicode_len() && starts_with(a, b);
    proof {
        if r {
            assert(a@ =~= b@);
        }
    }
    r
}

/// What a list of decimal digits is worth.
spec fn worth_ten() -> spec_fn(int, char) -> int {
    |v: int, c: char| v * 10 + (c as int - '0' as int)
}

proof fn fold_push<T>(s: Seq<char>, c: char, start: T, f: spec_fn(T, char) -> T)
    ensures
        s.push(c).fold_left(start, f) == f(s.fold_left(start, f), c),
{
    reveal(Seq::fold_left);
    assert(s.push(c).drop_last() =~= s);
}

/// A decimal numeral is made of the digits `0` to `9`, without a leading zero unless
/// it is `0` itself, and each digit counting ten times as much as the one behind it
/// they are worth the number.
pub proof fn decimal_is_worth_its_number(n: nat)
    ensures
        decimal(n).len() > 0,
        forall|i: int| 0 <= i < decimal(n).len() ==> '0' <= #[trigger] decimal(n)[i] <= '9',
        n > 0 ==> decimal(n)[0] != '0',
        n < 10 ==> decimal(n).len() == 1,
        decimal(n).fold_left(0int, |v: int, c: char| v * 10 + (c as int - '0' as int)) == n,
    decreases n,
{
    let f = worth_ten();
    assert(f =~= |v: int, c: char| v * 10 + (c as int - '0' as int));
    let last = numerals()[(n % 10) as int];
    assert('0' <= last <= '9' && last as int - '0' as int == n % 10);
    if n < 10 {
        let s = Seq::<char>::empty();
        assert(decimal(n) =~= s.push(last));
        fold_push(s, last, 0int, f);
        reveal(Seq::fold_left);
    } else {
        decimal_is_worth_its_number(n / 10);
        fold_push(decimal(n / 10), last, 0int, f);
        assert(decimal(n)[0] == decimal(n / 10)[0]);
    }
}

/// A signed numeral is that of the magnitude, with a minus sign in front of it
/// exactly where the number is negative.
pub proof fn sign_stands_in_front(n: int)
    ensures
        n >= 0 ==> signed_decimal(n) == decimal(n as nat) && signed_decimal(n)[0] != '-',
        n < 0 ==> signed_decimal(n)[0] == '-' && signed_decimal(n).skip(1) == decimal((-n) as nat),
{
    decimal_is_worth_its_number(n as nat);
    if n < 0 {
        assert(signed_decimal(n).skip(1) =~= decimal((-n) as nat));
    }
}

/// What a hexadecimal numeral in lower case is worth.
spec fn worth_sixteen() -> spec_fn(int, char) -> int {
    |v: int, c: char|
        v * 16 + if c <= '9' {
            c as int - '0' as int
        } else {
            c as int - 'a' as int + 10
        }
}

/// Padded hexadecimal is as wide as it is asked to be, made of the digits `0` to `9`
/// and `a` to `f`, and worth the number, modulo what so many digits can hold.
pub proof fn hex_is_worth_its_number(n: nat, width: nat)
    ensures
        hex_padded(n, width).len() == width,
        forall|i: int|
            0 <= i < width ==> {
                let c = #[trigger] hex_padded(n, width)[i];
                '0' <= c <= '9' || 'a' <= c <= 'f'
            },
        hex_padded(n, width).fold_left(
            0int,
            |v: int, c: char|
                v * 16 + if c <= '9' {
                    c as int - '0' as int
                } else {
                    c as int - 'a' as int + 10
                },
        ) == n as int % vstd::arithmetic::power::pow(16, width),
    decreases width,
{
    let f = worth_sixteen();
    assert(f =~= |v: int, c: char|
        v * 16 + if c <= '9' {
            c as int - '0' as int
        } else {
            c as int - 'a' as int + 10
        });
    use_pow(width);
    if width > 0 {
        let w = (width - 1) as nat;
        let p = vstd::arithmetic::power::pow(16, w);
        hex_is_worth_its_number(n / 16, w);
        let last = numerals()[(n % 16) as int];
        assert(f(0, last) == n % 16);
        fold_push(hex_padded(n / 16, w), last, 0int, f);
        vstd::arithmetic::power::lemma_pow_positive(16, w);
        let q = n as int / 16;
        assert(n as int == 16 * q + n % 16);
        vstd::arithmetic::div_mod::lemma_mod_breakdown(n as int, 16, p);
        assert(n as int % (16 * p) == 16 * ((n as int / 16) % p) + n as int % 16);
    } else {
        reveal(Seq::fold_left);
    }
}

/// A hexadecimal digit in either case.
pub open spec fn is_hex_digit(c: char) -> bool {
    '0' <= c <= '9' || 'a' <= c <= 'f' || 'A' <= c <= 'F'
}

/// There is nothing but hexadecimal digits in the text.
pub open spec fn all_hex(s: Seq<char>) -> bool {
    forall|i: int| 0 <= i < s.len() ==> is_hex_digit(#[trigger] s[i])
}

/// What a hexadecimal digit in either case adds to those in front of it.
pub open spec fn hex_step() -> spec_fn(int, char) -> int {
    |v: int, c: char|
        v * 16 + if c <= '9' {
            c as int - '0' as int
        } else if c <= 'F' {
            c as int - 'A' as int + 10
        } else {
            c as int - 'a' as int + 10
        }
}

proof fn digits_are_worth(s: Seq<char>)
    ensures
        hex_number(s) is Some <==> all_hex(s),
        hex_number(s) matches Some(n) ==> n == s.fold_left(0int, hex_step()),
    decreases s.len(),
{
    reveal(Seq::fold_left);
    if s.len() > 0 {
        let front = s.drop_last();
        digits_are_worth(front);
        assert(s =~= front.push(s.last()));
        fold_push(front, s.last(), 0int, hex_step());
        assert(hex_value(s.last()) is Some <==> is_hex_digit(s.last()));
        if all_hex(s) {
            assert forall|i: int| 0 <= i < front.len() implies is_hex_digit(
                #[trigger] front[i],
            ) by {
                assert(front[i] == s[i]);
            }
            assert(is_hex_digit(s[s.len() - 1]));
        }
        if hex_number(s) is Some {
            assert forall|i: int| 0 <= i < s.len() implies is_hex_digit(#[trigger] s[i]) by {
                if i < front.len() {
                    assert(is_hex_digit(front[i]));
                }
            }
        }
    }
}

/// A hexadecimal number is read exactly where there is at least one digit behind an
/// optional plus sign and nothing but digits, in either case, and their worth fits;
/// and that worth is what is read.
pub proof fn reading_hex_is_what_the_digits_say(s: Seq<char>)
    ensures
        ({
            let digits = if s.len() > 0 && s[0] == '+' {
                s.skip(1)
            } else {
                s
            };
            &&& hex_reading(s) is Some <==> digits.len() > 0 && all_hex(digits) && digits.fold_left(
                0int,
                hex_step(),
            ) <= u128::MAX
            &&& hex_reading(s) matches Some(n) ==> n == digits.fold_left(0int, hex_step())
        }),
{
    let digits = if s.len() > 0 && s[0] == '+' {
        s.skip(1)
    } else {
        s
    };
    digits_are_worth(digits);
}

/// Joining puts the separator in front of every part but the first.
pub proof fn joining_separates_the_parts(parts: Seq<Seq<char>>, sep: Seq<char>)
    ensures
        parts.len() == 0 ==> joined(parts, sep).len() == 0,
        parts.len() > 0 ==> joined(parts, sep) == parts[0] + parts.skip(1).map_values(
            |p: Seq<char>| sep + p,
        ).flatten(),
    decreases parts.len(),
{
    let led = |p: Seq<char>| sep + p;
    if parts.len() == 1 {
        let rest = parts.skip(1).map_values(led);
        assert(rest =~= Seq::empty());
        assert(rest.flatten() =~= Seq::empty());
        assert(parts[0] + rest.flatten() =~= parts[0]);
    } else if parts.len() > 1 {
        let front = parts.drop_last();
        joining_separates_the_parts(front, sep);
        let was = front.skip(1).map_values(led);
        assert(parts.skip(1).map_values(led) =~= was.push(sep + parts.last()));
        was.lemma_flatten_push(sep + parts.last());
        assert(joined(parts, sep) =~= parts[0] + parts.skip(1).map_values(led).flatten());
    }
}

/// A text stands in another exactly where that is something, the text, and something
/// more, one behind the other.
pub proof fn occurring_is_standing_in_between(needle: Seq<char>, hay: Seq<char>)
    ensures
        occurs_in(needle, hay) <==> exists|a: Seq<char>, b: Seq<char>|
            hay == #[trigger] ((a + needle) + b),
{
    if occurs_in(needle, hay) {
        let i = choose|i: int| #[trigger] occurs_at(needle, hay, i);
        let (a, b) = (hay.take(i), hay.skip(i + needle.len()));
        assert(hay =~= (a + needle) + b);
    }
    if exists|a: Seq<char>, b: Seq<char>| hay == #[trigger] ((a + needle) + b) {
        let (a, b) = choose|a: Seq<char>, b: Seq<char>| hay == #[trigger] ((a + needle) + b);
        let i = a.len() as int;
        assert(hay.subrange(i, i + needle.len()) =~= needle);
        assert(occurs_at(needle, hay, i));
    }
}

} // verus!
