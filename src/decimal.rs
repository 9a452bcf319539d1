use vstd::prelude::*;

verus! {

/// Whether `c` is an ASCII decimal digit.
pub open spec fn is_digit(c: char) -> bool {
    '0' <= c && c <= '9'
}

/// The numeric value of a digit character.
pub open spec fn digit_value(c: char) -> int {
    c as int - '0' as int
}

/// The digits of `s`, in order, with every other character left out.
pub open spec fn digits(s: Seq<char>) -> Seq<char>
    decreases s.len(),
{
    if s.len() == 0 {
        Seq::empty()
    } else if is_digit(s.last()) {
        digits(s.drop_last()).push(s.last())
    } else {
        digits(s.drop_last())
    }
}

/// The natural number written by a sequence of digits (0 for none).
pub open spec fn decimal_value(d: Seq<char>) -> int
    decreases d.len(),
{
    if d.len() == 0 {
        0
    } else {
        decimal_value(d.drop_last()) * 10 + digit_value(d.last())
    }
}

/// Minor units contributed by the digits of a fractional part: one digit
/// counts in tens, two or more count as the first two, the rest is cut off.
pub open spec fn fraction_units(d: Seq<char>) -> int {
    if d.len() == 0 {
        0
    } else if d.len() == 1 {
        digit_value(d[0]) * 10
    } else {
        digit_value(d[0]) * 10 + digit_value(d[1])
    }
}

/// `k` is where the integer part of `s` ends: no '.' before it, and it is
/// the first '.' or the end of `s`.
pub open spec fn is_dot_split(s: Seq<char>, k: int) -> bool {
    &&& 0 <= k <= s.len()
    &&& forall|j: int| 0 <= j < k ==> s[j] != '.'
    &&& (k == s.len() || s[k] == '.')
}

/// The position of the first '.' of `s`, or its length where it has none.
pub open spec fn dot_position(s: Seq<char>) -> int {
    choose|k: int| is_dot_split(s, k)
}

/// Whether a decimal string starts with a minus sign.
pub open spec fn is_negative_text(s: Seq<char>) -> bool {
    s.len() > 0 && s[0] == '-'
}

/// The decimal string without its leading minus sign.
pub open spec fn unsigned_text(s: Seq<char>) -> Seq<char> {
    if is_negative_text(s) {
        s.drop_first()
    } else {
        s
    }
}

/// The integer part of an unsigned decimal string: all before the first '.'.
pub open spec fn integer_part(u: Seq<char>) -> Seq<char> {
    u.take(dot_position(u))
}

/// The fractional part of an unsigned decimal string: all after the first
/// '.', empty where there is none.
pub open spec fn fraction_part(u: Seq<char>) -> Seq<char> {
    if dot_position(u) < u.len() {
        u.skip(dot_position(u) + 1)
    } else {
        Seq::empty()
    }
}

/// Whether a value fits in an `i64`.
pub open spec fn fits_i64(v: int) -> bool {
    i64::MIN <= v <= i64::MAX
}

/// The exact amount in minor units that a decimal money string denotes,
/// or `None` where it is malformed or out of the `i64` range.
///
/// Stray non-digit characters are ignored in both parts. The string is
/// malformed where it holds no digit at all, or where its integer part is
/// not empty and holds no digit.
pub open spec fn minor_units_of(s: Seq<char>) -> Option<int> {
    let u = unsigned_text(s);
    let ip = digits(integer_part(u));
    let fp = digits(fraction_part(u));
    let magnitude = decimal_value(ip) * 100 + fraction_units(fp);
    let v = if is_negative_text(s) { -magnitude } else { magnitude };
    if (integer_part(u).len() > 0 && ip.len() == 0) || (ip.len() == 0 && fp.len() == 0) {
        None
    } else if fits_i64(v) {
        Some(v)
    } else {
        None
    }
}

/// The integer that a text made of an optional minus sign and one or more
/// digits denotes; `None` for any other text or a value out of `i64`.
pub open spec fn integer_of(s: Seq<char>) -> Option<int> {
    let u = unsigned_text(s);
    let v = if is_negative_text(s) { -decimal_value(u) } else { decimal_value(u) };
    if u.len() > 0 && (forall|j: int| 0 <= j < u.len() ==> is_digit(u[j])) && fits_i64(v) {
        Some(v)
    } else {
        None
    }
}

/// The largest integer part whose value in minor units can still fit.
const INTEGER_PART_CAP: u64 = 92233720368547758;

proof fn lemma_dot_split_unique(s: Seq<char>, k: int)
    requires
        is_dot_split(s, k),
    ensures
        dot_position(s) == k,
{
    let p = dot_position(s);
    assert(is_dot_split(s, p));
    if p < k {
        assert(s[p] != '.');
    } else if k < p {
        assert(s[k] != '.');
    }
}

proof fn lemma_decimal_value_nonneg(d: Seq<char>)
    requires
        forall|j: int| 0 <= j < d.len() ==> is_digit(d[j]),
    ensures
        decimal_value(d) >= 0,
    decreases d.len(),
{
    if d.len() > 0 {
        lemma_decimal_value_nonneg(d.drop_last());
    }
}

proof fn lemma_digits_are_digits(s: Seq<char>)
    ensures
        forall|j: int| 0 <= j < digits(s).len() ==> is_digit(#[trigger] digits(s)[j]),
    decreases s.len(),
{
    if s.len() > 0 {
        lemma_digits_are_digits(s.drop_last());
        let d = digits(s.drop_last());
        if is_digit(s.last()) {
            assert forall|j: int| 0 <= j < digits(s).len() implies is_digit(#[trigger] digits(s)[j]) by {
                if j < d.len() {
                    assert(digits(s)[j] == d[j]);
                }
            }
        }
    }
}

/// The position of the first '.' of `t`, or its length where it has none.
fn find_dot(t: &str) -> (k: usize)
    ensures
        k as int == dot_position(t@),
        k <= t@.len(),
{
    let n = t.unicode_len();
    let mut k: usize = 0;
    while k < n
        invariant
            n == t@.len(),
            k <= n,
            forall|j: int| 0 <= j < k ==> t@[j] != '.',
        decreases n - k,
    {
        if t.get_char(k) == '.' {
            proof {
                lemma_dot_split_unique(t@, k as int);
            }
            return k;
        }
        k = k + 1;
    }
    proof {
        lemma_dot_split_unique(t@, k as int);
    }
    k
}

/// Reads the digits of an integer part. Returns whether it holds a digit,
/// and its value unless that value exceeds the cap.
fn scan_integer_part(t: &str) -> (r: (bool, Option<u64>))
    ensures
        r.0 == (digits(t@).len() > 0),
        match r.1 {
            Some(v) => v as int == decimal_value(digits(t@)) && v <= INTEGER_PART_CAP,
            None => decimal_value(digits(t@)) > INTEGER_PART_CAP,
        },
{
    let n = t.unicode_len();
    let mut i: usize = 0;
    let mut seen = false;
    let mut acc: Option<u64> = Some(0);
    while i < n
        invariant
            n == t@.len(),
            i <= n,
            seen == (digits(t@.take(i as int)).len() > 0),
            match acc {
                Some(v) => v as int == decimal_value(digits(t@.take(i as int))) && v <= INTEGER_PART_CAP,
                None => decimal_value(digits(t@.take(i as int))) > INTEGER_PART_CAP,
            },
        decreases n - i,
    {
        let c = t.get_char(i);
        proof {
            assert(t@.take(i as int + 1).drop_last() =~= t@.take(i as int));
            assert(t@.take(i as int + 1).last() == c);
            lemma_digits_are_digits(t@.take(i as int));
            lemma_decimal_value_nonneg(digits(t@.take(i as int)));
            assert(digits(t@.take(i as int)).push(c).drop_last() =~= digits(t@.take(i as int)));
        }
        if '0' <= c && c <= '9' {
            seen = true;
            let d = (c as u32 - '0' as u32) as u64;
            acc = match acc {
                Some(v) => {
                    let w = v * 10 + d;
                    if w <= INTEGER_PART_CAP {
                        Some(w)
                    } else {
                        None
                    }
                },
                None => None,
            };
        }
        i = i + 1;
    }
    assert(t@.take(n as int) =~= t@);
    (seen, acc)
}

/// Reads the digits of a fractional part. Returns whether it holds a digit,
/// and the minor units they contribute.
fn scan_fraction_part(t: &str) -> (r: (bool, u64))
    ensures
        r.0 == (digits(t@).len() > 0),
        r.1 as int == fraction_units(digits(t@)),
        r.1 <= 99,
{
    let n = t.unicode_len();
    let mut i: usize = 0;
    let mut count: u64 = 0;
    let mut units: u64 = 0;
    while i < n
        invariant
            n == t@.len(),
            i <= n,
            count as int == if digits(t@.take(i as int)).len() < 2 {
                digits(t@.take(i as int)).len() as int
            } else {
                2
            },
            units as int == fraction_units(digits(t@.take(i as int))),
            units <= 99,
        decreases n - i,
    {
        let c = t.get_char(i);
        proof {
            assert(t@.take(i as int + 1).drop_last() =~= t@.take(i as int));
            assert(t@.take(i as int + 1).last() == c);
            lemma_digits_are_digits(t@.take(i as int));
        }
        if '0' <= c && c <= '9' {
            let d = (c as u32 - '0' as u32) as u64;
            assert(digits(t@.take(i as int + 1)) == digits(t@.take(i as int)).push(c));
            if count == 0 {
                units = d * 10;
                count = 1;
            } else if count == 1 {
                units = units + d;
                count = 2;
            }
        }
        i = i + 1;
    }
    assert(t@.take(n as int) =~= t@);
    (count > 0, units)
}

/// Parses a decimal money string ("52.34", "-12.5", "$1,000") into exact
/// minor units, without any floating-point step. `None` where the string
/// is malformed or the amount does not fit in an `i64`.
pub fn parse_decimal_string(s: &str) -> (r: Option<i64>)
    ensures
        match r {
            Some(v) => minor_units_of(s@) == Some(v as int),
            None => minor_units_of(s@) is None,
        },
{
    let n = s.unicode_len();
    let negative = n > 0 && s.get_char(0) == '-';
    let start: usize = if negative { 1 } else { 0 };
    let u = s.substring_char(start, n);
    assert(u@ =~= unsigned_text(s@));
    let k = find_dot(u);
    let ulen = u.unicode_len();
    let ip = u.substring_char(0, k);
    let fp = if k < ulen { u.substring_char(k + 1, ulen) } else { u.substring_char(ulen, ulen) };
    assert(ip@ =~= integer_part(u@));
    assert(fp@ =~= fraction_part(u@));
    let (int_seen, int_value) = scan_integer_part(ip);
    let (frac_seen, frac_units) = scan_fraction_part(fp);
    if (ip.unicode_len() > 0 && !int_seen) || (!int_seen && !frac_seen) {
        return None;
    }
    match int_value {
        None => None,
        Some(v) => {
            let magnitude: u64 = v * 100 + frac_units;
            if negative {
                if magnitude <= 9223372036854775807 {
                    Some(-(magnitude as i64))
                } else if magnitude == 9223372036854775808 {
                    Some(i64::MIN)
                } else {
                    None
                }
            } else if magnitude <= 9223372036854775807 {
                Some(magnitude as i64)
            } else {
                None
            }
        },
    }
}

/// Parses a whole number of minor units: an optional minus sign and one or
/// more digits, nothing else. `None` for any other text or out of `i64`.
pub fn parse_minor_units(s: &str) -> (r: Option<i64>)
    ensures
        match r {
            Some(v) => integer_of(s@) == Some(v as int),
            None => integer_of(s@) is None,
        },
{
    let n = s.unicode_len();
    let negative = n > 0 && s.get_char(0) == '-';
    let start: usize = if negative { 1 } else { 0 };
    let u = s.substring_char(start, n);
    assert(u@ =~= unsigned_text(s@));
    let len = u.unicode_len();
    if len == 0 {
        return None;
    }
    // The magnitude so far; it may reach one past `i64::MAX` for a negative value.
    let mut acc: u64 = 0;
    let mut i: usize = 0;
    while i < len
        invariant
            len == u@.len(),
            u@ == unsigned_text(s@),
            negative == is_negative_text(s@),
            i <= len,
            forall|j: int| 0 <= j < i ==> is_digit(u@[j]),
            acc as int == decimal_value(u@.take(i as int)),
            acc <= 9223372036854775808,
        decreases len - i,
    {
        let c = u.get_char(i);
        if !('0' <= c && c <= '9') {
            assert(!is_digit(u@[i as int]));
            return None;
        }
        proof {
            assert(u@.take(i as int + 1).drop_last() =~= u@.take(i as int));
            assert(u@.take(i as int + 1).last() == c);
        }
        let d = (c as u32 - '0' as u32) as u64;
        if acc > 922337203685477580 || acc * 10 + d > 9223372036854775808 {
            proof {
                lemma_decimal_value_grows(u@, i as int + 1);
            }
            return None;
        }
        acc = acc * 10 + d;
        i = i + 1;
    }
    assert(u@.take(len as int) =~= u@);
    if negative {
        if acc == 9223372036854775808 {
            Some(i64::MIN)
        } else {
            Some(-(acc as i64))
        }
    } else if acc <= 9223372036854775807 {
        Some(acc as i64)
    } else {
        None
    }
}

proof fn lemma_decimal_value_grows(u: Seq<char>, i: int)
    requires
        0 <= i <= u.len(),
        forall|j: int| 0 <= j < i ==> is_digit(u[j]),
    ensures
        (forall|j: int| 0 <= j < u.len() ==> is_digit(u[j])) ==> decimal_value(u) >= decimal_value(u.take(i)),
    decreases u.len() - i,
{
    if i < u.len() && (forall|j: int| 0 <= j < u.len() ==> is_digit(u[j])) {
        lemma_decimal_value_grows(u, i + 1);
        assert(u.take(i + 1).drop_last() =~= u.take(i));
        lemma_decimal_value_nonneg(u.take(i));
    } else if i == u.len() {
        assert(u.take(i) =~= u);
    }
}

/// The digit character for a value below ten.
pub open spec fn digit_char(d: int) -> char {
    if d <= 0 {
        '0'
    } else if d == 1 {
        '1'
    } else if d == 2 {
        '2'
    } else if d == 3 {
        '3'
    } else if d == 4 {
        '4'
    } else if d == 5 {
        '5'
    } else if d == 6 {
        '6'
    } else if d == 7 {
        '7'
    } else if d == 8 {
        '8'
    } else {
        '9'
    }
}

/// The decimal digits of a natural number, without leading zeros.
pub open spec fn natural_text(n: nat) -> Seq<char>
    decreases n,
{
    if n < 10 {
        seq![digit_char(n as int)]
    } else {
        natural_text(n / 10).push(digit_char(n as int % 10))
    }
}

/// The absolute value of an integer.
pub open spec fn magnitude_of(v: int) -> nat {
    if v < 0 {
        (-v) as nat
    } else {
        v as nat
    }
}

/// The canonical decimal text of an amount in minor units: a minus sign
/// where it is negative, the major units, a '.', and exactly two digits.
pub open spec fn canonical_text(v: int) -> Seq<char> {
    let m = magnitude_of(v);
    let sign = if v < 0 { seq!['-'] } else { Seq::<char>::empty() };
    sign + natural_text(m / 100) + seq!['.', digit_char(((m % 100) / 10) as int), digit_char((m % 10) as int)]
}

/// The one-character text of a digit.
fn digit_str(d: u64) -> (r: &'static str)
    requires
        d < 10,
    ensures
        r@ == seq![digit_char(d as int)],
{
    if d == 0 {
        proof { reveal_strlit("0"); }
        "0"
    } else if d == 1 {
        proof { reveal_strlit("1"); }
        "1"
    } else if d == 2 {
        proof { reveal_strlit("2"); }
        "2"
    } else if d == 3 {
        proof { reveal_strlit("3"); }
        "3"
    } else if d == 4 {
        proof { reveal_strlit("4"); }
        "4"
    } else if d == 5 {
        proof { reveal_strlit("5"); }
        "5"
    } else if d == 6 {
        proof { reveal_strlit("6"); }
        "6"
    } else if d == 7 {
        proof { reveal_strlit("7"); }
        "7"
    } else if d == 8 {
        proof { reveal_strlit("8"); }
        "8"
    } else {
        proof { reveal_strlit("9"); }
        "9"
    }
}

/// Appends the decimal digits of `n` to `out`.
fn append_natural(out: &mut String, n: u64)
    ensures
        final(out)@ == old(out)@ + natural_text(n as nat),
    decreases n,
{
    if n >= 10 {
        append_natural(out, n / 10);
    }
    out.append(digit_str(n % 10));
    proof {
        if n >= 10 {
            assert(natural_text(n as nat) == natural_text((n / 10) as nat).push(digit_char(n as int % 10)));
        }
    }
    assert(final(out)@ =~= old(out)@ + natural_text(n as nat));
}

/// Writes an amount in minor units as canonical decimal text ("-12.34",
/// "0.05", "50.00").
pub fn format_minor_units(v: i64) -> (r: String)
    ensures
        r@ == canonical_text(v as int),
{
    let m: u64 = if v < 0 {
        if v == i64::MIN {
            9223372036854775808
        } else {
            (-v) as u64
        }
    } else {
        v as u64
    };
    assert(m as nat == magnitude_of(v as int));
    let mut out = String::new();
    if v < 0 {
        proof { reveal_strlit("-"); }
        out.append("-");
    }
    append_natural(&mut out, m / 100);
    proof { reveal_strlit("."); }
    out.append(".");
    out.append(digit_str((m % 100) / 10));
    out.append(digit_str(m % 10));
    assert(out@ =~= canonical_text(v as int));
    out
}

/// Whether every character of `s` is a digit.
pub open spec fn all_digits(s: Seq<char>) -> bool {
    forall|j: int| 0 <= j < s.len() ==> is_digit(s[j])
}

proof fn lemma_digits_of_digit_text(d: Seq<char>)
    requires
        all_digits(d),
    ensures
        digits(d) == d,
    decreases d.len(),
{
    if d.len() > 0 {
        lemma_digits_of_digit_text(d.drop_last());
        assert(d.drop_last().push(d.last()) =~= d);
    }
}

/// The amount that a string made of an optional minus sign, the digits of
/// an integer part and, where `dotted`, a '.' and fractional digits denotes.
proof fn lemma_parse_parts(s: Seq<char>, neg: bool, d: Seq<char>, dotted: bool, f: Seq<char>)
    requires
        d.len() > 0,
        all_digits(d),
        all_digits(f),
        s == (if neg { seq!['-'] } else { Seq::<char>::empty() }) + d + (if dotted {
            seq!['.'] + f
        } else {
            Seq::<char>::empty()
        }),
    ensures
        ({
            let m = decimal_value(d) * 100 + fraction_units(if dotted { f } else { Seq::<char>::empty() });
            let v = if neg { -m } else { m };
            minor_units_of(s) == if fits_i64(v) { Some(v) } else { None::<int> }
        }),
{
    let tail = if dotted { seq!['.'] + f } else { Seq::<char>::empty() };
    let u = d + tail;
    if neg {
        assert(s[0] == '-');
        assert(s.drop_first() =~= u);
    } else {
        assert(s =~= u);
        assert(is_digit(s[0]));
    }
    assert(is_negative_text(s) == neg);
    assert(unsigned_text(s) == u);
    assert forall|j: int| 0 <= j < d.len() implies u[j] != '.' by {
        assert(u[j] == d[j]);
        assert(is_digit(d[j]));
    }
    if dotted {
        assert(u[d.len() as int] == '.');
    }
    lemma_dot_split_unique(u, d.len() as int);
    assert(integer_part(u) =~= d);
    if dotted {
        assert(fraction_part(u) =~= f);
    } else {
        assert(fraction_part(u) =~= Seq::<char>::empty());
    }
    lemma_digits_of_digit_text(d);
    lemma_digits_of_digit_text(f);
    lemma_digits_of_digit_text(Seq::<char>::empty());
}

/// A string "D.FF" (integer digits, a '.', two digits) parses to exactly
/// D * 100 + FF minor units.
pub proof fn lemma_parse_two_fraction_digits(d: Seq<char>, f1: char, f2: char)
    requires
        d.len() > 0,
        all_digits(d),
        is_digit(f1),
        is_digit(f2),
        decimal_value(d) * 100 + digit_value(f1) * 10 + digit_value(f2) <= i64::MAX,
    ensures
        minor_units_of(d + seq!['.', f1, f2]) == Some(decimal_value(d) * 100 + digit_value(f1) * 10 + digit_value(f2)),
{
    let f = seq![f1, f2];
    lemma_decimal_value_nonneg(d);
    assert(all_digits(f));
    assert(d + seq!['.', f1, f2] =~= Seq::<char>::empty() + d + (seq!['.'] + f));
    lemma_parse_parts(d + seq!['.', f1, f2], false, d, true, f);
}

/// A string "D.F" (integer digits, a '.', one digit) parses to exactly
/// D * 100 + F * 10 minor units.
pub proof fn lemma_parse_one_fraction_digit(d: Seq<char>, f1: char)
    requires
        d.len() > 0,
        all_digits(d),
        is_digit(f1),
        decimal_value(d) * 100 + digit_value(f1) * 10 <= i64::MAX,
    ensures
        minor_units_of(d + seq!['.', f1]) == Some(decimal_value(d) * 100 + digit_value(f1) * 10),
{
    let f = seq![f1];
    lemma_decimal_value_nonneg(d);
    assert(all_digits(f));
    assert(d + seq!['.', f1] =~= Seq::<char>::empty() + d + (seq!['.'] + f));
    lemma_parse_parts(d + seq!['.', f1], false, d, true, f);
}

/// A string "D" of integer digits alone parses to exactly D * 100 minor units.
pub proof fn lemma_parse_no_fraction(d: Seq<char>)
    requires
        d.len() > 0,
        all_digits(d),
        decimal_value(d) * 100 <= i64::MAX,
    ensures
        minor_units_of(d) == Some(decimal_value(d) * 100),
{
    lemma_decimal_value_nonneg(d);
    assert(d =~= Seq::<char>::empty() + d + Seq::<char>::empty());
    lemma_parse_parts(d, false, d, false, Seq::<char>::empty());
}

proof fn lemma_digit_char(k: int)
    requires
        0 <= k < 10,
    ensures
        is_digit(digit_char(k)),
        digit_value(digit_char(k)) == k,
{
}

proof fn lemma_natural_text(n: nat)
    ensures
        natural_text(n).len() > 0,
        all_digits(natural_text(n)),
        decimal_value(natural_text(n)) == n,
    decreases n,
{
    if n < 10 {
        lemma_digit_char(n as int);
        assert(natural_text(n).drop_last() =~= Seq::<char>::empty());
        assert(decimal_value(Seq::<char>::empty()) == 0);
        assert(decimal_value(natural_text(n)) == digit_value(natural_text(n).last()));
    } else {
        lemma_digit_char(n as int % 10);
        lemma_natural_text(n / 10);
        assert(natural_text(n).drop_last() =~= natural_text(n / 10));
        let t = natural_text(n);
        assert(t.last() == digit_char(n as int % 10));
        assert(decimal_value(t) == decimal_value(t.drop_last()) * 10 + digit_value(t.last()));
        assert((n / 10) * 10 + n % 10 == n);
        assert forall|j: int| 0 <= j < t.len() implies is_digit(t[j]) by {
            if j < t.len() - 1 {
                assert(t[j] == natural_text(n / 10)[j]);
            }
        }
    }
}

/// Writing an amount as canonical decimal text and parsing that text gives
/// back the same amount in minor units.
pub proof fn lemma_canonical_round_trip(v: int)
    requires
        fits_i64(v),
    ensures
        minor_units_of(canonical_text(v)) == Some(v),
{
    let m = magnitude_of(v);
    let d = natural_text(m / 100);
    let f = seq![digit_char(((m % 100) / 10) as int), digit_char((m % 10) as int)];
    let sign = if v < 0 { seq!['-'] } else { Seq::<char>::empty() };
    lemma_natural_text(m / 100);
    lemma_digit_char(((m % 100) / 10) as int);
    lemma_digit_char((m % 10) as int);
    assert(all_digits(f));
    assert(canonical_text(v) =~= sign + d + (seq!['.'] + f));
    lemma_parse_parts(canonical_text(v), v < 0, d, true, f);
    assert(fraction_units(f) == m % 100);
}

} // verus!
