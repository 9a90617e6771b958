//! Textual date codec.
//!
//! Dates travel as text in the fixed `DD-MM-YYYY` shape: three numeric
//! fields separated by `-`.  The spec model splits a character sequence on
//! dashes and reads each field as `u32::from_str` would (an optional leading
//! `+`, then decimal digits); the executable parser is proved against it.

use vstd::prelude::*;

use crate::date::date_epoch;
use crate::date::date_to_timestamp;
use crate::date::days_in_month;
use crate::date::days_of_month;
use crate::date::lemma_days_before_month_bound;
use crate::date::lemma_days_before_year_bound;
use crate::date::valid_date;
use crate::types::Error;
use crate::types::ErrorKind;

verus! {

/// Proposals may not be dated before this year.
pub const MIN_YEAR: u32 = 2023;

/// A decimal digit.
pub open spec fn is_digit(c: char) -> bool {
    48 <= c as int <= 57
}

/// The numeric value of a decimal digit.
pub open spec fn digit_val(c: char) -> int {
    c as int - 48
}

/// Every character of `s` is a decimal digit.
pub open spec fn all_digits(s: Seq<char>) -> bool {
    forall|i: int| 0 <= i < s.len() ==> is_digit(#[trigger] s[i])
}

/// The number denoted by a digit sequence, most significant digit first.
pub open spec fn digits_val(s: Seq<char>) -> int
    decreases s.len(),
{
    if s.len() == 0 {
        0
    } else {
        10 * digits_val(s.drop_last()) + digit_val(s.last())
    }
}

/// A numeric field with an optional leading `+` stripped.
pub open spec fn field_body(s: Seq<char>) -> Seq<char> {
    if s.len() > 0 && s[0] == '+' {
        s.skip(1)
    } else {
        s
    }
}

/// The value of a numeric field, read as `u32::from_str` reads it: an
/// optional leading `+`, then at least one digit, value within `u32`.
pub open spec fn parse_u32_field(s: Seq<char>) -> Option<u32> {
    let b = field_body(s);
    if b.len() > 0 && all_digits(b) && digits_val(b) < 0x1_0000_0000 {
        Some(digits_val(b) as u32)
    } else {
        None
    }
}

/// No character of `s` is a dash.
pub open spec fn no_dash(s: Seq<char>) -> bool {
    forall|i: int| 0 <= i < s.len() ==> #[trigger] s[i] != '-'
}

/// The fields of `s` split on `-`, as `str::split('-')` yields them: one
/// more field than there are dashes, fields may be empty.
pub open spec fn split_dash(s: Seq<char>) -> Seq<Seq<char>>
    decreases s.len(),
{
    if s.len() == 0 {
        seq![Seq::<char>::empty()]
    } else if s[0] == '-' {
        seq![Seq::<char>::empty()] + split_dash(s.skip(1))
    } else {
        let r = split_dash(s.skip(1));
        seq![seq![s[0]] + r[0]] + r.skip(1)
    }
}

/// What parsing a `DD-MM-YYYY` text yields: `(epoch seconds, year, month,
/// day)` when the text splits into exactly three numeric fields forming a
/// calendar-valid date on or after `MIN_YEAR`; nothing otherwise.
pub open spec fn spec_parse_date(s: Seq<char>) -> Option<(u64, u32, u32, u32)> {
    let parts = split_dash(s);
    if parts.len() != 3 {
        None
    } else {
        match (parse_u32_field(parts[0]), parse_u32_field(parts[1]), parse_u32_field(parts[2])) {
            (Some(day), Some(month), Some(year)) => {
                if 1 <= month && month <= 12 && 1 <= day && day as int <= days_of_month(
                    year as int,
                    month as int,
                ) && year >= MIN_YEAR {
                    Some(
                        (
                            date_epoch(year as int, month as int, day as int) as u64,
                            year,
                            month,
                            day,
                        ),
                    )
                } else {
                    None
                }
            },
            _ => None,
        }
    }
}

/// A split always has at least one field.
proof fn lemma_split_at_least_one(s: Seq<char>)
    ensures
        split_dash(s).len() >= 1,
    decreases s.len(),
{
    if s.len() > 0 {
        lemma_split_at_least_one(s.skip(1));
    }
}

/// A dash-free sequence is a single field.
proof fn lemma_split_no_dash(s: Seq<char>)
    requires
        no_dash(s),
    ensures
        split_dash(s) =~~= seq![s],
    decreases s.len(),
{
    if s.len() > 0 {
        assert(no_dash(s.skip(1))) by {
            assert(forall|i: int|
                0 <= i < s.skip(1).len() ==> #[trigger] s.skip(1)[i] == s[i + 1]);
        }
        lemma_split_no_dash(s.skip(1));
        assert(seq![s[0]] + s.skip(1) =~= s);
    }
}

/// Splitting at the first dash: the dash-free prefix is the first field, and
/// the rest of the fields are the split of what follows the dash.
proof fn lemma_split_at_dash(s: Seq<char>, i: int)
    requires
        0 <= i < s.len(),
        s[i] == '-',
        no_dash(s.subrange(0, i)),
    ensures
        split_dash(s) =~~= seq![s.subrange(0, i)] + split_dash(s.skip(i + 1)),
    decreases i,
{
    if i == 0 {
        assert(s.subrange(0, 0) =~= Seq::<char>::empty());
    } else {
        assert(s[0] != '-') by {
            assert(s.subrange(0, i)[0] == s[0]);
        }
        let t = s.skip(1);
        assert(t[i - 1] == s[i]);
        assert(no_dash(t.subrange(0, i - 1))) by {
            assert(forall|j: int|
                0 <= j < i - 1 ==> #[trigger] t.subrange(0, i - 1)[j] == s.subrange(0, i)[j + 1]);
        }
        lemma_split_at_dash(t, i - 1);
        assert(t.skip(i) =~= s.skip(i + 1));
        let r = split_dash(t);
        assert(r[0] == t.subrange(0, i - 1));
        assert(seq![s[0]] + t.subrange(0, i - 1) =~= s.subrange(0, i));
        assert(r.skip(1) =~~= split_dash(s.skip(i + 1)));
    }
}

/// Digit sequences denote non-negative numbers.
proof fn lemma_digits_val_nonneg(s: Seq<char>)
    requires
        all_digits(s),
    ensures
        digits_val(s) >= 0,
    decreases s.len(),
{
    if s.len() > 0 {
        assert(all_digits(s.drop_last()));
        lemma_digits_val_nonneg(s.drop_last());
    }
}

/// A digit sequence denotes at least as much as any of its prefixes.
proof fn lemma_digits_val_prefix(s: Seq<char>, j: int)
    requires
        all_digits(s),
        0 <= j <= s.len(),
    ensures
        digits_val(s) >= digits_val(s.take(j)),
    decreases s.len() - j,
{
    if j < s.len() {
        assert(all_digits(s.take(j)));
        lemma_digits_val_nonneg(s.take(j));
        assert(s.take(j + 1).drop_last() =~= s.take(j));
        assert(s.take(j + 1).last() == s[j]);
        lemma_digits_val_prefix(s, j + 1);
    } else {
        assert(s.take(j) =~= s);
    }
}

/// Extending a dash-free span of `s` by one more non-dash character.
proof fn lemma_no_dash_extend(s: Seq<char>, a: int, i: int)
    requires
        0 <= a <= i < s.len(),
        no_dash(s.subrange(a, i)),
        s[i] != '-',
    ensures
        no_dash(s.subrange(a, i + 1)),
{
    assert(forall|j: int|
        0 <= j < i - a ==> #[trigger] s.subrange(a, i + 1)[j] == s.subrange(a, i)[j]);
    assert(s.subrange(a, i + 1)[i - a] == s[i]);
}

/// Read the numeric field at `s[from..to]` as `u32::from_str` would.
fn parse_u32_range(s: &str, from: usize, to: usize) -> (r: Option<u32>)
    requires
        from <= to <= s@.len(),
    ensures
        r == parse_u32_field(s@.subrange(from as int, to as int)),
{
    let ghost f = s@.subrange(from as int, to as int);
    let mut start: usize = from;
    if from < to && s.get_char(from) == '+' {
        start = from + 1;
    }
    let ghost b = field_body(f);
    proof {
        assert(b =~= s@.subrange(start as int, to as int));
    }
    if start == to {
        return None;
    }
    let mut i: usize = start;
    let mut acc: u64 = 0;
    while i < to
        invariant
            from <= start <= i,
            start < to,
            i <= to <= s@.len(),
            b == s@.subrange(start as int, to as int),
            b == field_body(s@.subrange(from as int, to as int)),
            all_digits(b.take(i as int - start as int)),
            acc == digits_val(b.take(i as int - start as int)),
            acc <= 0xFFFF_FFFF,
        decreases to - i,
    {
        let c = s.get_char(i);
        let v = c as u32;
        proof {
            assert(b[i as int - start as int] == c);
        }
        if v < 48 || v > 57 {
            proof {
                assert(!is_digit(c));
                assert(!all_digits(b));
            }
            return None;
        }
        acc = acc * 10 + (v - 48) as u64;
        proof {
            assert(b.take(i as int - start as int + 1).drop_last() =~= b.take(
                i as int - start as int,
            ));
            assert(b.take(i as int - start as int + 1).last() == c);
            assert(all_digits(b.take(i as int - start as int + 1)));
            assert(digits_val(b.take(i as int - start as int + 1)) == acc);
        }
        if acc > 0xFFFF_FFFF {
            proof {
                if all_digits(b) {
                    lemma_digits_val_prefix(b, i as int - start as int + 1);
                    assert(digits_val(b) >= acc);
                }
            }
            return None;
        }
        i = i + 1;
    }
    proof {
        assert(b.take(b.len() as int) =~= b);
    }
    Some(acc as u32)
}

/// Parse a `DD-MM-YYYY` date text.
///
/// Returns `(epoch seconds, year, month, day)` when the text splits into
/// exactly three numeric fields that form a calendar-valid date in year
/// `MIN_YEAR` or later; every other input is rejected as `InvalidInput`.
pub fn parse_date(date_str: &str) -> (r: Result<(u64, u32, u32, u32), Error>)
    ensures
        match r {
            Ok(t) => spec_parse_date(date_str@) == Some::<(u64, u32, u32, u32)>((t.0, t.1, t.2, t.3)),
            Err(e) => spec_parse_date(date_str@) is None && e.spec_kind() == ErrorKind::InvalidInput,
        },
{
    let ghost s = date_str@;
    let s_len = date_str.unicode_len();
    let mut i: usize = 0;
    let mut count: usize = 0;
    let mut d1: usize = 0;
    let mut d2: usize = 0;
    let mut d3: usize = 0;
    while i < s_len
        invariant
            s == date_str@,
            i <= s_len,
            s_len == s.len(),
            count <= i,
            count == 0 ==> no_dash(s.subrange(0, i as int)),
            count >= 1 ==> d1 < i && s[d1 as int] == '-' && no_dash(s.subrange(0, d1 as int)),
            count == 1 ==> no_dash(s.subrange(d1 as int + 1, i as int)),
            count >= 2 ==> d1 < d2 < i && s[d2 as int] == '-' && no_dash(
                s.subrange(d1 as int + 1, d2 as int),
            ),
            count == 2 ==> no_dash(s.subrange(d2 as int + 1, i as int)),
            count >= 3 ==> d2 < d3 < i && s[d3 as int] == '-' && no_dash(
                s.subrange(d2 as int + 1, d3 as int),
            ),
        decreases s_len - i,
    {
        let c = date_str.get_char(i);
        if c == '-' {
            if count == 0 {
                d1 = i;
                proof {
                    assert(s.subrange(d1 as int + 1, i as int + 1) =~= Seq::<char>::empty());
                }
            } else if count == 1 {
                d2 = i;
                proof {
                    assert(s.subrange(d2 as int + 1, i as int + 1) =~= Seq::<char>::empty());
                }
            } else if count == 2 {
                d3 = i;
            }
            count = count + 1;
        } else {
            proof {
                if count == 0 {
                    lemma_no_dash_extend(s, 0, i as int);
                } else if count == 1 {
                    lemma_no_dash_extend(s, d1 as int + 1, i as int);
                } else if count == 2 {
                    lemma_no_dash_extend(s, d2 as int + 1, i as int);
                }
            }
        }
        i = i + 1;
    }
    if count != 2 {
        proof {
            if count == 0 {
                assert(s.subrange(0, s.len() as int) =~= s);
                lemma_split_no_dash(s);
            } else if count == 1 {
                lemma_split_at_dash(s, d1 as int);
                assert(s.subrange(d1 as int + 1, s.len() as int) =~= s.skip(d1 as int + 1));
                lemma_split_no_dash(s.skip(d1 as int + 1));
            } else {
                lemma_split_at_dash(s, d1 as int);
                let t1 = s.skip(d1 as int + 1);
                assert(t1[d2 as int - d1 - 1] == s[d2 as int]);
                assert(no_dash(t1.subrange(0, d2 as int - d1 - 1))) by {
                    assert(forall|j: int|
                        0 <= j < d2 as int - d1 - 1 ==> #[trigger] t1.subrange(
                            0,
                            d2 as int - d1 - 1,
                        )[j] == s.subrange(d1 as int + 1, d2 as int)[j]);
                }
                lemma_split_at_dash(t1, d2 as int - d1 - 1);
                let t2 = t1.skip(d2 as int - d1);
                assert(t2 =~= s.skip(d2 as int + 1));
                assert(t2[d3 as int - d2 - 1] == s[d3 as int]);
                assert(no_dash(t2.subrange(0, d3 as int - d2 - 1))) by {
                    assert(forall|j: int|
                        0 <= j < d3 as int - d2 - 1 ==> #[trigger] t2.subrange(
                            0,
                            d3 as int - d2 - 1,
                        )[j] == s.subrange(d2 as int + 1, d3 as int)[j]);
                }
                lemma_split_at_dash(t2, d3 as int - d2 - 1);
                lemma_split_at_least_one(t2.skip(d3 as int - d2));
            }
        }
        return Err(Error::invalid_input("Invalid date format. Use DD-MM-YYYY"));
    }
    proof {
        lemma_split_at_dash(s, d1 as int);
        let t1 = s.skip(d1 as int + 1);
        assert(t1[d2 as int - d1 - 1] == s[d2 as int]);
        assert(no_dash(t1.subrange(0, d2 as int - d1 - 1))) by {
            assert(forall|j: int|
                0 <= j < d2 as int - d1 - 1 ==> #[trigger] t1.subrange(0, d2 as int - d1 - 1)[j]
                    == s.subrange(d1 as int + 1, d2 as int)[j]);
        }
        lemma_split_at_dash(t1, d2 as int - d1 - 1);
        let t2 = t1.skip(d2 as int - d1);
        assert(t2 =~= s.skip(d2 as int + 1));
        assert(no_dash(t2)) by {
            assert(forall|j: int|
                0 <= j < t2.len() ==> #[trigger] t2[j] == s.subrange(
                    d2 as int + 1,
                    s.len() as int,
                )[j]);
        }
        lemma_split_no_dash(t2);
        assert(t1.subrange(0, d2 as int - d1 - 1) =~= s.subrange(d1 as int + 1, d2 as int));
        assert(split_dash(s) =~~= seq![
            s.subrange(0, d1 as int),
            s.subrange(d1 as int + 1, d2 as int),
            s.subrange(d2 as int + 1, s.len() as int),
        ]);
    }
    let day = match parse_u32_range(date_str, 0, d1) {
        Some(v) => v,
        None => {
            return Err(Error::invalid_input("Invalid day"));
        },
    };
    let month = match parse_u32_range(date_str, d1 + 1, d2) {
        Some(v) => v,
        None => {
            return Err(Error::invalid_input("Invalid month"));
        },
    };
    let year = match parse_u32_range(date_str, d2 + 1, s_len) {
        Some(v) => v,
        None => {
            return Err(Error::invalid_input("Invalid year"));
        },
    };
    if month < 1 || month > 12 || day < 1 || day > days_in_month(year, month) || year < MIN_YEAR {
        return Err(Error::invalid_input("Invalid date"));
    }
    let timestamp = date_to_timestamp(year, month, day);
    proof {
        lemma_days_before_year_bound(year as int);
        lemma_days_before_month_bound(year as int, month as int);
    }
    Ok((timestamp, year, month, day))
}

/// The character of a decimal digit value.
pub open spec fn digit_char(d: int) -> char {
    if d == 0 {
        '0'
    } else if d == 1 {
        '1'
    } else if d == 2 {
        '2'
    } else if d == 3 {
        '3'
    } else if d == 4 {
        '4'
    } else if d == 5 {
        '5'
    } else if d == 6 {
        '6'
    } else if d == 7 {
        '7'
    } else if d == 8 {
        '8'
    } else {
        '9'
    }
}

/// A number below 100 written as exactly two digits, zero padded.
pub open spec fn pad2(n: int) -> Seq<char> {
    seq![digit_char(n / 10), digit_char(n % 10)]
}

/// A number written in decimal, most significant digit first, no padding.
pub open spec fn dec_digits(n: int) -> Seq<char>
    decreases n,
{
    if n < 10 {
        seq![digit_char(n)]
    } else {
        dec_digits(n / 10).push(digit_char(n % 10))
    }
}

/// A date written in the `DD-MM-YYYY` shape: two-digit day and month, the
/// year unpadded.
pub open spec fn spec_format_date(y: int, m: int, d: int) -> Seq<char> {
    pad2(d) + seq!['-'] + pad2(m) + seq!['-'] + dec_digits(y)
}

/// Digit characters are digits and denote their value.
proof fn lemma_digit_char(k: int)
    requires
        0 <= k <= 9,
    ensures
        is_digit(digit_char(k)),
        digit_val(digit_char(k)) == k,
{
}

/// Two-digit renderings denote their number.
proof fn lemma_pad2(n: int)
    requires
        0 <= n < 100,
    ensures
        pad2(n).len() == 2,
        all_digits(pad2(n)),
        digits_val(pad2(n)) == n,
{
    let s = pad2(n);
    lemma_digit_char(n / 10);
    lemma_digit_char(n % 10);
    assert(s.drop_last() =~= seq![digit_char(n / 10)]);
    assert(seq![digit_char(n / 10)].drop_last() =~= Seq::<char>::empty());
    assert(digits_val(Seq::<char>::empty()) == 0);
    assert(digits_val(seq![digit_char(n / 10)]) == digit_val(digit_char(n / 10)));
    assert(digits_val(s) == 10 * digit_val(digit_char(n / 10)) + digit_val(digit_char(n % 10)));
}

/// Decimal renderings denote their number and consist of digits.
proof fn lemma_dec_digits(n: int)
    requires
        0 <= n,
    ensures
        dec_digits(n).len() >= 1,
        all_digits(dec_digits(n)),
        digits_val(dec_digits(n)) == n,
    decreases n,
{
    if n < 10 {
        lemma_digit_char(n);
        assert(seq![digit_char(n)].drop_last() =~= Seq::<char>::empty());
        assert(digits_val(Seq::<char>::empty()) == 0);
        assert(digits_val(seq![digit_char(n)]) == digit_val(digit_char(n)));
    } else {
        lemma_dec_digits(n / 10);
        lemma_digit_char(n % 10);
        let t = dec_digits(n / 10);
        let s = t.push(digit_char(n % 10));
        assert(s.drop_last() =~= t);
        assert(s.last() == digit_char(n % 10));
        assert(digits_val(s) == 10 * digits_val(t) + digit_val(digit_char(n % 10)));
        assert(all_digits(s)) by {
            assert(forall|i: int| 0 <= i < t.len() ==> s[i] == t[i]);
        }
    }
}

/// A one-character string holding the given decimal digit.
fn digit_str(d: u32) -> (r: &'static str)
    requires
        d < 10,
    ensures
        r@ == seq![digit_char(d as int)],
{
    match d {
        0 => {
            proof {
                reveal_strlit("0");
                assert(("0")@ =~= seq!['0']);
            }
            "0"
        },
        1 => {
            proof {
                reveal_strlit("1");
                assert(("1")@ =~= seq!['1']);
            }
            "1"
        },
        2 => {
            proof {
                reveal_strlit("2");
                assert(("2")@ =~= seq!['2']);
            }
            "2"
        },
        3 => {
            proof {
                reveal_strlit("3");
                assert(("3")@ =~= seq!['3']);
            }
            "3"
        },
        4 => {
            proof {
                reveal_strlit("4");
                assert(("4")@ =~= seq!['4']);
            }
            "4"
        },
        5 => {
            proof {
                reveal_strlit("5");
                assert(("5")@ =~= seq!['5']);
            }
            "5"
        },
        6 => {
            proof {
                reveal_strlit("6");
                assert(("6")@ =~= seq!['6']);
            }
            "6"
        },
        7 => {
            proof {
                reveal_strlit("7");
                assert(("7")@ =~= seq!['7']);
            }
            "7"
        },
        8 => {
            proof {
                reveal_strlit("8");
                assert(("8")@ =~= seq!['8']);
            }
            "8"
        },
        _ => {
            proof {
                reveal_strlit("9");
                assert(("9")@ =~= seq!['9']);
            }
            "9"
        },
    }
}

/// Append the decimal rendering of `n`.
fn push_decimal(out: &mut String, n: u32)
    ensures
        final(out)@ == old(out)@ + dec_digits(n as int),
    decreases n,
{
    if n < 10 {
        out.append(digit_str(n));
    } else {
        push_decimal(out, n / 10);
        out.append(digit_str(n % 10));
        proof {
            assert(final(out)@ =~= old(out)@ + dec_digits(n as int));
        }
    }
}

/// Render a date in the `DD-MM-YYYY` shape: two-digit day and month, the
/// year unpadded.
pub fn format_date(year: u32, month: u32, day: u32) -> (r: String)
    requires
        month < 100,
        day < 100,
    ensures
        r@ == spec_format_date(year as int, month as int, day as int),
{
    let mut out = String::new();
    out.append(digit_str(day / 10));
    out.append(digit_str(day % 10));
    proof {
        reveal_strlit("-");
        assert(("-")@ =~= seq!['-']);
    }
    out.append("-");
    out.append(digit_str(month / 10));
    out.append(digit_str(month % 10));
    out.append("-");
    push_decimal(&mut out, year);
    proof {
        assert(out@ =~= spec_format_date(year as int, month as int, day as int));
    }
    out
}

/// Round trip: formatting a calendar-valid date of year `MIN_YEAR` or later
/// and parsing the text back yields exactly the same date and its epoch
/// seconds.
#[verifier::rlimit(50)]
pub proof fn lemma_parse_format_round_trip(y: u32, m: u32, d: u32)
    requires
        valid_date(y as int, m as int, d as int),
        y >= MIN_YEAR,
    ensures
        spec_parse_date(spec_format_date(y as int, m as int, d as int)) == Some::<
            (u64, u32, u32, u32),
        >((date_epoch(y as int, m as int, d as int) as u64, y, m, d)),
{
    let a = pad2(d as int);
    let b = pad2(m as int);
    let c = dec_digits(y as int);
    let s = spec_format_date(y as int, m as int, d as int);
    lemma_pad2(d as int);
    lemma_pad2(m as int);
    lemma_dec_digits(y as int);
    assert(s.subrange(0, 2) =~= a);
    assert(s[2] == '-');
    assert(no_dash(s.subrange(0, 2)));
    lemma_split_at_dash(s, 2);
    let t1 = s.skip(3);
    assert(t1 =~= b + seq!['-'] + c);
    assert(t1.subrange(0, 2) =~= b);
    assert(t1[2] == '-');
    assert(no_dash(t1.subrange(0, 2)));
    lemma_split_at_dash(t1, 2);
    let t2 = t1.skip(3);
    assert(t2 =~= c);
    assert(no_dash(t2));
    lemma_split_no_dash(t2);
    let parts = split_dash(s);
    assert(parts =~~= seq![a, b, c]);
    assert(field_body(a) == a);
    assert(field_body(b) == b);
    assert(field_body(c) == c);
    assert(parse_u32_field(a) == Some(d));
    assert(parse_u32_field(b) == Some(m));
    assert(parse_u32_field(c) == Some(y));
}

} // verus!
