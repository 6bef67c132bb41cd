//! The text form of a pattern: a header line, then one line for each cell
//! with its x and its y, in decimal, a single space between them.

use vstd::prelude::*;

verus! {

/// The bytes of the header line, `#Life 1.06`.
pub open spec fn header() -> Seq<u8> {
    seq![35u8, 76u8, 105u8, 102u8, 101u8, 32u8, 49u8, 46u8, 48u8, 54u8]
}

/// Whether `byte` is one of the digits `0` to `9`.
pub open spec fn is_digit(byte: u8) -> bool {
    48 <= byte <= 57
}

/// Whether `field` holds digits only.
pub open spec fn all_digits(field: Seq<u8>) -> bool {
    forall|i: int| 0 <= i < field.len() ==> is_digit(#[trigger] field[i])
}

/// The number that the digits of `field` write in base ten; 0 for none.
pub open spec fn decimal(field: Seq<u8>) -> int
    decreases field.len(),
{
    if field.len() == 0 {
        0
    } else {
        decimal(field.drop_last()) * 10 + (field.last() - 48)
    }
}

/// The coordinate that `digits` write, below zero where `negative` is set:
/// one digit at least and nothing but digits, for a number that can be
/// stored. `None` for anything else.
pub open spec fn signed_number(negative: bool, digits: Seq<u8>) -> Option<i64> {
    let value = if negative {
        -decimal(digits)
    } else {
        decimal(digits)
    };
    if digits.len() > 0 && all_digits(digits) && i64::MIN <= value <= i64::MAX {
        Some(value as i64)
    } else {
        None
    }
}

/// The coordinate that `field` writes: one sign at most, `+` or `-`, then
/// the digits. `None` where `field` is no such text or the number cannot be
/// stored.
pub open spec fn number(field: Seq<u8>) -> Option<i64> {
    if field.len() > 0 && (field[0] == 45 || field[0] == 43) {
        signed_number(field[0] == 45, field.skip(1))
    } else {
        signed_number(false, field)
    }
}

/// Where the last space of `line` stands; -1 where it has none.
pub open spec fn last_space(line: Seq<u8>) -> int
    decreases line.len(),
{
    if line.len() == 0 {
        -1
    } else if line.last() == 32 {
        line.len() - 1
    } else {
        last_space(line.drop_last())
    }
}

/// The position that `line` names. The line is cut at each space; its last
/// piece is read as y, the piece before as x, and earlier pieces are not
/// looked at. `None` where the line has no space or a piece is no number.
pub open spec fn record(line: Seq<u8>) -> Option<(i64, i64)> {
    let cut = last_space(line);
    if cut < 0 {
        None
    } else {
        let before = line.take(cut);
        let x_field = before.skip(last_space(before) + 1);
        let y_field = line.skip(cut + 1);
        match (number(x_field), number(y_field)) {
            (Some(x), Some(y)) => Some((x, y)),
            _ => None,
        }
    }
}

/// The text of `line` without the white space at its ends.
pub uninterp spec fn trimmed(line: Seq<char>) -> Seq<char>;

/// `line` without the white space at its ends.
///
/// This is `str::trim` of the standard library, which removes leading and
/// trailing characters that Unicode counts as white space. What it returns
/// depends on the text alone; the contract gives it a name and says no more.
#[verifier::external_body]
fn trim(line: &str) -> (clean_line: &str)
    ensures
        clean_line@ == trimmed(line@),
{
    line.trim()
}

/// Whether `line` is the header line, byte for byte.
pub fn is_header(line: &[u8]) -> (matches: bool)
    ensures
        matches == (line@ == header()),
{
    let expected: [u8; 10] = [35, 76, 105, 102, 101, 32, 49, 46, 48, 54];
    if line.len() != 10 {
        return false;
    }
    let mut index: usize = 0;
    while index < 10
        invariant
            index <= 10,
            line@.len() == 10,
            expected@ == header(),
            forall|i: int| 0 <= i < index ==> line@[i] == header()[i],
        decreases 10 - index,
    {
        if line[index] != expected[index] {
            return false;
        }
        index += 1;
    }
    assert(line@ =~= header());
    true
}

/// Where the last space among the first `end` bytes of `line` stands.
fn find_last_space(line: &[u8], end: usize) -> (found: Option<usize>)
    requires
        end <= line@.len(),
    ensures
        match found {
            Some(index) => index < end && index == last_space(line@.take(end as int)),
            None => last_space(line@.take(end as int)) == -1,
        },
{
    let mut index: usize = end;
    while index > 0
        invariant
            index <= end <= line@.len(),
            last_space(line@.take(end as int)) == last_space(line@.take(index as int)),
        decreases index,
    {
        proof {
            assert(line@.take(index as int).drop_last() == line@.take(index - 1));
        }
        if line[index - 1] == 32 {
            return Some(index - 1);
        }
        index -= 1;
    }
    None
}

/// The number written by the first digits is never above the number written
/// by all of them.
proof fn lemma_decimal_grows(field: Seq<u8>, k: int)
    requires
        all_digits(field),
        0 <= k <= field.len(),
    ensures
        0 <= decimal(field.take(k)) <= decimal(field),
    decreases field.len() - k,
{
    if k == field.len() {
        assert(field.take(k) == field);
        lemma_decimal_positive(field);
    } else {
        lemma_decimal_grows(field, k + 1);
        assert(field.take(k + 1).drop_last() == field.take(k));
        lemma_decimal_positive(field.take(k));
    }
}

proof fn lemma_decimal_positive(field: Seq<u8>)
    requires
        all_digits(field),
    ensures
        0 <= decimal(field),
    decreases field.len(),
{
    if field.len() > 0 {
        lemma_decimal_positive(field.drop_last());
    }
}

/// Reads `field` as a coordinate.
pub fn parse_number(field: &[u8]) -> (parsed: Option<i64>)
    ensures
        parsed == number(field@),
{
    let end = field.len();
    if end == 0 {
        return None;
    }
    let negative = field[0] == 45;
    let first: usize = if negative || field[0] == 43 {
        1
    } else {
        0
    };
    let ghost digits = field@.skip(first as int);
    proof {
        assert(field@.skip(0) =~= field@);
    }
    if first == end {
        return None;
    }
    // The value is gathered below zero, where there is room for one more.
    let mut gathered: i64 = 0;
    let mut index: usize = first;
    while index < end
        invariant
            first <= index <= end == field@.len(),
            digits == field@.skip(first as int),
            number(field@) == signed_number(negative, digits),
            all_digits(digits.take(index - first)),
            gathered == -decimal(digits.take(index - first)),
        decreases end - index,
    {
        let byte = field[index];
        let ghost shorter = digits.take(index - first);
        let ghost longer = digits.take(index - first + 1);
        proof {
            assert(digits[index - first] == byte);
            assert(longer.drop_last() == shorter);
            assert(longer.last() == byte);
            assert(decimal(longer) == decimal(shorter) * 10 + (byte - 48));
        }
        if byte < 48 || byte > 57 {
            proof {
                assert(!is_digit(digits[index - first]));
            }
            return None;
        }
        let next: i128 = gathered as i128 * 10 - (byte - 48) as i128;
        if next < i64::MIN as i128 {
            proof {
                if all_digits(digits) {
                    lemma_decimal_grows(digits, index - first + 1);
                }
            }
            return None;
        }
        proof {
            assert forall|i: int| 0 <= i < longer.len() implies is_digit(#[trigger] longer[i]) by {
                if i < shorter.len() {
                    assert(longer[i] == shorter[i]);
                }
            }
            lemma_decimal_positive(longer);
        }
        gathered = next as i64;
        index += 1;
    }
    proof {
        assert(digits.take(end - first) == digits);
    }
    if negative {
        Some(gathered)
    } else if gathered == i64::MIN {
        None
    } else {
        Some(-gathered)
    }
}

/// Reads a line that names a cell. The line is taken as it stands: white
/// space at its ends is not set aside.
pub fn parse_record(line: &[u8]) -> (parsed: Option<(i64, i64)>)
    ensures
        parsed == record(line@),
{
    proof {
        assert(line@.take(line@.len() as int) == line@);
    }
    let cut = match find_last_space(line, line.len()) {
        Some(cut) => cut,
        None => {
            return None;
        },
    };
    let x_start: usize = match find_last_space(line, cut) {
        Some(space) => space + 1,
        None => 0,
    };
    proof {
        let before = line@.take(cut as int);
        assert(before.skip(x_start as int) =~= line@.subrange(x_start as int, cut as int));
        assert(line@.skip(cut + 1) =~= line@.subrange(cut + 1, line@.len() as int));
    }
    let y_pos = parse_number(&line[cut + 1..line.len()]);
    let x_pos = parse_number(&line[x_start..cut]);
    match (x_pos, y_pos) {
        (Some(x), Some(y)) => Some((x, y)),
        _ => None,
    }
}

/// Whether `line`, once the white space at its ends is set aside, is the
/// header line.
pub fn is_header_line(line: &str) -> (matches: bool)
    ensures
        matches == (vstd::utf8::encode_utf8(trimmed(line@)) == header()),
{
    is_header(trim(line).as_bytes())
}

/// Reads a line that names a cell, once the white space at its ends is set
/// aside.
pub fn parse_line(line: &str) -> (parsed: Option<(i64, i64)>)
    ensures
        parsed == record(vstd::utf8::encode_utf8(trimmed(line@))),
{
    parse_record(trim(line).as_bytes())
}

} // verus!
