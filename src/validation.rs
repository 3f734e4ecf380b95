use vstd::prelude::*;
use vstd::string::*;

verus! {

/// Why a registration form was turned away.
#[derive(Debug, Clone, Copy, PartialEq, Eq, Structural)]
pub enum ValidationError {
    /// One of the four fields is empty.
    MissingField,
    /// The number field does not hold a decimal integer that fits in an `i32`.
    NotANumber,
    /// The number is below 1.
    OutOfRange,
}

impl ValidationError {
    /// The message that an error shows.
    pub open spec fn text(self) -> Seq<char> {
        match self {
            ValidationError::MissingField => "Please fill all fields!"@,
            ValidationError::NotANumber => "Invalid number format!"@,
            ValidationError::OutOfRange => "Number must be >= 1"@,
        }
    }

    /// A message for the person at the kiosk.
    pub fn message(&self) -> (r: String)
        ensures
            r@ == self.text(),
    {
        match self {
            ValidationError::MissingField => {
                proof { reveal_strlit("Please fill all fields!"); }
                String::from_str("Please fill all fields!")
            },
            ValidationError::NotANumber => {
                proof { reveal_strlit("Invalid number format!"); }
                String::from_str("Invalid number format!")
            },
            ValidationError::OutOfRange => {
                proof { reveal_strlit("Number must be >= 1"); }
                String::from_str("Number must be >= 1")
            },
        }
    }
}

/// A form that passed validation, ready to be stored.
#[derive(Debug, Clone, PartialEq, Eq)]
pub struct Registration {
    pub first_name: String,
    pub surname: String,
    pub email: String,
    pub number: i32,
}

pub open spec fn is_digit(c: char) -> bool {
    '0' <= c && c <= '9'
}

pub open spec fn all_digits(s: Seq<char>) -> bool {
    forall|i: int| 0 <= i < s.len() ==> is_digit(#[trigger] s[i])
}

pub open spec fn digit_value(c: char) -> int {
    (c as u32) as int - ('0' as u32) as int
}

/// The value of a string of decimal digits, most significant first.
pub open spec fn digits_value(s: Seq<char>) -> int
    decreases s.len(),
{
    if s.len() == 0 {
        0
    } else {
        digits_value(s.drop_last()) * 10 + digit_value(s.last())
    }
}

/// The integer that `s` writes in decimal: an optional `+` or `-`, then at
/// least one digit, and nothing else.
pub open spec fn integer_of(s: Seq<char>) -> Option<int> {
    if s.len() > 0 && (s[0] == '-' || s[0] == '+') {
        let d = s.drop_first();
        if d.len() > 0 && all_digits(d) {
            if s[0] == '-' {
                Some(-digits_value(d))
            } else {
                Some(digits_value(d))
            }
        } else {
            None
        }
    } else if s.len() > 0 && all_digits(s) {
        Some(digits_value(s))
    } else {
        None
    }
}

/// The `i32` that `s` writes, if it writes one in range.
pub open spec fn i32_of(s: Seq<char>) -> Option<i32> {
    match integer_of(s) {
        Some(v) => if i32::MIN <= v <= i32::MAX {
            Some(v as i32)
        } else {
            None
        },
        None => None,
    }
}

/// The first rule that a form breaks, checked in order: every field filled,
/// the number readable, the number at least 1.
pub open spec fn validation_error(
    first_name: Seq<char>,
    surname: Seq<char>,
    email: Seq<char>,
    number_text: Seq<char>,
) -> Option<ValidationError> {
    if first_name.len() == 0 || surname.len() == 0 || email.len() == 0 || number_text.len() == 0 {
        Some(ValidationError::MissingField)
    } else if i32_of(number_text) is None {
        Some(ValidationError::NotANumber)
    } else if i32_of(number_text).unwrap() < 1 {
        Some(ValidationError::OutOfRange)
    } else {
        None
    }
}

proof fn lemma_digits_value_nonneg(s: Seq<char>)
    requires
        all_digits(s),
    ensures
        digits_value(s) >= 0,
    decreases s.len(),
{
    if s.len() > 0 {
        lemma_digits_value_nonneg(s.drop_last());
    }
}

/// A prefix of a digit string is worth no more than the whole.
proof fn lemma_digits_value_prefix(s: Seq<char>, k: int)
    requires
        all_digits(s),
        0 <= k <= s.len(),
    ensures
        digits_value(s.subrange(0, k)) <= digits_value(s),
    decreases s.len(),
{
    if k < s.len() {
        let p = s.drop_last();
        assert(p.subrange(0, k) =~= s.subrange(0, k));
        lemma_digits_value_prefix(p, k);
        lemma_digits_value_nonneg(p);
        assert(s.subrange(0, s.len() as int) =~= s);
    } else {
        assert(s.subrange(0, k) =~= s);
    }
}

/// Reads a decimal `i32` as Rust's integer syntax writes it.
pub fn parse_number(text: &str) -> (r: Option<i32>)
    ensures
        r == i32_of(text@),
{
    let len = text.unicode_len();
    if len == 0 {
        return None;
    }
    let first = text.get_char(0);
    let start: usize = if first == '-' || first == '+' { 1 } else { 0 };
    if start == len {
        assert(text@.drop_first().len() == 0);
        return None;
    }
    let ghost digits = text@.subrange(start as int, len as int);
    assert(start == 1 ==> digits =~= text@.drop_first());
    assert(start == 0 ==> digits =~= text@);
    let mut acc: i64 = 0;
    let mut i: usize = start;
    while i < len
        invariant
            start <= i <= len,
            len == text@.len(),
            digits == text@.subrange(start as int, len as int),
            first == text@[0],
            start == 0 || start == 1,
            start == 1 <==> (first == '-' || first == '+'),
            start == 1 ==> digits == text@.drop_first(),
            start == 0 ==> digits == text@,
            all_digits(text@.subrange(start as int, i as int)),
            acc as int == digits_value(text@.subrange(start as int, i as int)),
            0 <= acc <= 2147483648,
        decreases len - i,
    {
        let c = text.get_char(i);
        if !('0' <= c && c <= '9') {
            assert(digits[i - start] == c);
            assert(!is_digit(digits[i - start]));
            assert(!all_digits(digits));
            return None;
        }
        let ghost before = text@.subrange(start as int, i as int);
        let ghost after = text@.subrange(start as int, i + 1);
        assert(after.drop_last() =~= before);
        let d = (c as u32 - '0' as u32) as i64;
        acc = acc * 10 + d;
        i = i + 1;
        assert(all_digits(after)) by {
            assert forall|k: int| 0 <= k < after.len() implies is_digit(#[trigger] after[k]) by {
                if k < before.len() {
                    assert(after[k] == before[k]);
                }
            }
        }
        if acc > 2147483648 {
            proof {
                assert(acc as int == digits_value(after));
                if all_digits(digits) {
                    assert(digits.subrange(0, i - start) =~= after);
                    lemma_digits_value_prefix(digits, i - start);
                    assert(digits_value(digits) > 2147483648);
                    assert(digits.len() > 0);
                    if start == 1 {
                        assert(integer_of(text@) == Some(-digits_value(digits)) || integer_of(
                            text@,
                        ) == Some(digits_value(digits)));
                    } else {
                        assert(integer_of(text@) == Some(digits_value(digits)));
                    }
                }
            }
            return None;
        }
    }
    assert(text@.subrange(start as int, i as int) =~= digits);
    if first == '-' {
        Some((0 - acc) as i32)
    } else if acc > 2147483647 {
        None
    } else {
        Some(acc as i32)
    }
}

/// Checks a registration form and reads its number.
pub fn validate(first_name: &str, surname: &str, email: &str, number_text: &str) -> (r: Result<
    Registration,
    ValidationError,
>)
    ensures
        match r {
            Ok(reg) => {
                &&& validation_error(first_name@, surname@, email@, number_text@) is None
                &&& reg.first_name@ == first_name@
                &&& reg.surname@ == surname@
                &&& reg.email@ == email@
                &&& Some(reg.number) == i32_of(number_text@)
                &&& reg.number >= 1
            },
            Err(e) => validation_error(first_name@, surname@, email@, number_text@) == Some(e),
        },
{
    if first_name.unicode_len() == 0 || surname.unicode_len() == 0 || email.unicode_len() == 0
        || number_text.unicode_len() == 0 {
        return Err(ValidationError::MissingField);
    }
    match parse_number(number_text) {
        None => Err(ValidationError::NotANumber),
        Some(n) => {
            if n < 1 {
                Err(ValidationError::OutOfRange)
            } else {
                Ok(
                    Registration {
                        first_name: String::from_str(first_name),
                        surname: String::from_str(surname),
                        email: String::from_str(email),
                        number: n,
                    },
                )
            }
        },
    }
}

} // verus!
