//! Building the validation answer from a final box count, including a
//! verified decimal rendering of the count.

use vstd::prelude::*;
use vstd::string::StringExecFns;

use crate::types::ValidationResponse;

verus! {

/// The character of one decimal digit.
pub open spec fn digit_char(d: int) -> char {
    if d == 0 {
        '0'
    } else if d == 1 {
        '1'
    } else if d == 2 {
        '2'
    } else if d == 3 {
        '3'
    } else if d == 4 {
        '4'
    } else if d == 5 {
        '5'
    } else if d == 6 {
        '6'
    } else if d == 7 {
        '7'
    } else if d == 8 {
        '8'
    } else {
        '9'
    }
}

/// The decimal digits of `n`, most significant first, no leading zeros
/// (a single zero for 0).
pub open spec fn dec_digits(n: nat) -> Seq<char>
    decreases n,
{
    if n < 10 {
        seq![digit_char(n as int)]
    } else {
        dec_digits(n / 10).push(digit_char((n % 10) as int))
    }
}

/// One decimal digit as a string slice.
fn digit_str(d: u64) -> (s: &'static str)
    requires
        d < 10,
    ensures
        s@ == seq![digit_char(d as int)],
{
    let s = if d == 0 {
        "0"
    } else if d == 1 {
        "1"
    } else if d == 2 {
        "2"
    } else if d == 3 {
        "3"
    } else if d == 4 {
        "4"
    } else if d == 5 {
        "5"
    } else if d == 6 {
        "6"
    } else if d == 7 {
        "7"
    } else if d == 8 {
        "8"
    } else {
        "9"
    };
    proof {
        reveal_strlit("0");
        reveal_strlit("1");
        reveal_strlit("2");
        reveal_strlit("3");
        reveal_strlit("4");
        reveal_strlit("5");
        reveal_strlit("6");
        reveal_strlit("7");
        reveal_strlit("8");
        reveal_strlit("9");
        assert(s@ =~= seq![digit_char(d as int)]);
    }
    s
}

/// Renders `n` in decimal.
pub fn format_u64(n: u64) -> (s: String)
    ensures
        s@ == dec_digits(n as nat),
    decreases n,
{
    if n < 10 {
        String::from_str(digit_str(n))
    } else {
        let mut s = format_u64(n / 10);
        s.append(digit_str(n % 10));
        proof {
            assert(s@ =~= dec_digits((n / 10) as nat).push(digit_char((n % 10) as int)));
        }
        s
    }
}

/// Builds the validation answer for a final box count: exactly one face
/// is valid; zero or several are not, each with its fixed message (the
/// several-faces message carries the count in decimal).
pub fn build_validation_response(face_count: usize) -> (r: ValidationResponse)
    ensures
        r.face_count == face_count,
        r.is_valid <==> face_count == 1,
        face_count == 0 ==> r.message@ == "No faces detected"@,
        face_count == 1 ==> r.message@ == "Valid single face detected"@,
        face_count >= 2 ==> r.message@ == "Multiple faces detected: "@ + dec_digits(
            face_count as nat,
        ),
{
    if face_count == 0 {
        ValidationResponse {
            is_valid: false,
            face_count,
            message: String::from_str("No faces detected"),
        }
    } else if face_count == 1 {
        ValidationResponse {
            is_valid: true,
            face_count,
            message: String::from_str("Valid single face detected"),
        }
    } else {
        let mut message = String::from_str("Multiple faces detected: ");
        let rendered = format_u64(face_count as u64);
        message.append(rendered.as_str());
        ValidationResponse { is_valid: false, face_count, message }
    }
}

} // verus!
