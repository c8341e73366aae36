//! Text as the library reads it: names regardless of case, and numbers in decimal.

use vstd::prelude::*;

verus! {

/// The text `s` with every letter replaced by its small form, as `str::to_lowercase`
/// gives it.
pub uninterp spec fn spec_lowercase(s: Seq<char>) -> Seq<char>;

/// `str::to_lowercase`: the text in small letters. Which letters have a small form,
/// and which, is the standard library's knowledge of Unicode.
#[verifier::external_body]
pub(crate) fn lowercase(s: &str) -> (r: String)
    ensures
        r@ == spec_lowercase(s@),
{
    s.to_lowercase()
}

/// Whether `text` is `name`.
pub fn is_name(text: &String, name: &str) -> (r: bool)
    ensures
        r == (text@ == name@),
{
    *text == name.to_owned()
}

/// The digit that the byte `b` stands for in text, if it stands for one.
pub open spec fn spec_digit(b: u8) -> Option<nat> {
    if 48 <= b <= 57 {
        Some((b - 48) as nat)
    } else {
        None
    }
}

/// The number that `bytes` are the decimal digits of, the first weighing most. Text
/// that is empty, or holds anything but digits, is no number.
pub open spec fn spec_decimal(bytes: Seq<u8>) -> Option<nat>
    decreases bytes.len(),
{
    if bytes.len() == 0 {
        None
    } else {
        match spec_digit(bytes.last()) {
            None => None,
            Some(d) => if bytes.len() == 1 {
                Some(d)
            } else {
                match spec_decimal(bytes.drop_last()) {
                    Some(front) => Some(front * 10 + d),
                    None => None,
                }
            },
        }
    }
}

/// The number that `bytes` are the decimal digits of, if they are digits and the
/// number fits.
pub fn parse_decimal(bytes: &[u8]) -> (r: Option<usize>)
    ensures
        r == (match spec_decimal(bytes@) {
            Some(n) => if n <= usize::MAX {
                Some(n as usize)
            } else {
                None
            },
            None => None,
        }),
{
    if bytes.len() == 0 {
        return None;
    }
    let mut value: usize = 0;
    let mut i: usize = 0;
    while i < bytes.len()
        invariant
            i <= bytes@.len(),
            bytes@.len() > 0,
            i > 0 ==> spec_decimal(bytes@.take(i as int)) == Some(value as nat),
            i == 0 ==> value == 0,
        decreases bytes@.len() - i,
    {
        let b = bytes[i];
        proof {
            assert(bytes@.take(i + 1).drop_last() =~= bytes@.take(i as int));
            assert(bytes@.take(i + 1).last() == b);
        }
        if !(48 <= b && b <= 57) {
            proof {
                lemma_decimal_prefix(bytes@, i + 1);
            }
            return None;
        }
        let digit = (b - 48) as usize;
        let next = match value.checked_mul(10) {
            Some(tens) => tens.checked_add(digit),
            None => None,
        };
        match next {
            Some(n) => {
                value = n;
            },
            None => {
                proof {
                    lemma_decimal_grows(bytes@, i + 1);
                }
                return None;
            },
        }
        i += 1;
    }
    proof {
        assert(bytes@.take(i as int) =~= bytes@);
    }
    Some(value)
}

/// Text whose front is no number is no number.
proof fn lemma_decimal_prefix(bytes: Seq<u8>, n: int)
    requires
        0 < n <= bytes.len(),
        spec_decimal(bytes.take(n)) is None,
    ensures
        spec_decimal(bytes) is None,
    decreases bytes.len() - n,
{
    if n < bytes.len() {
        assert(bytes.take(n + 1).drop_last() =~= bytes.take(n));
        lemma_decimal_prefix(bytes, n + 1);
    } else {
        assert(bytes.take(n) =~= bytes);
    }
}

/// A number is at least as large as the number that its front spells.
proof fn lemma_decimal_grows(bytes: Seq<u8>, n: int)
    requires
        0 < n <= bytes.len(),
    ensures
        spec_decimal(bytes) matches Some(whole) ==> spec_decimal(bytes.take(n)) matches Some(front)
            && front <= whole,
    decreases bytes.len() - n,
{
    if n < bytes.len() {
        assert(bytes.take(n + 1).drop_last() =~= bytes.take(n));
        lemma_decimal_grows(bytes, n + 1);
        if spec_decimal(bytes) is Some {
            assert(spec_decimal(bytes.take(n + 1)) is Some);
        }
    } else {
        assert(bytes.take(n) =~= bytes);
    }
}

} // verus!
