//! New shard ids.
//!
//! A new shard id is the text of a ULID: 26 digits to the base 32, the first
//! of which hold the time at which the id was made, the others chance.

use crate::types::ShardId;
use ulid::Ulid;
use vstd::prelude::*;
use vstd::string::StringExecFns;

verus! {

/// The number of digits of a ULID.
pub const ULID_LEN: usize = 26;

/// The digits to the base 32, in the order of their values.
pub open spec fn base32_digits() -> Seq<char> {
    "0123456789ABCDEFGHJKMNPQRSTVWXYZ"@
}

/// 32 to the power of `exponent`.
pub open spec fn pow32(exponent: nat) -> nat
    decreases exponent,
{
    if exponent == 0 {
        1
    } else {
        32 * pow32((exponent - 1) as nat)
    }
}

/// The text of the ULID `value`: its 26 digits to the base 32, the highest
/// first.
pub open spec fn ulid_text(value: u128) -> Seq<char> {
    Seq::new(
        ULID_LEN as nat,
        |i: int| base32_digits()[(value as nat / pow32((ULID_LEN - 1 - i) as nat)) as int % 32],
    )
}

/// The decimal digits in the order of their values.
pub open spec fn decimal_digits() -> Seq<char> {
    "0123456789"@
}

/// 10 to the power of `exponent`.
pub open spec fn pow10(exponent: nat) -> nat
    decreases exponent,
{
    if exponent == 0 {
        1
    } else {
        10 * pow10((exponent - 1) as nat)
    }
}

/// Whether `text` is the text of a ULID.
pub open spec fn is_ulid_text(text: Seq<char>) -> bool {
    exists|value: u128| text == #[trigger] ulid_text(value)
}

/// A power of 10 is not 0.
proof fn lemma_pow10_positive(exponent: nat)
    ensures
        pow10(exponent) > 0,
    decreases exponent,
{
    if exponent > 0 {
        lemma_pow10_positive((exponent - 1) as nat);
    }
}

/// The number of digits of a numbered shard id.
pub const NUMBERED_ID_LEN: usize = 20;

/// The text of the numbered shard id `number`: its 20 decimal digits, the
/// highest first.
pub open spec fn numbered_text(number: u64) -> Seq<char> {
    Seq::new(
        NUMBERED_ID_LEN as nat,
        |i: int| decimal_digits()[(number as nat / pow10((NUMBERED_ID_LEN - 1 - i) as nat)) as int % 10],
    )
}

fn digit_text(digit: u64) -> (text: &'static str)
    requires
        digit < 10,
    ensures
        text@ == seq![decimal_digits()[digit as int]],
{
    proof {
        reveal_strlit("0123456789");
        reveal_strlit("0");
        reveal_strlit("1");
        reveal_strlit("2");
        reveal_strlit("3");
        reveal_strlit("4");
        reveal_strlit("5");
        reveal_strlit("6");
        reveal_strlit("7");
        reveal_strlit("8");
        reveal_strlit("9");
    }
    let text = if digit == 0 {
        "0"
    } else if digit == 1 {
        "1"
    } else if digit == 2 {
        "2"
    } else if digit == 3 {
        "3"
    } else if digit == 4 {
        "4"
    } else if digit == 5 {
        "5"
    } else if digit == 6 {
        "6"
    } else if digit == 7 {
        "7"
    } else if digit == 8 {
        "8"
    } else {
        "9"
    };
    proof {
        assert(text@ =~= seq![decimal_digits()[digit as int]]);
    }
    text
}

/// The shard id of the number `number`: its 20 decimal digits, so that the
/// ids compare as the numbers do.
pub fn shard_id_from_u64(number: u64) -> (shard_id: ShardId)
    ensures
        shard_id@ == numbered_text(number),
{
    let mut shard_id = String::new();
    let mut divisor: u64 = 10_000_000_000_000_000_000;
    let mut i: usize = 0;
    proof {
        reveal_with_fuel(pow10, 20);
        assert(pow10(19) == 10_000_000_000_000_000_000);
    }
    while i < NUMBERED_ID_LEN
        invariant
            i <= NUMBERED_ID_LEN,
            i < NUMBERED_ID_LEN ==> divisor == pow10((NUMBERED_ID_LEN - 1 - i) as nat),
            shard_id@ == numbered_text(number).take(i as int),
        decreases NUMBERED_ID_LEN - i,
    {
        proof {
            lemma_pow10_positive((NUMBERED_ID_LEN - 1 - i) as nat);
        }
        let digit = (number / divisor) % 10;
        let text = digit_text(digit);
        shard_id.append(text);
        proof {
            assert(shard_id@ =~= numbered_text(number).take(i + 1));
            if i + 1 < NUMBERED_ID_LEN {
                assert(pow10((NUMBERED_ID_LEN - 1 - i) as nat) == 10 * pow10(
                    (NUMBERED_ID_LEN - 2 - i) as nat,
                ));
            }
        }
        divisor = divisor / 10;
        i += 1;
    }
    proof {
        assert(numbered_text(number).take(NUMBERED_ID_LEN as int) =~= numbered_text(number));
    }
    shard_id
}

/// `Ulid::generate`: a ULID of the current time, as a number. Nothing is
/// known of it here.
#[verifier::external_body]
fn generate_ulid() -> (value: u128) {
    Ulid::generate().0
}

/// `Ulid::to_string`: the 26 digits of the ULID to the base 32, the highest
/// first.
#[verifier::external_body]
fn ulid_to_string(value: u128) -> (text: String)
    ensures
        text@ == ulid_text(value),
{
    Ulid(value).to_string()
}

/// The shard id of the ULID `value`.
pub fn shard_id_from_ulid(value: u128) -> (shard_id: ShardId)
    ensures
        shard_id@ == ulid_text(value),
        shard_id@.len() == ULID_LEN,
{
    ulid_to_string(value)
}

/// A new shard id, made of the current time and of chance.
pub fn mint_shard_id() -> (shard_id: ShardId)
    ensures
        is_ulid_text(shard_id@),
        shard_id@.len() == ULID_LEN,
{
    let value = generate_ulid();
    shard_id_from_ulid(value)
}

} // verus!
