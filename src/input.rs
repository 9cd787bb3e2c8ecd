use vstd::prelude::*;
use crate::hex::{pair_byte, parse_bytecode, valid_hex_pairs};
use crate::types::{word_limit, word_value, Transaction, Word};

verus! {

/// Whether every character is an ASCII decimal digit.
pub open spec fn all_digits(s: Seq<char>) -> bool {
    forall|i: int| 0 <= i < s.len() ==> '0' <= #[trigger] s[i] && s[i] <= '9'
}

/// The number written in decimal by a string of digits (0 for the empty
/// string).
pub open spec fn dec_value(s: Seq<char>) -> int
    decreases s.len(),
{
    if s.len() == 0 {
        0
    } else {
        dec_value(s.drop_last()) * 10 + (s.last() as int - '0' as int)
    }
}

/// Relies on `ethereum_types::U256::from_dec_str` (uint's implementation):
/// it accepts exactly the strings of ASCII digits whose value is below
/// 2^256, and returns that value.
#[verifier::external_body]
fn parse_decimal_word(s: &str) -> (r: Option<Word>)
    ensures
        r.is_some() <==> (all_digits(s@) && dec_value(s@) < word_limit()),
        r matches Some(w) ==> word_value(w) == dec_value(s@),
{
    match ethereum_types::U256::from_dec_str(s) {
        Ok(u) => Some(Word(u.0[0], u.0[1], u.0[2], u.0[3])),
        Err(_) => None,
    }
}

/// Reads a 256-bit word written in decimal: an address or a storage key.
pub fn parse_word(s: &str) -> (r: Option<Word>)
    ensures
        r.is_some() <==> (all_digits(s@) && dec_value(s@) < word_limit()),
        r matches Some(w) ==> word_value(w) == dec_value(s@),
{
    parse_decimal_word(s)
}

/// Why the fields of a transaction record are refused.
#[derive(Clone, Copy, Debug, PartialEq, Eq, Structural)]
pub enum InputError {
    /// The address is not a decimal number below 2^256.
    BadAddress,
    /// A deployment's bytecode is not a hex string.
    BadData,
}

fn str_eq(a: &str, b: &str) -> (r: bool)
    ensures
        r == (a@ == b@),
{
    let n = a.unicode_len();
    if n != b.unicode_len() {
        return false;
    }
    let mut i: usize = 0;
    while i < n
        invariant
            n == a@.len(),
            n == b@.len(),
            i <= n,
            forall|k: int| 0 <= k < i ==> a@[k] == b@[k],
        decreases n - i,
    {
        if a.get_char(i) != b.get_char(i) {
            return false;
        }
        i = i + 1;
    }
    assert(a@ =~= b@);
    true
}

/// Builds a transaction from the three fields of an input record: its kind
/// (`"constructor"` for a deployment, anything else for a call), the address
/// in decimal, and the data: a deployment's bytecode, decoded from hex, or a
/// call's calldata, kept as the hex text it is.
pub fn parse_transaction(kind: &str, address: &str, data: &str) -> (r: Result<
    Transaction,
    InputError,
>)
    ensures
        match r {
            Ok(t) => {
                &&& all_digits(address@)
                &&& word_value(t.address()) == dec_value(address@)
                &&& (kind@ == "constructor"@ <==> t is NewContract)
                &&& match t {
                    Transaction::NewContract { bytecode, .. } => {
                        &&& bytecode@.len() == data@.len() / 2
                        &&& forall|i: int| 0 <= i < data@.len() / 2 ==> #[trigger] bytecode@[i] as int == pair_byte(data@, i)
                    },
                    Transaction::MethodCall { calldata, .. } => calldata@ == data@,
                }
            },
            Err(InputError::BadAddress) => !(all_digits(address@) && dec_value(address@) < word_limit()),
            Err(InputError::BadData) => all_digits(address@) && kind@ == "constructor"@ && !valid_hex_pairs(data@),
        },
        r is Ok <==> (all_digits(address@) && dec_value(address@) < word_limit() && (kind@ == "constructor"@ ==> valid_hex_pairs(data@))),
{
    let a = match parse_word(address) {
        Some(w) => w,
        None => {
            return Err(InputError::BadAddress);
        },
    };
    if str_eq(kind, "constructor") {
        match parse_bytecode(data) {
            Some(b) => Ok(Transaction::NewContract { creation_address: a, bytecode: b }),
            None => Err(InputError::BadData),
        }
    } else {
        Ok(Transaction::MethodCall { target_address: a, calldata: data.to_owned() })
    }
}

} // verus!
