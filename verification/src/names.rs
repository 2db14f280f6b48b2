//! Names of the files an export produces, built inside the library so that
//! their exact shape is part of the export contracts. The contract address is
//! rendered in its canonical checksummed display form.

use vstd::prelude::*;
use vstd::string::StringExecFns;

use crate::types::ADDRESS_LEN;

verus! {

/// The canonical checksummed display form of a 20-byte address: `0x` plus 40
/// hex digits whose case encodes a checksum of the address.
pub uninterp spec fn checksum_display_of(addr: Seq<u8>) -> Seq<char>;

/// Relies on alloy_primitives::Address::to_checksum, which renders `0x`
/// followed by 40 hex digits with checksum-encoded case; without a chain id
/// the result depends on the address bytes alone.
#[verifier::external_body]
pub fn checksum_address(addr: &Vec<u8>) -> (r: String)
    requires
        addr@.len() == ADDRESS_LEN,
    ensures
        r@ == checksum_display_of(addr@),
        r@.len() == 42,
{
    let mut bytes = [0u8; 20];
    bytes.copy_from_slice(addr.as_slice());
    alloy_primitives::Address::from(bytes).to_checksum(None)
}

/// The decimal digits of `n`, most significant first, no leading zeros
/// (a single `0` for zero).
pub open spec fn spec_decimal(n: nat) -> Seq<char>
    decreases n,
{
    if n < 10 {
        seq![digit_char(n)]
    } else {
        spec_decimal(n / 10).push(digit_char(n % 10))
    }
}

/// The character for one decimal digit.
pub open spec fn digit_char(d: nat) -> char {
    if d == 0 {
        '0'
    } else if d == 1 {
        '1'
    } else if d == 2 {
        '2'
    } else if d == 3 {
        '3'
    } else if d == 4 {
        '4'
    } else if d == 5 {
        '5'
    } else if d == 6 {
        '6'
    } else if d == 7 {
        '7'
    } else if d == 8 {
        '8'
    } else if d == 9 {
        '9'
    } else {
        ' '
    }
}

/// One decimal digit as a string slice.
fn digit_str(d: u64) -> (r: &'static str)
    requires
        d < 10,
    ensures
        r@ == seq![digit_char(d as nat)],
{
    proof {
        reveal_strlit("0");
        reveal_strlit("1");
        reveal_strlit("2");
        reveal_strlit("3");
        reveal_strlit("4");
        reveal_strlit("5");
        reveal_strlit("6");
        reveal_strlit("7");
        reveal_strlit("8");
        reveal_strlit("9");
    }
    let r = if d == 0 {
        "0"
    } else if d == 1 {
        "1"
    } else if d == 2 {
        "2"
    } else if d == 3 {
        "3"
    } else if d == 4 {
        "4"
    } else if d == 5 {
        "5"
    } else if d == 6 {
        "6"
    } else if d == 7 {
        "7"
    } else if d == 8 {
        "8"
    } else {
        "9"
    };
    proof {
        assert(r@ =~= seq![digit_char(d as nat)]);
    }
    r
}

/// Render `n` in decimal.
pub fn u64_to_decimal(n: u64) -> (r: String)
    ensures
        r@ == spec_decimal(n as nat),
    decreases n,
{
    if n < 10 {
        digit_str(n).to_owned()
    } else {
        let mut s = u64_to_decimal(n / 10);
        s.append(digit_str(n % 10));
        proof {
            assert(s@ =~= spec_decimal(n as nat));
        }
        s
    }
}

/// The fixed name of a full-state snapshot file.
pub fn state_file_name() -> (r: String)
    ensures
        r@ == "state.bin"@,
{
    "state.bin".to_owned()
}

/// The fixed name of the companion stem index file.
pub fn stem_index_file_name() -> (r: String)
    ensures
        r@ == "stem-index.bin"@,
{
    "stem-index.bin".to_owned()
}

/// The name of a per-contract snapshot file.
pub fn contract_file_name(addr: &Vec<u8>) -> (r: String)
    requires
        addr@.len() == ADDRESS_LEN,
    ensures
        r@ == "contract-"@ + checksum_display_of(addr@) + ".bin"@,
{
    let s = checksum_address(addr);
    let mut r = "contract-".to_owned();
    r.append(s.as_str());
    r.append(".bin");
    proof {
        assert(r@ =~= "contract-"@ + checksum_display_of(addr@) + ".bin"@);
    }
    r
}

/// The name of the companion stem index file of a per-contract snapshot.
pub fn contract_stem_index_file_name(addr: &Vec<u8>) -> (r: String)
    requires
        addr@.len() == ADDRESS_LEN,
    ensures
        r@ == "contract-"@ + checksum_display_of(addr@) + "-stem-index.bin"@,
{
    let s = checksum_address(addr);
    let mut r = "contract-".to_owned();
    r.append(s.as_str());
    r.append("-stem-index.bin");
    proof {
        assert(r@ =~= "contract-"@ + checksum_display_of(addr@) + "-stem-index.bin"@);
    }
    r
}

/// The name of an incremental delta snapshot file for a closed block range.
pub fn delta_file_name(from_block: u64, to_block: u64) -> (r: String)
    ensures
        r@ == "delta-"@ + spec_decimal(from_block as nat) + "-"@ + spec_decimal(to_block as nat)
            + ".bin"@,
{
    let mut r = "delta-".to_owned();
    let from_s = u64_to_decimal(from_block);
    r.append(from_s.as_str());
    r.append("-");
    let to_s = u64_to_decimal(to_block);
    r.append(to_s.as_str());
    r.append(".bin");
    proof {
        assert(r@ =~= "delta-"@ + spec_decimal(from_block as nat) + "-"@ + spec_decimal(
            to_block as nat,
        ) + ".bin"@);
    }
    r
}

} // verus!
