//! The names that output files get.
//!
//! A level file cut out of an archive is named after its offset in the
//! archive. A decoded level is named after the hash of the name it had before.
//! Both numbers are written in decimal.

use vstd::prelude::*;
use vstd::string::{StringExecFns, StringSliceAdditionalSpecFns};
use crate::hash::{block_hash, get_level_hash};

verus! {

/// The character of one decimal digit.
pub open spec fn digit_char(d: int) -> char
    recommends
        0 <= d < 10,
{
    if d == 0 {
        '0'
    } else if d == 1 {
        '1'
    } else if d == 2 {
        '2'
    } else if d == 3 {
        '3'
    } else if d == 4 {
        '4'
    } else if d == 5 {
        '5'
    } else if d == 6 {
        '6'
    } else if d == 7 {
        '7'
    } else if d == 8 {
        '8'
    } else {
        '9'
    }
}

/// A number in decimal, without leading zeros.
pub open spec fn decimal(n: nat) -> Seq<char>
    decreases n,
{
    if n < 10 {
        seq![digit_char(n as int)]
    } else {
        decimal(n / 10).push(digit_char((n % 10) as int))
    }
}

/// The name of the level file that lies at `offset` in its archive.
pub open spec fn level_file_name_of(offset: u32) -> Seq<char> {
    "level_"@ + decimal(offset as nat) + ".bin"@
}

/// The name of the decoded level whose own name has the bytes `name`.
pub open spec fn decoded_file_name_of(name: Seq<u8>) -> Seq<char> {
    decimal(block_hash(name) as nat) + ".jpg"@
}

/// The text of one decimal digit.
fn digit_text(d: u32) -> (text: &'static str)
    requires
        d < 10,
    ensures
        text@ == seq![digit_char(d as int)],
{
    proof {
        reveal_strlit("0");
        reveal_strlit("1");
        reveal_strlit("2");
        reveal_strlit("3");
        reveal_strlit("4");
        reveal_strlit("5");
        reveal_strlit("6");
        reveal_strlit("7");
        reveal_strlit("8");
        reveal_strlit("9");
    }
    let text = if d == 0 {
        "0"
    } else if d == 1 {
        "1"
    } else if d == 2 {
        "2"
    } else if d == 3 {
        "3"
    } else if d == 4 {
        "4"
    } else if d == 5 {
        "5"
    } else if d == 6 {
        "6"
    } else if d == 7 {
        "7"
    } else if d == 8 {
        "8"
    } else {
        "9"
    };
    assert(text@ =~= seq![digit_char(d as int)]);
    text
}

/// Appends `n` in decimal to `text`.
pub fn push_decimal(text: &mut String, n: u32)
    ensures
        final(text)@ == old(text)@ + decimal(n as nat),
    decreases n,
{
    if n >= 10 {
        push_decimal(text, n / 10);
    }
    text.append(digit_text(n % 10));
    assert(text@ =~= old(text)@ + decimal(n as nat));
}

/// The name of the level file that lies at `offset` in its archive.
pub fn level_file_name(offset: u32) -> (name: String)
    ensures
        name@ == level_file_name_of(offset),
{
    let mut name = String::from_str("level_");
    push_decimal(&mut name, offset);
    name.append(".bin");
    name
}

/// The name of the decoded level whose own name is `input`.
pub fn decoded_file_name(input: &str) -> (name: String)
    ensures
        name@ == decoded_file_name_of(input.spec_bytes()),
{
    let mut name = String::new();
    push_decimal(&mut name, get_level_hash(input));
    name.append(".jpg");
    assert(name@ =~= decoded_file_name_of(input.spec_bytes()));
    name
}

} // verus!
