//! The values of a command line: what a user writes for the cells of a row.
//!
//! A value in double quotes is a byte string, `true` and `false` are truth
//! values, and everything else is a number.

use crate::row::{Cell, RowVal};
use vstd::prelude::*;
use vstd::slice::{slice_subrange, slice_to_vec};
use vstd::utf8::encode_utf8;

verus! {

/// The text that `str::trim` leaves of a text.
pub uninterp spec fn trim_of(text: Seq<char>) -> Seq<char>;

/// The number that `str::parse::<u32>` reads from a text, if it reads one.
pub uninterp spec fn parsed_u32(text: Seq<char>) -> Option<u32>;

/// `str::trim`: the text without the white space at its ends.
#[verifier::external_body]
fn trim(text: &str) -> (r: &str)
    ensures
        r@ == trim_of(text@),
{
    text.trim()
}

/// `str::parse::<u32>`: the number that the text spells, or nothing where
/// it spells none.
#[verifier::external_body]
fn parse_u32(text: &str) -> (r: Option<u32>)
    ensures
        r == parsed_u32(text@),
{
    text.parse::<u32>().ok()
}

/// The bytes of `false`.
pub open spec fn false_bytes() -> Seq<u8> {
    seq![0x66u8, 0x61u8, 0x6cu8, 0x73u8, 0x65u8]
}

/// The bytes of `true`.
pub open spec fn true_bytes() -> Seq<u8> {
    seq![0x74u8, 0x72u8, 0x75u8, 0x65u8]
}

/// The cell that a value without white space at its ends stands for, where
/// `number` is what it spells as a number: the bytes between its quotes
/// where it starts with a double quote, which then has to end it too; a
/// truth value where it is `true` or `false`; else its number, if it spells
/// one.
pub open spec fn value_with(text: Seq<char>, number: Option<u32>) -> Option<Cell> {
    let b = encode_utf8(text);
    if b.len() > 0 && b[0] == 0x22 {
        if b.len() >= 2 && b.last() == 0x22 {
            Some(Cell::Bytes(b.subrange(1, b.len() - 1)))
        } else {
            None
        }
    } else if b == false_bytes() {
        Some(Cell::Bool(false))
    } else if b == true_bytes() {
        Some(Cell::Bool(true))
    } else {
        match number {
            Some(n) => Some(Cell::U32(n)),
            None => None,
        }
    }
}

/// The cell that a value stands for, white space at its ends aside.
pub open spec fn value_of(text: Seq<char>) -> Option<Cell> {
    value_with(trim_of(text), parsed_u32(trim_of(text)))
}

/// Whether the bytes are those of the word.
fn is_word(bytes: &[u8], word: &[u8]) -> (r: bool)
    ensures
        r == (bytes@ == word@),
{
    if bytes.len() != word.len() {
        return false;
    }
    let mut i: usize = 0;
    while i < bytes.len()
        invariant
            i <= bytes@.len(),
            bytes@.len() == word@.len(),
            forall|j: int| 0 <= j < i ==> bytes@[j] == word@[j],
        decreases bytes@.len() - i,
    {
        if bytes[i] != word[i] {
            return false;
        }
        i = i + 1;
    }
    assert(bytes@ =~= word@);
    true
}

/// The cell that a value without white space at its ends stands for, where
/// `number` is what it spells as a number.
pub fn read_value(text: &str, number: Option<u32>) -> (r: Option<RowVal>)
    ensures
        match value_with(text@, number) {
            Some(c) => r is Some && r.unwrap()@ == c,
            None => r is None,
        },
{
    let bytes = text.as_bytes();
    let len: usize = bytes.len();
    if len > 0 && bytes[0] == 0x22 {
        if len >= 2 && bytes[len - 1] == 0x22 {
            Some(RowVal::Bytes(slice_to_vec(slice_subrange(bytes, 1, len - 1))))
        } else {
            None
        }
    } else {
        let no: [u8; 5] = [0x66, 0x61, 0x6c, 0x73, 0x65];
        let yes: [u8; 4] = [0x74, 0x72, 0x75, 0x65];
        assert(no@ =~= false_bytes());
        assert(yes@ =~= true_bytes());
        if is_word(bytes, no.as_slice()) {
            Some(RowVal::Bool(false))
        } else if is_word(bytes, yes.as_slice()) {
            Some(RowVal::Bool(true))
        } else {
            match number {
                Some(n) => Some(RowVal::U32(n)),
                None => None,
            }
        }
    }
}

/// The cell that a value stands for, white space at its ends aside, or
/// nothing where it stands for none.
pub fn try_parse_val(text: &str) -> (r: Option<RowVal>)
    ensures
        match value_of(text@) {
            Some(c) => r is Some && r.unwrap()@ == c,
            None => r is None,
        },
{
    let trimmed = trim(text);
    let number = parse_u32(trimmed);
    read_value(trimmed, number)
}

/// The cells that the values stand for, each of which stands for one.
pub fn parse_vals(vals: &[&str]) -> (r: Vec<RowVal>)
    requires
        forall|i: int| 0 <= i < vals@.len() ==> value_of((#[trigger] vals@[i])@) is Some,
    ensures
        r@.len() == vals@.len(),
        forall|i: int| 0 <= i < vals@.len() ==> Some((#[trigger] r@[i])@) == value_of(vals@[i]@),
{
    let mut res: Vec<RowVal> = Vec::new();
    let mut i: usize = 0;
    while i < vals.len()
        invariant
            i <= vals@.len(),
            res@.len() == i,
            forall|i: int| 0 <= i < vals@.len() ==> value_of((#[trigger] vals@[i])@) is Some,
            forall|j: int| 0 <= j < i ==> Some((#[trigger] res@[j])@) == value_of(vals@[j]@),
        decreases vals@.len() - i,
    {
        assert(value_of(vals@[i as int]@) is Some);
        let val = try_parse_val(vals[i]).unwrap();
        res.push(val);
        i = i + 1;
    }
    res
}

/// The cells that the values stand for, or nothing where one of them stands
/// for none.
pub fn try_parse_vals(vals: &[&str]) -> (r: Option<Vec<RowVal>>)
    ensures
        r is Some <==> forall|i: int|
            0 <= i < vals@.len() ==> value_of((#[trigger] vals@[i])@) is Some,
        r is Some ==> r.unwrap()@.len() == vals@.len() && forall|i: int|
            0 <= i < vals@.len() ==> Some((#[trigger] r.unwrap()@[i])@) == value_of(vals@[i]@),
{
    let mut i: usize = 0;
    while i < vals.len()
        invariant
            i <= vals@.len(),
            forall|j: int| 0 <= j < i ==> value_of((#[trigger] vals@[j])@) is Some,
        decreases vals@.len() - i,
    {
        if try_parse_val(vals[i]).is_none() {
            assert(value_of(vals@[i as int]@) is None);
            return None;
        }
        i = i + 1;
    }
    Some(parse_vals(vals))
}

} // verus!
