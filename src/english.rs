//! The English letter frequencies that candidate decryptions are scored
//! against: the unigram table of D. Denning, S. Akl, M. Heckman, T. Lunt,
//! M. Morgenstern, P. Neumann and R. Schell, "Views for Multilevel Database
//! Security", IEEE Transactions on Software Engineering 13 (2), 1987.

use crate::caesar::{index_of, is_alpha, letter_index};
use vstd::prelude::*;

verus! {

/// The frequency of the letter at position `i` of the alphabet in English
/// prose, in thousandths.
pub open spec fn english_milli(i: int) -> int {
    if i == 0 {
        80  // a
    } else if i == 1 {
        15  // b
    } else if i == 2 {
        30  // c
    } else if i == 3 {
        40  // d
    } else if i == 4 {
        130  // e
    } else if i == 5 {
        20  // f
    } else if i == 6 {
        15  // g
    } else if i == 7 {
        60  // h
    } else if i == 8 {
        65  // i
    } else if i == 9 {
        5  // j
    } else if i == 10 {
        5  // k
    } else if i == 11 {
        35  // l
    } else if i == 12 {
        30  // m
    } else if i == 13 {
        70  // n
    } else if i == 14 {
        80  // o
    } else if i == 15 {
        20  // p
    } else if i == 16 {
        2  // q
    } else if i == 17 {
        65  // r
    } else if i == 18 {
        60  // s
    } else if i == 19 {
        90  // t
    } else if i == 20 {
        30  // u
    } else if i == 21 {
        10  // v
    } else if i == 22 {
        15  // w
    } else if i == 23 {
        5  // x
    } else if i == 24 {
        20  // y
    } else if i == 25 {
        2  // z
    } else {
        0
    }
}

/// Every reference frequency lies between zero and 130 thousandths.
pub proof fn lemma_english_bound(i: int)
    ensures
        0 <= english_milli(i) <= 130,
{
}

/// Table lookup by alphabet position.
pub(crate) fn english_at(i: u8) -> (r: u32)
    requires
        i < 26,
    ensures
        r == english_milli(i as int),
{
    match i {
        0 => 80,
        1 => 15,
        2 => 30,
        3 => 40,
        4 => 130,
        5 => 20,
        6 => 15,
        7 => 60,
        8 => 65,
        9 => 5,
        10 => 5,
        11 => 35,
        12 => 30,
        13 => 70,
        14 => 80,
        15 => 20,
        16 => 2,
        17 => 65,
        18 => 60,
        19 => 90,
        20 => 30,
        21 => 10,
        22 => 15,
        23 => 5,
        24 => 20,
        _ => 2,
    }
}

/// The English frequency of a lowercase letter, in thousandths; `None` for a
/// symbol outside the alphabet.
pub fn reference_frequency(letter: char) -> (r: Option<u32>)
    ensures
        r == (if 'a' <= letter && letter <= 'z' {
            Some(english_milli(letter_index(letter)) as u32)
        } else {
            None::<u32>
        }),
{
    if 'a' <= letter && letter <= 'z' {
        Some(english_at(index_of(letter)))
    } else {
        None
    }
}

} // verus!
