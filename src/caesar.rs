//! The rotation cipher itself, its mathematical model, and the laws it obeys.

use vstd::arithmetic::div_mod::{
    lemma_add_mod_noop_right, lemma_fundamental_div_mod, lemma_fundamental_div_mod_converse,
};
use vstd::prelude::*;

verus! {

/// An ASCII letter, of either case.
pub open spec fn is_alpha(c: char) -> bool {
    ('a' <= c && c <= 'z') || ('A' <= c && c <= 'Z')
}

/// The position in the alphabet of an ASCII letter, ignoring its case.
pub open spec fn letter_index(c: char) -> int {
    if 'a' <= c && c <= 'z' {
        c as int - 97
    } else {
        c as int - 65
    }
}

/// The lowercase letter at position `i` of the alphabet.
pub open spec fn letter_at(i: int) -> char {
    ((97 + i) as u8) as char
}

/// One character under a rotation by `k`: letters move `k` places forward,
/// modulo 26, and come out lowercase; anything else is left as it is.
pub open spec fn shift_char(c: char, k: int) -> char {
    if is_alpha(c) {
        letter_at((letter_index(c) + k) % 26)
    } else {
        c
    }
}

/// A text under a rotation by `k`.
pub open spec fn rotate(t: Seq<char>, k: int) -> Seq<char> {
    Seq::new(t.len(), |i: int| shift_char(t[i], k))
}

/// A text with its letters lowercased and everything else unchanged.
pub open spec fn lowercase(t: Seq<char>) -> Seq<char> {
    Seq::new(t.len(), |i: int| if is_alpha(t[i]) { letter_at(letter_index(t[i])) } else { t[i] })
}

/// A letter rotated by `k` is the lowercase letter at `(index + k) mod 26`.
proof fn lemma_shift_letter(c: char, k: int)
    requires
        is_alpha(c),
    ensures
        is_alpha(shift_char(c, k)),
        letter_index(shift_char(c, k)) == (letter_index(c) + k) % 26,
{
    let m = (letter_index(c) + k) % 26;
    assert(0 <= m < 26);
}

/// Decrypting with the key that encrypted gives back the text with its letters
/// lowercased and every other character as it was.
pub proof fn lemma_round_trip(t: Seq<char>, k: int)
    ensures
        rotate(rotate(t, k), -k) == lowercase(t),
{
    assert forall|i: int| 0 <= i < t.len() implies #[trigger] rotate(rotate(t, k), -k)[i]
        == lowercase(t)[i] by {
        let c = t[i];
        if is_alpha(c) {
            let j = letter_index(c);
            let m = (j + k) % 26;
            lemma_shift_letter(c, k);
            lemma_fundamental_div_mod(j + k, 26);
            let q = (j + k) / 26;
            lemma_fundamental_div_mod_converse(m - k, 26, -q, j);
        }
    }
    assert(rotate(rotate(t, k), -k) =~= lowercase(t));
}

/// Shifts that differ by 26 encrypt alike.
pub proof fn lemma_shift_period(t: Seq<char>, k: int)
    ensures
        rotate(t, k) == rotate(t, k + 26),
{
    assert forall|i: int| 0 <= i < t.len() implies #[trigger] rotate(t, k)[i] == rotate(
        t,
        k + 26,
    )[i] by {
        if is_alpha(t[i]) {
            let j = letter_index(t[i]);
            lemma_fundamental_div_mod(j + k, 26);
            lemma_fundamental_div_mod_converse(j + k + 26, 26, (j + k) / 26 + 1, (j + k) % 26);
        }
    }
    assert(rotate(t, k) =~= rotate(t, k + 26));
}

/// A character that is not an ASCII letter stays in its place under any
/// rotation, so under both `encrypt` and `decrypt`.
pub proof fn lemma_non_letters_fixed(t: Seq<char>, k: int, i: int)
    requires
        0 <= i < t.len(),
        !is_alpha(t[i]),
    ensures
        rotate(t, k)[i] == t[i],
        rotate(t, -k)[i] == t[i],
{
}

/// Relies on `String::push`: it appends one character to the end of the string.
pub assume_specification[ std::string::String::push ](s: &mut String, ch: char)
    ensures
        final(s)@ == old(s)@.push(ch),
;

/// The characters of `text`, in order.
pub(crate) fn chars_of(text: &str) -> (v: Vec<char>)
    ensures
        v@ == text@,
{
    let mut v: Vec<char> = Vec::new();
    for c in it: text.chars()
        invariant
            v@ == it.seq().take(it.index() as int),
            it.seq() == text@,
    {
        v.push(c);
    }
    v
}

pub(crate) fn is_ascii_letter(c: char) -> (r: bool)
    ensures
        r == is_alpha(c),
{
    ('a' <= c && c <= 'z') || ('A' <= c && c <= 'Z')
}

pub(crate) fn index_of(c: char) -> (r: u8)
    requires
        is_alpha(c),
    ensures
        r < 26,
        r == letter_index(c),
{
    if 'a' <= c && c <= 'z' {
        (c as u32 - 97) as u8
    } else {
        (c as u32 - 65) as u8
    }
}

pub(crate) fn letter(i: u8) -> (c: char)
    requires
        i < 26,
    ensures
        c == letter_at(i as int),
        is_alpha(c),
        letter_index(c) == i,
{
    (97u8 + i) as char
}

/// Brings any shift into [0, 25], the same rotation.
fn reduce_shift(k: i64) -> (r: u8)
    ensures
        r < 26,
        r == k % 26,
{
    if k >= 0 {
        (k % 26) as u8
    } else {
        let m: i64 = (-(k + 1)) % 26;
        proof {
            let q = (-(k + 1)) / 26;
            lemma_fundamental_div_mod(-(k + 1), 26);
            lemma_fundamental_div_mod_converse(k as int, 26, -q - 1, 25 - m);
        }
        (25 - m) as u8
    }
}

/// Moves an ASCII letter `rot` places forward, giving a lowercase letter.
fn shift_n(c: char, rot: u8) -> (r: char)
    requires
        is_alpha(c),
        rot < 26,
    ensures
        r == shift_char(c, rot as int),
{
    let idx = index_of(c);
    let mut shifted: u8 = idx + rot;
    if shifted >= 26 {
        shifted -= 26;
    }
    proof {
        if idx + rot >= 26 {
            lemma_fundamental_div_mod_converse(idx + rot, 26, 1, shifted as int);
        } else {
            lemma_fundamental_div_mod_converse(idx + rot, 26, 0, shifted as int);
        }
    }
    letter(shifted)
}

fn rotn(text: &str, shift: i64) -> (r: String)
    ensures
        r@ == rotate(text@, shift as int),
{
    let chars = chars_of(text);
    let rot = reduce_shift(shift);
    let mut out = String::new();
    let mut i: usize = 0;
    while i < chars.len()
        invariant
            i <= chars.len(),
            chars@ == text@,
            rot as int == shift % 26,
            out@ == rotate(text@, shift as int).take(i as int),
        decreases chars.len() - i,
    {
        let c = chars[i];
        if is_ascii_letter(c) {
            let s = shift_n(c, rot);
            proof {
                lemma_add_mod_noop_right(letter_index(c), shift as int, 26);
            }
            out.push(s);
        } else {
            out.push(c);
        }
        assert(out@ =~= rotate(text@, shift as int).take(i + 1));
        i += 1;
    }
    assert(out@ =~= rotate(text@, shift as int));
    out
}

/// Rotates every ASCII letter of `plaintext` forward by `shift` (any integer,
/// taken modulo 26), lowercasing it; other characters pass through.
pub fn encrypt(plaintext: &str, shift: i32) -> (r: String)
    ensures
        r@ == rotate(plaintext@, shift as int),
{
    rotn(plaintext, shift as i64)
}

/// The inverse rotation: `encrypt` by `-shift`.
pub fn decrypt(ciphertext: &str, shift: i32) -> (r: String)
    ensures
        r@ == rotate(ciphertext@, -(shift as int)),
{
    rotn(ciphertext, -(shift as i64))
}

} // verus!
