//! Recovering the key of a shift cipher: a ciphertext-only attack by letter
//! frequencies, and a known-plaintext attack by index arithmetic.

use crate::caesar::{chars_of, decrypt, index_of, is_alpha, is_ascii_letter, letter_index, rotate};
use crate::english::{english_at, english_milli, lemma_english_bound};
use vstd::arithmetic::div_mod::{lemma_fundamental_div_mod, lemma_fundamental_div_mod_converse};
use vstd::prelude::*;

verus! {

/// How many ASCII letters of `t` stand at alphabet position `l`, either case.
pub open spec fn letter_count(t: Seq<char>, l: int) -> nat
    decreases t.len(),
{
    if t.len() == 0 {
        0
    } else {
        letter_count(t.drop_last(), l) + if is_alpha(t.last()) && letter_index(t.last()) == l {
            1nat
        } else {
            0nat
        }
    }
}

/// How many ASCII letters `t` holds.
pub open spec fn alpha_count(t: Seq<char>) -> nat
    decreases t.len(),
{
    if t.len() == 0 {
        0
    } else {
        alpha_count(t.drop_last()) + if is_alpha(t.last()) {
            1nat
        } else {
            0nat
        }
    }
}

/// The count of each of the 26 letters in `t`.
pub open spec fn text_counts(t: Seq<char>) -> Seq<int> {
    Seq::new(26, |l: int| letter_count(t, l) as int)
}

/// The sum of the first `n` entries of `c`.
pub open spec fn seq_sum(c: Seq<int>, n: int) -> int
    decreases n,
{
    if n <= 0 {
        0
    } else {
        seq_sum(c, n - 1) + c[n - 1]
    }
}

/// Over the letters among the first `n` that occur (count above zero), the sum
/// of `count / total - english / 1000`, the observed frequency less the
/// reference one, multiplied through by `1000 * total`.
pub open spec fn deviation_sum(c: Seq<int>, total: int, n: int) -> int
    decreases n,
{
    if n <= 0 {
        0
    } else {
        deviation_sum(c, total, n - 1) + if c[n - 1] > 0 {
            1000 * c[n - 1] - total * english_milli(n - 1)
        } else {
            0
        }
    }
}

/// The reference frequencies, in thousandths, of the letters among the first
/// `n` that occur.
pub open spec fn present_reference(c: Seq<int>, n: int) -> int
    decreases n,
{
    if n <= 0 {
        0
    } else {
        present_reference(c, n - 1) + if c[n - 1] > 0 {
            english_milli(n - 1)
        } else {
            0
        }
    }
}

/// The signed sum of frequency differences of a profile, in thousandths: zero
/// for a profile of no letters.
pub open spec fn score_of(c: Seq<int>, total: int) -> int {
    if total == 0 {
        0
    } else {
        deviation_sum(c, total, 26) / total
    }
}

/// The score of a text's letter profile.
pub open spec fn text_score(t: Seq<char>) -> int {
    score_of(text_counts(t), alpha_count(t) as int)
}

/// The score of the candidate plaintext that key `s` gives for ciphertext `t`.
pub open spec fn shift_score(t: Seq<char>, s: int) -> int {
    text_score(rotate(t, -s))
}

/// The letter counts of a text: the frequency of letter `l` is
/// `counts[l] / total`, and the letters with a count above zero are exactly
/// the letters that occur.
pub struct FrequencyProfile {
    pub counts: Vec<usize>,
    pub total: usize,
}

impl FrequencyProfile {
    pub open spec fn count_view(&self) -> Seq<int> {
        self.counts@.map_values(|x: usize| x as int)
    }

    /// One count per letter, adding up to the total.
    pub open spec fn wf(&self) -> bool {
        &&& self.counts@.len() == 26
        &&& self.total == seq_sum(self.count_view(), 26)
    }
}

proof fn lemma_sum_step(a: Seq<int>, b: Seq<int>, n: int, j: int)
    requires
        0 <= n <= a.len(),
        n <= b.len(),
        forall|l: int| 0 <= l < n ==> #[trigger] a[l] == b[l] + if l == j { 1int } else { 0int },
    ensures
        seq_sum(a, n) == seq_sum(b, n) + if 0 <= j < n { 1int } else { 0int },
    decreases n,
{
    if n > 0 {
        lemma_sum_step(a, b, n - 1, j);
    }
}

proof fn lemma_sum_zero(c: Seq<int>, n: int)
    requires
        n <= c.len(),
        forall|l: int| 0 <= l < n ==> #[trigger] c[l] == 0,
    ensures
        seq_sum(c, n) == 0,
    decreases n,
{
    if n > 0 {
        lemma_sum_zero(c, n - 1);
    }
}

/// The letter counts of a text add up to its number of letters, so the
/// frequencies of a profile of at least one letter add up to exactly one; and
/// a letter has a count above zero only where it occurs in the text.
pub proof fn lemma_profile_sums_to_total(t: Seq<char>)
    ensures
        seq_sum(text_counts(t), 26) == alpha_count(t),
        forall|l: int|
            0 <= l < 26 && #[trigger] text_counts(t)[l] > 0 ==> exists|i: int|
                0 <= i < t.len() && is_alpha(t[i]) && letter_index(t[i]) == l,
    decreases t.len(),
{
    if t.len() > 0 {
        let s = t.drop_last();
        lemma_profile_sums_to_total(s);
        let c = t.last();
        let j = if is_alpha(c) { letter_index(c) } else { -1 };
        assert forall|l: int| 0 <= l < 26 implies #[trigger] text_counts(t)[l] == text_counts(s)[l]
            + if l == j { 1int } else { 0int } by {
            assert(letter_count(t, l) == letter_count(s, l) + if is_alpha(c) && letter_index(c)
                == l { 1nat } else { 0nat });
        }
        lemma_sum_step(text_counts(t), text_counts(s), 26, j);
        assert forall|l: int| 0 <= l < 26 && #[trigger] text_counts(t)[l] > 0 implies exists|i: int|
            0 <= i < t.len() && is_alpha(t[i]) && letter_index(t[i]) == l by {
            if text_counts(s)[l] > 0 {
                let i = choose|i: int| 0 <= i < s.len() && is_alpha(s[i]) && letter_index(s[i]) == l;
                assert(t[i] == s[i]);
            } else {
                assert(t[t.len() - 1] == c);
            }
        }
    } else {
        lemma_sum_zero(text_counts(t), 26);
    }
}

/// Counts each ASCII letter of `text`, case folded; other characters count in
/// neither a letter nor the total. A text of no letters gives an empty
/// profile: every count and the total are zero.
pub fn letter_frequency(text: &str) -> (p: FrequencyProfile)
    ensures
        p.wf(),
        p.count_view() == text_counts(text@),
        p.total == alpha_count(text@),
{
    let chars = chars_of(text);
    let mut counts: Vec<usize> = Vec::new();
    let mut l: usize = 0;
    while l < 26
        invariant
            l <= 26,
            counts@.len() == l,
            forall|m: int| 0 <= m < l ==> counts@[m] == 0,
        decreases 26 - l,
    {
        counts.push(0);
        l += 1;
    }
    let mut total: usize = 0;
    let mut i: usize = 0;
    while i < chars.len()
        invariant
            i <= chars.len(),
            chars@ == text@,
            counts@.len() == 26,
            forall|m: int|
                0 <= m < 26 ==> #[trigger] counts@[m] == letter_count(chars@.take(i as int), m),
            forall|m: int| 0 <= m < 26 ==> #[trigger] counts@[m] <= i,
            total == alpha_count(chars@.take(i as int)),
            total <= i,
        decreases chars.len() - i,
    {
        let c = chars[i];
        assert(chars@.take(i + 1).drop_last() =~= chars@.take(i as int));
        if is_ascii_letter(c) {
            let idx = index_of(c) as usize;
            let n = counts[idx];
            counts.set(idx, n + 1);
            total += 1;
        }
        i += 1;
    }
    assert(chars@.take(chars.len() as int) =~= text@);
    let p = FrequencyProfile { counts, total };
    assert(p.count_view() =~= text_counts(text@));
    proof {
        lemma_profile_sums_to_total(text@);
    }
    p
}

/// The signed sum of differences, once the counts add up to the total, is the
/// total times (1000 less the reference mass of the letters that occur).
proof fn lemma_deviation(c: Seq<int>, total: int, n: int)
    requires
        0 <= n <= c.len(),
        forall|l: int| 0 <= l < n ==> #[trigger] c[l] >= 0,
    ensures
        deviation_sum(c, total, n) == 1000 * seq_sum(c, n) - total * present_reference(c, n),
    decreases n,
{
    if n > 0 {
        lemma_deviation(c, total, n - 1);
        let p = present_reference(c, n - 1);
        let e = english_milli(n - 1);
        assert(total * (p + e) == total * p + total * e) by (nonlinear_arith);
    }
}

proof fn lemma_present_bound(c: Seq<int>, n: int)
    requires
        0 <= n <= 26,
    ensures
        0 <= present_reference(c, n) <= 130 * n,
    decreases n,
{
    if n > 0 {
        lemma_present_bound(c, n - 1);
        lemma_english_bound(n - 1);
    }
}

/// The similarity score of a profile against English, in thousandths: the
/// signed sum, over the letters that occur, of observed less reference
/// frequency. Differences of opposite sign cancel, and letters that do not
/// occur add nothing. A profile of no letters scores zero.
pub fn phi(profile: &FrequencyProfile) -> (r: i64)
    requires
        profile.wf(),
    ensures
        r == score_of(profile.count_view(), profile.total as int),
        profile.total > 0 ==> r * profile.total == deviation_sum(
            profile.count_view(),
            profile.total as int,
            26,
        ),
{
    if profile.total == 0 {
        return 0;
    }
    let ghost c = profile.count_view();
    // The counts add up to the total, so the sum of differences comes to
    // 1000 less the reference mass of the letters that occur.
    let mut mass: u32 = 0;
    let mut l: usize = 0;
    while l < 26
        invariant
            l <= 26,
            profile.wf(),
            c == profile.count_view(),
            mass == present_reference(c, l as int),
        decreases 26 - l,
    {
        proof {
            lemma_present_bound(c, l as int);
            lemma_english_bound(l as int);
        }
        if profile.counts[l] > 0 {
            mass += english_at(l as u8);
        }
        l += 1;
    }
    proof {
        let t = profile.total as int;
        lemma_present_bound(c, 26);
        lemma_deviation(c, t, 26);
        assert((1000 - mass) * t == 1000 * t - t * mass) by (nonlinear_arith);
        lemma_fundamental_div_mod_converse(deviation_sum(c, t, 26), t, 1000 - mass, 0);
    }
    1000 - mass as i64
}

/// Candidate `x` ranks before `y`: a lower score, or the same score and a
/// smaller shift.
pub open spec fn ranks_before(x: (i32, i64), y: (i32, i64)) -> bool {
    x.1 < y.1 || (x.1 == y.1 && x.0 < y.0)
}

/// Some entry of `v` is for shift `s`.
pub open spec fn has_shift(v: Seq<(i32, i64)>, s: int) -> bool {
    exists|j: int| 0 <= j < v.len() && #[trigger] v[j].0 == s
}

/// Ciphertext-only attack: decrypts `ciphertext` under each shift in [0, 25],
/// scores each candidate with `phi`, and returns every `(shift, score)` pair,
/// ranked by ascending score with ties to the smaller shift. The lowest score
/// marks the most English-like candidate. A ciphertext of no letters gives all
/// candidates the score zero, ranked by shift.
pub fn frequency_analysis(ciphertext: &str) -> (r: Vec<(i32, i64)>)
    ensures
        r.len() == 26,
        forall|j: int|
            0 <= j < 26 ==> 0 <= (#[trigger] r[j]).0 < 26 && r[j].1 == shift_score(
                ciphertext@,
                r[j].0 as int,
            ),
        forall|s: int| 0 <= s < 26 ==> has_shift(r@, s),
        forall|a: int, b: int| 0 <= a < b < 26 ==> ranks_before(#[trigger] r[a], #[trigger] r[b]),
{
    let mut ranked: Vec<(i32, i64)> = Vec::new();
    let mut i: i32 = 0;
    while i < 26
        invariant
            0 <= i <= 26,
            ranked.len() == i,
            forall|j: int|
                0 <= j < ranked.len() ==> 0 <= (#[trigger] ranked[j]).0 < i && ranked[j].1
                    == shift_score(ciphertext@, ranked[j].0 as int),
            forall|s: int| 0 <= s < i ==> has_shift(ranked@, s),
            forall|a: int, b: int|
                0 <= a < b < ranked.len() ==> ranks_before(#[trigger] ranked[a], #[trigger] ranked[b]),
        decreases 26 - i,
    {
        let candidate = decrypt(ciphertext, i);
        let profile = letter_frequency(candidate.as_str());
        let score = phi(&profile);
        let mut pos: usize = 0;
        while pos < ranked.len() && ranked[pos].1 <= score
            invariant
                pos <= ranked.len(),
                forall|j: int| 0 <= j < pos ==> (#[trigger] ranked[j]).1 <= score,
            decreases ranked.len() - pos,
        {
            pos += 1;
        }
        let ghost old_ranked = ranked@;
        let entry = (i, score);
        ranked.insert(pos, entry);
        proof {
            assert forall|j: int| pos <= j < old_ranked.len() implies #[trigger] old_ranked[j].1
                > score by {
                if j > pos {
                    assert(ranks_before(old_ranked[pos as int], old_ranked[j]));
                }
            }
            assert forall|j: int| 0 <= j < ranked.len() implies 0 <= (#[trigger] ranked[j]).0 < i
                + 1 && ranked[j].1 == shift_score(ciphertext@, ranked[j].0 as int) by {
                if j > pos {
                    assert(ranked[j] == old_ranked[j - 1]);
                }
            }
            assert forall|s: int| 0 <= s < i + 1 implies has_shift(ranked@, s) by {
                if s == i {
                    assert(ranked@[pos as int].0 == s);
                } else {
                    assert(has_shift(old_ranked, s));
                    let j = choose|j: int| 0 <= j < old_ranked.len() && #[trigger] old_ranked[j].0 == s;
                    if j < pos {
                        assert(ranked@[j] == old_ranked[j]);
                    } else {
                        assert(ranked@[j + 1] == old_ranked[j]);
                    }
                }
            }
            assert forall|a: int, b: int| 0 <= a < b < ranked.len() implies ranks_before(
                #[trigger] ranked[a],
                #[trigger] ranked[b],
            ) by {
                let x = if a < pos { a } else if a == pos { -1 } else { a - 1 };
                let y = if b < pos { b } else if b == pos { -1 } else { b - 1 };
                if x >= 0 && y >= 0 {
                    assert(ranks_before(old_ranked[x], old_ranked[y]));
                } else if x < 0 {
                    assert(old_ranked[y].1 > score);
                } else {
                    assert(old_ranked[x].1 <= score);
                    assert(old_ranked[x].0 < i);
                }
            }
        }
        i += 1;
    }
    ranked
}

/// Over the first `n` positions where both texts hold an ASCII letter, the sum
/// of ciphertext index less plaintext index.
pub open spec fn index_diff_sum(p: Seq<char>, c: Seq<char>, n: int) -> int
    decreases n,
{
    if n <= 0 {
        0
    } else {
        index_diff_sum(p, c, n - 1) + if is_alpha(p[n - 1]) && is_alpha(c[n - 1]) {
            letter_index(c[n - 1]) - letter_index(p[n - 1])
        } else {
            0
        }
    }
}

/// The average difference, taken over the whole plaintext length `n` and
/// reduced modulo 26, multiplied by `n`: `(S / n) mod 26 == (S mod 26n) / n`.
pub open spec fn scaled_mean_shift(p: Seq<char>, c: Seq<char>) -> int {
    index_diff_sum(p, c, p.len() as int) % (26 * p.len() as int)
}

/// Euclidean remainder of a signed sum by a positive modulus.
fn floor_mod(x: i128, d: u128) -> (r: u128)
    requires
        0 < d,
        d <= i128::MAX,
    ensures
        r < d,
        r == (x as int) % (d as int),
{
    if x >= 0 {
        (x as u128) % d
    } else {
        let a: u128 = (-(x + 1)) as u128;
        let m: u128 = a % d;
        proof {
            let q = a as int / d as int;
            lemma_fundamental_div_mod(a as int, d as int);
            assert((-q - 1) * d == -(d * q) - d) by (nonlinear_arith);
            lemma_fundamental_div_mod_converse(x as int, d as int, -q - 1, d - 1 - m);
        }
        d - 1 - m
    }
}

/// Known-plaintext attack: from aligned plaintext and ciphertext, the shift
/// that turns one into the other. The index differences at the positions where
/// both characters are ASCII letters are summed and divided by the full
/// character count; that average is reduced modulo 26 and rounded to the
/// nearest integer, halves upward. `None` when either text is empty or their
/// character counts differ.
pub fn deduce_key(plaintext: &str, ciphertext: &str) -> (r: Option<usize>)
    ensures
        r is None <==> (plaintext@.len() == 0 || ciphertext@.len() == 0 || plaintext@.len()
            != ciphertext@.len()),
        r matches Some(k) ==> ({
            let n = plaintext@.len() as int;
            let m = scaled_mean_shift(plaintext@, ciphertext@);
            2 * n * k <= 2 * m + n < 2 * n * (k + 1)
        }),
{
    let p = chars_of(plaintext);
    let c = chars_of(ciphertext);
    if p.len() == 0 || c.len() == 0 || p.len() != c.len() {
        return None;
    }
    let n = p.len();
    let mut sum: i128 = 0;
    let mut i: usize = 0;
    while i < n
        invariant
            i <= n,
            n == p.len(),
            n == c.len(),
            p@ == plaintext@,
            c@ == ciphertext@,
            sum == index_diff_sum(p@, c@, i as int),
            -25 * i <= sum <= 25 * i,
        decreases n - i,
    {
        if is_ascii_letter(p[i]) && is_ascii_letter(c[i]) {
            sum = sum + index_of(c[i]) as i128 - index_of(p[i]) as i128;
        }
        i += 1;
    }
    let nn: u128 = n as u128;
    let m = floor_mod(sum, 26 * nn);
    let k: u128 = (2 * m + nn) / (2 * nn);
    proof {
        let n = nn as int;
        lemma_fundamental_div_mod(2 * m + n, 2 * n);
        assert(2 * n * k <= 2 * m + n < 2 * n * (k + 1)) by (nonlinear_arith)
            requires
                k == (2 * m + n) / (2 * n),
                2 * m + n == (2 * n) * ((2 * m + n) / (2 * n)) + (2 * m + n) % (2 * n),
                0 <= (2 * m + n) % (2 * n) < 2 * n,
        ;
        assert(k <= 26) by (nonlinear_arith)
            requires
                2 * n * k <= 2 * m + n,
                m < 26 * n,
                n > 0,
        ;
    }
    Some(k as usize)
}

} // verus!
