//! The decisions the benchmark harness makes before it measures anything:
//! which corpus category a file belongs to, and which pages to sample.

use crate::chars::{char_vec, lower, to_lower};
use vstd::prelude::*;

verus! {

/// The corpus categories, in the order a file name is matched against them.
pub open spec fn category(k: int) -> Seq<char> {
    if k == 0 {
        seq!['t', 'e', 'x', 't', '-', '1', '0', '0', '0', 'p']
    } else if k == 1 {
        seq!['s', 'c', 'a', 'n', 'n', 'e', 'd', '-', 'l', 'a', 'r', 'g', 'e']
    } else if k == 2 {
        seq!['c', 'a', 'd', '-', 'p', 'a', 'g', 'e']
    } else if k == 3 {
        seq!['i', 'm', 'a', 'g', 'e', '-', '1', '0', '0', 'p']
    } else if k == 4 {
        seq!['m', 'a', 'l', 'f', 'o', 'r', 'm', 'e', 'd']
    } else {
        seq!['e', 'd', 'i', 't', 'e', 'd', '-', 's', 'a', 'v', 'e']
    }
}

/// `w` occurs in `s` at `i` once `s` is lowercased.
pub open spec fn occurs_lower_at(s: Seq<char>, w: Seq<char>, i: int) -> bool {
    0 <= i && i + w.len() <= s.len() && forall|j: int| 0 <= j < w.len() ==> lower(#[trigger] s[i + j]) == w[j]
}

pub open spec fn contains_lower(s: Seq<char>, w: Seq<char>) -> bool {
    exists|i: int| occurs_lower_at(s, w, i)
}

/// The first category, from the `k`-th on, named in `name` regardless of
/// ASCII case.
pub open spec fn category_of(name: Seq<char>, k: nat) -> Option<nat>
    decreases 6 - k,
{
    if k >= 6 {
        None
    } else if contains_lower(name, category(k as int)) {
        Some(k)
    } else {
        category_of(name, k + 1)
    }
}

proof fn lemma_category_of(name: Seq<char>, k: nat)
    ensures
        category_of(name, k) matches Some(j) ==> k <= j < 6,
    decreases 6 - k,
{
    if k < 6 && !contains_lower(name, category(k as int)) {
        lemma_category_of(name, k + 1);
    }
}

fn occurs_lower(s: &[char], w: &[char], i: usize) -> (r: bool)
    requires
        i + w@.len() <= s@.len(),
    ensures
        r == occurs_lower_at(s@, w@, i as int),
{
    let n = s.len();
    let mut j: usize = 0;
    while j < w.len()
        invariant
            j <= w@.len(),
            n == s@.len(),
            i + w@.len() <= s@.len(),
            forall|t: int| 0 <= t < j ==> lower(#[trigger] s@[i + t]) == w@[t],
        decreases w@.len() - j,
    {
        if to_lower(s[i + j]) != w[j] {
            return false;
        }
        j += 1;
    }
    true
}

fn find_lower(s: &[char], w: &[char]) -> (r: bool)
    ensures
        r == contains_lower(s@, w@),
{
    if w.len() > s.len() {
        return false;
    }
    let last = s.len() - w.len();
    let mut i: usize = 0;
    loop
        invariant
            w@.len() <= s@.len(),
            last == s@.len() - w@.len(),
            i <= last,
            forall|t: int| 0 <= t < i ==> !occurs_lower_at(s@, w@, t),
        ensures
            forall|t: int| 0 <= t <= last ==> !occurs_lower_at(s@, w@, t),
        decreases last - i,
    {
        if occurs_lower(s, w, i) {
            return true;
        }
        if i == last {
            break;
        }
        i += 1;
    }
    assert forall|t: int| !occurs_lower_at(s@, w@, t) by {
        if 0 <= t && t + w@.len() <= s@.len() {
            assert(t <= last);
        }
    }
    false
}

fn category_name(k: usize) -> (r: &'static str)
    requires
        k < 6,
    ensures
        r@ == category(k as int),
{
    if k == 0 {
        proof {
            reveal_strlit("text-1000p");
        }
        let r = "text-1000p";
        assert(r@ =~= category(0));
        r
    } else if k == 1 {
        proof {
            reveal_strlit("scanned-large");
        }
        let r = "scanned-large";
        assert(r@ =~= category(1));
        r
    } else if k == 2 {
        proof {
            reveal_strlit("cad-page");
        }
        let r = "cad-page";
        assert(r@ =~= category(2));
        r
    } else if k == 3 {
        proof {
            reveal_strlit("image-100p");
        }
        let r = "image-100p";
        assert(r@ =~= category(3));
        r
    } else if k == 4 {
        proof {
            reveal_strlit("malformed");
        }
        let r = "malformed";
        assert(r@ =~= category(4));
        r
    } else {
        proof {
            reveal_strlit("edited-save");
        }
        let r = "edited-save";
        assert(r@ =~= category(5));
        r
    }
}

/// The corpus category a benchmark file belongs to: the first one its name
/// contains, compared without regard to ASCII case.
pub fn select_category(file_name: &str) -> (r: Option<&'static str>)
    ensures
        match category_of(file_name@, 0) {
            Some(k) => r matches Some(c) && c@ == category(k as int),
            None => r is None,
        },
{
    let name = char_vec(file_name);
    proof {
        lemma_category_of(file_name@, 0);
    }
    let mut k: usize = 0;
    while k < 6
        invariant
            k <= 6,
            name@ == file_name@,
            category_of(file_name@, 0) == category_of(file_name@, k as nat),
        decreases 6 - k,
    {
        let c = category_name(k);
        let w = char_vec(c);
        if find_lower(&name, &w) {
            return Some(c);
        }
        k += 1;
    }
    None
}

/// The nearest integer to `i * (total - 1) / (limit - 1)`, halves rounding
/// up: the `i`-th of `limit` evenly spaced indices from 0 to `total - 1`.
pub open spec fn spaced_index(total: nat, limit: nat, i: nat) -> int {
    let q = i * (total - 1);
    let d = limit - 1;
    q / d + if 2 * (q % d) >= d {
        1int
    } else {
        0int
    }
}

/// The indices `sample_indices` picks.
pub open spec fn samples(total: nat, limit: nat) -> Seq<int> {
    if total == 0 || limit == 0 {
        Seq::empty()
    } else if total <= limit {
        Seq::new(total, |i: int| i)
    } else if limit == 1 {
        seq![0int]
    } else {
        Seq::new(limit, |i: int| spaced_index(total, limit, i as nat))
    }
}

proof fn lemma_spaced_index(total: nat, limit: nat, i: nat)
    requires
        limit >= 2,
        total > limit,
        total <= usize::MAX,
        i < limit,
    ensures
        0 <= spaced_index(total, limit, i) <= total - 1,
        i == limit - 1 ==> spaced_index(total, limit, i) == total - 1,
        i * (total - 1) < 0x1_0000_0000_0000_0000_0000_0000_0000_0000,
{
    let q = i * (total - 1);
    let d = (limit - 1) as int;
    assert(q <= d * (total - 1)) by (nonlinear_arith)
        requires
            i <= d,
            total >= 1,
            q == i * (total - 1),
    ;
    if i == d {
        assert(q == d * (total - 1));
        assert(q / d == total - 1 && q % d == 0) by (nonlinear_arith)
            requires
                q == d * (total - 1),
                d > 0,
                total >= 1,
        ;
    } else {
        assert(q < d * (total - 1)) by (nonlinear_arith)
            requires
                i < d,
                total >= 2,
                q == i * (total - 1),
        ;
        assert(q / d < total - 1) by (nonlinear_arith)
            requires
                q < d * (total - 1),
                d > 0,
                q >= 0,
        ;
    }
    assert(q / d >= 0) by (nonlinear_arith)
        requires
            q >= 0,
            d > 0,
    ;
    assert(q < 0x1_0000_0000_0000_0000_0000_0000_0000_0000) by (nonlinear_arith)
        requires
            q == i * (total - 1),
            i < limit,
            limit < total,
            total <= 0xffff_ffff_ffff_ffff,
    ;
}

/// Up to `limit` page indices below `total`, spread evenly and always
/// including both ends once more than one is asked for.
pub fn sample_indices(total: usize, limit: usize) -> (r: Vec<usize>)
    ensures
        r@.map_values(|x: usize| x as int) == samples(total as nat, limit as nat),
{
    if total == 0 || limit == 0 {
        let r: Vec<usize> = Vec::new();
        proof {
            assert(r@.map_values(|x: usize| x as int) =~= samples(total as nat, limit as nat));
        }
        return r;
    }
    if total <= limit {
        let mut r: Vec<usize> = Vec::new();
        let mut i: usize = 0;
        while i < total
            invariant
                i <= total,
                r@.len() == i,
                forall|j: int| 0 <= j < i ==> r@[j] == j,
            decreases total - i,
        {
            r.push(i);
            i += 1;
        }
        proof {
            assert(r@.map_values(|x: usize| x as int) =~= samples(total as nat, limit as nat));
        }
        return r;
    }
    if limit == 1 {
        let mut r: Vec<usize> = Vec::new();
        r.push(0);
        proof {
            assert(r@.map_values(|x: usize| x as int) =~= samples(total as nat, limit as nat));
        }
        return r;
    }
    let d = (limit - 1) as u128;
    let mut r: Vec<usize> = Vec::new();
    let mut i: usize = 0;
    while i < limit
        invariant
            2 <= limit < total,
            d == limit - 1,
            i <= limit,
            r@.len() == i,
            forall|j: int| 0 <= j < i ==> r@[j] == spaced_index(total as nat, limit as nat, j as nat),
        decreases limit - i,
    {
        proof {
            lemma_spaced_index(total as nat, limit as nat, i as nat);
        }
        let q = (i as u128) * ((total - 1) as u128);
        let rem = q % d;
        let up: u128 = if 2 * rem >= d {
            1
        } else {
            0
        };
        let v = q / d + up;
        proof {
            assert(v == spaced_index(total as nat, limit as nat, i as nat));
        }
        r.push(v as usize);
        i += 1;
    }
    proof {
        assert(r@.map_values(|x: usize| x as int) =~= samples(total as nat, limit as nat));
    }
    r
}

/// Rounding `q / d` to the nearest integer, halves up, is `(2q + d) / 2d`.
proof fn lemma_rounded(q: int, d: int)
    requires
        q >= 0,
        d > 0,
    ensures
        q / d + (if 2 * (q % d) >= d {
            1int
        } else {
            0int
        }) == (2 * q + d) / (2 * d),
{
    let a = q / d;
    let b = q % d;
    vstd::arithmetic::div_mod::lemma_fundamental_div_mod(q, d);
    vstd::arithmetic::div_mod::lemma_mod_division_less_than_divisor(q, d);
    assert(q == d * a + b);
    if 2 * b >= d {
        assert(2 * q + d == (a + 1) * (2 * d) + (2 * b - d)) by (nonlinear_arith)
            requires
                q == d * a + b,
        ;
        vstd::arithmetic::div_mod::lemma_fundamental_div_mod_converse(2 * q + d, 2 * d, a + 1, 2 * b - d);
    } else {
        assert(2 * q + d == a * (2 * d) + (2 * b + d)) by (nonlinear_arith)
            requires
                q == d * a + b,
        ;
        vstd::arithmetic::div_mod::lemma_fundamental_div_mod_converse(2 * q + d, 2 * d, a, 2 * b + d);
    }
}

proof fn lemma_spaced_step(total: nat, limit: nat, i: nat, j: nat)
    requires
        limit >= 2,
        total > limit,
        i < j < limit,
    ensures
        spaced_index(total, limit, i) < spaced_index(total, limit, j),
{
    let d = (limit - 1) as int;
    let qi = i * (total - 1);
    let qj = j * (total - 1);
    assert(qj >= qi + (total - 1)) by (nonlinear_arith)
        requires
            i < j,
            total >= 1,
            qi == i * (total - 1),
            qj == j * (total - 1),
    ;
    assert(qi >= 0) by (nonlinear_arith)
        requires
            qi == i * (total - 1),
            total >= 1,
    ;
    lemma_rounded(qi, d);
    lemma_rounded(qj, d);
    let x = 2 * qi + d;
    let y = 2 * qj + d;
    assert(y >= x + 2 * d);
    vstd::arithmetic::div_mod::lemma_div_is_ordered(x + 2 * d, y, 2 * d);
    vstd::arithmetic::div_mod::lemma_div_plus_one(x, 2 * d);
    assert(x + 2 * d == 2 * d + x);
}

/// The sampled pages start at the first page, never repeat, stay inside the
/// document, and, once more than one is asked for, end at the last page.
pub proof fn lemma_samples_span_without_repeats(total: nat, limit: nat)
    requires
        total <= usize::MAX,
    ensures
        forall|i: int, j: int| 0 <= i < j < samples(total, limit).len() ==> samples(total, limit)[i] < samples(total, limit)[j],
        forall|i: int| 0 <= i < samples(total, limit).len() ==> 0 <= #[trigger] samples(total, limit)[i] < total,
        samples(total, limit).len() > 0 ==> samples(total, limit)[0] == 0,
        total >= 2 && limit >= 2 ==> samples(total, limit).len() >= 2 && samples(total, limit)[samples(total, limit).len() - 1] == total - 1,
{
    if total > limit && limit >= 2 {
        assert forall|i: int, j: int| 0 <= i < j < samples(total, limit).len() implies samples(total, limit)[i]
            < samples(total, limit)[j] by {
            lemma_spaced_step(total, limit, i as nat, j as nat);
        }
        assert forall|i: int| 0 <= i < samples(total, limit).len() implies 0 <= #[trigger] samples(total, limit)[i]
            < total by {
            lemma_spaced_index(total, limit, i as nat);
        }
        lemma_spaced_index(total, limit, 0);
        lemma_spaced_index(total, limit, (limit - 1) as nat);
        assert(0 * (total - 1) == 0);
        assert(spaced_index(total, limit, 0) == 0);
    }
}

} // verus!
