//! The version format check: exactly three dot-separated decimal numerals,
//! each one a 32-bit unsigned integer.

use vstd::prelude::*;

verus! {

/// Whether `c` is a decimal digit.
pub open spec fn is_digit(c: char) -> bool {
    '0' <= c && c <= '9'
}

/// The numeric value of the digit `c`.
pub open spec fn digit_val(c: char) -> int {
    c as int - '0' as int
}

/// The value of `s` read as a decimal numeral.
pub open spec fn dec_value(s: Seq<char>) -> int
    decreases s.len(),
{
    if s.len() == 0 {
        0
    } else {
        dec_value(s.drop_last()) * 10 + digit_val(s.last())
    }
}

/// Whether `s` is a decimal numeral whose value fits in 32 bits: non-empty,
/// digits only, value at most `u32::MAX`.
pub open spec fn is_u32_numeral(s: Seq<char>) -> bool {
    &&& s.len() > 0
    &&& forall|k: int| 0 <= k < s.len() ==> is_digit(#[trigger] s[k])
    &&& dec_value(s) <= u32::MAX
}

/// Whether the dots at positions `i < j` split `s` into three 32-bit
/// numerals. Since numerals hold no dots, at most one pair of positions can
/// satisfy this for a given `s`.
pub open spec fn semver_split_at(s: Seq<char>, i: int, j: int) -> bool {
    &&& 0 <= i < j < s.len()
    &&& s[i] == '.'
    &&& s[j] == '.'
    &&& is_u32_numeral(s.subrange(0, i))
    &&& is_u32_numeral(s.subrange(i + 1, j))
    &&& is_u32_numeral(s.subrange(j + 1, s.len() as int))
}

/// The version format: three dot-separated 32-bit decimal numerals.
pub open spec fn is_valid_semver_spec(s: Seq<char>) -> bool {
    exists|i: int, j: int| semver_split_at(s, i, j)
}

/// The value of a digit sequence is never negative.
proof fn lemma_dec_value_nonneg(s: Seq<char>)
    requires
        forall|k: int| 0 <= k < s.len() ==> is_digit(#[trigger] s[k]),
    ensures
        dec_value(s) >= 0,
    decreases s.len(),
{
    if s.len() > 0 {
        lemma_dec_value_nonneg(s.drop_last());
    }
}

/// Extending a digit sequence cannot shrink its value.
proof fn lemma_dec_value_prefix_le(s: Seq<char>, n: int)
    requires
        forall|k: int| 0 <= k < s.len() ==> is_digit(#[trigger] s[k]),
        0 <= n <= s.len(),
    ensures
        dec_value(s.subrange(0, n)) <= dec_value(s),
    decreases s.len() - n,
{
    if n == s.len() {
        assert(s.subrange(0, n) =~= s);
    } else {
        lemma_dec_value_prefix_le(s, n + 1);
        let p = s.subrange(0, n + 1);
        assert(p.drop_last() =~= s.subrange(0, n));
        lemma_dec_value_nonneg(p.drop_last());
        assert(dec_value(p) == dec_value(p.drop_last()) * 10 + digit_val(p.last()));
        assert(dec_value(p.drop_last()) <= dec_value(p.drop_last()) * 10);
    }
}

/// Whether the characters of `s` from `from` (inclusive) to `to` (exclusive)
/// form a 32-bit decimal numeral.
fn is_u32_range(s: &str, from: usize, to: usize) -> (r: bool)
    requires
        from <= to <= s@.len(),
    ensures
        r == is_u32_numeral(s@.subrange(from as int, to as int)),
{
    let ghost part = s@.subrange(from as int, to as int);
    if from == to {
        return false;
    }
    let mut k: usize = from;
    let mut val: u64 = 0;
    while k < to
        invariant
            from <= k <= to <= s@.len(),
            part == s@.subrange(from as int, to as int),
            forall|t: int| 0 <= t < k - from ==> is_digit(#[trigger] part[t]),
            val == dec_value(part.subrange(0, k - from)),
            val <= u32::MAX,
        decreases to - k,
    {
        let c = s.get_char(k);
        if c < '0' || c > '9' {
            assert(part[k - from] == c);
            return false;
        }
        let d: u32 = (c as u32) - ('0' as u32);
        let next: u64 = val * 10 + (d as u64);
        proof {
            let p = part.subrange(0, k - from + 1);
            assert(p.drop_last() =~= part.subrange(0, k - from));
            assert(p.last() == part[k - from]);
            assert(part[k - from] == c);
            assert(next == dec_value(p));
        }
        if next > u32::MAX as u64 {
            proof {
                assert(forall|t: int| 0 <= t < part.len() && t < k - from + 1 ==> is_digit(
                    #[trigger] part[t],
                ));
                if is_u32_numeral(part) {
                    lemma_dec_value_prefix_le(part, k - from + 1);
                }
            }
            return false;
        }
        val = next;
        k = k + 1;
    }
    proof {
        assert(part.subrange(0, part.len() as int) =~= part);
    }
    true
}

/// Check whether a version string is three dot-separated 32-bit decimal
/// numerals, such as "0.1.0".
pub fn is_valid_semver(version: &str) -> (r: bool)
    ensures
        r == is_valid_semver_spec(version@),
{
    let n = version.unicode_len();
    let mut first: usize = 0;
    let mut second: usize = 0;
    let mut dots: usize = 0;
    let mut k: usize = 0;
    while k < n
        invariant
            0 <= k <= n,
            n == version@.len(),
            dots <= 2,
            dots >= 1 ==> 0 <= first < k && version@[first as int] == '.',
            dots >= 2 ==> first < second < k && version@[second as int] == '.',
            forall|t: int|
                0 <= t < k && #[trigger] version@[t] == '.' ==> (dots >= 1 && t == first) || (dots
                    >= 2 && t == second),
        decreases n - k,
    {
        if version.get_char(k) == '.' {
            if dots == 0 {
                first = k;
                dots = 1;
            } else if dots == 1 {
                second = k;
                dots = 2;
            } else {
                // a third dot: no split into three numerals exists, since the
                // numeral parts of any witness would have to contain a dot
                proof {
                    if is_valid_semver_spec(version@) {
                        let (i, j) = choose|i: int, j: int| semver_split_at(version@, i, j);
                        lemma_dots_match(version@, i, j);
                        assert(first as int == i || first as int == j);
                        assert(second as int == i || second as int == j);
                        assert(k as int == i || k as int == j);
                    }
                }
                return false;
            }
        }
        k = k + 1;
    }
    if dots != 2 {
        proof {
            if is_valid_semver_spec(version@) {
                let (i, j) = choose|i: int, j: int| semver_split_at(version@, i, j);
                assert(version@[i] == '.' && version@[j] == '.');
            }
        }
        return false;
    }
    let r = is_u32_range(version, 0, first) && is_u32_range(version, first + 1, second)
        && is_u32_range(version, second + 1, n);
    proof {
        if r {
            assert(semver_split_at(version@, first as int, second as int));
        } else {
            if is_valid_semver_spec(version@) {
                let (i, j) = choose|i: int, j: int| semver_split_at(version@, i, j);
                lemma_dots_match(version@, i, j);
                assert(version@[i] == '.' && version@[j] == '.');
                assert(i == first && j == second);
            }
        }
    }
    r
}

/// In a valid split, the split positions are the only dots of the string.
proof fn lemma_dots_match(s: Seq<char>, i: int, j: int)
    requires
        semver_split_at(s, i, j),
    ensures
        forall|t: int| 0 <= t < s.len() && #[trigger] s[t] == '.' ==> t == i || t == j,
{
    assert forall|t: int| 0 <= t < s.len() && #[trigger] s[t] == '.' implies t == i || t
        == j by {
        if t < i {
            assert(s.subrange(0, i)[t] == '.');
        } else if i < t < j {
            assert(s.subrange(i + 1, j)[t - (i + 1)] == '.');
        } else if t > j {
            assert(s.subrange(j + 1, s.len() as int)[t - (j + 1)] == '.');
        }
    }
}

} // verus!
