//! Decimal parsing for built-in command arguments: an exit code (signed,
//! full `i32` range) and a job id (unsigned, bounded well above any id the
//! table can hold).

use vstd::prelude::*;

verus! {

pub open spec fn is_digit(c: char) -> bool {
    48 <= c as u32 <= 57
}

pub open spec fn digit_val(c: char) -> int {
    c as u32 - 48
}

pub open spec fn all_digits(s: Seq<char>) -> bool {
    forall|i: int| 0 <= i < s.len() ==> is_digit(#[trigger] s[i])
}

/// Value of a digit string read in base ten.
pub open spec fn digits_val(s: Seq<char>) -> int
    decreases s.len(),
{
    if s.len() == 0 {
        0
    } else {
        digits_val(s.drop_last()) * 10 + digit_val(s.last())
    }
}

/// An optional sign followed by at least one digit, with the value in the
/// range of `i32`; anything else is rejected.
pub open spec fn parse_i32_spec(s: Seq<char>) -> Option<i32> {
    let neg = s.len() > 0 && s[0] == '-';
    let ds = if s.len() > 0 && (s[0] == '-' || s[0] == '+') {
        s.subrange(1, s.len() as int)
    } else {
        s
    };
    if ds.len() == 0 || !all_digits(ds) {
        None
    } else {
        let v: int = if neg {
            -digits_val(ds)
        } else {
            digits_val(ds)
        };
        if -0x8000_0000 <= v <= 0x7fff_ffff {
            Some(v as i32)
        } else {
            None
        }
    }
}

/// An optional plus sign followed by at least one digit. A value above
/// `0x7fff_ffff` is rejected like a malformed one: the job table can never
/// hold an id that large, so such an argument can only name an unknown job.
pub open spec fn parse_job_id_spec(s: Seq<char>) -> Option<u64> {
    let ds = if s.len() > 0 && s[0] == '+' {
        s.subrange(1, s.len() as int)
    } else {
        s
    };
    if ds.len() == 0 || !all_digits(ds) {
        None
    } else if digits_val(ds) <= 0x7fff_ffff {
        Some(digits_val(ds) as u64)
    } else {
        None
    }
}

proof fn lemma_digits_val_nonneg(s: Seq<char>)
    requires
        all_digits(s),
    ensures
        0 <= digits_val(s),
    decreases s.len(),
{
    if s.len() > 0 {
        assert(all_digits(s.drop_last())) by {
            assert(forall|i: int| 0 <= i < s.len() - 1 ==> is_digit(#[trigger] s[i]));
        }
        lemma_digits_val_nonneg(s.drop_last());
        assert(is_digit(s.last()));
    }
}

/// A digit string is worth at least any of its prefixes.
proof fn lemma_digits_val_prefix(s: Seq<char>, m: int)
    requires
        all_digits(s),
        0 <= m <= s.len(),
    ensures
        digits_val(s.subrange(0, m)) <= digits_val(s),
    decreases s.len() - m,
{
    if m == s.len() {
        assert(s.subrange(0, m) =~= s);
    } else {
        lemma_digits_val_prefix(s, m + 1);
        let p = s.subrange(0, m + 1);
        assert(p.drop_last() =~= s.subrange(0, m));
        assert(p.last() == s[m]);
        assert(all_digits(s.subrange(0, m))) by {
            assert(forall|i: int| 0 <= i < m ==> is_digit(#[trigger] s[i]));
        }
        lemma_digits_val_nonneg(s.subrange(0, m));
        assert(is_digit(s[m]));
        assert(digits_val(s.subrange(0, m)) <= digits_val(p));
    }
}

/// Parse a signed decimal exit code, exactly as `parse_i32_spec` reads it.
#[verifier::loop_isolation(false)]
pub fn parse_i32(s: &str) -> (r: Option<i32>)
    ensures
        r == parse_i32_spec(s@),
{
    let n = s.unicode_len();
    if n == 0 {
        return None;
    }
    let c0 = s.get_char(0);
    let neg = c0 == '-';
    let start: usize = if c0 == '-' || c0 == '+' {
        1
    } else {
        0
    };
    let ghost ds = s@.subrange(start as int, n as int);
    proof {
        if start == 0 {
            assert(ds =~= s@);
        }
    }
    if n == start {
        return None;
    }
    let mut acc: i64 = 0;
    let mut i = start;
    while i < n
        invariant
            start <= i <= n,
            n == s@.len(),
            start <= 1,
            ds == s@.subrange(start as int, n as int),
            0 <= acc <= 0x8000_0000,
            acc == digits_val(s@.subrange(start as int, i as int)),
            all_digits(s@.subrange(start as int, i as int)),
        decreases n - i,
    {
        let c = s.get_char(i);
        let d = c as u32;
        let ghost prefix = s@.subrange(start as int, i as int);
        let ghost prefix2 = s@.subrange(start as int, i + 1 as int);
        proof {
            assert(prefix2.drop_last() =~= prefix);
            assert(prefix2.last() == s@[i as int]);
        }
        if d < 48 || d > 57 {
            proof {
                assert(!is_digit(ds[i - start]));
                assert(!all_digits(ds));
            }
            return None;
        }
        acc = acc * 10 + ((d - 48) as i64);
        proof {
            assert(acc == digits_val(prefix2));
            assert(all_digits(prefix2));
        }
        if acc > 0x8000_0000 {
            proof {
                if all_digits(ds) {
                    lemma_digits_val_prefix(ds, i + 1 - start);
                    assert(ds.subrange(0, i + 1 - start) =~= prefix2);
                    assert(digits_val(ds) > 0x8000_0000);
                }
            }
            return None;
        }
        i += 1;
    }
    proof {
        assert(s@.subrange(start as int, n as int) =~= ds);
    }
    if neg {
        if acc == 0 {
            Some(0)
        } else {
            Some((-acc) as i32)
        }
    } else {
        if acc <= 0x7fff_ffff {
            Some(acc as i32)
        } else {
            None
        }
    }
}

/// Parse an unsigned decimal job id, exactly as `parse_job_id_spec` reads it.
#[verifier::loop_isolation(false)]
pub fn parse_job_id(s: &str) -> (r: Option<u64>)
    ensures
        r == parse_job_id_spec(s@),
{
    let n = s.unicode_len();
    if n == 0 {
        return None;
    }
    let c0 = s.get_char(0);
    let start: usize = if c0 == '+' {
        1
    } else {
        0
    };
    let ghost ds = s@.subrange(start as int, n as int);
    proof {
        if start == 0 {
            assert(ds =~= s@);
        }
    }
    if n == start {
        return None;
    }
    let mut acc: u64 = 0;
    let mut i = start;
    while i < n
        invariant
            start <= i <= n,
            n == s@.len(),
            start <= 1,
            ds == s@.subrange(start as int, n as int),
            acc <= 0x7fff_ffff,
            acc == digits_val(s@.subrange(start as int, i as int)),
            all_digits(s@.subrange(start as int, i as int)),
        decreases n - i,
    {
        let c = s.get_char(i);
        let d = c as u32;
        let ghost prefix = s@.subrange(start as int, i as int);
        let ghost prefix2 = s@.subrange(start as int, i + 1 as int);
        proof {
            assert(prefix2.drop_last() =~= prefix);
            assert(prefix2.last() == s@[i as int]);
        }
        if d < 48 || d > 57 {
            proof {
                assert(!is_digit(ds[i - start]));
                assert(!all_digits(ds));
            }
            return None;
        }
        let step = acc * 10 + ((d - 48) as u64);
        proof {
            assert(step == digits_val(prefix2));
            assert(all_digits(prefix2));
        }
        if step > 0x7fff_ffff {
            proof {
                if all_digits(ds) {
                    lemma_digits_val_prefix(ds, i + 1 - start);
                    assert(ds.subrange(0, i + 1 - start) =~= prefix2);
                    assert(digits_val(ds) > 0x7fff_ffff);
                }
            }
            return None;
        }
        acc = step;
        i += 1;
    }
    proof {
        assert(s@.subrange(start as int, n as int) =~= ds);
    }
    Some(acc)
}

} // verus!
