//! The textual instance format: a line holding the number of cities, then
//! one line per matrix row with its entries separated by tabs.
use vstd::prelude::*;

use crate::sop::Cost;

verus! {

pub const TAB: u8 = 9;

pub open spec fn is_digit(b: u8) -> bool {
    48 <= b <= 57
}

/// A non-empty run of decimal digits.
pub open spec fn all_digits(s: Seq<u8>) -> bool {
    s.len() > 0 && forall|k: int| 0 <= k < s.len() ==> is_digit(#[trigger] s[k])
}

/// The number written by a run of decimal digits.
pub open spec fn digits_value(s: Seq<u8>) -> int
    decreases s.len(),
{
    if s.len() == 0 {
        0
    } else {
        digits_value(s.drop_last()) * 10 + (s.last() - 48)
    }
}

/// Value of an optionally `+`-prefixed run of digits.
pub open spec fn unsigned_text(s: Seq<u8>) -> Option<int> {
    if s.len() > 0 && s[0] == 43 {
        if all_digits(s.drop_first()) {
            Some(digits_value(s.drop_first()))
        } else {
            None
        }
    } else if all_digits(s) {
        Some(digits_value(s))
    } else {
        None
    }
}

/// Value of an optionally signed run of digits.
pub open spec fn signed_text(s: Seq<u8>) -> Option<int> {
    if s.len() > 0 && s[0] == 45 {
        if all_digits(s.drop_first()) {
            Some(-digits_value(s.drop_first()))
        } else {
            None
        }
    } else {
        unsigned_text(s)
    }
}

/// `s` read as a `u32`, as `str::parse::<u32>` reads it.
pub open spec fn u32_text(s: Seq<u8>) -> Option<u32> {
    match unsigned_text(s) {
        Some(v) => if v <= u32::MAX {
            Some(v as u32)
        } else {
            None
        },
        None => None,
    }
}

/// `s` read as an `i32`, as `str::parse::<i32>` reads it.
pub open spec fn i32_text(s: Seq<u8>) -> Option<i32> {
    match signed_text(s) {
        Some(v) => if i32::MIN <= v <= i32::MAX {
            Some(v as i32)
        } else {
            None
        },
        None => None,
    }
}

/// The tab-separated fields of a line, empty fields left out.
pub open spec fn tokens(s: Seq<u8>) -> Seq<Seq<u8>>
    decreases s.len(),
{
    if s.len() == 0 {
        Seq::empty()
    } else if s[0] == TAB {
        tokens(s.drop_first())
    } else {
        let t = tokens(s.drop_first());
        if s.len() > 1 && s[1] != TAB && t.len() > 0 {
            t.update(0, seq![s[0]] + t[0])
        } else {
            seq![seq![s[0]]] + t
        }
    }
}

/// The integer a token stands for (0 for a token that is not one).
pub open spec fn token_value(t: Seq<u8>) -> Cost {
    match i32_text(t) {
        Some(v) => v,
        None => 0,
    }
}

/// The entries of a matrix row, when every token of the line is an integer.
pub open spec fn row_values(line: Seq<u8>) -> Option<Seq<Cost>> {
    let t = tokens(line);
    if forall|k: int| 0 <= k < t.len() ==> (#[trigger] i32_text(t[k])).is_some() {
        Some(t.map_values(|x: Seq<u8>| token_value(x)))
    } else {
        None
    }
}

proof fn lemma_digits_nonneg(s: Seq<u8>)
    requires
        forall|k: int| 0 <= k < s.len() ==> is_digit(#[trigger] s[k]),
    ensures
        digits_value(s) >= 0,
    decreases s.len(),
{
    if s.len() > 0 {
        let d = s.drop_last();
        assert forall|k: int| 0 <= k < d.len() implies is_digit(#[trigger] d[k]) by {
            assert(d[k] == s[k]);
        }
        lemma_digits_nonneg(d);
    }
}

/// A longer run of digits never writes a smaller number.
proof fn lemma_digits_prefix(s: Seq<u8>, k: int)
    requires
        0 <= k <= s.len(),
        forall|q: int| 0 <= q < s.len() ==> is_digit(#[trigger] s[q]),
    ensures
        digits_value(s.take(k)) <= digits_value(s),
    decreases s.len() - k,
{
    if k < s.len() {
        lemma_digits_prefix(s, k + 1);
        let t = s.take(k + 1);
        assert(t.drop_last() =~= s.take(k));
        assert forall|q: int| 0 <= q < s.take(k).len() implies is_digit(#[trigger] s.take(k)[q]) by {
            assert(s.take(k)[q] == s[q]);
        }
        lemma_digits_nonneg(s.take(k));
    } else {
        assert(s.take(k) =~= s);
    }
}

/// A field of `s` running from `i` to `j`, with no tab inside and a tab or
/// the end of the line after it, is the first token of `s[i..]`.
proof fn lemma_token_head(s: Seq<u8>, i: int, j: int)
    requires
        0 <= i < j <= s.len(),
        forall|q: int| i <= q < j ==> #[trigger] s[q] != TAB,
        j == s.len() || s[j] == TAB,
    ensures
        tokens(s.skip(i)) == seq![s.subrange(i, j)] + tokens(s.skip(j)),
    decreases j - i,
{
    let a = s.skip(i);
    assert(a.drop_first() =~= s.skip(i + 1));
    assert(a[0] == s[i]);
    if i + 1 == j {
        assert(s.subrange(i, j) =~= seq![s[i]]);
        if a.len() > 1 {
            assert(a[1] == s[j]);
        }
    } else {
        lemma_token_head(s, i + 1, j);
        assert(a[1] == s[i + 1]);
        let t = tokens(s.skip(i + 1));
        assert(t[0] == s.subrange(i + 1, j));
        assert(seq![s[i]] + s.subrange(i + 1, j) =~= s.subrange(i, j));
        assert(t.update(0, seq![s[i]] + t[0]) =~= seq![s.subrange(i, j)] + tokens(s.skip(j)));
    }
}

/// The entries of one matrix row, or `None` when a field is not an `i32`.
pub fn parse_row(line: &Vec<u8>) -> (r: Option<Vec<Cost>>)
    ensures
        r is Some <==> row_values(line@) is Some,
        r matches Some(v) ==> row_values(line@) == Some(v@),
{
    let ghost s = line@;
    let ghost mut done: Seq<Seq<u8>> = Seq::empty();
    let mut out: Vec<Cost> = Vec::new();
    let mut i: usize = 0;
    proof {
        assert(s.skip(0) =~= s);
    }
    while i < line.len()
        invariant
            s == line@,
            i <= s.len(),
            tokens(s) == done + tokens(s.skip(i as int)),
            out@ == done.map_values(|x: Seq<u8>| token_value(x)),
            forall|k: int| 0 <= k < done.len() ==> (#[trigger] i32_text(done[k])).is_some(),
        decreases s.len() - i,
    {
        if line[i] == TAB {
            proof {
                assert(s.skip(i as int).drop_first() =~= s.skip(i as int + 1));
            }
            i += 1;
        } else {
            let mut j: usize = i + 1;
            while j < line.len() && line[j] != TAB
                invariant
                    s == line@,
                    i < j <= s.len(),
                    forall|q: int| i <= q < j ==> #[trigger] s[q] != TAB,
                decreases s.len() - j,
            {
                j += 1;
            }
            proof {
                lemma_token_head(s, i as int, j as int);
            }
            let v = parse_i32(line, i, j);
            match v {
                Some(x) => {
                    out.push(x);
                    proof {
                        let t = s.subrange(i as int, j as int);
                        assert(done + tokens(s.skip(i as int)) =~= done.push(t) + tokens(
                            s.skip(j as int),
                        ));
                        done = done.push(t);
                        assert(out@ =~= done.map_values(|x: Seq<u8>| token_value(x)));
                    }
                    i = j;
                },
                None => {
                    proof {
                        let t = tokens(s);
                        assert(t[done.len() as int] == s.subrange(i as int, j as int));
                        assert(i32_text(t[done.len() as int]).is_none());
                    }
                    return None;
                },
            }
        }
    }
    proof {
        assert(s.skip(i as int).len() == 0);
        assert(tokens(s) =~= done);
    }
    Some(out)
}

/// The number written by the digits `line[start..end]`, when they are all
/// digits and the number is at most `limit`.
fn digits_in(line: &Vec<u8>, start: usize, end: usize, limit: u64) -> (r: Option<u64>)
    requires
        start <= end <= line@.len(),
        limit <= u32::MAX + 1,
    ensures
        ({
            let s = line@.subrange(start as int, end as int);
            &&& r is Some <==> all_digits(s) && digits_value(s) <= limit
            &&& r matches Some(v) ==> v == digits_value(s)
        }),
{
    let ghost s = line@.subrange(start as int, end as int);
    if start == end {
        return None;
    }
    let mut v: u64 = 0;
    let mut k: usize = start;
    while k < end
        invariant
            start < end <= line@.len(),
            s == line@.subrange(start as int, end as int),
            start <= k <= end,
            limit <= u32::MAX + 1,
            v <= limit,
            forall|q: int| start <= q < k ==> is_digit(#[trigger] line@[q]),
            v == digits_value(line@.subrange(start as int, k as int)),
        decreases end - k,
    {
        let b = line[k];
        if b < 48 || b > 57 {
            proof {
                assert(s[k - start] == b);
            }
            return None;
        }
        proof {
            let t = line@.subrange(start as int, k as int + 1);
            assert(t.drop_last() =~= line@.subrange(start as int, k as int));
        }
        v = v * 10 + (b - 48) as u64;
        k += 1;
        if v > limit {
            proof {
                assert(s.take(k - start) =~= line@.subrange(start as int, k as int));
                if all_digits(s) {
                    lemma_digits_prefix(s, k - start);
                }
            }
            return None;
        }
    }
    proof {
        assert(line@.subrange(start as int, k as int) =~= s);
    }
    Some(v)
}

/// `line[start..end]` read as an `i32`.
fn parse_i32(line: &Vec<u8>, start: usize, end: usize) -> (r: Option<i32>)
    requires
        start <= end <= line@.len(),
    ensures
        r == i32_text(line@.subrange(start as int, end as int)),
{
    let ghost s = line@.subrange(start as int, end as int);
    if start < end && line[start] == 45 {
        proof {
            assert(line@.subrange(start as int + 1, end as int) =~= s.drop_first());
        }
        match digits_in(line, start + 1, end, 2147483648) {
            Some(v) => Some((0 - v as i64) as i32),
            None => {
                proof {
                    if all_digits(s.drop_first()) {
                        lemma_digits_nonneg(s.drop_first());
                    }
                }
                None
            },
        }
    } else if start < end && line[start] == 43 {
        proof {
            assert(line@.subrange(start as int + 1, end as int) =~= s.drop_first());
        }
        match digits_in(line, start + 1, end, 2147483647) {
            Some(v) => Some(v as i32),
            None => None,
        }
    } else {
        proof {
            if all_digits(s) {
                lemma_digits_nonneg(s);
            }
        }
        match digits_in(line, start, end, 2147483647) {
            Some(v) => Some(v as i32),
            None => None,
        }
    }
}

/// A whole line read as a `u32`.
pub fn parse_u32(line: &Vec<u8>) -> (r: Option<u32>)
    ensures
        r == u32_text(line@),
{
    let end = line.len();
    proof {
        assert(line@.subrange(0, end as int) =~= line@);
    }
    if end > 0 && line[0] == 43 {
        proof {
            assert(line@.subrange(1, end as int) =~= line@.drop_first());
        }
        match digits_in(line, 1, end, 4294967295) {
            Some(v) => Some(v as u32),
            None => None,
        }
    } else {
        match digits_in(line, 0, end, 4294967295) {
            Some(v) => Some(v as u32),
            None => None,
        }
    }
}

} // verus!
