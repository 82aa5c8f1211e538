use vstd::prelude::*;
use crate::text::chars_of;

verus! {

/// `c` is an ASCII decimal digit.
pub open spec fn is_digit(c: char) -> bool {
    '0' <= c && c <= '9'
}

/// Every character of `s` is a decimal digit.
pub open spec fn all_digits(s: Seq<char>) -> bool {
    forall|i: int| 0 <= i < s.len() ==> is_digit(#[trigger] s[i])
}

/// The value of a run of decimal digits.
pub open spec fn digits_value(s: Seq<char>) -> nat
    decreases s.len(),
{
    if s.len() == 0 {
        0
    } else {
        digits_value(s.drop_last()) * 10 + ((s.last() as nat) - ('0' as nat)) as nat
    }
}

/// The digits of an unsigned number text: an optional leading `+` dropped.
pub open spec fn unsigned_digits(s: Seq<char>) -> Seq<char> {
    if s.len() > 0 && s[0] == '+' {
        s.skip(1)
    } else {
        s
    }
}

/// The value `usize::from_str` gives the text, if it accepts it: an
/// optional `+`, then at least one decimal digit, within range.
pub open spec fn usize_value(s: Seq<char>) -> Option<nat> {
    let d = unsigned_digits(s);
    if d.len() > 0 && all_digits(d) && digits_value(d) <= usize::MAX {
        Some(digits_value(d))
    } else {
        None
    }
}

/// The value `u32::from_str` gives the text, if it accepts it: an optional
/// `+`, then at least one decimal digit, within range.
pub open spec fn u32_value(s: Seq<char>) -> Option<nat> {
    let d = unsigned_digits(s);
    if d.len() > 0 && all_digits(d) && digits_value(d) <= u32::MAX {
        Some(digits_value(d))
    } else {
        None
    }
}

/// The value `i32::from_str` gives the text, if it accepts it: an optional
/// `+` or `-`, then at least one decimal digit, within range.
pub open spec fn i32_value(s: Seq<char>) -> Option<int> {
    if s.len() > 0 && s[0] == '-' {
        let d = s.skip(1);
        if d.len() > 0 && all_digits(d) && digits_value(d) <= 0x8000_0000 {
            Some(-(digits_value(d) as int))
        } else {
            None
        }
    } else {
        let d = unsigned_digits(s);
        if d.len() > 0 && all_digits(d) && digits_value(d) <= 0x7fff_ffff {
            Some(digits_value(d) as int)
        } else {
            None
        }
    }
}

proof fn lemma_digits_prefix(s: Seq<char>, i: int)
    requires
        0 <= i < s.len(),
        is_digit(s[i]),
    ensures
        digits_value(s.take(i + 1)) == digits_value(s.take(i)) * 10 + ((s[i] as nat) - ('0' as nat)),
{
    assert(s.take(i + 1).drop_last() =~= s.take(i));
}

proof fn lemma_digits_monotone(s: Seq<char>, i: int, j: int)
    requires
        0 <= i <= j <= s.len(),
        all_digits(s),
    ensures
        digits_value(s.take(i)) <= digits_value(s.take(j)),
    decreases j - i,
{
    if i < j {
        lemma_digits_monotone(s, i, j - 1);
        lemma_digits_prefix(s, j - 1);
    }
}

/// The value of the digits `cs[from..]`, if all are digits and the value
/// is at most `limit`.
fn digits_at_most(cs: &[char], from: usize, limit: u64) -> (r: Option<u64>)
    requires
        from <= cs@.len(),
        limit >= 9,
    ensures
        ({
            let d = cs@.skip(from as int);
            &&& r is Some <==> (all_digits(d) && digits_value(d) <= limit)
            &&& r matches Some(v) ==> v == digits_value(d)
        }),
{
    let ghost d = cs@.skip(from as int);
    let mut acc: u64 = 0;
    let mut i: usize = from;
    assert(d.take(0) =~= Seq::<char>::empty());
    while i < cs.len()
        invariant
            from <= i <= cs@.len(),
            d == cs@.skip(from as int),
            all_digits(d.take(i - from)),
            acc == digits_value(d.take(i - from)),
            acc <= limit,
            limit >= 9,
        decreases cs.len() - i,
    {
        let c = cs[i];
        assert(d[i - from] == c);
        if !('0' <= c && c <= '9') {
            assert(!all_digits(d));
            return None;
        }
        let dv = (c as u64) - ('0' as u64);
        proof {
            lemma_digits_prefix(d, i - from);
        }
        if acc > (limit - dv) / 10 {
            assert(digits_value(d.take(i - from + 1)) > limit) by (nonlinear_arith)
                requires
                    acc > (limit - dv) / 10,
                    digits_value(d.take(i - from + 1)) == acc * 10 + dv,
                    dv <= 9,
            ;
            proof {
                if all_digits(d) {
                    lemma_digits_monotone(d, i - from + 1, d.len() as int);
                    assert(d.take(d.len() as int) =~= d);
                }
            }
            return None;
        }
        assert(acc * 10 + dv <= limit) by (nonlinear_arith)
            requires
                acc <= (limit - dv) / 10,
                dv <= 9,
        ;
        acc = acc * 10 + dv;
        assert(all_digits(d.take(i - from + 1))) by {
            assert forall|k: int| 0 <= k < i - from + 1 implies is_digit(
                #[trigger] d.take(i - from + 1)[k],
            ) by {
                if k < i - from {
                    assert(d.take(i - from + 1)[k] == d.take(i - from)[k]);
                }
            }
        }
        i += 1;
    }
    assert(d.take(i - from) =~= d);
    Some(acc)
}

/// `usize::from_str`.
pub fn parse_usize(s: &str) -> (r: Option<usize>)
    ensures
        r matches Some(v) ==> usize_value(s@) == Some(v as nat),
        r is None ==> usize_value(s@) is None,
{
    let cs = chars_of(s);
    let from: usize = if cs.len() > 0 && cs[0] == '+' {
        1
    } else {
        0
    };
    assert(unsigned_digits(s@) == cs@.skip(from as int)) by {
        if from == 0 {
            assert(cs@.skip(0) =~= cs@);
        }
    }
    if from == cs.len() {
        return None;
    }
    match digits_at_most(cs.as_slice(), from, usize::MAX as u64) {
        Some(v) => Some(v as usize),
        None => None,
    }
}

/// `u32::from_str`.
pub fn parse_u32(s: &str) -> (r: Option<u32>)
    ensures
        r matches Some(v) ==> u32_value(s@) == Some(v as nat),
        r is None ==> u32_value(s@) is None,
{
    let cs = chars_of(s);
    let from: usize = if cs.len() > 0 && cs[0] == '+' {
        1
    } else {
        0
    };
    assert(unsigned_digits(s@) == cs@.skip(from as int)) by {
        if from == 0 {
            assert(cs@.skip(0) =~= cs@);
        }
    }
    if from == cs.len() {
        return None;
    }
    match digits_at_most(cs.as_slice(), from, u32::MAX as u64) {
        Some(v) => Some(v as u32),
        None => None,
    }
}

/// `i32::from_str`.
pub fn parse_i32(s: &str) -> (r: Option<i32>)
    ensures
        r matches Some(v) ==> i32_value(s@) == Some(v as int),
        r is None ==> i32_value(s@) is None,
{
    let cs = chars_of(s);
    if cs.len() > 0 && cs[0] == '-' {
        if cs.len() == 1 {
            return None;
        }
        match digits_at_most(cs.as_slice(), 1, 0x8000_0000) {
            Some(v) => {
                let n: i64 = -(v as i64);
                Some(n as i32)
            },
            None => None,
        }
    } else {
        let from: usize = if cs.len() > 0 && cs[0] == '+' {
            1
        } else {
            0
        };
        assert(unsigned_digits(s@) == cs@.skip(from as int)) by {
            if from == 0 {
                assert(cs@.skip(0) =~= cs@);
            }
        }
        if from == cs.len() {
            return None;
        }
        match digits_at_most(cs.as_slice(), from, 0x7fff_ffff) {
            Some(v) => Some(v as i32),
            None => None,
        }
    }
}

} // verus!
