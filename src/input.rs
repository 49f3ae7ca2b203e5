//! Reading a move typed as `row,col`.
//!
//! The line is stripped of surrounding whitespace (space, tab, carriage
//! return, line feed) and must then hold exactly one comma; the text on each
//! side of it must be a run of decimal digits whose value lies in `0..8`.

use vstd::prelude::*;
use vstd::string::StrSliceExecFns;

verus! {

/// Why a typed move was not accepted.
#[derive(Clone, Copy, Debug, PartialEq, Eq, Structural)]
pub enum InputError {
    /// The line does not split into exactly two fields at a comma.
    WrongFieldCount,
    /// A field is empty or holds something other than decimal digits.
    NotANumber,
    /// A field's value is 8 or more.
    OutOfRange,
}

pub open spec fn is_space(c: char) -> bool {
    c == ' ' || c == '\t' || c == '\n' || c == '\r'
}

/// `s` without its leading whitespace.
pub open spec fn trim_start(s: Seq<char>) -> Seq<char>
    decreases s.len(),
{
    if s.len() > 0 && is_space(s[0]) {
        trim_start(s.drop_first())
    } else {
        s
    }
}

/// `s` without its trailing whitespace.
pub open spec fn trim_end(s: Seq<char>) -> Seq<char>
    decreases s.len(),
{
    if s.len() > 0 && is_space(s.last()) {
        trim_end(s.drop_last())
    } else {
        s
    }
}

pub open spec fn trim(s: Seq<char>) -> Seq<char> {
    trim_end(trim_start(s))
}

/// The number of commas in `s`.
pub open spec fn comma_count(s: Seq<char>) -> nat
    decreases s.len(),
{
    if s.len() == 0 {
        0
    } else {
        comma_count(s.drop_last()) + if s.last() == ',' { 1nat } else { 0nat }
    }
}

/// The position of the last comma in `s`, or -1.
pub open spec fn last_comma(s: Seq<char>) -> int
    decreases s.len(),
{
    if s.len() == 0 {
        -1
    } else if s.last() == ',' {
        s.len() - 1
    } else {
        last_comma(s.drop_last())
    }
}

pub open spec fn is_digit(c: char) -> bool {
    48 <= c as u32 <= 57
}

/// A non-empty run of decimal digits.
pub open spec fn is_digits(f: Seq<char>) -> bool {
    f.len() > 0 && forall|i: int| 0 <= i < f.len() ==> is_digit(#[trigger] f[i])
}

/// The value of a run of decimal digits.
pub open spec fn digits_value(f: Seq<char>) -> int
    decreases f.len(),
{
    if f.len() == 0 {
        0
    } else {
        digits_value(f.drop_last()) * 10 + (f.last() as u32 - 48)
    }
}

/// What reading the line `s` as a move answers.
pub open spec fn parse_outcome(s: Seq<char>) -> Result<(int, int), InputError> {
    let t = trim(s);
    let k = last_comma(t);
    let a = t.subrange(0, k);
    let b = t.subrange(k + 1, t.len() as int);
    if comma_count(t) != 1 {
        Err(InputError::WrongFieldCount)
    } else if !is_digits(a) || !is_digits(b) {
        Err(InputError::NotANumber)
    } else if digits_value(a) >= 8 || digits_value(b) >= 8 {
        Err(InputError::OutOfRange)
    } else {
        Ok((digits_value(a), digits_value(b)))
    }
}

/// A run of digits never loses value when a digit is appended.
proof fn lemma_digits_grow(f: Seq<char>)
    requires
        f.len() > 0,
        forall|i: int| 0 <= i < f.len() ==> is_digit(#[trigger] f[i]),
    ensures
        digits_value(f) >= digits_value(f.drop_last()) >= 0,
{
    lemma_digits_nonneg(f.drop_last());
}

proof fn lemma_digits_nonneg(f: Seq<char>)
    requires
        forall|i: int| 0 <= i < f.len() ==> is_digit(#[trigger] f[i]),
    ensures
        digits_value(f) >= 0,
    decreases f.len(),
{
    if f.len() > 0 {
        assert forall|i: int| 0 <= i < f.drop_last().len() implies is_digit(#[trigger] f.drop_last()[i]) by {
            assert(f.drop_last()[i] == f[i]);
        }
        lemma_digits_nonneg(f.drop_last());
    }
}

/// The value of the field `v[lo..hi]`, capped at 8, or `None` when it is not
/// a run of digits.
fn field_value(v: &Vec<char>, lo: usize, hi: usize) -> (r: Option<usize>)
    requires
        lo <= hi <= v@.len(),
    ensures
        r is Some <==> is_digits(v@.subrange(lo as int, hi as int)),
        r matches Some(n) ==> n as int == (if digits_value(v@.subrange(lo as int, hi as int)) >= 8 {
            8
        } else {
            digits_value(v@.subrange(lo as int, hi as int))
        }),
{
    if lo == hi {
        return None;
    }
    let mut n: usize = 0;
    let mut i: usize = lo;
    while i < hi
        invariant
            lo <= i <= hi <= v@.len(),
            forall|m: int| lo <= m < i ==> is_digit(#[trigger] v@[m]),
            n <= 8,
            n as int == (if digits_value(v@.subrange(lo as int, i as int)) >= 8 {
                8
            } else {
                digits_value(v@.subrange(lo as int, i as int))
            }),
        decreases hi - i,
    {
        let c = v[i];
        let d = c as u32;
        if !(48 <= d && d <= 57) {
            assert(!is_digit(v@.subrange(lo as int, hi as int)[i - lo]));
            return None;
        }
        let ghost f = v@.subrange(lo as int, i + 1);
        assert(f.drop_last() =~= v@.subrange(lo as int, i as int));
        assert forall|m: int| 0 <= m < f.len() implies is_digit(#[trigger] f[m]) by {
            assert(f[m] == v@[lo + m]);
        }
        proof {
            lemma_digits_grow(f);
        }
        if n < 8 {
            n = n * 10 + (d - 48) as usize;
            if n > 8 {
                n = 8;
            }
        }
        i = i + 1;
    }
    assert forall|m: int| 0 <= m < hi - lo implies is_digit(
        #[trigger] v@.subrange(lo as int, hi as int)[m],
    ) by {
        assert(v@.subrange(lo as int, hi as int)[m] == v@[lo + m]);
    }
    Some(n)
}

/// Reads a move typed as `row,col`.
pub fn parse_move(line: &str) -> (r: Result<(isize, isize), InputError>)
    ensures
        r == (match parse_outcome(line@) {
            Ok((a, b)) => Ok((a as isize, b as isize)),
            Err(e) => Err(e),
        }),
{
    let len = line.unicode_len();
    let mut v: Vec<char> = Vec::new();
    let mut i: usize = 0;
    while i < len
        invariant
            len == line@.len(),
            i <= len,
            v@ == line@.subrange(0, i as int),
        decreases len - i,
    {
        v.push(line.get_char(i));
        i = i + 1;
        assert(v@ =~= line@.subrange(0, i as int));
    }
    assert(v@ =~= line@);
    let ghost s = v@;
    // leading whitespace
    let mut lo: usize = 0;
    while lo < len && (v[lo] == ' ' || v[lo] == '\t' || v[lo] == '\n' || v[lo] == '\r')
        invariant
            s == v@,
            len == s.len(),
            lo <= len,
            trim_start(s) == trim_start(s.subrange(lo as int, len as int)),
        decreases len - lo,
    {
        assert(s.subrange(lo as int, len as int).drop_first() =~= s.subrange(lo + 1, len as int));
        lo = lo + 1;
    }
    let ghost ts = s.subrange(lo as int, len as int);
    assert(trim_start(s) == ts);
    // trailing whitespace
    let mut hi: usize = len;
    while hi > lo && (v[hi - 1] == ' ' || v[hi - 1] == '\t' || v[hi - 1] == '\n' || v[hi - 1] == '\r')
        invariant
            s == v@,
            len == s.len(),
            lo <= hi <= len,
            ts == s.subrange(lo as int, len as int),
            trim_end(ts) == trim_end(s.subrange(lo as int, hi as int)),
        decreases hi,
    {
        assert(s.subrange(lo as int, hi as int).drop_last() =~= s.subrange(lo as int, hi - 1));
        hi = hi - 1;
    }
    let ghost t = s.subrange(lo as int, hi as int);
    assert(trim(s) == t);
    // the comma
    let mut commas: usize = 0;
    let mut at: usize = 0;
    let mut j: usize = lo;
    while j < hi
        invariant
            s == v@,
            lo <= j <= hi <= len == s.len(),
            t == s.subrange(lo as int, hi as int),
            commas as int == comma_count(s.subrange(lo as int, j as int)),
            commas <= j - lo,
            commas > 0 ==> lo <= at < j && at - lo == last_comma(s.subrange(lo as int, j as int)),
            commas == 0 ==> last_comma(s.subrange(lo as int, j as int)) == -1,
        decreases hi - j,
    {
        assert(s.subrange(lo as int, j + 1).drop_last() =~= s.subrange(lo as int, j as int));
        if v[j] == ',' {
            commas = commas + 1;
            at = j;
        }
        j = j + 1;
    }
    assert(s.subrange(lo as int, j as int) =~= t);
    if commas != 1 {
        return Err(InputError::WrongFieldCount);
    }
    assert(t.subrange(0, at - lo) =~= s.subrange(lo as int, at as int));
    assert(t.subrange(at - lo + 1, t.len() as int) =~= s.subrange(at + 1, hi as int));
    let a = field_value(&v, lo, at);
    let b = field_value(&v, at + 1, hi);
    match (a, b) {
        (Some(x), Some(y)) => {
            if x >= 8 || y >= 8 {
                Err(InputError::OutOfRange)
            } else {
                Ok((x as isize, y as isize))
            }
        },
        _ => Err(InputError::NotANumber),
    }
}

} // verus!
