//! Character-level text utilities for the board's serialized format:
//! whitespace trimming, splitting on a separator, decimal parsing and
//! decimal formatting, each as a spec-level definition with a verified
//! executable counterpart.

use vstd::prelude::*;

verus! {

/// Whitespace tolerated around the input and around each numeric field.
pub open spec fn is_ws(c: char) -> bool {
    c == ' ' || c == '\t' || c == '\r' || c == '\n'
}

/// An ASCII decimal digit.
pub open spec fn is_digit(c: char) -> bool {
    '0' as int <= c as int && c as int <= '9' as int
}

/// The numeric value of a single digit character.
pub open spec fn digit_val(c: char) -> int {
    c as int - '0' as int
}

/// Whether every character of `s` is a decimal digit.
pub open spec fn all_digits(s: Seq<char>) -> bool {
    forall|i: int| 0 <= i < s.len() ==> is_digit(#[trigger] s[i])
}

/// The value of a digit string read most-significant-first.
pub open spec fn digits_val(s: Seq<char>) -> int
    decreases s.len(),
{
    if s.len() == 0 {
        0
    } else {
        digits_val(s.drop_last()) * 10 + digit_val(s.last())
    }
}

/// `s` with leading whitespace removed.
pub open spec fn trim_front(s: Seq<char>) -> Seq<char>
    decreases s.len(),
{
    if s.len() > 0 && is_ws(s[0]) {
        trim_front(s.subrange(1, s.len() as int))
    } else {
        s
    }
}

/// `s` with trailing whitespace removed.
pub open spec fn trim_back(s: Seq<char>) -> Seq<char>
    decreases s.len(),
{
    if s.len() > 0 && is_ws(s.last()) {
        trim_back(s.drop_last())
    } else {
        s
    }
}

/// `s` with whitespace removed from both ends.
pub open spec fn spec_trim(s: Seq<char>) -> Seq<char> {
    trim_back(trim_front(s))
}

/// The parts of `s` between occurrences of `sep`: always at least one
/// part, and one more part than there are separators.
pub open spec fn spec_split(s: Seq<char>, sep: char) -> Seq<Seq<char>>
    decreases s.len(),
{
    if s.len() == 0 {
        seq![Seq::<char>::empty()]
    } else if s[0] == sep {
        seq![Seq::<char>::empty()] + spec_split(s.subrange(1, s.len() as int), sep)
    } else {
        let rest = spec_split(s.subrange(1, s.len() as int), sep);
        seq![seq![s[0]] + rest[0]] + rest.subrange(1, rest.len() as int)
    }
}

/// What parsing one numeric field yields: the field is trimmed, and must
/// then be one or more decimal digits whose value fits in `usize`.
pub open spec fn spec_parse_field(s: Seq<char>) -> Option<usize> {
    let t = spec_trim(s);
    if t.len() > 0 && all_digits(t) && digits_val(t) <= usize::MAX as int {
        Some(digits_val(t) as usize)
    } else {
        None
    }
}

/// What parsing a `"<a><sep><b>"` pair yields: exactly two parts around
/// `sep`, each a valid numeric field.
pub open spec fn spec_parse_pair(s: Seq<char>, sep: char) -> Option<(usize, usize)> {
    let parts = spec_split(s, sep);
    if parts.len() == 2 {
        match (spec_parse_field(parts[0]), spec_parse_field(parts[1])) {
            (Some(a), Some(b)) => Some((a, b)),
            _ => None,
        }
    } else {
        None
    }
}

/// The canonical decimal rendering of `n`, most significant digit first,
/// with no sign and no leading zeros.
pub open spec fn spec_dec(n: int) -> Seq<char>
    decreases n,
{
    if n < 0 {
        Seq::empty()
    } else if n < 10 {
        seq![spec_digit_char(n)]
    } else {
        spec_dec(n / 10) + seq![spec_digit_char(n % 10)]
    }
}

/// The digit character for a value in `0..=9`.
pub open spec fn spec_digit_char(d: int) -> char {
    if d == 0 {
        '0'
    } else if d == 1 {
        '1'
    } else if d == 2 {
        '2'
    } else if d == 3 {
        '3'
    } else if d == 4 {
        '4'
    } else if d == 5 {
        '5'
    } else if d == 6 {
        '6'
    } else if d == 7 {
        '7'
    } else if d == 8 {
        '8'
    } else {
        '9'
    }
}

/// A digit string never has a negative value.
pub proof fn lemma_digits_val_nonneg(s: Seq<char>)
    requires
        all_digits(s),
    ensures
        digits_val(s) >= 0,
    decreases s.len(),
{
    if s.len() > 0 {
        assert(all_digits(s.drop_last())) by {
            assert forall|i: int| 0 <= i < s.drop_last().len() implies is_digit(
                #[trigger] s.drop_last()[i],
            ) by {
                assert(s.drop_last()[i] == s[i]);
            }
        }
        lemma_digits_val_nonneg(s.drop_last());
    }
}

/// Reading more digits never makes the value smaller.
pub proof fn lemma_digits_val_take_le(s: Seq<char>, k: int)
    requires
        all_digits(s),
        0 <= k <= s.len(),
    ensures
        digits_val(s.take(k)) <= digits_val(s),
    decreases s.len() - k,
{
    if k == s.len() {
        assert(s.take(k) =~= s);
    } else {
        assert(all_digits(s.take(k))) by {
            assert forall|i: int| 0 <= i < s.take(k).len() implies is_digit(
                #[trigger] s.take(k)[i],
            ) by {
                assert(s.take(k)[i] == s[i]);
            }
        }
        lemma_digits_val_nonneg(s.take(k));
        assert(s.take(k + 1).drop_last() =~= s.take(k));
        assert(s.take(k + 1).last() == s[k]);
        assert(digits_val(s.take(k + 1)) == digits_val(s.take(k)) * 10 + digit_val(s[k]));
        lemma_digits_val_take_le(s, k + 1);
    }
}

/// When the first `lo` characters are whitespace and the next one is not,
/// trimming the front drops exactly those characters.
pub proof fn lemma_trim_front_range(s: Seq<char>, lo: int)
    requires
        0 <= lo <= s.len(),
        forall|j: int| 0 <= j < lo ==> is_ws(#[trigger] s[j]),
        lo == s.len() || !is_ws(s[lo]),
    ensures
        trim_front(s) == s.subrange(lo, s.len() as int),
    decreases lo,
{
    if lo == 0 {
        assert(s.subrange(0, s.len() as int) =~= s);
    } else {
        let t = s.subrange(1, s.len() as int);
        lemma_trim_front_range(t, lo - 1);
        assert(t.subrange(lo - 1, t.len() as int) =~= s.subrange(lo, s.len() as int));
    }
}

/// When the characters from `hi` on are whitespace and the one before `hi`
/// is not, trimming the back drops exactly those characters.
pub proof fn lemma_trim_back_range(s: Seq<char>, hi: int)
    requires
        0 <= hi <= s.len(),
        forall|j: int| hi <= j < s.len() ==> is_ws(#[trigger] s[j]),
        hi == 0 || !is_ws(s[hi - 1]),
    ensures
        trim_back(s) == s.subrange(0, hi),
    decreases s.len() - hi,
{
    if hi == s.len() {
        assert(s.subrange(0, hi) =~= s);
    } else {
        let t = s.drop_last();
        assert(is_ws(s.last()));
        lemma_trim_back_range(t, hi);
        assert(t.subrange(0, hi) =~= s.subrange(0, hi));
    }
}

/// A string that starts and ends with non-whitespace (or is empty) is its
/// own trim.
pub proof fn lemma_trim_identity(s: Seq<char>)
    requires
        s.len() == 0 || (!is_ws(s[0]) && !is_ws(s.last())),
    ensures
        spec_trim(s) == s,
{
    lemma_trim_front_range(s, 0);
    assert(s.subrange(0, s.len() as int) =~= s);
    lemma_trim_back_range(s, s.len() as int);
}

/// Splitting a string that holds no separator yields that one part.
pub proof fn lemma_split_no_sep(s: Seq<char>, sep: char)
    requires
        forall|j: int| 0 <= j < s.len() ==> s[j] != sep,
    ensures
        spec_split(s, sep) == seq![s],
    decreases s.len(),
{
    if s.len() == 0 {
        assert(s =~= Seq::<char>::empty());
    } else {
        let t = s.subrange(1, s.len() as int);
        lemma_split_no_sep(t, sep);
        let rest = spec_split(t, sep);
        assert(rest == seq![t]);
        assert(seq![s[0]] + t =~= s);
        assert(rest.subrange(1, rest.len() as int) =~= Seq::<Seq<char>>::empty());
        assert(spec_split(s, sep) =~~= seq![s]);
    }
}

/// Splitting at the first occurrence of the separator peels off one part.
pub proof fn lemma_split_first(s: Seq<char>, sep: char, i: int)
    requires
        0 <= i < s.len(),
        s[i] == sep,
        forall|j: int| 0 <= j < i ==> s[j] != sep,
    ensures
        spec_split(s, sep) == seq![s.subrange(0, i)] + spec_split(
            s.subrange(i + 1, s.len() as int),
            sep,
        ),
    decreases i,
{
    if i == 0 {
        assert(s.subrange(0, 0) =~= Seq::<char>::empty());
        assert(spec_split(s, sep) =~~= seq![s.subrange(0, 0)] + spec_split(
            s.subrange(1, s.len() as int),
            sep,
        ));
    } else {
        let t = s.subrange(1, s.len() as int);
        lemma_split_first(t, sep, i - 1);
        let tail = spec_split(s.subrange(i + 1, s.len() as int), sep);
        assert(t.subrange(0, i - 1) =~= s.subrange(1, i));
        assert(t.subrange(i, t.len() as int) =~= s.subrange(i + 1, s.len() as int));
        let rest = spec_split(t, sep);
        assert(rest == seq![s.subrange(1, i)] + tail);
        assert(rest[0] == s.subrange(1, i));
        assert(rest.subrange(1, rest.len() as int) =~= tail);
        assert(seq![s[0]] + s.subrange(1, i) =~= s.subrange(0, i));
        assert(spec_split(s, sep) =~~= seq![s.subrange(0, i)] + tail);
    }
}

/// A split always yields at least one part.
pub proof fn lemma_split_len_pos(s: Seq<char>, sep: char)
    ensures
        spec_split(s, sep).len() >= 1,
    decreases s.len(),
{
    if s.len() > 0 {
        lemma_split_len_pos(s.subrange(1, s.len() as int), sep);
    }
}

/// The canonical decimal digits of a nonnegative number: at least one
/// digit, nothing but digits, and reading them back yields the number.
pub proof fn lemma_dec_props(n: int)
    requires
        n >= 0,
    ensures
        spec_dec(n).len() >= 1,
        all_digits(spec_dec(n)),
        digits_val(spec_dec(n)) == n,
    decreases n,
{
    if n < 10 {
        assert(spec_dec(n) == seq![spec_digit_char(n)]);
        assert(spec_dec(n).drop_last() =~= Seq::<char>::empty());
        assert(digit_val(spec_digit_char(n)) == n);
        assert(is_digit(spec_digit_char(n)));
        assert(spec_dec(n).last() == spec_digit_char(n));
        assert(digits_val(Seq::<char>::empty()) == 0);
        assert(digits_val(spec_dec(n)) == digits_val(spec_dec(n).drop_last()) * 10 + digit_val(
            spec_dec(n).last(),
        ));
    } else {
        lemma_dec_props(n / 10);
        let pre = spec_dec(n / 10);
        let c = spec_digit_char(n % 10);
        assert(0 <= n % 10 < 10);
        assert(digit_val(c) == n % 10);
        assert(is_digit(c));
        assert(spec_dec(n) == pre + seq![c]);
        assert(spec_dec(n).drop_last() =~= pre);
        assert(spec_dec(n).last() == c);
        assert(digits_val(spec_dec(n)) == digits_val(pre) * 10 + (n % 10));
        assert((n / 10) * 10 + n % 10 == n);
        assert(all_digits(spec_dec(n))) by {
            assert forall|i: int| 0 <= i < spec_dec(n).len() implies is_digit(
                #[trigger] spec_dec(n)[i],
            ) by {
                if i < pre.len() {
                    assert(spec_dec(n)[i] == pre[i]);
                } else {
                    assert(spec_dec(n)[i] == c);
                }
            }
        }
    }
}

/// A digit character is not whitespace and is not one of the format's
/// separators.
pub proof fn lemma_digit_not_special(c: char)
    requires
        is_digit(c),
    ensures
        !is_ws(c),
        c != 'x',
        c != ',',
        c != '\n',
{
}

/// The single-character string for a digit value.
fn digit_str(d: usize) -> (r: &'static str)
    requires
        d < 10,
    ensures
        r@ == seq![spec_digit_char(d as int)],
{
    proof {
        reveal_strlit("0");
        reveal_strlit("1");
        reveal_strlit("2");
        reveal_strlit("3");
        reveal_strlit("4");
        reveal_strlit("5");
        reveal_strlit("6");
        reveal_strlit("7");
        reveal_strlit("8");
        reveal_strlit("9");
    }
    let r = if d == 0 {
        "0"
    } else if d == 1 {
        "1"
    } else if d == 2 {
        "2"
    } else if d == 3 {
        "3"
    } else if d == 4 {
        "4"
    } else if d == 5 {
        "5"
    } else if d == 6 {
        "6"
    } else if d == 7 {
        "7"
    } else if d == 8 {
        "8"
    } else {
        "9"
    };
    proof {
        assert(r@ =~= seq![spec_digit_char(d as int)]);
    }
    r
}

/// Renders `n` in decimal, exactly as [`spec_dec`] describes.
pub fn fmt_usize(n: usize) -> (s: String)
    ensures
        s@ == spec_dec(n as int),
    decreases n,
{
    if n < 10 {
        String::from_str(digit_str(n))
    } else {
        let mut s = fmt_usize(n / 10);
        s.append(digit_str(n % 10));
        s
    }
}

/// Cuts the first line off `t`: the part before the first `'\n'`, and the
/// remainder after that newline when there is one.
pub fn split_line<'a>(t: &'a str) -> (r: (&'a str, Option<&'a str>))
    ensures
        match r.1 {
            Some(rest) => spec_split(t@, '\n') == seq![r.0@] + spec_split(rest@, '\n')
                && rest@.len() < t@.len(),
            None => r.0@ == t@ && spec_split(t@, '\n') == seq![t@],
        },
{
    let n = t.unicode_len();
    match find_char(t, '\n') {
        None => {
            proof {
                lemma_split_no_sep(t@, '\n');
            }
            (t, None)
        },
        Some(i) => {
            let head = t.substring_char(0, i);
            let rest = t.substring_char(i + 1, n);
            proof {
                lemma_split_first(t@, '\n', i as int);
            }
            (head, Some(rest))
        },
    }
}

/// Exec mirror of [`is_ws`].
fn is_ws_char(c: char) -> (r: bool)
    ensures
        r == is_ws(c),
{
    c == ' ' || c == '\t' || c == '\r' || c == '\n'
}

/// The bounds `(lo, hi)` of the whitespace-trimmed middle of `s`.
pub(crate) fn trim_bounds(s: &str) -> (r: (usize, usize))
    ensures
        r.0 <= r.1 <= s@.len(),
        spec_trim(s@) == s@.subrange(r.0 as int, r.1 as int),
{
    let n = s.unicode_len();
    let mut lo: usize = 0;
    while lo < n && is_ws_char(s.get_char(lo))
        invariant
            0 <= lo <= n,
            n == s@.len(),
            forall|j: int| 0 <= j < lo ==> is_ws(#[trigger] s@[j]),
        decreases n - lo,
    {
        lo = lo + 1;
    }
    let mut hi: usize = n;
    while hi > lo && is_ws_char(s.get_char(hi - 1))
        invariant
            lo <= hi <= n,
            n == s@.len(),
            forall|j: int| hi <= j < n ==> is_ws(#[trigger] s@[j]),
        decreases hi,
    {
        hi = hi - 1;
    }
    proof {
        lemma_trim_front_range(s@, lo as int);
        let u = s@.subrange(lo as int, s@.len() as int);
        assert(forall|j: int|
            hi - lo <= j < u.len() ==> is_ws(#[trigger] u[j]) && u[j] == s@[j + lo]);
        lemma_trim_back_range(u, hi as int - lo as int);
        assert(u.subrange(0, hi - lo) =~= s@.subrange(lo as int, hi as int));
    }
    (lo, hi)
}

/// The position of the first `sep` in `s`, if any.
fn find_char(s: &str, sep: char) -> (r: Option<usize>)
    ensures
        match r {
            Some(i) => i < s@.len() && s@[i as int] == sep && forall|j: int|
                0 <= j < i ==> s@[j] != sep,
            None => forall|j: int| 0 <= j < s@.len() ==> s@[j] != sep,
        },
{
    let n = s.unicode_len();
    for i in 0..n
        invariant
            n == s@.len(),
            forall|j: int| 0 <= j < i ==> s@[j] != sep,
    {
        if s.get_char(i) == sep {
            return Some(i);
        }
    }
    None
}

/// Parses one numeric field: whitespace-trimmed decimal digits whose
/// value fits in `usize`. Returns exactly what [`spec_parse_field`] says.
pub fn parse_field(s: &str) -> (r: Option<usize>)
    ensures
        r == spec_parse_field(s@),
{
    let (lo, hi) = trim_bounds(s);
    let ghost t = spec_trim(s@);
    if lo == hi {
        assert(t.len() == 0);
        return None;
    }
    let mut val: usize = 0;
    let mut i = lo;
    while i < hi
        invariant
            lo <= i <= hi <= s@.len(),
            lo < hi,
            t == s@.subrange(lo as int, hi as int),
            t == spec_trim(s@),
            forall|j: int| lo <= j < i ==> is_digit(#[trigger] s@[j]),
            val == digits_val(t.take(i - lo)),
        decreases hi - i,
    {
        let c = s.get_char(i);
        let cu = c as u32;
        proof {
            assert(t[i - lo] == s@[i as int]);
        }
        if cu < 48 || cu > 57 {
            assert(!is_digit(t[i - lo]));
            assert(!all_digits(t));
            return None;
        }
        assert(is_digit(s@[i as int]));
        let d = (cu - 48) as usize;
        assert(d == digit_val(t[i - lo]));
        let step = match val.checked_mul(10) {
            Some(v10) => v10.checked_add(d),
            None => None,
        };
        proof {
            assert(t.take(i - lo + 1).drop_last() =~= t.take(i - lo));
            assert(t.take(i - lo + 1).last() == t[i - lo]);
        }
        match step {
            Some(v) => {
                val = v;
            },
            None => {
                // The value no longer fits in usize, so the whole field
                // cannot either: the spec answer is None.
                proof {
                    assert(digits_val(t.take(i - lo + 1)) > usize::MAX as int);
                    if all_digits(t) {
                        lemma_digits_val_take_le(t, i - lo + 1);
                    }
                }
                return None;
            },
        }
        i = i + 1;
    }
    proof {
        assert(t.take(hi - lo) =~= t);
        assert(all_digits(t)) by {
            assert forall|k: int| 0 <= k < t.len() implies is_digit(#[trigger] t[k]) by {
                assert(t[k] == s@[k + lo]);
            }
        }
    }
    Some(val)
}

/// Parses `"<a><sep><b>"`: exactly two fields around a single separator,
/// each a valid number. Returns exactly what [`spec_parse_pair`] says.
pub fn read_pair(s: &str, sep: char) -> (r: Option<(usize, usize)>)
    ensures
        r == spec_parse_pair(s@, sep),
{
    let n = s.unicode_len();
    match find_char(s, sep) {
        None => {
            proof {
                lemma_split_no_sep(s@, sep);
            }
            None
        },
        Some(i) => {
            let a = s.substring_char(0, i);
            let b = s.substring_char(i + 1, n);
            proof {
                lemma_split_first(s@, sep, i as int);
            }
            match find_char(b, sep) {
                Some(j) => {
                    // Three or more parts: the split of the remainder has
                    // at least two entries.
                    proof {
                        lemma_split_first(b@, sep, j as int);
                        lemma_split_len_pos(b@.subrange(j as int + 1, b@.len() as int), sep);
                    }
                    None
                },
                None => {
                    proof {
                        lemma_split_no_sep(b@, sep);
                        assert(spec_split(s@, sep) == seq![a@] + seq![b@]);
                        assert((seq![a@] + seq![b@]).len() == 2);
                        assert(spec_split(s@, sep)[0] == a@);
                        assert(spec_split(s@, sep)[1] == b@);
                    }
                    match (parse_field(a), parse_field(b)) {
                        (Some(x), Some(y)) => Some((x, y)),
                        _ => None,
                    }
                },
            }
        },
    }
}

} // verus!
