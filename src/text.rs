//! Character-level scanning of assembly text: whitespace, comments, lines,
//! words and decimal numbers, each stated over `Seq<char>`.
use vstd::prelude::*;
use vstd::string::StrSliceExecFns;

verus! {

/// The characters that `char::is_whitespace` accepts (Unicode White_Space).
pub open spec fn is_space(c: char) -> bool {
    let n = c as u32;
    ||| (9 <= n && n <= 13)
    ||| n == 32
    ||| n == 0x85
    ||| n == 0xA0
    ||| n == 0x1680
    ||| (0x2000 <= n && n <= 0x200A)
    ||| n == 0x2028
    ||| n == 0x2029
    ||| n == 0x202F
    ||| n == 0x205F
    ||| n == 0x3000
}

/// `s` without its leading whitespace.
pub open spec fn trim_start(s: Seq<char>) -> Seq<char>
    decreases s.len(),
{
    if s.len() > 0 && is_space(s[0]) {
        trim_start(s.drop_first())
    } else {
        s
    }
}

/// `s` without its trailing whitespace.
pub open spec fn trim_end(s: Seq<char>) -> Seq<char>
    decreases s.len(),
{
    if s.len() > 0 && is_space(s.last()) {
        trim_end(s.drop_last())
    } else {
        s
    }
}

/// `s` without whitespace at either end.
pub open spec fn trim(s: Seq<char>) -> Seq<char> {
    trim_end(trim_start(s))
}

/// The part of `s` before its first `;`.
pub open spec fn before_comment(s: Seq<char>) -> Seq<char>
    decreases s.len(),
{
    if s.len() == 0 || s[0] == ';' {
        Seq::empty()
    } else {
        seq![s[0]] + before_comment(s.drop_first())
    }
}

/// Number of characters before the first `stop` character of `s` (all of
/// them when there is none).
pub open spec fn run_until(s: Seq<char>, stop: char) -> nat
    decreases s.len(),
{
    if s.len() == 0 || s[0] == stop {
        0
    } else {
        1 + run_until(s.drop_first(), stop)
    }
}

/// Number of leading characters of `s` that are not whitespace.
pub open spec fn word_len(s: Seq<char>) -> nat
    decreases s.len(),
{
    if s.len() == 0 || is_space(s[0]) {
        0
    } else {
        1 + word_len(s.drop_first())
    }
}

/// The lines of `s`, split at each `\n`; a final `\n` opens no extra line.
pub open spec fn lines_of(s: Seq<char>) -> Seq<Seq<char>>
    decreases s.len(),
{
    if s.len() == 0 {
        Seq::empty()
    } else {
        let k = run_until(s, '\n');
        if k < s.len() {
            seq![s.take(k as int)] + lines_of(s.skip(k + 1 as int))
        } else {
            seq![s]
        }
    }
}

/// The first whitespace-delimited word of `s` (empty when there is none).
pub open spec fn first_word(s: Seq<char>) -> Seq<char> {
    let t = trim_start(s);
    t.take(word_len(t) as int)
}

/// What follows the first word of `s`.
pub open spec fn after_first_word(s: Seq<char>) -> Seq<char> {
    let t = trim_start(s);
    t.skip(word_len(t) as int)
}

/// The second whitespace-delimited word of `s` (empty when there is none).
pub open spec fn second_word(s: Seq<char>) -> Seq<char> {
    first_word(after_first_word(s))
}

/// `s` with each run of whitespace replaced by one space.
pub open spec fn collapse_spaces(s: Seq<char>) -> Seq<char>
    decreases s.len(),
{
    if s.len() == 0 {
        Seq::empty()
    } else if is_space(s[0]) && s.len() > 1 && is_space(s[1]) {
        collapse_spaces(s.drop_first())
    } else if is_space(s[0]) {
        seq![' '] + collapse_spaces(s.drop_first())
    } else {
        seq![s[0]] + collapse_spaces(s.drop_first())
    }
}

/// The words of `s` joined by single spaces.
pub open spec fn joined_words(s: Seq<char>) -> Seq<char> {
    collapse_spaces(trim(s))
}

/// `s` without its leading dots.
pub open spec fn strip_dots(s: Seq<char>) -> Seq<char>
    decreases s.len(),
{
    if s.len() > 0 && s[0] == '.' {
        strip_dots(s.drop_first())
    } else {
        s
    }
}

/// An ASCII decimal digit.
pub open spec fn is_digit(c: char) -> bool {
    '0' <= c && c <= '9'
}

/// Every character of `s` is an ASCII decimal digit.
pub open spec fn all_digits(s: Seq<char>) -> bool {
    forall|i: int| 0 <= i < s.len() ==> is_digit(#[trigger] s[i])
}

/// The number written by the decimal digits `s`.
pub open spec fn digits_value(s: Seq<char>) -> nat
    decreases s.len(),
{
    if s.len() == 0 {
        0
    } else {
        digits_value(s.drop_last()) * 10 + ((s.last() as nat) - ('0' as nat)) as nat
    }
}

/// The number that `s` writes in the form an unsigned `from_str` accepts:
/// an optional `+`, then one or more decimal digits.
pub open spec fn unsigned_value(s: Seq<char>) -> Option<nat> {
    let d = if s.len() > 0 && s[0] == '+' {
        s.drop_first()
    } else {
        s
    };
    if d.len() > 0 && all_digits(d) {
        Some(digits_value(d))
    } else {
        None
    }
}

/// The number that `s` writes in the form a signed `from_str` accepts:
/// an optional `+` or `-`, then one or more decimal digits.
pub open spec fn signed_value(s: Seq<char>) -> Option<int> {
    if s.len() > 0 && s[0] == '-' {
        let d = s.drop_first();
        if d.len() > 0 && all_digits(d) {
            Some(-(digits_value(d) as int))
        } else {
            None
        }
    } else {
        match unsigned_value(s) {
            Some(n) => Some(n as int),
            None => None,
        }
    }
}

/// What `from_str` of an unsigned integer type whose largest value is
/// `limit` gives for `s`.
pub open spec fn parse_unsigned(s: Seq<char>, limit: nat) -> Option<nat> {
    match unsigned_value(s) {
        Some(n) => if n <= limit {
            Some(n)
        } else {
            None
        },
        None => None,
    }
}

/// What `i32::from_str` gives for `s`.
pub open spec fn parse_i32(s: Seq<char>) -> Option<i32> {
    match signed_value(s) {
        Some(n) => if i32::MIN <= n && n <= i32::MAX {
            Some(n as i32)
        } else {
            None
        },
        None => None,
    }
}

/// The value of the digits `d` when they are one or more decimal digits
/// whose value is at most `limit`.
pub open spec fn digits_within(d: Seq<char>, limit: nat) -> Option<nat> {
    if d.len() > 0 && all_digits(d) && digits_value(d) <= limit {
        Some(digits_value(d))
    } else {
        None
    }
}

/// Reads `[a, b)` as decimal digits whose value is at most `limit`.
pub fn parse_digits(v: &Vec<char>, a: usize, b: usize, limit: u64) -> (r: Option<u64>)
    requires
        a <= b <= v@.len(),
    ensures
        r matches Some(n) ==> digits_within(v@.subrange(a as int, b as int), limit as nat) == Some(
            n as nat,
        ),
        r is None ==> digits_within(v@.subrange(a as int, b as int), limit as nat) is None,
{
    if a == b {
        return None;
    }
    let mut acc: u64 = 0;
    let mut over = false;
    let mut j = a;
    while j < b
        invariant
            a <= j <= b <= v@.len(),
            all_digits(v@.subrange(a as int, j as int)),
            over <==> digits_value(v@.subrange(a as int, j as int)) > limit,
            !over ==> acc == digits_value(v@.subrange(a as int, j as int)),
        decreases b - j,
    {
        let c = v[j];
        if !('0' <= c && c <= '9') {
            assert(!is_digit(v@.subrange(a as int, b as int)[j - a]));
            return None;
        }
        let d = (c as u32 - '0' as u32) as u64;
        let ghost prev = digits_value(v@.subrange(a as int, j as int));
        let ghost next = v@.subrange(a as int, j + 1);
        assert(next.drop_last() =~= v@.subrange(a as int, j as int));
        assert(digits_value(next) == prev * 10 + d);
        if !over {
            if d > limit || acc > (limit - d) / 10 {
                assert(acc * 10 + d > limit) by (nonlinear_arith)
                    requires
                        d > limit || acc > (limit - d) / 10,
                ;
                over = true;
            } else {
                assert(acc * 10 + d <= limit) by (nonlinear_arith)
                    requires
                        acc <= (limit - d) / 10,
                        d <= limit,
                ;
                acc = acc * 10 + d;
            }
        } else {
            assert(prev * 10 + d > limit) by (nonlinear_arith)
                requires
                    prev > limit,
            ;
        }
        assert forall|i: int| 0 <= i < next.len() implies is_digit(#[trigger] next[i]) by {
            if i < next.len() - 1 {
                assert(next[i] == v@.subrange(a as int, j as int)[i]);
            }
        }
        j = j + 1;
    }
    if over {
        None
    } else {
        Some(acc)
    }
}

/// Reads `[a, b)` the way an unsigned `from_str` does, for a type whose
/// largest value is `limit`.
pub fn parse_unsigned_range(v: &Vec<char>, a: usize, b: usize, limit: u64) -> (r: Option<u64>)
    requires
        a <= b <= v@.len(),
    ensures
        r matches Some(n) ==> parse_unsigned(v@.subrange(a as int, b as int), limit as nat)
            == Some(n as nat),
        r is None ==> parse_unsigned(v@.subrange(a as int, b as int), limit as nat) is None,
{
    let ghost s = v@.subrange(a as int, b as int);
    if a < b && v[a] == '+' {
        assert(s.drop_first() =~= v@.subrange(a + 1, b as int));
        parse_digits(v, a + 1, b, limit)
    } else {
        parse_digits(v, a, b, limit)
    }
}

/// Reads `[a, b)` the way `i32::from_str` does.
pub fn parse_i32_range(v: &Vec<char>, a: usize, b: usize) -> (r: Option<i32>)
    requires
        a <= b <= v@.len(),
    ensures
        r == parse_i32(v@.subrange(a as int, b as int)),
{
    let ghost s = v@.subrange(a as int, b as int);
    if a < b && v[a] == '-' {
        assert(s.drop_first() =~= v@.subrange(a + 1, b as int));
        match parse_digits(v, a + 1, b, 0x8000_0000) {
            Some(n) => Some((0 - (n as i64)) as i32),
            None => None,
        }
    } else {
        if a < b && v[a] == '+' {
            assert(s.drop_first() =~= v@.subrange(a + 1, b as int));
        }
        match parse_unsigned_range(v, a, b, 0x7fff_ffff) {
            Some(n) => Some(n as i32),
            None => None,
        }
    }
}

/// Whether `c` is whitespace.
pub fn is_space_char(c: char) -> (r: bool)
    ensures
        r == is_space(c),
{
    let n = c as u32;
    (9 <= n && n <= 13) || n == 32 || n == 0x85 || n == 0xA0 || n == 0x1680 || (0x2000 <= n
        && n <= 0x200A) || n == 0x2028 || n == 0x2029 || n == 0x202F || n == 0x205F || n == 0x3000
}

/// The characters of `s`, in order.
pub fn chars_of(s: &str) -> (r: Vec<char>)
    ensures
        r@ == s@,
{
    let n = s.unicode_len();
    let mut r: Vec<char> = Vec::new();
    let mut i: usize = 0;
    while i < n
        invariant
            n == s@.len(),
            i <= n,
            r@ == s@.take(i as int),
        decreases n - i,
    {
        r.push(s.get_char(i));
        assert(s@.take(i + 1) =~= s@.take(i as int).push(s@[i as int]));
        i = i + 1;
    }
    assert(s@.take(n as int) =~= s@);
    r
}

/// The range `[a, b)` of `v` with the whitespace at both ends removed.
pub fn trim_range(v: &Vec<char>, a: usize, b: usize) -> (r: (usize, usize))
    requires
        a <= b <= v@.len(),
    ensures
        a <= r.0 <= r.1 <= b,
        v@.subrange(r.0 as int, r.1 as int) == trim(v@.subrange(a as int, b as int)),
{
    let mut i = a;
    while i < b && is_space_char(v[i])
        invariant
            a <= i <= b <= v@.len(),
            trim_start(v@.subrange(a as int, b as int)) == trim_start(
                v@.subrange(i as int, b as int),
            ),
        decreases b - i,
    {
        assert(v@.subrange(i as int, b as int).drop_first() =~= v@.subrange(i + 1, b as int));
        i = i + 1;
    }
    let mut j = b;
    while j > i && is_space_char(v[j - 1])
        invariant
            a <= i <= j <= b <= v@.len(),
            trim_end(v@.subrange(i as int, b as int)) == trim_end(
                v@.subrange(i as int, j as int),
            ),
        decreases j - i,
    {
        assert(v@.subrange(i as int, j as int).drop_last() =~= v@.subrange(i as int, j - 1));
        j = j - 1;
    }
    (i, j)
}

/// The first position at or after `a` that holds `stop`, or `b` when none does.
pub fn find_char(v: &Vec<char>, a: usize, b: usize, stop: char) -> (r: usize)
    requires
        a <= b <= v@.len(),
    ensures
        a <= r <= b,
        r - a == run_until(v@.subrange(a as int, b as int), stop),
        stop == ';' ==> v@.subrange(a as int, r as int) == before_comment(
            v@.subrange(a as int, b as int),
        ),
{
    let mut i = a;
    while i < b && v[i] != stop
        invariant
            a <= i <= b <= v@.len(),
            run_until(v@.subrange(a as int, b as int), stop) == (i - a) + run_until(
                v@.subrange(i as int, b as int),
                stop,
            ),
            stop == ';' ==> before_comment(v@.subrange(a as int, b as int)) == v@.subrange(
                a as int,
                i as int,
            ) + before_comment(v@.subrange(i as int, b as int)),
        decreases b - i,
    {
        assert(v@.subrange(i as int, b as int).drop_first() =~= v@.subrange(i + 1, b as int));
        assert(v@.subrange(a as int, i as int) + seq![v@[i as int]] =~= v@.subrange(
            a as int,
            i + 1,
        ));
        i = i + 1;
    }
    assert(v@.subrange(a as int, i as int) + Seq::<char>::empty() =~= v@.subrange(
        a as int,
        i as int,
    ));
    i
}

/// The first whitespace position at or after `a`, or `b` when there is none.
pub fn word_end(v: &Vec<char>, a: usize, b: usize) -> (r: usize)
    requires
        a <= b <= v@.len(),
    ensures
        a <= r <= b,
        r - a == word_len(v@.subrange(a as int, b as int)),
{
    let mut i = a;
    while i < b && !is_space_char(v[i])
        invariant
            a <= i <= b <= v@.len(),
            word_len(v@.subrange(a as int, b as int)) == (i - a) + word_len(
                v@.subrange(i as int, b as int),
            ),
        decreases b - i,
    {
        assert(v@.subrange(i as int, b as int).drop_first() =~= v@.subrange(i + 1, b as int));
        i = i + 1;
    }
    i
}

/// The first whitespace-delimited word of `[a, b)`, as a range, and where
/// what follows it starts.
pub fn first_word_range(v: &Vec<char>, a: usize, b: usize) -> (r: (usize, usize))
    requires
        a <= b <= v@.len(),
    ensures
        a <= r.0 <= r.1 <= b,
        v@.subrange(r.0 as int, r.1 as int) == first_word(v@.subrange(a as int, b as int)),
        v@.subrange(r.1 as int, b as int) == after_first_word(v@.subrange(a as int, b as int)),
{
    let mut i = a;
    while i < b && is_space_char(v[i])
        invariant
            a <= i <= b <= v@.len(),
            trim_start(v@.subrange(a as int, b as int)) == trim_start(
                v@.subrange(i as int, b as int),
            ),
        decreases b - i,
    {
        assert(v@.subrange(i as int, b as int).drop_first() =~= v@.subrange(i + 1, b as int));
        i = i + 1;
    }
    assert(trim_start(v@.subrange(i as int, b as int)) == v@.subrange(i as int, b as int));
    let j = word_end(v, i, b);
    assert(v@.subrange(i as int, b as int).take(j - i) =~= v@.subrange(i as int, j as int));
    assert(v@.subrange(i as int, b as int).skip(j - i) =~= v@.subrange(j as int, b as int));
    (i, j)
}

/// The characters of `[a, b)` with each run of whitespace made one space.
pub fn collapse_range(v: &Vec<char>, a: usize, b: usize) -> (r: Vec<char>)
    requires
        a <= b <= v@.len(),
    ensures
        r@ == collapse_spaces(v@.subrange(a as int, b as int)),
{
    let mut r: Vec<char> = Vec::new();
    let mut i = a;
    while i < b
        invariant
            a <= i <= b <= v@.len(),
            collapse_spaces(v@.subrange(a as int, b as int)) == r@ + collapse_spaces(
                v@.subrange(i as int, b as int),
            ),
        decreases b - i,
    {
        let ghost s = v@.subrange(i as int, b as int);
        assert(s.drop_first() =~= v@.subrange(i + 1, b as int));
        let c = v[i];
        if is_space_char(c) {
            if i + 1 < b && is_space_char(v[i + 1]) {
            } else {
                assert(r@ + (seq![' '] + collapse_spaces(s.drop_first())) =~= r@.push(' ')
                    + collapse_spaces(s.drop_first()));
                r.push(' ');
            }
        } else {
            assert(r@ + (seq![c] + collapse_spaces(s.drop_first())) =~= r@.push(c)
                + collapse_spaces(s.drop_first()));
            r.push(c);
        }
        i = i + 1;
    }
    assert(r@ + Seq::<char>::empty() =~= r@);
    r
}

/// The position after the leading dots of `[a, b)`.
pub fn skip_dots(v: &Vec<char>, a: usize, b: usize) -> (r: usize)
    requires
        a <= b <= v@.len(),
    ensures
        a <= r <= b,
        v@.subrange(r as int, b as int) == strip_dots(v@.subrange(a as int, b as int)),
{
    let mut i = a;
    while i < b && v[i] == '.'
        invariant
            a <= i <= b <= v@.len(),
            strip_dots(v@.subrange(a as int, b as int)) == strip_dots(
                v@.subrange(i as int, b as int),
            ),
        decreases b - i,
    {
        assert(v@.subrange(i as int, b as int).drop_first() =~= v@.subrange(i + 1, b as int));
        i = i + 1;
    }
    i
}

/// A copy of `[a, b)` of `v`.
pub fn copy_range(v: &Vec<char>, a: usize, b: usize) -> (r: Vec<char>)
    requires
        a <= b <= v@.len(),
    ensures
        r@ == v@.subrange(a as int, b as int),
{
    let mut r: Vec<char> = Vec::new();
    let mut i = a;
    while i < b
        invariant
            a <= i <= b <= v@.len(),
            r@ == v@.subrange(a as int, i as int),
        decreases b - i,
    {
        r.push(v[i]);
        assert(r@ =~= v@.subrange(a as int, i + 1));
        i = i + 1;
    }
    r
}

/// Whether the two sequences of characters are equal.
pub fn same_chars(x: &Vec<char>, y: &Vec<char>) -> (r: bool)
    ensures
        r == (x@ == y@),
{
    if x.len() != y.len() {
        return false;
    }
    let mut i: usize = 0;
    while i < x.len()
        invariant
            x@.len() == y@.len(),
            i <= x@.len(),
            forall|k: int| 0 <= k < i ==> x@[k] == y@[k],
        decreases x@.len() - i,
    {
        if x[i] != y[i] {
            return false;
        }
        i = i + 1;
    }
    assert(x@ =~= y@);
    true
}

/// Relies on `String::push`: appends one character.
#[verifier::external_body]
fn push_char(s: &mut String, c: char)
    ensures
        final(s)@ == old(s)@.push(c),
{
    s.push(c);
}

/// A `String` holding the characters of `[a, b)` of `v`.
pub fn string_of(v: &Vec<char>, a: usize, b: usize) -> (r: String)
    requires
        a <= b <= v@.len(),
    ensures
        r@ == v@.subrange(a as int, b as int),
{
    let mut r = String::new();
    let mut i = a;
    while i < b
        invariant
            a <= i <= b <= v@.len(),
            r@ == v@.subrange(a as int, i as int),
        decreases b - i,
    {
        push_char(&mut r, v[i]);
        assert(r@ =~= v@.subrange(a as int, i + 1));
        i = i + 1;
    }
    r
}

} // verus!
