//! Text handling shared by the argument grammars and the messages built from
//! them: reading a `&str` as characters, trimming, splitting and decimal
//! numbers, each specified the way the standard library behaves.

use vstd::prelude::*;

verus! {

/// `char::is_whitespace`: the Unicode `White_Space` property.
pub open spec fn is_white_space(c: char) -> bool {
    ||| ('\u{9}' <= c && c <= '\u{d}')
    ||| c == ' '
    ||| c == '\u{85}'
    ||| c == '\u{a0}'
    ||| c == '\u{1680}'
    ||| ('\u{2000}' <= c && c <= '\u{200a}')
    ||| c == '\u{2028}'
    ||| c == '\u{2029}'
    ||| c == '\u{202f}'
    ||| c == '\u{205f}'
    ||| c == '\u{3000}'
}

/// `s` without its leading white space.
pub open spec fn trim_start(s: Seq<char>) -> Seq<char>
    decreases s.len(),
{
    if s.len() > 0 && is_white_space(s[0]) {
        trim_start(s.drop_first())
    } else {
        s
    }
}

/// `s` without its trailing white space.
pub open spec fn trim_end(s: Seq<char>) -> Seq<char>
    decreases s.len(),
{
    if s.len() > 0 && is_white_space(s.last()) {
        trim_end(s.drop_last())
    } else {
        s
    }
}

/// `str::trim`.
pub open spec fn trim(s: Seq<char>) -> Seq<char> {
    trim_end(trim_start(s))
}

/// Index of the first `c` in `s`, or -1 when there is none.
pub open spec fn find_char(s: Seq<char>, c: char) -> int
    decreases s.len(),
{
    if s.len() == 0 {
        -1
    } else if s[0] == c {
        0
    } else {
        let rest = find_char(s.drop_first(), c);
        if rest < 0 {
            -1
        } else {
            rest + 1
        }
    }
}

/// `str::split_once` on one character: the text before the first `c` and the
/// text after it.
pub open spec fn split_once(s: Seq<char>, c: char) -> Option<(Seq<char>, Seq<char>)> {
    let i = find_char(s, c);
    if i < 0 {
        None
    } else {
        Some((s.take(i), s.skip(i + 1)))
    }
}

/// `str::split` on one character: every piece between separators, empty
/// pieces included, so there is always at least one.
pub open spec fn split(s: Seq<char>, c: char) -> Seq<Seq<char>>
    decreases s.len(),
{
    let i = find_char(s, c);
    if i < 0 {
        seq![s]
    } else {
        proof {
            lemma_find_char_bounds(s, c);
        }
        seq![s.take(i)] + split(s.skip(i + 1), c)
    }
}

pub open spec fn is_digit(c: char) -> bool {
    '0' <= c && c <= '9'
}

pub open spec fn digit_value(c: char) -> nat {
    ((c as int) - ('0' as int)) as nat
}

pub open spec fn all_digits(s: Seq<char>) -> bool {
    forall|i: int| 0 <= i < s.len() ==> #[trigger] is_digit(s[i])
}

/// The number a run of decimal digits spells, most significant first.
pub open spec fn digits_value(s: Seq<char>) -> nat
    decreases s.len(),
{
    if s.len() == 0 {
        0
    } else {
        digits_value(s.drop_last()) * 10 + digit_value(s.last())
    }
}

/// What `FromStr` for an unsigned integer whose largest value is `max`
/// accepts: an optional `+`, then one or more decimal digits, and a value that
/// fits.
pub open spec fn parse_unsigned(s: Seq<char>, max: nat) -> Option<nat> {
    let body = if s.len() > 0 && s[0] == '+' {
        s.drop_first()
    } else {
        s
    };
    if body.len() > 0 && all_digits(body) && digits_value(body) <= max {
        Some(digits_value(body))
    } else {
        None
    }
}

/// What `FromStr` for `i32` accepts: an optional sign, then one or more
/// decimal digits, and a value in range.
pub open spec fn parse_i32(s: Seq<char>) -> Option<int> {
    if s.len() > 0 && s[0] == '-' {
        let body = s.drop_first();
        if body.len() > 0 && all_digits(body) && digits_value(body) <= 0x8000_0000 {
            Some(-(digits_value(body) as int))
        } else {
            None
        }
    } else {
        match parse_unsigned(s, 0x7fff_ffff) {
            Some(v) => Some(v as int),
            None => None,
        }
    }
}

pub open spec fn digit_char(d: nat) -> char {
    ((d + ('0' as nat)) as u32) as char
}

/// The decimal rendering of `n`, as `Display` for an integer writes it.
pub open spec fn decimal(n: nat) -> Seq<char>
    decreases n,
{
    if n < 10 {
        seq![digit_char(n)]
    } else {
        decimal(n / 10).push(digit_char(n % 10))
    }
}

pub proof fn lemma_find_char_bounds(s: Seq<char>, c: char)
    ensures
        -1 <= find_char(s, c) < s.len(),
        find_char(s, c) >= 0 ==> s[find_char(s, c)] == c,
        forall|j: int| 0 <= j < s.len() && (find_char(s, c) < 0 || j < find_char(s, c)) ==> s[j]
            != c,
    decreases s.len(),
{
    if s.len() > 0 && s[0] != c {
        lemma_find_char_bounds(s.drop_first(), c);
        assert forall|j: int|
            0 <= j < s.len() && (find_char(s, c) < 0 || j < find_char(s, c)) implies s[j]
            != c by {
            if j > 0 {
                assert(s[j] == s.drop_first()[j - 1]);
            }
        }
    }
}

/// The characters of `s`, one by one.
pub fn chars_of(s: &str) -> (out: Vec<char>)
    ensures
        out@ == s@,
{
    let n = s.unicode_len();
    let mut out: Vec<char> = Vec::new();
    let mut i: usize = 0;
    while i < n
        invariant
            n == s@.len(),
            i <= n,
            out@ == s@.take(i as int),
        decreases n - i,
    {
        out.push(s.get_char(i));
        i = i + 1;
        assert(out@ =~= s@.take(i as int));
    }
    assert(out@ =~= s@);
    out
}

/// Whether two texts are the same characters.
pub fn same_text(a: &str, b: &str) -> (same: bool)
    ensures
        same == (a@ == b@),
{
    let x = chars_of(a);
    let y = chars_of(b);
    if x.len() != y.len() {
        return false;
    }
    let mut i: usize = 0;
    while i < x.len()
        invariant
            x@ == a@,
            y@ == b@,
            x.len() == y.len(),
            i <= x.len(),
            forall|j: int| 0 <= j < i ==> x@[j] == y@[j],
        decreases x.len() - i,
    {
        if x[i] != y[i] {
            return false;
        }
        i = i + 1;
    }
    assert(x@ =~= y@);
    true
}

/// A `String` holding exactly the characters `chars`.
pub fn string_of(chars: &Vec<char>) -> (out: String)
    ensures
        out@ == chars@,
{
    let mut out = String::new();
    let mut i: usize = 0;
    while i < chars.len()
        invariant
            i <= chars.len(),
            out@ == chars@.take(i as int),
        decreases chars.len() - i,
    {
        out.append(char_text(chars[i]).as_str());
        i = i + 1;
        assert(out@ =~= chars@.take(i as int));
    }
    assert(out@ =~= chars@);
    out
}

/// `head`, then the characters of `body`, then `tail`: the shape of every
/// message that quotes what the user wrote.
pub fn framed(head: &str, body: &Vec<char>, tail: &str) -> (text: String)
    ensures
        text@ == head@ + body@ + tail@,
{
    let mut text = String::from_str(head);
    let inner = string_of(body);
    text.append(inner.as_str());
    text.append(tail);
    text
}

/// The one-character text `c`.
#[verifier::external_body]
fn char_text(c: char) -> (out: String)
    ensures
        out@ == seq![c],
{
    String::from(c)
}

fn digit_text(d: u64) -> (out: &'static str)
    requires
        d < 10,
    ensures
        out@ == seq![digit_char(d as nat)],
{
    proof {
        reveal_strlit("0");
        reveal_strlit("1");
        reveal_strlit("2");
        reveal_strlit("3");
        reveal_strlit("4");
        reveal_strlit("5");
        reveal_strlit("6");
        reveal_strlit("7");
        reveal_strlit("8");
        reveal_strlit("9");
    }
    if d == 0 {
        "0"
    } else if d == 1 {
        "1"
    } else if d == 2 {
        "2"
    } else if d == 3 {
        "3"
    } else if d == 4 {
        "4"
    } else if d == 5 {
        "5"
    } else if d == 6 {
        "6"
    } else if d == 7 {
        "7"
    } else if d == 8 {
        "8"
    } else {
        "9"
    }
}

/// Appends the decimal rendering of `n`.
pub fn push_decimal(out: &mut String, n: u64)
    ensures
        final(out)@ == old(out)@ + decimal(n as nat),
    decreases n,
{
    if n < 10 {
        out.append(digit_text(n));
    } else {
        push_decimal(out, n / 10);
        out.append(digit_text(n % 10));
        assert(decimal(n as nat) == decimal((n / 10) as nat).push(digit_char((n % 10) as nat)));
        assert(old(out)@ + decimal((n / 10) as nat) + seq![digit_char((n % 10) as nat)]
            =~= old(out)@ + decimal(n as nat));
    }
}

/// Leading and trailing white space removed, as `str::trim` does.
pub fn trim_chars(s: &Vec<char>) -> (out: Vec<char>)
    ensures
        out@ == trim(s@),
{
    let n = s.len();
    let mut start: usize = 0;
    assert(s@.skip(0) =~= s@);
    while start < n && is_white_space_exec(s[start])
        invariant
            n == s@.len(),
            start <= n,
            trim_start(s@) == trim_start(s@.skip(start as int)),
        decreases n - start,
    {
        assert(s@.skip(start as int).drop_first() =~= s@.skip(start + 1));
        start = start + 1;
    }
    let ghost front = s@.skip(start as int);
    assert(trim_start(s@) == front);
    let mut end: usize = n;
    while end > start && is_white_space_exec(s[end - 1])
        invariant
            n == s@.len(),
            start <= end <= n,
            front == s@.skip(start as int),
            trim_end(front) == trim_end(s@.subrange(start as int, end as int)),
        decreases end - start,
    {
        assert(s@.subrange(start as int, end as int).drop_last() =~= s@.subrange(
            start as int,
            end - 1,
        ));
        end = end - 1;
    }
    let mut out: Vec<char> = Vec::new();
    let mut i: usize = start;
    while i < end
        invariant
            start <= i <= end <= n,
            n == s@.len(),
            out@ == s@.subrange(start as int, i as int),
        decreases end - i,
    {
        out.push(s[i]);
        i = i + 1;
        assert(out@ =~= s@.subrange(start as int, i as int));
    }
    out
}

pub fn is_white_space_exec(c: char) -> (b: bool)
    ensures
        b == is_white_space(c),
{
    ('\u{9}' <= c && c <= '\u{d}') || c == ' ' || c == '\u{85}' || c == '\u{a0}' || c
        == '\u{1680}' || ('\u{2000}' <= c && c <= '\u{200a}') || c == '\u{2028}' || c
        == '\u{2029}' || c == '\u{202f}' || c == '\u{205f}' || c == '\u{3000}'
}

/// The index of the first `c`, if any.
pub fn find_char_exec(s: &Vec<char>, c: char) -> (found: Option<usize>)
    ensures
        match found {
            Some(i) => i as int == find_char(s@, c),
            None => find_char(s@, c) < 0,
        },
{
    let mut i: usize = 0;
    assert(s@.skip(0) =~= s@);
    while i < s.len()
        invariant
            i <= s.len(),
            find_char(s@, c) == (if find_char(s@.skip(i as int), c) < 0 {
                -1
            } else {
                find_char(s@.skip(i as int), c) + i
            }),
        decreases s.len() - i,
    {
        assert(s@.skip(i as int).drop_first() =~= s@.skip(i + 1));
        if s[i] == c {
            return Some(i);
        }
        i = i + 1;
    }
    None
}

/// The characters of `s` from `start` up to `end`.
pub fn slice_chars(s: &Vec<char>, start: usize, end: usize) -> (out: Vec<char>)
    requires
        start <= end <= s.len(),
    ensures
        out@ == s@.subrange(start as int, end as int),
{
    let mut out: Vec<char> = Vec::new();
    let mut i: usize = start;
    while i < end
        invariant
            start <= i <= end <= s.len(),
            out@ == s@.subrange(start as int, i as int),
        decreases end - i,
    {
        out.push(s[i]);
        i = i + 1;
        assert(out@ =~= s@.subrange(start as int, i as int));
    }
    out
}

/// `split_once` on characters.
pub fn split_once_chars(s: &Vec<char>, c: char) -> (out: Option<(Vec<char>, Vec<char>)>)
    ensures
        match out {
            Some((a, b)) => split_once(s@, c) == Some((a@, b@)),
            None => split_once(s@, c) is None,
        },
{
    proof {
        lemma_find_char_bounds(s@, c);
    }
    let n = s.len();
    match find_char_exec(s, c) {
        Some(i) => {
            assert(i < n);
            let a = slice_chars(s, 0, i);
            let b = slice_chars(s, i + 1, n);
            assert(a@ =~= s@.take(i as int));
            assert(b@ =~= s@.skip(i + 1));
            Some((a, b))
        },
        None => None,
    }
}

/// `split` on characters.
pub fn split_chars(s: &Vec<char>, c: char) -> (out: Vec<Vec<char>>)
    ensures
        out@.len() == split(s@, c).len(),
        forall|k: int| 0 <= k < out@.len() ==> #[trigger] out@[k]@ == split(s@, c)[k],
{
    let mut out: Vec<Vec<char>> = Vec::new();
    let mut start: usize = 0;
    assert(s@.skip(0) =~= s@);
    assert(out@.map_values(|v: Vec<char>| v@) =~= Seq::<Seq<char>>::empty());
    loop
        invariant
            start <= s.len(),
            split(s@, c) =~= out@.map_values(|v: Vec<char>| v@) + split(s@.skip(start as int), c),
        decreases s.len() - start,
    {
        let rest = slice_chars(s, start, s.len());
        assert(rest@ =~= s@.skip(start as int));
        proof {
            lemma_find_char_bounds(rest@, c);
        }
        match find_char_exec(&rest, c) {
            Some(i) => {
                let piece = slice_chars(&rest, 0, i);
                assert(piece@ =~= rest@.take(i as int));
                assert(rest@.skip(i + 1) =~= s@.skip(start + i + 1));
                let ghost before = out@;
                out.push(piece);
                assert(out@.map_values(|v: Vec<char>| v@) =~= before.map_values(
                    |v: Vec<char>| v@,
                ).push(piece@));
                start = start + i + 1;
            },
            None => {
                let ghost before = out@;
                out.push(rest);
                assert(out@.map_values(|v: Vec<char>| v@) =~= before.map_values(
                    |v: Vec<char>| v@,
                ).push(rest@));
                assert(split(s@, c) =~= out@.map_values(|v: Vec<char>| v@));
                return out;
            },
        }
    }
}

proof fn lemma_digits_value_push(s: Seq<char>, c: char)
    ensures
        digits_value(s.push(c)) == digits_value(s) * 10 + digit_value(c),
{
    assert(s.push(c).drop_last() =~= s);
}

/// Reads a run of decimal digits as a number no larger than `max`.
fn digits_upto(s: &Vec<char>, from: usize, max: u64) -> (out: Option<u64>)
    requires
        from <= s.len(),
        max >= 10,
    ensures
        match out {
            Some(v) => {
                &&& s@.skip(from as int).len() > 0
                &&& all_digits(s@.skip(from as int))
                &&& digits_value(s@.skip(from as int)) <= max
                &&& v == digits_value(s@.skip(from as int))
            },
            None => !(s@.skip(from as int).len() > 0 && all_digits(s@.skip(from as int))
                && digits_value(s@.skip(from as int)) <= max),
        },
{
    if from == s.len() {
        return None;
    }
    let mut value: u64 = 0;
    let mut i: usize = from;
    while i < s.len()
        invariant
            from <= i <= s.len(),
            all_digits(s@.subrange(from as int, i as int)),
            value == digits_value(s@.subrange(from as int, i as int)),
            value <= max,
            max >= 10,
        decreases s.len() - i,
    {
        let c = s[i];
        proof {
            lemma_digits_value_push(s@.subrange(from as int, i as int), c);
            assert(s@.subrange(from as int, i as int).push(c) =~= s@.subrange(
                from as int,
                i + 1,
            ));
        }
        if !('0' <= c && c <= '9') {
            proof {
                assert(s@.skip(from as int)[i - from] == c);
                assert(!is_digit(s@.skip(from as int)[i - from]));
            }
            return None;
        }
        let d = (c as u64) - ('0' as u64);
        if value > (max - d) / 10 {
            proof {
                if all_digits(s@.skip(from as int)) {
                    lemma_digits_monotone(s@.skip(from as int), (i + 1 - from) as int);
                }
                assert(s@.skip(from as int).take((i + 1 - from) as int) =~= s@.subrange(
                    from as int,
                    i + 1,
                ));
                assert(value * 10 + d > max) by (nonlinear_arith)
                    requires
                        value > (max - d) / 10,
                        d <= 9,
                        max >= 10,
                ;
            }
            return None;
        }
        proof {
            assert(value * 10 + d <= max) by (nonlinear_arith)
                requires
                    value <= (max - d) / 10,
                    d <= 9,
            ;
        }
        value = value * 10 + d;
        i = i + 1;
    }
    assert(s@.subrange(from as int, s.len() as int) =~= s@.skip(from as int));
    Some(value)
}

/// A prefix of a digit run never spells more than the whole run.
proof fn lemma_digits_monotone(s: Seq<char>, k: int)
    requires
        0 <= k <= s.len(),
        all_digits(s),
    ensures
        digits_value(s.take(k)) <= digits_value(s),
    decreases s.len() - k,
{
    if k < s.len() {
        lemma_digits_monotone(s, k + 1);
        assert(s.take(k + 1).drop_last() =~= s.take(k));
        assert(s.take(k + 1).last() == s[k]);
        assert(is_digit(s[k]));
    } else {
        assert(s.take(k) =~= s);
    }
}

/// `str::parse::<T>()` for an unsigned `T` whose largest value is `max`.
pub fn parse_unsigned_exec(s: &Vec<char>, max: u64) -> (out: Option<u64>)
    requires
        max >= 10,
    ensures
        match out {
            Some(v) => parse_unsigned(s@, max as nat) == Some(v as nat),
            None => parse_unsigned(s@, max as nat) is None,
        },
{
    let from: usize = if s.len() > 0 && s[0] == '+' {
        1
    } else {
        0
    };
    proof {
        if s@.len() > 0 && s@[0] == '+' {
            assert(s@.skip(1) =~= s@.drop_first());
        } else {
            assert(s@.skip(0) =~= s@);
        }
    }
    digits_upto(s, from, max)
}

/// `str::parse::<i32>()`.
pub fn parse_i32_exec(s: &Vec<char>) -> (out: Option<i32>)
    ensures
        match out {
            Some(v) => parse_i32(s@) == Some(v as int),
            None => parse_i32(s@) is None,
        },
{
    if s.len() > 0 && s[0] == '-' {
        assert(s@.skip(1) =~= s@.drop_first());
        match digits_upto(s, 1, 0x8000_0000) {
            Some(v) => {
                let neg: i64 = -(v as i64);
                Some(neg as i32)
            },
            None => None,
        }
    } else {
        match parse_unsigned_exec(s, 0x7fff_ffff) {
            Some(v) => Some(v as i32),
            None => None,
        }
    }
}

/// `a` sorts strictly before `b` as `str`'s ordering has it: character by
/// character, a proper prefix first. (UTF-8 keeps code point order, so this
/// is the byte order `Ord for str` uses.)
pub open spec fn text_less(a: Seq<char>, b: Seq<char>) -> bool
    decreases a.len(),
{
    if a.len() == 0 {
        b.len() > 0
    } else if b.len() == 0 {
        false
    } else if a[0] != b[0] {
        (a[0] as u32) < (b[0] as u32)
    } else {
        text_less(a.drop_first(), b.drop_first())
    }
}

pub proof fn lemma_text_less_irreflexive(a: Seq<char>)
    ensures
        !text_less(a, a),
    decreases a.len(),
{
    if a.len() > 0 {
        lemma_text_less_irreflexive(a.drop_first());
    }
}

pub proof fn lemma_text_less_total(a: Seq<char>, b: Seq<char>)
    ensures
        a == b || text_less(a, b) || text_less(b, a),
    decreases a.len(),
{
    if a.len() == 0 && b.len() == 0 {
        assert(a =~= b);
    } else if a.len() > 0 && b.len() > 0 && a[0] == b[0] {
        lemma_text_less_total(a.drop_first(), b.drop_first());
        if a.drop_first() == b.drop_first() {
            assert(a =~= seq![a[0]] + a.drop_first());
            assert(b =~= seq![b[0]] + b.drop_first());
            assert(a =~= b);
        }
    } else if a.len() > 0 && b.len() > 0 {
        vstd::utf8::char_u32_cast(a[0], a[0] as u32);
        vstd::utf8::char_u32_cast(b[0], b[0] as u32);
    }
}

pub proof fn lemma_text_less_transitive(a: Seq<char>, b: Seq<char>, c: Seq<char>)
    requires
        text_less(a, b),
        text_less(b, c),
    ensures
        text_less(a, c),
    decreases a.len(),
{
    if a.len() > 0 && b.len() > 0 && c.len() > 0 && a[0] == b[0] && b[0] == c[0] {
        lemma_text_less_transitive(a.drop_first(), b.drop_first(), c.drop_first());
    }
}

pub proof fn lemma_text_less_asymmetric(a: Seq<char>, b: Seq<char>)
    requires
        text_less(a, b),
    ensures
        !text_less(b, a),
{
    if text_less(b, a) {
        lemma_text_less_transitive(a, b, a);
        lemma_text_less_irreflexive(a);
    }
}

/// Whether `a` sorts strictly before `b`.
pub fn text_less_exec(a: &str, b: &str) -> (less: bool)
    ensures
        less == text_less(a@, b@),
{
    let x = chars_of(a);
    let y = chars_of(b);
    let mut i: usize = 0;
    assert(x@.skip(0) =~= x@);
    assert(y@.skip(0) =~= y@);
    while i < x.len() && i < y.len() && x[i] == y[i]
        invariant
            i <= x@.len(),
            i <= y@.len(),
            x@ == a@,
            y@ == b@,
            text_less(a@, b@) == text_less(x@.skip(i as int), y@.skip(i as int)),
        decreases x@.len() - i,
    {
        assert(x@.skip(i as int).drop_first() =~= x@.skip(i + 1));
        assert(y@.skip(i as int).drop_first() =~= y@.skip(i + 1));
        i = i + 1;
    }
    if i == x.len() {
        i < y.len()
    } else if i == y.len() {
        false
    } else {
        (x[i] as u32) < (y[i] as u32)
    }
}

/// Positions of `names` in strictly increasing order of name.
pub fn sorted_positions(names: &Vec<&str>) -> (order: Vec<usize>)
    requires
        forall|i: int, j: int|
            0 <= i < names@.len() && 0 <= j < names@.len() && i != j ==> names@[i]@ != names@[j]@,
    ensures
        order@.len() == names@.len(),
        forall|k: int| 0 <= k < order@.len() ==> #[trigger] order@[k] < names@.len(),
        forall|k: int, l: int|
            0 <= k < l < order@.len() ==> text_less(
                names@[order@[k] as int]@,
                names@[order@[l] as int]@,
            ),
        forall|i: usize| i < names@.len() ==> #[trigger] order@.contains(i),
{
    let mut order: Vec<usize> = Vec::new();
    let mut i: usize = 0;
    while i < names.len()
        invariant
            i <= names@.len(),
            forall|a: int, b: int|
                0 <= a < names@.len() && 0 <= b < names@.len() && a != b ==> names@[a]@ != names@[b]@,
            order@.len() == i,
            forall|k: int| 0 <= k < order@.len() ==> #[trigger] order@[k] < i,
            forall|k: int, l: int|
                0 <= k < l < order@.len() ==> text_less(
                    names@[order@[k] as int]@,
                    names@[order@[l] as int]@,
                ),
            forall|j: usize| j < i ==> #[trigger] order@.contains(j),
        decreases names@.len() - i,
    {
        let ghost name = names@[i as int]@;
        let mut p: usize = 0;
        while p < order.len()
            invariant
                i < names@.len(),
                name == names@[i as int]@,
                order@.len() == i,
                forall|k: int| 0 <= k < order@.len() ==> #[trigger] order@[k] < i,
                p <= order@.len(),
                forall|m: int| 0 <= m < p ==> !text_less(name, #[trigger] names@[order@[m] as int]@),
            ensures
                p <= order@.len(),
                forall|m: int| 0 <= m < p ==> !text_less(name, #[trigger] names@[order@[m] as int]@),
                p < order@.len() ==> text_less(name, names@[order@[p as int] as int]@),
            decreases order@.len() - p,
        {
            if text_less_exec(names[i], names[order[p]]) {
                break;
            }
            p = p + 1;
        }
        let ghost before = order@;
        proof {
            assert forall|m: int| 0 <= m < p implies text_less(
                #[trigger] names@[before[m] as int]@,
                name,
            ) by {
                assert(before[m] < i);
                lemma_text_less_total(names@[before[m] as int]@, name);
            }
            assert forall|m: int| p <= m < before.len() implies text_less(
                name,
                #[trigger] names@[before[m] as int]@,
            ) by {
                if m > p {
                    lemma_text_less_transitive(
                        name,
                        names@[before[p as int] as int]@,
                        names@[before[m] as int]@,
                    );
                }
            }
        }
        order.insert(p, i);
        proof {
            assert forall|x: int| 0 <= x < order@.len() implies order@[x] == if x < p {
                before[x]
            } else if x == p {
                i
            } else {
                before[x - 1]
            } by {}
            assert forall|k: int, l: int| 0 <= k < l < order@.len() implies text_less(
                names@[order@[k] as int]@,
                names@[order@[l] as int]@,
            ) by {
                if k < p && l == p {
                    assert(text_less(names@[before[k] as int]@, name));
                } else if k == p {
                    assert(text_less(name, names@[before[l - 1] as int]@));
                } else if k < p && l > p {
                    assert(text_less(names@[before[k] as int]@, names@[before[l - 1] as int]@));
                } else if l < p {
                    assert(text_less(names@[before[k] as int]@, names@[before[l] as int]@));
                } else {
                    assert(text_less(names@[before[k - 1] as int]@, names@[before[l - 1] as int]@));
                }
            }
            assert forall|j: usize| j < i + 1 implies #[trigger] order@.contains(j) by {
                if j == i {
                    assert(order@[p as int] == j);
                } else {
                    assert(before.contains(j));
                    let k0 = choose|k: int| 0 <= k < before.len() && before[k] == j;
                    if k0 < p {
                        assert(order@[k0] == j);
                    } else {
                        assert(order@[k0 + 1] == j);
                    }
                }
            }
        }
        i = i + 1;
    }
    order
}

/// `find_char` is the first position holding `c`, or -1 where none does.
pub proof fn lemma_find_char_first(s: Seq<char>, c: char, i: int)
    requires
        -1 <= i < s.len(),
        i >= 0 ==> s[i] == c,
        forall|j: int| 0 <= j < s.len() && (i < 0 || j < i) ==> s[j] != c,
    ensures
        find_char(s, c) == i,
    decreases s.len(),
{
    lemma_find_char_bounds(s, c);
    let f = find_char(s, c);
    if f >= 0 && i >= 0 && f != i {
        if f < i {
            assert(s[f] != c);
        } else {
            assert(s[i] != c);
        }
    } else if f >= 0 && i < 0 {
        assert(s[f] != c);
    } else if f < 0 && i >= 0 {
        assert(s[i] != c);
    }
}

/// Splitting text with one more separated piece at its end gives one more
/// piece.
pub proof fn lemma_split_snoc(s: Seq<char>, t: Seq<char>, c: char)
    requires
        forall|j: int| 0 <= j < t.len() ==> t[j] != c,
    ensures
        split(s + seq![c] + t, c) == split(s, c).push(t),
    decreases s.len(),
{
    let whole = s + seq![c] + t;
    lemma_find_char_bounds(s, c);
    let i = find_char(s, c);
    if i < 0 {
        lemma_find_char_first(whole, c, s.len() as int);
        assert(whole.take(s.len() as int) =~= s);
        assert(whole.skip(s.len() as int + 1) =~= t);
        lemma_split_whole(t, c);
        assert(split(whole, c) == seq![whole.take(s.len() as int)] + split(whole.skip(s.len() as int + 1), c));
        assert(split(whole, c) =~= seq![s] + seq![t]);
        lemma_split_whole(s, c);
    } else {
        lemma_find_char_first(whole, c, i);
        assert(whole.take(i) =~= s.take(i));
        assert(whole.skip(i + 1) =~= s.skip(i + 1) + seq![c] + t);
        lemma_split_snoc(s.skip(i + 1), t, c);
        assert(split(whole, c) =~= seq![s.take(i)] + split(s.skip(i + 1), c).push(t));
        assert(split(s, c) == seq![s.take(i)] + split(s.skip(i + 1), c));
    }
}

/// Text without the separator is one piece.
pub proof fn lemma_split_whole(t: Seq<char>, c: char)
    requires
        forall|j: int| 0 <= j < t.len() ==> t[j] != c,
    ensures
        split(t, c) == seq![t],
{
    lemma_find_char_first(t, c, -1);
}


// ---------------------------------------------------------------------------
// The text a float reads from
// ---------------------------------------------------------------------------

/// `c` with an ASCII capital made small.
pub open spec fn ascii_lower(c: char) -> char {
    if 'A' <= c && c <= 'Z' {
        ((c as u32) + 32) as char
    } else {
        c
    }
}

/// `s` with its ASCII capitals made small.
pub open spec fn lowered(s: Seq<char>) -> Seq<char> {
    s.map_values(|c: char| ascii_lower(c))
}

/// Digits with at most one point among them, and a digit somewhere:
/// `Digit+ | Digit+ '.' Digit* | Digit* '.' Digit+`.
pub open spec fn is_decimal_mantissa(m: Seq<char>) -> bool {
    let p = find_char(m, '.');
    if p < 0 {
        m.len() > 0 && all_digits(m)
    } else {
        all_digits(m.take(p)) && all_digits(m.skip(p + 1)) && m.len() > 1
    }
}

/// What follows an exponent's `e`: `Sign? Digit+`.
pub open spec fn is_exponent_digits(x: Seq<char>) -> bool {
    let d = if x.len() > 0 && (x[0] == '+' || x[0] == '-') {
        x.skip(1)
    } else {
        x
    };
    d.len() > 0 && all_digits(d)
}

/// A decimal number with an optional exponent, in small letters:
/// `Number ::= Mantissa ('e' Sign? Digit+)?`.
pub open spec fn is_number_text(t: Seq<char>) -> bool {
    let e = find_char(t, 'e');
    if e < 0 {
        is_decimal_mantissa(t)
    } else {
        is_decimal_mantissa(t.take(e)) && is_exponent_digits(t.skip(e + 1))
    }
}

/// The texts `f32::from_str` reads, by the grammar its documentation gives:
/// an optional sign, then `inf`, `infinity`, `nan` or a decimal number with
/// an optional exponent, letters in either case, and nothing around them.
pub open spec fn is_float_text(s: Seq<char>) -> bool {
    let body = if s.len() > 0 && (s[0] == '+' || s[0] == '-') {
        s.skip(1)
    } else {
        s
    };
    let t = lowered(body);
    t == "inf"@ || t == "infinity"@ || t == "nan"@ || is_number_text(t)
}

/// Whether `s[from..to]` is all digits.
fn digits_between(s: &Vec<char>, from: usize, to: usize) -> (ok: bool)
    requires
        from <= to <= s@.len(),
    ensures
        ok == all_digits(s@.subrange(from as int, to as int)),
{
    let mut i = from;
    while i < to
        invariant
            from <= i <= to <= s@.len(),
            all_digits(s@.subrange(from as int, i as int)),
        decreases to - i,
    {
        if !('0' <= s[i] && s[i] <= '9') {
            assert(s@.subrange(from as int, to as int)[i - from] == s@[i as int]);
            assert(!is_digit(s@.subrange(from as int, to as int)[i - from]));
            return false;
        }
        i = i + 1;
        assert forall|k: int| 0 <= k < s@.subrange(from as int, i as int).len() implies #[trigger] is_digit(
            s@.subrange(from as int, i as int)[k],
        ) by {
            if k < i - 1 - from {
                assert(s@.subrange(from as int, i as int)[k] == s@.subrange(from as int, i - 1)[k]);
            }
        }
    }
    true
}

/// `is_decimal_mantissa` of `s[from..to]`.
fn decimal_mantissa(s: &Vec<char>, from: usize, to: usize) -> (ok: bool)
    requires
        from <= to <= s@.len(),
    ensures
        ok == is_decimal_mantissa(s@.subrange(from as int, to as int)),
{
    let m = slice_chars(s, from, to);
    proof {
        lemma_find_char_bounds(m@, '.');
    }
    assert(m@.subrange(0, m@.len() as int) =~= m@);
    match find_char_exec(&m, '.') {
        None => m.len() > 0 && digits_between(&m, 0, m.len()),
        Some(p) => {
            assert(m@.take(p as int) =~= m@.subrange(0, p as int));
            assert(m@.skip(p + 1) =~= m@.subrange(p + 1, m@.len() as int));
            digits_between(&m, 0, p) && digits_between(&m, p + 1, m.len()) && m.len() > 1
        },
    }
}

/// Whether `s` is text `f32::from_str` reads: `is_float_text`.
pub fn float_text(s: &str) -> (ok: bool)
    ensures
        ok == is_float_text(s@),
{
    let chars = chars_of(s);
    let start: usize = if chars.len() > 0 && (chars[0] == '+' || chars[0] == '-') {
        1
    } else {
        0
    };
    let ghost body = if s@.len() > 0 && (s@[0] == '+' || s@[0] == '-') {
        s@.skip(1)
    } else {
        s@
    };
    assert(chars@.subrange(start as int, chars@.len() as int) =~= body);
    let mut t: Vec<char> = Vec::new();
    let mut i = start;
    while i < chars.len()
        invariant
            start <= i <= chars@.len(),
            t@ == lowered(chars@.subrange(start as int, i as int)),
        decreases chars@.len() - i,
    {
        let c = chars[i];
        let l = if 'A' <= c && c <= 'Z' {
            ((c as u8) + 32) as char
        } else {
            c
        };
        t.push(l);
        i = i + 1;
        assert(t@ =~= lowered(chars@.subrange(start as int, i as int)));
    }
    assert(t@ == lowered(body));
    let text = string_of(&t);
    if same_text(text.as_str(), "inf") || same_text(text.as_str(), "infinity") || same_text(
        text.as_str(),
        "nan",
    ) {
        return true;
    }
    proof {
        lemma_find_char_bounds(t@, 'e');
    }
    assert(t@.subrange(0, t@.len() as int) =~= t@);
    match find_char_exec(&t, 'e') {
        None => decimal_mantissa(&t, 0, t.len()),
        Some(e) => {
            assert(t@.take(e as int) =~= t@.subrange(0, e as int));
            let x = slice_chars(&t, e + 1, t.len());
            assert(x@ =~= t@.skip(e + 1));
            if !decimal_mantissa(&t, 0, e) {
                return false;
            }
            if x.len() > 0 && (x[0] == '+' || x[0] == '-') {
                assert(x@.skip(1) =~= x@.subrange(1, x@.len() as int));
                x.len() > 1 && digits_between(&x, 1, x.len())
            } else {
                assert(x@ =~= x@.subrange(0, x@.len() as int));
                x.len() > 0 && digits_between(&x, 0, x.len())
            }
        },
    }
}

} // verus!
