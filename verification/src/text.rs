//! Characters, strings and lines: the small text operations the rest of the
//! library is built from.

use vstd::prelude::*;
use vstd::std_specs::iter::IteratorSpec;

verus! {

/// `String::push` appends the given character to the end of the string.
pub assume_specification[ String::push ](s: &mut String, ch: char)
    ensures
        final(s)@ == old(s)@.push(ch),
;

/// The characters of `s`, in order.
pub fn chars_of(s: &str) -> (v: Vec<char>)
    ensures
        v@ == s@,
{
    let mut v: Vec<char> = Vec::new();
    for c in it: s.chars()
        invariant
            v@ == it.seq().take(it.index() as int),
            it.seq() == s@,
    {
        v.push(c);
    }
    v
}

/// Appends the characters `v[from..to]` to `out`.
pub(crate) fn push_chars(out: &mut String, v: &Vec<char>, from: usize, to: usize)
    requires
        from <= to <= v.len(),
    ensures
        final(out)@ == old(out)@ + v@.subrange(from as int, to as int),
{
    let mut i: usize = from;
    while i < to
        invariant
            from <= i <= to <= v.len(),
            out@ == old(out)@ + v@.subrange(from as int, i as int),
        decreases to - i,
    {
        out.push(v[i]);
        i += 1;
    }
}

/// The string made of the characters `v[from..to]`.
pub(crate) fn string_of(v: &Vec<char>, from: usize, to: usize) -> (s: String)
    requires
        from <= to <= v.len(),
    ensures
        s@ == v@.subrange(from as int, to as int),
{
    let mut s = String::new();
    push_chars(&mut s, v, from, to);
    s
}

/// Whether `s` begins with `p`.
pub open spec fn has_prefix(s: Seq<char>, p: Seq<char>) -> bool {
    p.len() <= s.len() && s.take(p.len() as int) == p
}

/// Tests whether the characters of `v` from position `at` on begin with `pat`.
pub(crate) fn matches_at(v: &Vec<char>, at: usize, pat: &str) -> (r: bool)
    requires
        at <= v.len(),
    ensures
        r == has_prefix(v@.skip(at as int), pat@),
{
    let ghost rest = v@.skip(at as int);
    let mut ok = true;
    let mut i: usize = at;
    for c in it: pat.chars()
        invariant
            it.seq() == pat@,
            rest == v@.skip(at as int),
            at <= v.len(),
            ok ==> i == at + it.index() && i <= v.len(),
            ok ==> rest.take(it.index() as int) == pat@.take(it.index() as int),
            !ok ==> !has_prefix(rest, pat@),
    {
        if ok {
            if i < v.len() && v[i] == c {
                i += 1;
            } else {
                ok = false;
                proof {
                    if has_prefix(rest, pat@) {
                        let k = it.index() as int;
                        assert(rest.take(pat@.len() as int)[k] == pat@[k]);
                    }
                }
            }
        }
    }
    proof {
        assert(pat@.take(pat@.len() as int) =~= pat@);
    }
    ok
}

/// The position of the first `c` in `s`, or the length of `s` if it holds
/// none.
pub open spec fn first_index_of(s: Seq<char>, c: char) -> int
    decreases s.len(),
{
    if s.len() == 0 {
        0
    } else if s[0] == c {
        0
    } else {
        1 + first_index_of(s.drop_first(), c)
    }
}

/// `first_index_of` is the one position before which no `c` stands and at
/// which either a `c` stands or the sequence ends.
pub proof fn lemma_first_index_of(s: Seq<char>, c: char, k: int)
    requires
        0 <= k <= s.len(),
        forall|i: int| 0 <= i < k ==> s[i] != c,
        k < s.len() ==> s[k] == c,
    ensures
        first_index_of(s, c) == k,
    decreases s.len(),
{
    if s.len() == 0 || k == 0 {
    } else {
        let t = s.drop_first();
        assert forall|i: int| 0 <= i < k - 1 implies t[i] != c by {
            assert(t[i] == s[i + 1]);
        }
        lemma_first_index_of(t, c, k - 1);
    }
}

/// What `first_index_of` returns: a position within bounds, with no `c`
/// before it and a `c` at it unless it is the end.
pub proof fn lemma_first_index_of_is_first(s: Seq<char>, c: char)
    ensures
        0 <= first_index_of(s, c) <= s.len(),
        forall|i: int| 0 <= i < first_index_of(s, c) ==> s[i] != c,
        first_index_of(s, c) < s.len() ==> s[first_index_of(s, c)] == c,
    decreases s.len(),
{
    if s.len() == 0 || s[0] == c {
    } else {
        let t = s.drop_first();
        lemma_first_index_of_is_first(t, c);
        assert forall|i: int| 0 <= i < first_index_of(s, c) implies s[i] != c by {
            if i > 0 {
                assert(t[i - 1] == s[i]);
            }
        }
    }
}

/// Finds the first `c` at or after position `from`; returns the length of `v`
/// if there is none.
pub(crate) fn find_char(v: &Vec<char>, from: usize, c: char) -> (r: usize)
    requires
        from <= v.len(),
    ensures
        from <= r <= v.len(),
        r - from == first_index_of(v@.skip(from as int), c),
{
    let mut i: usize = from;
    while i < v.len() && v[i] != c
        invariant
            from <= i <= v.len(),
            forall|j: int| from <= j < i ==> v@[j] != c,
        decreases v.len() - i,
    {
        i += 1;
    }
    proof {
        lemma_first_index_of(v@.skip(from as int), c, i - from);
    }
    i
}

/// Whether `a` stands at position `i` of `s` with `b` directly behind it.
pub open spec fn pair_at(s: Seq<char>, i: int, a: char, b: char) -> bool {
    0 <= i && i + 1 < s.len() && s[i] == a && s[i + 1] == b
}

/// The position of the first `a` directly followed by `b` in `s`, or the
/// length of `s` if there is no such pair.
pub open spec fn first_pair(s: Seq<char>, a: char, b: char) -> int
    decreases s.len(),
{
    if s.len() < 2 {
        s.len() as int
    } else if s[0] == a && s[1] == b {
        0
    } else {
        1 + first_pair(s.drop_first(), a, b)
    }
}

/// `first_pair` is the one position before which no pair `a`, `b` begins and
/// at which either such a pair begins or the sequence ends.
pub proof fn lemma_first_pair(s: Seq<char>, a: char, b: char, k: int)
    requires
        0 <= k <= s.len(),
        forall|i: int| 0 <= i < k ==> !#[trigger] pair_at(s, i, a, b),
        k < s.len() ==> pair_at(s, k, a, b),
    ensures
        first_pair(s, a, b) == k,
    decreases s.len(),
{
    if s.len() < 2 {
        if k < s.len() {
            assert(pair_at(s, k, a, b));
        }
    } else if k == 0 {
    } else {
        let t = s.drop_first();
        assert forall|i: int| 0 <= i < k - 1 implies !#[trigger] pair_at(t, i, a, b) by {
            assert(!pair_at(s, i + 1, a, b));
        }
        assert(!pair_at(s, 0, a, b));
        lemma_first_pair(t, a, b, k - 1);
    }
}

/// What `first_pair` returns: a position within bounds, with no pair
/// beginning before it and a pair beginning at it unless it is the end.
pub proof fn lemma_first_pair_is_first(s: Seq<char>, a: char, b: char)
    ensures
        0 <= first_pair(s, a, b) <= s.len(),
        forall|i: int| 0 <= i < first_pair(s, a, b) ==> !#[trigger] pair_at(s, i, a, b),
        first_pair(s, a, b) < s.len() ==> pair_at(s, first_pair(s, a, b), a, b),
    decreases s.len(),
{
    if s.len() < 2 {
    } else if s[0] == a && s[1] == b {
    } else {
        let t = s.drop_first();
        lemma_first_pair_is_first(t, a, b);
        let k = first_pair(s, a, b);
        assert forall|i: int| 0 <= i < k implies !#[trigger] pair_at(s, i, a, b) by {
            if i > 0 {
                assert(!pair_at(t, i - 1, a, b));
            }
        }
        if k < s.len() {
            assert(pair_at(t, k - 1, a, b));
        }
    }
}

/// Finds the first `a` directly followed by `b` at or after position `from`;
/// returns the length of `v` if there is no such pair.
pub(crate) fn find_pair(v: &Vec<char>, from: usize, a: char, b: char) -> (r: usize)
    requires
        from <= v.len(),
    ensures
        from <= r <= v.len(),
        r - from == first_pair(v@.skip(from as int), a, b),
{
    let n = v.len();
    let mut i: usize = from;
    while i < n && !(i + 1 < n && v[i] == a && v[i + 1] == b)
        invariant
            n == v.len(),
            from <= i <= n,
            forall|j: int| from <= j < i ==> !#[trigger] pair_at(v@, j, a, b),
        decreases n - i,
    {
        i += 1;
    }
    proof {
        let s = v@.skip(from as int);
        assert forall|j: int| 0 <= j < i - from implies !#[trigger] pair_at(s, j, a, b) by {
            assert(!pair_at(v@, from + j, a, b));
        }
        if i < n {
            assert(pair_at(s, i - from, a, b));
        }
        lemma_first_pair(s, a, b, i - from);
    }
    i
}

/// Whether `c` is one of the ten ASCII decimal digits.
pub open spec fn is_digit(c: char) -> bool {
    '0' <= c && c <= '9'
}

/// The number that the digit `c` stands for.
pub open spec fn digit_value(c: char) -> nat {
    (c as u32 - '0' as u32) as nat
}

/// The digit that stands for `d`, for `d` below ten.
pub open spec fn digit_char(d: nat) -> char {
    if d == 0 {
        '0'
    } else if d == 1 {
        '1'
    } else if d == 2 {
        '2'
    } else if d == 3 {
        '3'
    } else if d == 4 {
        '4'
    } else if d == 5 {
        '5'
    } else if d == 6 {
        '6'
    } else if d == 7 {
        '7'
    } else if d == 8 {
        '8'
    } else {
        '9'
    }
}

/// The number written by the digits `s` in base ten; zero for no digits.
pub open spec fn digits_value(s: Seq<char>) -> nat
    decreases s.len(),
{
    if s.len() == 0 {
        0
    } else {
        10 * digits_value(s.drop_last()) + digit_value(s.last())
    }
}

/// How many digits stand at the beginning of `s`.
pub open spec fn digit_run(s: Seq<char>) -> int
    decreases s.len(),
{
    if s.len() > 0 && is_digit(s[0]) {
        1 + digit_run(s.drop_first())
    } else {
        0
    }
}

/// `digit_run` is the one position before which all characters are digits and
/// at which either a character that is no digit stands or the sequence ends.
pub proof fn lemma_digit_run(s: Seq<char>, k: int)
    requires
        0 <= k <= s.len(),
        forall|i: int| 0 <= i < k ==> is_digit(#[trigger] s[i]),
        k < s.len() ==> !is_digit(s[k]),
    ensures
        digit_run(s) == k,
    decreases s.len(),
{
    if s.len() == 0 || k == 0 {
    } else {
        let t = s.drop_first();
        assert forall|i: int| 0 <= i < k - 1 implies is_digit(#[trigger] t[i]) by {
            assert(t[i] == s[i + 1]);
        }
        assert(is_digit(s[0]));
        lemma_digit_run(t, k - 1);
    }
}

/// What `digit_run` returns: a position within bounds, with digits alone
/// before it and no digit at it.
pub proof fn lemma_digit_run_is_run(s: Seq<char>)
    ensures
        0 <= digit_run(s) <= s.len(),
        forall|i: int| 0 <= i < digit_run(s) ==> is_digit(#[trigger] s[i]),
        digit_run(s) < s.len() ==> !is_digit(s[digit_run(s)]),
    decreases s.len(),
{
    if s.len() > 0 && is_digit(s[0]) {
        let t = s.drop_first();
        lemma_digit_run_is_run(t);
        assert forall|i: int| 0 <= i < digit_run(s) implies is_digit(#[trigger] s[i]) by {
            if i > 0 {
                assert(t[i - 1] == s[i]);
            }
        }
    }
}

/// The digits of `n` in base ten, without leading zeros; `0` for zero.
pub open spec fn decimal(n: nat) -> Seq<char>
    decreases n,
{
    if n < 10 {
        seq![digit_char(n)]
    } else {
        decimal(n / 10).push(digit_char(n % 10))
    }
}

/// `i` in base ten, with a minus sign in front if it is negative.
pub open spec fn signed_decimal(i: int) -> Seq<char> {
    if i < 0 {
        seq!['-'] + decimal((-i) as nat)
    } else {
        decimal(i as nat)
    }
}

/// `decimal(n)` is a non-empty run of digits that reads back as `n`.
pub proof fn lemma_decimal(n: nat)
    ensures
        decimal(n).len() >= 1,
        forall|i: int| 0 <= i < decimal(n).len() ==> is_digit(#[trigger] decimal(n)[i]),
        digits_value(decimal(n)) == n,
    decreases n,
{
    if n < 10 {
        let s = decimal(n);
        assert(s.drop_last().len() == 0);
        assert(digits_value(s) == 10 * digits_value(s.drop_last()) + digit_value(s.last()));
    } else {
        lemma_decimal(n / 10);
        let s = decimal(n);
        assert(s.drop_last() =~= decimal(n / 10));
        assert(s.last() == digit_char(n % 10));
    }
}

/// The character that stands for the digit `d`.
pub(crate) fn char_of_digit(d: u8) -> (c: char)
    requires
        d < 10,
    ensures
        c == digit_char(d as nat),
{
    match d {
        0 => '0',
        1 => '1',
        2 => '2',
        3 => '3',
        4 => '4',
        5 => '5',
        6 => '6',
        7 => '7',
        8 => '8',
        _ => '9',
    }
}

/// Appends `n` in base ten to `out`.
pub fn push_decimal(out: &mut String, n: u128)
    ensures
        final(out)@ == old(out)@ + decimal(n as nat),
    decreases n,
{
    if n >= 10 {
        push_decimal(out, n / 10);
    }
    out.push(char_of_digit((n % 10) as u8));
    proof {
        if n >= 10 {
            assert(old(out)@ + decimal(n as nat) =~= (old(out)@ + decimal((n / 10) as nat)).push(
                digit_char((n % 10) as nat),
            ));
        } else {
            assert(old(out)@ + decimal(n as nat) =~= old(out)@.push(digit_char(n as nat)));
        }
    }
}

/// Tests a character for being an ASCII decimal digit.
pub fn char_is_digit(c: char) -> (r: bool)
    ensures
        r == is_digit(c),
{
    '0' <= c && c <= '9'
}

/// Reads the run of digits that begins at position `from`. Returns where the
/// run ends and the number it writes, if that number is at most `limit`.
pub(crate) fn scan_number(v: &Vec<char>, from: usize, limit: u32) -> (r: (usize, Option<u32>))
    requires
        from <= v.len(),
    ensures
        from <= r.0 <= v.len(),
        r.0 - from == digit_run(v@.skip(from as int)),
        r.1 == (if digits_value(v@.subrange(from as int, r.0 as int)) <= limit {
            Some(digits_value(v@.subrange(from as int, r.0 as int)) as u32)
        } else {
            None
        }),
{
    let mut i: usize = from;
    let mut value: u64 = 0;
    let mut fits = true;
    while i < v.len() && char_is_digit(v[i])
        invariant
            from <= i <= v.len(),
            forall|j: int| from <= j < i ==> is_digit(#[trigger] v@[j]),
            fits ==> value == digits_value(v@.subrange(from as int, i as int)) && value <= limit,
            !fits ==> digits_value(v@.subrange(from as int, i as int)) > limit,
        decreases v.len() - i,
    {
        let d: u64 = (v[i] as u32 - '0' as u32) as u64;
        proof {
            let next = v@.subrange(from as int, i + 1);
            assert(next.drop_last() =~= v@.subrange(from as int, i as int));
            assert(next.last() == v@[i as int]);
        }
        if fits {
            value = value * 10 + d;
            if value > limit as u64 {
                fits = false;
            }
        }
        i += 1;
    }
    proof {
        let s = v@.skip(from as int);
        assert forall|j: int| 0 <= j < i - from implies is_digit(#[trigger] s[j]) by {
            assert(s[j] == v@[from + j]);
        }
        lemma_digit_run(s, i - from);
    }
    if fits {
        (i, Some(value as u32))
    } else {
        (i, None)
    }
}

/// The dictionary order on strings: `a` comes strictly before `b`.
/// Characters are ordered by their code points, and a string comes after each
/// of its proper prefixes.
pub open spec fn lex_less(a: Seq<char>, b: Seq<char>) -> bool
    decreases a.len(),
{
    if b.len() == 0 {
        false
    } else if a.len() == 0 {
        true
    } else if a[0] != b[0] {
        a[0] < b[0]
    } else {
        lex_less(a.drop_first(), b.drop_first())
    }
}

/// No string comes before itself, and of two strings at most one comes before
/// the other.
pub proof fn lemma_lex_less_asymmetric(a: Seq<char>, b: Seq<char>)
    ensures
        !(lex_less(a, b) && lex_less(b, a)),
        !lex_less(a, a),
    decreases a.len(),
{
    if a.len() > 0 {
        lemma_lex_less_asymmetric(a.drop_first(), a.drop_first());
        if b.len() > 0 && a[0] == b[0] {
            lemma_lex_less_asymmetric(a.drop_first(), b.drop_first());
        }
    }
}

/// The dictionary order is transitive.
pub proof fn lemma_lex_less_transitive(a: Seq<char>, b: Seq<char>, c: Seq<char>)
    requires
        lex_less(a, b),
        lex_less(b, c),
    ensures
        lex_less(a, c),
    decreases a.len(),
{
    if a.len() > 0 && b.len() > 0 && c.len() > 0 {
        if a[0] == b[0] && b[0] == c[0] {
            lemma_lex_less_transitive(a.drop_first(), b.drop_first(), c.drop_first());
        }
    }
}

/// Of two different strings one comes before the other.
pub proof fn lemma_lex_less_total(a: Seq<char>, b: Seq<char>)
    ensures
        a == b || lex_less(a, b) || lex_less(b, a),
    decreases a.len(),
{
    if a.len() == 0 || b.len() == 0 {
        if a.len() == 0 && b.len() == 0 {
            assert(a =~= b);
        }
    } else if a[0] == b[0] {
        lemma_lex_less_total(a.drop_first(), b.drop_first());
        if a.drop_first() == b.drop_first() {
            assert(a =~= seq![a[0]] + a.drop_first());
            assert(b =~= seq![b[0]] + b.drop_first());
        }
    }
}

/// Tests whether `a` comes strictly before `b` in the dictionary order.
pub fn str_less(a: &str, b: &str) -> (r: bool)
    ensures
        r == lex_less(a@, b@),
{
    broadcast use vstd::string::group_string_axioms;

    let mut ia = a.chars();
    let mut ib = b.chars();
    loop
        invariant
            lex_less(a@, b@) == lex_less(ia.remaining(), ib.remaining()),
            ia.decrease() is Some,
        decreases ia.decrease()->0,
    {
        let cb = ib.next();
        let ca = ia.next();
        match cb {
            None => {
                return false;
            },
            Some(y) => match ca {
                None => {
                    return true;
                },
                Some(x) => {
                    if x != y {
                        return x < y;
                    }
                },
            },
        }
    }
}

/// Tests whether `a` and `b` hold the same characters.
pub fn str_same(a: &str, b: &str) -> (r: bool)
    ensures
        r == (a@ == b@),
{
    broadcast use vstd::string::group_string_axioms;

    let mut ia = a.chars();
    let mut ib = b.chars();
    let ghost mut done: int = 0;
    loop
        invariant
            0 <= done <= a@.len(),
            done <= b@.len(),
            ia.remaining() == a@.skip(done),
            ib.remaining() == b@.skip(done),
            a@.take(done) == b@.take(done),
            ia.decrease() is Some,
        decreases ia.decrease()->0,
    {
        let cb = ib.next();
        let ca = ia.next();
        match ca {
            None => {
                proof {
                    assert(a@.take(done) =~= a@);
                    if cb is None {
                        assert(b@.take(done) =~= b@);
                    }
                }
                return cb.is_none();
            },
            Some(x) => match cb {
                None => {
                    proof {
                        assert(b@.take(done) =~= b@);
                    }
                    return false;
                },
                Some(y) => {
                    proof {
                        assert(a@.skip(done)[0] == a@[done]);
                        assert(b@.skip(done)[0] == b@[done]);
                    }
                    if x != y {
                        return false;
                    }
                    proof {
                        assert(a@.skip(done).drop_first() =~= a@.skip(done + 1));
                        assert(b@.skip(done).drop_first() =~= b@.skip(done + 1));
                        assert(a@.take(done + 1) =~= a@.take(done).push(x));
                        assert(b@.take(done + 1) =~= b@.take(done).push(y));
                        done = done + 1;
                    }
                },
            },
        }
    }
}

/// The views of a vector of character vectors.
pub open spec fn rows(v: Seq<Vec<char>>) -> Seq<Seq<char>> {
    Seq::new(v.len(), |i: int| v[i]@)
}

/// A copy of the characters `v[from..to]`.
pub(crate) fn copy_range(v: &Vec<char>, from: usize, to: usize) -> (r: Vec<char>)
    requires
        from <= to <= v.len(),
    ensures
        r@ == v@.subrange(from as int, to as int),
{
    let mut r: Vec<char> = Vec::new();
    let mut i: usize = from;
    while i < to
        invariant
            from <= i <= to <= v.len(),
            r@ == v@.subrange(from as int, i as int),
        decreases to - i,
    {
        r.push(v[i]);
        i += 1;
    }
    r
}

/// `line` without one carriage return at its end, if it has one.
pub open spec fn strip_cr(line: Seq<char>) -> Seq<char> {
    if line.len() > 0 && line.last() == '\r' {
        line.drop_last()
    } else {
        line
    }
}

/// The lines of a text. A line ends at a line feed, or at a carriage return
/// directly followed by a line feed; neither belongs to the line. What
/// follows the last line feed is a line too unless it is empty, and keeps a
/// carriage return at its end.
pub open spec fn split_lines(s: Seq<char>) -> Seq<Seq<char>>
    decreases s.len(),
{
    let n = first_index_of(s, '\n');
    if s.len() == 0 {
        Seq::empty()
    } else if 0 <= n < s.len() {
        seq![strip_cr(s.take(n))] + split_lines(s.skip(n + 1))
    } else {
        seq![s]
    }
}

/// Splits a text into its lines.
pub fn lines_of(v: &Vec<char>) -> (lines: Vec<Vec<char>>)
    ensures
        rows(lines@) == split_lines(v@),
{
    let mut lines: Vec<Vec<char>> = Vec::new();
    let n = v.len();
    let mut pos: usize = 0;
    proof {
        assert(v@.skip(0) =~= v@);
        assert(rows(lines@) + split_lines(v@) =~= split_lines(v@));
    }
    while pos < n
        invariant
            n == v.len(),
            pos <= n,
            split_lines(v@) == rows(lines@) + split_lines(v@.skip(pos as int)),
        decreases n - pos,
    {
        let ghost rest = v@.skip(pos as int);
        let ghost before = rows(lines@);
        let end = find_char(v, pos, '\n');
        if end < n {
            let stop = if end > pos && v[end - 1] == '\r' {
                end - 1
            } else {
                end
            };
            let line = copy_range(v, pos, stop);
            proof {
                assert(rest.take(end - pos) =~= v@.subrange(pos as int, end as int));
                assert(line@ =~= strip_cr(rest.take(end - pos)));
                assert(rest.skip(end - pos + 1) =~= v@.skip(end + 1));
            }
            lines.push(line);
            proof {
                assert(rows(lines@) =~= before.push(line@));
                assert(rows(lines@) + split_lines(v@.skip(end + 1)) =~= before + (seq![line@]
                    + split_lines(v@.skip(end + 1))));
            }
            pos = end + 1;
        } else {
            let line = copy_range(v, pos, n);
            proof {
                assert(line@ =~= rest);
                assert(v@.skip(n as int) =~= Seq::<char>::empty());
            }
            lines.push(line);
            proof {
                assert(rows(lines@) =~= before.push(line@));
                assert(rows(lines@) + split_lines(v@.skip(n as int)) =~= before + seq![rest]);
            }
            pos = n;
        }
    }
    proof {
        assert(v@.skip(pos as int) =~= Seq::<char>::empty());
        assert(rows(lines@) + Seq::<Seq<char>>::empty() =~= rows(lines@));
    }
    lines
}

/// Whether `c` is white space: one of the characters that Unicode marks
/// White_Space.
pub open spec fn is_space(c: char) -> bool {
    ||| c == ' '
    ||| ('\u{9}' <= c && c <= '\u{d}')
    ||| c == '\u{85}'
    ||| c == '\u{a0}'
    ||| c == '\u{1680}'
    ||| ('\u{2000}' <= c && c <= '\u{200a}')
    ||| c == '\u{2028}'
    ||| c == '\u{2029}'
    ||| c == '\u{202f}'
    ||| c == '\u{205f}'
    ||| c == '\u{3000}'
}

/// Tests a character for being white space.
pub fn char_is_space(c: char) -> (r: bool)
    ensures
        r == is_space(c),
{
    c == ' ' || ('\u{9}' <= c && c <= '\u{d}') || c == '\u{85}' || c == '\u{a0}' || c
        == '\u{1680}' || ('\u{2000}' <= c && c <= '\u{200a}') || c == '\u{2028}' || c
        == '\u{2029}' || c == '\u{202f}' || c == '\u{205f}' || c == '\u{3000}'
}

/// How many characters that are no white space stand at the beginning of `s`.
pub open spec fn word_len(s: Seq<char>) -> int
    decreases s.len(),
{
    if s.len() > 0 && !is_space(s[0]) {
        1 + word_len(s.drop_first())
    } else {
        0
    }
}

/// `word_len` is the one position before which no white space stands and at
/// which either white space stands or the sequence ends.
pub proof fn lemma_word_len(s: Seq<char>, k: int)
    requires
        0 <= k <= s.len(),
        forall|i: int| 0 <= i < k ==> !is_space(#[trigger] s[i]),
        k < s.len() ==> is_space(s[k]),
    ensures
        word_len(s) == k,
    decreases s.len(),
{
    if s.len() == 0 || k == 0 {
    } else {
        let t = s.drop_first();
        assert forall|i: int| 0 <= i < k - 1 implies !is_space(#[trigger] t[i]) by {
            assert(t[i] == s[i + 1]);
        }
        assert(!is_space(s[0]));
        lemma_word_len(t, k - 1);
    }
}

/// The words of a text: its longest runs of characters that are no white
/// space, in order.
pub open spec fn split_words(s: Seq<char>) -> Seq<Seq<char>>
    decreases s.len(),
{
    let n = word_len(s);
    if s.len() == 0 {
        Seq::empty()
    } else if is_space(s[0]) {
        split_words(s.drop_first())
    } else if 0 < n <= s.len() {
        seq![s.take(n)] + split_words(s.skip(n))
    } else {
        seq![s]
    }
}

/// Splits a text at white space into its words.
pub fn words_of(v: &Vec<char>) -> (words: Vec<Vec<char>>)
    ensures
        rows(words@) == split_words(v@),
{
    let mut words: Vec<Vec<char>> = Vec::new();
    let n = v.len();
    let mut pos: usize = 0;
    proof {
        assert(v@.skip(0) =~= v@);
        assert(rows(words@) + split_words(v@) =~= split_words(v@));
    }
    while pos < n
        invariant
            n == v.len(),
            pos <= n,
            split_words(v@) == rows(words@) + split_words(v@.skip(pos as int)),
        decreases n - pos,
    {
        let ghost rest = v@.skip(pos as int);
        if char_is_space(v[pos]) {
            proof {
                assert(rest.drop_first() =~= v@.skip(pos + 1));
            }
            pos += 1;
        } else {
            let ghost before = rows(words@);
            let mut end: usize = pos + 1;
            while end < n && !char_is_space(v[end])
                invariant
                    n == v.len(),
                    pos < end <= n,
                    forall|j: int| pos <= j < end ==> !is_space(#[trigger] v@[j]),
                decreases n - end,
            {
                end += 1;
            }
            let word = copy_range(v, pos, end);
            proof {
                assert forall|j: int| 0 <= j < end - pos implies !is_space(#[trigger] rest[j]) by {
                    assert(rest[j] == v@[pos + j]);
                }
                lemma_word_len(rest, end - pos);
                assert(word@ =~= rest.take(end - pos));
                assert(rest.skip(end - pos) =~= v@.skip(end as int));
            }
            words.push(word);
            proof {
                assert(rows(words@) =~= before.push(word@));
                assert(rows(words@) + split_words(v@.skip(end as int)) =~= before + (seq![word@]
                    + split_words(v@.skip(end as int))));
            }
            pos = end;
        }
    }
    proof {
        assert(v@.skip(pos as int) =~= Seq::<char>::empty());
        assert(rows(words@) + Seq::<Seq<char>>::empty() =~= rows(words@));
    }
    words
}

/// `s` without every occurrence of `c`.
pub open spec fn without(s: Seq<char>, c: char) -> Seq<char>
    decreases s.len(),
{
    if s.len() == 0 {
        s
    } else if s.last() == c {
        without(s.drop_last(), c)
    } else {
        without(s.drop_last(), c).push(s.last())
    }
}

/// The string made of the characters of `v` other than `c`.
pub fn string_without(v: &Vec<char>, c: char) -> (s: String)
    ensures
        s@ == without(v@, c),
{
    let mut s = String::new();
    let mut i: usize = 0;
    while i < v.len()
        invariant
            i <= v.len(),
            s@ == without(v@.take(i as int), c),
        decreases v.len() - i,
    {
        proof {
            assert(v@.take(i + 1).drop_last() =~= v@.take(i as int));
        }
        if v[i] != c {
            s.push(v[i]);
        }
        i += 1;
    }
    proof {
        assert(v@.take(v.len() as int) =~= v@);
    }
    s
}

} // verus!
