//! Characters and strings: decimal numbers, splitting, lines.
use vstd::prelude::*;

verus! {

/// The character of a decimal digit `d` in `[0, 9]`.
pub open spec fn digit_char(d: int) -> char {
    (d + 48) as char
}

/// Whether `c` is one of `0` to `9`.
pub open spec fn is_digit(c: char) -> bool {
    '0' <= c <= '9'
}

/// The value of a decimal digit character.
pub open spec fn digit_value(c: char) -> int {
    (c as int) - 48
}

/// The decimal digits of `n >= 0`, without sign or leading zeros.
pub open spec fn digits(n: nat) -> Seq<char>
    decreases n,
{
    if n < 10 {
        seq![digit_char(n as int)]
    } else {
        digits(n / 10).push(digit_char((n % 10) as int))
    }
}

/// How Rust's `Display` writes the integer `n`.
pub open spec fn decimal(n: int) -> Seq<char> {
    if n < 0 {
        seq!['-'] + digits((-n) as nat)
    } else {
        digits(n as nat)
    }
}

/// The value of a string of decimal digits.
pub open spec fn digits_value(s: Seq<char>) -> int
    decreases s.len(),
{
    if s.len() == 0 {
        0
    } else {
        digits_value(s.drop_last()) * 10 + digit_value(s.last())
    }
}

/// Whether every character of `s` is a decimal digit.
pub open spec fn all_digits(s: Seq<char>) -> bool {
    forall|i: int| 0 <= i < s.len() ==> is_digit(#[trigger] s[i])
}

/// The value of a signed decimal: an optional `+` or `-`, then at least one digit.
pub open spec fn signed_value(s: Seq<char>) -> Option<int> {
    if s.len() == 0 {
        None
    } else {
        let neg = s[0] == '-';
        let body = if s[0] == '-' || s[0] == '+' {
            s.drop_first()
        } else {
            s
        };
        if body.len() == 0 || !all_digits(body) {
            None
        } else if neg {
            Some(-digits_value(body))
        } else {
            Some(digits_value(body))
        }
    }
}

/// How Rust's `str::parse::<i32>` reads `s`: `None` where it returns an error.
pub open spec fn parse_i32_spec(s: Seq<char>) -> Option<i32> {
    match signed_value(s) {
        Some(v) => if i32::MIN <= v <= i32::MAX {
            Some(v as i32)
        } else {
            None
        },
        None => None,
    }
}

/// `s` cut at every `sep`, as Rust's `str::split` with a character: never empty.
pub open spec fn split_on(s: Seq<char>, sep: char) -> Seq<Seq<char>>
    decreases s.len(),
{
    if s.len() == 0 {
        seq![Seq::<char>::empty()]
    } else {
        let init = split_on(s.drop_last(), sep);
        if s.last() == sep {
            init.push(Seq::<char>::empty())
        } else {
            init.update(init.len() - 1, init.last().push(s.last()))
        }
    }
}

/// The pieces joined with `sep` between them.
pub open spec fn join_with(pieces: Seq<Seq<char>>, sep: char) -> Seq<char>
    decreases pieces.len(),
{
    if pieces.len() == 0 {
        Seq::<char>::empty()
    } else if pieces.len() == 1 {
        pieces[0]
    } else {
        join_with(pieces.drop_last(), sep).push(sep) + pieces.last()
    }
}

/// The position of the first `c` in `s`, if there is one.
pub open spec fn find_char(s: Seq<char>, c: char) -> Option<int>
    decreases s.len(),
{
    if s.len() == 0 {
        None
    } else if s[0] == c {
        Some(0)
    } else {
        match find_char(s.drop_first(), c) {
            Some(i) => Some(i + 1),
            None => None,
        }
    }
}

/// Rust's `str::split_once` with a character, and the whole string with an empty second
/// part where the character does not occur.
pub open spec fn split_once_or_all(s: Seq<char>, c: char) -> (Seq<char>, Seq<char>) {
    match find_char(s, c) {
        Some(i) => (s.take(i), s.skip(i + 1)),
        None => (s, Seq::<char>::empty()),
    }
}

/// `s` without one trailing `\r`.
pub open spec fn strip_cr(s: Seq<char>) -> Seq<char> {
    if s.len() > 0 && s.last() == '\r' {
        s.drop_last()
    } else {
        s
    }
}

/// Rust's `str::lines`: cut at `\n`, each line that a `\n` ended without one trailing
/// `\r`, and no empty last line after a final `\n`.
pub open spec fn lines_of(s: Seq<char>) -> Seq<Seq<char>> {
    let pieces = split_on(s, '\n');
    let n = pieces.len();
    let ended = Seq::new((n - 1) as nat, |i: int| strip_cr(pieces[i]));
    if pieces.last().len() == 0 {
        ended
    } else {
        ended.push(pieces.last())
    }
}

/// Whether `c` has the Unicode `White_Space` property.
pub open spec fn is_white_space(c: char) -> bool {
    ||| '\u{9}' <= c <= '\u{d}'
    ||| c == ' '
    ||| c == '\u{85}'
    ||| c == '\u{a0}'
    ||| c == '\u{1680}'
    ||| '\u{2000}' <= c <= '\u{200a}'
    ||| c == '\u{2028}'
    ||| c == '\u{2029}'
    ||| c == '\u{202f}'
    ||| c == '\u{205f}'
    ||| c == '\u{3000}'
}

/// The number of leading white-space characters of `s`.
pub open spec fn leading_space(s: Seq<char>) -> nat
    decreases s.len(),
{
    if s.len() > 0 && is_white_space(s[0]) {
        1 + leading_space(s.drop_first())
    } else {
        0
    }
}

/// The number of leading characters of `s` that are not white space.
pub open spec fn leading_word(s: Seq<char>) -> nat
    decreases s.len(),
{
    if s.len() > 0 && !is_white_space(s[0]) {
        1 + leading_word(s.drop_first())
    } else {
        0
    }
}

/// Rust's `split_whitespace().next()`: the first run of non-white-space characters.
pub open spec fn first_word(s: Seq<char>) -> Option<Seq<char>> {
    let rest = s.skip(leading_space(s) as int);
    if rest.len() == 0 {
        None
    } else {
        Some(rest.take(leading_word(rest) as int))
    }
}

/// Whether `s` is `p` followed by more characters, or `p` itself.
pub open spec fn has_prefix(s: Seq<char>, p: Seq<char>) -> bool {
    p.len() <= s.len() && s.take(p.len() as int) == p
}

// ---------------------------------------------------------------- exec

/// Appends one character: `String::push`.
#[verifier::external_body]
pub(crate) fn push_char(s: &mut String, c: char)
    ensures
        final(s)@ == old(s)@.push(c),
{
    s.push(c);
}

/// Appends a string slice.
pub fn push_str(s: &mut String, t: &str)
    ensures
        final(s)@ == old(s)@ + t@,
{
    s.append(t);
}

/// The characters of a string slice.
pub fn chars_of(s: &str) -> (r: Vec<char>)
    ensures
        r@ == s@,
{
    let mut out: Vec<char> = Vec::new();
    for c in it: s.chars()
        invariant
            out@ == it.seq().take(it.index() as int),
    {
        out.push(c);
    }
    out
}

/// A string with the given characters.
pub fn string_of(cs: &[char]) -> (r: String)
    ensures
        r@ == cs@,
{
    let mut s = String::new();
    let mut i: usize = 0;
    while i < cs.len()
        invariant
            i <= cs.len(),
            s@ == cs@.take(i as int),
        decreases cs.len() - i,
    {
        push_char(&mut s, cs[i]);
        i = i + 1;
        proof {
            assert(cs@.take(i as int) == cs@.take(i - 1).push(cs@[i - 1]));
        }
    }
    proof {
        assert(cs@.take(cs.len() as int) == cs@);
    }
    s
}

/// Appends the decimal digits of `n`.
pub fn push_digits(s: &mut String, n: u64)
    ensures
        final(s)@ == old(s)@ + digits(n as nat),
    decreases n,
{
    if n >= 10 {
        push_digits(s, n / 10);
    }
    let d: u8 = (n % 10) as u8;
    push_char(s, (48u8 + d) as char);
    proof {
        if n >= 10 {
            assert(digits(n as nat) == digits((n / 10) as nat).push(digit_char((n % 10) as int)));
        }
    }
}

/// Appends `n` as Rust's `Display` writes it.
pub fn push_int(s: &mut String, n: i64)
    requires
        n > i64::MIN,
    ensures
        final(s)@ == old(s)@ + decimal(n as int),
{
    if n < 0 {
        push_char(s, '-');
        push_digits(s, (-n) as u64);
        proof {
            assert(old(s)@.push('-') + digits((-n) as nat) == old(s)@ + (seq!['-'] + digits(
                (-n) as nat,
            )));
        }
    } else {
        push_digits(s, n as u64);
    }
}

/// Whether `t` equals the string `lit`.
pub fn eq_str(t: &[char], lit: &str) -> (b: bool)
    ensures
        b == (t@ == lit@),
{
    let l = chars_of(lit);
    if t.len() != l.len() {
        return false;
    }
    let mut i: usize = 0;
    while i < t.len()
        invariant
            i <= t.len(),
            t.len() == l.len(),
            l@ == lit@,
            forall|j: int| 0 <= j < i ==> t@[j] == l@[j],
        decreases t.len() - i,
    {
        if t[i] != l[i] {
            return false;
        }
        i = i + 1;
    }
    proof {
        assert(t@ =~= l@);
    }
    true
}

/// Whether `t` starts with the string `lit`.
pub fn starts_with(t: &[char], lit: &str) -> (b: bool)
    ensures
        b == has_prefix(t@, lit@),
{
    let l = chars_of(lit);
    if t.len() < l.len() {
        return false;
    }
    let mut i: usize = 0;
    while i < l.len()
        invariant
            i <= l.len(),
            l.len() <= t.len(),
            l@ == lit@,
            forall|j: int| 0 <= j < i ==> t@[j] == l@[j],
        decreases l.len() - i,
    {
        if t[i] != l[i] {
            proof {
                assert(t@.take(l@.len() as int)[i as int] != l@[i as int]);
            }
            return false;
        }
        i = i + 1;
    }
    proof {
        assert(t@.take(l@.len() as int) =~= l@);
    }
    true
}

/// The characters `t[from..]`.
pub fn tail(t: &[char], from: usize) -> (r: Vec<char>)
    requires
        from <= t.len(),
    ensures
        r@ == t@.skip(from as int),
{
    let mut out: Vec<char> = Vec::new();
    let mut i: usize = from;
    while i < t.len()
        invariant
            from <= i <= t.len(),
            out@ == t@.subrange(from as int, i as int),
        decreases t.len() - i,
    {
        out.push(t[i]);
        i = i + 1;
        proof {
            assert(out@ =~= t@.subrange(from as int, i as int));
        }
    }
    proof {
        assert(out@ =~= t@.skip(from as int));
    }
    out
}

/// The characters `t[from..to]`.
pub fn slice(t: &[char], from: usize, to: usize) -> (r: Vec<char>)
    requires
        from <= to <= t.len(),
    ensures
        r@ == t@.subrange(from as int, to as int),
{
    let mut out: Vec<char> = Vec::new();
    let mut i: usize = from;
    while i < to
        invariant
            from <= i <= to,
            to <= t.len(),
            out@ == t@.subrange(from as int, i as int),
        decreases to - i,
    {
        out.push(t[i]);
        i = i + 1;
        proof {
            assert(out@ =~= t@.subrange(from as int, i as int));
        }
    }
    out
}

proof fn lemma_digits_prefix_le(s: Seq<char>, i: int)
    requires
        all_digits(s),
        0 <= i <= s.len(),
    ensures
        0 <= digits_value(s.take(i)) <= digits_value(s),
    decreases s.len(),
{
    if s.len() > 0 {
        assert(all_digits(s.drop_last()));
        if i == s.len() {
            assert(s.take(i) == s);
            lemma_digits_prefix_le(s.drop_last(), i - 1);
        } else {
            assert(s.drop_last().take(i) == s.take(i));
            lemma_digits_prefix_le(s.drop_last(), i);
        }
        assert(is_digit(s[s.len() - 1]));
    } else {
        assert(s.take(i) == s);
    }
}

/// Reads a signed decimal as Rust's `str::parse::<i32>` does.
pub fn parse_i32(t: &[char]) -> (r: Option<i32>)
    ensures
        r == parse_i32_spec(t@),
{
    if t.len() == 0 {
        return None;
    }
    let neg = t[0] == '-';
    let start: usize = if t[0] == '-' || t[0] == '+' {
        1
    } else {
        0
    };
    let ghost body = if t@[0] == '-' || t@[0] == '+' {
        t@.drop_first()
    } else {
        t@
    };
    proof {
        assert(body == t@.skip(start as int));
    }
    if start == t.len() {
        return None;
    }
    let mut acc: i64 = 0;
    let mut i: usize = start;
    while i < t.len()
        invariant
            start <= i <= t.len(),
            start < t.len(),
            body == t@.skip(start as int),
            neg == (t@[0] == '-'),
            body == (if t@[0] == '-' || t@[0] == '+' {
                t@.drop_first()
            } else {
                t@
            }),
            all_digits(body.take(i - start)),
            acc == digits_value(body.take(i - start)),
            0 <= acc <= 2147483648,
        decreases t.len() - i,
    {
        let c = t[i];
        if !('0' <= c && c <= '9') {
            proof {
                assert(body[i - start] == c);
                assert(!all_digits(body));
                assert(signed_value(t@).is_none());
            }
            return None;
        }
        let d: i64 = (c as u32 - 48) as i64;
        acc = acc * 10 + d;
        i = i + 1;
        proof {
            let pre = body.take(i - start);
            assert(pre.drop_last() == body.take(i - 1 - start));
            assert(pre.last() == c);
            assert(all_digits(pre));
        }
        if acc > 2147483648 {
            proof {
                if all_digits(body) {
                    lemma_digits_prefix_le(body, i - start);
                    assert(digits_value(body) > 2147483648);
                    assert(body.len() > 0);
                    if neg {
                        assert(signed_value(t@) == Some(-digits_value(body)));
                    } else {
                        assert(signed_value(t@) == Some(digits_value(body)));
                    }
                } else {
                    assert(signed_value(t@).is_none());
                }
            }
            return None;
        }
    }
    proof {
        assert(body.take(i - start) == body);
    }
    if neg {
        Some((-acc) as i32)
    } else if acc > 2147483647 {
        None
    } else {
        Some(acc as i32)
    }
}

/// `t` cut at every `sep`.
pub fn split(t: &[char], sep: char) -> (r: Vec<Vec<char>>)
    ensures
        r@.len() == split_on(t@, sep).len(),
        forall|k: int| 0 <= k < r@.len() ==> #[trigger] r@[k]@ == split_on(t@, sep)[k],
{
    let mut out: Vec<Vec<char>> = Vec::new();
    let mut cur: Vec<char> = Vec::new();
    let mut i: usize = 0;
    while i < t.len()
        invariant
            i <= t.len(),
            out@.len() + 1 == split_on(t@.take(i as int), sep).len(),
            forall|k: int| 0 <= k < out@.len() ==> #[trigger] out@[k]@ == split_on(
                t@.take(i as int),
                sep,
            )[k],
            cur@ == split_on(t@.take(i as int), sep).last(),
        decreases t.len() - i,
    {
        let ghost prev = split_on(t@.take(i as int), sep);
        let c = t[i];
        i = i + 1;
        proof {
            assert(t@.take(i as int).drop_last() == t@.take(i - 1));
            assert(t@.take(i as int).last() == c);
        }
        if c == sep {
            out.push(cur);
            cur = Vec::new();
        } else {
            cur.push(c);
        }
        proof {
            let now = split_on(t@.take(i as int), sep);
            assert forall|k: int| 0 <= k < out@.len() implies #[trigger] out@[k]@ == now[k] by {
            }
        }
    }
    out.push(cur);
    proof {
        assert(t@.take(t.len() as int) == t@);
    }
    out
}

/// Rust's `str::lines` on characters.
pub fn lines(t: &[char]) -> (r: Vec<Vec<char>>)
    ensures
        r@.len() == lines_of(t@).len(),
        forall|k: int| 0 <= k < r@.len() ==> #[trigger] r@[k]@ == lines_of(t@)[k],
{
    let pieces = split(t, '\n');
    let ghost sp = split_on(t@, '\n');
    proof {
        lemma_split_nonempty(t@, '\n');
    }
    let n = pieces.len();
    let mut out: Vec<Vec<char>> = Vec::new();
    let mut i: usize = 0;
    while i + 1 < n
        invariant
            n == pieces@.len(),
            n == sp.len(),
            n >= 1,
            i + 1 <= n,
            forall|k: int| 0 <= k < n ==> #[trigger] pieces@[k]@ == sp[k],
            out@.len() == i,
            forall|k: int| 0 <= k < i ==> #[trigger] out@[k]@ == strip_cr(sp[k]),
        decreases n - i,
    {
        let p = &pieces[i];
        let mut line: Vec<char> = Vec::new();
        let mut j: usize = 0;
        let len = if p.len() > 0 && p[p.len() - 1] == '\r' {
            p.len() - 1
        } else {
            p.len()
        };
        while j < len
            invariant
                len <= p@.len(),
                j <= len,
                line@ == p@.take(j as int),
            decreases len - j,
        {
            line.push(p[j]);
            j = j + 1;
            proof {
                assert(line@ =~= p@.take(j as int));
            }
        }
        proof {
            assert(line@ =~= strip_cr(p@));
        }
        out.push(line);
        i = i + 1;
    }
    let last = &pieces[n - 1];
    if last.len() > 0 {
        out.push(last.clone());
    }
    proof {
        let ended = Seq::new((n - 1) as nat, |k: int| strip_cr(sp[k]));
        assert(lines_of(t@) == if sp.last().len() == 0 {
            ended
        } else {
            ended.push(sp.last())
        });
    }
    out
}

pub proof fn lemma_split_nonempty(s: Seq<char>, sep: char)
    ensures
        split_on(s, sep).len() >= 1,
    decreases s.len(),
{
    if s.len() > 0 {
        lemma_split_nonempty(s.drop_last(), sep);
    }
}

/// The digits of `m` read back as `m`.
pub proof fn lemma_digits_roundtrip(m: nat)
    ensures
        digits(m).len() >= 1,
        all_digits(digits(m)),
        digits_value(digits(m)) == m,
    decreases m,
{
    if m < 10 {
        let d = digits(m);
        assert(d.drop_last() =~= Seq::<char>::empty());
        assert(digits_value(d.drop_last()) == 0);
        assert(((m + 48) as char) as int == m + 48);
    } else {
        lemma_digits_roundtrip(m / 10);
        let d = digits(m);
        assert(d.drop_last() == digits(m / 10));
        let r = (m % 10) as int;
        assert(digit_value(digit_char(r)) == r) by {
            assert(0 <= r < 10);
            assert(((r + 48) as char) as int == r + 48);
        }
        assert(m == (m / 10) * 10 + r);
        assert forall|i: int| 0 <= i < d.len() implies is_digit(#[trigger] d[i]) by {
            if i < d.len() - 1 {
                assert(d[i] == digits(m / 10)[i]);
            }
        }
    }
}

/// Reading back what `decimal` writes gives the number.
pub proof fn lemma_decimal_roundtrip(n: i32)
    ensures
        parse_i32_spec(decimal(n as int)) == Some(n),
        forall|i: int| 0 <= i < decimal(n as int).len() ==> {
            let c = #[trigger] decimal(n as int)[i];
            c != '\t' && c != '\n' && c != '\r' && c != ',' && c != '=' && c != ' '
        },
        decimal(n as int).len() >= 1,
{
    if n < 0 {
        let m = (-(n as int)) as nat;
        lemma_digits_roundtrip(m);
        let s = decimal(n as int);
        assert(s.drop_first() == digits(m));
        assert forall|i: int| 0 <= i < s.len() implies {
            let c = #[trigger] s[i];
            c != '\t' && c != '\n' && c != '\r' && c != ',' && c != '=' && c != ' '
        } by {
            if i > 0 {
                assert(s[i] == digits(m)[i - 1]);
                assert(is_digit(digits(m)[i - 1]));
            }
        }
    } else {
        let m = n as nat;
        lemma_digits_roundtrip(m);
        let s = decimal(n as int);
        assert(is_digit(s[0]));
        assert forall|i: int| 0 <= i < s.len() implies {
            let c = #[trigger] s[i];
            c != '\t' && c != '\n' && c != '\r' && c != ',' && c != '=' && c != ' '
        } by {
            assert(is_digit(s[i]));
        }
    }
}

/// Cutting `x`, a separator, then `y` cuts `x` and `y` on their own.
pub proof fn lemma_split_concat(x: Seq<char>, y: Seq<char>, sep: char)
    ensures
        split_on(x.push(sep) + y, sep) == split_on(x, sep) + split_on(y, sep),
    decreases y.len(),
{
    if y.len() == 0 {
        assert(x.push(sep) + y == x.push(sep));
        assert(x.push(sep).drop_last() == x);
    } else {
        let s = x.push(sep) + y;
        assert(s.drop_last() == x.push(sep) + y.drop_last());
        assert(s.last() == y.last());
        lemma_split_concat(x, y.drop_last(), sep);
        lemma_split_nonempty(y.drop_last(), sep);
        let a = split_on(x, sep);
        let b = split_on(y.drop_last(), sep);
        if y.last() != sep {
            assert((a + b).update((a + b).len() - 1, (a + b).last().push(y.last())) == a + b.update(
                b.len() - 1,
                b.last().push(y.last()),
            ));
        } else {
            assert((a + b).push(Seq::<char>::empty()) == a + b.push(Seq::<char>::empty()));
        }
    }
}

/// A string without the separator is one piece.
pub proof fn lemma_split_single(x: Seq<char>, sep: char)
    requires
        !x.contains(sep),
    ensures
        split_on(x, sep) == seq![x],
    decreases x.len(),
{
    if x.len() > 0 {
        assert(!x.drop_last().contains(sep)) by {
            if x.drop_last().contains(sep) {
                let i = choose|i: int| 0 <= i < x.drop_last().len() && x.drop_last()[i] == sep;
                assert(x[i] == sep);
            }
        }
        lemma_split_single(x.drop_last(), sep);
        assert(x.last() != sep) by {
            assert(x[x.len() - 1] == x.last());
        }
        assert(x.drop_last().push(x.last()) == x);
    } else {
        assert(x == Seq::<char>::empty());
    }
}

/// Pieces without the separator, joined, cut back into the same pieces.
pub proof fn lemma_split_join(ps: Seq<Seq<char>>, sep: char)
    requires
        ps.len() >= 1,
        forall|i: int| 0 <= i < ps.len() ==> !(#[trigger] ps[i]).contains(sep),
    ensures
        split_on(join_with(ps, sep), sep) == ps,
    decreases ps.len(),
{
    if ps.len() == 1 {
        lemma_split_single(ps[0], sep);
        assert(seq![ps[0]] == ps);
    } else {
        let init = ps.drop_last();
        assert forall|i: int| 0 <= i < init.len() implies !(#[trigger] init[i]).contains(sep) by {
            assert(init[i] == ps[i]);
        }
        lemma_split_join(init, sep);
        lemma_split_concat(join_with(init, sep), ps.last(), sep);
        assert(!ps.last().contains(sep)) by {
            assert(ps[ps.len() - 1] == ps.last());
        }
        lemma_split_single(ps.last(), sep);
        assert(init + seq![ps.last()] == ps);
    }
}

/// Each line followed by a line break.
pub open spec fn unlines(ls: Seq<Seq<char>>) -> Seq<char>
    decreases ls.len(),
{
    if ls.len() == 0 {
        Seq::<char>::empty()
    } else {
        unlines(ls.drop_last()) + ls.last().push('\n')
    }
}

/// Whether `l` can stand as one line of text that `lines_of` reads back.
pub open spec fn plain_line(l: Seq<char>) -> bool {
    &&& !l.contains('\n')
    &&& !(l.len() > 0 && l.last() == '\r')
}

pub proof fn lemma_unlines_concat(a: Seq<Seq<char>>, b: Seq<Seq<char>>)
    ensures
        unlines(a + b) == unlines(a) + unlines(b),
    decreases b.len(),
{
    if b.len() == 0 {
        assert(a + b == a);
    } else {
        assert((a + b).drop_last() == a + b.drop_last());
        assert((a + b).last() == b.last());
        lemma_unlines_concat(a, b.drop_last());
    }
}

/// `unlines` is `join_with` of the lines plus a final line break.
proof fn lemma_unlines_join(ls: Seq<Seq<char>>)
    requires
        ls.len() >= 1,
    ensures
        unlines(ls) == join_with(ls, '\n').push('\n'),
    decreases ls.len(),
{
    if ls.len() > 1 {
        lemma_unlines_join(ls.drop_last());
        let j = join_with(ls.drop_last(), '\n');
        assert(unlines(ls) == unlines(ls.drop_last()) + ls.last().push('\n'));
        assert(join_with(ls, '\n') == j.push('\n') + ls.last());
        assert(j.push('\n') + ls.last().push('\n') =~= (j.push('\n') + ls.last()).push('\n'));
    } else {
        assert(ls.drop_last().len() == 0);
        assert(unlines(ls.drop_last()) == Seq::<char>::empty());
        assert(unlines(ls) == unlines(ls.drop_last()) + ls.last().push('\n'));
        assert(Seq::<char>::empty() + ls.last().push('\n') =~= ls[0].push('\n'));
    }
}

/// Plain lines written out read back as the same lines.
pub proof fn lemma_lines_unlines(ls: Seq<Seq<char>>)
    requires
        forall|i: int| 0 <= i < ls.len() ==> plain_line(#[trigger] ls[i]),
    ensures
        lines_of(unlines(ls)) == ls,
{
    if ls.len() == 0 {
        assert(split_on(Seq::<char>::empty(), '\n') == seq![Seq::<char>::empty()]);
        assert(lines_of(unlines(ls)) =~= ls);
    } else {
        lemma_unlines_join(ls);
        let j = join_with(ls, '\n');
        assert forall|i: int| 0 <= i < ls.len() implies !(#[trigger] ls[i]).contains('\n') by {
            assert(plain_line(ls[i]));
        }
        lemma_split_join(ls, '\n');
        lemma_split_concat(j, Seq::<char>::empty(), '\n');
        assert(j.push('\n') + Seq::<char>::empty() == j.push('\n'));
        let sp = split_on(j.push('\n'), '\n');
        assert(sp == ls + seq![Seq::<char>::empty()]);
        assert forall|i: int| 0 <= i < ls.len() implies strip_cr(#[trigger] sp[i]) == ls[i] by {
            assert(sp[i] == ls[i]);
            assert(plain_line(ls[i]));
        }
        assert(lines_of(unlines(ls)) =~= ls);
    }
}

/// Text made of plain lines, each ended by a line break.
pub open spec fn plain_text(s: Seq<char>) -> bool {
    &&& forall|i: int| 0 <= i < lines_of(s).len() ==> plain_line(#[trigger] lines_of(s)[i])
    &&& unlines(lines_of(s)) == s
}

} // verus!
