//! The random names of elements, classes, ids and attributes.
use vstd::prelude::*;
use vstd::string::*;
use crate::model::Config;
use crate::random::{
    lemma_nearest_ratio_close, lemma_round_close, nearest_ratio, number_draw, pow2n, ratio_mantissa, ratio_scale, round_double, round_to_double,
    weighted_draw, Random,
};
use crate::text::{decimal, digits, is_digit, lemma_digits_roundtrip, push_int, push_str};

verus! {

/// A character of a generated name: an ASCII letter or digit.
pub open spec fn word_char(c: char) -> bool {
    ('a' <= c <= 'z') || ('A' <= c <= 'Z') || ('0' <= c <= '9')
}

/// A string of letters and digits.
pub open spec fn is_word(s: Seq<char>) -> bool {
    forall|i: int| 0 <= i < s.len() ==> word_char(#[trigger] s[i])
}

/// A character that can stand on a line: not a line break.
pub open spec fn line_char(c: char) -> bool {
    c != '\n'
}

/// Text without line breaks.
pub open spec fn line_text(s: Seq<char>) -> bool {
    forall|i: int| 0 <= i < s.len() ==> line_char(#[trigger] s[i])
}

pub proof fn lemma_word_concat(a: Seq<char>, b: Seq<char>)
    requires
        is_word(a),
        is_word(b),
    ensures
        is_word(a + b),
{
    assert forall|i: int| 0 <= i < (a + b).len() implies word_char(#[trigger] (a + b)[i]) by {
        if i < a.len() {
            assert((a + b)[i] == a[i]);
        } else {
            assert((a + b)[i] == b[i - a.len()]);
        }
    }
}

pub proof fn lemma_line_concat(a: Seq<char>, b: Seq<char>)
    requires
        line_text(a),
        line_text(b),
    ensures
        line_text(a + b),
{
    assert forall|i: int| 0 <= i < (a + b).len() implies line_char(#[trigger] (a + b)[i]) by {
        if i < a.len() {
            assert((a + b)[i] == a[i]);
        } else {
            assert((a + b)[i] == b[i - a.len()]);
        }
    }
}

pub proof fn lemma_word_line(s: Seq<char>)
    requires
        is_word(s),
    ensures
        line_text(s),
{
    assert forall|i: int| 0 <= i < s.len() implies line_char(#[trigger] s[i]) by {
        assert(word_char(s[i]));
    }
}

/// The decimal of a non-negative number is a word.
pub proof fn lemma_decimal_word(n: int)
    requires
        n >= 0,
    ensures
        is_word(decimal(n)),
        decimal(n).len() >= 1,
{
    lemma_digits_roundtrip(n as nat);
    assert forall|i: int| 0 <= i < decimal(n).len() implies word_char(#[trigger] decimal(n)[i]) by {
        assert(is_digit(digits(n as nat)[i]));
    }
}

/// `prefix` followed by the decimal of `n`.
pub open spec fn numbered(prefix: Seq<char>, n: int) -> Seq<char> {
    prefix + decimal(n)
}

/// Appends `lit` and the decimal of `n`.
fn push_numbered(s: &mut String, lit: &str, n: i32)
    ensures
        final(s)@ == old(s)@ + numbered(lit@, n as int),
{
    push_str(s, lit);
    push_int(s, n as i64);
    proof {
        assert(old(s)@ + lit@ + decimal(n as int) =~= old(s)@ + (lit@ + decimal(n as int)));
    }
}

pub proof fn lemma_numbered_word(prefix: Seq<char>, n: int)
    requires
        is_word(prefix),
        n >= 0,
    ensures
        is_word(numbered(prefix, n)),
        numbered(prefix, n).len() > prefix.len(),
{
    lemma_decimal_word(n);
    lemma_word_concat(prefix, decimal(n));
}

pub proof fn lemma_name_literals()
    ensures
        "elem"@ =~= seq!['e', 'l', 'e', 'm'],
        "class"@ =~= seq!['c', 'l', 'a', 's', 's'],
        "attr"@ =~= seq!['a', 't', 't', 'r'],
        "id"@ =~= seq!['i', 'd'],
        "val"@ =~= seq!['v', 'a', 'l'],
        is_word("elem"@),
        is_word("class"@),
        is_word("attr"@),
        is_word("id"@),
        is_word("val"@),
{
    reveal_strlit("elem");
    reveal_strlit("class");
    reveal_strlit("attr");
    reveal_strlit("id");
    reveal_strlit("val");
    assert("elem"@ =~= seq!['e', 'l', 'e', 'm']);
    assert("class"@ =~= seq!['c', 'l', 'a', 's', 's']);
    assert("attr"@ =~= seq!['a', 't', 't', 'r']);
    assert("id"@ =~= seq!['i', 'd']);
    assert("val"@ =~= seq!['v', 'a', 'l']);
}

/// `a / b` rounded toward zero, as Rust divides: the quotient of the magnitudes, negative
/// when the signs differ.
pub open spec fn trunc_div(a: int, b: int) -> int {
    let q = (if a < 0 {
        -a
    } else {
        a
    }) / (if b < 0 {
        -b
    } else {
        b
    });
    if (a < 0) == (b < 0) {
        q
    } else {
        -q
    }
}

/// `x` as Rust casts a double holding it to `i32`: saturated at both ends.
pub open spec fn sat_i32(x: int) -> int {
    if x > i32::MAX {
        i32::MAX as int
    } else if x < i32::MIN {
        i32::MIN as int
    } else {
        x
    }
}

/// The magnitude of `x`.
pub open spec fn magnitude(x: int) -> nat {
    if x < 0 {
        (-x) as nat
    } else {
        x as nat
    }
}

/// The double nearest `a / b` times `c`, rounded to a double, as the numerator of a
/// fraction over `2^ratio_scale(a, b)` (for `a, b > 0`, without its sign).
pub open spec fn product_numerator(a: nat, b: nat, c: nat) -> nat {
    round_to_double(ratio_mantissa(a, b) * c)
}

/// The number of ids that selectors draw from: the id chance (the double nearest
/// `id_chance / 10^6`) times the element count, in doubles, truncated and saturated to
/// `i32`, and at least 1.
pub open spec fn id_pool(id_chance: int, element_count: int) -> int {
    let t: int = if id_chance == 0 {
        0
    } else {
        let a = magnitude(id_chance);
        let m = product_numerator(a, 1000000, magnitude(element_count)) / pow2n(ratio_scale(a, 1000000));
        if (id_chance < 0) != (element_count < 0) {
            -m
        } else {
            m as int
        }
    };
    let c = sat_i32(t);
    if c < 1 {
        1
    } else {
        c
    }
}

/// `(index + 1) / length * count` as doubles compute it: the quotient rounded to a
/// double, the product rounded to a double, then rounded half away from zero and
/// saturated to `i32`.
pub open spec fn range_maximum(index: int, length: int, count: int) -> int {
    let a = (index + 1) as nat;
    let b = length as nat;
    let d = pow2n(ratio_scale(a, b));
    let p = product_numerator(a, b, magnitude(count));
    let m = (2 * p + d) / (2 * d);
    sat_i32(
        if count < 0 {
            -m
        } else {
            m as int
        },
    )
}

/// Three errors, each bounded against the whole, sum to less than the whole.
proof fn lemma_error_sum(t: int, ta: int, tb: int, tc: int, bp: int, bq: int, br: int)
    requires
        t == ta + tb + tc,
        -br <= 2 * ta <= br,
        -bp <= 9007199254740992 * tb <= bp,
        -bq <= tc <= bq,
        2 * 9007199254740992 * bp + 2 * 9007199254740992 * 9007199254740992 * bq
            < 9007199254740992 * 9007199254740992 * br,
    ensures
        -br < t < br,
{
    let k: int = 9007199254740992;
    assert(2 * k * k * ta <= k * k * br) by (nonlinear_arith)
        requires
            2 * ta <= br,
            k > 0,
    ;
    assert(2 * k * k * ta >= -k * k * br) by (nonlinear_arith)
        requires
            -br <= 2 * ta,
            k > 0,
    ;
    assert(2 * k * k * tb <= 2 * k * bp && 2 * k * k * tb >= -2 * k * bp) by (nonlinear_arith)
        requires
            -bp <= k * tb <= bp,
            k > 0,
    ;
    assert(2 * k * k * tc <= 2 * k * k * bq && 2 * k * k * tc >= -2 * k * k * bq) by (nonlinear_arith)
        requires
            -bq <= tc <= bq,
            k > 0,
    ;
    assert(2 * k * k * t == 2 * k * k * ta + 2 * k * k * tb + 2 * k * k * tc) by (nonlinear_arith)
        requires
            t == ta + tb + tc,
    ;
    assert(-br < t < br) by (nonlinear_arith)
        requires
            2 * k * k * t == 2 * k * k * ta + 2 * k * k * tb + 2 * k * k * tc,
            2 * k * k * ta <= k * k * br,
            2 * k * k * ta >= -k * k * br,
            2 * k * k * tb <= 2 * k * bp,
            2 * k * k * tb >= -2 * k * bp,
            2 * k * k * tc <= 2 * k * k * bq,
            2 * k * k * tc >= -2 * k * k * bq,
            2 * k * bp + 2 * k * k * bq < k * k * br,
            k == 9007199254740992,
    ;
}

/// The class range maximum is `(index + 1) / length * count` to within one: the doubles
/// round the quotient and the product by far less than the final rounding to an integer.
pub proof fn lemma_range_close(index: int, length: int, count: int)
    requires
        0 <= index < length <= i32::MAX,
        i32::MIN <= count <= i32::MAX,
    ensures
        (index + 1) * count - length < length * range_maximum(index, length, count),
        length * range_maximum(index, length, count) < (index + 1) * count + length,
{
    let a = (index + 1) as nat;
    let b = length as nat;
    let c = magnitude(count);
    let d = pow2n(ratio_scale(a, b));
    let big_m = ratio_mantissa(a, b);
    let x = big_m * c;
    let p = round_to_double(x);
    let m = (2 * p + d) / (2 * d);
    let k: int = 9007199254740992;
    lemma_nearest_ratio_close(a, b);
    lemma_round_close(x);
    assert(d >= 4503599627370496) by (nonlinear_arith)
        requires
            4503599627370496 * b <= a * d,
            a <= b,
            a >= 1,
    ;
    assert(2 * d * m <= 2 * p + d && 2 * p + d < 2 * d * m + 2 * d) by (nonlinear_arith)
        requires
            m == (2 * p + d) / (2 * d),
            d >= 1,
    {
        vstd::arithmetic::div_mod::lemma_fundamental_div_mod((2 * p + d) as int, (2 * d) as int);
    }
    let e1: int = d * m - p;
    assert(-d <= 2 * e1 <= d) by (nonlinear_arith)
        requires
            e1 == d * m - p,
            2 * d * m <= 2 * p + d,
            2 * p + d < 2 * d * m + 2 * d,
    ;
    let e2: int = p - x;
    let e3: int = b * big_m - a * d;
    assert(d * (m * b - a * c) == b * e1 + b * e2 + c * e3) by (nonlinear_arith)
        requires
            e1 == d * m - p,
            e2 == p - x,
            e3 == b * big_m - a * d,
            x == big_m * c,
    ;
    assert(big_m <= d + 1) by (nonlinear_arith)
        requires
            big_m * b <= a * d + b,
            a <= b,
            b >= 1,
    ;
    assert(-(b * d) <= 2 * (b * e1) <= b * d) by (nonlinear_arith)
        requires
            -d <= 2 * e1 <= d,
            b >= 0,
    ;
    assert(-(b * (d + 1) * c) <= k * (b * e2) <= b * (d + 1) * c) by (nonlinear_arith)
        requires
            p * k <= x * (k + 1),
            x * (k - 1) <= p * k,
            e2 == p - x,
            x == big_m * c,
            big_m <= d + 1,
            b >= 0,
            c >= 0,
            k > 0,
    ;
    assert(-(c * b) <= c * e3 <= c * b) by (nonlinear_arith)
        requires
            -b < e3 <= b,
            c >= 0,
    ;
    assert(c <= 2147483648);
    assert(2 * k * (b * (d + 1) * c) + 2 * k * k * (c * b) < k * k * (b * d)) by (nonlinear_arith)
        requires
            c <= 2147483648,
            d >= 4503599627370496,
            b >= 1,
            k == 9007199254740992,
    ;
    let t: int = d * (m * b - a * c);
    let ta: int = b * e1;
    let tb: int = b * e2;
    let tc: int = c * e3;
    let bp: int = (b * (d + 1) * c) as int;
    let bq: int = (c * b) as int;
    let br: int = (b * d) as int;
    assert(2 * 9007199254740992 * bp + 2 * 9007199254740992 * 9007199254740992 * bq
        < 9007199254740992 * 9007199254740992 * br) by (nonlinear_arith)
        requires
            bp == b * (d + 1) * c,
            bq == c * b,
            br == b * d,
            2 * 9007199254740992 * (b * (d + 1) * c) + 2 * 9007199254740992 * 9007199254740992 * (c * b)
                < 9007199254740992 * 9007199254740992 * (b * d),
    ;
    lemma_error_sum(t, ta, tb, tc, bp, bq, br);
    assert(-b < m * b - a * c < b) by (nonlinear_arith)
        requires
            -(b * d) < d * (m * b - a * c) < b * d,
            d > 0,
    ;
    assert(m <= c) by (nonlinear_arith)
        requires
            m * b - a * c < b,
            a <= b,
            b >= 1,
            c >= 0,
    ;
    if count >= 0 {
        assert(c == count);
        assert(range_maximum(index, length, count) == m);
        assert(length * m == m * b && (index + 1) * count == a * c) by (nonlinear_arith)
            requires
                b == length,
                a == index + 1,
                c == count,
        ;
    } else {
        assert(c == -count);
        assert(range_maximum(index, length, count) == -m);
        assert(length * (-m) == -(m * b)) by (nonlinear_arith)
            requires
                b == length,
        ;
        assert((index + 1) * count == -(a * c)) by (nonlinear_arith)
            requires
                a == index + 1,
                c == -count,
        ;
    }
}

/// The text of an attribute value drawn as `v`: empty for 0, `val` for 1, else `val<v>`.
pub open spec fn value_text(v: int) -> Seq<char> {
    if v == 0 {
        Seq::<char>::empty()
    } else if v == 1 {
        "val"@
    } else {
        numbered("val"@, v)
    }
}

/// An element name: `elem` and a number weighted to the low end.
pub fn random_element_name(cfg: &Config, rng: &mut Random) -> (r: String)
    ensures
        final(rng)@ == weighted_draw(old(rng)@, cfg.element_type_count as int).0,
        r@ == numbered("elem"@, weighted_draw(old(rng)@, cfg.element_type_count as int).1),
        is_word(r@),
        r@.len() > 4,
{
    let n = rng.number_square_weighted_to_low(cfg.element_type_count);
    let mut s = String::new();
    push_numbered(&mut s, "elem", n);
    proof {
        lemma_name_literals();
        lemma_numbered_word("elem"@, n as int);
        assert(s@ =~= numbered("elem"@, n as int));
    }
    s
}

/// A class name: `class` and a number weighted to the low end.
pub fn random_class_name(cfg: &Config, rng: &mut Random) -> (r: String)
    ensures
        final(rng)@ == weighted_draw(old(rng)@, cfg.class_count as int).0,
        r@ == numbered("class"@, weighted_draw(old(rng)@, cfg.class_count as int).1),
        is_word(r@),
        r@.len() > 5,
{
    let n = rng.number_square_weighted_to_low(cfg.class_count);
    let mut s = String::new();
    push_numbered(&mut s, "class", n);
    proof {
        lemma_name_literals();
        lemma_numbered_word("class"@, n as int);
        assert(s@ =~= numbered("class"@, n as int));
    }
    s
}

/// A class name drawn from the first `(index + 1) / length` of the classes.
pub fn random_class_name_from_range(cfg: &Config, rng: &mut Random, index: i32, length: i32) -> (r:
    String)
    requires
        0 <= index < length,
    ensures
        final(rng)@ == weighted_draw(
            old(rng)@,
            range_maximum(index as int, length as int, cfg.class_count as int),
        ).0,
        r@ == numbered(
            "class"@,
            weighted_draw(
                old(rng)@,
                range_maximum(index as int, length as int, cfg.class_count as int),
            ).1,
        ),
        is_word(r@),
        r@.len() > 5,
{
    let count = cfg.class_count;
    let (m, d) = nearest_ratio(index as u64 + 1, length as u64);
    let mag: u128 = if count < 0 {
        (-(count as i64)) as u128
    } else {
        count as u128
    };
    proof {
        assert(m * mag <= 9007199254740992 * 2147483648) by (nonlinear_arith)
            requires
                m <= 9007199254740992,
                mag <= 2147483648,
        ;
        assert(mag == magnitude(count as int));
    }
    let p = round_double(m * mag);
    let rounded: u128 = (2 * p + d) / (2 * d);
    let maximum: i32 = if count < 0 {
        if rounded > 2147483648 {
            -2147483648
        } else {
            -(rounded as i64) as i32
        }
    } else {
        if rounded > 2147483647 {
            2147483647
        } else {
            rounded as i32
        }
    };
    proof {
        assert(maximum == range_maximum(index as int, length as int, cfg.class_count as int));
    }
    let v = rng.number_square_weighted_to_low(maximum);
    let mut s = String::new();
    push_numbered(&mut s, "class", v);
    proof {
        lemma_name_literals();
        lemma_numbered_word("class"@, v as int);
        assert(s@ =~= numbered("class"@, v as int));
    }
    s
}

/// An id name for a selector: `id` and a number under the id pool.
pub fn random_id(cfg: &Config, rng: &mut Random) -> (r: String)
    ensures
        final(rng)@ == number_draw(
            old(rng)@,
            id_pool(cfg.id_chance as int, cfg.element_count as int),
        ).0,
        r@ == numbered(
            "id"@,
            number_draw(old(rng)@, id_pool(cfg.id_chance as int, cfg.element_count as int)).1,
        ),
        is_word(r@),
        r@.len() > 2,
{
    let chance = cfg.id_chance;
    let count = cfg.element_count;
    let t: i64 = if chance == 0 {
        0
    } else {
        let a: u64 = if chance < 0 {
            (-(chance as i64)) as u64
        } else {
            chance as u64
        };
        let (m, d) = nearest_ratio(a, 1000000);
        let mag: u128 = if count < 0 {
            (-(count as i64)) as u128
        } else {
            count as u128
        };
        proof {
            assert(m * mag <= 9007199254740992 * 2147483648) by (nonlinear_arith)
                requires
                    m <= 9007199254740992,
                    mag <= 2147483648,
            ;
            assert(mag == magnitude(count as int));
            assert(a == magnitude(chance as int));
        }
        let p = round_double(m * mag);
        let q: u128 = p / d;
        let capped: i64 = if q > 4294967296 {
            4294967296
        } else {
            q as i64
        };
        if (chance < 0) != (count < 0) {
            -capped
        } else {
            capped
        }
    };
    let c: i32 = if t > 2147483647 {
        2147483647
    } else if t < -2147483648 {
        -2147483648
    } else {
        t as i32
    };
    let pool: i32 = if c < 1 {
        1
    } else {
        c
    };
    proof {
        assert(pool == id_pool(cfg.id_chance as int, cfg.element_count as int));
    }
    let v = rng.number(pool);
    let mut s = String::new();
    push_numbered(&mut s, "id", v);
    proof {
        lemma_name_literals();
        lemma_numbered_word("id"@, v as int);
        assert(s@ =~= numbered("id"@, v as int));
    }
    s
}

/// An attribute name: `attr` and a number weighted to the low end.
pub fn random_attribute_name(cfg: &Config, rng: &mut Random) -> (r: String)
    ensures
        final(rng)@ == weighted_draw(old(rng)@, cfg.attribute_count as int).0,
        r@ == numbered("attr"@, weighted_draw(old(rng)@, cfg.attribute_count as int).1),
        is_word(r@),
        r@.len() > 4,
{
    let n = rng.number_square_weighted_to_low(cfg.attribute_count);
    let mut s = String::new();
    push_numbered(&mut s, "attr", n);
    proof {
        lemma_name_literals();
        lemma_numbered_word("attr"@, n as int);
        assert(s@ =~= numbered("attr"@, n as int));
    }
    s
}

/// An attribute value: empty, `val`, or `val` and a number weighted to the low end.
pub fn random_attribute_value(cfg: &Config, rng: &mut Random) -> (r: String)
    ensures
        final(rng)@ == weighted_draw(old(rng)@, cfg.attribute_value_count as int).0,
        r@ == value_text(weighted_draw(old(rng)@, cfg.attribute_value_count as int).1),
        is_word(r@),
{
    let v = rng.number_square_weighted_to_low(cfg.attribute_value_count);
    proof {
        lemma_name_literals();
    }
    if v == 0 {
        return String::new();
    }
    if v == 1 {
        return String::from_str("val");
    }
    let mut s = String::new();
    push_numbered(&mut s, "val", v);
    proof {
        lemma_numbered_word("val"@, v as int);
        assert(s@ =~= numbered("val"@, v as int));
    }
    s
}

} // verus!
