//! Laws of texts.

use super::text;
use vstd::prelude::*;

verus! {

/// Which ASCII characters are white space.
pub proof fn lemma_space(c: char)
    requires
        (c as u32) < 128,
    ensures
        text::is_space(c) <==> c == ' ' || c == '\t' || c == '\n' || c == '\r' || c as u32 == 11
            || c as u32 == 12,
{
}

/// A text without white space around it: nothing but white space is taken away, and no
/// white space is left at either end.
pub proof fn lemma_trimmed(s: Seq<char>)
    ensures
        exists|a: int, b: int|
            0 <= a <= b <= s.len() && text::trimmed(s) == #[trigger] s.subrange(a, b) && (
            forall|i: int| 0 <= i < a || b <= i < s.len() ==> text::is_space(#[trigger] s[i])),
        text::trimmed(s).len() > 0 ==> !text::is_space(text::trimmed(s)[0]) && !text::is_space(
            text::trimmed(s)[text::trimmed(s).len() - 1],
        ),
{
    lemma_trim_start(s);
    let t = text::trim_start(s);
    let a = s.len() - t.len();
    lemma_trim_end(t);
    let r = text::trim_end(t);
    let b = a + r.len();
    assert(r =~= s.subrange(a, b)) by {
        assert forall|i: int| 0 <= i < r.len() implies r[i] == s.subrange(a, b)[i] by {
            assert(r[i] == t.take(r.len() as int)[i]);
            assert(t[i] == s.skip(a)[i]);
        }
    }
    assert forall|i: int| 0 <= i < a || b <= i < s.len() implies text::is_space(
        #[trigger] s[i],
    ) by {
        if i >= b {
            assert(t[i - a] == s.skip(a)[i - a]);
        }
    }
    assert(text::trimmed(s) == s.subrange(a, b));
    if r.len() > 0 {
        assert(r[0] == t.take(r.len() as int)[0]);
    }
}

proof fn lemma_trim_start(s: Seq<char>)
    ensures
        ({
            let t = text::trim_start(s);
            &&& t.len() <= s.len()
            &&& t == s.skip(s.len() - t.len())
            &&& forall|i: int| 0 <= i < s.len() - t.len() ==> text::is_space(#[trigger] s[i])
            &&& t.len() > 0 ==> !text::is_space(t[0])
        }),
    decreases s.len(),
{
    let t = text::trim_start(s);
    if s.len() > 0 && text::is_space(s[0]) {
        let rest = s.skip(1);
        lemma_trim_start(rest);
        assert(t =~= s.skip(s.len() - t.len()));
        assert forall|i: int| 0 <= i < s.len() - t.len() implies text::is_space(
            #[trigger] s[i]) by {
            if i > 0 {
                assert(rest[i - 1] == s[i]);
            }
        }
    } else {
        assert(s.skip(0) =~= s);
    }
}

proof fn lemma_trim_end(s: Seq<char>)
    ensures
        ({
            let t = text::trim_end(s);
            &&& t.len() <= s.len()
            &&& t == s.take(t.len() as int)
            &&& forall|i: int| t.len() <= i < s.len() ==> text::is_space(#[trigger] s[i])
            &&& t.len() > 0 ==> !text::is_space(t[t.len() - 1])
        }),
    decreases s.len(),
{
    let t = text::trim_end(s);
    if s.len() > 0 && text::is_space(s.last()) {
        let init = s.drop_last();
        lemma_trim_end(init);
        assert(t =~= s.take(t.len() as int));
        assert forall|i: int| t.len() <= i < s.len() implies text::is_space(#[trigger] s[i]) by {
            if i < init.len() {
                assert(init[i] == s[i]);
            }
        }
    } else {
        assert(s.take(s.len() as int) =~= s);
    }
}

/// A text without the characters `c` at its end: nothing else is taken away, and none is
/// left there.
pub proof fn lemma_trim_end_of(s: Seq<char>, c: char)
    ensures
        ({
            let t = text::trim_end_of(s, c);
            &&& t.len() <= s.len()
            &&& t == s.take(t.len() as int)
            &&& forall|i: int| t.len() <= i < s.len() ==> #[trigger] s[i] == c
            &&& t.len() > 0 ==> t[t.len() - 1] != c
        }),
    decreases s.len(),
{
    let t = text::trim_end_of(s, c);
    if s.len() > 0 && s.last() == c {
        let init = s.drop_last();
        lemma_trim_end_of(init, c);
        assert(t =~= s.take(t.len() as int));
        assert forall|i: int| t.len() <= i < s.len() implies #[trigger] s[i] == c by {
            if i < init.len() {
                assert(init[i] == s[i]);
            }
        }
    } else {
        assert(s.take(s.len() as int) =~= s);
    }
}

/// The second word of a text is the one behind a first word and white space.
pub proof fn lemma_second_word(
    a: Seq<char>,
    one: Seq<char>,
    b: Seq<char>,
    two: Seq<char>,
    rest: Seq<char>,
)
    requires
        forall|i: int| 0 <= i < a.len() ==> text::is_space(#[trigger] a[i]),
        one.len() > 0,
        forall|i: int| 0 <= i < one.len() ==> !text::is_space(#[trigger] one[i]),
        forall|i: int| 0 <= i < b.len() ==> text::is_space(#[trigger] b[i]),
        b.len() > 0,
        forall|i: int| 0 <= i < two.len() ==> !text::is_space(#[trigger] two[i]),
        rest.len() > 0 ==> text::is_space(rest[0]) && two.len() > 0,
    ensures
        text::second_word_of(a + one + b + two + rest) == (if two.len() > 0 {
            Some(two)
        } else {
            None
        }),
{
    let s = a + one + b + two + rest;
    assert(s =~= a + (one + (b + (two + rest))));
    lemma_skip_spaces(a, one + (b + (two + rest)));
    assert((one + (b + (two + rest)))[0] == one[0]);
    lemma_skip_word(one, b + (two + rest));
    assert((b + (two + rest))[0] == b[0]);
    lemma_skip_spaces(b, two + rest);
    lemma_skip_word(two, rest);
    if two.len() > 0 {
        assert((two + rest)[0] == two[0]);
        assert((two + rest).take(two.len() as int) =~= two);
    } else {
        assert(two + rest =~= Seq::empty());
    }
}

proof fn lemma_skip_spaces(a: Seq<char>, rest: Seq<char>)
    requires
        forall|i: int| 0 <= i < a.len() ==> text::is_space(#[trigger] a[i]),
    ensures
        rest.len() == 0 || !text::is_space(rest[0]) ==> text::trim_start(a + rest) == rest,
    decreases a.len(),
{
    let s = a + rest;
    if a.len() > 0 {
        let t = a.skip(1);
        assert forall|i: int| 0 <= i < t.len() implies text::is_space(#[trigger] t[i]) by {
            assert(t[i] == a[i + 1]);
        }
        lemma_skip_spaces(t, rest);
        assert(s.skip(1) =~= t + rest);
        assert(s[0] == a[0]);
    } else {
        assert(s =~= rest);
    }
}

proof fn lemma_skip_word(a: Seq<char>, rest: Seq<char>)
    requires
        forall|i: int| 0 <= i < a.len() ==> !text::is_space(#[trigger] a[i]),
    ensures
        rest.len() == 0 || text::is_space(rest[0]) ==> text::skip_word(a + rest) == rest,
    decreases a.len(),
{
    let s = a + rest;
    if a.len() > 0 {
        let t = a.skip(1);
        assert forall|i: int| 0 <= i < t.len() implies !text::is_space(#[trigger] t[i]) by {
            assert(t[i] == a[i + 1]);
        }
        lemma_skip_word(t, rest);
        assert(s.skip(1) =~= t + rest);
        assert(s[0] == a[0]);
    } else {
        assert(s =~= rest);
    }
}

/// A text starts with what it is put together from.
pub proof fn lemma_prefix(p: Seq<char>, rest: Seq<char>, s: Seq<char>)
    ensures
        text::has_prefix(p + rest, p),
        text::has_prefix(s, p) ==> s == p + s.skip(p.len() as int),
{
    assert((p + rest).take(p.len() as int) =~= p);
    if text::has_prefix(s, p) {
        assert(s =~= s.take(p.len() as int) + s.skip(p.len() as int));
    }
}

/// Two texts are the same but for case if each character is the same, or the two are a
/// small letter and its capital.
pub proof fn lemma_same_letters(a: Seq<char>, b: Seq<char>)
    ensures
        text::same_letters(a, b) <==> a.len() == b.len() && forall|i: int|
            #![trigger a[i]]
            #![trigger b[i]]
            0 <= i < a.len() ==> {
                ||| a[i] == b[i]
                ||| 'a' <= a[i] && a[i] <= 'z' && b[i] as u32 == a[i] as u32 - 32
                ||| 'a' <= b[i] && b[i] <= 'z' && a[i] as u32 == b[i] as u32 - 32
            },
{
    assert forall|i: int|
        #![trigger a[i]]
        0 <= i < a.len() && a.len() == b.len() implies (text::ascii_upper(a[i])
        == text::ascii_upper(b[i]) <==> {
        ||| a[i] == b[i]
        ||| 'a' <= a[i] && a[i] <= 'z' && b[i] as u32 == a[i] as u32 - 32
        ||| 'a' <= b[i] && b[i] <= 'z' && a[i] as u32 == b[i] as u32 - 32
    }) by {
        lemma_upper(a[i], b[i]);
    }
}

proof fn lemma_upper(c: char, d: char)
    ensures
        text::ascii_upper(c) == text::ascii_upper(d) <==> {
            ||| c == d
            ||| 'a' <= c && c <= 'z' && d as u32 == c as u32 - 32
            ||| 'a' <= d && d <= 'z' && c as u32 == d as u32 - 32
        },
{
}

/// A further digit makes a number ten times as large and adds its value; a sign turns it
/// round; nothing but digits behind a sign is a number.
pub proof fn lemma_integer(s: Seq<char>, c: char, n: int)
    requires
        text::integer_of(s) == Some(n),
    ensures
        '0' <= c && c <= '9' ==> text::integer_of(s.push(c)) == Some(
            if s[0] == '-' {
                10 * n - (c as u32 - '0' as u32)
            } else {
                10 * n + (c as u32 - '0' as u32)
            },
        ),
        !('0' <= c && c <= '9') ==> text::integer_of(s.push(c)) is None,
        '0' <= s[0] && s[0] <= '9' ==> text::integer_of(seq!['-'] + s) == Some(-n)
            && text::integer_of(seq!['+'] + s) == Some(n),
{
    let d = text::unsigned(s);
    let t = s.push(c);
    assert(t[0] == s[0]);
    assert(text::unsigned(t) =~= d.push(c));
    assert(d.push(c).drop_last() =~= d);
    if '0' <= c && c <= '9' {
        assert(text::all_digits(d.push(c))) by {
            assert forall|i: int| 0 <= i < d.push(c).len() implies text::is_digit(
                #[trigger] d.push(c)[i],
            ) by {
                if i < d.len() {
                    assert(text::is_digit(d[i]));
                }
            }
        }
    } else {
        assert(!text::is_digit(d.push(c)[d.len() as int]));
    }
    if '0' <= s[0] && s[0] <= '9' {
        assert(d == s);
        assert((seq!['-'] + s).skip(1) =~= s);
        assert((seq!['+'] + s).skip(1) =~= s);
        assert((seq!['-'] + s)[0] == '-');
        assert((seq!['+'] + s)[0] == '+');
    }
}

/// One digit is the number of its value, and a text without digits is none.
pub proof fn lemma_digit(c: char)
    ensures
        '0' <= c && c <= '9' ==> text::integer_of(seq![c]) == Some(c as u32 - '0' as u32),
        !('0' <= c && c <= '9') ==> text::integer_of(seq![c]) is None,
        text::integer_of(Seq::empty()) is None,
{
    let s = seq![c];
    assert(s.drop_last() =~= Seq::empty());
    assert(text::number(s.drop_last()) == 0);
    assert(s.skip(1) =~= Seq::empty());
    assert(s[0] == c);
    if '0' <= c && c <= '9' {
        assert(text::all_digits(s));
    } else {
        assert(!text::is_digit(s[0]));
    }
}

/// A natural number is an integer without a minus.
pub proof fn lemma_natural(s: Seq<char>)
    ensures
        text::natural_of(s) == (if s.len() > 0 && s[0] == '-' {
            None
        } else {
            text::integer_of(s)
        }),
{
}

/// The texts of two integers differ if they do.
pub proof fn lemma_integer_texts(a: int, b: int)
    ensures
        text::integer_text(a) == text::integer_text(b) <==> a == b,
        text::integer_of(text::integer_text(a)) == Some(a),
        a < 0 <==> text::integer_text(a)[0] == '-',
        text::integer_text(a)[0] != '+',
{
    text::lemma_integer_text(a);
    text::lemma_integer_text(b);
    text::lemma_natural_digits(if a < 0 {
        -a
    } else {
        a
    });
}

/// A string literal stands between quotes, and a quote in it is doubled.
pub proof fn lemma_quoted(s: Seq<char>, c: char)
    ensures
        text::quoted(Seq::empty()) == seq!['\'', '\''],
        text::quoted(s.push(c)) == (if c == '\'' {
            text::quoted(s).drop_last() + seq!['\'', '\'', '\'']
        } else {
            text::quoted(s).drop_last() + seq![c, '\'']
        }),
{
    assert(text::quoted(Seq::empty()) =~= seq!['\'', '\'']);
    assert(s.push(c).drop_last() =~= s);
    assert(text::quoted(s).drop_last() =~= seq!['\''] + text::doubled(s));
    assert(text::quoted(s.push(c)) =~= (if c == '\'' {
        text::quoted(s).drop_last() + seq!['\'', '\'', '\'']
    } else {
        text::quoted(s).drop_last() + seq![c, '\'']
    }));
}

/// Two strings are written alike only if they are the same.
pub proof fn lemma_quoted_apart(a: Seq<char>, b: Seq<char>)
    requires
        text::quoted(a) == text::quoted(b),
    ensures
        a == b,
{
    assert(text::doubled(a) =~= text::quoted(a).subrange(1, text::quoted(a).len() - 1));
    assert(text::doubled(b) =~= text::quoted(b).subrange(1, text::quoted(b).len() - 1));
    lemma_doubled_apart(a, b);
}

proof fn lemma_doubled_apart(a: Seq<char>, b: Seq<char>)
    requires
        text::doubled(a) == text::doubled(b),
    ensures
        a == b,
    decreases a.len(),
{
    let x = text::doubled(a);
    let y = text::doubled(b);
    if a.len() > 0 && b.len() > 0 {
        assert(x.last() == a.last());
        assert(y.last() == b.last());
        let p = text::doubled(a.drop_last());
        let q = text::doubled(b.drop_last());
        if a.last() == '\'' {
            assert(p =~= x.drop_last().drop_last());
            assert(q =~= y.drop_last().drop_last());
        } else {
            assert(p =~= x.drop_last());
            assert(q =~= y.drop_last());
        }
        lemma_doubled_apart(a.drop_last(), b.drop_last());
        assert(a =~= a.drop_last().push(a.last()));
        assert(b =~= b.drop_last().push(b.last()));
    } else {
        assert(a =~= b);
    }
}

/// Numbers with a point and an exponent are floating point numbers: digits before or
/// behind the point, and digits behind the `e`.
pub proof fn lemma_float(a: Seq<char>, b: Seq<char>, e: Seq<char>)
    requires
        text::all_digits(a),
        text::all_digits(b),
        text::all_digits(e),
        e.len() > 0,
    ensures
        a.len() > 0 ==> text::is_float(a),
        a.len() + b.len() > 0 <==> text::is_float(a + seq!['.'] + b),
        a.len() + b.len() > 0 <==> text::is_float(a + seq!['.'] + b + seq!['e'] + e),
        a.len() > 0 ==> text::is_float(a + seq!['e'] + e) && text::is_float(seq!['-'] + a),
{
    let none = Seq::<char>::empty();
    assert(a + none =~= a);
    lemma_skip_digits(a, none);
    let dot = a + seq!['.'] + b;
    assert(dot =~= a + (seq!['.'] + b));
    lemma_skip_digits(a, seq!['.'] + b);
    assert((seq!['.'] + b).skip(1) =~= b + none);
    assert(b + none =~= b);
    lemma_skip_digits(b, none);
    let all = a + seq!['.'] + b + seq!['e'] + e;
    let exp = seq!['e'] + e;
    assert(all =~= a + (seq!['.'] + (b + exp)));
    lemma_skip_digits(a, seq!['.'] + (b + exp));
    assert((seq!['.'] + (b + exp)).skip(1) =~= b + exp);
    lemma_skip_digits(b, exp);
    assert(exp.skip(1) =~= e);
    assert(text::is_digit(e[0]));
    assert(text::is_exponent(exp));
    assert(a + seq!['e'] + e =~= a + exp);
    lemma_skip_digits(a, exp);
    if a.len() > 0 {
        assert(text::is_digit(a[0]));
        assert(dot[0] == a[0] && all[0] == a[0] && (a + exp)[0] == a[0]);
    } else {
        assert(dot[0] == '.' && all[0] == '.');
    }
    assert((seq!['-'] + a).skip(1) =~= a);
    assert((seq!['-'] + a)[0] == '-');
    reveal_strlit("inf");
    reveal_strlit("infinity");
    reveal_strlit("nan");
    assert("inf"@[0] == 'i' && "infinity"@[0] == 'i' && "nan"@[0] == 'n');
    if a.len() + b.len() == 0 {
        assert(!text::same_letters(dot, "inf"@));
        assert(text::ascii_upper(all[0]) != text::ascii_upper("inf"@[0]));
        assert(text::ascii_upper(all[0]) != text::ascii_upper("nan"@[0]));
    }
}

proof fn lemma_skip_digits(a: Seq<char>, rest: Seq<char>)
    requires
        text::all_digits(a),
        rest.len() == 0 || !text::is_digit(rest[0]),
    ensures
        text::skip_digits(a + rest) == rest,
    decreases a.len(),
{
    let s = a + rest;
    if a.len() > 0 {
        let t = a.skip(1);
        assert(text::all_digits(t)) by {
            assert forall|i: int| 0 <= i < t.len() implies text::is_digit(#[trigger] t[i]) by {
                assert(t[i] == a[i + 1]);
            }
        }
        lemma_skip_digits(t, rest);
        assert(s.skip(1) =~= t + rest);
        assert(text::is_digit(a[0]));
        assert(s[0] == a[0]);
    } else {
        assert(s =~= rest);
    }
}

/// A floating point number is made of digits, signs, a point and an `e`, unless it is
/// infinity or not a number.
pub proof fn lemma_float_characters(s: Seq<char>, i: int)
    requires
        text::is_float(s),
        0 <= i < s.len(),
    ensures
        ({
            let c = s[i];
            let u = text::unsigned(s);
            ||| '0' <= c && c <= '9'
            ||| c == '+' || c == '-' || c == '.' || c == 'e' || c == 'E'
            ||| text::same_letters(u, "inf"@) || text::same_letters(u, "infinity"@)
            ||| text::same_letters(u, "nan"@)
        }),
{
    let u = text::unsigned(s);
    if text::is_decimal(u) {
        let j = i - (s.len() - u.len());
        if j >= 0 {
            assert(u[j] == s[i]);
            let r = text::skip_digits(u);
            lemma_skipped(u);
            let before = u.len() - r.len();
            if j >= before {
                assert(r[j - before] == u[j]);
                if r.len() > 0 && r[0] == '.' {
                    let t = r.skip(1);
                    let rest = text::skip_digits(t);
                    lemma_skipped(t);
                    let k = j - before - 1;
                    if k >= 0 {
                        assert(t[k] == r[k + 1]);
                        if k >= t.len() - rest.len() {
                            let m = k - (t.len() - rest.len());
                            assert(rest[m] == t[k]);
                            lemma_exponent(rest, m);
                        }
                    }
                } else {
                    lemma_exponent(r, j - before);
                }
            }
        }
    }
}

proof fn lemma_skipped(s: Seq<char>)
    ensures
        ({
            let r = text::skip_digits(s);
            &&& r.len() <= s.len()
            &&& forall|i: int| 0 <= i < s.len() - r.len() ==> text::is_digit(#[trigger] s[i])
            &&& forall|i: int| 0 <= i < r.len() ==> #[trigger] r[i] == s[s.len() - r.len() + i]
        }),
    decreases s.len(),
{
    if s.len() > 0 && text::is_digit(s[0]) {
        let t = s.skip(1);
        lemma_skipped(t);
        let r = text::skip_digits(s);
        assert forall|i: int| 0 <= i < s.len() - r.len() implies text::is_digit(
            #[trigger] s[i]) by {
            if i > 0 {
                assert(t[i - 1] == s[i]);
            }
        }
        assert forall|i: int| 0 <= i < r.len() implies #[trigger] r[i] == s[s.len() - r.len()
            + i] by {
            assert(r[i] == t[t.len() - r.len() + i]);
        }
    }
}

proof fn lemma_exponent(s: Seq<char>, i: int)
    requires
        text::is_exponent(s),
        0 <= i < s.len(),
    ensures
        ('0' <= s[i] && s[i] <= '9') || s[i] == 'e' || s[i] == 'E' || s[i] == '+' || s[i] == '-',
{
    if i > 0 {
        let t = s.skip(1);
        let d = text::unsigned(t);
        assert(t[i - 1] == s[i]);
        let j = i - 1 - (t.len() - d.len());
        if j >= 0 {
            assert(d[j] == t[i - 1]);
            assert(text::is_digit(d[j]));
        }
    }
}

} // verus!
