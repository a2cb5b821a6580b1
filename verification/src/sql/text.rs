//! Text: trimming, words, numbers and quoting.

use vstd::prelude::*;
use vstd::string::*;

verus! {

/// `String::push` appends a character.
pub assume_specification[ std::string::String::push ](s: &mut std::string::String, c: char)
    ensures
        final(s)@ == old(s)@.push(c),
;

/// What `str::to_uppercase` gives.
pub uninterp spec fn uppercase(s: Seq<char>) -> Seq<char>;

/// The capital of an ASCII letter; other characters stay.
pub open spec fn ascii_upper(c: char) -> char {
    if 'a' <= c && c <= 'z' {
        ((c as u32 - 32) as u32) as char
    } else {
        c
    }
}

/// Whether all characters are ASCII.
pub open spec fn ascii(s: Seq<char>) -> bool {
    forall|i: int| 0 <= i < s.len() ==> (#[trigger] s[i] as u32) < 128
}

/// `str::to_uppercase`: the text in capitals as Unicode defines them. Of a text
/// of ASCII characters it is each character's capital.
#[verifier::external_body]
fn to_upper(s: &str) -> (r: String)
    ensures
        r@ == uppercase(s@),
        ascii(s@) ==> r@ == Seq::new(s@.len(), |i: int| ascii_upper(s@[i])),
{
    s.to_uppercase()
}

/// The text in capitals.
pub fn upper(s: &str) -> (r: String)
    ensures
        r@ == uppercase(s@),
        ascii(s@) ==> r@ == Seq::new(s@.len(), |i: int| ascii_upper(s@[i])),
{
    to_upper(s)
}

/// The characters of a text.
pub fn chars_of(s: &str) -> (v: Vec<char>)
    ensures
        v@ == s@,
{
    let mut v: Vec<char> = Vec::new();
    for c in it: s.chars()
        invariant
            it.seq() == s@,
            v@.len() == it.index(),
            forall|i: int| 0 <= i < v@.len() ==> v@[i] == it.seq()[i],
    {
        v.push(c);
    }
    assert(v@ =~= s@);
    v
}

/// The text of some characters.
pub fn text_of(v: &[char]) -> (s: String)
    ensures
        s@ == v@,
{
    let mut s = String::new();
    let mut i: usize = 0;
    assert(s@ =~= v@.take(0));
    while i < v.len()
        invariant
            i <= v@.len(),
            s@ == v@.take(i as int),
        decreases v@.len() - i,
    {
        s.push(v[i]);
        i = i + 1;
        assert(s@ =~= v@.take(i as int));
    }
    assert(v@.take(i as int) =~= v@);
    s
}

/// Whether two texts are the same.
pub fn same(a: &str, b: &str) -> (r: bool)
    ensures
        r == (a@ == b@),
{
    a.to_owned() == b.to_owned()
}

/// A text with another one behind it.
pub fn cat(a: &str, b: &str) -> (r: String)
    ensures
        r@ == a@ + b@,
{
    let mut r = a.to_owned();
    r.append(b);
    r
}

/// Three texts, one behind the other.
pub fn cat3(a: &str, b: &str, c: &str) -> (r: String)
    ensures
        r@ == a@ + b@ + c@,
{
    let mut r = a.to_owned();
    r.append(b);
    r.append(c);
    r
}

/// White space as Unicode defines it.
pub open spec fn is_space(c: char) -> bool {
    let u = c as u32;
    9 <= u <= 13 || u == 0x20 || u == 0x85 || u == 0xA0 || u == 0x1680 || 0x2000 <= u <= 0x200A
        || u == 0x2028 || u == 0x2029 || u == 0x202F || u == 0x205F || u == 0x3000
}

fn space(c: char) -> (b: bool)
    ensures
        b == is_space(c),
{
    let u: u32 = c as u32;
    (9 <= u && u <= 13) || u == 0x20 || u == 0x85 || u == 0xA0 || u == 0x1680 || (0x2000 <= u && u
        <= 0x200A) || u == 0x2028 || u == 0x2029 || u == 0x202F || u == 0x205F || u == 0x3000
}

/// The text without the white space that it starts with.
pub open spec fn trim_start(s: Seq<char>) -> Seq<char>
    decreases s.len(),
{
    if s.len() > 0 && is_space(s[0]) {
        trim_start(s.skip(1))
    } else {
        s
    }
}

/// The text without the white space that it ends with.
pub open spec fn trim_end(s: Seq<char>) -> Seq<char>
    decreases s.len(),
{
    if s.len() > 0 && is_space(s.last()) {
        trim_end(s.drop_last())
    } else {
        s
    }
}

/// The text without white space around it.
pub open spec fn trimmed(s: Seq<char>) -> Seq<char> {
    trim_end(trim_start(s))
}

/// The text without the characters `c` that it ends with.
pub open spec fn trim_end_of(s: Seq<char>, c: char) -> Seq<char>
    decreases s.len(),
{
    if s.len() > 0 && s.last() == c {
        trim_end_of(s.drop_last(), c)
    } else {
        s
    }
}

/// Where the text without white space around it begins and ends.
fn trim_bounds(v: &Vec<char>) -> (r: (usize, usize))
    ensures
        r.0 <= r.1 <= v@.len(),
        v@.subrange(r.0 as int, r.1 as int) == trimmed(v@),
{
    let total: usize = v.len();
    let mut a: usize = 0;
    assert(v@.skip(0) =~= v@);
    while a < total && space(v[a])
        invariant
            a <= total,
            total == v@.len(),
            trim_start(v@.skip(a as int)) == trim_start(v@),
        decreases total - a,
    {
        assert(v@.skip(a as int)[0] == v@[a as int]);
        assert(v@.skip(a as int).skip(1) =~= v@.skip(a + 1));
        a = a + 1;
    }
    proof {
        if a < total {
            assert(v@.skip(a as int)[0] == v@[a as int]);
        }
        assert(trim_start(v@) == v@.skip(a as int));
    }
    let mut b: usize = total;
    assert(v@.subrange(a as int, b as int) =~= v@.skip(a as int));
    while b > a && space(v[b - 1])
        invariant
            a <= b <= total,
            total == v@.len(),
            trim_end(v@.subrange(a as int, b as int)) == trimmed(v@),
        decreases b,
    {
        let ghost s = v@.subrange(a as int, b as int);
        assert(s.last() == v@[b - 1]);
        assert(s.drop_last() =~= v@.subrange(a as int, b - 1));
        b = b - 1;
    }
    proof {
        let s = v@.subrange(a as int, b as int);
        if b > a {
            assert(s.last() == v@[b - 1]);
        }
    }
    (a, b)
}

/// The text without white space around it.
pub fn trim(s: &str) -> (r: String)
    ensures
        r@ == trimmed(s@),
{
    let v = chars_of(s);
    let (a, b) = trim_bounds(&v);
    text_of(&v.as_slice()[a..b])
}

/// The text without the characters `c` that it ends with.
pub fn trim_end_matches(s: &str, c: char) -> (r: String)
    ensures
        r@ == trim_end_of(s@, c),
{
    let v = chars_of(s);
    let mut b: usize = v.len();
    assert(v@.subrange(0, b as int) =~= v@);
    while b > 0 && v[b - 1] == c
        invariant
            b <= v@.len(),
            trim_end_of(v@.subrange(0, b as int), c) == trim_end_of(v@, c),
        decreases b,
    {
        assert(v@.subrange(0, b as int).drop_last() =~= v@.subrange(0, b - 1));
        b = b - 1;
    }
    text_of(&v.as_slice()[0..b])
}

/// The text without the word that it starts with.
pub open spec fn skip_word(s: Seq<char>) -> Seq<char>
    decreases s.len(),
{
    if s.len() > 0 && !is_space(s[0]) {
        skip_word(s.skip(1))
    } else {
        s
    }
}

/// The word that the text starts with.
pub open spec fn word(s: Seq<char>) -> Seq<char> {
    s.take(s.len() - skip_word(s).len())
}

/// The second of the words that white space parts.
pub open spec fn second_word_of(s: Seq<char>) -> Option<Seq<char>> {
    let rest = trim_start(skip_word(trim_start(s)));
    if rest.len() == 0 {
        None
    } else {
        Some(word(rest))
    }
}

/// Where the white space from `from` on ends.
fn spaces_end(v: &Vec<char>, from: usize) -> (r: usize)
    requires
        from <= v@.len(),
    ensures
        from <= r <= v@.len(),
        trim_start(v@.skip(from as int)) == v@.skip(r as int),
{
    let total: usize = v.len();
    let mut a: usize = from;
    while a < total && space(v[a])
        invariant
            from <= a <= total,
            total == v@.len(),
            trim_start(v@.skip(a as int)) == trim_start(v@.skip(from as int)),
        decreases total - a,
    {
        assert(v@.skip(a as int)[0] == v@[a as int]);
        assert(v@.skip(a as int).skip(1) =~= v@.skip(a + 1));
        a = a + 1;
    }
    proof {
        if a < total {
            assert(v@.skip(a as int)[0] == v@[a as int]);
        }
    }
    a
}

/// Where the word from `from` on ends.
fn word_end(v: &Vec<char>, from: usize) -> (r: usize)
    requires
        from <= v@.len(),
    ensures
        from <= r <= v@.len(),
        skip_word(v@.skip(from as int)) == v@.skip(r as int),
{
    let total: usize = v.len();
    let mut a: usize = from;
    while a < total && !space(v[a])
        invariant
            from <= a <= total,
            total == v@.len(),
            skip_word(v@.skip(a as int)) == skip_word(v@.skip(from as int)),
        decreases total - a,
    {
        assert(v@.skip(a as int)[0] == v@[a as int]);
        assert(v@.skip(a as int).skip(1) =~= v@.skip(a + 1));
        a = a + 1;
    }
    proof {
        if a < total {
            assert(v@.skip(a as int)[0] == v@[a as int]);
        }
    }
    a
}

/// The second of the words that white space parts.
pub fn second_word(s: &str) -> (r: Option<String>)
    ensures
        match second_word_of(s@) {
            Some(w) => r matches Some(t) && t@ == w,
            None => r is None,
        },
{
    let v = chars_of(s);
    assert(v@.skip(0) =~= v@);
    let a: usize = spaces_end(&v, 0);
    let b: usize = word_end(&v, a);
    let c: usize = spaces_end(&v, b);
    if c == v.len() {
        return None;
    }
    let d: usize = word_end(&v, c);
    proof {
        assert(v@.subrange(c as int, d as int) =~= word(v@.skip(c as int)));
    }
    Some(text_of(&v.as_slice()[c..d]))
}

/// Whether the text starts with another one.
pub open spec fn has_prefix(s: Seq<char>, p: Seq<char>) -> bool {
    p.len() <= s.len() && s.take(p.len() as int) == p
}

/// Whether the text starts with another one.
pub fn starts_with(s: &str, p: &str) -> (r: bool)
    ensures
        r == has_prefix(s@, p@),
{
    let a = chars_of(s);
    let b = chars_of(p);
    if b.len() > a.len() {
        return false;
    }
    let mut i: usize = 0;
    while i < b.len()
        invariant
            i <= b@.len() <= a@.len(),
            a@ == s@,
            b@ == p@,
            forall|j: int| 0 <= j < i ==> a@[j] == b@[j],
        decreases b@.len() - i,
    {
        if a[i] != b[i] {
            assert(s@.take(p@.len() as int)[i as int] != p@[i as int]);
            return false;
        }
        i = i + 1;
    }
    assert(s@.take(p@.len() as int) =~= p@);
    true
}

/// Whether two texts are the same but for the case of ASCII letters.
pub open spec fn same_letters(a: Seq<char>, b: Seq<char>) -> bool {
    a.len() == b.len() && forall|i: int|
        0 <= i < a.len() ==> ascii_upper(#[trigger] a[i]) == ascii_upper(b[i])
}

fn capital(c: char) -> (r: char)
    ensures
        r == ascii_upper(c),
{
    if 'a' <= c && c <= 'z' {
        ((c as u32 - 32) as u8) as char
    } else {
        c
    }
}

/// Whether two texts are the same but for the case of ASCII letters.
pub fn eq_ignore_ascii_case(a: &str, b: &str) -> (r: bool)
    ensures
        r == same_letters(a@, b@),
{
    let x = chars_of(a);
    let y = chars_of(b);
    if x.len() != y.len() {
        return false;
    }
    let mut i: usize = 0;
    while i < x.len()
        invariant
            i <= x@.len(),
            x@.len() == y@.len(),
            x@ == a@,
            y@ == b@,
            forall|j: int| 0 <= j < i ==> ascii_upper(#[trigger] a@[j]) == ascii_upper(b@[j]),
        decreases x@.len() - i,
    {
        if capital(x[i]) != capital(y[i]) {
            assert(ascii_upper(a@[i as int]) != ascii_upper(b@[i as int]));
            return false;
        }
        i = i + 1;
    }
    true
}

/// A decimal digit.
pub open spec fn is_digit(c: char) -> bool {
    '0' <= c && c <= '9'
}

/// The value of a decimal digit.
pub open spec fn digit_value(c: char) -> int {
    c as u32 - '0' as u32
}

/// Whether all characters are digits.
pub open spec fn all_digits(s: Seq<char>) -> bool {
    forall|i: int| 0 <= i < s.len() ==> is_digit(#[trigger] s[i])
}

/// The number that digits stand for.
pub open spec fn number(s: Seq<char>) -> int
    decreases s.len(),
{
    if s.len() == 0 {
        0
    } else {
        10 * number(s.drop_last()) + digit_value(s.last())
    }
}

/// The text without the sign that it starts with.
pub open spec fn unsigned(s: Seq<char>) -> Seq<char> {
    if s.len() > 0 && (s[0] == '+' || s[0] == '-') {
        s.skip(1)
    } else {
        s
    }
}

/// The integer that a text stands for: digits behind a sign or none.
pub open spec fn integer_of(s: Seq<char>) -> Option<int> {
    let d = unsigned(s);
    if d.len() == 0 || !all_digits(d) {
        None
    } else if s[0] == '-' {
        Some(-number(d))
    } else {
        Some(number(d))
    }
}

/// The natural number that a text stands for: digits behind a plus or nothing.
pub open spec fn natural_of(s: Seq<char>) -> Option<int> {
    if s.len() > 0 && s[0] == '-' {
        None
    } else {
        integer_of(s)
    }
}

/// A natural number is not negative.
pub proof fn lemma_natural_sign(s: Seq<char>)
    ensures
        natural_of(s) matches Some(n) ==> n >= 0,
{
    if natural_of(s) is Some {
        lemma_number_grows(unsigned(s), 0);
    }
}

/// Further digits make a number no smaller.
proof fn lemma_number_grows(s: Seq<char>, k: int)
    requires
        all_digits(s),
        0 <= k <= s.len(),
    ensures
        0 <= number(s.take(k)) <= number(s),
    decreases s.len(),
{
    if k == s.len() {
        assert(s.take(k) =~= s);
        if s.len() > 0 {
            assert(is_digit(s[s.len() - 1]));
            assert(s.drop_last() =~= s.take(s.len() - 1));
            assert(all_digits(s.drop_last()));
            lemma_number_grows(s.drop_last(), s.len() - 1);
            assert(s.drop_last().take(s.len() - 1) =~= s.drop_last());
        }
    } else {
        assert(is_digit(s[s.len() - 1]));
        assert(all_digits(s.drop_last()));
        lemma_number_grows(s.drop_last(), k);
        assert(s.drop_last().take(k) =~= s.take(k));
    }
}

/// The number that the digits from `from` on stand for, if they are digits and
/// it is at most `limit`.
fn parse_digits(v: &Vec<char>, from: usize, limit: u64) -> (r: Option<u64>)
    requires
        from <= v@.len(),
    ensures
        ({
            let d = v@.skip(from as int);
            if d.len() > 0 && all_digits(d) && number(d) <= limit {
                r matches Some(n) && n == number(d)
            } else {
                r is None
            }
        }),
{
    let total: usize = v.len();
    if from == total {
        return None;
    }
    let ghost d = v@.skip(from as int);
    let mut i: usize = from;
    let mut n: u64 = 0;
    let mut large: bool = false;
    assert(d.take(0) =~= Seq::empty());
    while i < total
        invariant
            from <= i <= total,
            total == v@.len(),
            d == v@.skip(from as int),
            all_digits(d.take(i - from)),
            !large ==> n == number(d.take(i - from)) && n <= limit,
            large ==> number(d.take(i - from)) > limit,
        decreases total - i,
    {
        let c: char = v[i];
        let ghost k: int = i - from;
        assert(d[k] == c);
        if c < '0' || c > '9' {
            assert(!is_digit(d[k]));
            return None;
        }
        let x: u64 = (c as u32 - 48) as u64;
        proof {
            assert(d.take(k + 1).drop_last() =~= d.take(k));
            assert(d.take(k + 1).last() == c);
            assert forall|j: int| 0 <= j < k + 1 implies is_digit(#[trigger] d.take(k + 1)[j]) by {
                if j < k {
                    assert(d.take(k)[j] == d.take(k + 1)[j]);
                }
            }
            lemma_number_grows(d.take(k + 1), k);
            assert(d.take(k + 1).take(k) =~= d.take(k));
        }
        if !large {
            if limit < x || n > (limit - x) / 10 {
                large = true;
            } else {
                n = n * 10 + x;
            }
        }
        i = i + 1;
    }
    assert(d.take(i - from) =~= d);
    if large {
        None
    } else {
        Some(n)
    }
}

/// The 64 bit integer that a text stands for.
pub fn parse_i64(s: &str) -> (r: Option<i64>)
    ensures
        match integer_of(s@) {
            Some(n) => if i64::MIN <= n <= i64::MAX {
                r matches Some(i) && i == n
            } else {
                r is None
            },
            None => r is None,
        },
{
    let v = chars_of(s);
    if v.len() == 0 {
        return None;
    }
    if v[0] == '-' {
        match parse_digits(&v, 1, 9223372036854775808) {
            Some(n) => if n == 9223372036854775808 {
                Some(i64::MIN)
            } else {
                Some(-(n as i64))
            },
            None => {
                proof {
                    if all_digits(s@.skip(1)) {
                        lemma_number_grows(s@.skip(1), 0);
                    }
                }
                None
            },
        }
    } else {
        let from: usize = if v[0] == '+' {
            1
        } else {
            0
        };
        assert(v@.skip(from as int) =~= unsigned(s@));
        match parse_digits(&v, from, 9223372036854775807) {
            Some(n) => Some(n as i64),
            None => {
                proof {
                    if all_digits(unsigned(s@)) {
                        lemma_number_grows(unsigned(s@), 0);
                    }
                }
                None
            },
        }
    }
}

/// The size that a text stands for.
pub fn parse_usize(s: &str) -> (r: Option<usize>)
    ensures
        match natural_of(s@) {
            Some(n) => if n <= usize::MAX {
                r matches Some(i) && i == n
            } else {
                r is None
            },
            None => r is None,
        },
{
    let v = chars_of(s);
    if v.len() == 0 || v[0] == '-' {
        return None;
    }
    let from: usize = if v[0] == '+' {
        1
    } else {
        0
    };
    assert(v@.skip(from as int) =~= unsigned(s@));
    match parse_digits(&v, from, usize::MAX as u64) {
        Some(n) => Some(n as usize),
        None => None,
    }
}

/// The text without the digits that it starts with.
pub open spec fn skip_digits(s: Seq<char>) -> Seq<char>
    decreases s.len(),
{
    if s.len() > 0 && is_digit(s[0]) {
        skip_digits(s.skip(1))
    } else {
        s
    }
}

/// Nothing, or an exponent: `e`, a sign or none, and digits.
pub open spec fn is_exponent(s: Seq<char>) -> bool {
    s.len() == 0 || ((s[0] == 'e' || s[0] == 'E') && {
        let d = unsigned(s.skip(1));
        d.len() > 0 && all_digits(d)
    })
}

/// A number with a point or none and an exponent or none; it has a digit before
/// or behind the point.
pub open spec fn is_decimal(s: Seq<char>) -> bool {
    let r = skip_digits(s);
    let before = s.len() - r.len();
    if r.len() > 0 && r[0] == '.' {
        let rest = skip_digits(r.skip(1));
        let behind = r.len() - 1 - rest.len();
        before + behind > 0 && is_exponent(rest)
    } else {
        before > 0 && is_exponent(r)
    }
}

/// The text of a floating point number: a sign or none, and a decimal number,
/// infinity or not-a-number.
pub open spec fn is_float(s: Seq<char>) -> bool {
    let u = unsigned(s);
    is_decimal(u) || same_letters(u, "inf"@) || same_letters(u, "infinity"@) || same_letters(
        u,
        "nan"@,
    )
}

fn digits_end(v: &Vec<char>, from: usize) -> (r: usize)
    requires
        from <= v@.len(),
    ensures
        from <= r <= v@.len(),
        skip_digits(v@.skip(from as int)) == v@.skip(r as int),
{
    let total: usize = v.len();
    let mut a: usize = from;
    while a < total && '0' <= v[a] && v[a] <= '9'
        invariant
            from <= a <= total,
            total == v@.len(),
            skip_digits(v@.skip(a as int)) == skip_digits(v@.skip(from as int)),
        decreases total - a,
    {
        assert(v@.skip(a as int)[0] == v@[a as int]);
        assert(v@.skip(a as int).skip(1) =~= v@.skip(a + 1));
        a = a + 1;
    }
    proof {
        if a < total {
            assert(v@.skip(a as int)[0] == v@[a as int]);
        }
    }
    a
}

/// Where a sign at `from` ends.
fn sign_end(v: &Vec<char>, from: usize) -> (r: usize)
    requires
        from <= v@.len(),
    ensures
        from <= r <= v@.len(),
        unsigned(v@.skip(from as int)) == v@.skip(r as int),
{
    if from < v.len() && (v[from] == '+' || v[from] == '-') {
        assert(v@.skip(from as int).skip(1) =~= v@.skip(from + 1));
        from + 1
    } else {
        from
    }
}

fn exponent_at(v: &Vec<char>, from: usize) -> (b: bool)
    requires
        from <= v@.len(),
    ensures
        b == is_exponent(v@.skip(from as int)),
{
    if from == v.len() {
        return true;
    }
    let ghost s = v@.skip(from as int);
    assert(s[0] == v@[from as int]);
    if v[from] != 'e' && v[from] != 'E' {
        return false;
    }
    assert(s.skip(1) =~= v@.skip(from + 1));
    let start: usize = sign_end(v, from + 1);
    let end: usize = digits_end(v, start);
    proof {
        lemma_skip_digits(v@.skip(start as int));
    }
    start < v.len() && end == v.len()
}

/// Nothing is left behind the digits of a text exactly if all of it is digits.
proof fn lemma_skip_digits(s: Seq<char>)
    ensures
        skip_digits(s).len() == 0 <==> all_digits(s),
    decreases s.len(),
{
    if s.len() > 0 {
        if is_digit(s[0]) {
            lemma_skip_digits(s.skip(1));
            if all_digits(s.skip(1)) {
                assert forall|i: int| 0 <= i < s.len() implies is_digit(#[trigger] s[i]) by {
                    if i > 0 {
                        assert(s.skip(1)[i - 1] == s[i]);
                    }
                }
            }
            if all_digits(s) {
                assert forall|i: int| 0 <= i < s.skip(1).len() implies is_digit(
                    #[trigger] s.skip(1)[i],
                ) by {
                    assert(s[i + 1] == s.skip(1)[i]);
                }
            }
        } else {
            assert(!all_digits(s));
        }
    }
}

/// Whether a text is that of a floating point number.
pub fn is_float_text(s: &str) -> (b: bool)
    ensures
        b == is_float(s@),
{
    let v = chars_of(s);
    assert(v@.skip(0) =~= v@);
    let start: usize = sign_end(&v, 0);
    let total: usize = v.len();
    let a: usize = digits_end(&v, start);
    let decimal: bool = if a < total && v[a] == '.' {
        assert(v@.skip(a as int).skip(1) =~= v@.skip(a + 1));
        let b: usize = digits_end(&v, a + 1);
        (a > start || b > a + 1) && exponent_at(&v, b)
    } else {
        a > start && exponent_at(&v, a)
    };
    if decimal {
        return true;
    }
    let u = text_of(&v.as_slice()[start..total]);
    assert(u@ =~= v@.skip(start as int));
    eq_ignore_ascii_case(&u, "inf") || eq_ignore_ascii_case(&u, "infinity")
        || eq_ignore_ascii_case(&u, "nan")
}

/// The digit of a small number.
pub open spec fn digit_of(n: int) -> char {
    (('0' as u32 + n) as u32) as char
}

/// A natural number in decimal.
pub open spec fn natural_text(n: int) -> Seq<char>
    decreases n,
{
    if n < 10 {
        seq![digit_of(n)]
    } else {
        natural_text(n / 10).push(digit_of(n % 10))
    }
}

/// An integer in decimal.
pub open spec fn integer_text(n: int) -> Seq<char> {
    if n < 0 {
        seq!['-'] + natural_text(-n)
    } else {
        natural_text(n)
    }
}

/// A number that is written in decimal is read as that number.
pub proof fn lemma_integer_text(n: int)
    ensures
        integer_of(integer_text(n)) == Some(n),
{
    if n < 0 {
        lemma_natural_text(-n);
        assert(integer_text(n).skip(1) =~= natural_text(-n));
    } else {
        lemma_natural_text(n);
        let s = natural_text(n);
        assert(is_digit(s[0]));
    }
}

/// The digits of a natural number.
pub proof fn lemma_natural_digits(n: int)
    requires
        0 <= n,
    ensures
        natural_text(n).len() > 0,
        all_digits(natural_text(n)),
        is_digit(natural_text(n)[0]),
{
    lemma_natural_text(n);
}

proof fn lemma_natural_text(n: int)
    requires
        0 <= n,
    ensures
        natural_text(n).len() > 0,
        all_digits(natural_text(n)),
        number(natural_text(n)) == n,
    decreases n,
{
    let s = natural_text(n);
    if n < 10 {
        assert(s.drop_last() =~= Seq::empty());
        assert(number(s.drop_last()) == 0);
    } else {
        lemma_natural_text(n / 10);
        assert(s.drop_last() =~= natural_text(n / 10));
        assert(s.last() == digit_of(n % 10));
    }
}

fn push_natural(s: &mut String, n: u64)
    ensures
        final(s)@ == old(s)@ + natural_text(n as int),
    decreases n,
{
    if n >= 10 {
        push_natural(s, n / 10);
    }
    let c: char = (48 + (n % 10) as u8) as char;
    s.push(c);
    assert(s@ =~= old(s)@ + natural_text(n as int));
}

/// An integer in decimal.
pub fn integer_string(n: i64) -> (s: String)
    ensures
        s@ == integer_text(n as int),
{
    let mut s = String::new();
    if n < 0 {
        s.push('-');
        let m: u64 = if n == i64::MIN {
            9223372036854775808
        } else {
            (-n) as u64
        };
        push_natural(&mut s, m);
    } else {
        push_natural(&mut s, n as u64);
    }
    assert(s@ =~= integer_text(n as int));
    s
}

/// The text with its apostrophes doubled.
pub open spec fn doubled(s: Seq<char>) -> Seq<char>
    decreases s.len(),
{
    if s.len() == 0 {
        s
    } else if s.last() == '\'' {
        doubled(s.drop_last()).push('\'').push('\'')
    } else {
        doubled(s.drop_last()).push(s.last())
    }
}

/// The text as a string literal.
pub open spec fn quoted(s: Seq<char>) -> Seq<char> {
    seq!['\''] + doubled(s) + seq!['\'']
}

/// The text as a string literal.
pub fn quote(s: &str) -> (r: String)
    ensures
        r@ == quoted(s@),
{
    let v = chars_of(s);
    let mut r = String::new();
    r.push('\'');
    let mut i: usize = 0;
    assert(v@.take(0) =~= Seq::empty());
    assert(r@ =~= seq!['\''] + doubled(v@.take(0)));
    while i < v.len()
        invariant
            i <= v@.len(),
            r@ == seq!['\''] + doubled(v@.take(i as int)),
        decreases v@.len() - i,
    {
        let c: char = v[i];
        proof {
            assert(v@.take(i + 1).drop_last() =~= v@.take(i as int));
            assert(v@.take(i + 1).last() == c);
        }
        r.push(c);
        if c == '\'' {
            r.push(c);
        }
        i = i + 1;
        assert(r@ =~= seq!['\''] + doubled(v@.take(i as int)));
    }
    assert(v@.take(i as int) =~= v@);
    r.push('\'');
    assert(r@ =~= quoted(s@));
    r
}

} // verus!
