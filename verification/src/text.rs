//! Character-sequence helpers: decimal digits, splitting on a separator,
//! case-insensitive comparison against a lowercase word, and conversions
//! between `String` and `Vec<char>`.

use vstd::prelude::*;

verus! {

/// True for the ten ASCII decimal digit characters.
pub open spec fn is_digit(c: char) -> bool {
    48 <= c as int <= 57
}

/// Numeric value of an ASCII digit character.
pub open spec fn digit_val(c: char) -> int {
    c as int - 48
}

/// The ASCII digit character for a value below ten.
pub open spec fn digit_char(d: int) -> char {
    if d == 0 {
        '0'
    } else if d == 1 {
        '1'
    } else if d == 2 {
        '2'
    } else if d == 3 {
        '3'
    } else if d == 4 {
        '4'
    } else if d == 5 {
        '5'
    } else if d == 6 {
        '6'
    } else if d == 7 {
        '7'
    } else if d == 8 {
        '8'
    } else {
        '9'
    }
}

/// Every character of `s` is an ASCII decimal digit.
pub open spec fn all_digits(s: Seq<char>) -> bool {
    forall|i: int| 0 <= i < s.len() ==> is_digit(#[trigger] s[i])
}

/// Value of a digit string read most-significant-first.
pub open spec fn digits_val(s: Seq<char>) -> int
    decreases s.len(),
{
    if s.len() == 0 {
        0
    } else {
        digits_val(s.drop_last()) * 10 + digit_val(s.last())
    }
}

/// Decimal rendering of `n`, most significant digit first, no leading zeros
/// (a single `'0'` for zero).
pub open spec fn dec_digits(n: nat) -> Seq<char>
    decreases n,
{
    if n < 10 {
        seq![digit_char(n as int)]
    } else {
        dec_digits(n / 10).push(digit_char(n as int % 10))
    }
}

/// Ten to the `k`.
pub open spec fn pow10(k: nat) -> int
    decreases k,
{
    if k == 0 {
        1
    } else {
        10 * pow10((k - 1) as nat)
    }
}

proof fn lemma_digit_char_val(d: int)
    requires
        0 <= d < 10,
    ensures
        is_digit(digit_char(d)),
        digit_val(digit_char(d)) == d,
{
}

/// A rendered number consists of digits and reads back to the same value.
pub proof fn lemma_dec_digits(n: nat)
    ensures
        dec_digits(n).len() >= 1,
        all_digits(dec_digits(n)),
        digits_val(dec_digits(n)) == n,
    decreases n,
{
    if n < 10 {
        lemma_digit_char_val(n as int);
        let s = seq![digit_char(n as int)];
        assert(s.drop_last() =~= Seq::<char>::empty());
        assert(digits_val(s.drop_last()) == 0);
        assert(digits_val(s) == 0 * 10 + digit_val(digit_char(n as int)));
    } else {
        lemma_dec_digits(n / 10);
        lemma_digit_char_val(n as int % 10);
        let whole = dec_digits(n);
        assert(whole == dec_digits(n / 10).push(digit_char(n as int % 10)));
        assert(whole.drop_last() =~= dec_digits(n / 10));
        assert(whole.last() == digit_char(n as int % 10));
        assert(digits_val(whole) == (n / 10) * 10 + (n as int % 10));
        vstd::arithmetic::div_mod::lemma_fundamental_div_mod(n as int, 10);
        assert forall|i: int| 0 <= i < whole.len() implies is_digit(#[trigger] whole[i]) by {
            if i < whole.len() - 1 {
                assert(whole[i] == dec_digits(n / 10)[i]);
            }
        }
    }
}

/// A number below `pow10(k)` renders in at most `k` digits.
pub proof fn lemma_dec_digits_len(n: nat, k: nat)
    requires
        1 <= k,
        n < pow10(k),
    ensures
        dec_digits(n).len() <= k,
    decreases n,
{
    if n >= 10 {
        assert(pow10(k) == 10 * pow10((k - 1) as nat));
        assert(n / 10 < pow10((k - 1) as nat)) by {
            vstd::arithmetic::div_mod::lemma_fundamental_div_mod(n as int, 10);
        }
        lemma_dec_digits_len(n / 10, (k - 1) as nat);
    }
}

/// Splitting a character sequence on a separator, as `str::split` does:
/// the result always has at least one token, and an empty input yields one
/// empty token.
pub open spec fn split_char(s: Seq<char>, sep: char) -> Seq<Seq<char>>
    decreases s.len(),
{
    if s.len() == 0 {
        seq![Seq::<char>::empty()]
    } else if s[0] == sep {
        seq![Seq::<char>::empty()] + split_char(s.drop_first(), sep)
    } else {
        let rest = split_char(s.drop_first(), sep);
        seq![seq![s[0]] + rest[0]] + rest.drop_first()
    }
}

/// Splitting yields at least one token.
pub proof fn lemma_split_len(s: Seq<char>, sep: char)
    ensures
        split_char(s, sep).len() >= 1,
    decreases s.len(),
{
    if s.len() > 0 {
        lemma_split_len(s.drop_first(), sep);
    }
}

/// Appending one character extends the last token, or opens a fresh empty
/// token when the character is the separator.
pub proof fn lemma_split_push(s: Seq<char>, sep: char, c: char)
    ensures
        c != sep ==> split_char(s.push(c), sep) == split_char(s, sep).update(
            split_char(s, sep).len() - 1,
            split_char(s, sep).last().push(c),
        ),
        c == sep ==> split_char(s.push(c), sep) == split_char(s, sep).push(Seq::<char>::empty()),
    decreases s.len(),
{
    lemma_split_len(s, sep);
    if s.len() == 0 {
        assert(s.push(c).len() == 1);
        assert(s.push(c)[0] == c);
        assert(s.push(c).drop_first() =~= Seq::<char>::empty());
        assert(split_char(Seq::<char>::empty(), sep) == seq![Seq::<char>::empty()]);
        assert(split_char(s, sep) == seq![Seq::<char>::empty()]);
        if c == sep {
            assert(split_char(s.push(c), sep) =~= split_char(s, sep).push(Seq::<char>::empty()));
        } else {
            let rest = split_char(s.push(c).drop_first(), sep);
            assert(rest == seq![Seq::<char>::empty()]);
            assert(seq![c] + rest[0] =~= seq![c]);
            assert(rest.drop_first() =~= Seq::<Seq<char>>::empty());
            assert(split_char(s, sep).last().push(c) =~= seq![c]);
            assert(split_char(s.push(c), sep) =~= split_char(s, sep).update(0, seq![c]));
        }
    } else {
        let t = s.drop_first();
        lemma_split_len(t, sep);
        lemma_split_push(t, sep, c);
        assert(s.push(c).drop_first() =~= t.push(c));
        assert(s.push(c)[0] == s[0]);
        let rt = split_char(t, sep);
        let rtc = split_char(t.push(c), sep);
        let full = split_char(s, sep);
        if s[0] == sep {
            assert(full == seq![Seq::<char>::empty()] + rt);
            if c == sep {
                assert(rtc == rt.push(Seq::<char>::empty()));
                assert(split_char(s.push(c), sep) == seq![Seq::<char>::empty()] + rtc);
                assert(seq![Seq::<char>::empty()] + rt.push(Seq::<char>::empty()) =~= full.push(
                    Seq::<char>::empty(),
                ));
            } else {
                assert(rtc == rt.update(rt.len() - 1, rt.last().push(c)));
                assert(full.last() == rt.last());
                assert(split_char(s.push(c), sep) == seq![Seq::<char>::empty()] + rtc);
                assert(seq![Seq::<char>::empty()] + rtc =~= full.update(
                    full.len() - 1,
                    full.last().push(c),
                ));
            }
        } else {
            assert(full == seq![seq![s[0]] + rt[0]] + rt.drop_first());
            if c == sep {
                assert(rtc == rt.push(Seq::<char>::empty()));
                assert(rtc[0] == rt[0]);
                assert(split_char(s.push(c), sep) == seq![seq![s[0]] + rtc[0]] + rtc.drop_first());
                assert(rtc.drop_first() =~= rt.drop_first().push(Seq::<char>::empty()));
                assert(seq![seq![s[0]] + rt[0]] + rt.drop_first().push(Seq::<char>::empty()) =~= (
                seq![seq![s[0]] + rt[0]] + rt.drop_first()).push(Seq::<char>::empty()));
            } else {
                assert(rtc == rt.update(rt.len() - 1, rt.last().push(c)));
                assert(split_char(s.push(c), sep) == seq![seq![s[0]] + rtc[0]] + rtc.drop_first());
                if rt.len() == 1 {
                    assert(rtc[0] == rt[0].push(c));
                    assert(rtc.drop_first() =~= Seq::<Seq<char>>::empty());
                    assert(rt.drop_first() =~= Seq::<Seq<char>>::empty());
                    assert(full.len() == 1);
                    assert(full.last() == seq![s[0]] + rt[0]);
                    assert((seq![s[0]] + rt[0]).push(c) =~= seq![s[0]] + rt[0].push(c));
                    assert(seq![seq![s[0]] + rtc[0]] + rtc.drop_first() =~= full.update(
                        0,
                        full.last().push(c),
                    ));
                } else {
                    assert(rtc[0] == rt[0]);
                    assert(rtc.drop_first() =~= rt.drop_first().update(
                        rt.len() - 2,
                        rt.last().push(c),
                    ));
                    assert(full.last() == rt.last());
                    assert(seq![seq![s[0]] + rtc[0]] + rtc.drop_first() =~= full.update(
                        full.len() - 1,
                        full.last().push(c),
                    ));
                }
            }
        }
    }
}

/// A sequence free of the separator splits into itself alone.
pub proof fn lemma_split_no_sep(s: Seq<char>, sep: char)
    requires
        forall|i: int| 0 <= i < s.len() ==> #[trigger] s[i] != sep,
    ensures
        split_char(s, sep) == seq![s],
    decreases s.len(),
{
    if s.len() == 0 {
        assert(s =~= Seq::<char>::empty());
        assert(split_char(s, sep) =~= seq![s]);
    } else {
        lemma_split_no_sep(s.drop_first(), sep);
        let rest = split_char(s.drop_first(), sep);
        assert(rest == seq![s.drop_first()]);
        assert(rest.drop_first() =~= Seq::<Seq<char>>::empty());
        assert(seq![s[0]] + rest[0] =~= s);
        assert(split_char(s, sep) =~= seq![s]);
    }
}

/// Splitting `x + [sep] + y`, with both halves free of the separator,
/// yields exactly the two halves.
pub proof fn lemma_split_two(x: Seq<char>, y: Seq<char>, sep: char)
    requires
        forall|i: int| 0 <= i < x.len() ==> #[trigger] x[i] != sep,
        forall|i: int| 0 <= i < y.len() ==> #[trigger] y[i] != sep,
    ensures
        split_char(x + seq![sep] + y, sep) == seq![x, y],
    decreases x.len(),
{
    if x.len() == 0 {
        let s = x + seq![sep] + y;
        assert(s[0] == sep);
        assert(s.drop_first() =~= y);
        lemma_split_no_sep(y, sep);
        assert(split_char(s, sep) == seq![Seq::<char>::empty()] + seq![y]);
        assert(x =~= Seq::<char>::empty());
        assert(seq![Seq::<char>::empty()] + seq![y] =~= seq![x, y]);
    } else {
        let s = x + seq![sep] + y;
        assert(s[0] == x[0]);
        assert(x[0] != sep);
        assert(s.drop_first() =~= x.drop_first() + seq![sep] + y);
        lemma_split_two(x.drop_first(), y, sep);
        let rest = split_char(s.drop_first(), sep);
        assert(rest == seq![x.drop_first(), y]);
        assert(rest[0] == x.drop_first());
        assert(rest.drop_first() =~= seq![y]);
        assert(seq![s[0]] + x.drop_first() =~= x);
        assert(split_char(s, sep) == seq![seq![s[0]] + rest[0]] + rest.drop_first());
        assert(seq![x] + seq![y] =~= seq![x, y]);
    }
}

/// The digit part of a number token: everything after an optional leading
/// `'+'`, as `u8::from_str` accepts it.
pub open spec fn u8_digits_part(s: Seq<char>) -> Seq<char> {
    if s.len() > 0 && s[0] == '+' {
        s.drop_first()
    } else {
        s
    }
}

/// The token parses as a `u8`: a non-empty run of digits after an optional
/// `'+'`, with value at most 255.
pub open spec fn is_u8_string(s: Seq<char>) -> bool {
    let d = u8_digits_part(s);
    d.len() > 0 && all_digits(d) && digits_val(d) <= 255
}

/// The value such a token denotes.
pub open spec fn u8_string_val(s: Seq<char>) -> int {
    digits_val(u8_digits_part(s))
}

proof fn lemma_digits_val_nonneg(s: Seq<char>)
    requires
        all_digits(s),
    ensures
        digits_val(s) >= 0,
    decreases s.len(),
{
    if s.len() > 0 {
        assert(all_digits(s.drop_last())) by {
            assert(forall|i: int|
                0 <= i < s.len() - 1 ==> #[trigger] s.drop_last()[i] == s[i]);
        }
        lemma_digits_val_nonneg(s.drop_last());
    }
}

/// Reading further digits never decreases the value.
proof fn lemma_digits_val_prefix_le(s: Seq<char>, k: int)
    requires
        all_digits(s),
        0 <= k <= s.len(),
    ensures
        digits_val(s.take(k)) <= digits_val(s),
    decreases s.len() - k,
{
    assert(all_digits(s.take(k)));
    if k < s.len() {
        lemma_digits_val_prefix_le(s, k + 1);
        assert(s.take(k + 1).drop_last() =~= s.take(k));
        assert(s.take(k + 1).last() == s[k]);
        lemma_digits_val_nonneg(s.take(k));
        assert(digits_val(s.take(k + 1)) == digits_val(s.take(k)) * 10 + digit_val(s[k]));
    } else {
        assert(s.take(k) =~= s);
    }
}

/// The digit character for a value below ten.
pub fn digit_char_exec(d: u8) -> (c: char)
    requires
        d < 10,
    ensures
        c == digit_char(d as int),
{
    if d == 0 {
        '0'
    } else if d == 1 {
        '1'
    } else if d == 2 {
        '2'
    } else if d == 3 {
        '3'
    } else if d == 4 {
        '4'
    } else if d == 5 {
        '5'
    } else if d == 6 {
        '6'
    } else if d == 7 {
        '7'
    } else if d == 8 {
        '8'
    } else {
        '9'
    }
}

/// Renders a number in decimal, most significant digit first.
pub fn u64_dec_chars(n: u64) -> (v: Vec<char>)
    ensures
        v@ == dec_digits(n as nat),
    decreases n,
{
    if n < 10 {
        let mut v: Vec<char> = Vec::new();
        v.push(digit_char_exec(n as u8));
        assert(v@ =~= seq![digit_char(n as int)]);
        v
    } else {
        let mut v = u64_dec_chars(n / 10);
        v.push(digit_char_exec((n % 10) as u8));
        v
    }
}

/// Appends all characters of `src` to `dst`.
pub fn append_chars(dst: &mut Vec<char>, src: &Vec<char>)
    ensures
        final(dst)@ == old(dst)@ + src@,
{
    let mut i: usize = 0;
    while i < src.len()
        invariant
            i <= src@.len(),
            dst@ == old(dst)@ + src@.take(i as int),
        decreases src@.len() - i,
    {
        dst.push(src[i]);
        assert(old(dst)@ + src@.take(i + 1) =~= (old(dst)@ + src@.take(i as int)).push(
            src@[i as int],
        ));
        i = i + 1;
    }
    assert(old(dst)@ + src@.take(src@.len() as int) =~= old(dst)@ + src@);
}

/// Converts a string slice to the vector of its characters.
pub fn str_to_chars(s: &str) -> (v: Vec<char>)
    ensures
        v@ == s@,
{
    let n: usize = s.unicode_len();
    let mut v: Vec<char> = Vec::new();
    let mut i: usize = 0;
    while i < n
        invariant
            i <= n,
            n == s@.len(),
            v@ == s@.take(i as int),
        decreases n - i,
    {
        let c: char = s.get_char(i);
        v.push(c);
        assert(s@.take(i + 1) =~= s@.take(i as int).push(c));
        i = i + 1;
    }
    assert(s@.take(n as int) =~= s@);
    v
}

/// Relies on `String::push`: appends one character to the string.
#[verifier::external_body]
fn push_char(s: &mut String, c: char)
    ensures
        final(s)@ == old(s)@.push(c),
{
    s.push(c)
}

/// Builds a string from a vector of characters.
pub fn chars_to_string(v: &Vec<char>) -> (s: String)
    ensures
        s@ == v@,
{
    let mut s = String::new();
    let mut i: usize = 0;
    while i < v.len()
        invariant
            i <= v@.len(),
            s@ == v@.take(i as int),
        decreases v@.len() - i,
    {
        push_char(&mut s, v[i]);
        assert(v@.take(i + 1) =~= v@.take(i as int).push(v@[i as int]));
        i = i + 1;
    }
    assert(v@.take(v@.len() as int) =~= v@);
    s
}

/// Compares a character vector with a string slice.
pub fn chars_eq_str(v: &Vec<char>, s: &str) -> (b: bool)
    ensures
        b == (v@ == s@),
{
    let n: usize = s.unicode_len();
    if v.len() != n {
        assert(v@ != s@) by {
            assert(v@.len() != s@.len());
        }
        return false;
    }
    let mut i: usize = 0;
    while i < n
        invariant
            i <= n,
            n == s@.len(),
            n == v@.len(),
            forall|j: int| 0 <= j < i ==> v@[j] == s@[j],
        decreases n - i,
    {
        if v[i] != s.get_char(i) {
            return false;
        }
        i = i + 1;
    }
    assert(v@ =~= s@);
    true
}

/// One character equals a lowercase target, either exactly or as its
/// ASCII-uppercase counterpart.
pub open spec fn lower_eq_char(c: char, l: char) -> bool {
    c == l || (97 <= l as int <= 122 && c as int + 32 == l as int)
}

/// ASCII-lowercasing `s` yields exactly the (lowercase) word `t`.
pub open spec fn matches_lower(s: Seq<char>, t: Seq<char>) -> bool {
    s.len() == t.len() && (forall|i: int| 0 <= i < s.len() ==> lower_eq_char(#[trigger] s[i], t[i]))
}

/// Case-insensitive comparison of a character vector against a lowercase
/// word, supplied together with its uppercase spelling so that no character
/// arithmetic is needed.
pub fn matches_lower_exec(v: &Vec<char>, lower: &str, upper: &str) -> (b: bool)
    requires
        lower@.len() == upper@.len(),
        forall|i: int| 0 <= i < lower@.len() ==> 97 <= (#[trigger] lower@[i]) as int <= 122,
        forall|i: int| 0 <= i < upper@.len() ==> (#[trigger] upper@[i]) as int + 32 == lower@[i]
            as int,
    ensures
        b == matches_lower(v@, lower@),
{
    let n: usize = lower.unicode_len();
    if v.len() != n {
        return false;
    }
    let mut i: usize = 0;
    while i < n
        invariant
            i <= n,
            n == lower@.len(),
            n == upper@.len(),
            n == v@.len(),
            forall|k: int| 0 <= k < lower@.len() ==> 97 <= (#[trigger] lower@[k]) as int <= 122,
            forall|k: int| 0 <= k < upper@.len() ==> (#[trigger] upper@[k]) as int + 32
                == lower@[k] as int,
            forall|j: int| 0 <= j < i ==> lower_eq_char(#[trigger] v@[j], lower@[j]),
        decreases n - i,
    {
        let c: char = v[i];
        let cl: char = lower.get_char(i);
        let cu: char = upper.get_char(i);
        if !(c == cl || c == cu) {
            assert(!lower_eq_char(v@[i as int], lower@[i as int]));
            return false;
        }
        assert(lower_eq_char(v@[i as int], lower@[i as int]));
        i = i + 1;
    }
    true
}

/// The views of a sequence of character vectors.
pub open spec fn token_views(parts: Seq<Vec<char>>) -> Seq<Seq<char>> {
    parts.map_values(|p: Vec<char>| p@)
}

/// Splits a character vector on a separator, exactly as [`split_char`]
/// describes.
pub fn split_chars(v: &Vec<char>, sep: char) -> (parts: Vec<Vec<char>>)
    ensures
        token_views(parts@) == split_char(v@, sep),
        parts@.len() >= 1,
{
    let mut done: Vec<Vec<char>> = Vec::new();
    let mut cur: Vec<char> = Vec::new();
    let mut i: usize = 0;
    proof {
        assert(v@.take(0) =~= Seq::<char>::empty());
        assert(token_views(done@).push(cur@) =~= split_char(v@.take(0), sep));
    }
    while i < v.len()
        invariant
            i <= v@.len(),
            token_views(done@).push(cur@) == split_char(v@.take(i as int), sep),
        decreases v@.len() - i,
    {
        let c: char = v[i];
        let ghost prev = split_char(v@.take(i as int), sep);
        let ghost prev_done = done@;
        let ghost prev_cur = cur@;
        proof {
            lemma_split_push(v@.take(i as int), sep, c);
            assert(v@.take(i + 1) =~= v@.take(i as int).push(c));
            lemma_split_len(v@.take(i as int), sep);
        }
        if c == sep {
            done.push(cur);
            cur = Vec::new();
            proof {
                assert(token_views(done@) =~= token_views(prev_done).push(prev_cur));
                assert(token_views(done@).push(cur@) =~= prev.push(Seq::<char>::empty()));
            }
        } else {
            cur.push(c);
            proof {
                assert(cur@ == prev_cur.push(c));
                assert(prev.last() == prev_cur);
                assert(token_views(done@).push(cur@) =~= prev.update(
                    prev.len() - 1,
                    prev.last().push(c),
                ));
            }
        }
        i = i + 1;
    }
    done.push(cur);
    proof {
        assert(v@.take(v@.len() as int) =~= v@);
        assert(token_views(done@) =~= split_char(v@, sep));
    }
    done
}

/// Parses a `u8` from a character vector, as `u8::from_str` would: an
/// optional leading `'+'`, at least one digit, value at most 255.
pub fn parse_u8_chars(tok: &Vec<char>) -> (r: Option<u8>)
    ensures
        is_u8_string(tok@) ==> r == Some(u8_string_val(tok@) as u8),
        !is_u8_string(tok@) ==> r is None,
{
    let mut start: usize = 0;
    if tok.len() > 0 && tok[0] == '+' {
        start = 1;
    }
    let ghost d = u8_digits_part(tok@);
    proof {
        assert(d =~= tok@.subrange(start as int, tok@.len() as int));
    }
    if start == tok.len() {
        return None;
    }
    let mut acc: u32 = 0;
    let mut j: usize = start;
    while j < tok.len()
        invariant
            start <= j <= tok@.len(),
            d == u8_digits_part(tok@),
            d == tok@.subrange(start as int, tok@.len() as int),
            all_digits(d.take(j - start)),
            acc == digits_val(d.take(j - start)),
            acc <= 255,
        decreases tok@.len() - j,
    {
        let c: char = tok[j];
        let ghost pre = d.take(j - start);
        proof {
            assert(d[j - start] == tok@[j as int]);
            assert(d.take(j - start + 1).drop_last() =~= pre);
            assert(d.take(j - start + 1).last() == c);
        }
        if !('0' <= c && c <= '9') {
            assert(!is_digit(d[j - start]));
            return None;
        }
        let dv: u32 = (c as u32) - 48;
        assert(dv == digit_val(c));
        let next: u32 = acc * 10 + dv;
        proof {
            assert(digits_val(d.take(j - start + 1)) == digits_val(pre) * 10 + digit_val(c));
        }
        if next > 255 {
            proof {
                if all_digits(d) {
                    lemma_digits_val_prefix_le(d, j - start + 1);
                    assert(digits_val(d) > 255);
                }
            }
            return None;
        }
        acc = next;
        j = j + 1;
    }
    proof {
        assert(d.take(d.len() as int) =~= d);
    }
    Some(acc as u8)
}

} // verus!
