//! The cache snapshot format: a self-contained, length-prefixed text
//! encoding of an index (scanned root plus version/path entries), with a
//! verified decoder that rejects anything malformed. Numbers are stored as
//! fixed-width decimal runs, least significant digit first; the format is
//! internal, and any snapshot the encoder did not produce may simply fail
//! to decode, which the fail-open load policy absorbs.

use crate::text::all_digits;
use crate::text::digit_char;
use crate::text::digit_char_exec;
use crate::text::digit_val;
use crate::text::is_digit;
use crate::text::pow10;
use crate::text::append_chars;
use crate::text::chars_to_string;
use crate::text::str_to_chars;
use crate::version::Version;
use vstd::arithmetic::div_mod::lemma_fundamental_div_mod;
use vstd::prelude::*;

verus! {

/// `n` in exactly `k` decimal digits, least significant first (higher
/// digits are truncated).
pub open spec fn enc_fixed(n: nat, k: nat) -> Seq<char>
    decreases k,
{
    if k == 0 {
        Seq::<char>::empty()
    } else {
        seq![digit_char((n % 10) as int)] + enc_fixed(n / 10, (k - 1) as nat)
    }
}

/// The value of a least-significant-first digit run.
pub open spec fn dec_fixed(s: Seq<char>) -> int
    decreases s.len(),
{
    if s.len() == 0 {
        0
    } else {
        digit_val(s[0]) + 10 * dec_fixed(s.drop_first())
    }
}

/// The fixed powers of ten the format relies on.
pub proof fn lemma_pow10_values()
    ensures
        pow10(3) == 1000,
        pow10(20) == 100000000000000000000,
{
    assert(pow10(0) == 1);
    assert(pow10(1) == 10);
    assert(pow10(2) == 100);
    assert(pow10(3) == 1000);
    assert(pow10(4) == 10000);
    assert(pow10(5) == 100000);
    assert(pow10(6) == 1000000);
    assert(pow10(7) == 10000000);
    assert(pow10(8) == 100000000);
    assert(pow10(9) == 1000000000);
    assert(pow10(10) == 10000000000);
    assert(pow10(11) == 100000000000);
    assert(pow10(12) == 1000000000000);
    assert(pow10(13) == 10000000000000);
    assert(pow10(14) == 100000000000000);
    assert(pow10(15) == 1000000000000000);
    assert(pow10(16) == 10000000000000000);
    assert(pow10(17) == 100000000000000000);
    assert(pow10(18) == 1000000000000000000);
    assert(pow10(19) == 10000000000000000000);
    assert(pow10(20) == 100000000000000000000);
}

proof fn lemma_dec_fixed_nonneg(s: Seq<char>)
    requires
        all_digits(s),
    ensures
        dec_fixed(s) >= 0,
    decreases s.len(),
{
    if s.len() > 0 {
        assert(all_digits(s.drop_first())) by {
            assert(forall|i: int|
                0 <= i < s.len() - 1 ==> #[trigger] s.drop_first()[i] == s[i + 1]);
        }
        lemma_dec_fixed_nonneg(s.drop_first());
    }
}

/// Dropping leading (least significant) digits never increases the value.
proof fn lemma_dec_fixed_suffix_le(s: Seq<char>, i: int)
    requires
        all_digits(s),
        0 <= i <= s.len(),
    ensures
        0 <= dec_fixed(s.skip(i)) <= dec_fixed(s),
    decreases i,
{
    assert(all_digits(s.skip(i))) by {
        assert(forall|j: int|
            0 <= j < s.len() - i ==> #[trigger] s.skip(i)[j] == s[j + i]);
    }
    lemma_dec_fixed_nonneg(s.skip(i));
    if i == 0 {
        assert(s.skip(0) =~= s);
    }
    if i > 0 {
        lemma_dec_fixed_suffix_le(s, i - 1);
        let t = s.skip(i - 1);
        assert(t.drop_first() =~= s.skip(i));
        assert(t[0] == s[i - 1]);
        assert(dec_fixed(t) == digit_val(s[i - 1]) + 10 * dec_fixed(s.skip(i)));
        assert(is_digit(s[i - 1]));
        assert(dec_fixed(s.skip(i)) <= 10 * dec_fixed(s.skip(i)));
    }
}

/// Encoding a number below `pow10(k)` in `k` digits and reading the run
/// back yields the number.
pub proof fn lemma_enc_dec_fixed(n: nat, k: nat)
    requires
        n < pow10(k),
    ensures
        enc_fixed(n, k).len() == k,
        all_digits(enc_fixed(n, k)),
        dec_fixed(enc_fixed(n, k)) == n,
    decreases k,
{
    if k == 0 {
        assert(pow10(0) == 1);
    } else {
        lemma_fundamental_div_mod(n as int, 10);
        assert(pow10(k) == 10 * pow10((k - 1) as nat));
        assert(n / 10 < pow10((k - 1) as nat));
        lemma_enc_dec_fixed(n / 10, (k - 1) as nat);
        let w = enc_fixed(n, k);
        let head = digit_char((n % 10) as int);
        assert(w == seq![head] + enc_fixed(n / 10, (k - 1) as nat));
        assert(w[0] == head);
        assert(w.drop_first() =~= enc_fixed(n / 10, (k - 1) as nat));
        assert(is_digit(head) && digit_val(head) == n % 10);
        assert(dec_fixed(w) == n % 10 + 10 * ((n / 10) as int));
        assert forall|i: int| 0 <= i < w.len() implies is_digit(#[trigger] w[i]) by {
            if i > 0 {
                assert(w[i] == enc_fixed(n / 10, (k - 1) as nat)[i - 1]);
            }
        }
    }
}

/// A 20-digit length or count field, valid when its value fits a `u64`.
pub open spec fn dec_u64_spec(s: Seq<char>) -> Option<(u64, Seq<char>)> {
    if s.len() >= 20 {
        let w = s.take(20);
        if all_digits(w) && dec_fixed(w) < 0x10000000000000000 {
            Some((dec_fixed(w) as u64, s.skip(20)))
        } else {
            None
        }
    } else {
        None
    }
}

/// A 3-digit byte field, valid when its value fits a `u8`.
pub open spec fn dec_u8_spec(s: Seq<char>) -> Option<(u8, Seq<char>)> {
    if s.len() >= 3 {
        let w = s.take(3);
        if all_digits(w) && dec_fixed(w) < 256 {
            Some((dec_fixed(w) as u8, s.skip(3)))
        } else {
            None
        }
    } else {
        None
    }
}

/// A length-prefixed character run.
pub open spec fn dec_str_spec(s: Seq<char>) -> Option<(Seq<char>, Seq<char>)> {
    match dec_u64_spec(s) {
        Some((n, rest)) => {
            if rest.len() >= n {
                Some((rest.take(n as int), rest.skip(n as int)))
            } else {
                None
            }
        },
        None => None,
    }
}

/// A version tag: `M` plus two 3-digit numbers, or the bare tags `E` and
/// `C`.
pub open spec fn dec_version_spec(s: Seq<char>) -> Option<(Version, Seq<char>)> {
    if s.len() == 0 {
        None
    } else if s[0] == 'M' {
        match dec_u8_spec(s.drop_first()) {
            Some((mj, r1)) => match dec_u8_spec(r1) {
                Some((mn, r2)) => Some((Version::Mainline(mj, mn), r2)),
                None => None,
            },
            None => None,
        }
    } else if s[0] == 'E' {
        Some((Version::Experimental, s.drop_first()))
    } else if s[0] == 'C' {
        Some((Version::Custom, s.drop_first()))
    } else {
        None
    }
}

/// Exactly `n` version/path entries, in order.
pub open spec fn dec_entries_spec(s: Seq<char>, n: nat) -> Option<
    (Seq<(Version, Seq<char>)>, Seq<char>),
>
    decreases n,
{
    if n == 0 {
        Some((Seq::<(Version, Seq<char>)>::empty(), s))
    } else {
        match dec_version_spec(s) {
            Some((ver, r1)) => match dec_str_spec(r1) {
                Some((path, r2)) => match dec_entries_spec(r2, (n - 1) as nat) {
                    Some((es, r3)) => Some((seq![(ver, path)] + es, r3)),
                    None => None,
                },
                None => None,
            },
            None => None,
        }
    }
}

/// What decoding a whole snapshot yields: the scanned root and the entry
/// list, with nothing left over.
pub open spec fn decode_index_spec(s: Seq<char>) -> Option<
    (Seq<char>, Seq<(Version, Seq<char>)>),
> {
    match dec_str_spec(s) {
        Some((dir, r1)) => match dec_u64_spec(r1) {
            Some((n, r2)) => match dec_entries_spec(r2, n as nat) {
                Some((es, r3)) => {
                    if r3.len() == 0 {
                        Some((dir, es))
                    } else {
                        None
                    }
                },
                None => None,
            },
            None => None,
        },
        None => None,
    }
}

/// A character run with its 20-digit length prefix.
pub open spec fn enc_str(s: Seq<char>) -> Seq<char> {
    enc_fixed(s.len(), 20) + s
}

/// A version tag.
pub open spec fn enc_version(v: Version) -> Seq<char> {
    match v {
        Version::Mainline(mj, mn) => seq!['M'] + enc_fixed(mj as nat, 3) + enc_fixed(mn as nat, 3),
        Version::Experimental => seq!['E'],
        Version::Custom => seq!['C'],
    }
}

/// One entry: its version tag followed by its path.
pub open spec fn enc_entry(e: (Version, Seq<char>)) -> Seq<char> {
    enc_version(e.0) + enc_str(e.1)
}

/// All entries, in order.
pub open spec fn enc_entries(es: Seq<(Version, Seq<char>)>) -> Seq<char>
    decreases es.len(),
{
    if es.len() == 0 {
        Seq::<char>::empty()
    } else {
        enc_entry(es[0]) + enc_entries(es.drop_first())
    }
}

/// A whole snapshot: the scanned root, the entry count, the entries.
pub open spec fn encode_index_spec(dir: Seq<char>, es: Seq<(Version, Seq<char>)>) -> Seq<char> {
    enc_str(dir) + enc_fixed(es.len(), 20) + enc_entries(es)
}

proof fn lemma_dec_u64_enc(n: u64, rest: Seq<char>)
    ensures
        dec_u64_spec(enc_fixed(n as nat, 20) + rest) == Some((n, rest)),
{
    lemma_pow10_values();
    lemma_enc_dec_fixed(n as nat, 20);
    let e = enc_fixed(n as nat, 20);
    let s = e + rest;
    assert(s.take(20) =~= e);
    assert(s.skip(20) =~= rest);
}

proof fn lemma_dec_u8_enc(n: u8, rest: Seq<char>)
    ensures
        dec_u8_spec(enc_fixed(n as nat, 3) + rest) == Some((n, rest)),
{
    lemma_pow10_values();
    lemma_enc_dec_fixed(n as nat, 3);
    let e = enc_fixed(n as nat, 3);
    let s = e + rest;
    assert(s.take(3) =~= e);
    assert(s.skip(3) =~= rest);
}

proof fn lemma_dec_str_enc(sq: Seq<char>, rest: Seq<char>)
    requires
        sq.len() < 0x10000000000000000,
    ensures
        dec_str_spec(enc_str(sq) + rest) == Some((sq, rest)),
{
    let s = enc_str(sq) + rest;
    assert(s =~= enc_fixed(sq.len(), 20) + (sq + rest));
    lemma_dec_u64_enc(sq.len() as u64, sq + rest);
    assert((sq.len() as u64) as nat == sq.len());
    let tail = sq + rest;
    assert(tail.take(sq.len() as int) =~= sq);
    assert(tail.skip(sq.len() as int) =~= rest);
}

proof fn lemma_dec_version_enc(v: Version, rest: Seq<char>)
    ensures
        dec_version_spec(enc_version(v) + rest) == Some((v, rest)),
{
    let s = enc_version(v) + rest;
    match v {
        Version::Mainline(mj, mn) => {
            let e1 = enc_fixed(mj as nat, 3);
            let e2 = enc_fixed(mn as nat, 3);
            assert(s[0] == 'M');
            assert(s.drop_first() =~= e1 + (e2 + rest));
            lemma_dec_u8_enc(mj, e2 + rest);
            lemma_dec_u8_enc(mn, rest);
        },
        Version::Experimental => {
            assert(s[0] == 'E');
            assert(s.drop_first() =~= rest);
        },
        Version::Custom => {
            assert(s[0] == 'C');
            assert(s.drop_first() =~= rest);
        },
    }
}

proof fn lemma_dec_entries_enc(es: Seq<(Version, Seq<char>)>, rest: Seq<char>)
    requires
        forall|i: int| 0 <= i < es.len() ==> (#[trigger] es[i]).1.len() < 0x10000000000000000,
    ensures
        dec_entries_spec(enc_entries(es) + rest, es.len()) == Some((es, rest)),
    decreases es.len(),
{
    if es.len() == 0 {
        assert(enc_entries(es) + rest =~= rest);
        assert(dec_entries_spec(rest, 0) == Some((Seq::<(Version, Seq<char>)>::empty(), rest)));
        assert(Seq::<(Version, Seq<char>)>::empty() =~= es);
    } else {
        let e = es[0];
        let tail = enc_entries(es.drop_first()) + rest;
        let s = enc_entries(es) + rest;
        assert(s =~= enc_version(e.0) + (enc_str(e.1) + tail));
        lemma_dec_version_enc(e.0, enc_str(e.1) + tail);
        lemma_dec_str_enc(e.1, tail);
        lemma_dec_entries_enc(es.drop_first(), rest);
        assert(seq![(e.0, e.1)] + es.drop_first() =~= es);
    }
}

/// Decoding what the encoder produced yields the same root and entries
/// back, for every root and entry list whose lengths the length fields can
/// carry.
pub proof fn lemma_decode_encode(dir: Seq<char>, es: Seq<(Version, Seq<char>)>)
    requires
        dir.len() < 0x10000000000000000,
        es.len() < 0x10000000000000000,
        forall|i: int| 0 <= i < es.len() ==> (#[trigger] es[i]).1.len() < 0x10000000000000000,
    ensures
        decode_index_spec(encode_index_spec(dir, es)) == Some((dir, es)),
{
    let s = encode_index_spec(dir, es);
    let tail = enc_fixed(es.len(), 20) + enc_entries(es);
    assert(s =~= enc_str(dir) + tail);
    lemma_dec_str_enc(dir, tail);
    lemma_dec_u64_enc(es.len() as u64, enc_entries(es));
    assert((es.len() as u64) as nat == es.len());
    assert(enc_entries(es) =~= enc_entries(es) + Seq::<char>::empty());
    lemma_dec_entries_enc(es, Seq::<char>::empty());
}

/// Appends `n` as exactly `k` digits, least significant first.
pub fn push_enc_fixed(out: &mut Vec<char>, n0: u64, k: usize)
    ensures
        final(out)@ == old(out)@ + enc_fixed(n0 as nat, k as nat),
{
    let mut n: u64 = n0;
    let mut j: usize = 0;
    proof {
        assert(out@ + enc_fixed(n as nat, (k - j) as nat) =~= old(out)@ + enc_fixed(
            n0 as nat,
            (k - j) as nat,
        ));
    }
    while j < k
        invariant
            j <= k,
            out@ + enc_fixed(n as nat, (k - j) as nat) == old(out)@ + enc_fixed(
                n0 as nat,
                k as nat,
            ),
        decreases k - j,
    {
        let ghost prev = out@;
        let ghost nprev = n as nat;
        let d: u8 = (n % 10) as u8;
        out.push(digit_char_exec(d));
        n = n / 10;
        proof {
            assert(enc_fixed(nprev, (k - j) as nat) == seq![digit_char((nprev % 10) as int)]
                + enc_fixed(nprev / 10, (k - j - 1) as nat));
            assert(d as int == (nprev % 10) as int);
            assert(n as nat == nprev / 10);
            assert(out@ + enc_fixed(n as nat, (k - j - 1) as nat) =~= prev + enc_fixed(
                nprev,
                (k - j) as nat,
            ));
        }
        j = j + 1;
    }
    proof {
        assert(enc_fixed(n as nat, 0) =~= Seq::<char>::empty());
        assert(out@ + Seq::<char>::empty() =~= out@);
    }
}

/// Appends a length-prefixed character run.
pub fn push_enc_str(out: &mut Vec<char>, s: &str)
    ensures
        final(out)@ == old(out)@ + enc_str(s@),
{
    let cs = str_to_chars(s);
    push_enc_fixed(out, cs.len() as u64, 20);
    append_chars(out, &cs);
    proof {
        assert((cs.len() as u64) as nat == s@.len());
        assert(old(out)@ + enc_fixed(s@.len(), 20) + s@ =~= old(out)@ + (enc_fixed(s@.len(), 20)
            + s@));
    }
}

/// Appends a version tag.
pub fn push_enc_version(out: &mut Vec<char>, v: &Version)
    ensures
        final(out)@ == old(out)@ + enc_version(*v),
{
    match v {
        Version::Mainline(mj, mn) => {
            out.push('M');
            let ghost after_m = out@;
            push_enc_fixed(out, *mj as u64, 3);
            let ghost after_mj = out@;
            push_enc_fixed(out, *mn as u64, 3);
            proof {
                assert(after_m =~= old(out)@.push('M'));
                assert((*mj as u64) as nat == *mj as nat);
                assert((*mn as u64) as nat == *mn as nat);
                assert(out@ =~= old(out)@ + enc_version(*v));
            }
        },
        Version::Experimental => {
            out.push('E');
            proof {
                assert(out@ =~= old(out)@ + enc_version(*v));
            }
        },
        Version::Custom => {
            out.push('C');
            proof {
                assert(out@ =~= old(out)@ + enc_version(*v));
            }
        },
    }
}

/// Reads a 20-digit number field; fails on anything that is not 20 digits
/// denoting a value that fits a `u64`.
pub fn read_u64(v: &Vec<char>, pos: usize) -> (r: Option<(u64, usize)>)
    requires
        pos <= v@.len(),
    ensures
        match r {
            Some(x) => {
                &&& x.1 == pos + 20
                &&& x.1 <= v@.len()
                &&& dec_u64_spec(v@.skip(pos as int)) == Some((x.0, v@.skip(x.1 as int)))
            },
            None => dec_u64_spec(v@.skip(pos as int)) is None,
        },
{
    if v.len() - pos < 20 {
        return None;
    }
    let ghost s = v@.skip(pos as int);
    let ghost w = s.take(20);
    let mut j: usize = 0;
    while j < 20
        invariant
            j <= 20,
            pos + 20 <= v@.len(),
            v@.len() <= usize::MAX,
            s == v@.skip(pos as int),
            w == s.take(20),
            all_digits(w.take(j as int)),
        decreases 20 - j,
    {
        let c: char = v[pos + j];
        proof {
            assert(w[j as int] == v@[pos + j]);
            assert(w.take(j + 1).drop_last() =~= w.take(j as int));
            assert(w.take(j + 1).last() == c);
        }
        if !('0' <= c && c <= '9') {
            assert(!is_digit(w[j as int]));
            return None;
        }
        assert(all_digits(w.take(j + 1))) by {
            assert(forall|t: int|
                0 <= t < j + 1 ==> #[trigger] w.take(j + 1)[t] == w.take(j as int).push(c)[t]);
        }
        j = j + 1;
    }
    proof {
        assert(w.take(20) =~= w);
        assert(all_digits(w));
    }
    let mut acc: u64 = 0;
    let mut i: usize = 20;
    proof {
        assert(w.skip(20) =~= Seq::<char>::empty());
    }
    while i > 0
        invariant
            i <= 20,
            pos + 20 <= v@.len(),
            v@.len() <= usize::MAX,
            s == v@.skip(pos as int),
            w == s.take(20),
            all_digits(w),
            acc == dec_fixed(w.skip(i as int)),
        decreases i,
    {
        let c: char = v[pos + i - 1];
        proof {
            assert(w[i - 1] == v@[pos + i - 1]);
            assert(is_digit(w[i - 1]));
            let t = w.skip(i - 1);
            assert(t.drop_first() =~= w.skip(i as int));
            assert(t[0] == w[i - 1]);
            assert(dec_fixed(t) == digit_val(w[i - 1]) + 10 * dec_fixed(w.skip(i as int)));
        }
        let dv: u64 = ((c as u32) - 48) as u64;
        assert(dv == digit_val(w[i - 1]));
        if acc > (u64::MAX - dv) / 10 {
            proof {
                lemma_fundamental_div_mod((u64::MAX - dv) as int, 10);
                assert(10 * acc + dv > u64::MAX);
                lemma_dec_fixed_suffix_le(w, i - 1);
                assert(dec_fixed(w) >= dec_fixed(w.skip(i - 1)));
                assert(dec_fixed(w) > u64::MAX);
            }
            return None;
        }
        proof {
            lemma_fundamental_div_mod((u64::MAX - dv) as int, 10);
            assert(acc * 10 + dv <= u64::MAX);
        }
        acc = acc * 10 + dv;
        i = i - 1;
    }
    proof {
        assert(w.skip(0) =~= w);
        assert(s.skip(20) =~= v@.skip(pos + 20));
    }
    Some((acc, pos + 20))
}

/// Reads a 3-digit number field; fails on anything that is not 3 digits
/// denoting a value that fits a `u8`.
pub fn read_u8_3(v: &Vec<char>, pos: usize) -> (r: Option<(u8, usize)>)
    requires
        pos <= v@.len(),
    ensures
        match r {
            Some(x) => {
                &&& x.1 == pos + 3
                &&& x.1 <= v@.len()
                &&& dec_u8_spec(v@.skip(pos as int)) == Some((x.0, v@.skip(x.1 as int)))
            },
            None => dec_u8_spec(v@.skip(pos as int)) is None,
        },
{
    if v.len() - pos < 3 {
        return None;
    }
    let ghost s = v@.skip(pos as int);
    let ghost w = s.take(3);
    let c0: char = v[pos];
    let c1: char = v[pos + 1];
    let c2: char = v[pos + 2];
    proof {
        assert(w.len() == 3);
        assert(w[0] == c0 && w[1] == c1 && w[2] == c2);
        let w1 = w.drop_first();
        let w2 = w1.drop_first();
        assert(w1[0] == c1 && w2[0] == c2);
        assert(w2.drop_first() =~= Seq::<char>::empty());
        assert(dec_fixed(w2.drop_first()) == 0);
        assert(dec_fixed(w2) == digit_val(c2) + 10 * dec_fixed(w2.drop_first()));
        assert(dec_fixed(w1) == digit_val(c1) + 10 * dec_fixed(w2));
        assert(dec_fixed(w) == digit_val(c0) + 10 * dec_fixed(w1));
    }
    if !('0' <= c0 && c0 <= '9') {
        assert(!is_digit(w[0]));
        return None;
    }
    if !('0' <= c1 && c1 <= '9') {
        assert(!is_digit(w[1]));
        return None;
    }
    if !('0' <= c2 && c2 <= '9') {
        assert(!is_digit(w[2]));
        return None;
    }
    assert(all_digits(w)) by {
        assert(forall|t: int|
            0 <= t < 3 ==> #[trigger] w[t] == w[0] || w[t] == w[1] || w[t] == w[2]);
    }
    let d0: u32 = (c0 as u32) - 48;
    let d1: u32 = (c1 as u32) - 48;
    let d2: u32 = (c2 as u32) - 48;
    let val: u32 = d0 + 10 * d1 + 100 * d2;
    assert(val == dec_fixed(w));
    if val > 255 {
        return None;
    }
    proof {
        assert(s.skip(3) =~= v@.skip(pos + 3));
    }
    Some((val as u8, pos + 3))
}

/// Reads a version tag.
pub fn read_version(v: &Vec<char>, pos: usize) -> (r: Option<(Version, usize)>)
    requires
        pos <= v@.len(),
    ensures
        match r {
            Some(x) => {
                &&& pos < x.1 <= v@.len()
                &&& dec_version_spec(v@.skip(pos as int)) == Some((x.0, v@.skip(x.1 as int)))
            },
            None => dec_version_spec(v@.skip(pos as int)) is None,
        },
{
    let ghost s = v@.skip(pos as int);
    if pos == v.len() {
        return None;
    }
    let c: char = v[pos];
    proof {
        assert(s[0] == c);
        assert(s.drop_first() =~= v@.skip(pos + 1));
    }
    if c == 'M' {
        match read_u8_3(v, pos + 1) {
            Some((mj, p1)) => {
                match read_u8_3(v, p1) {
                    Some((mn, p2)) => Some((Version::Mainline(mj, mn), p2)),
                    None => None,
                }
            },
            None => None,
        }
    } else if c == 'E' {
        Some((Version::Experimental, pos + 1))
    } else if c == 'C' {
        Some((Version::Custom, pos + 1))
    } else {
        None
    }
}

/// Reads a length-prefixed character run.
pub fn read_string(v: &Vec<char>, pos: usize) -> (r: Option<(String, usize)>)
    requires
        pos <= v@.len(),
    ensures
        match r {
            Some(x) => {
                &&& pos < x.1 <= v@.len()
                &&& dec_str_spec(v@.skip(pos as int)) == Some((x.0@, v@.skip(x.1 as int)))
            },
            None => dec_str_spec(v@.skip(pos as int)) is None,
        },
{
    let ghost s = v@.skip(pos as int);
    match read_u64(v, pos) {
        Some((n, p1)) => {
            let ghost rest = v@.skip(p1 as int);
            let rem: usize = v.len() - p1;
            if n > rem as u64 {
                assert(rest.len() < n);
                return None;
            }
            let nn: usize = n as usize;
            let mut w: Vec<char> = Vec::new();
            let mut t: usize = 0;
            while t < nn
                invariant
                    t <= nn,
                    p1 + nn <= v@.len(),
                    v@.len() <= usize::MAX,
                    w@ == v@.subrange(p1 as int, p1 + t),
                decreases nn - t,
            {
                w.push(v[p1 + t]);
                proof {
                    assert(v@.subrange(p1 as int, p1 + t + 1) =~= v@.subrange(
                        p1 as int,
                        p1 + t,
                    ).push(v@[p1 + t]));
                }
                t = t + 1;
            }
            let out = chars_to_string(&w);
            proof {
                assert(rest.take(n as int) =~= v@.subrange(p1 as int, p1 + nn));
                assert(rest.skip(n as int) =~= v@.skip(p1 + nn));
            }
            Some((out, p1 + nn))
        },
        None => None,
    }
}

} // verus!
