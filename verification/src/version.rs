//! The version domain model: an ordered identifier for a compatibility-tool
//! release, parsed from command input or inferred from a directory name.

use crate::error::{Error, Kind};
use crate::text::dec_digits;
use crate::text::is_u8_string;
use crate::text::lemma_dec_digits;
use crate::text::lemma_dec_digits_len;
use crate::text::lemma_split_two;
use crate::text::matches_lower;
use crate::text::matches_lower_exec;
use crate::text::parse_u8_chars;
use crate::text::pow10;
use crate::text::split_char;
use crate::text::split_chars;
use crate::text::str_to_chars;
use crate::text::token_views;
use crate::text::u8_string_val;
use crate::text::u8_digits_part;
use crate::text::u64_dec_chars;
use crate::text::append_chars;
use crate::text::chars_to_string;
use crate::text::chars_eq_str;
use vstd::prelude::*;

verus! {

/// A compatibility-tool release identifier.
///
/// The declaration order fixes the total order of the variants:
/// `Mainline` sorts before `Experimental`, which sorts before `Custom`;
/// `Mainline` values compare numerically, major number first.
#[derive(Debug, Clone, Copy, PartialEq, Eq, Structural, PartialOrd, Ord)]
pub enum Version {
    /// A numbered release, as major and minor number.
    Mainline(u8, u8),
    /// The rolling experimental release.
    Experimental,
    /// Any installation whose name denotes no numbered or experimental
    /// release; reachable only through directory-name inference.
    Custom,
}

/// How a version renders: `"major.minor"` for `Mainline`, the fixed words
/// for the other two variants.
pub open spec fn render(v: Version) -> Seq<char> {
    match v {
        Version::Mainline(mj, mn) => dec_digits(mj as nat) + seq!['.'] + dec_digits(mn as nat),
        Version::Experimental => "Experimental"@,
        Version::Custom => "Custom"@,
    }
}

/// What parsing a version string yields: `Experimental` for the word
/// `"experimental"` in any ASCII case; otherwise exactly two `'.'`-separated
/// tokens, each a `u8` numeral, make a `Mainline`; anything else is
/// rejected. Parsing never yields `Custom`.
pub open spec fn parse_spec(s: Seq<char>) -> Option<Version> {
    if matches_lower(s, "experimental"@) {
        Some(Version::Experimental)
    } else {
        let parts = split_char(s, '.');
        if parts.len() == 2 && is_u8_string(parts[0]) && is_u8_string(parts[1]) {
            Some(Version::Mainline(u8_string_val(parts[0]) as u8, u8_string_val(parts[1]) as u8))
        } else {
            None
        }
    }
}

/// The version a directory name denotes: its last space-separated token,
/// parsed; names whose token is no version string denote `Custom`, so a
/// directory scan never fails on an unrecognised name.
pub open spec fn version_of_dir_name(name: Seq<char>) -> Version {
    let tok = split_char(name, ' ').last();
    match parse_spec(tok) {
        Some(v) => v,
        None => Version::Custom,
    }
}

/// `p` with trailing `'/'` characters and trailing `"."` path components
/// removed, as `std::path::Path` skips them: a `'.'` counts as a component
/// only when it stands alone between separators (or is the whole path), so
/// names such as `"a."` or `"..."` are left untouched, and `".."` is kept.
pub open spec fn strip_path_tail(p: Seq<char>) -> Seq<char>
    decreases p.len(),
{
    if p.len() == 0 {
        p
    } else if p.last() == '/' {
        strip_path_tail(p.drop_last())
    } else if p.last() == '.' && (p.len() == 1 || p[p.len() - 2] == '/') {
        strip_path_tail(p.drop_last())
    } else {
        p
    }
}

/// The final path component, as `std::path::Path::file_name` finds it:
/// what follows the last `'/'` once trailing slashes and `"."` components
/// are skipped. An empty or root path, and one whose final real component
/// is `".."`, have none.
pub open spec fn base_name(p: Seq<char>) -> Option<Seq<char>> {
    let q = strip_path_tail(p);
    let b = split_char(q, '/').last();
    if q.len() == 0 || b == ".."@ {
        None
    } else {
        Some(b)
    }
}

/// The version a path to an installation directory denotes: the version of
/// its final component, or `Custom` when the path has none (the fallback
/// token `"custom"` denotes no version).
pub open spec fn from_custom_spec(p: Seq<char>) -> Version {
    match base_name(p) {
        Some(b) => version_of_dir_name(b),
        None => Version::Custom,
    }
}

impl Default for Version {
    /// The default requested version.
    fn default() -> (v: Version)
        ensures
            v == Version::Mainline(6, 3),
    {
        Version::Mainline(6, 3)
    }
}

impl Version {
    /// Creates a numbered version.
    pub fn new(major: u8, minor: u8) -> (v: Version)
        ensures
            v == Version::Mainline(major, minor),
    {
        Version::Mainline(major, minor)
    }

    /// Renders the version as text, exactly as [`render`] describes.
    pub fn to_display(&self) -> (s: String)
        ensures
            s@ == render(*self),
    {
        match self {
            Version::Mainline(mj, mn) => {
                let mut v = u64_dec_chars(*mj as u64);
                v.push('.');
                let w = u64_dec_chars(*mn as u64);
                append_chars(&mut v, &w);
                proof {
                    assert(dec_digits(*mj as nat).push('.') =~= dec_digits(*mj as nat)
                        + seq!['.']);
                }
                chars_to_string(&v)
            },
            Version::Experimental => "Experimental".to_owned(),
            Version::Custom => "Custom".to_owned(),
        }
    }

    /// Parses a version string held as characters, exactly as
    /// [`parse_spec`] describes.
    pub fn parse_chars(s: &Vec<char>) -> (r: Option<Version>)
        ensures
            r == parse_spec(s@),
    {
        proof {
            reveal_strlit("experimental");
            reveal_strlit("EXPERIMENTAL");
        }
        if matches_lower_exec(s, "experimental", "EXPERIMENTAL") {
            return Some(Version::Experimental);
        }
        let parts = split_chars(s, '.');
        let ghost sparts = split_char(s@, '.');
        if parts.len() == 2 {
            assert(parts@[0]@ == sparts[0] && parts@[1]@ == sparts[1]) by {
                assert(token_views(parts@)[0] == parts@[0]@);
                assert(token_views(parts@)[1] == parts@[1]@);
            }
            let mj = parse_u8_chars(&parts[0]);
            let mn = parse_u8_chars(&parts[1]);
            match (mj, mn) {
                (Some(a), Some(b)) => Some(Version::Mainline(a, b)),
                _ => None,
            }
        } else {
            assert(sparts.len() != 2) by {
                assert(token_views(parts@).len() == parts@.len());
            }
            None
        }
    }

    /// Parses a version string: `"experimental"` in any ASCII case, or a
    /// `"major.minor"` pair of `u8` numerals. Any other shape is rejected
    /// with a `VersionParse` error carrying the offending text.
    pub fn parse(s: &str) -> (r: Result<Version, Error>)
        ensures
            match r {
                Ok(v) => parse_spec(s@) == Some(v),
                Err(e) => {
                    &&& parse_spec(s@) is None
                    &&& e.kind == Kind::VersionParse
                    &&& e.message@ == s@
                },
            },
    {
        let chars = str_to_chars(s);
        match Self::parse_chars(&chars) {
            Some(v) => Ok(v),
            None => Err(Error::new(Kind::VersionParse, s.to_owned())),
        }
    }

    /// Infers a version from the path of an installation directory, as
    /// [`from_custom_spec`] describes: the last space-separated token of the
    /// path's final component, with `Custom` for anything unparseable.
    pub fn from_custom(path: &str) -> (v: Version)
        ensures
            v == from_custom_spec(path@),
    {
        let mut chars = str_to_chars(path);
        while chars.len() > 0 && (chars[chars.len() - 1] == '/' || (chars[chars.len() - 1] == '.'
            && (chars.len() == 1 || chars[chars.len() - 2] == '/')))
            invariant
                strip_path_tail(chars@) == strip_path_tail(path@),
            decreases chars@.len(),
        {
            let ghost before = chars@;
            chars.pop();
            proof {
                assert(chars@ =~= before.drop_last());
            }
        }
        assert(strip_path_tail(chars@) == chars@);
        if chars.len() == 0 {
            return Version::Custom;
        }
        let parts = split_chars(&chars, '/');
        let ghost sparts = split_char(chars@, '/');
        let last = parts.len() - 1;
        assert(parts@[last as int]@ == sparts.last()) by {
            assert(token_views(parts@)[last as int] == parts@[last as int]@);
        }
        if chars_eq_str(&parts[last], "..") {
            return Version::Custom;
        }
        Self::version_from_dir_chars(&parts[last])
    }

    /// The version a directory name (held as characters) denotes, exactly
    /// as [`version_of_dir_name`] describes.
    pub fn version_from_dir_chars(name: &Vec<char>) -> (v: Version)
        ensures
            v == version_of_dir_name(name@),
    {
        let parts = split_chars(name, ' ');
        let ghost sparts = split_char(name@, ' ');
        let last = parts.len() - 1;
        assert(parts@[last as int]@ == sparts.last()) by {
            assert(token_views(parts@)[last as int] == parts@[last as int]@);
        }
        match Self::parse_chars(&parts[last]) {
            Some(v) => v,
            None => Version::Custom,
        }
    }
}

/// Parsing never yields `Custom`: that variant is reachable only through
/// directory-name inference.
pub proof fn lemma_parse_never_custom(s: Seq<char>)
    ensures
        parse_spec(s) != Some(Version::Custom),
{
}

/// Rendering a numbered version and parsing the result yields the same
/// version back, for every major and minor number.
pub proof fn lemma_parse_render_roundtrip(major: u8, minor: u8)
    ensures
        parse_spec(render(Version::Mainline(major, minor))) == Some(
            Version::Mainline(major, minor),
        ),
{
    let a = dec_digits(major as nat);
    let b = dec_digits(minor as nat);
    lemma_dec_digits(major as nat);
    lemma_dec_digits(minor as nat);
    let s = a + seq!['.'] + b;
    assert(render(Version::Mainline(major, minor)) == s);
    assert(pow10(0) == 1);
    assert(pow10(1) == 10);
    assert(pow10(2) == 100);
    assert(pow10(3) == 1000);
    lemma_dec_digits_len(major as nat, 3);
    lemma_dec_digits_len(minor as nat, 3);
    reveal_strlit("experimental");
    assert(s.len() <= 7);
    assert("experimental"@.len() == 12);
    assert(!matches_lower(s, "experimental"@));
    assert(forall|i: int| 0 <= i < a.len() ==> #[trigger] a[i] != '.');
    assert(forall|i: int| 0 <= i < b.len() ==> #[trigger] b[i] != '.');
    lemma_split_two(a, b, '.');
    let parts = split_char(s, '.');
    assert(parts.len() == 2 && parts[0] == a && parts[1] == b);
    assert(a[0] != '+' && b[0] != '+');
    assert(u8_digits_part(a) == a && u8_digits_part(b) == b);
    assert(is_u8_string(a) && is_u8_string(b));
    assert(u8_string_val(a) == major && u8_string_val(b) == minor);
}

} // verus!
