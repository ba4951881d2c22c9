//! Helpers for theme file handling: display-name capitalization and
//! filesystem-safe names, plus the theme description types.

use vstd::prelude::*;
use vstd::string::StrSliceExecFns;

verus! {

/// A user-provided theme stylesheet.
#[derive(Debug, Clone)]
pub struct UserTheme {
    pub name: String,
    pub display_name: String,
    pub content: String,
    pub file_path: String,
}

/// A theme as offered for selection.
#[derive(Debug, Clone)]
pub struct ThemeInfo {
    pub name: String,
    pub display_name: String,
    pub is_user_theme: bool,
}

/// What `char::to_uppercase` yields for a character; a function of the
/// character alone.
pub uninterp spec fn upper_of(c: char) -> Seq<char>;

/// What `str::to_lowercase` yields for a string; a function of the
/// characters alone.
pub uninterp spec fn lower_of(s: Seq<char>) -> Seq<char>;

/// Whether `char::is_alphanumeric` holds of a character; a function of the
/// character alone.
pub uninterp spec fn is_alphanum(c: char) -> bool;

/// Relies on char::to_uppercase: the Unicode uppercase mapping of one
/// character, as a sequence of characters, depending on the character alone.
#[verifier::external_body]
fn char_to_uppercase(c: char) -> (r: Vec<char>)
    ensures
        r@ == upper_of(c),
{
    c.to_uppercase().collect()
}

/// Relies on str::to_lowercase: the Unicode lowercase form of the string,
/// depending on its characters alone.
#[verifier::external_body]
fn str_to_lowercase(s: &str) -> (r: String)
    ensures
        r@ == lower_of(s@),
{
    s.to_lowercase()
}

/// Relies on char::is_alphanumeric: a property of the character alone.
#[verifier::external_body]
fn char_is_alphanumeric(c: char) -> (r: bool)
    ensures
        r == is_alphanum(c),
{
    c.is_alphanumeric()
}

/// Relies on String as FromIterator<char>: collecting characters yields the
/// string of exactly those characters in order.
#[verifier::external_body]
fn chars_to_string(v: &Vec<char>) -> (r: String)
    ensures
        r@ == v@,
{
    v.iter().collect()
}

/// The capitalized form of a hyphenated name: a hyphen becomes a space, the
/// character after the start or after a hyphen is uppercased, all else is
/// kept.
pub open spec fn capitalized(s: Seq<char>, at_start: bool) -> Seq<char>
    decreases s.len(),
{
    if s.len() == 0 {
        Seq::empty()
    } else if s[0] == '-' {
        seq![' '] + capitalized(s.skip(1), true)
    } else if at_start {
        upper_of(s[0]) + capitalized(s.skip(1), false)
    } else {
        seq![s[0]] + capitalized(s.skip(1), false)
    }
}

/// The capitalization pass over the characters from index `i` on.
fn capitalize_chars(s: &Vec<char>, i: usize, at_start: bool) -> (r: Vec<char>)
    requires
        i <= s@.len(),
    ensures
        r@ == capitalized(s@.skip(i as int), at_start),
    decreases s@.len() - i,
{
    if i == s.len() {
        let r: Vec<char> = Vec::new();
        proof {
            assert(s@.skip(i as int) =~= Seq::<char>::empty());
        }
        return r;
    }
    let c = s[i];
    let mut head: Vec<char>;
    let flag: bool;
    if c == '-' {
        head = Vec::new();
        head.push(' ');
        flag = true;
    } else if at_start {
        head = char_to_uppercase(c);
        flag = false;
    } else {
        head = Vec::new();
        head.push(c);
        flag = false;
    }
    let mut rest = capitalize_chars(s, i + 1, flag);
    head.append(&mut rest);
    proof {
        assert(s@.skip(i as int).skip(1) =~= s@.skip(i as int + 1));
        assert(s@.skip(i as int)[0] == s@[i as int]);
        if c == '-' {
            assert(head@ =~= seq![' '] + capitalized(s@.skip(i as int + 1), true));
        } else if at_start {
            assert(head@ =~= upper_of(c) + capitalized(s@.skip(i as int + 1), false));
        } else {
            assert(head@ =~= seq![c] + capitalized(s@.skip(i as int + 1), false));
        }
    }
    head
}

/// Turns a hyphenated theme file stem into a display name: hyphens become
/// spaces and each word starts uppercased.
pub fn capitalize_words(s: &str) -> (r: String)
    ensures
        r@ == capitalized(s@, true),
{
    let n = s.unicode_len();
    let mut v: Vec<char> = Vec::new();
    let mut i: usize = 0;
    while i < n
        invariant
            i <= n,
            n == s@.len(),
            v@ =~= s@.take(i as int),
        decreases n - i,
    {
        v.push(s.get_char(i));
        i = i + 1;
    }
    proof {
        assert(v@ =~= s@);
        assert(v@.skip(0) =~= s@);
    }
    let out = capitalize_chars(&v, 0, true);
    chars_to_string(&out)
}

/// One character of the sanitization pass: path separators, shell
/// metacharacters and spaces become hyphens; alphanumerics, hyphen and
/// underscore stay; everything else becomes a hyphen.
pub open spec fn keep_char(c: char) -> char {
    if c == '/' || c == '\\' || c == ':' || c == '*' || c == '?' || c == '"' || c == '<' || c
        == '>' || c == '|' || c == ' ' {
        '-'
    } else if is_alphanum(c) || c == '-' || c == '_' {
        c
    } else {
        '-'
    }
}

/// The sanitization pass over a whole string.
pub open spec fn mapped_of(s: Seq<char>) -> Seq<char> {
    Seq::new(s.len(), |i: int| keep_char(s[i]))
}

/// The sequence with its leading hyphens dropped.
pub open spec fn drop_lead(s: Seq<char>) -> Seq<char>
    decreases s.len(),
{
    if s.len() > 0 && s[0] == '-' {
        drop_lead(s.skip(1))
    } else {
        s
    }
}

/// The sequence with its trailing hyphens dropped.
pub open spec fn drop_trail(s: Seq<char>) -> Seq<char>
    decreases s.len(),
{
    if s.len() > 0 && s.last() == '-' {
        drop_trail(s.drop_last())
    } else {
        s
    }
}

/// The sanitized, filesystem-safe, lowercased form of a name.
pub open spec fn sanitized(s: Seq<char>) -> Seq<char> {
    lower_of(drop_trail(drop_lead(mapped_of(s))))
}

/// Exec mirror of `keep_char`.
fn keep_char_exec(c: char) -> (r: char)
    ensures
        r == keep_char(c),
{
    if c == '/' || c == '\\' || c == ':' || c == '*' || c == '?' || c == '"' || c == '<' || c
        == '>' || c == '|' || c == ' ' {
        '-'
    } else if c == '-' || c == '_' {
        c
    } else if char_is_alphanumeric(c) {
        c
    } else {
        '-'
    }
}

/// Makes a name safe to use as a theme file name: invalid characters become
/// hyphens, outer hyphens are trimmed, and the result is lowercased.
pub fn sanitize_filename(name: &str) -> (r: String)
    ensures
        r@ == sanitized(name@),
{
    let n = name.unicode_len();
    let mut v: Vec<char> = Vec::new();
    let mut i: usize = 0;
    while i < n
        invariant
            i <= n,
            n == name@.len(),
            v@.len() == i,
            forall|j: int| 0 <= j < i ==> v@[j] == keep_char(name@[j]),
        decreases n - i,
    {
        v.push(keep_char_exec(name.get_char(i)));
        i = i + 1;
    }
    let ghost m = mapped_of(name@);
    proof {
        assert(v@ =~= m);
        assert(m.skip(0) =~= m);
    }
    let mut a: usize = 0;
    while a < n && v[a] == '-'
        invariant
            a <= n,
            n == v@.len(),
            v@ == m,
            drop_lead(m) == drop_lead(m.skip(a as int)),
        decreases n - a,
    {
        proof {
            assert(m.skip(a as int)[0] == '-');
            assert(m.skip(a as int).skip(1) =~= m.skip(a as int + 1));
        }
        a = a + 1;
    }
    proof {
        assert(drop_lead(m) =~= m.skip(a as int));
    }
    let ghost m2 = m.skip(a as int);
    let mut b: usize = n - a;
    proof {
        assert(m2.take(b as int) =~= m2);
    }
    while b > 0 && v[a + b - 1] == '-'
        invariant
            b <= n - a,
            a <= n,
            n == v@.len(),
            v@ == m,
            m2 == m.skip(a as int),
            drop_trail(m2) == drop_trail(m2.take(b as int)),
        decreases b,
    {
        proof {
            assert(m2.take(b as int).last() == m2[b - 1]);
            assert(m2[b - 1] == m[a + b - 1]);
            assert(m2.take(b as int).drop_last() =~= m2.take(b as int - 1));
        }
        b = b - 1;
    }
    proof {
        assert(drop_trail(m2) =~= m2.take(b as int));
    }
    let mut mid: Vec<char> = Vec::new();
    let mut k: usize = 0;
    while k < b
        invariant
            k <= b,
            b <= n - a,
            a <= n,
            n == v@.len(),
            v@ == m,
            m2 == m.skip(a as int),
            mid@ =~= m2.take(b as int).take(k as int),
        decreases b - k,
    {
        proof {
            assert(m2.take(b as int)[k as int] == m[a + k]);
        }
        mid.push(v[a + k]);
        proof {
            assert(mid@ =~= m2.take(b as int).take(k as int + 1));
        }
        k = k + 1;
    }
    proof {
        assert(mid@ =~= drop_trail(drop_lead(m)));
    }
    let midstr = chars_to_string(&mid);
    str_to_lowercase(midstr.as_str())
}

} // verus!
