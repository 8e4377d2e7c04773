//! Folder-group names: decimal numbers, cleaning, default names, and the
//! candidate paths tried when a name is already taken.

use vstd::prelude::*;
use crate::text::{chars_of, string_of, extend_chars, chars_eq, copy_string};
use crate::entries::{ascii_lower, ascii_lower_exec, lower_name};
use crate::paths::{
    basename,
    join_path,
    spec_basename,
    spec_join,
    is_component,
    no_sep,
    normal_components,
    lemma_join_child,
};

verus! {

/// The decimal digit character for `d` (below ten).
pub open spec fn digit_char(d: nat) -> char {
    (48 + d) as char
}

/// The decimal representation of `n`, without leading zeros.
pub open spec fn decimal(n: nat) -> Seq<char>
    decreases n,
{
    if n < 10 {
        seq![digit_char(n)]
    } else {
        decimal(n / 10).push(digit_char(n % 10))
    }
}

/// The number that a string of decimal digits stands for.
pub open spec fn decimal_value(s: Seq<char>) -> int
    decreases s.len(),
{
    if s.len() == 0 {
        0
    } else {
        decimal_value(s.drop_last()) * 10 + (s.last() as int - 48)
    }
}

/// Reading back the decimal representation of `n` gives `n`.
pub proof fn lemma_decimal_value(n: nat)
    ensures
        decimal_value(decimal(n)) == n,
        decimal(n).len() >= 1,
    decreases n,
{
    if n >= 10 {
        lemma_decimal_value(n / 10);
        let d = decimal(n / 10);
        assert(decimal(n).drop_last() =~= d);
        assert(decimal(n).last() == digit_char((n % 10) as nat));
        assert(digit_char((n % 10) as nat) as int == 48 + n % 10);
        assert(decimal_value(decimal(n)) == decimal_value(d) * 10 + n % 10);
        assert((n / 10) * 10 + n % 10 == n) by (nonlinear_arith);
    } else {
        assert(decimal(n).drop_last() =~= Seq::<char>::empty());
        assert(decimal(n).last() == digit_char(n));
        assert(digit_char(n) as int == 48 + n);
        assert(decimal_value(decimal(n)) == decimal_value(Seq::<char>::empty()) * 10 + n);
    }
}

/// Different numbers have different decimal representations.
pub proof fn lemma_decimal_injective(a: nat, b: nat)
    requires
        a != b,
    ensures
        decimal(a) != decimal(b),
{
    lemma_decimal_value(a);
    lemma_decimal_value(b);
}

fn digit(d: u64) -> (c: char)
    requires
        d < 10,
    ensures
        c == digit_char(d as nat),
{
    let b: u8 = 48u8 + (d as u8);
    b as char
}

/// Appends the decimal representation of `n` to `out`.
fn push_decimal(out: &mut Vec<char>, n: u64)
    ensures
        final(out)@ == old(out)@ + decimal(n as nat),
    decreases n,
{
    if n >= 10 {
        push_decimal(out, n / 10);
    }
    out.push(digit(n % 10));
    proof {
        if n >= 10 {
            assert(old(out)@ + decimal(n as nat) =~= (old(out)@ + decimal((n / 10) as nat)).push(
                digit_char((n % 10) as nat),
            ));
        } else {
            assert(old(out)@ + decimal(n as nat) =~= old(out)@.push(digit_char(n as nat)));
        }
    }
}

/// The decimal representation of `n` as a string.
pub fn decimal_string(n: u64) -> (r: String)
    ensures
        r@ == decimal(n as nat),
{
    let mut out: Vec<char> = Vec::new();
    push_decimal(&mut out, n);
    proof {
        assert(out@ =~= decimal(n as nat));
    }
    string_of(&out)
}

/// Characters that cannot stand in a file name on common systems.
pub open spec fn is_reserved_char(c: char) -> bool {
    c == '/' || c == '\\' || c == ':' || c == '*' || c == '?' || c == '"' || c == '<' || c == '>'
        || c == '|'
}

/// Control characters (Unicode category Cc).
pub open spec fn is_control_char(c: char) -> bool {
    c <= '\u{1f}' || ('\u{7f}' <= c && c <= '\u{9f}')
}

/// White space (the Unicode `White_Space` property).
pub open spec fn is_white_space(c: char) -> bool {
    ('\u{9}' <= c && c <= '\u{d}') || c == ' ' || c == '\u{85}' || c == '\u{a0}' || c
        == '\u{1680}' || ('\u{2000}' <= c && c <= '\u{200a}') || c == '\u{2028}' || c == '\u{2029}'
        || c == '\u{202f}' || c == '\u{205f}' || c == '\u{3000}'
}

/// A character of a name after cleaning: reserved and control characters
/// become `-`.
pub open spec fn clean_char(c: char) -> char {
    if is_reserved_char(c) || is_control_char(c) {
        '-'
    } else {
        c
    }
}

/// The characters trimmed in one pass: white space, or dots.
pub open spec fn is_trimmed(c: char, dots: bool) -> bool {
    if dots {
        c == '.'
    } else {
        is_white_space(c)
    }
}

/// `s` without its leading trimmed characters.
pub open spec fn trim_start(s: Seq<char>, dots: bool) -> Seq<char>
    decreases s.len(),
{
    if s.len() > 0 && is_trimmed(s[0], dots) {
        trim_start(s.drop_first(), dots)
    } else {
        s
    }
}

/// `s` without its trailing trimmed characters.
pub open spec fn trim_end(s: Seq<char>, dots: bool) -> Seq<char>
    decreases s.len(),
{
    if s.len() > 0 && is_trimmed(s.last(), dots) {
        trim_end(s.drop_last(), dots)
    } else {
        s
    }
}

/// `s` without trimmed characters at either end.
pub open spec fn trim(s: Seq<char>, dots: bool) -> Seq<char> {
    trim_end(trim_start(s, dots), dots)
}

/// The name used when cleaning leaves nothing.
pub open spec fn fallback_group_name() -> Seq<char> {
    seq!['f', 'o', 'l', 'd', 'e', 'r', '-', 'g', 'r', 'o', 'u', 'p']
}

/// Whether a name is one of the device names that Windows reserves (`CON`,
/// `PRN`, `AUX`, `NUL`, `COM1`..`COM9`, `LPT1`..`LPT9`), ASCII case ignored.
pub open spec fn is_reserved_device_name(name: Seq<char>) -> bool {
    let l = lower_name(name);
    l == "con"@
        || l == "prn"@
        || l == "aux"@
        || l == "nul"@
        || l == "com1"@
        || l == "com2"@
        || l == "com3"@
        || l == "com4"@
        || l == "com5"@
        || l == "com6"@
        || l == "com7"@
        || l == "com8"@
        || l == "com9"@
        || l == "lpt1"@
        || l == "lpt2"@
        || l == "lpt3"@
        || l == "lpt4"@
        || l == "lpt5"@
        || l == "lpt6"@
        || l == "lpt7"@
        || l == "lpt8"@
        || l == "lpt9"@
}

/// The suffix added to a group name that is a reserved device name.
pub open spec fn group_suffix() -> Seq<char> {
    seq!['-', 'g', 'r', 'o', 'u', 'p']
}

/// A cleaned folder-group name: reserved and control characters become `-`,
/// white space is trimmed from both ends and then dots; an empty result
/// becomes `folder-group`. For Windows (`windows`), a result that is a
/// reserved device name gets `-group` appended.
pub open spec fn spec_sanitize_name(name: Seq<char>, windows: bool) -> Seq<char> {
    let cleaned = name.map_values(|c: char| clean_char(c));
    let trimmed = trim(trim(cleaned, false), true);
    if trimmed.len() == 0 {
        fallback_group_name()
    } else if windows && is_reserved_device_name(trimmed) {
        trimmed + group_suffix()
    } else {
        trimmed
    }
}

fn clean_char_exec(c: char) -> (r: char)
    ensures
        r == clean_char(c),
{
    let reserved = c == '/' || c == '\\' || c == ':' || c == '*' || c == '?' || c == '"' || c
        == '<' || c == '>' || c == '|';
    let control = c <= '\u{1f}' || ('\u{7f}' <= c && c <= '\u{9f}');
    if reserved || control {
        '-'
    } else {
        c
    }
}

fn is_trimmed_exec(c: char, dots: bool) -> (r: bool)
    ensures
        r == is_trimmed(c, dots),
{
    if dots {
        c == '.'
    } else {
        ('\u{9}' <= c && c <= '\u{d}') || c == ' ' || c == '\u{85}' || c == '\u{a0}' || c
            == '\u{1680}' || ('\u{2000}' <= c && c <= '\u{200a}') || c == '\u{2028}' || c
            == '\u{2029}' || c == '\u{202f}' || c == '\u{205f}' || c == '\u{3000}'
    }
}

/// `v` with its trimmed characters removed from both ends.
fn trim_chars(v: &Vec<char>, dots: bool) -> (r: Vec<char>)
    ensures
        r@ == trim(v@, dots),
{
    let n = v.len();
    let mut a: usize = 0;
    proof {
        assert(v@.skip(0) =~= v@);
    }
    while a < n && is_trimmed_exec(v[a], dots)
        invariant
            n == v.len(),
            a <= n,
            trim_start(v@, dots) == trim_start(v@.skip(a as int), dots),
        decreases n - a,
    {
        proof {
            assert(v@.skip(a as int).drop_first() =~= v@.skip(a + 1));
        }
        a = a + 1;
    }
    let mut b: usize = n;
    proof {
        assert(trim_start(v@, dots) == v@.subrange(a as int, n as int)) by {
            assert(v@.skip(a as int) =~= v@.subrange(a as int, n as int));
            if a < n {
                assert(v@.skip(a as int)[0] == v@[a as int]);
            }
        }
    }
    while b > a && is_trimmed_exec(v[b - 1], dots)
        invariant
            n == v.len(),
            a <= b <= n,
            trim(v@, dots) == trim_end(v@.subrange(a as int, b as int), dots),
        decreases b,
    {
        proof {
            assert(v@.subrange(a as int, b as int).drop_last() =~= v@.subrange(
                a as int,
                b - 1,
            ));
        }
        b = b - 1;
    }
    let mut r: Vec<char> = Vec::new();
    let mut i: usize = a;
    while i < b
        invariant
            n == v.len(),
            a <= i <= b <= n,
            r@ == v@.subrange(a as int, i as int),
        decreases b - i,
    {
        r.push(v[i]);
        proof {
            assert(v@.subrange(a as int, i + 1) =~= v@.subrange(a as int, i as int).push(
                v@[i as int],
            ));
        }
        i = i + 1;
    }
    r
}

/// A character that may stand in a cleaned name.
pub open spec fn is_safe_char(c: char) -> bool {
    !is_reserved_char(c) && !is_control_char(c)
}

proof fn lemma_trim_keeps_safe(s: Seq<char>, dots: bool)
    requires
        forall|i: int| 0 <= i < s.len() ==> is_safe_char(#[trigger] s[i]),
    ensures
        forall|i: int| 0 <= i < trim_start(s, dots).len() ==> is_safe_char(
            #[trigger] trim_start(s, dots)[i],
        ),
        forall|i: int| 0 <= i < trim_end(s, dots).len() ==> is_safe_char(
            #[trigger] trim_end(s, dots)[i],
        ),
    decreases s.len(),
{
    if s.len() > 0 {
        let t = s.drop_first();
        assert forall|i: int| 0 <= i < t.len() implies is_safe_char(#[trigger] t[i]) by {
            assert(t[i] == s[i + 1]);
        }
        lemma_trim_keeps_safe(t, dots);
        let u = s.drop_last();
        assert forall|i: int| 0 <= i < u.len() implies is_safe_char(#[trigger] u[i]) by {
            assert(u[i] == s[i]);
        }
        lemma_trim_keeps_safe(u, dots);
    }
    let ts = trim_start(s, dots);
    assert forall|i: int| 0 <= i < ts.len() implies is_safe_char(#[trigger] ts[i]) by {
        if !(s.len() > 0 && is_trimmed(s[0], dots)) {
            assert(ts == s);
            assert(is_safe_char(s[i]));
        } else {
            assert(ts == trim_start(s.drop_first(), dots));
            assert(is_safe_char(trim_start(s.drop_first(), dots)[i]));
        }
    }
    let te = trim_end(s, dots);
    assert forall|i: int| 0 <= i < te.len() implies is_safe_char(#[trigger] te[i]) by {
        if !(s.len() > 0 && is_trimmed(s.last(), dots)) {
            assert(te == s);
            assert(is_safe_char(s[i]));
        } else {
            assert(te == trim_end(s.drop_last(), dots));
            assert(is_safe_char(trim_end(s.drop_last(), dots)[i]));
        }
    }
}

proof fn lemma_trim_start_first(s: Seq<char>, dots: bool)
    ensures
        trim_start(s, dots).len() > 0 ==> !is_trimmed(trim_start(s, dots)[0], dots),
    decreases s.len(),
{
    if s.len() > 0 && is_trimmed(s[0], dots) {
        lemma_trim_start_first(s.drop_first(), dots);
    }
}

proof fn lemma_trim_end_ends(s: Seq<char>, dots: bool)
    ensures
        trim_end(s, dots).len() > 0 ==> !is_trimmed(trim_end(s, dots).last(), dots),
        trim_end(s, dots).len() > 0 ==> trim_end(s, dots)[0] == s[0],
        trim_end(s, dots).len() <= s.len(),
    decreases s.len(),
{
    if s.len() > 0 && is_trimmed(s.last(), dots) {
        lemma_trim_end_ends(s.drop_last(), dots);
    }
}

/// A cleaned name is a single path component: never empty, never `.` or
/// `..`, and free of separators, other reserved characters and control
/// characters.
pub proof fn lemma_sanitized_name_is_component(name: Seq<char>, windows: bool)
    ensures
        is_component(spec_sanitize_name(name, windows)),
        forall|i: int|
            0 <= i < spec_sanitize_name(name, windows).len() ==> is_safe_char(
                #[trigger] spec_sanitize_name(name, windows)[i],
            ),
{
    let cleaned = name.map_values(|c: char| clean_char(c));
    assert forall|i: int| 0 <= i < cleaned.len() implies is_safe_char(#[trigger] cleaned[i]) by {
        assert(cleaned[i] == clean_char(name[i]));
    }
    lemma_trim_keeps_safe(cleaned, false);
    let a = trim_start(cleaned, false);
    lemma_trim_keeps_safe(a, false);
    let b = trim(cleaned, false);
    lemma_trim_keeps_safe(b, true);
    let c = trim_start(b, true);
    lemma_trim_keeps_safe(c, true);
    let r = trim(b, true);
    if r.len() == 0 {
        let f = fallback_group_name();
        assert(f[0] == 'f');
        assert forall|i: int| 0 <= i < f.len() implies is_safe_char(#[trigger] f[i]) by {
            assert(f =~= seq!['f', 'o', 'l', 'd', 'e', 'r', '-', 'g', 'r', 'o', 'u', 'p']);
        }
    } else {
        lemma_trim_start_first(b, true);
        lemma_trim_end_ends(c, true);
        assert(r[0] != '.');
        if windows && is_reserved_device_name(r) {
            let g = group_suffix();
            let o = r + g;
            assert forall|i: int| 0 <= i < o.len() implies is_safe_char(#[trigger] o[i]) by {
                if i < r.len() {
                    assert(o[i] == r[i]);
                } else {
                    assert(o[i] == g[i - r.len()]);
                    assert(g[i - r.len()] == '-' || g[i - r.len()] == 'g' || g[i - r.len()] == 'r'
                        || g[i - r.len()] == 'o' || g[i - r.len()] == 'u' || g[i - r.len()]
                        == 'p');
                }
            }
            assert(o[0] == r[0]);
        }
    }
    let out = spec_sanitize_name(name, windows);
    assert(no_sep(out)) by {
        assert forall|j: int| 0 <= j < out.len() implies #[trigger] out[j] != '/' by {
            assert(is_safe_char(out[j]));
        }
    }
    assert(out.len() > 0);
    assert(out != seq!['.']) by {
        if out == seq!['.'] {
            assert(out[0] == '.');
        }
    }
    assert(out != seq!['.', '.']) by {
        if out == seq!['.', '.'] {
            assert(out[0] == '.');
        }
    }
}

/// Whether a name is a reserved device name (see
/// [`is_reserved_device_name`]).
fn is_reserved_device_name_exec(name: &Vec<char>) -> (r: bool)
    ensures
        r == is_reserved_device_name(name@),
{
    let mut l: Vec<char> = Vec::new();
    let mut i: usize = 0;
    while i < name.len()
        invariant
            i <= name.len(),
            l@ == lower_name(name@.take(i as int)),
        decreases name.len() - i,
    {
        l.push(ascii_lower_exec(name[i]));
        proof {
            assert(lower_name(name@.take(i + 1)) =~= lower_name(name@.take(i as int)).push(
                ascii_lower(name@[i as int]),
            ));
        }
        i = i + 1;
    }
    proof {
        assert(name@.take(name.len() as int) =~= name@);
    }
    chars_eq(&l, &chars_of("con")) || chars_eq(&l, &chars_of("prn")) || chars_eq(&l, &chars_of("aux")) || chars_eq(&l, &chars_of("nul")) || chars_eq(&l, &chars_of("com1")) || chars_eq(&l, &chars_of("com2")) || chars_eq(&l, &chars_of("com3")) || chars_eq(&l, &chars_of("com4")) || chars_eq(&l, &chars_of("com5")) || chars_eq(&l, &chars_of("com6")) || chars_eq(&l, &chars_of("com7")) || chars_eq(&l, &chars_of("com8")) || chars_eq(&l, &chars_of("com9")) || chars_eq(&l, &chars_of("lpt1")) || chars_eq(&l, &chars_of("lpt2")) || chars_eq(&l, &chars_of("lpt3")) || chars_eq(&l, &chars_of("lpt4")) || chars_eq(&l, &chars_of("lpt5")) || chars_eq(&l, &chars_of("lpt6")) || chars_eq(&l, &chars_of("lpt7")) || chars_eq(&l, &chars_of("lpt8")) || chars_eq(&l, &chars_of("lpt9"))
}

/// Cleans a folder-group name (see [`spec_sanitize_name`]).
pub fn sanitize_name(name: &str, windows: bool) -> (r: String)
    ensures
        r@ == spec_sanitize_name(name@, windows),
{
    let chars = chars_of(name);
    let mut cleaned: Vec<char> = Vec::new();
    let mut i: usize = 0;
    while i < chars.len()
        invariant
            i <= chars.len(),
            cleaned@ == chars@.take(i as int).map_values(|c: char| clean_char(c)),
        decreases chars.len() - i,
    {
        cleaned.push(clean_char_exec(chars[i]));
        proof {
            assert(chars@.take(i + 1).map_values(|c: char| clean_char(c)) =~= chars@.take(
                i as int,
            ).map_values(|c: char| clean_char(c)).push(clean_char(chars@[i as int])));
        }
        i = i + 1;
    }
    proof {
        assert(chars@.take(chars.len() as int) =~= chars@);
    }
    let trimmed = trim_chars(&trim_chars(&cleaned, false), true);
    if trimmed.len() == 0 {
        let r = String::from_str("folder-group");
        proof {
            reveal_strlit("folder-group");
            assert(r@ =~= fallback_group_name());
        }
        return r;
    }
    if windows && is_reserved_device_name_exec(&trimmed) {
        let mut out = trimmed;
        out.push('-');
        out.push('g');
        out.push('r');
        out.push('o');
        out.push('u');
        out.push('p');
        proof {
            assert(out@ =~= trimmed@ + group_suffix());
        }
        return string_of(&out);
    }
    string_of(&trimmed)
}


/// The character sequences held by a sequence of strings.
pub open spec fn strings_of(v: Seq<String>) -> Seq<Seq<char>> {
    v.map_values(|s: String| s@)
}

/// A fresh copy of a vector of strings.
pub fn copy_strings(v: &Vec<String>) -> (r: Vec<String>)
    ensures
        strings_of(r@) == strings_of(v@),
{
    let mut r: Vec<String> = Vec::new();
    let mut i: usize = 0;
    while i < v.len()
        invariant
            i <= v.len(),
            strings_of(r@) == strings_of(v@).take(i as int),
        decreases v.len() - i,
    {
        let ghost before = strings_of(r@);
        let c = copy_string(&v[i]);
        r.push(c);
        proof {
            assert(strings_of(r@) =~= before.push(c@));
            assert(strings_of(v@).take(i + 1) =~= strings_of(v@).take(i as int).push(v@[i as int]@));
        }
        i = i + 1;
    }
    proof {
        assert(strings_of(v@).take(v.len() as int) =~= strings_of(v@));
    }
    r
}

/// The name given to a group of folders when none is chosen: the names of
/// the first two folders joined by `-`, followed by `-and-N-more` when there
/// are `N` further folders.
pub open spec fn spec_default_group_name(folders: Seq<Seq<char>>) -> Seq<char> {
    let joined = if folders.len() == 0 {
        Seq::<char>::empty()
    } else if folders.len() == 1 {
        spec_basename(folders[0])
    } else {
        spec_basename(folders[0]) + seq!['-'] + spec_basename(folders[1])
    };
    if folders.len() > 2 {
        joined + seq!['-', 'a', 'n', 'd', '-'] + decimal((folders.len() - 2) as nat) + seq![
            '-',
            'm',
            'o',
            'r',
            'e',
        ]
    } else {
        joined
    }
}

/// The default name for a group of folders (see [`spec_default_group_name`]).
pub fn default_group_name(folders: &Vec<String>) -> (r: String)
    ensures
        r@ == spec_default_group_name(strings_of(folders@)),
{
    let ghost f = strings_of(folders@);
    let mut out: Vec<char> = Vec::new();
    let n = folders.len();
    if n >= 1 {
        let first = basename(folders[0].as_str());
        extend_chars(&mut out, &chars_of(first.as_str()));
        proof {
            assert(f[0] == folders@[0]@);
        }
    }
    if n >= 2 {
        out.push('-');
        let second = basename(folders[1].as_str());
        extend_chars(&mut out, &chars_of(second.as_str()));
        proof {
            assert(f[1] == folders@[1]@);
        }
    }
    let ghost joined = out@;
    proof {
        if n == 0 {
            assert(joined =~= Seq::<char>::empty());
        } else if n == 1 {
            assert(joined =~= spec_basename(f[0]));
        } else {
            assert(joined =~= spec_basename(f[0]) + seq!['-'] + spec_basename(f[1]));
        }
    }
    if n > 2 {
        out.push('-');
        out.push('a');
        out.push('n');
        out.push('d');
        out.push('-');
        push_decimal(&mut out, (n - 2) as u64);
        out.push('-');
        out.push('m');
        out.push('o');
        out.push('r');
        out.push('e');
        proof {
            assert(out@ =~= joined + seq!['-', 'a', 'n', 'd', '-'] + decimal((n - 2) as nat) + seq![
                '-',
                'm',
                'o',
                'r',
                'e',
            ]);
        }
    }
    string_of(&out)
}

/// The name tried at a given attempt: the name itself first, then the name
/// followed by `-2`, `-3`, and so on.
pub open spec fn candidate_name(name: Seq<char>, attempt: nat) -> Seq<char> {
    if attempt == 0 {
        name
    } else {
        name + seq!['-'] + decimal(attempt + 1)
    }
}

/// The path tried at a given attempt when looking for a free entry named
/// `name` in `dir`.
pub open spec fn spec_unique_candidate(dir: Seq<char>, name: Seq<char>, attempt: nat) -> Seq<
    char,
> {
    spec_join(dir, candidate_name(name, attempt))
}

/// The path tried at attempt number `attempt` (counting from zero) when
/// looking for an unused entry named after `name` in `dir`: `dir/name`, then
/// `dir/name-2`, `dir/name-3`, ... The caller tries attempts in order and
/// keeps the first path that does not exist, a broken link counting as
/// existing.
pub fn unique_path(dir: &str, name: &str, attempt: u32) -> (r: String)
    ensures
        r@ == spec_unique_candidate(dir@, name@, attempt as nat),
{
    if attempt == 0 {
        return join_path(dir, name);
    }
    let mut n: Vec<char> = chars_of(name);
    n.push('-');
    push_decimal(&mut n, (attempt as u64) + 1);
    proof {
        assert(n@ =~= name@ + seq!['-'] + decimal(attempt as nat + 1));
    }
    let s = string_of(&n);
    join_path(dir, s.as_str())
}

proof fn lemma_candidate_names_distinct(name: Seq<char>, i: nat, j: nat)
    requires
        i != j,
    ensures
        candidate_name(name, i) != candidate_name(name, j),
        candidate_name(name, i).len() > 0 && candidate_name(name, i)[0] == '/' <==> name.len() > 0
            && name[0] == '/',
{
    lemma_decimal_value(i + 1);
    lemma_decimal_value(j + 1);
    if i > 0 {
        assert(candidate_name(name, i).len() > name.len());
        if name.len() > 0 {
            assert(candidate_name(name, i)[0] == name[0]);
        } else {
            assert(candidate_name(name, i)[0] == '-');
        }
    }
    if i > 0 && j > 0 {
        let a = candidate_name(name, i);
        let b = candidate_name(name, j);
        if a == b {
            assert(a.skip(name.len() + 1int) =~= decimal(i + 1));
            assert(b.skip(name.len() + 1int) =~= decimal(j + 1));
            lemma_decimal_injective(i + 1, j + 1);
        }
    }
}

/// Every attempt tries a path that no other attempt tries, so the search
/// for a free entry never revisits a path.
pub proof fn lemma_unique_candidates_distinct(dir: Seq<char>, name: Seq<char>, i: nat, j: nat)
    requires
        i != j,
    ensures
        spec_unique_candidate(dir, name, i) != spec_unique_candidate(dir, name, j),
{
    lemma_candidate_names_distinct(name, i, j);
    lemma_candidate_names_distinct(name, j, i);
    let a = candidate_name(name, i);
    let b = candidate_name(name, j);
    if !(a.len() > 0 && a[0] == '/') {
        let p = if dir.len() == 0 || dir.last() == '/' {
            dir
        } else {
            dir.push('/')
        };
        assert(spec_join(dir, a) == p + a);
        assert(spec_join(dir, b) == p + b);
        if p + a == p + b {
            assert((p + a).skip(p.len() as int) =~= a);
            assert((p + b).skip(p.len() as int) =~= b);
        }
    }
}

proof fn lemma_decimal_digits(n: nat)
    ensures
        forall|i: int| 0 <= i < decimal(n).len() ==> '0' <= #[trigger] decimal(n)[i] <= '9',
    decreases n,
{
    if n >= 10 {
        lemma_decimal_digits(n / 10);
        let d = decimal(n / 10);
        assert forall|i: int| 0 <= i < decimal(n).len() implies '0' <= #[trigger] decimal(n)[i]
            <= '9' by {
            if i < d.len() {
                assert(decimal(n)[i] == d[i]);
            } else {
                assert(decimal(n)[i] == digit_char((n % 10) as nat));
            }
        }
    } else {
        assert(decimal(n)[0] == digit_char(n));
    }
}

/// Every path tried for a name that is a single component is an entry
/// directly inside the directory, named by the tried name, which is itself a
/// single component.
pub proof fn lemma_candidate_is_child(dir: Seq<char>, name: Seq<char>, attempt: nat)
    requires
        is_component(name),
    ensures
        is_component(candidate_name(name, attempt)),
        normal_components(spec_unique_candidate(dir, name, attempt)) == normal_components(dir).push(
            candidate_name(name, attempt),
        ),
{
    let c = candidate_name(name, attempt);
    if attempt > 0 {
        lemma_decimal_digits(attempt + 1);
        lemma_decimal_value(attempt + 1);
        let d = decimal(attempt + 1);
        assert(no_sep(c)) by {
            assert forall|j: int| 0 <= j < c.len() implies #[trigger] c[j] != '/' by {
                if j < name.len() {
                    assert(c[j] == name[j]);
                } else if j == name.len() {
                    assert(c[j] == '-');
                } else {
                    assert(c[j] == d[j - name.len() - 1]);
                }
            }
        }
        assert(c.len() >= 3);
        assert(c != seq!['.']) by {
            if c == seq!['.'] {
                assert(c.len() == 1);
            }
        }
        assert(c != seq!['.', '.']) by {
            if c == seq!['.', '.'] {
                assert(c.len() == 2);
            }
        }
    }
    lemma_join_child(dir, c);
}

/// Cleaning a character: each of `/ \\ : * ? " < > |` and each control
/// character (U+0000..U+001F, U+007F..U+009F) becomes `-`; every other
/// character, letters of any script and white space included, is kept.
pub proof fn lemma_clean_char_meaning(c: char)
    ensures
        (c == '/' || c == '\\' || c == ':' || c == '*' || c == '?' || c == '"' || c == '<' || c
            == '>' || c == '|') ==> clean_char(c) == '-',
        (c <= '\u{1f}' || ('\u{7f}' <= c && c <= '\u{9f}')) ==> clean_char(c) == '-',
        !(c == '/' || c == '\\' || c == ':' || c == '*' || c == '?' || c == '"' || c == '<' || c
            == '>' || c == '|') && !(c <= '\u{1f}' || ('\u{7f}' <= c && c <= '\u{9f}'))
            ==> clean_char(c) == c,
{
}

/// A character with the Unicode `White_Space` property, spelled out.
pub open spec fn unicode_white_space(c: char) -> bool {
    c == '\u{9}' || c == '\u{a}' || c == '\u{b}' || c == '\u{c}' || c == '\u{d}' || c == ' '
        || c == '\u{85}' || c == '\u{a0}' || c == '\u{1680}' || ('\u{2000}' <= c && c
        <= '\u{200a}') || c == '\u{2028}' || c == '\u{2029}' || c == '\u{202f}' || c
        == '\u{205f}' || c == '\u{3000}'
}

/// A name that needs no cleaning comes back unchanged: when it is not
/// empty, holds none of `/ \\ : * ? " < > |` and no control character, and
/// neither starts nor ends with white space or a dot, cleaning it (without
/// the Windows rule) gives the name itself, whatever script it is written
/// in.
pub proof fn lemma_plain_name_kept(name: Seq<char>)
    requires
        name.len() > 0,
        forall|i: int|
            0 <= i < name.len() ==> !(#[trigger] name[i] == '/' || name[i] == '\\' || name[i] == ':'
                || name[i] == '*' || name[i] == '?' || name[i] == '"' || name[i] == '<' || name[i]
                == '>' || name[i] == '|') && !(name[i] <= '\u{1f}' || ('\u{7f}' <= name[i]
                && name[i] <= '\u{9f}')),
        !unicode_white_space(name[0]),
        !unicode_white_space(name.last()),
        name[0] != '.',
        name.last() != '.',
    ensures
        spec_sanitize_name(name, false) == name,
{
    let cleaned = name.map_values(|c: char| clean_char(c));
    assert forall|i: int| 0 <= i < name.len() implies #[trigger] cleaned[i] == name[i] by {
        lemma_clean_char_meaning(name[i]);
    }
    assert(cleaned =~= name);
    assert(!is_trimmed(name[0], false));
    assert(!is_trimmed(name.last(), false));
    assert(trim_start(name, false) == name);
    assert(trim_end(name, false) == name);
    assert(trim_start(name, true) == name);
    assert(trim_end(name, true) == name);
}

/// The Windows rule only ever adds `-group`, and adds it exactly to names
/// that are, ASCII case ignored, one of the device names `CON`, `PRN`, `AUX`,
/// `NUL`, `COM1`..`COM9`, `LPT1`..`LPT9`; without the Windows rule nothing
/// is added.
pub proof fn lemma_windows_rule(name: Seq<char>)
    ensures
        ({
            let plain = spec_sanitize_name(name, false);
            let device = lower_name(plain) == "con"@
            || lower_name(plain) == "prn"@
            || lower_name(plain) == "aux"@
            || lower_name(plain) == "nul"@
            || lower_name(plain) == "com1"@
            || lower_name(plain) == "com2"@
            || lower_name(plain) == "com3"@
            || lower_name(plain) == "com4"@
            || lower_name(plain) == "com5"@
            || lower_name(plain) == "com6"@
            || lower_name(plain) == "com7"@
            || lower_name(plain) == "com8"@
            || lower_name(plain) == "com9"@
            || lower_name(plain) == "lpt1"@
            || lower_name(plain) == "lpt2"@
            || lower_name(plain) == "lpt3"@
            || lower_name(plain) == "lpt4"@
            || lower_name(plain) == "lpt5"@
            || lower_name(plain) == "lpt6"@
            || lower_name(plain) == "lpt7"@
            || lower_name(plain) == "lpt8"@
            || lower_name(plain) == "lpt9"@;
            &&& device ==> spec_sanitize_name(name, true) == plain + seq!['-', 'g', 'r', 'o', 'u', 'p']
            &&& !device ==> spec_sanitize_name(name, true) == plain
        }),
{
    let cleaned = name.map_values(|c: char| clean_char(c));
    let trimmed = trim(trim(cleaned, false), true);
    if trimmed.len() == 0 {
        let f = fallback_group_name();
        assert(lower_name(f).len() == 12);
        reveal_strlit("con");
        reveal_strlit("prn");
        reveal_strlit("aux");
        reveal_strlit("nul");
        reveal_strlit("com1");
        reveal_strlit("com2");
        reveal_strlit("com3");
        reveal_strlit("com4");
        reveal_strlit("com5");
        reveal_strlit("com6");
        reveal_strlit("com7");
        reveal_strlit("com8");
        reveal_strlit("com9");
        reveal_strlit("lpt1");
        reveal_strlit("lpt2");
        reveal_strlit("lpt3");
        reveal_strlit("lpt4");
        reveal_strlit("lpt5");
        reveal_strlit("lpt6");
        reveal_strlit("lpt7");
        reveal_strlit("lpt8");
        reveal_strlit("lpt9");
    }
}

} // verus!
