//! Sanitizing of raw filename and pathname bytes into safe, relative,
//! printable text.
//!
//! A byte string taken from an archive header may hold control codes,
//! non-ASCII bytes and path separators. `parse_str_nilterm` rewrites such
//! bytes into printable form; `parse_pathname` additionally splits a raw
//! pathname into components and discards the empty, `.` and `..` ones, so
//! that the result is always a relative path.

use vstd::prelude::*;

verus! {

/// The platform's path separator byte (`/` on Unix-family targets).
pub open spec fn is_sep_byte(b: u8) -> bool {
    b == 47
}

/// Bytes that are rewritten as a `%xx` escape: control codes and
/// everything outside printable ASCII.
pub open spec fn needs_escape(b: u8) -> bool {
    b < 0x20 || b >= 0x7f
}

/// The lowercase hex digit for a value below 16.
pub open spec fn hex_char(n: u8) -> char
    recommends
        n < 16,
{
    if n < 10 {
        (48 + n) as char
    } else {
        (87 + n) as char
    }
}

/// What one byte contributes to the sanitized form of a string.
pub open spec fn sanitize_byte(b: u8, ignore_sep: bool) -> Seq<char> {
    if needs_escape(b) {
        seq!['%', hex_char(b / 16), hex_char(b % 16)]
    } else if !ignore_sep && is_sep_byte(b) {
        seq!['_']
    } else {
        seq![b as char]
    }
}

/// The sanitized form of a byte string: every byte is rewritten through
/// [`sanitize_byte`]; with `nilterm`, the first 0x00 byte ends the string
/// and discards the rest.
pub open spec fn sanitized(s: Seq<u8>, nilterm: bool, ignore_sep: bool) -> Seq<char>
    decreases s.len(),
{
    if s.len() == 0 {
        Seq::empty()
    } else if nilterm && s[0] == 0 {
        Seq::empty()
    } else {
        sanitize_byte(s[0], ignore_sep) + sanitized(s.drop_first(), nilterm, ignore_sep)
    }
}

proof fn lemma_sanitized_push(s: Seq<u8>, b: u8, nilterm: bool, ignore_sep: bool)
    requires
        nilterm ==> forall|j: int| 0 <= j < s.len() ==> s[j] != 0,
        !(nilterm && b == 0),
    ensures
        sanitized(s.push(b), nilterm, ignore_sep) == sanitized(s, nilterm, ignore_sep)
            + sanitize_byte(b, ignore_sep),
    decreases s.len(),
{
    if s.len() == 0 {
        let one = s.push(b);
        assert(one.len() == 1 && one[0] == b);
        assert(one.drop_first() =~= Seq::<u8>::empty());
        assert(sanitized(one, nilterm, ignore_sep) == sanitize_byte(b, ignore_sep) + sanitized(
            one.drop_first(),
            nilterm,
            ignore_sep,
        ));
        assert(sanitized(Seq::<u8>::empty(), nilterm, ignore_sep) == Seq::<char>::empty());
        assert(sanitize_byte(b, ignore_sep) + Seq::<char>::empty() =~= sanitize_byte(
            b,
            ignore_sep,
        ));
        assert(sanitized(s, nilterm, ignore_sep) + sanitize_byte(b, ignore_sep) =~= sanitize_byte(
            b,
            ignore_sep,
        ));
    } else {
        assert(s.push(b).drop_first() =~= s.drop_first().push(b));
        lemma_sanitized_push(s.drop_first(), b, nilterm, ignore_sep);
        assert(sanitized(s.push(b), nilterm, ignore_sep) == sanitize_byte(s[0], ignore_sep) + (
        sanitized(s.drop_first(), nilterm, ignore_sep) + sanitize_byte(b, ignore_sep)));
        assert(sanitize_byte(s[0], ignore_sep) + (sanitized(s.drop_first(), nilterm, ignore_sep)
            + sanitize_byte(b, ignore_sep)) =~= (sanitize_byte(s[0], ignore_sep) + sanitized(
            s.drop_first(),
            nilterm,
            ignore_sep,
        )) + sanitize_byte(b, ignore_sep));
    }
}

/// The index of the first 0x00 byte, or the length when there is none.
pub open spec fn first_nul(s: Seq<u8>) -> int
    decreases s.len(),
{
    if s.len() == 0 {
        0
    } else if s[0] == 0 {
        0
    } else {
        1 + first_nul(s.drop_first())
    }
}

pub proof fn lemma_first_nul(s: Seq<u8>)
    ensures
        0 <= first_nul(s) <= s.len(),
        forall|j: int| 0 <= j < first_nul(s) ==> s[j] != 0,
        first_nul(s) < s.len() ==> s[first_nul(s)] == 0,
    decreases s.len(),
{
    if s.len() > 0 && s[0] != 0 {
        lemma_first_nul(s.drop_first());
        assert forall|j: int| 0 <= j < first_nul(s) implies s[j] != 0 by {
            if j > 0 {
                assert(s.drop_first()[j - 1] != 0);
            }
        }
    }
}

proof fn lemma_first_nul_unique(s: Seq<u8>, i: int)
    requires
        0 <= i <= s.len(),
        forall|j: int| 0 <= j < i ==> s[j] != 0,
        i < s.len() ==> s[i] == 0,
    ensures
        first_nul(s) == i,
    decreases s.len(),
{
    if s.len() > 0 && s[0] != 0 {
        lemma_first_nul_unique(s.drop_first(), i - 1);
    }
}

/// With nil-termination, only the source bytes before the first 0x00
/// contribute: the result equals the sanitized form of that prefix.
pub proof fn lemma_sanitize_nilterm_consumes_prefix(s: Seq<u8>, ignore_sep: bool)
    ensures
        sanitized(s, true, ignore_sep) == sanitized(
            s.subrange(0, first_nul(s)),
            false,
            ignore_sep,
        ),
    decreases s.len(),
{
    lemma_first_nul(s);
    if s.len() == 0 || s[0] == 0 {
        assert(s.subrange(0, first_nul(s)) =~= Seq::<u8>::empty());
    } else {
        lemma_sanitize_nilterm_consumes_prefix(s.drop_first(), ignore_sep);
        assert(s.drop_first().subrange(0, first_nul(s.drop_first())) =~= s.subrange(
            0,
            first_nul(s),
        ).drop_first());
        assert(sanitized(s.subrange(0, first_nul(s)), false, ignore_sep) == sanitize_byte(
            s[0],
            ignore_sep,
        ) + sanitized(s.subrange(0, first_nul(s)).drop_first(), false, ignore_sep));
    }
}

/// Relies on `String::push`: appends the given character to the end of
/// the string.
#[verifier::external_body]
fn push_char(s: &mut String, c: char)
    ensures
        final(s)@ == old(s)@.push(c),
{
    s.push(c)
}

fn hex_char_exec(n: u8) -> (r: char)
    requires
        n < 16,
    ensures
        r == hex_char(n),
{
    if n < 10 {
        (48 + n) as char
    } else {
        (87 + n) as char
    }
}

/// Rewrites a raw byte string into printable text: printable ASCII bytes
/// pass through, control and non-ASCII bytes become `%xx` escapes, and a
/// path separator becomes `_` unless `ignore_sep` is set. With `nilterm`,
/// the first 0x00 byte ends the string.
pub fn parse_str_nilterm(data: &[u8], nilterm: bool, ignore_sep: bool) -> (r: String)
    ensures
        r@ == sanitized(data@, nilterm, ignore_sep),
{
    let mut out = String::new();
    let mut i: usize = 0;
    while i < data.len()
        invariant
            i <= data@.len(),
            out@ == sanitized(data@.subrange(0, i as int), nilterm, ignore_sep),
            nilterm ==> forall|j: int| 0 <= j < i ==> data@[j] != 0,
        decreases data@.len() - i,
    {
        let b = data[i];
        if nilterm && b == 0 {
            proof {
                let prefix = data@.subrange(0, i as int);
                lemma_first_nul_unique(data@, i as int);
                lemma_sanitize_nilterm_consumes_prefix(data@, ignore_sep);
                lemma_first_nul_unique(prefix, i as int);
                lemma_sanitize_nilterm_consumes_prefix(prefix, ignore_sep);
                assert(prefix.subrange(0, i as int) =~= prefix);
            }
            return out;
        }
        let ghost prefix = data@.subrange(0, i as int);
        proof {
            lemma_sanitized_push(prefix, b, nilterm, ignore_sep);
            assert(prefix.push(b) =~= data@.subrange(0, i as int + 1));
        }
        if b < 0x20 || b >= 0x7f {
            push_char(&mut out, '%');
            push_char(&mut out, hex_char_exec(b / 16));
            push_char(&mut out, hex_char_exec(b % 16));
            proof {
                assert(out@ =~= sanitized(prefix, nilterm, ignore_sep) + sanitize_byte(
                    b,
                    ignore_sep,
                ));
            }
        } else if !ignore_sep && b == 47 {
            push_char(&mut out, '_');
            proof {
                assert(out@ =~= sanitized(prefix, nilterm, ignore_sep) + sanitize_byte(
                    b,
                    ignore_sep,
                ));
            }
        } else {
            push_char(&mut out, b as char);
            proof {
                assert(out@ =~= sanitized(prefix, nilterm, ignore_sep) + sanitize_byte(
                    b,
                    ignore_sep,
                ));
            }
        }
        i = i + 1;
    }
    proof {
        assert(data@.subrange(0, data@.len() as int) =~= data@);
    }
    out
}

/// Relies on `memchr::memchr`: returns the index of the first occurrence
/// of `needle` in `haystack`, or `None` when it does not occur.
#[verifier::external_body]
fn find_first_byte(needle: u8, haystack: &[u8]) -> (r: Option<usize>)
    ensures
        match r {
            Some(i) => i < haystack@.len() && haystack@[i as int] == needle && forall|j: int|
                0 <= j < i ==> haystack@[j] != needle,
            None => forall|j: int| 0 <= j < haystack@.len() ==> haystack@[j] != needle,
        },
{
    memchr::memchr(needle, haystack)
}

/// Splits a byte string at its first 0x00 byte. The first part is the
/// bytes before it; the second is the bytes after it, or absent when the
/// string holds no 0x00 byte.
pub fn split_data_at_nil_or_end<'a>(data: &'a [u8]) -> (r: (&'a [u8], Option<&'a [u8]>))
    ensures
        r.0@ == data@.subrange(0, first_nul(data@)),
        first_nul(data@) == data@.len() ==> r.1 is None,
        first_nul(data@) < data@.len() ==> (r.1 matches Some(rest) && rest@ == data@.subrange(
            first_nul(data@) + 1,
            data@.len() as int,
        )),
{
    let n = data.len();
    match find_first_byte(0, data) {
        Some(index) => {
            proof {
                lemma_first_nul_unique(data@, index as int);
            }
            let head = vstd::slice::slice_subrange(data, 0, index);
            let rest = vstd::slice::slice_subrange(data, index + 1, n);
            (head, Some(rest))
        },
        None => {
            proof {
                lemma_first_nul_unique(data@, data@.len() as int);
                assert(data@.subrange(0, data@.len() as int) =~= data@);
            }
            (data, None)
        },
    }
}

/// The bytes on which a raw pathname is split into components.
pub open spec fn is_path_sep(b: u8) -> bool {
    b == 47 || b == 92 || b == 0xff
}

/// The index of the first path-separator byte, or the length when there
/// is none.
pub open spec fn first_sep(s: Seq<u8>) -> int
    decreases s.len(),
{
    if s.len() == 0 {
        0
    } else if is_path_sep(s[0]) {
        0
    } else {
        1 + first_sep(s.drop_first())
    }
}

pub proof fn lemma_first_sep(s: Seq<u8>)
    ensures
        0 <= first_sep(s) <= s.len(),
        forall|j: int| 0 <= j < first_sep(s) ==> !is_path_sep(s[j]),
        first_sep(s) < s.len() ==> is_path_sep(s[first_sep(s)]),
    decreases s.len(),
{
    if s.len() > 0 && !is_path_sep(s[0]) {
        lemma_first_sep(s.drop_first());
        assert forall|j: int| 0 <= j < first_sep(s) implies !is_path_sep(s[j]) by {
            if j > 0 {
                assert(!is_path_sep(s.drop_first()[j - 1]));
            }
        }
    }
}

proof fn lemma_first_sep_unique(s: Seq<u8>, i: int)
    requires
        0 <= i <= s.len(),
        forall|j: int| 0 <= j < i ==> !is_path_sep(s[j]),
        i < s.len() ==> is_path_sep(s[i]),
    ensures
        first_sep(s) == i,
    decreases s.len(),
{
    if s.len() > 0 && !is_path_sep(s[0]) {
        lemma_first_sep_unique(s.drop_first(), i - 1);
    }
}

/// A raw pathname component that is kept: nonempty and neither `.` nor
/// `..`.
pub open spec fn keep_component(c: Seq<u8>) -> bool {
    c.len() > 0 && c != seq![46u8] && c != seq![46u8, 46u8]
}

/// What a kept component contributes to the path.
pub open spec fn component_out(c: Seq<u8>) -> Seq<Seq<char>> {
    if keep_component(c) {
        seq![sanitized(c, false, false)]
    } else {
        Seq::empty()
    }
}

/// The components of a raw pathname: the byte string is split on `/`,
/// `\` and 0xFF; empty, `.` and `..` components are discarded; the rest
/// are sanitized.
pub open spec fn path_components(s: Seq<u8>) -> Seq<Seq<char>>
    decreases s.len(),
{
    let i = first_sep(s);
    if 0 <= i < s.len() {
        component_out(s.subrange(0, i)) + path_components(s.subrange(i + 1, s.len() as int))
    } else {
        component_out(s)
    }
}

/// The character sequences a list of strings holds.
pub open spec fn strings_view(v: Seq<String>) -> Seq<Seq<char>> {
    v.map_values(|s: String| s@)
}

/// Splits a raw pathname on `/`, `\` and 0xFF, discards empty, `.` and
/// `..` components, sanitizes the rest and appends them to `path`. The
/// result is always a relative path.
pub fn parse_pathname(data: &[u8], path: &mut Vec<String>)
    ensures
        strings_view(final(path)@) == strings_view(old(path)@) + path_components(data@),
{
    let ghost whole = data@;
    proof {
        assert(data@.subrange(0, data@.len() as int) =~= whole);
    }
    let mut pos: usize = 0;
    loop
        invariant_except_break
            strings_view(path@) + path_components(data@.subrange(pos as int, data@.len() as int))
                == strings_view(old(path)@) + path_components(whole),
        invariant
            pos <= data@.len(),
            data@ == whole,
        ensures
            strings_view(path@) == strings_view(old(path)@) + path_components(whole),
        decreases data@.len() - pos,
    {
        let ghost suffix = data@.subrange(pos as int, data@.len() as int);
        let mut j: usize = pos;
        while j < data.len() && !(data[j] == 47 || data[j] == 92 || data[j] == 0xff)
            invariant
                pos <= j <= data@.len(),
                forall|k: int| pos <= k < j ==> !is_path_sep(data@[k]),
            decreases data@.len() - j,
        {
            j = j + 1;
        }
        proof {
            assert forall|k: int| 0 <= k < j - pos implies !is_path_sep(suffix[k]) by {
                assert(suffix[k] == data@[pos + k]);
            }
            if j < data@.len() {
                assert(is_path_sep(suffix[j - pos]));
            }
            lemma_first_sep_unique(suffix, j - pos as int);
        }
        let comp = vstd::slice::slice_subrange(data, pos, j);
        proof {
            assert(comp@ =~= suffix.subrange(0, j - pos as int));
            if j == data@.len() {
                assert(comp@ =~= suffix);
            }
        }
        let keep = if comp.len() == 0 {
            false
        } else if comp.len() == 1 && comp[0] == 46 {
            proof {
                assert(comp@ =~= seq![46u8]);
            }
            false
        } else if comp.len() == 2 && comp[0] == 46 && comp[1] == 46 {
            proof {
                assert(comp@ =~= seq![46u8, 46u8]);
            }
            false
        } else {
            proof {
                if comp@.len() == 1 {
                    assert(comp@ != seq![46u8]) by {
                        assert(comp@[0] != 46);
                    }
                }
                if comp@.len() == 2 {
                    assert(comp@ != seq![46u8, 46u8]) by {
                        assert(comp@[0] != 46 || comp@[1] != 46);
                    }
                }
            }
            true
        };
        let ghost views_before = strings_view(path@);
        if keep {
            let name = parse_str_nilterm(comp, false, false);
            path.push(name);
            proof {
                assert(strings_view(path@) =~= views_before + component_out(comp@));
            }
        } else {
            proof {
                assert(strings_view(path@) =~= views_before + component_out(comp@));
            }
        }
        if j == data.len() {
            proof {
                assert(path_components(suffix) == component_out(comp@));
                assert((views_before + path_components(suffix)) =~= strings_view(path@));
            }
            break ;
        }
        proof {
            assert(path_components(suffix) == component_out(comp@) + path_components(
                suffix.subrange(j - pos + 1, suffix.len() as int),
            ));
            assert(suffix.subrange(j - pos + 1, suffix.len() as int) =~= data@.subrange(
                j + 1,
                data@.len() as int,
            ));
            assert((views_before + component_out(comp@)) + path_components(
                data@.subrange(j + 1, data@.len() as int),
            ) =~= views_before + (component_out(comp@) + path_components(
                data@.subrange(j + 1, data@.len() as int),
            )));
        }
        pos = j + 1;
    }
}

} // verus!




verus! {

/// A character that may appear in a sanitized path component: printable
/// ASCII and not a path separator.
pub open spec fn component_char_ok(ch: char) -> bool {
    &&& 0x20 <= (ch as u32)
    &&& (ch as u32) < 0x7f
    &&& ch != '/'
    &&& ch != '\\'
}

/// A path component that is safe to use: nonempty, neither `.` nor `..`,
/// and made of printable non-separator characters only.
pub open spec fn safe_component(c: Seq<char>) -> bool {
    &&& c.len() > 0
    &&& c != seq!['.']
    &&& c != seq!['.', '.']
    &&& (forall|j: int| 0 <= j < c.len() ==> component_char_ok(#[trigger] c[j]))
}

proof fn lemma_sanitized_min_len(c: Seq<u8>, ignore_sep: bool)
    ensures
        sanitized(c, false, ignore_sep).len() >= c.len(),
    decreases c.len(),
{
    if c.len() > 0 {
        lemma_sanitized_min_len(c.drop_first(), ignore_sep);
    }
}

proof fn lemma_sanitized_chars(c: Seq<u8>)
    requires
        forall|j: int| 0 <= j < c.len() ==> !is_path_sep(#[trigger] c[j]),
    ensures
        forall|j: int|
            0 <= j < sanitized(c, false, false).len() ==> component_char_ok(
                #[trigger] sanitized(c, false, false)[j],
            ),
    decreases c.len(),
{
    if c.len() > 0 {
        assert(!is_path_sep(c[0]));
        assert forall|j: int| 0 <= j < c.drop_first().len() implies !is_path_sep(
            #[trigger] c.drop_first()[j],
        ) by {
            assert(c.drop_first()[j] == c[j + 1]);
        }
        lemma_sanitized_chars(c.drop_first());
        let head = sanitize_byte(c[0], false);
        assert forall|j: int| 0 <= j < head.len() implies component_char_ok(
            #[trigger] head[j],
        ) by {
            if needs_escape(c[0]) {
                assert(head[0] == '%');
                assert(head[1] == hex_char((c[0] / 16) as u8));
                assert(head[2] == hex_char((c[0] % 16) as u8));
                assert(component_char_ok(hex_char((c[0] / 16) as u8)));
                assert(component_char_ok(hex_char((c[0] % 16) as u8)));
            }
        }
        assert forall|j: int| 0 <= j < sanitized(c, false, false).len() implies component_char_ok(
            #[trigger] sanitized(c, false, false)[j],
        ) by {
            if j < head.len() {
                assert(sanitized(c, false, false)[j] == head[j]);
            } else {
                assert(sanitized(c, false, false)[j] == sanitized(c.drop_first(), false, false)[
                    j - head.len()]);
            }
        }
    }
}

proof fn lemma_sanitized_dot_inv(c: Seq<u8>)
    requires
        sanitized(c, false, false) == seq!['.'],
    ensures
        c =~= seq![46u8],
{
    assert(sanitized(c, false, false).len() == 1);
    if c.len() == 0 {
        assert(sanitized(c, false, false) == Seq::<char>::empty());
        assert(false);
    }
    let head = sanitize_byte(c[0], false);
    let tail = sanitized(c.drop_first(), false, false);
    assert(sanitized(c, false, false) == head + tail);
    assert(sanitized(c, false, false)[0] == '.');
    if needs_escape(c[0]) {
        assert(sanitized(c, false, false)[0] == '%');
        assert(false);
    } else if is_sep_byte(c[0]) {
        assert(sanitized(c, false, false)[0] == '_');
        assert(false);
    } else {
        assert(sanitized(c, false, false)[0] == c[0] as char);
        assert(c[0] == 46);
        assert(head.len() + tail.len() == 1);
        assert(tail.len() == 0);
        lemma_sanitized_min_len(c.drop_first(), false);
        assert(c.len() == 1);
    }
}

proof fn lemma_sanitized_not_dots(c: Seq<u8>)
    requires
        keep_component(c),
    ensures
        sanitized(c, false, false) != seq!['.'],
        sanitized(c, false, false) != seq!['.', '.'],
{
    let out = sanitized(c, false, false);
    if out == seq!['.'] {
        lemma_sanitized_dot_inv(c);
        assert(c == seq![46u8]);
    }
    if out == seq!['.', '.'] {
        assert(out.len() == 2);
        if c.len() == 0 {
            assert(sanitized(c, false, false) == Seq::<char>::empty());
            assert(false);
        }
        let head = sanitize_byte(c[0], false);
        let tail = sanitized(c.drop_first(), false, false);
        assert(out == head + tail);
        assert(out[0] == '.');
        if needs_escape(c[0]) {
            assert(out[0] == '%');
            assert(false);
        } else if is_sep_byte(c[0]) {
            assert(out[0] == '_');
            assert(false);
        } else {
            assert(out[0] == c[0] as char);
            assert(c[0] == 46);
            assert(head.len() == 1);
            assert(tail.len() == 1);
            assert(out[1] == tail[0]);
            assert(tail =~= seq!['.']);
            lemma_sanitized_dot_inv(c.drop_first());
            assert(c =~= seq![46u8, 46u8]);
        }
    }
}

proof fn lemma_component_out_safe(c: Seq<u8>)
    requires
        forall|j: int| 0 <= j < c.len() ==> !is_path_sep(#[trigger] c[j]),
    ensures
        forall|k: int|
            0 <= k < component_out(c).len() ==> safe_component(#[trigger] component_out(c)[k]),
{
    if keep_component(c) {
        lemma_sanitized_min_len(c, false);
        lemma_sanitized_chars(c);
        lemma_sanitized_not_dots(c);
        assert(component_out(c)[0] == sanitized(c, false, false));
    }
}

/// The sanitizer never produces an unsafe path: every component it
/// returns is nonempty, is neither `.` nor `..`, and holds printable
/// non-separator characters only, so the resulting path is relative and
/// free of traversal.
pub proof fn lemma_path_components_safe(s: Seq<u8>)
    ensures
        forall|k: int|
            0 <= k < path_components(s).len() ==> safe_component(#[trigger] path_components(s)[k]),
    decreases s.len(),
{
    lemma_first_sep(s);
    let i = first_sep(s);
    if 0 <= i < s.len() {
        let c = s.subrange(0, i);
        assert forall|j: int| 0 <= j < c.len() implies !is_path_sep(#[trigger] c[j]) by {
            assert(c[j] == s[j]);
        }
        lemma_component_out_safe(c);
        lemma_path_components_safe(s.subrange(i + 1, s.len() as int));
        assert forall|k: int| 0 <= k < path_components(s).len() implies safe_component(
            #[trigger] path_components(s)[k],
        ) by {
            if k < component_out(c).len() {
                assert(path_components(s)[k] == component_out(c)[k]);
            } else {
                assert(path_components(s)[k] == path_components(s.subrange(i + 1, s.len() as int))[
                    k - component_out(c).len()]);
            }
        }
    } else {
        assert forall|j: int| 0 <= j < s.len() implies !is_path_sep(#[trigger] s[j]) by {}
        lemma_component_out_safe(s);
    }
}

/// The bytes of an ASCII character sequence.
pub open spec fn component_bytes(c: Seq<char>) -> Seq<u8> {
    c.map_values(|ch: char| ch as u8)
}

/// A list of path components rendered as one pathname, the components
/// joined by `/`.
pub open spec fn render_path(cs: Seq<Seq<char>>) -> Seq<u8>
    decreases cs.len(),
{
    if cs.len() == 0 {
        Seq::empty()
    } else if cs.len() == 1 {
        component_bytes(cs[0])
    } else {
        component_bytes(cs[0]) + seq![47u8] + render_path(cs.drop_first())
    }
}

proof fn char_ok_bytes(ch: char)
    requires
        component_char_ok(ch),
    ensures
        !is_path_sep(ch as u8),
        !needs_escape(ch as u8),
        !is_sep_byte(ch as u8),
        (ch as u8) as char == ch,
{
    assert(0x20 <= (ch as u32) && (ch as u32) < 0x7f);
    assert(ch as u8 == ch as u32 as u8);
    assert(ch as u32 != 47 && ch as u32 != 92);
}

proof fn lemma_safe_bytes(c: Seq<char>)
    requires
        forall|j: int| 0 <= j < c.len() ==> component_char_ok(#[trigger] c[j]),
    ensures
        forall|j: int|
            0 <= j < component_bytes(c).len() ==> !is_path_sep(#[trigger] component_bytes(c)[j])
                && !needs_escape(component_bytes(c)[j]) && !is_sep_byte(component_bytes(c)[j]),
{
    assert forall|j: int| 0 <= j < component_bytes(c).len() implies !is_path_sep(
        #[trigger] component_bytes(c)[j],
    ) && !needs_escape(component_bytes(c)[j]) && !is_sep_byte(component_bytes(c)[j]) by {
        assert(component_char_ok(c[j]));
        assert(component_bytes(c)[j] == c[j] as u8);
        char_ok_bytes(c[j]);
    }
}

proof fn lemma_sanitize_identity(c: Seq<char>)
    requires
        forall|j: int| 0 <= j < c.len() ==> component_char_ok(#[trigger] c[j]),
    ensures
        sanitized(component_bytes(c), false, false) == c,
    decreases c.len(),
{
    let bs = component_bytes(c);
    if c.len() == 0 {
        assert(bs.len() == 0);
        assert(sanitized(bs, false, false) =~= c);
    } else {
        assert(component_char_ok(c[0]));
        assert(bs[0] == c[0] as u8);
        char_ok_bytes(c[0]);
        assert(!needs_escape(bs[0]) && !is_sep_byte(bs[0]));
        assert(sanitize_byte(bs[0], false) == seq![bs[0] as char]);
        assert(bs[0] as char == c[0]);
        assert forall|j: int| 0 <= j < c.drop_first().len() implies component_char_ok(
            #[trigger] c.drop_first()[j],
        ) by {
            assert(c.drop_first()[j] == c[j + 1]);
        }
        lemma_sanitize_identity(c.drop_first());
        assert(bs.drop_first() =~= component_bytes(c.drop_first()));
        assert(sanitized(bs, false, false) =~= c);
    }
}

proof fn lemma_render_reparse(cs: Seq<Seq<char>>)
    requires
        forall|k: int| 0 <= k < cs.len() ==> safe_component(#[trigger] cs[k]),
    ensures
        path_components(render_path(cs)) == cs,
    decreases cs.len(),
{
    if cs.len() == 0 {
        let r = render_path(cs);
        assert(r.len() == 0);
        lemma_first_sep_unique(r, 0);
        assert(path_components(r) =~= cs);
    } else {
        let c = cs[0];
        assert(safe_component(c));
        let bs = component_bytes(c);
        lemma_safe_bytes(c);
        lemma_sanitize_identity(c);
        assert(keep_component(bs)) by {
            assert(bs.len() == c.len() > 0);
            if bs == seq![46u8] {
                assert(c.len() == 1);
                assert(bs[0] == 46);
                assert(c[0] as u8 == 46);
                char_ok_bytes(c[0]);
                assert(c[0] == '.');
                assert(c =~= seq!['.']);
            }
            if bs == seq![46u8, 46u8] {
                assert(c.len() == 2);
                assert(bs[0] == 46 && bs[1] == 46);
                assert(c[0] as u8 == 46 && c[1] as u8 == 46);
                char_ok_bytes(c[0]);
                char_ok_bytes(c[1]);
                assert(c[0] == '.' && c[1] == '.');
                assert(c =~= seq!['.', '.']);
            }
        }
        if cs.len() == 1 {
            let r = render_path(cs);
            assert(r == bs);
            lemma_first_sep_unique(r, r.len() as int);
            assert(path_components(r) == component_out(r));
            assert(component_out(r) =~= cs);
        } else {
            let rest = render_path(cs.drop_first());
            let r = render_path(cs);
            assert(r == bs + seq![47u8] + rest);
            assert(is_path_sep(r[bs.len() as int]));
            assert forall|j: int| 0 <= j < bs.len() implies !is_path_sep(#[trigger] r[j]) by {
                assert(r[j] == bs[j]);
            }
            lemma_first_sep_unique(r, bs.len() as int);
            assert(r.subrange(0, bs.len() as int) =~= bs);
            assert(r.subrange(bs.len() as int + 1, r.len() as int) =~= rest);
            assert forall|k: int| 0 <= k < cs.drop_first().len() implies safe_component(
                #[trigger] cs.drop_first()[k],
            ) by {
                assert(cs.drop_first()[k] == cs[k + 1]);
            }
            lemma_render_reparse(cs.drop_first());
            assert(path_components(r) == component_out(bs) + cs.drop_first());
            assert(component_out(bs) =~= seq![c]);
            assert(seq![c] + cs.drop_first() =~= cs);
        }
    }
}

/// The sanitizer is idempotent: rendering the components it produced and
/// parsing the rendered pathname again yields the same components.
pub proof fn lemma_sanitize_path_idempotent(s: Seq<u8>)
    ensures
        path_components(render_path(path_components(s))) == path_components(s),
{
    lemma_path_components_safe(s);
    lemma_render_reparse(path_components(s));
}

} // verus!
