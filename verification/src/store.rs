//! The fragment store's document format.
//!
//! Documents are UTF-8 JSON text, one flat object per file. The free-form
//! `raw` field (captured source text) is base64-encoded on write and decoded
//! on read, so the stored document stays opaque-safe; the `name` field is a
//! plain JSON string with the usual escapes. Reading a document that is
//! malformed, or whose `raw` field is not a base64 encoding of UTF-8 text,
//! is a store error.

use vstd::prelude::*;

use vstd::string::{StrSliceExecFns, StringExecFns};

verus! {

/// The hexadecimal digit character for `n` (lower case).
pub open spec fn hex_digit(n: int) -> char {
    if n == 0 {
        '0'
    } else if n == 1 {
        '1'
    } else if n == 2 {
        '2'
    } else if n == 3 {
        '3'
    } else if n == 4 {
        '4'
    } else if n == 5 {
        '5'
    } else if n == 6 {
        '6'
    } else if n == 7 {
        '7'
    } else if n == 8 {
        '8'
    } else if n == 9 {
        '9'
    } else if n == 10 {
        'a'
    } else if n == 11 {
        'b'
    } else if n == 12 {
        'c'
    } else if n == 13 {
        'd'
    } else if n == 14 {
        'e'
    } else {
        'f'
    }
}

/// The value of a hexadecimal digit character, or -1.
pub open spec fn hex_val(c: char) -> int {
    if c == '0' {
        0
    } else if c == '1' {
        1
    } else if c == '2' {
        2
    } else if c == '3' {
        3
    } else if c == '4' {
        4
    } else if c == '5' {
        5
    } else if c == '6' {
        6
    } else if c == '7' {
        7
    } else if c == '8' {
        8
    } else if c == '9' {
        9
    } else if c == 'a' {
        10
    } else if c == 'b' {
        11
    } else if c == 'c' {
        12
    } else if c == 'd' {
        13
    } else if c == 'e' {
        14
    } else if c == 'f' {
        15
    } else if c == 'A' {
        10
    } else if c == 'B' {
        11
    } else if c == 'C' {
        12
    } else if c == 'D' {
        13
    } else if c == 'E' {
        14
    } else if c == 'F' {
        15
    } else {
        -1
    }
}

/// Whether `c` is a decimal digit.
pub open spec fn is_dig(c: char) -> bool {
    0 <= hex_val(c) < 10
}

/// Whether `c` is a control character, which JSON strings must escape.
pub open spec fn is_ctl(c: char) -> bool {
    (c as u32) < 32
}

/// The JSON escape of one character inside a string member.
pub open spec fn esc_char(c: char) -> Seq<char> {
    if c == '"' {
        seq!['\\', '"']
    } else if c == '\\' {
        seq!['\\', '\\']
    } else if c == '\n' {
        seq!['\\', 'n']
    } else if c == '\r' {
        seq!['\\', 'r']
    } else if c == '\t' {
        seq!['\\', 't']
    } else if is_ctl(c) {
        seq!['\\', 'u', '0', '0', hex_digit((c as u32 / 16) as int), hex_digit((c as u32 % 16) as int)]
    } else {
        seq![c]
    }
}

/// The JSON escape of a whole string member's contents.
pub open spec fn esc(s: Seq<char>) -> Seq<char>
    decreases s.len(),
{
    if s.len() == 0 {
        Seq::<char>::empty()
    } else {
        esc_char(s[0]) + esc(s.drop_first())
    }
}

/// The character named by a single-character escape code.
pub open spec fn unesc1(e: char) -> char {
    if e == '"' {
        '"'
    } else if e == '\\' {
        '\\'
    } else if e == '/' {
        '/'
    } else if e == 'n' {
        '\n'
    } else if e == 'r' {
        '\r'
    } else if e == 't' {
        '\t'
    } else if e == 'b' {
        '\u{0008}'
    } else {
        '\u{000c}'
    }
}

/// Scan a JSON string member's contents starting at `i`, up to and including
/// the closing quote. Yields the unescaped text and the index just past the
/// quote; `None` on any ill-formed content.
pub open spec fn scan_string(s: Seq<char>, i: int) -> Option<(Seq<char>, int)>
    decreases s.len() - i,
{
    if !(0 <= i < s.len()) {
        None
    } else if s[i] == '"' {
        Some((Seq::<char>::empty(), i + 1))
    } else if s[i] == '\\' {
        if i + 1 < s.len() {
            let e = s[i + 1];
            if e == '"' || e == '\\' || e == '/' || e == 'n' || e == 'r' || e == 't' || e == 'b'
                || e == 'f' {
                match scan_string(s, i + 2) {
                    None => None,
                    Some(p) => Some((seq![unesc1(e)] + p.0, p.1)),
                }
            } else if e == 'u' {
                if i + 5 < s.len() && hex_val(s[i + 2]) >= 0 && hex_val(s[i + 3]) >= 0 && hex_val(
                    s[i + 4],
                ) >= 0 && hex_val(s[i + 5]) >= 0 {
                    let v = hex_val(s[i + 2]) * 4096 + hex_val(s[i + 3]) * 256 + hex_val(s[i + 4])
                        * 16 + hex_val(s[i + 5]);
                    if !(0xD800 <= v < 0xE000) {
                        match scan_string(s, i + 6) {
                            None => None,
                            Some(p) => Some((seq![(v as u32) as char] + p.0, p.1)),
                        }
                    } else {
                        None
                    }
                } else {
                    None
                }
            } else {
                None
            }
        } else {
            None
        }
    } else if is_ctl(s[i]) {
        None
    } else {
        match scan_string(s, i + 1) {
            None => None,
            Some(p) => Some((seq![s[i]] + p.0, p.1)),
        }
    }
}

/// Escaping appends per character.
pub proof fn lemma_esc_push(s: Seq<char>, c: char)
    ensures
        esc(s.push(c)) == esc(s) + esc_char(c),
    decreases s.len(),
{
    let p = s.push(c);
    if s.len() == 0 {
        assert(p.len() == 1);
        assert(p[0] == c);
        assert(p.drop_first() =~= Seq::<char>::empty());
        assert(esc(p.drop_first()) == Seq::<char>::empty());
        assert(esc(p) =~= esc_char(c) + Seq::<char>::empty());
        assert(esc_char(c) + Seq::<char>::empty() =~= Seq::<char>::empty() + esc_char(c));
    } else {
        assert(p[0] == s[0]);
        assert(p.drop_first() =~= s.drop_first().push(c));
        lemma_esc_push(s.drop_first(), c);
        assert(esc(p) == esc_char(s[0]) + (esc(s.drop_first()) + esc_char(c)));
        assert(esc_char(s[0]) + (esc(s.drop_first()) + esc_char(c)) =~= (esc_char(s[0]) + esc(
            s.drop_first(),
        )) + esc_char(c));
    }
}

/// Hexadecimal digits decode back to their value, and are never whitespace.
pub proof fn lemma_hex_round_trip()
    ensures
        forall|n: int| 0 <= n < 16 ==> #[trigger] hex_val(hex_digit(n)) == n,
        forall|n: int| 0 <= n < 16 ==> !is_ws(#[trigger] hex_digit(n)),
{
}

/// Scanning an escaped text followed by a closing quote recovers exactly the
/// text: the string-member encoding is injective and lossless, whatever the
/// text holds (quotes, backslashes, newlines, other control characters).
pub proof fn lemma_scan_esc(s: Seq<char>, i: int, text: Seq<char>)
    requires
        0 <= i,
        i + esc(text).len() < s.len(),
        s.subrange(i, i + esc(text).len()) == esc(text),
        s[i + esc(text).len()] == '"',
    ensures
        scan_string(s, i) == Some((text, i + esc(text).len() + 1)),
    decreases text.len(),
{
    if text.len() == 0 {
        assert(esc(text).len() == 0);
        assert(s[i] == '"');
        assert(text =~= Seq::<char>::empty());
    } else {
        let c = text[0];
        let t = text.drop_first();
        let ec = esc_char(c);
        let et = esc(t);
        assert(esc(text) == ec + et);
        let l = ec.len() as int;
        assert forall|k: int| 0 <= k < esc(text).len() implies s[i + k] == esc(text)[k] by {
            assert(s.subrange(i, i + esc(text).len())[k] == s[i + k]);
        }
        assert forall|k: int| 0 <= k < l implies s[i + k] == ec[k] by {
            assert(esc(text)[k] == ec[k]);
        }
        assert(s[i] == s[i + 0]);
        assert(s[i] == ec[0]);
        assert(s.subrange(i + l, i + l + et.len()) =~= et) by {
            assert forall|k: int| 0 <= k < et.len() implies s.subrange(
                i + l,
                i + l + et.len(),
            )[k] == et[k] by {
                assert(s.subrange(i + l, i + l + et.len())[k] == s[i + l + k]);
                assert(esc(text)[l + k] == et[k]);
            }
        }
        assert(s[i + l + et.len()] == '"');
        lemma_scan_esc(s, i + l, t);
        if c == '"' || c == '\\' || c == '\n' || c == '\r' || c == '\t' {
            assert(s[i] == '\\');
            assert(seq![unesc1(s[i + 1])] + t =~= text);
        } else if is_ctl(c) {
            assert(s[i] == '\\' && s[i + 1] == 'u' && s[i + 2] == '0' && s[i + 3] == '0');
            lemma_hex_round_trip();
            let cv: u32 = c as u32;
            let hi: u32 = cv / 16;
            let lo: u32 = cv % 16;
            assert(hi < 16 && lo < 16 && hi * 16 + lo == cv) by (nonlinear_arith)
                requires
                    hi == cv / 16,
                    lo == cv % 16,
                    cv < 32;
            assert(s[i + 4] == hex_digit(hi as int) && s[i + 5] == hex_digit(lo as int));
            assert(hex_val(s[i + 2]) == 0 && hex_val(s[i + 3]) == 0);
            assert(hex_val(s[i + 4]) == hi && hex_val(s[i + 5]) == lo);
            let v = hex_val(s[i + 2]) * 4096 + hex_val(s[i + 3]) * 256 + hex_val(s[i + 4]) * 16
                + hex_val(s[i + 5]);
            assert(v == cv);
            assert(!(0xD800 <= v < 0xE000));
            vstd::utf8::char_u32_cast(c, v as u32);
            assert((v as u32) as char == c);
            assert(seq![(v as u32) as char] + t =~= text);
        } else {
            assert(ec == seq![c]);
            assert(s[i] == c);
            assert(seq![s[i]] + t =~= text);
        }
    }
}

/// The base64 text that the standard engine produces for the UTF-8 bytes of
/// a text.
pub uninterp spec fn b64_of(text: Seq<char>) -> Seq<char>;

/// The text whose UTF-8 bytes a base64 text decodes to, or `None` when the
/// input is not a valid standard-alphabet encoding of UTF-8 bytes.
pub uninterp spec fn b64_decoded(text: Seq<char>) -> Option<Seq<char>>;

/// Relies on the `base64` crate's standard-alphabet engine
/// (`engine::general_purpose::STANDARD`, `Engine::encode`): the encoding
/// depends on the input bytes alone, decoding an encoded text yields exactly
/// the input again, and empty input encodes to empty output.
#[verifier::external_body]
fn b64_encode(text: &str) -> (r: String)
    ensures
        r@ == b64_of(text@),
        b64_decoded(r@) == Some(text@),
        text@.len() == 0 ==> r@.len() == 0,
{
    base64::Engine::encode(&base64::engine::general_purpose::STANDARD, text.as_bytes())
}

/// Relies on the `base64` crate's standard-alphabet engine
/// (`Engine::decode`), combined with UTF-8 validation of the decoded bytes:
/// the outcome depends on the input text alone, and is `None` exactly when
/// the input is not a valid padded standard-alphabet encoding of UTF-8 text.
#[verifier::external_body]
fn b64_decode(text: &str) -> (r: Option<String>)
    ensures
        match r {
            Some(d) => b64_decoded(text@) == Some(d@),
            None => b64_decoded(text@) is None,
        },
{
    match base64::Engine::decode(&base64::engine::general_purpose::STANDARD, text.as_bytes()) {
        Ok(bytes) => match String::from_utf8(bytes) {
            Ok(s) => Some(s),
            Err(_) => None,
        },
        Err(_) => None,
    }
}

/// Relies on String::push: appends exactly the one character.
#[verifier::external_body]
pub fn push_char(s: &mut String, c: char)
    ensures
        final(s)@ == old(s)@ + seq![c],
{
    s.push(c);
}

/// Relies on char::from_u32: yields the character with the given scalar
/// value (total outside the surrogate range and below the scalar maximum).
#[verifier::external_body]
fn char_from_u32(v: u32) -> (c: char)
    requires
        v < 0xD800 || (0xE000 <= v && v <= 0x10FFFF),
    ensures
        c == (v as char),
{
    char::from_u32(v).unwrap()
}

/// The characters of a string slice, as a vector.
pub fn str_chars(s: &str) -> (r: Vec<char>)
    ensures
        r@ == s@,
{
    let n = s.unicode_len();
    let mut v: Vec<char> = Vec::new();
    let mut i: usize = 0;
    while i < n
        invariant
            n == s@.len(),
            i <= n,
            v@ == s@.take(i as int),
        decreases n - i,
    {
        let c = s.get_char(i);
        v.push(c);
        proof {
            assert(v@ =~= s@.take(i as int + 1));
        }
        i = i + 1;
    }
    proof {
        assert(s@.take(n as int) =~= s@);
    }
    v
}

/// The string holding exactly the given characters.
pub fn chars_string(v: &Vec<char>) -> (r: String)
    ensures
        r@ == v@,
{
    let mut s = String::new();
    let mut i: usize = 0;
    while i < v.len()
        invariant
            i <= v.len(),
            s@ == v@.take(i as int),
        decreases v.len() - i,
    {
        push_char(&mut s, v[i]);
        proof {
            assert(s@ =~= v@.take(i as int + 1));
        }
        i = i + 1;
    }
    proof {
        assert(v@.take(v.len() as int) =~= v@);
    }
    s
}

/// The hexadecimal digit character for `n`, executable form.
fn hexd(n: u32) -> (c: char)
    requires
        n < 16,
    ensures
        c == hex_digit(n as int),
{
    if n == 0 {
        '0'
    } else if n == 1 {
        '1'
    } else if n == 2 {
        '2'
    } else if n == 3 {
        '3'
    } else if n == 4 {
        '4'
    } else if n == 5 {
        '5'
    } else if n == 6 {
        '6'
    } else if n == 7 {
        '7'
    } else if n == 8 {
        '8'
    } else if n == 9 {
        '9'
    } else if n == 10 {
        'a'
    } else if n == 11 {
        'b'
    } else if n == 12 {
        'c'
    } else if n == 13 {
        'd'
    } else if n == 14 {
        'e'
    } else {
        'f'
    }
}

/// The value of a hexadecimal digit character, executable form.
fn hexv(c: char) -> (r: i32)
    ensures
        r as int == hex_val(c),
{
    if c == '0' {
        0
    } else if c == '1' {
        1
    } else if c == '2' {
        2
    } else if c == '3' {
        3
    } else if c == '4' {
        4
    } else if c == '5' {
        5
    } else if c == '6' {
        6
    } else if c == '7' {
        7
    } else if c == '8' {
        8
    } else if c == '9' {
        9
    } else if c == 'a' {
        10
    } else if c == 'b' {
        11
    } else if c == 'c' {
        12
    } else if c == 'd' {
        13
    } else if c == 'e' {
        14
    } else if c == 'f' {
        15
    } else if c == 'A' {
        10
    } else if c == 'B' {
        11
    } else if c == 'C' {
        12
    } else if c == 'D' {
        13
    } else if c == 'E' {
        14
    } else if c == 'F' {
        15
    } else {
        -1
    }
}

/// Append the escaped form of `s` to `out`.
fn esc_append(out: &mut String, s: &str)
    ensures
        final(out)@ == old(out)@ + esc(s@),
{
    let n = s.unicode_len();
    let mut i: usize = 0;
    proof {
        assert(s@.take(0) =~= Seq::<char>::empty());
        assert(esc(s@.take(0)) == Seq::<char>::empty());
        assert(out@ =~= old(out)@ + esc(s@.take(0)));
    }
    while i < n
        invariant
            n == s@.len(),
            i <= n,
            out@ == old(out)@ + esc(s@.take(i as int)),
        decreases n - i,
    {
        let c = s.get_char(i);
        let ghost before = out@;
        if c == '"' {
            push_char(out, '\\');
            push_char(out, '"');
        } else if c == '\\' {
            push_char(out, '\\');
            push_char(out, '\\');
        } else if c == '\n' {
            push_char(out, '\\');
            push_char(out, 'n');
        } else if c == '\r' {
            push_char(out, '\\');
            push_char(out, 'r');
        } else if c == '\t' {
            push_char(out, '\\');
            push_char(out, 't');
        } else if (c as u32) < 32 {
            let cv = c as u32;
            push_char(out, '\\');
            push_char(out, 'u');
            push_char(out, '0');
            push_char(out, '0');
            push_char(out, hexd(cv / 16));
            push_char(out, hexd(cv % 16));
        } else {
            push_char(out, c);
        }
        proof {
            assert(out@ =~= before + esc_char(c));
            lemma_esc_push(s@.take(i as int), c);
            assert(s@.take(i as int).push(c) =~= s@.take(i as int + 1));
            assert(out@ =~= old(out)@ + esc(s@.take(i as int + 1)));
        }
        i = i + 1;
    }
    proof {
        assert(s@.take(n as int) =~= s@);
    }
}

/// Scan a JSON string member starting at `start`, executable form: exactly
/// the specification-level `scan_string`.
fn scan_string_exec(s: &Vec<char>, start: usize) -> (r: Option<(Vec<char>, usize)>)
    ensures
        match r {
            Some(p) => scan_string(s@, start as int) == Some((p.0@, p.1 as int)) && p.1 <= s@.len(),
            None => scan_string(s@, start as int) is None,
        },
{
    let mut acc: Vec<char> = Vec::new();
    let mut i: usize = start;
    loop
        invariant
            start <= i,
            scan_string(s@, start as int) == (match scan_string(s@, i as int) {
                None => None::<(Seq<char>, int)>,
                Some(p) => Some((acc@ + p.0, p.1)),
            }),
        decreases s@.len() - i,
    {
        if i >= s.len() {
            return None;
        }
        let c = s[i];
        if c == '"' {
            proof {
                assert(acc@ + Seq::<char>::empty() =~= acc@);
            }
            return Some((acc, i + 1));
        }
        let ghost acc0 = acc@;
        if c == '\\' {
            if s.len() - i <= 1 {
                return None;
            }
            let e = s[i + 1];
            if e == '"' || e == '\\' || e == '/' || e == 'n' || e == 'r' || e == 't' || e == 'b'
                || e == 'f' {
                let u = if e == '"' {
                    '"'
                } else if e == '\\' {
                    '\\'
                } else if e == '/' {
                    '/'
                } else if e == 'n' {
                    '\n'
                } else if e == 'r' {
                    '\r'
                } else if e == 't' {
                    '\t'
                } else if e == 'b' {
                    '\u{0008}'
                } else {
                    '\u{000c}'
                };
                acc.push(u);
                proof {
                    assert(u == unesc1(e));
                    assert forall|p0: Seq<char>| true implies acc0 + (seq![u] + p0) =~= acc@
                        + p0 by {}
                }
                i = i + 2;
            } else if e == 'u' {
                if s.len() - i <= 5 {
                    return None;
                }
                let h1 = hexv(s[i + 2]);
                let h2 = hexv(s[i + 3]);
                let h3 = hexv(s[i + 4]);
                let h4 = hexv(s[i + 5]);
                if h1 < 0 || h2 < 0 || h3 < 0 || h4 < 0 {
                    return None;
                }
                let v: u32 = (h1 * 4096 + h2 * 256 + h3 * 16 + h4) as u32;
                if 0xD800 <= v && v < 0xE000 {
                    return None;
                }
                let u = char_from_u32(v);
                acc.push(u);
                proof {
                    assert forall|p0: Seq<char>| true implies acc0 + (seq![u] + p0) =~= acc@
                        + p0 by {}
                }
                i = i + 6;
            } else {
                return None;
            }
        } else if (c as u32) < 32 {
            return None;
        } else {
            acc.push(c);
            proof {
                assert forall|p0: Seq<char>| true implies acc0 + (seq![c] + p0) =~= acc@ + p0 by {}
            }
            i = i + 1;
        }
    }
}

/// The opening of a fragment document, up to the code value.
pub open spec fn lit_code() -> Seq<char> {
    seq!['{', '"', 'c', 'o', 'd', 'e', '"', ':']
}

/// The member separator and opening of the name string.
pub open spec fn lit_name() -> Seq<char> {
    seq![',', '"', 'n', 'a', 'm', 'e', '"', ':', '"']
}

/// The member separator and opening of the raw string.
pub open spec fn lit_raw() -> Seq<char> {
    seq![',', '"', 'r', 'a', 'w', '"', ':', '"']
}

/// The opening of an interface record document, up to the raw string.
pub open spec fn lit_iface() -> Seq<char> {
    seq!['{', '"', 'r', 'a', 'w', '"', ':', '"']
}

/// The closing of a string member followed by the end of the object.
pub open spec fn lit_end() -> Seq<char> {
    seq!['"', '}']
}

/// Canonical decimal digits of `n`, for 0 through 255.
pub open spec fn dec_digits(n: int) -> Seq<char> {
    if n < 10 {
        seq![hex_digit(n)]
    } else if n < 100 {
        seq![hex_digit(n / 10), hex_digit(n % 10)]
    } else {
        seq![hex_digit(n / 100), hex_digit((n / 10) % 10), hex_digit(n % 10)]
    }
}

/// The document text of a command fragment: a flat JSON object holding the
/// display name, the numeric code, and the base64 `raw` member.
pub open spec fn fragment_text(name: Seq<char>, code: u8, raw_b64: Seq<char>) -> Seq<char> {
    lit_code() + dec_digits(code as int) + lit_name() + esc(name) + seq!['"'] + lit_raw() + esc(
        raw_b64,
    ) + lit_end()
}

/// The document text of the interface capture record: a flat JSON object
/// holding only the base64 `raw` member.
pub open spec fn interface_text(raw_b64: Seq<char>) -> Seq<char> {
    lit_iface() + esc(raw_b64) + lit_end()
}

/// Whether `lit` occurs in `s` at position `i`.
pub open spec fn match_at(s: Seq<char>, i: int, lit: Seq<char>) -> bool {
    0 <= i && i + lit.len() <= s.len() && s.subrange(i, i + lit.len()) == lit
}

/// Scan the canonical decimal of a code value at `i`: one to three digits,
/// no leading zero, at most 255, not followed by another digit.
pub open spec fn scan_code(s: Seq<char>, i: int) -> Option<(u8, int)> {
    if !(0 <= i < s.len() && is_dig(s[i])) {
        None
    } else {
        let d0 = hex_val(s[i]);
        if i + 1 < s.len() && is_dig(s[i + 1]) {
            if d0 == 0 {
                None
            } else {
                let d1 = hex_val(s[i + 1]);
                if i + 2 < s.len() && is_dig(s[i + 2]) {
                    let d2 = hex_val(s[i + 2]);
                    let v = d0 * 100 + d1 * 10 + d2;
                    if v <= 255 && !(i + 3 < s.len() && is_dig(s[i + 3])) {
                        Some((v as u8, i + 3))
                    } else {
                        None
                    }
                } else {
                    Some(((d0 * 10 + d1) as u8, i + 2))
                }
            }
        } else {
            Some((d0 as u8, i + 1))
        }
    }
}

/// JSON insignificant whitespace.
pub open spec fn is_ws(c: char) -> bool {
    c == ' ' || c == '\t' || c == '\n' || c == '\r'
}

/// The first non-whitespace index at or after `i` (or the text's length).
pub open spec fn skip_ws(s: Seq<char>, i: int) -> int
    decreases s.len() - i,
{
    if !(0 <= i < s.len()) {
        s.len() as int
    } else if is_ws(s[i]) {
        skip_ws(s, i + 1)
    } else {
        i
    }
}

/// The quoted `name` member key.
pub open spec fn key_name() -> Seq<char> {
    seq!['"', 'n', 'a', 'm', 'e', '"']
}

/// The quoted `code` member key.
pub open spec fn key_code() -> Seq<char> {
    seq!['"', 'c', 'o', 'd', 'e', '"']
}

/// The quoted `raw` member key.
pub open spec fn key_raw() -> Seq<char> {
    seq!['"', 'r', 'a', 'w', '"']
}

/// One parsed object member: exactly one of the three known members, and the
/// index just past its value.
#[verifier::ext_equal]
pub struct MemberV {
    pub name: Option<Seq<char>>,
    pub code: Option<u8>,
    pub raw: Option<Seq<char>>,
    pub end: int,
}

/// Scan one object member at `i` (whitespace allowed around the key, the
/// colon and the value): a `name` or `raw` member carries a string value, a
/// `code` member the decimal code. Unknown keys or ill-formed values fail.
pub open spec fn scan_member(s: Seq<char>, i: int) -> Option<MemberV> {
    let k = skip_ws(s, i);
    if match_at(s, k, key_name()) {
        let c = skip_ws(s, k + 6);
        if c < s.len() && s[c] == ':' {
            let v = skip_ws(s, c + 1);
            if v < s.len() && s[v] == '"' {
                match scan_string(s, v + 1) {
                    None => None,
                    Some(p) => Some(MemberV { name: Some(p.0), code: None, raw: None, end: p.1 }),
                }
            } else {
                None
            }
        } else {
            None
        }
    } else if match_at(s, k, key_code()) {
        let c = skip_ws(s, k + 6);
        if c < s.len() && s[c] == ':' {
            let v = skip_ws(s, c + 1);
            match scan_code(s, v) {
                None => None,
                Some(p) => Some(MemberV { name: None, code: Some(p.0), raw: None, end: p.1 }),
            }
        } else {
            None
        }
    } else if match_at(s, k, key_raw()) {
        let c = skip_ws(s, k + 5);
        if c < s.len() && s[c] == ':' {
            let v = skip_ws(s, c + 1);
            if v < s.len() && s[v] == '"' {
                match scan_string(s, v + 1) {
                    None => None,
                    Some(p) => Some(MemberV { name: None, code: None, raw: Some(p.0), end: p.1 }),
                }
            } else {
                None
            }
        } else {
            None
        }
    } else {
        None
    }
}

/// The string value held by exactly one of three members, if exactly one.
pub open spec fn pick_str(
    a: Option<Seq<char>>,
    b: Option<Seq<char>>,
    c: Option<Seq<char>>,
) -> Option<Seq<char>> {
    if a is Some {
        if b is Some || c is Some {
            None
        } else {
            a
        }
    } else if b is Some {
        if c is Some {
            None
        } else {
            b
        }
    } else {
        c
    }
}

/// The code value held by exactly one of three members, if exactly one.
pub open spec fn pick_code(a: Option<u8>, b: Option<u8>, c: Option<u8>) -> Option<u8> {
    if a is Some {
        if b is Some || c is Some {
            None
        } else {
            a
        }
    } else if b is Some {
        if c is Some {
            None
        } else {
            b
        }
    } else {
        c
    }
}

/// Parse a fragment document text: a flat JSON object holding the `name`,
/// `code` and `raw` members, each exactly once, in any member order, with
/// insignificant whitespace allowed between tokens; or `None` when the text
/// is not such a document.
pub open spec fn parse_fragment_text(s: Seq<char>) -> Option<(Seq<char>, u8, Seq<char>)> {
    let o = skip_ws(s, 0);
    if !(o < s.len() && s[o] == '{') {
        None
    } else {
        match scan_member(s, o + 1) {
            None => None,
            Some(m1) => {
                let s1 = skip_ws(s, m1.end);
                if !(s1 < s.len() && s[s1] == ',') {
                    None
                } else {
                    match scan_member(s, s1 + 1) {
                        None => None,
                        Some(m2) => {
                            let s2 = skip_ws(s, m2.end);
                            if !(s2 < s.len() && s[s2] == ',') {
                                None
                            } else {
                                match scan_member(s, s2 + 1) {
                                    None => None,
                                    Some(m3) => {
                                        let e = skip_ws(s, m3.end);
                                        if !(e < s.len() && s[e] == '}' && skip_ws(s, e + 1)
                                            == s.len()) {
                                            None
                                        } else {
                                            let name = pick_str(m1.name, m2.name, m3.name);
                                            let code = pick_code(m1.code, m2.code, m3.code);
                                            let raw = pick_str(m1.raw, m2.raw, m3.raw);
                                            if name is Some && code is Some && raw is Some {
                                                Some(
                                                    (name->Some_0, code->Some_0, raw->Some_0),
                                                )
                                            } else {
                                                None
                                            }
                                        }
                                    },
                                }
                            }
                        },
                    }
                }
            },
        }
    }
}

/// Parse an interface record text: a flat JSON object holding exactly the
/// `raw` member, whitespace allowed; or `None`.
pub open spec fn parse_interface_text(s: Seq<char>) -> Option<Seq<char>> {
    let o = skip_ws(s, 0);
    if !(o < s.len() && s[o] == '{') {
        None
    } else {
        match scan_member(s, o + 1) {
            None => None,
            Some(m) => {
                let e = skip_ws(s, m.end);
                if m.raw is Some && e < s.len() && s[e] == '}' && skip_ws(s, e + 1) == s.len() {
                    m.raw
                } else {
                    None
                }
            },
        }
    }
}

/// The fully decoded contents of a fragment document text: parse, then
/// base64-decode the raw member.
pub open spec fn decoded_fragment(s: Seq<char>) -> Option<(Seq<char>, u8, Seq<char>)> {
    match parse_fragment_text(s) {
        None => None,
        Some(p) => match b64_decoded(p.2) {
            None => None,
            Some(raw) => Some((p.0, p.1, raw)),
        },
    }
}

/// The fully decoded contents of an interface record text.
pub open spec fn decoded_interface(s: Seq<char>) -> Option<Seq<char>> {
    match parse_interface_text(s) {
        None => None,
        Some(b) => b64_decoded(b),
    }
}

/// Scanning the canonical decimal of a code, followed by a non-digit,
/// recovers the code.
pub proof fn lemma_scan_code(s: Seq<char>, i: int, code: u8)
    requires
        0 <= i,
        i + dec_digits(code as int).len() < s.len(),
        s.subrange(i, i + dec_digits(code as int).len()) == dec_digits(code as int),
        !is_dig(s[i + dec_digits(code as int).len()]),
    ensures
        scan_code(s, i) == Some((code, i + dec_digits(code as int).len())),
{
    lemma_hex_round_trip();
    let n = code as int;
    let d = dec_digits(n);
    assert forall|k: int| 0 <= k < d.len() implies s[i + k] == d[k] by {
        assert(s.subrange(i, i + d.len())[k] == s[i + k]);
    }
    if n < 10 {
        assert(d[0] == hex_digit(n));
        assert(s.subrange(i, i + d.len())[0] == s[i + 0]);
        assert(s[i + 0] == hex_digit(n));
        assert(s[i] == hex_digit(n));
        assert(hex_val(s[i]) == n);
        assert(!is_dig(s[i + 1]));
    } else if n < 100 {
        assert(1 <= n / 10 <= 9 && 0 <= n % 10 <= 9 && (n / 10) * 10 + n % 10 == n)
            by (nonlinear_arith)
            requires
                10 <= n < 100;
        assert(s[i] == s[i + 0]);
        assert(s[i] == hex_digit(n / 10));
        assert(s[i + 1] == hex_digit(n % 10));
        assert(hex_val(s[i]) == n / 10);
        assert(hex_val(s[i + 1]) == n % 10);
        assert(!is_dig(s[i + 2]));
    } else {
        assert(1 <= n / 100 <= 2 && 0 <= (n / 10) % 10 <= 9 && 0 <= n % 10 <= 9 && (n / 100) * 100
            + ((n / 10) % 10) * 10 + n % 10 == n) by (nonlinear_arith)
            requires
                100 <= n <= 255;
        assert(s[i] == s[i + 0]);
        assert(s[i] == hex_digit(n / 100));
        assert(s[i + 1] == hex_digit((n / 10) % 10));
        assert(s[i + 2] == hex_digit(n % 10));
        assert(hex_val(s[i]) == n / 100);
        assert(hex_val(s[i + 1]) == (n / 10) % 10);
        assert(hex_val(s[i + 2]) == n % 10);
        assert(!is_dig(s[i + 3]));
    }
}

/// Encoding a fragment document and parsing it back recovers exactly the
/// name, the code and the base64 raw member, for any texts (braces, quotes
/// and newlines included): the document encoding is lossless.
proof fn lemma_member_code_at(s: Seq<char>, i: int, code: u8)
    requires
        0 <= i,
        i + 6 <= s.len(),
        s.subrange(i, i + 6) == key_code(),
        i + 6 < s.len() && s[i + 6] == ':',
        i + 7 + dec_digits(code as int).len() < s.len(),
        s.subrange(i + 7, i + 7 + dec_digits(code as int).len()) == dec_digits(code as int),
        !is_dig(s[i + 7 + dec_digits(code as int).len()]),
    ensures
        scan_member(s, i) == Some(
            MemberV {
                name: None,
                code: Some(code),
                raw: None,
                end: i + 7 + dec_digits(code as int).len(),
            },
        ),
{
    let d = dec_digits(code as int);
    assert(s[i] == s.subrange(i, i + 6)[0]);
    assert(s[i + 1] == s.subrange(i, i + 6)[1]);
    assert(s[i] == '"' && s[i + 1] == 'c');
    assert(skip_ws(s, i) == i);
    assert(!match_at(s, i, key_name())) by {
        if match_at(s, i, key_name()) {
            assert(s.subrange(i, i + 6)[1] == s[i + 1]);
            assert(key_name()[1] == 'n');
        }
    }
    assert(match_at(s, i, key_code()));
    assert(skip_ws(s, i + 6) == i + 6);
    lemma_hex_round_trip();
    assert(!is_ws(s[i + 7])) by {
        assert(s.subrange(i + 7, i + 7 + d.len())[0] == s[i + 7]);
        assert(s[i + 7] == d[0]);
        let n = code as int;
        if n < 10 {
            assert(d[0] == hex_digit(n));
        } else if n < 100 {
            assert(d[0] == hex_digit(n / 10));
            assert(0 <= n / 10 < 16) by (nonlinear_arith)
                requires
                    10 <= n < 100;
        } else {
            assert(d[0] == hex_digit(n / 100));
            assert(0 <= n / 100 < 16) by (nonlinear_arith)
                requires
                    100 <= n <= 255;
        }
    }
    assert(skip_ws(s, i + 7) == i + 7);
    lemma_scan_code(s, i + 7, code);
}

proof fn lemma_member_name_at(s: Seq<char>, i: int, text: Seq<char>)
    requires
        0 <= i,
        i + 6 <= s.len(),
        s.subrange(i, i + 6) == key_name(),
        i + 6 < s.len() && s[i + 6] == ':',
        i + 7 < s.len() && s[i + 7] == '"',
        i + 8 + esc(text).len() < s.len(),
        s.subrange(i + 8, i + 8 + esc(text).len()) == esc(text),
        s[i + 8 + esc(text).len()] == '"',
    ensures
        scan_member(s, i) == Some(
            MemberV {
                name: Some(text),
                code: None,
                raw: None,
                end: i + 8 + esc(text).len() + 1,
            },
        ),
{
    assert(s[i] == s.subrange(i, i + 6)[0]);
    assert(s[i] == '"');
    assert(skip_ws(s, i) == i);
    assert(match_at(s, i, key_name()));
    assert(skip_ws(s, i + 6) == i + 6);
    assert(skip_ws(s, i + 7) == i + 7);
    lemma_scan_esc(s, i + 8, text);
}

proof fn lemma_member_raw_at(s: Seq<char>, i: int, text: Seq<char>)
    requires
        0 <= i,
        i + 5 <= s.len(),
        s.subrange(i, i + 5) == key_raw(),
        i + 5 < s.len() && s[i + 5] == ':',
        i + 6 < s.len() && s[i + 6] == '"',
        i + 7 + esc(text).len() < s.len(),
        s.subrange(i + 7, i + 7 + esc(text).len()) == esc(text),
        s[i + 7 + esc(text).len()] == '"',
    ensures
        scan_member(s, i) == Some(
            MemberV {
                name: None,
                code: None,
                raw: Some(text),
                end: i + 7 + esc(text).len() + 1,
            },
        ),
{
    assert(s[i] == s.subrange(i, i + 5)[0]);
    assert(s[i + 1] == s.subrange(i, i + 5)[1]);
    assert(s[i] == '"' && s[i + 1] == 'r');
    assert(skip_ws(s, i) == i);
    assert(!match_at(s, i, key_name())) by {
        if match_at(s, i, key_name()) {
            assert(s.subrange(i, i + 6)[1] == s[i + 1]);
            assert(key_name()[1] == 'n');
        }
    }
    assert(!match_at(s, i, key_code())) by {
        if match_at(s, i, key_code()) {
            assert(s.subrange(i, i + 6)[1] == s[i + 1]);
            assert(key_code()[1] == 'c');
        }
    }
    assert(match_at(s, i, key_raw()));
    assert(skip_ws(s, i + 5) == i + 5);
    assert(skip_ws(s, i + 6) == i + 6);
    lemma_scan_esc(s, i + 7, text);
}

/// Encoding a fragment document and parsing it back recovers exactly the
/// name, the code and the base64 raw member, for any texts (braces, quotes
/// and newlines included): the document encoding is lossless.
#[verifier::rlimit(100)]
pub proof fn lemma_fragment_round_trip(name: Seq<char>, code: u8, raw_b64: Seq<char>)
    ensures
        parse_fragment_text(fragment_text(name, code, raw_b64)) == Some((name, code, raw_b64)),
{
    let s = fragment_text(name, code, raw_b64);
    let d = dec_digits(code as int);
    let en = esc(name);
    let er = esc(raw_b64);
    let p1 = 8 + d.len() as int;
    let p2 = p1 + 9;
    let p3 = p2 + en.len() as int;
    let p4 = p3 + 1;
    let p5 = p4 + 8;
    let p6 = p5 + er.len() as int;
    assert(s.len() == p6 + 2);
    assert(s =~= lit_code() + d + lit_name() + en + seq!['"'] + lit_raw() + er + lit_end());
    assert(skip_ws(s, 0) == 0 && s[0] == '{');
    assert(s.subrange(1, 7) =~= key_code());
    assert(s[7] == ':');
    assert(s.subrange(8, p1) =~= d);
    assert(!is_dig(s[p1])) by {
        assert(s[p1] == ',');
    }
    lemma_member_code_at(s, 1, code);
    assert(skip_ws(s, p1) == p1 && s[p1] == ',');
    assert(s.subrange(p1 + 1, p1 + 7) =~= key_name());
    assert(s[p1 + 7] == ':');
    assert(s[p1 + 8] == '"');
    assert(s.subrange(p2, p3) =~= en);
    assert(s[p3] == '"');
    lemma_member_name_at(s, p1 + 1, name);
    assert(skip_ws(s, p4) == p4 && s[p4] == ',');
    assert(s.subrange(p4 + 1, p4 + 6) =~= key_raw());
    assert(s[p4 + 6] == ':');
    assert(s[p4 + 7] == '"');
    assert(s.subrange(p5, p6) =~= er);
    assert(s[p6] == '"');
    lemma_member_raw_at(s, p4 + 1, raw_b64);
    assert(skip_ws(s, p6 + 1) == p6 + 1 && s[p6 + 1] == '}');
    assert(skip_ws(s, p6 + 2) == s.len());
}

/// A document could not be read back from the store: its text is not a
/// well-formed document, or its raw member is not base64 of UTF-8 text.
/// (I/O failures — a missing or unreadable file — surface at the
/// filesystem boundary, before a text reaches these functions.)
#[derive(Clone, Copy, PartialEq, Eq, Structural, Debug)]
pub enum StoreError {
    MalformedDocument,
    InvalidRaw,
}

/// A decoded command fragment: display name, numeric code, and the verbatim
/// captured source text.
#[derive(Debug)]
pub struct FragmentDoc {
    pub name: String,
    pub code: u8,
    pub raw: String,
}

/// Whether `lit` occurs in `s` at position `i`, executable form.
fn match_lit(s: &Vec<char>, i: usize, lit: &str) -> (r: bool)
    ensures
        r == match_at(s@, i as int, lit@),
{
    let lv = str_chars(lit);
    if i > s.len() || s.len() - i < lv.len() {
        return false;
    }
    let mut j: usize = 0;
    while j < lv.len()
        invariant
            i + lv.len() <= s.len(),
            j <= lv.len(),
            lv@ == lit@,
            forall|k: int| 0 <= k < j ==> s@[i + k] == lit@[k],
        decreases lv.len() - j,
    {
        if s[i + j] != lv[j] {
            proof {
                assert(s@.subrange(i as int, i + lit@.len())[j as int] == s@[i + j]);
            }
            return false;
        }
        j = j + 1;
    }
    proof {
        assert(s@.subrange(i as int, i + lit@.len()) =~= lit@);
    }
    true
}

/// Whether `c` is a decimal digit, executable form.
fn isdig(c: char) -> (r: bool)
    ensures
        r == is_dig(c),
{
    let v = hexv(c);
    0 <= v && v < 10
}

/// Scan a code value at `i`, executable form: exactly the
/// specification-level `scan_code`.
fn scan_code_exec(s: &Vec<char>, i: usize) -> (r: Option<(u8, usize)>)
    ensures
        match r {
            Some(p) => scan_code(s@, i as int) == Some((p.0, p.1 as int)) && p.1 <= s@.len(),
            None => scan_code(s@, i as int) is None,
        },
{
    if i >= s.len() || !isdig(s[i]) {
        return None;
    }
    let v0 = hexv(s[i]);
    if i + 1 < s.len() && isdig(s[i + 1]) {
        if v0 == 0 {
            return None;
        }
        let v1 = hexv(s[i + 1]);
        if i + 2 < s.len() && isdig(s[i + 2]) {
            let v2 = hexv(s[i + 2]);
            let val: i32 = v0 * 100 + v1 * 10 + v2;
            if val <= 255 && !(i + 3 < s.len() && isdig(s[i + 3])) {
                Some((val as u8, i + 3))
            } else {
                None
            }
        } else {
            Some(((v0 * 10 + v1) as u8, i + 2))
        }
    } else {
        Some((v0 as u8, i + 1))
    }
}

/// Append the canonical decimal digits of a code value.
fn push_dec(out: &mut String, code: u8)
    ensures
        final(out)@ == old(out)@ + dec_digits(code as int),
{
    let cv: u32 = code as u32;
    if code < 10 {
        push_char(out, hexd(cv));
        proof {
            assert(out@ =~= old(out)@ + dec_digits(code as int));
        }
    } else if code < 100 {
        let d0 = cv / 10;
        let d1 = cv % 10;
        proof {
            assert(d0 < 10 && d1 < 10) by (nonlinear_arith)
                requires
                    d0 == cv / 10,
                    d1 == cv % 10,
                    cv < 100;
        }
        push_char(out, hexd(d0));
        push_char(out, hexd(d1));
        proof {
            assert(out@ =~= old(out)@ + dec_digits(code as int));
        }
    } else {
        let d0 = cv / 100;
        let d1 = (cv / 10) % 10;
        let d2 = cv % 10;
        proof {
            assert(d0 < 10 && d1 < 10 && d2 < 10) by (nonlinear_arith)
                requires
                    d0 == cv / 100,
                    d1 == (cv / 10) % 10,
                    d2 == cv % 10,
                    cv <= 255;
        }
        push_char(out, hexd(d0));
        push_char(out, hexd(d1));
        push_char(out, hexd(d2));
        proof {
            assert(out@ =~= old(out)@ + dec_digits(code as int));
        }
    }
}

/// Assemble the canonical fragment document text from its parts.
#[verifier::rlimit(100)]
fn fragment_text_exec(name: &str, code: u8, b64: &str) -> (r: String)
    ensures
        r@ == fragment_text(name@, code, b64@),
{
    let mut name_esc = String::new();
    esc_append(&mut name_esc, name);
    proof {
        assert(name_esc@ =~= esc(name@));
    }
    let mut raw_esc = String::new();
    esc_append(&mut raw_esc, b64);
    proof {
        assert(raw_esc@ =~= esc(b64@));
    }
    let mut out: String = "{\"code\":".to_owned();
    proof {
        reveal_strlit("{\"code\":");
        assert(out@ =~= lit_code());
    }
    push_dec(&mut out, code);
    out.append(",\"name\":\"");
    out.append(name_esc.as_str());
    out.append("\",\"raw\":\"");
    out.append(raw_esc.as_str());
    out.append("\"}");
    proof {
        reveal_strlit(",\"name\":\"");
        reveal_strlit("\",\"raw\":\"");
        reveal_strlit("\"}");
        assert(",\"name\":\""@ =~= lit_name());
        assert("\",\"raw\":\""@ =~= seq!['"'] + lit_raw());
        assert("\"}"@ =~= lit_end());
        assert(out@ =~= fragment_text(name@, code, b64@));
    }
    out
}

/// Serialize a fragment document: the display name, the code, and the
/// source text, whose base64 encoding becomes the `raw` member.
pub fn set_json_payload(name: &str, code: u8, raw: &str) -> (r: String)
    ensures
        r@ == fragment_text(name@, code, b64_of(raw@)),
        decoded_fragment(r@) == Some((name@, code, raw@)),
{
    let b64 = b64_encode(raw);
    proof {
        lemma_fragment_round_trip(name@, code, b64_of(raw@));
    }
    fragment_text_exec(name, code, b64.as_str())
}

/// Serialize the interface capture record holding the canonical signature
/// text, whose base64 encoding becomes the `raw` member.
pub fn set_interface_payload(raw: &str) -> (r: String)
    ensures
        r@ == interface_text(b64_of(raw@)),
        decoded_interface(r@) == Some(raw@),
{
    let b64 = b64_encode(raw);
    proof {
        lemma_interface_round_trip(b64_of(raw@));
    }
    let mut out: String = "{\"raw\":\"".to_owned();
    proof {
        reveal_strlit("{\"raw\":\"");
        assert(out@ =~= lit_iface());
    }
    esc_append(&mut out, b64.as_str());
    push_char(&mut out, '"');
    push_char(&mut out, '}');
    proof {
        assert(out@ =~= interface_text(b64_of(raw@)));
    }
    out
}

/// Read a fragment document back from its text: `Ok` exactly when the text
/// is a well-formed fragment document whose raw member decodes, and then the
/// decoded contents; a malformed text or an undecodable raw member is the
/// matching store error.
/// The first non-whitespace index at or after `i`, executable form.
fn skip_ws_exec(s: &Vec<char>, i: usize) -> (r: usize)
    requires
        i <= s@.len(),
    ensures
        r as int == skip_ws(s@, i as int),
        i <= r <= s@.len(),
    decreases s@.len() - i,
{
    if i >= s.len() {
        s.len()
    } else {
        let c = s[i];
        if c == ' ' || c == '\t' || c == '\n' || c == '\r' {
            skip_ws_exec(s, i + 1)
        } else {
            i
        }
    }
}

/// One parsed object member, executable form.
struct MemberE {
    name: Option<Vec<char>>,
    code: Option<u8>,
    raw: Option<Vec<char>>,
    end: usize,
}

spec fn member_view(m: MemberE) -> MemberV {
    MemberV {
        name: match m.name {
            Some(v) => Some(v@),
            None => None,
        },
        code: m.code,
        raw: match m.raw {
            Some(v) => Some(v@),
            None => None,
        },
        end: m.end as int,
    }
}

/// Scan one object member, executable form: exactly the
/// specification-level `scan_member`.
#[verifier::rlimit(100)]
fn scan_member_exec(s: &Vec<char>, i: usize) -> (r: Option<MemberE>)
    requires
        i <= s@.len(),
    ensures
        match r {
            Some(m) => scan_member(s@, i as int) == Some(member_view(m)) && m.end <= s@.len(),
            None => scan_member(s@, i as int) is None,
        },
{
    proof {
        reveal_strlit("\"name\"");
        reveal_strlit("\"code\"");
        reveal_strlit("\"raw\"");
        assert("\"name\""@ =~= key_name());
        assert("\"code\""@ =~= key_code());
        assert("\"raw\""@ =~= key_raw());
    }
    let n = s.len();
    let k = skip_ws_exec(s, i);
    if match_lit(s, k, "\"name\"") {
        proof {
            assert(k + key_name().len() <= n);
        }
        let c = skip_ws_exec(s, k + 6);
        if !(c < s.len() && s[c] == ':') {
            return None;
        }
        let v = skip_ws_exec(s, c + 1);
        if !(v < s.len() && s[v] == '"') {
            return None;
        }
        match scan_string_exec(s, v + 1) {
            None => None,
            Some(p) => Some(MemberE { name: Some(p.0), code: None, raw: None, end: p.1 }),
        }
    } else if match_lit(s, k, "\"code\"") {
        proof {
            assert(k + key_code().len() <= n);
        }
        let c = skip_ws_exec(s, k + 6);
        if !(c < s.len() && s[c] == ':') {
            return None;
        }
        let v = skip_ws_exec(s, c + 1);
        match scan_code_exec(s, v) {
            None => None,
            Some(p) => Some(MemberE { name: None, code: Some(p.0), raw: None, end: p.1 }),
        }
    } else if match_lit(s, k, "\"raw\"") {
        proof {
            assert(k + key_raw().len() <= n);
        }
        let c = skip_ws_exec(s, k + 5);
        if !(c < s.len() && s[c] == ':') {
            return None;
        }
        let v = skip_ws_exec(s, c + 1);
        if !(v < s.len() && s[v] == '"') {
            return None;
        }
        match scan_string_exec(s, v + 1) {
            None => None,
            Some(p) => Some(MemberE { name: None, code: None, raw: Some(p.0), end: p.1 }),
        }
    } else {
        None
    }
}

/// Exactly-one-of-three selection over string members, executable form.
fn pick_chars(a: Option<Vec<char>>, b: Option<Vec<char>>, c: Option<Vec<char>>) -> (r: Option<
    Vec<char>,
>)
    ensures
        (match r {
            Some(v) => Some(v@),
            None => None,
        }) == pick_str(
            match a {
                Some(ref v) => Some(v@),
                None => None,
            },
            match b {
                Some(ref v) => Some(v@),
                None => None,
            },
            match c {
                Some(ref v) => Some(v@),
                None => None,
            },
        ),
{
    match (a, b, c) {
        (Some(v), None, None) => Some(v),
        (None, Some(v), None) => Some(v),
        (None, None, Some(v)) => Some(v),
        _ => None,
    }
}

/// Exactly-one-of-three selection over code members, executable form.
fn pick_code_exec(a: Option<u8>, b: Option<u8>, c: Option<u8>) -> (r: Option<u8>)
    ensures
        r == pick_code(a, b, c),
{
    match (a, b, c) {
        (Some(v), None, None) => Some(v),
        (None, Some(v), None) => Some(v),
        (None, None, Some(v)) => Some(v),
        _ => None,
    }
}

pub fn get_json_payload(text: &str) -> (r: Result<FragmentDoc, StoreError>)
    ensures
        r is Ok <==> decoded_fragment(text@) is Some,
        r matches Ok(doc) ==> decoded_fragment(text@) == Some((doc.name@, doc.code, doc.raw@)),
        r matches Err(e) ==> (e == StoreError::MalformedDocument <==> parse_fragment_text(text@)
            is None),
{
    let cs = str_chars(text);
    let o = skip_ws_exec(&cs, 0);
    if !(o < cs.len() && cs[o] == '{') {
        return Err(StoreError::MalformedDocument);
    }
    let m1 = match scan_member_exec(&cs, o + 1) {
        None => {
            return Err(StoreError::MalformedDocument);
        },
        Some(m) => m,
    };
    let s1 = skip_ws_exec(&cs, m1.end);
    if !(s1 < cs.len() && cs[s1] == ',') {
        return Err(StoreError::MalformedDocument);
    }
    let m2 = match scan_member_exec(&cs, s1 + 1) {
        None => {
            return Err(StoreError::MalformedDocument);
        },
        Some(m) => m,
    };
    let s2 = skip_ws_exec(&cs, m2.end);
    if !(s2 < cs.len() && cs[s2] == ',') {
        return Err(StoreError::MalformedDocument);
    }
    let m3 = match scan_member_exec(&cs, s2 + 1) {
        None => {
            return Err(StoreError::MalformedDocument);
        },
        Some(m) => m,
    };
    let e = skip_ws_exec(&cs, m3.end);
    if !(e < cs.len() && cs[e] == '}') {
        return Err(StoreError::MalformedDocument);
    }
    let t = skip_ws_exec(&cs, e + 1);
    if t != cs.len() {
        return Err(StoreError::MalformedDocument);
    }
    let name_v = match pick_chars(m1.name, m2.name, m3.name) {
        None => {
            return Err(StoreError::MalformedDocument);
        },
        Some(v) => v,
    };
    let code = match pick_code_exec(m1.code, m2.code, m3.code) {
        None => {
            return Err(StoreError::MalformedDocument);
        },
        Some(v) => v,
    };
    let raw_v = match pick_chars(m1.raw, m2.raw, m3.raw) {
        None => {
            return Err(StoreError::MalformedDocument);
        },
        Some(v) => v,
    };
    let name = chars_string(&name_v);
    let raw_b64 = chars_string(&raw_v);
    match b64_decode(raw_b64.as_str()) {
        Some(raw) => Ok(FragmentDoc { name, code, raw }),
        None => Err(StoreError::InvalidRaw),
    }
}

/// Read the interface capture record back from its text: `Ok` with the
/// canonical signature text exactly when the text is a well-formed record
/// whose raw member decodes.
pub fn get_interface_payload(text: &str) -> (r: Result<String, StoreError>)
    ensures
        r is Ok <==> decoded_interface(text@) is Some,
        r matches Ok(raw) ==> decoded_interface(text@) == Some(raw@),
        r matches Err(e) ==> (e == StoreError::MalformedDocument <==> parse_interface_text(text@)
            is None),
{
    let cs = str_chars(text);
    let o = skip_ws_exec(&cs, 0);
    if !(o < cs.len() && cs[o] == '{') {
        return Err(StoreError::MalformedDocument);
    }
    let m = match scan_member_exec(&cs, o + 1) {
        None => {
            return Err(StoreError::MalformedDocument);
        },
        Some(m) => m,
    };
    let e = skip_ws_exec(&cs, m.end);
    if !(e < cs.len() && cs[e] == '}') {
        return Err(StoreError::MalformedDocument);
    }
    let t = skip_ws_exec(&cs, e + 1);
    if t != cs.len() {
        return Err(StoreError::MalformedDocument);
    }
    let raw_v = match m.raw {
        None => {
            return Err(StoreError::MalformedDocument);
        },
        Some(v) => v,
    };
    let raw_b64 = chars_string(&raw_v);
    match b64_decode(raw_b64.as_str()) {
        Some(raw) => Ok(raw),
        None => Err(StoreError::InvalidRaw),
    }
}

/// Encoding an interface record and parsing it back recovers exactly the
/// base64 raw member.
pub proof fn lemma_interface_round_trip(raw_b64: Seq<char>)
    ensures
        parse_interface_text(interface_text(raw_b64)) == Some(raw_b64),
{
    let s = interface_text(raw_b64);
    let er = esc(raw_b64);
    let p1 = 8 + er.len() as int;
    assert(s.len() == p1 + 2);
    assert(s =~= lit_iface() + er + lit_end());
    assert(skip_ws(s, 0) == 0 && s[0] == '{');
    assert(skip_ws(s, 1) == 1) by {
        assert(s[1] == '"');
    }
    assert(!match_at(s, 1, key_name())) by {
        assert(s[2] == 'r');
        if match_at(s, 1, key_name()) {
            assert(s.subrange(1, 7)[1] == s[2]);
            assert(key_name()[1] == 'n');
        }
    }
    assert(!match_at(s, 1, key_code())) by {
        assert(s[2] == 'r');
        if match_at(s, 1, key_code()) {
            assert(s.subrange(1, 7)[1] == s[2]);
            assert(key_code()[1] == 'c');
        }
    }
    assert(match_at(s, 1, key_raw())) by {
        assert(s.subrange(1, 6) =~= key_raw());
    }
    assert(skip_ws(s, 6) == 6 && s[6] == ':');
    assert(skip_ws(s, 7) == 7 && s[7] == '"');
    assert(s.subrange(8, p1) =~= er);
    assert(s[p1] == '"');
    lemma_scan_esc(s, 8, raw_b64);
    assert(scan_string(s, 8) == Some((raw_b64, p1 + 1)));
    assert(scan_member(s, 1) == Some(
        MemberV { name: None, code: None, raw: Some(raw_b64), end: p1 + 1 },
    ));
    assert(skip_ws(s, p1 + 1) == p1 + 1 && s[p1 + 1] == '}');
    assert(skip_ws(s, p1 + 2) == s.len());
}

} // verus!
