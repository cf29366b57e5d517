//! The interchange form for export and import: a flat JSON object whose
//! fields are key strings and whose values are plain strings. Anything else
//! — an array, a nested object, a non-string value, trailing text — is a
//! malformed import document and fatal before any write. The grammar here
//! is the module's own: spec-level recursive descent, mirrored exactly by
//! the executable parser.

use vstd::prelude::*;
use crate::flat::{pairs_map, FlatMapping};

verus! {

/// The one fatal import error: the document is not a flat
/// string-to-string object.
#[derive(Clone, Copy, PartialEq, Eq, Structural, Debug)]
pub struct MalformedImportDocument;

/// JSON insignificant whitespace.
pub open spec fn is_ws(c: char) -> bool {
    c == ' ' || c == '\t' || c == '\n' || c == '\r'
}

/// The first position at or after `i` holding no whitespace.
pub open spec fn skip_ws(s: Seq<char>, i: int) -> int
    decreases s.len() - i,
{
    if 0 <= i < s.len() && is_ws(s[i]) {
        skip_ws(s, i + 1)
    } else {
        i
    }
}

/// Skipping whitespace stays within the text.
proof fn lemma_skip_ws_bounds(s: Seq<char>, i: int)
    requires
        0 <= i <= s.len(),
    ensures
        i <= skip_ws(s, i) <= s.len(),
    decreases s.len() - i,
{
    if i < s.len() && is_ws(s[i]) {
        lemma_skip_ws_bounds(s, i + 1);
    }
}

/// The value of one hexadecimal digit.
pub open spec fn hex_val(c: char) -> Option<u32> {
    let u = c as u32;
    if 48 <= u <= 57 {
        Some((u - 48) as u32)
    } else if 97 <= u <= 102 {
        Some((u - 87) as u32)
    } else if 65 <= u <= 70 {
        Some((u - 55) as u32)
    } else {
        None
    }
}

/// Four hexadecimal digits at `i`, as one value.
pub open spec fn hex4(s: Seq<char>, i: int) -> Option<u32> {
    if 0 <= i && i + 4 <= s.len() {
        if hex_val(s[i]) is Some && hex_val(s[i + 1]) is Some && hex_val(s[i + 2]) is Some
            && hex_val(s[i + 3]) is Some {
            Some(
                (hex_val(s[i])->0 * 4096 + hex_val(s[i + 1])->0 * 256 + hex_val(s[i + 2])->0 * 16
                    + hex_val(s[i + 3])->0) as u32,
            )
        } else {
            None
        }
    } else {
        None
    }
}

/// A Unicode scalar value: in range and no surrogate.
pub open spec fn scalar_ok(v: u32) -> bool {
    v < 0xD800 || (0xE000 <= v && v <= 0x10FFFF)
}

/// A `\u` escape read after its `\u`: one scalar, possibly written as a
/// surrogate pair, and the position after it.
pub open spec fn u_escape(s: Seq<char>, i: int) -> Option<(char, int)> {
    match hex4(s, i) {
        None => None,
        Some(c1) => if c1 < 0xD800 || c1 > 0xDFFF {
            Some((c1 as char, i + 4))
        } else if c1 <= 0xDBFF {
            if i + 6 <= s.len() && s[i + 4] == '\\' && s[i + 5] == 'u' {
                match hex4(s, i + 6) {
                    None => None,
                    Some(c2) => if 0xDC00 <= c2 <= 0xDFFF {
                        Some(
                            (
                                ((0x10000 + (c1 - 0xD800) * 0x400 + (c2 - 0xDC00)) as u32) as char,
                                i + 10,
                            ),
                        )
                    } else {
                        None
                    },
                }
            } else {
                None
            }
        } else {
            None
        },
    }
}

/// A single-character escape after a backslash.
pub open spec fn esc_char(c: char) -> Option<char> {
    if c == '"' {
        Some('"')
    } else if c == '\\' {
        Some('\\')
    } else if c == '/' {
        Some('/')
    } else if c == 'b' {
        Some('\u{0008}')
    } else if c == 'f' {
        Some('\u{000C}')
    } else if c == 'n' {
        Some('\n')
    } else if c == 'r' {
        Some('\r')
    } else if c == 't' {
        Some('\t')
    } else {
        None
    }
}

/// The rest of a string literal from position `i` (after the opening
/// quote): its decoded content appended to `acc`, and the position after
/// the closing quote.
pub open spec fn parse_string_body(s: Seq<char>, i: int, acc: Seq<char>) -> Option<
    (Seq<char>, int),
>
    decreases s.len() - i,
{
    if !(0 <= i < s.len()) {
        None
    } else {
        let c = s[i];
        if c == '"' {
            Some((acc, i + 1))
        } else if c == '\\' {
            if i + 1 >= s.len() {
                None
            } else if s[i + 1] == 'u' {
                match u_escape(s, i + 2) {
                    Some((ch, ni)) => if i < ni <= s.len() {
                        parse_string_body(s, ni, acc.push(ch))
                    } else {
                        None
                    },
                    None => None,
                }
            } else {
                match esc_char(s[i + 1]) {
                    Some(ch) => parse_string_body(s, i + 2, acc.push(ch)),
                    None => None,
                }
            }
        } else if (c as u32) < 0x20 {
            None
        } else {
            parse_string_body(s, i + 1, acc.push(c))
        }
    }
}

/// The members of an object from position `i` (at a key's opening quote):
/// the key/value pairs appended to `acc`, and the position after the
/// closing brace.
pub open spec fn parse_members(s: Seq<char>, i: int, acc: Seq<(Seq<char>, Seq<char>)>) -> Option<
    (Seq<(Seq<char>, Seq<char>)>, int),
>
    decreases s.len() - i,
{
    if !(0 <= i < s.len()) {
        None
    } else if s[i] != '"' {
        None
    } else {
        match parse_string_body(s, i + 1, Seq::empty()) {
            None => None,
            Some((k, i2)) => {
                let i3 = skip_ws(s, i2);
                if 0 <= i3 && i3 < s.len() && s[i3] == ':' {
                    let i4 = skip_ws(s, i3 + 1);
                    if 0 <= i4 && i4 < s.len() && s[i4] == '"' {
                        match parse_string_body(s, i4 + 1, Seq::empty()) {
                            None => None,
                            Some((v, i5)) => {
                                let i6 = skip_ws(s, i5);
                                if 0 <= i6 && i6 < s.len() && s[i6] == ',' {
                                    let i7 = skip_ws(s, i6 + 1);
                                    if i < i7 <= s.len() {
                                        parse_members(s, i7, acc.push((k, v)))
                                    } else {
                                        None
                                    }
                                } else if 0 <= i6 && i6 < s.len() && s[i6] == '}' {
                                    Some((acc.push((k, v)), i6 + 1))
                                } else {
                                    None
                                }
                            },
                        }
                    } else {
                        None
                    }
                } else {
                    None
                }
            },
        }
    }
}

/// A whole import document: one flat object of string fields, nothing
/// before or after. Arrays, nested objects, numbers and any other shape
/// parse to nothing.
pub open spec fn parse_doc(s: Seq<char>) -> Option<Seq<(Seq<char>, Seq<char>)>> {
    let i = skip_ws(s, 0);
    if 0 <= i && i < s.len() && s[i] == '{' {
        let j = skip_ws(s, i + 1);
        if 0 <= j && j < s.len() && s[j] == '}' {
            if skip_ws(s, j + 1) == s.len() {
                Some(Seq::empty())
            } else {
                None
            }
        } else {
            match parse_members(s, j, Seq::empty()) {
                None => None,
                Some((ps, e)) => if skip_ws(s, e) == s.len() {
                    Some(ps)
                } else {
                    None
                },
            }
        }
    } else {
        None
    }
}

/// The mapping a parsed pair list denotes: a later duplicate key wins.
pub open spec fn doc_map(ps: Seq<(Seq<char>, Seq<char>)>) -> Map<Seq<char>, Seq<char>>
    decreases ps.len(),
{
    if ps.len() == 0 {
        Map::empty()
    } else {
        doc_map(ps.drop_last()).insert(ps.last().0, ps.last().1)
    }
}

/// Relies on char::from_u32: every non-surrogate value up to 0x10FFFF is a
/// Unicode scalar value and converts to the char with that value.
#[verifier::external_body]
fn char_of_scalar(v: u32) -> (c: char)
    requires
        scalar_ok(v),
    ensures
        c as u32 == v,
{
    char::from_u32(v).unwrap()
}

/// Recognizes JSON insignificant whitespace.
fn is_ws_char(c: char) -> (r: bool)
    ensures
        r == is_ws(c),
{
    c == ' ' || c == '\t' || c == '\n' || c == '\r'
}

/// Finds the end of a whitespace run.
fn ws_end(s: &str, i: usize) -> (r: usize)
    requires
        i <= s@.len(),
    ensures
        r as int == skip_ws(s@, i as int),
        i <= r,
        r <= s@.len(),
{
    let n = s.unicode_len();
    let mut j = i;
    while j < n && is_ws_char(s.get_char(j))
        invariant
            i <= j <= n,
            n == s@.len(),
            skip_ws(s@, i as int) == skip_ws(s@, j as int),
        decreases n - j,
    {
        j = j + 1;
    }
    j
}

/// Reads one hexadecimal digit.
fn hex_val_exec(c: char) -> (r: Option<u32>)
    ensures
        r == hex_val(c),
{
    let u = c as u32;
    if 48 <= u && u <= 57 {
        Some(u - 48)
    } else if 97 <= u && u <= 102 {
        Some(u - 87)
    } else if 65 <= u && u <= 70 {
        Some(u - 55)
    } else {
        None
    }
}

/// Reads four hexadecimal digits.
fn hex4_exec(s: &str, i: usize) -> (r: Option<u32>)
    requires
        i <= s@.len(),
    ensures
        r == hex4(s@, i as int),
{
    let n = s.unicode_len();
    if n - i >= 4 {
        let a = hex_val_exec(s.get_char(i));
        let b = hex_val_exec(s.get_char(i + 1));
        let c = hex_val_exec(s.get_char(i + 2));
        let d = hex_val_exec(s.get_char(i + 3));
        match (a, b, c, d) {
            (Some(a), Some(b), Some(c), Some(d)) => Some(a * 4096 + b * 256 + c * 16 + d),
            _ => None,
        }
    } else {
        None
    }
}

/// Reads a `\u` escape after its `\u`.
fn u_escape_exec(s: &str, i: usize) -> (r: Option<(char, usize)>)
    requires
        i <= s@.len(),
    ensures
        r matches Some(p) ==> u_escape(s@, i as int) == Some((p.0, p.1 as int)) && i < p.1
            <= s@.len(),
        r is None ==> u_escape(s@, i as int) is None,
{
    let n = s.unicode_len();
    match hex4_exec(s, i) {
        None => None,
        Some(c1) => {
            if c1 < 0xD800 || c1 > 0xDFFF {
                let c = char_of_scalar(c1);
                proof {
                    vstd::utf8::char_u32_cast(c, c1);
                }
                Some((c, i + 4))
            } else if c1 <= 0xDBFF {
                if n - i >= 6 && s.get_char(i + 4) == '\\' && s.get_char(i + 5) == 'u' {
                    match hex4_exec(s, i + 6) {
                        None => None,
                        Some(c2) => {
                            if 0xDC00 <= c2 && c2 <= 0xDFFF {
                                let v = 0x10000 + (c1 - 0xD800) * 0x400 + (c2 - 0xDC00);
                                let c = char_of_scalar(v);
                                proof {
                                    vstd::utf8::char_u32_cast(c, v);
                                }
                                Some((c, i + 10))
                            } else {
                                None
                            }
                        },
                    }
                } else {
                    None
                }
            } else {
                None
            }
        },
    }
}

/// Reads the rest of a string literal, after its opening quote.
fn string_body_exec(s: &str, i: usize, acc: String) -> (r: Option<(String, usize)>)
    requires
        i <= s@.len(),
    ensures
        r matches Some(p) ==> parse_string_body(s@, i as int, acc@) == Some((p.0@, p.1 as int))
            && p.1 <= s@.len(),
        r is None ==> parse_string_body(s@, i as int, acc@) is None,
    decreases s@.len() - i,
{
    let n = s.unicode_len();
    if i >= n {
        return None;
    }
    let c = s.get_char(i);
    if c == '"' {
        Some((acc, i + 1))
    } else if c == '\\' {
        if i + 1 >= n {
            None
        } else if s.get_char(i + 1) == 'u' {
            match u_escape_exec(s, i + 2) {
                Some((ch, ni)) => {
                    let mut acc2 = acc;
                    crate::keys::push_char(&mut acc2, ch);
                    string_body_exec(s, ni, acc2)
                },
                None => None,
            }
        } else {
            let e = s.get_char(i + 1);
            let ch: char;
            if e == '"' {
                ch = '"';
            } else if e == '\\' {
                ch = '\\';
            } else if e == '/' {
                ch = '/';
            } else if e == 'b' {
                ch = '\u{0008}';
            } else if e == 'f' {
                ch = '\u{000C}';
            } else if e == 'n' {
                ch = '\n';
            } else if e == 'r' {
                ch = '\r';
            } else if e == 't' {
                ch = '\t';
            } else {
                return None;
            }
            let mut acc2 = acc;
            crate::keys::push_char(&mut acc2, ch);
            string_body_exec(s, i + 2, acc2)
        }
    } else if (c as u32) < 0x20 {
        None
    } else {
        let mut acc2 = acc;
        crate::keys::push_char(&mut acc2, c);
        string_body_exec(s, i + 1, acc2)
    }
}

/// Reads the members of an object, from a key's opening quote.
fn members_exec(s: &str, i: usize, acc: Vec<(String, String)>) -> (r: Option<
    (Vec<(String, String)>, usize),
>)
    requires
        i <= s@.len(),
    ensures
        r matches Some(p) ==> parse_members(s@, i as int, pair_views(acc@)) == Some(
            (pair_views(p.0@), p.1 as int),
        ) && p.1 <= s@.len(),
        r is None ==> parse_members(s@, i as int, pair_views(acc@)) is None,
    decreases s@.len() - i,
{
    let n = s.unicode_len();
    if i >= n {
        return None;
    }
    if s.get_char(i) != '"' {
        return None;
    }
    let key = match string_body_exec(s, i + 1, String::new()) {
        None => {
            return None;
        },
        Some(p) => p,
    };
    let (k, i2) = key;
    proof {
        lemma_skip_ws_bounds(s@, i2 as int);
    }
    let i3 = ws_end(s, i2);
    if !(i3 < n && s.get_char(i3) == ':') {
        return None;
    }
    proof {
        lemma_skip_ws_bounds(s@, i3 + 1);
    }
    let i4 = ws_end(s, i3 + 1);
    if !(i4 < n && s.get_char(i4) == '"') {
        return None;
    }
    let val = match string_body_exec(s, i4 + 1, String::new()) {
        None => {
            return None;
        },
        Some(p) => p,
    };
    let (v, i5) = val;
    proof {
        lemma_skip_ws_bounds(s@, i5 as int);
    }
    let i6 = ws_end(s, i5);
    let ghost acc0 = pair_views(acc@);
    let mut acc2 = acc;
    acc2.push((k, v));
    proof {
        assert(pair_views(acc2@) =~= acc0.push((acc2@.last().0@, acc2@.last().1@)));
    }
    if i6 < n && s.get_char(i6) == ',' {
        proof {
            lemma_skip_ws_bounds(s@, i6 + 1);
        }
        let i7 = ws_end(s, i6 + 1);
        if i < i7 {
            members_exec(s, i7, acc2)
        } else {
            None
        }
    } else if i6 < n && s.get_char(i6) == '}' {
        Some((acc2, i6 + 1))
    } else {
        None
    }
}

/// The views of a pair list.
pub open spec fn pair_views(ps: Seq<(String, String)>) -> Seq<(Seq<char>, Seq<char>)> {
    ps.map_values(|p: (String, String)| (p.0@, p.1@))
}

/// Parses an import document: a flat JSON object of string fields
/// and string values, and nothing else. Succeeds exactly on documents the
/// grammar accepts; the mapping keeps each field, a later duplicate
/// winning.
pub fn parse_import_document(s: &str) -> (r: Result<FlatMapping, MalformedImportDocument>)
    ensures
        r is Ok <==> parse_doc(s@) is Some,
        r matches Ok(m) ==> m.wf() && m@ == doc_map(parse_doc(s@)->0),
{
    let n = s.unicode_len();
    proof {
        lemma_skip_ws_bounds(s@, 0);
    }
    let i = ws_end(s, 0);
    if !(i < n && s.get_char(i) == '{') {
        return Err(MalformedImportDocument);
    }
    proof {
        lemma_skip_ws_bounds(s@, i + 1);
    }
    let j = ws_end(s, i + 1);
    if j < n && s.get_char(j) == '}' {
        proof {
            lemma_skip_ws_bounds(s@, j + 1);
        }
        let e = ws_end(s, j + 1);
        if e == n {
            let m = FlatMapping::new();
            proof {
                assert(doc_map(parse_doc(s@)->0) =~= m@);
            }
            Ok(m)
        } else {
            Err(MalformedImportDocument)
        }
    } else {
        let empty_acc: Vec<(String, String)> = Vec::new();
        proof {
            assert(pair_views(empty_acc@) =~= Seq::<(Seq<char>, Seq<char>)>::empty());
        }
        match members_exec(s, j, empty_acc) {
            None => Err(MalformedImportDocument),
            Some((ps, e0)) => {
                proof {
                    lemma_skip_ws_bounds(s@, e0 as int);
                }
                let e = ws_end(s, e0);
                if e == n {
                    let m = pairs_to_mapping(&ps);
                    Ok(m)
                } else {
                    Err(MalformedImportDocument)
                }
            },
        }
    }
}

/// Folds parsed pairs into a mapping, a later duplicate key winning.
fn pairs_to_mapping(ps: &Vec<(String, String)>) -> (m: FlatMapping)
    ensures
        m.wf(),
        m@ == doc_map(pair_views(ps@)),
{
    let mut m = FlatMapping::new();
    proof {
        assert(m@ =~= doc_map(pair_views(ps@).take(0)));
    }
    let n = ps.len();
    let mut i: usize = 0;
    while i < n
        invariant
            i <= n,
            n == ps@.len(),
            m.wf(),
            m@ == doc_map(pair_views(ps@).take(i as int)),
        decreases n - i,
    {
        proof {
            assert(pair_views(ps@).take(i + 1).drop_last() =~= pair_views(ps@).take(i as int));
            assert(pair_views(ps@).take(i + 1).last() == (ps@[i as int].0@, ps@[i as int].1@));
        }
        let key = ps[i].0.clone();
        let value = ps[i].1.clone();
        m.set_pair(key, value);
        i = i + 1;
    }
    proof {
        assert(pair_views(ps@).take(n as int) =~= pair_views(ps@));
    }
    m
}

/// One hexadecimal digit, lower case.
pub open spec fn hex_digit(v: u32) -> char {
    if v == 0 {
        '0'
    } else if v == 1 {
        '1'
    } else if v == 2 {
        '2'
    } else if v == 3 {
        '3'
    } else if v == 4 {
        '4'
    } else if v == 5 {
        '5'
    } else if v == 6 {
        '6'
    } else if v == 7 {
        '7'
    } else if v == 8 {
        '8'
    } else if v == 9 {
        '9'
    } else if v == 10 {
        'a'
    } else if v == 11 {
        'b'
    } else if v == 12 {
        'c'
    } else if v == 13 {
        'd'
    } else if v == 14 {
        'e'
    } else {
        'f'
    }
}

/// How one character is written inside a string literal: quote and
/// backslash escaped, named escapes for the common control characters, a
/// `\u` escape for the rest of them, every other character as itself.
pub open spec fn esc_seq(c: char) -> Seq<char> {
    if c == '"' {
        seq!['\\', '"']
    } else if c == '\\' {
        seq!['\\', '\\']
    } else if c == '\u{0008}' {
        seq!['\\', 'b']
    } else if c == '\u{000C}' {
        seq!['\\', 'f']
    } else if c == '\n' {
        seq!['\\', 'n']
    } else if c == '\r' {
        seq!['\\', 'r']
    } else if c == '\t' {
        seq!['\\', 't']
    } else if (c as u32) < 0x20 {
        seq!['\\', 'u', '0', '0', hex_digit((c as u32) / 16), hex_digit((c as u32) % 16)]
    } else {
        seq![c]
    }
}

/// The first `i` characters of a string, written out.
pub open spec fn escaped_prefix(s: Seq<char>, i: int) -> Seq<char>
    decreases i,
{
    if i <= 0 {
        Seq::empty()
    } else {
        escaped_prefix(s, i - 1) + esc_seq(s[i - 1])
    }
}

/// A whole string literal, quotes included.
pub open spec fn quoted(s: Seq<char>) -> Seq<char> {
    seq!['"'] + escaped_prefix(s, s.len() as int) + seq!['"']
}

/// The first `j` members of the serialized object, commas included.
pub open spec fn items_prefix(ps: Seq<(String, String)>, j: int) -> Seq<char>
    decreases j,
{
    if j <= 0 {
        Seq::empty()
    } else {
        items_prefix(ps, j - 1) + (if j == 1 {
            Seq::empty()
        } else {
            seq![',']
        }) + quoted(ps[j - 1].0@) + seq![':'] + quoted(ps[j - 1].1@)
    }
}

/// The serialized form of a mapping: one flat object, fields in stored
/// (key) order.
pub open spec fn serialize_spec(ps: Seq<(String, String)>) -> Seq<char> {
    seq!['{'] + items_prefix(ps, ps.len() as int) + seq!['}']
}

/// Writes one hexadecimal digit.
fn hex_digit_exec(v: u32) -> (c: char)
    requires
        v < 16,
    ensures
        c == hex_digit(v),
{
    if v == 0 {
        '0'
    } else if v == 1 {
        '1'
    } else if v == 2 {
        '2'
    } else if v == 3 {
        '3'
    } else if v == 4 {
        '4'
    } else if v == 5 {
        '5'
    } else if v == 6 {
        '6'
    } else if v == 7 {
        '7'
    } else if v == 8 {
        '8'
    } else if v == 9 {
        '9'
    } else if v == 10 {
        'a'
    } else if v == 11 {
        'b'
    } else if v == 12 {
        'c'
    } else if v == 13 {
        'd'
    } else if v == 14 {
        'e'
    } else {
        'f'
    }
}

/// Writes one string literal, quotes and escapes included.
fn append_quoted(out: &mut String, s: &str)
    ensures
        final(out)@ == old(out)@ + quoted(s@),
{
    let ghost out0 = out@;
    crate::keys::push_char(out, '"');
    let n = s.unicode_len();
    let mut i: usize = 0;
    while i < n
        invariant
            i <= n,
            n == s@.len(),
            out@ == out0 + seq!['"'] + escaped_prefix(s@, i as int),
        decreases n - i,
    {
        let ghost mid = out@;
        let c = s.get_char(i);
        if c == '"' {
            crate::keys::push_char(out, '\\');
            crate::keys::push_char(out, '"');
        } else if c == '\\' {
            crate::keys::push_char(out, '\\');
            crate::keys::push_char(out, '\\');
        } else if c == '\u{0008}' {
            crate::keys::push_char(out, '\\');
            crate::keys::push_char(out, 'b');
        } else if c == '\u{000C}' {
            crate::keys::push_char(out, '\\');
            crate::keys::push_char(out, 'f');
        } else if c == '\n' {
            crate::keys::push_char(out, '\\');
            crate::keys::push_char(out, 'n');
        } else if c == '\r' {
            crate::keys::push_char(out, '\\');
            crate::keys::push_char(out, 'r');
        } else if c == '\t' {
            crate::keys::push_char(out, '\\');
            crate::keys::push_char(out, 't');
        } else if (c as u32) < 0x20 {
            let u = c as u32;
            crate::keys::push_char(out, '\\');
            crate::keys::push_char(out, 'u');
            crate::keys::push_char(out, '0');
            crate::keys::push_char(out, '0');
            let h = hex_digit_exec(u / 16);
            crate::keys::push_char(out, h);
            let l = hex_digit_exec(u % 16);
            crate::keys::push_char(out, l);
        } else {
            crate::keys::push_char(out, c);
        }
        proof {
            assert(out@ =~= mid + esc_seq(s@[i as int]));
            assert(out@ =~= out0 + seq!['"'] + escaped_prefix(s@, i + 1));
        }
        i = i + 1;
    }
    crate::keys::push_char(out, '"');
    proof {
        assert(out@ =~= out0 + quoted(s@));
    }
}

/// Serializes a mapping for interchange: the flat object form that
/// `parse_import_document` reads back, fields in stored order.
pub fn serialize(m: &FlatMapping) -> (r: String)
    ensures
        r@ == serialize_spec(m.pairs@),
{
    let mut out = String::new();
    crate::keys::push_char(&mut out, '{');
    proof {
        assert(out@ =~= seq!['{'] + items_prefix(m.pairs@, 0));
    }
    let n = m.pairs.len();
    let mut j: usize = 0;
    while j < n
        invariant
            j <= n,
            n == m.pairs@.len(),
            out@ == seq!['{'] + items_prefix(m.pairs@, j as int),
        decreases n - j,
    {
        let ghost mid = out@;
        if j > 0 {
            crate::keys::push_char(&mut out, ',');
        }
        append_quoted(&mut out, m.pairs[j].0.as_str());
        crate::keys::push_char(&mut out, ':');
        append_quoted(&mut out, m.pairs[j].1.as_str());
        proof {
            let sep: Seq<char> = if j == 0 {
                Seq::empty()
            } else {
                seq![',']
            };
            assert(out@ =~= mid + sep + quoted(m.pairs@[j as int].0@) + seq![':'] + quoted(
                m.pairs@[j as int].1@,
            ));
            assert(out@ =~= seq!['{'] + items_prefix(m.pairs@, j + 1));
        }
        j = j + 1;
    }
    crate::keys::push_char(&mut out, '}');
    proof {
        assert(out@ =~= serialize_spec(m.pairs@));
    }
    out
}

/// The writing of the characters of `s` from position `k` on.
pub open spec fn esc_rest(s: Seq<char>, k: int) -> Seq<char>
    decreases s.len() - k,
{
    if k < 0 || k >= s.len() {
        Seq::empty()
    } else {
        esc_seq(s[k]) + esc_rest(s, k + 1)
    }
}

/// The two renderings of a written string agree: what was written up to a
/// position plus what follows it is the whole.
proof fn lemma_escaped_prefix_rest(s: Seq<char>, i: int)
    requires
        0 <= i <= s.len(),
    ensures
        escaped_prefix(s, i) + esc_rest(s, i) == esc_rest(s, 0),
    decreases i,
{
    if i == 0 {
        assert(escaped_prefix(s, 0) + esc_rest(s, 0) =~= esc_rest(s, 0));
    } else {
        lemma_escaped_prefix_rest(s, i - 1);
        assert(esc_seq(s[i - 1]) + esc_rest(s, i) == esc_rest(s, i - 1));
        assert(escaped_prefix(s, i) + esc_rest(s, i) =~= escaped_prefix(s, i - 1) + (esc_seq(
            s[i - 1],
        ) + esc_rest(s, i)));
        assert(escaped_prefix(s, i - 1) + esc_rest(s, i - 1) =~= escaped_prefix(s, i - 1) + (
        esc_seq(s[i - 1]) + esc_rest(s, i)));
    }
}

/// What a suffix of the text holds after a known prefix of it.
proof fn lemma_tail_after(t: Seq<char>, i: int, pre: Seq<char>, rest: Seq<char>)
    requires
        0 <= i <= t.len(),
        t.subrange(i, t.len() as int) == pre + rest,
    ensures
        i + pre.len() + rest.len() == t.len(),
        t.subrange(i + pre.len(), t.len() as int) == rest,
        forall|j: int| i <= j < t.len() ==> t[j] == (pre + rest)[j - i],
{
    assert((pre + rest).len() == t.len() - i);
    assert forall|j: int| i <= j < t.len() implies t[j] == (pre + rest)[j - i] by {
        assert(t.subrange(i, t.len() as int)[j - i] == t[j]);
    }
    assert forall|d: int|
        0 <= d < rest.len() implies t.subrange(i + pre.len(), t.len() as int)[d] == rest[d] by {
        assert(t.subrange(i + pre.len(), t.len() as int)[d] == t[i + pre.len() + d]);
        assert(t[i + pre.len() + d] == (pre + rest)[pre.len() + d]);
    }
    assert(t.subrange(i + pre.len(), t.len() as int) =~= rest);
}

/// Reading back one written hexadecimal digit gives the digit.
proof fn lemma_hex_digit_val(v: u32)
    requires
        v < 16,
    ensures
        hex_val(hex_digit(v)) == Some(v),
{
}

/// Written string content parses back: from a position where the text
/// holds the writing of `s[k..]`, then a quote, the parser returns exactly
/// the remaining characters and stops after the quote.
#[verifier::rlimit(100)]
proof fn lemma_parse_escaped(
    t: Seq<char>,
    i: int,
    s: Seq<char>,
    k: int,
    acc: Seq<char>,
    tail: Seq<char>,
)
    requires
        0 <= i <= t.len(),
        0 <= k <= s.len(),
        t.subrange(i, t.len() as int) == esc_rest(s, k) + seq!['"'] + tail,
    ensures
        parse_string_body(t, i, acc) == Some((acc + s.skip(k), t.len() - tail.len())),
    decreases s.len() - k,
{
    let whole = esc_rest(s, k) + seq!['"'] + tail;
    assert(whole.len() == t.len() - i);
    assert forall|j: int| i <= j < t.len() implies t[j] == whole[j - i] by {
        assert(t.subrange(i, t.len() as int)[j - i] == t[j]);
    }
    if k == s.len() {
        assert(esc_rest(s, k) =~= Seq::<char>::empty());
        assert(whole =~= seq!['"'] + tail);
        assert(t[i] == '"');
        assert(acc + s.skip(k) =~= acc);
        assert(t.len() - tail.len() == i + 1);
    } else {
        let c = s[k];
        let e = esc_seq(c);
        assert(esc_rest(s, k) == e + esc_rest(s, k + 1));
        let rest2 = esc_rest(s, k + 1) + seq!['"'] + tail;
        assert(whole =~= e + rest2);
        assert(t.subrange(i, t.len() as int) == e + rest2);
        lemma_tail_after(t, i, e, rest2);
        assert(acc.push(c) + s.skip(k + 1) =~= acc + s.skip(k)) by {
            assert(s.skip(k).len() == s.len() - k);
            assert forall|d: int| 0 <= d < s.len() - k implies s.skip(k)[d] == s[k + d] by {}
        }
        if c == '"' || c == '\\' || c == '\u{0008}' || c == '\u{000C}' || c == '\n' || c == '\r'
            || c == '\t' {
            assert(e.len() == 2);
            assert(t[i] == '\\');
            assert(t[i + 1] == e[1]);
            assert(e[1] != 'u');
            assert(esc_char(e[1]) == Some(c));
            lemma_parse_escaped(t, i + 2, s, k + 1, acc.push(c), tail);
        } else if (c as u32) < 0x20 {
            let u = c as u32;
            assert(e.len() == 6);
            assert(t[i] == '\\' && t[i + 1] == 'u');
            assert(t[i + 2] == '0' && t[i + 3] == '0');
            assert(t[i + 4] == hex_digit(u / 16) && t[i + 5] == hex_digit(u % 16));
            assert(hex_val('0') == Some(0u32));
            lemma_hex_digit_val(u / 16);
            lemma_hex_digit_val(u % 16);
            assert(i + 2 + 4 <= t.len());
            assert(hex4(t, i + 2) == Some((u / 16 * 16 + u % 16) as u32));
            assert(u / 16 * 16 + u % 16 == u);
            assert(hex4(t, i + 2) == Some(u));
            assert(u < 0xD800);
            vstd::utf8::char_u32_cast(c, u);
            assert(u_escape(t, i + 2) == Some((c, i + 6)));
            lemma_parse_escaped(t, i + 6, s, k + 1, acc.push(c), tail);
        } else {
            assert(e.len() == 1);
            assert(t[i] == c);
            assert(c != '"' && c != '\\');
            lemma_parse_escaped(t, i + 1, s, k + 1, acc.push(c), tail);
        }
    }
}

/// One serialized member.
pub open spec fn item_of(p: (String, String)) -> Seq<char> {
    quoted(p.0@) + seq![':'] + quoted(p.1@)
}

/// The serialized members from `j` on, a comma after each but the last.
pub open spec fn items_rest(ps: Seq<(String, String)>, j: int) -> Seq<char>
    decreases ps.len() - j,
{
    if j < 0 || j >= ps.len() {
        Seq::empty()
    } else {
        item_of(ps[j]) + (if j + 1 < ps.len() {
            seq![',']
        } else {
            Seq::empty()
        }) + items_rest(ps, j + 1)
    }
}

/// The two renderings of the member list agree: the first `i` members plus
/// the rest, comma between, is the whole.
proof fn lemma_items_bridge(ps: Seq<(String, String)>, i: int)
    requires
        0 <= i <= ps.len(),
    ensures
        items_prefix(ps, ps.len() as int) == items_prefix(ps, i) + (if i >= ps.len() {
            Seq::<char>::empty()
        } else if i == 0 {
            items_rest(ps, 0)
        } else {
            seq![','] + items_rest(ps, i)
        }),
    decreases ps.len() - i,
{
    let n = ps.len() as int;
    if i < n {
        lemma_items_bridge(ps, i + 1);
        let sep_before: Seq<char> = if i == 0 {
            Seq::empty()
        } else {
            seq![',']
        };
        assert(items_prefix(ps, i + 1) =~= items_prefix(ps, i) + sep_before + item_of(ps[i]));
        if i + 1 >= n {
            assert(items_rest(ps, i + 1) =~= Seq::<char>::empty());
            assert(items_rest(ps, i) =~= item_of(ps[i]) + Seq::<char>::empty()
                + Seq::<char>::empty());
            assert(items_rest(ps, i) =~= item_of(ps[i]));
            assert(items_prefix(ps, n) =~= items_prefix(ps, i) + sep_before + items_rest(ps, i));
        } else {
            assert(items_rest(ps, i) =~= item_of(ps[i]) + seq![','] + items_rest(ps, i + 1));
            assert(items_prefix(ps, n) =~= items_prefix(ps, i + 1) + seq![','] + items_rest(
                ps,
                i + 1,
            ));
            assert(items_prefix(ps, n) =~= items_prefix(ps, i) + sep_before + items_rest(ps, i));
        }
    } else {
        assert(items_prefix(ps, n) =~= items_prefix(ps, i) + Seq::<char>::empty());
    }
}

/// A written string literal parses back to its content.
#[verifier::rlimit(100)]
proof fn lemma_parse_quoted(t: Seq<char>, i: int, s: Seq<char>, tail: Seq<char>)
    requires
        0 <= i <= t.len(),
        t.subrange(i, t.len() as int) == quoted(s) + tail,
    ensures
        t[i] == '"',
        parse_string_body(t, i + 1, Seq::empty()) == Some((s, t.len() - tail.len())),
        i < t.len(),
{
    let body = escaped_prefix(s, s.len() as int) + seq!['"'] + tail;
    assert(quoted(s) + tail =~= seq!['"'] + body);
    lemma_tail_after(t, i, seq!['"'], body);
    assert(t[i] == (seq!['"'] + body)[0]);
    lemma_escaped_prefix_rest(s, s.len() as int);
    assert(esc_rest(s, s.len() as int) =~= Seq::<char>::empty());
    assert(escaped_prefix(s, s.len() as int) =~= esc_rest(s, 0));
    assert(t.subrange(i + 1, t.len() as int) == esc_rest(s, 0) + seq!['"'] + tail) by {
        assert(body =~= esc_rest(s, 0) + seq!['"'] + tail);
    }
    lemma_parse_escaped(t, i + 1, s, 0, Seq::empty(), tail);
    assert(Seq::<char>::empty() + s.skip(0) =~= s);
}

/// The first character of a written string literal is its quote.
proof fn lemma_quoted_first(s: Seq<char>)
    ensures
        quoted(s).len() >= 2,
        quoted(s)[0] == '"',
{
    assert(quoted(s)[0] == (seq!['"'] + escaped_prefix(s, s.len() as int))[0]);
}

/// The first character of the remaining members is the next key's quote.
proof fn lemma_items_rest_first(ps: Seq<(String, String)>, j: int)
    requires
        0 <= j < ps.len(),
    ensures
        items_rest(ps, j).len() >= 1,
        items_rest(ps, j)[0] == '"',
{
    lemma_quoted_first(ps[j].0@);
    assert(item_of(ps[j])[0] == quoted(ps[j].0@)[0]);
    assert(items_rest(ps, j)[0] == item_of(ps[j])[0]);
}

/// One written member parses back: the key, the colon, the value, each at
/// its place, with the rest of the text untouched after it.
#[verifier::rlimit(100)]
proof fn lemma_parse_member(t: Seq<char>, i: int, kv: Seq<char>, vv: Seq<char>, after: Seq<char>)
    requires
        0 <= i <= t.len(),
        t.subrange(i, t.len() as int) == quoted(kv) + seq![':'] + quoted(vv) + after,
    ensures
        i < t.len(),
        t[i] == '"',
        ({
            let p1 = t.len() - after.len() - quoted(vv).len() - 1;
            let p2 = t.len() - after.len();
            &&& i + 1 <= p1 < p1 + 1 < t.len()
            &&& parse_string_body(t, i + 1, Seq::<char>::empty()) == Some((kv, p1))
            &&& t[p1] == ':'
            &&& skip_ws(t, p1) == p1
            &&& t[p1 + 1] == '"'
            &&& skip_ws(t, p1 + 1) == p1 + 1
            &&& parse_string_body(t, p1 + 2, Seq::<char>::empty()) == Some((vv, p2))
            &&& p2 <= t.len()
            &&& t.subrange(p2, t.len() as int) == after
        }),
{
    let t1 = seq![':'] + quoted(vv) + after;
    assert(t.subrange(i, t.len() as int) == quoted(kv) + t1) by {
        assert(quoted(kv) + seq![':'] + quoted(vv) + after =~= quoted(kv) + t1);
    }
    lemma_parse_quoted(t, i, kv, t1);
    lemma_tail_after(t, i, quoted(kv), t1);
    let p1 = t.len() - t1.len();
    assert(t.subrange(p1, t.len() as int) == t1);
    assert(t[p1] == ':') by {
        assert(t.subrange(p1, t.len() as int)[0] == t[p1]);
        assert(t1[0] == (seq![':'] + quoted(vv))[0]);
    }
    assert(skip_ws(t, p1) == p1);
    let t2 = quoted(vv) + after;
    assert(t.subrange(p1 + 1, t.len() as int) == t2) by {
        assert(t1 =~= seq![':'] + t2);
        lemma_tail_after(t, p1, seq![':'], t2);
    }
    lemma_parse_quoted(t, p1 + 1, vv, after);
    lemma_tail_after(t, p1 + 1, quoted(vv), after);
    assert(t[p1 + 1] == '"');
    assert(skip_ws(t, p1 + 1) == p1 + 1);
    assert(t1.len() == 1 + quoted(vv).len() + after.len());
}

/// Serialized members parse back: from the first key's quote, the parser
/// collects exactly the remaining pairs and stops after the brace.
#[verifier::rlimit(100)]
proof fn lemma_parse_items(
    t: Seq<char>,
    i: int,
    ps: Seq<(String, String)>,
    j: int,
    acc: Seq<(Seq<char>, Seq<char>)>,
    tail: Seq<char>,
)
    requires
        0 <= i <= t.len(),
        0 <= j < ps.len(),
        t.subrange(i, t.len() as int) == items_rest(ps, j) + seq!['}'] + tail,
    ensures
        parse_members(t, i, acc) == Some((acc + pair_views(ps).skip(j), t.len() - tail.len())),
    decreases ps.len() - j,
{
    let kv = ps[j].0@;
    let vv = ps[j].1@;
    let post: Seq<char> = if j + 1 < ps.len() {
        seq![',']
    } else {
        Seq::empty()
    };
    let after = post + items_rest(ps, j + 1) + seq!['}'] + tail;
    assert(t.subrange(i, t.len() as int) == quoted(kv) + seq![':'] + quoted(vv) + after) by {
        assert(items_rest(ps, j) == item_of(ps[j]) + post + items_rest(ps, j + 1));
        assert(items_rest(ps, j) + seq!['}'] + tail =~= quoted(kv) + seq![':'] + quoted(vv)
            + after);
    }
    lemma_parse_member(t, i, kv, vv, after);
    let p1 = t.len() - after.len() - quoted(vv).len() - 1;
    let p2 = t.len() - after.len();
    assert(pair_views(ps).skip(j).len() == ps.len() - j);
    assert(acc.push((kv, vv)) + pair_views(ps).skip(j + 1) =~= acc + pair_views(ps).skip(j)) by {
        assert forall|d: int| 0 <= d < ps.len() - j implies #[trigger] pair_views(ps).skip(j)[d]
            == pair_views(ps)[j + d] by {}
        assert forall|d: int|
            0 <= d < ps.len() - j - 1 implies #[trigger] pair_views(ps).skip(j + 1)[d]
            == pair_views(ps)[j + 1 + d] by {}
    }
    if j + 1 < ps.len() {
        let next = items_rest(ps, j + 1) + seq!['}'] + tail;
        assert(t.subrange(p2, t.len() as int) == seq![','] + next) by {
            assert(after =~= seq![','] + next);
        }
        lemma_tail_after(t, p2, seq![','], next);
        assert(t[p2] == ',') by {
            assert(t.subrange(p2, t.len() as int)[0] == t[p2]);
            assert((seq![','] + next)[0] == ',');
        }
        assert(skip_ws(t, p2) == p2);
        assert(t.subrange(p2 + 1, t.len() as int) == next);
        assert(t[p2 + 1] == '"') by {
            lemma_items_rest_first(ps, j + 1);
            assert(t.subrange(p2 + 1, t.len() as int)[0] == t[p2 + 1]);
            assert(next[0] == items_rest(ps, j + 1)[0]);
        }
        assert(skip_ws(t, p2 + 1) == p2 + 1);
        lemma_parse_items(t, p2 + 1, ps, j + 1, acc.push((kv, vv)), tail);
    } else {
        assert(t.subrange(p2, t.len() as int) == seq!['}'] + tail) by {
            assert(after =~= seq!['}'] + tail);
        }
        lemma_tail_after(t, p2, seq!['}'], tail);
        assert(t[p2] == '}') by {
            assert(t.subrange(p2, t.len() as int)[0] == t[p2]);
            assert((seq!['}'] + tail)[0] == '}');
        }
        assert(skip_ws(t, p2) == p2);
        assert(t.len() - tail.len() == p2 + 1);
        assert(pair_views(ps).skip(j) =~= seq![(kv, vv)]);
        assert(acc.push((kv, vv)) =~= acc + pair_views(ps).skip(j));
    }
}

/// The interchange form round-trips: the parser accepts exactly what
/// `serialize` wrote, returns the same pairs, and the mapping they denote
/// is the serialized mapping itself.
#[verifier::rlimit(100)]
pub proof fn lemma_serialize_parse_round_trip(ps: Seq<(String, String)>)
    ensures
        parse_doc(serialize_spec(ps)) == Some(pair_views(ps)),
        doc_map(pair_views(ps)) == pairs_map(ps),
{
    let t = serialize_spec(ps);
    let n = ps.len() as int;
    let inner = items_prefix(ps, n) + seq!['}'];
    assert(t.subrange(0, t.len() as int) == seq!['{'] + inner) by {
        assert(t.subrange(0, t.len() as int) =~= t);
        assert(t =~= seq!['{'] + inner);
    }
    lemma_tail_after(t, 0, seq!['{'], inner);
    assert(t[0] == '{') by {
        assert(t.subrange(0, t.len() as int)[0] == t[0]);
        assert((seq!['{'] + inner)[0] == '{');
    }
    assert(skip_ws(t, 0) == 0);
    assert(t.subrange(1, t.len() as int) == inner);
    if ps.len() == 0 {
        assert(items_prefix(ps, 0) =~= Seq::<char>::empty());
        assert(inner =~= seq!['}']);
        assert(t.len() == 2);
        assert(t[1] == '}') by {
            assert(t.subrange(1, t.len() as int)[0] == t[1]);
        }
        assert(skip_ws(t, 1) == 1);
        assert(skip_ws(t, 2) == 2);
        assert(parse_doc(t) == Some(Seq::<(Seq<char>, Seq<char>)>::empty()));
        assert(pair_views(ps) =~= Seq::<(Seq<char>, Seq<char>)>::empty());
    } else {
        lemma_items_bridge(ps, 0);
        assert(items_prefix(ps, n) == items_rest(ps, 0));
        assert(t.subrange(1, t.len() as int) == items_rest(ps, 0) + seq!['}']
            + Seq::<char>::empty()) by {
            assert(inner =~= items_rest(ps, 0) + seq!['}'] + Seq::<char>::empty());
        }
        assert(t[1] == '"') by {
            lemma_items_rest_first(ps, 0);
            assert(t.subrange(1, t.len() as int)[0] == t[1]);
            assert((items_rest(ps, 0) + seq!['}'] + Seq::<char>::empty())[0] == items_rest(
                ps,
                0,
            )[0]);
        }
        assert(skip_ws(t, 1) == 1);
        lemma_parse_items(t, 1, ps, 0, Seq::empty(), Seq::empty());
        assert(Seq::<(Seq<char>, Seq<char>)>::empty() + pair_views(ps).skip(0) =~= pair_views(
            ps,
        ));
        assert(skip_ws(t, t.len() as int) == t.len());
        assert(parse_doc(t) == Some(pair_views(ps)));
    }
    lemma_doc_map_pairs(ps);
}

/// The mapping the parsed pairs denote is the mapping the pairs came from.
proof fn lemma_doc_map_pairs(ps: Seq<(String, String)>)
    ensures
        doc_map(pair_views(ps)) == pairs_map(ps),
    decreases ps.len(),
{
    if ps.len() > 0 {
        lemma_doc_map_pairs(ps.drop_last());
        assert(pair_views(ps).drop_last() =~= pair_views(ps.drop_last()));
        assert(pair_views(ps).last() == (ps.last().0@, ps.last().1@));
        assert(pair_views(ps).len() == ps.len());
    } else {
        assert(pair_views(ps).len() == 0);
    }
}

} // verus!
