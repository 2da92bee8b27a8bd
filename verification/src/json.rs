//! The wire format: a flat JSON object whose values are strings (files)
//! or nested objects (directories), with no explicit type tag. The
//! encoder emits the canonical text; the parser accepts the grammar with
//! interior whitespace, the short escapes, and single `\uXXXX` escapes
//! (surrogate pairs stay out), and decoding an encoded tree gives the
//! tree back.

use vstd::prelude::*;
use crate::text::chars_to_string;
use crate::text::str_to_chars;
use crate::tree::FileOrDirectory;
use crate::tree::FileSystem;
use crate::tree::Node;
use crate::tree::entry_model;
use crate::tree::fs_model;
use crate::tree::pairs_model;
use crate::tree::node_wf;
use crate::tree::entries_wf;
use crate::tree::tree_is_wf;

verus! {

/// JSON whitespace.
pub open spec fn is_ws(c: char) -> bool {
    c == ' ' || c == '\n' || c == '\t' || c == '\r'
}

/// The value of a hexadecimal digit, or a negative number.
pub open spec fn hex_val(c: char) -> int {
    if 48 <= c as u32 <= 57 {
        c as u32 - 48
    } else if 97 <= c as u32 <= 102 {
        c as u32 - 87
    } else if 65 <= c as u32 <= 70 {
        c as u32 - 55
    } else {
        -1
    }
}

/// The lowercase hexadecimal digit of a value below sixteen.
pub open spec fn hex_digit(n: int) -> char {
    if n < 10 {
        ((48 + n) as u8) as char
    } else {
        ((87 + n) as u8) as char
    }
}

/// How one character is written inside a JSON string: itself, a short
/// escape, or a `\u00XX` escape for the remaining control characters.
pub open spec fn esc_char(c: char) -> Seq<char> {
    if c == '"' {
        seq!['\\', '"']
    } else if c == '\\' {
        seq!['\\', '\\']
    } else if c == '\n' {
        seq!['\\', 'n']
    } else if c == '\r' {
        seq!['\\', 'r']
    } else if c == '\t' {
        seq!['\\', 't']
    } else if c == '\u{8}' {
        seq!['\\', 'b']
    } else if c == '\u{c}' {
        seq!['\\', 'f']
    } else if (c as u32) < 32 {
        let hi = hex_digit(((c as u32) / 16) as int);
        let lo = hex_digit(((c as u32) % 16) as int);
        seq!['\\', 'u', '0', '0', hi, lo]
    } else {
        seq![c]
    }
}

/// The body of a JSON string: each character escaped as needed.
pub open spec fn enc_chars(cs: Seq<char>) -> Seq<char>
    decreases cs.len(),
{
    if cs.len() == 0 {
        Seq::empty()
    } else {
        esc_char(cs[0]) + enc_chars(cs.drop_first())
    }
}

/// A JSON string: the escaped body in quotes.
pub open spec fn enc_string(cs: Seq<char>) -> Seq<char> {
    seq!['"'] + enc_chars(cs) + seq!['"']
}

/// The text of one entry value: a string for a file, an object for a
/// directory.
pub open spec fn enc_node(n: Node) -> Seq<char>
    decreases n,
{
    match n {
        Node::File(cs) => enc_string(cs),
        Node::Dir(m) => seq!['{'] + enc_members(m) + seq!['}'],
    }
}

/// The members of an object: `"key":value`, comma-separated.
pub open spec fn enc_members(m: Seq<(Seq<char>, Node)>) -> Seq<char>
    decreases m,
{
    if m.len() == 0 {
        Seq::empty()
    } else {
        {
            proof {
                assert(decreases_to!(m => m[0]));
            }
            enc_string(m[0].0) + seq![':'] + enc_node(m[0].1) + (if m.len() > 1 {
                proof {
                    assert(decreases_to!(m => m.drop_first()));
                }
                seq![','] + enc_members(m.drop_first())
            } else {
                Seq::empty()
            })
        }
    }
}

/// The whole document: the root directory as one JSON object.
pub open spec fn spec_encode(m: Seq<(Seq<char>, Node)>) -> Seq<char> {
    enc_node(Node::Dir(m))
}

/// The number of whitespace characters running from position `i`.
pub open spec fn ws_len(s: Seq<char>, i: int) -> nat
    decreases s.len() - i,
{
    if 0 <= i < s.len() && is_ws(s[i]) {
        (1 + ws_len(s, i + 1)) as nat
    } else {
        0
    }
}

/// The first non-whitespace position at or after `i`.
pub open spec fn skip_ws(s: Seq<char>, i: int) -> int {
    i + ws_len(s, i)
}

/// A whitespace run never runs past the end of the text.
pub proof fn lemma_ws_len_bound(s: Seq<char>, i: int)
    requires
        0 <= i <= s.len(),
    ensures
        i <= skip_ws(s, i) <= s.len(),
    decreases s.len() - i,
{
    if i < s.len() && is_ws(s[i]) {
        lemma_ws_len_bound(s, i + 1);
    }
}

/// The character a short escape stands for.
pub open spec fn unesc(e: char) -> char {
    if e == 'n' {
        '\n'
    } else if e == 'r' {
        '\r'
    } else if e == 't' {
        '\t'
    } else if e == 'b' {
        '\u{8}'
    } else if e == 'f' {
        '\u{c}'
    } else {
        e
    }
}

/// Whether `e` is one of the short escape letters after a backslash.
pub open spec fn is_short_escape(e: char) -> bool {
    e == '"' || e == '\\' || e == '/' || e == 'n' || e == 'r' || e == 't' || e == 'b' || e == 'f'
}

/// Parses the body of a string from `i` up to the closing quote, giving
/// the characters and the position after the quote.
pub open spec fn parse_chars(s: Seq<char>, i: int) -> Option<(Seq<char>, int)>
    decreases s.len() - i,
{
    if i < 0 || i >= s.len() {
        None
    } else if s[i] == '"' {
        Some((Seq::empty(), i + 1))
    } else if s[i] == '\\' {
        if i + 1 >= s.len() {
            None
        } else {
            let e = s[i + 1];
            if is_short_escape(e) {
                match parse_chars(s, i + 2) {
                    Option::None => None,
                    Option::Some((cs, j)) => Some((seq![unesc(e)] + cs, j)),
                }
            } else if e == 'u' {
                if i + 5 >= s.len() {
                    None
                } else if hex_val(s[i + 2]) >= 0 && hex_val(s[i + 3]) >= 0 && hex_val(s[i + 4])
                    >= 0 && hex_val(s[i + 5]) >= 0 {
                    let code = 4096 * hex_val(s[i + 2]) + 256 * hex_val(s[i + 3]) + 16 * hex_val(
                        s[i + 4],
                    ) + hex_val(s[i + 5]);
                    if 0xD800 <= code <= 0xDFFF {
                        None
                    } else {
                        match parse_chars(s, i + 6) {
                            Option::None => None,
                            Option::Some((cs, j)) => Some((seq![(code as u32) as char] + cs, j)),
                        }
                    }
                } else {
                    None
                }
            } else {
                None
            }
        }
    } else if (s[i] as u32) < 32 {
        None
    } else {
        match parse_chars(s, i + 1) {
            Option::None => None,
            Option::Some((cs, j)) => Some((seq![s[i]] + cs, j)),
        }
    }
}

/// Parses a quoted string starting at `i`.
pub open spec fn parse_string(s: Seq<char>, i: int) -> Option<(Seq<char>, int)> {
    if 0 <= i < s.len() && s[i] == '"' {
        parse_chars(s, i + 1)
    } else {
        None
    }
}

/// Parses a value: a string (a file) or an object (a directory).
pub open spec fn parse_value(s: Seq<char>, i: int) -> Option<(Node, int)>
    decreases s.len() - i, 2int,
{
    if i < 0 || i >= s.len() {
        None
    } else if s[i] == '"' {
        match parse_string(s, i) {
            Option::None => None,
            Option::Some((cs, j)) => Some((Node::File(cs), j)),
        }
    } else if s[i] == '{' {
        match parse_object(s, i) {
            Option::None => None,
            Option::Some((m, j)) => Some((Node::Dir(m), j)),
        }
    } else {
        None
    }
}

/// Parses an object starting at its opening brace.
pub open spec fn parse_object(s: Seq<char>, i: int) -> Option<(Seq<(Seq<char>, Node)>, int)>
    decreases s.len() - i, 1int,
{
    if i < 0 || i >= s.len() || s[i] != '{' {
        None
    } else {
        {
            proof {
                lemma_ws_len_bound(s, i + 1);
            }
            let j = skip_ws(s, i + 1);
            if j < s.len() && s[j] == '}' {
                Some((Seq::empty(), j + 1))
            } else {
                parse_members(s, j)
            }
        }
    }
}

/// Parses one or more `"key":value` members and the closing brace.
pub open spec fn parse_members(s: Seq<char>, i: int) -> Option<(Seq<(Seq<char>, Node)>, int)>
    decreases s.len() - i, 0int,
{
    match parse_string(s, i) {
        Option::None => None,
        Option::Some((key, j)) => {
            if j <= i || j > s.len() {
                None
            } else {
                {
                    proof {
                        lemma_ws_len_bound(s, j);
                    }
                    let j2 = skip_ws(s, j);
                    if j2 < s.len() && s[j2] == ':' {
                        proof {
                            lemma_ws_len_bound(s, j2 + 1);
                        }
                        let j3 = skip_ws(s, j2 + 1);
                        match parse_value(s, j3) {
                            Option::None => None,
                            Option::Some((val, j4)) => {
                                if j4 <= j3 || j4 > s.len() {
                                    None
                                } else {
                                    {
                                        proof {
                                            lemma_ws_len_bound(s, j4);
                                        }
                                        let j5 = skip_ws(s, j4);
                                        if j5 < s.len() && s[j5] == ',' {
                                            proof {
                                                lemma_ws_len_bound(s, j5 + 1);
                                            }
                                            let j6 = skip_ws(s, j5 + 1);
                                            match parse_members(s, j6) {
                                                Option::None => None,
                                                Option::Some((rest, j7)) => Some(
                                                    (seq![(key, val)] + rest, j7),
                                                ),
                                            }
                                        } else if j5 < s.len() && s[j5] == '}' {
                                            Some((seq![(key, val)], j5 + 1))
                                        } else {
                                            None
                                        }
                                    }
                                }
                            },
                        }
                    } else {
                        None
                    }
                }
            }
        },
    }
}

/// Decodes a whole document: one object, possibly surrounded by
/// whitespace, whose directories all have unique names.
pub open spec fn spec_decode(s: Seq<char>) -> Option<Seq<(Seq<char>, Node)>> {
    let i = skip_ws(s, 0);
    match parse_object(s, i) {
        Option::None => None,
        Option::Some((m, j)) => if skip_ws(s, j) == s.len() && node_wf(Node::Dir(m)) {
            Some(m)
        } else {
            None
        },
    }
}

fn hex_digit_exec(n: u8) -> (r: char)
    requires
        n < 16,
    ensures
        r == hex_digit(n as int),
{
    if n < 10 {
        (48 + n) as char
    } else {
        (87 + n) as char
    }
}

fn push_esc(out: &mut Vec<char>, c: char)
    ensures
        final(out)@ == old(out)@ + esc_char(c),
{
    if c == '"' {
        out.push('\\');
        out.push('"');
    } else if c == '\\' {
        out.push('\\');
        out.push('\\');
    } else if c == '\n' {
        out.push('\\');
        out.push('n');
    } else if c == '\r' {
        out.push('\\');
        out.push('r');
    } else if c == '\t' {
        out.push('\\');
        out.push('t');
    } else if c == '\u{8}' {
        out.push('\\');
        out.push('b');
    } else if c == '\u{c}' {
        out.push('\\');
        out.push('f');
    } else if (c as u32) < 32 {
        let u = c as u32;
        out.push('\\');
        out.push('u');
        out.push('0');
        out.push('0');
        out.push(hex_digit_exec((u / 16) as u8));
        out.push(hex_digit_exec((u % 16) as u8));
    } else {
        out.push(c);
    }
    proof {
        assert(out@ =~= old(out)@ + esc_char(c));
    }
}

fn encode_str(out: &mut Vec<char>, t: &str)
    ensures
        final(out)@ == old(out)@ + enc_string(t@),
{
    out.push('"');
    let n = t.unicode_len();
    let mut i: usize = 0;
    let ghost mut done: Seq<char> = Seq::empty();
    proof {
        assert(out@ =~= old(out)@ + seq!['"'] + done);
        assert(t@.skip(0) =~= t@);
    }
    while i < n
        invariant
            0 <= i <= n,
            n == t@.len(),
            out@ == old(out)@ + seq!['"'] + done,
            done + enc_chars(t@.skip(i as int)) == enc_chars(t@),
        decreases n - i,
    {
        let c = t.get_char(i);
        proof {
            assert(t@.skip(i as int)[0] == t@[i as int]);
            assert(t@.skip(i as int).drop_first() =~= t@.skip(i as int + 1));
        }
        push_esc(out, c);
        proof {
            let done2 = done + esc_char(c);
            assert(out@ =~= old(out)@ + seq!['"'] + done2);
            assert(done2 + enc_chars(t@.skip(i as int + 1)) =~= done + enc_chars(
                t@.skip(i as int),
            ));
            done = done2;
        }
        i += 1;
    }
    proof {
        assert(t@.skip(n as int) =~= Seq::<char>::empty());
        assert(done =~= enc_chars(t@));
    }
    out.push('"');
    proof {
        assert(out@ =~= old(out)@ + enc_string(t@));
    }
}

fn encode_entry(out: &mut Vec<char>, e: &FileOrDirectory)
    ensures
        final(out)@ == old(out)@ + enc_node(entry_model(*e)),
    decreases e, 0int,
{
    match e {
        FileOrDirectory::File(t) => {
            encode_str(out, t.as_str());
        },
        FileOrDirectory::Directory(v) => {
            out.push('{');
            proof {
                assert(pairs_model(v@).skip(0) =~= pairs_model(v@));
            }
            encode_pairs(out, v, 0);
            out.push('}');
            proof {
                assert(out@ =~= old(out)@ + enc_node(entry_model(*e)));
            }
        },
    }
}

fn encode_pairs(out: &mut Vec<char>, v: &Vec<(String, FileOrDirectory)>, idx: usize)
    requires
        idx <= v@.len(),
    ensures
        final(out)@ == old(out)@ + enc_members(pairs_model(v@).skip(idx as int)),
    decreases v, v@.len() - idx,
{
    let ghost m = pairs_model(v@);
    if idx < v.len() {
        proof {
            assert(m.skip(idx as int)[0] == m[idx as int]);
            assert(m.skip(idx as int).drop_first() =~= m.skip(idx as int + 1));
            assert(decreases_to!(v => v@));
            assert(decreases_to!(v@ => v@[idx as int]));
        }
        encode_str(out, v[idx].0.as_str());
        out.push(':');
        encode_entry(out, &v[idx].1);
        if idx + 1 < v.len() {
            out.push(',');
            encode_pairs(out, v, idx + 1);
            proof {
                assert(out@ =~= old(out)@ + enc_members(m.skip(idx as int)));
            }
        } else {
            proof {
                assert(m.skip(idx as int).len() == 1);
                assert(out@ =~= old(out)@ + enc_members(m.skip(idx as int)));
            }
        }
    } else {
        proof {
            assert(m.skip(idx as int) =~= Seq::<(Seq<char>, Node)>::empty());
            assert(out@ =~= old(out)@ + enc_members(m.skip(idx as int)));
        }
    }
}

/// Writes the whole tree as its canonical document text.
pub fn encode_document(fs: &FileSystem) -> (r: String)
    ensures
        r@ == spec_encode(fs_model(*fs)),
{
    let mut out: Vec<char> = Vec::new();
    out.push('{');
    proof {
        assert(fs_model(*fs).skip(0) =~= fs_model(*fs));
    }
    encode_pairs(&mut out, &fs.entries, 0);
    out.push('}');
    proof {
        assert(out@ =~= spec_encode(fs_model(*fs)));
    }
    chars_to_string(&out)
}

/// Relies on `char::from_u32`: the character bearing the given code
/// point, or nothing when the value is a surrogate or above the Unicode
/// scalar range.
pub assume_specification[ char::from_u32 ](v: u32) -> (r: Option<char>)
    ensures
        r is Some <==> (v <= 0x10FFFF && !(0xD800 <= v <= 0xDFFF)),
        r matches Some(c) ==> c as u32 == v,
;

/// Every `char` value lies in the Unicode scalar range, so casting it
/// to `u32` keeps its code point.
proof fn lemma_char_bound(c: char)
    ensures
        c as u32 as int == c as int,
        0 <= c as int <= 0x10FFFF,
{
}

/// A hexadecimal digit reads back as its value.
proof fn lemma_hex_round(k: int)
    requires
        0 <= k < 16,
    ensures
        hex_val(hex_digit(k)) == k,
{
    lemma_char_bound(hex_digit(k));
}

/// Splitting a matched concatenation at its seam.
proof fn lemma_sub_match(s: Seq<char>, i: int, a: Seq<char>, b: Seq<char>)
    requires
        0 <= i,
        i + a.len() + b.len() <= s.len(),
        s.subrange(i, i + a.len() + b.len()) == a + b,
    ensures
        s.subrange(i, i + a.len()) == a,
        s.subrange(i + a.len(), i + a.len() + b.len()) == b,
{
    assert(s.subrange(i, i + a.len()) =~= a) by {
        assert forall|k: int| 0 <= k < a.len() implies s[i + k] == a[k] by {
            assert(s.subrange(i, i + a.len() + b.len())[k] == s[i + k]);
            assert((a + b)[k] == a[k]);
        }
    }
    assert(s.subrange(i + a.len(), i + a.len() + b.len()) =~= b) by {
        assert forall|k: int| 0 <= k < b.len() implies s[i + a.len() + k] == b[k] by {
            assert(s.subrange(i, i + a.len() + b.len())[a.len() + k] == s[i + a.len() + k]);
            assert((a + b)[a.len() + k] == b[k]);
        }
    }
}

/// The parser reads an escaped string body back as the characters the
/// encoder escaped, stopping at the closing quote.
proof fn lemma_parse_chars_enc(s: Seq<char>, i: int, cs: Seq<char>)
    requires
        0 <= i,
        i + enc_chars(cs).len() < s.len(),
        s.subrange(i, i + enc_chars(cs).len()) == enc_chars(cs),
        s[i + enc_chars(cs).len()] == '"',
    ensures
        parse_chars(s, i) == Some((cs, i + enc_chars(cs).len() + 1)),
    decreases cs.len(),
{
    let l = enc_chars(cs).len() as int;
    if cs.len() == 0 {
        assert(l == 0);
        assert(s[i] == '"');
    } else {
        let c = cs[0];
        let rest = cs.drop_first();
        let ec = esc_char(c);
        let er = enc_chars(rest);
        assert(enc_chars(cs) == ec + er);
        lemma_sub_match(s, i, ec, er);
        let e1 = ec.len() as int;
        assert(i + e1 + er.len() == i + l);
        assert forall|k: int| 0 <= k < e1 implies s[i + k] == ec[k] by {
            assert(s.subrange(i, i + e1)[k] == s[i + k]);
        }
        lemma_char_bound(c);
        lemma_parse_chars_enc(s, i + e1, rest);
        assert(seq![c] + rest =~= cs);
        if c == '"' {
            assert(s[i] == '\\' && s[i + 1] == '"');
            assert(parse_chars(s, i) == Some((cs, i + l + 1)));
        } else if c == '\\' {
            assert(s[i] == '\\' && s[i + 1] == '\\');
            assert(parse_chars(s, i) == Some((cs, i + l + 1)));
        } else if c == '\n' {
            assert(s[i] == '\\' && s[i + 1] == 'n');
            assert(parse_chars(s, i) == Some((cs, i + l + 1)));
        } else if c == '\r' {
            assert(s[i] == '\\' && s[i + 1] == 'r');
            assert(parse_chars(s, i) == Some((cs, i + l + 1)));
        } else if c == '\t' {
            assert(s[i] == '\\' && s[i + 1] == 't');
            assert(parse_chars(s, i) == Some((cs, i + l + 1)));
        } else if c == '\u{8}' {
            assert(s[i] == '\\' && s[i + 1] == 'b');
            assert(parse_chars(s, i) == Some((cs, i + l + 1)));
        } else if c == '\u{c}' {
            assert(s[i] == '\\' && s[i + 1] == 'f');
            assert(parse_chars(s, i) == Some((cs, i + l + 1)));
        } else if (c as u32) < 32 {
            let v = (c as u32) as int;
            lemma_hex_round(v / 16);
            lemma_hex_round(v % 16);
            assert(s[i] == '\\' && s[i + 1] == 'u' && s[i + 2] == '0' && s[i + 3] == '0');
            assert(s[i + 4] == hex_digit(v / 16) && s[i + 5] == hex_digit(v % 16));
            assert(!is_short_escape('u'));
            assert(hex_val('0') == 0);
            assert(hex_val(s[i + 4]) == v / 16 && hex_val(s[i + 5]) == v % 16);
            let code = 4096 * hex_val(s[i + 2]) + 256 * hex_val(s[i + 3]) + 16 * hex_val(
                s[i + 4],
            ) + hex_val(s[i + 5]);
            assert(code == v);
            assert(!(0xD800 <= code <= 0xDFFF));
            assert(((code as u32) as char) == c);
            assert(parse_chars(s, i) == Some((cs, i + l + 1)));
        } else {
            assert(s[i] == c);
            assert(s[i] != '"' && s[i] != '\\' && (s[i] as u32) >= 32);
            assert(parse_chars(s, i) == Some((cs, i + l + 1)));
        }
    }
}

/// The parser reads an encoded string back as the original characters.
proof fn lemma_parse_string_enc(s: Seq<char>, i: int, cs: Seq<char>)
    requires
        0 <= i,
        i + enc_string(cs).len() <= s.len(),
        s.subrange(i, i + enc_string(cs).len()) == enc_string(cs),
    ensures
        parse_string(s, i) == Some((cs, i + enc_string(cs).len())),
{
    let lc = enc_chars(cs).len() as int;
    assert(enc_string(cs) =~= seq!['"'] + (enc_chars(cs) + seq!['"']));
    lemma_sub_match(s, i, seq!['"'], enc_chars(cs) + seq!['"']);
    lemma_sub_match(s, i + 1, enc_chars(cs), seq!['"']);
    assert(s.subrange(i, i + 1)[0] == s[i]);
    assert(s[i] == '"');
    assert(s.subrange(i + 1 + lc, i + 1 + lc + 1)[0] == s[i + 1 + lc]);
    assert(s[i + 1 + lc] == '"');
    lemma_parse_chars_enc(s, i + 1, cs);
}

/// The first character of an encoded value is its opening quote or
/// brace, never whitespace.
proof fn lemma_enc_node_shape(n: Node)
    ensures
        enc_node(n).len() >= 2,
        n is File ==> enc_node(n)[0] == '"',
        n is Dir ==> enc_node(n)[0] == '{',
        !is_ws(enc_node(n)[0]),
{
    match n {
        Node::File(cs) => {
            assert(enc_node(n)[0] == '"');
        },
        Node::Dir(m) => {
            assert(enc_node(n)[0] == '{');
        },
    }
}

/// The parser reads an encoded value back as the value.
proof fn lemma_parse_value_enc(s: Seq<char>, i: int, n: Node)
    requires
        0 <= i,
        i + enc_node(n).len() <= s.len(),
        s.subrange(i, i + enc_node(n).len()) == enc_node(n),
    ensures
        parse_value(s, i) == Some((n, i + enc_node(n).len())),
    decreases n, 1int,
{
    lemma_enc_node_shape(n);
    assert(s.subrange(i, i + enc_node(n).len())[0] == s[i]);
    assert(s[i] == enc_node(n)[0]);
    match n {
        Node::File(cs) => {
            lemma_parse_string_enc(s, i, cs);
        },
        Node::Dir(m) => {
            assert(decreases_to!(n => m));
            lemma_parse_object_enc(s, i, m);
        },
    }
}

/// The parser reads an encoded object back as its members.
proof fn lemma_parse_object_enc(s: Seq<char>, i: int, m: Seq<(Seq<char>, Node)>)
    requires
        0 <= i,
        i + enc_node(Node::Dir(m)).len() <= s.len(),
        s.subrange(i, i + enc_node(Node::Dir(m)).len()) == enc_node(Node::Dir(m)),
    ensures
        parse_object(s, i) == Some((m, i + enc_node(Node::Dir(m)).len())),
    decreases m, 2int,
{
    let l = enc_node(Node::Dir(m)).len() as int;
    let mm = enc_members(m);
    assert(enc_node(Node::Dir(m)) =~= seq!['{'] + (mm + seq!['}']));
    lemma_sub_match(s, i, seq!['{'], mm + seq!['}']);
    lemma_sub_match(s, i + 1, mm, seq!['}']);
    assert(s.subrange(i, i + 1)[0] == s[i]);
    assert(s[i] == '{');
    assert(s.subrange(i + 1 + mm.len(), i + 1 + mm.len() + 1)[0] == s[i + 1 + mm.len()]);
    assert(s[i + 1 + mm.len()] == '}');
    if m.len() == 0 {
        assert(mm.len() == 0);
        assert(s[i + 1] == '}');
        assert(ws_len(s, i + 1) == 0);
        assert(parse_object(s, i) == Some((m, i + l))) by {
            assert(m =~= Seq::<(Seq<char>, Node)>::empty());
        }
    } else {
        assert(mm == enc_string(m[0].0) + seq![':'] + enc_node(m[0].1) + (if m.len() > 1 {
            seq![','] + enc_members(m.drop_first())
        } else {
            Seq::<char>::empty()
        }));
        assert(mm[0] == enc_string(m[0].0)[0]);
        assert(enc_string(m[0].0)[0] == '"');
        assert(s.subrange(i + 1, i + 1 + mm.len())[0] == s[i + 1]);
        assert(s[i + 1] == '"');
        assert(ws_len(s, i + 1) == 0);
        lemma_parse_members_enc(s, i + 1, m);
        assert(parse_object(s, i) == Some((m, i + l)));
    }
}

/// The parser reads encoded members back as the member list, up to and
/// including the closing brace.
proof fn lemma_parse_members_enc(s: Seq<char>, i: int, m: Seq<(Seq<char>, Node)>)
    requires
        0 <= i,
        m.len() >= 1,
        i + enc_members(m).len() < s.len(),
        s.subrange(i, i + enc_members(m).len()) == enc_members(m),
        s[i + enc_members(m).len()] == '}',
    ensures
        parse_members(s, i) == Some((m, i + enc_members(m).len() + 1)),
    decreases m, 0int,
{
    let key = m[0].0;
    let val = m[0].1;
    let sk = enc_string(key);
    let ev = enc_node(val);
    let tail: Seq<char> = if m.len() > 1 {
        seq![','] + enc_members(m.drop_first())
    } else {
        Seq::empty()
    };
    assert(enc_members(m) == sk + seq![':'] + ev + tail);
    assert(enc_members(m) =~= sk + (seq![':'] + (ev + tail)));
    lemma_sub_match(s, i, sk, seq![':'] + (ev + tail));
    lemma_sub_match(s, i + sk.len(), seq![':'], ev + tail);
    lemma_sub_match(s, i + sk.len() + 1, ev, tail);
    lemma_parse_string_enc(s, i, key);
    let j = i + sk.len() as int;
    assert(s.subrange(j, j + 1)[0] == s[j]);
    assert(s[j] == ':');
    assert(ws_len(s, j) == 0);
    lemma_enc_node_shape(val);
    let j3 = j + 1;
    assert(s.subrange(j3, j3 + ev.len())[0] == s[j3]);
    assert(s[j3] == ev[0]);
    assert(ws_len(s, j3) == 0);
    assert(decreases_to!(m => m[0]));
    lemma_parse_value_enc(s, j3, val);
    let j4 = j3 + ev.len() as int;
    assert(seq![(m[0].0, m[0].1)] + m.drop_first() =~= m);
    if m.len() > 1 {
        let md = m.drop_first();
        assert(tail =~= seq![','] + enc_members(md));
        lemma_sub_match(s, j4, seq![','], enc_members(md));
        assert(s.subrange(j4, j4 + 1)[0] == s[j4]);
        assert(s[j4] == ',');
        assert(ws_len(s, j4) == 0);
        let j6 = j4 + 1;
        assert(md.len() >= 1);
        assert(enc_members(md) == enc_string(md[0].0) + seq![':'] + enc_node(md[0].1) + (if md.len()
            > 1 {
            seq![','] + enc_members(md.drop_first())
        } else {
            Seq::<char>::empty()
        }));
        assert(enc_members(md)[0] == enc_string(md[0].0)[0]);
        assert(enc_members(md)[0] == '"');
        assert(s.subrange(j6, j6 + enc_members(md).len())[0] == s[j6]);
        assert(s[j6] == '"');
        assert(ws_len(s, j6) == 0);
        assert(j6 + enc_members(md).len() == i + enc_members(m).len());
        assert(decreases_to!(m => md));
        lemma_parse_members_enc(s, j6, md);
        assert(parse_members(s, i) == Some((m, i + enc_members(m).len() + 1)));
    } else {
        assert(tail.len() == 0);
        assert(j4 == i + enc_members(m).len());
        assert(s[j4] == '}');
        assert(ws_len(s, j4) == 0);
        assert(parse_members(s, i) == Some((m, i + enc_members(m).len() + 1)));
    }
}

/// Round trip: decoding the encoding of any well-formed tree yields a
/// structurally equal tree.
pub proof fn lemma_decode_encode(m: Seq<(Seq<char>, Node)>)
    requires
        node_wf(Node::Dir(m)),
    ensures
        spec_decode(spec_encode(m)) == Some(m),
{
    let s = spec_encode(m);
    lemma_enc_node_shape(Node::Dir(m));
    assert(s.subrange(0, s.len() as int) =~= s);
    assert(s.subrange(0, s.len() as int)[0] == s[0]);
    assert(!is_ws(s[0]));
    assert(ws_len(s, 0) == 0);
    lemma_parse_object_enc(s, 0, m);
    assert(ws_len(s, s.len() as int) == 0);
}

/// Round trip, stated from the text side: re-encoding whatever a
/// well-formed document decoded to yields text that decodes to the
/// structurally equal tree.
pub proof fn lemma_round_trip(s: Seq<char>)
    ensures
        spec_decode(s) matches Some(m) ==> spec_decode(spec_encode(m)) == Some(m),
{
    if spec_decode(s) is Some {
        let i = skip_ws(s, 0);
        let m = match parse_object(s, i) {
            Option::Some((m, _)) => m,
            Option::None => Seq::empty(),
        };
        assert(node_wf(Node::Dir(m)));
        lemma_decode_encode(m);
    }
}

fn is_ws_exec(c: char) -> (r: bool)
    ensures
        r == is_ws(c),
{
    c == ' ' || c == '\n' || c == '\t' || c == '\r'
}

fn ws_skip(s: &Vec<char>, i: usize) -> (r: usize)
    requires
        i <= s@.len(),
    ensures
        r as int == skip_ws(s@, i as int),
        i <= r <= s@.len(),
    decreases s@.len() - i,
{
    if i < s.len() && is_ws_exec(s[i]) {
        ws_skip(s, i + 1)
    } else {
        i
    }
}

fn hex_val_exec(c: char) -> (r: i8)
    ensures
        r as int == hex_val(c),
{
    let u = c as u32;
    if 48 <= u && u <= 57 {
        (u - 48) as i8
    } else if 97 <= u && u <= 102 {
        (u - 87) as i8
    } else if 65 <= u && u <= 70 {
        (u - 55) as i8
    } else {
        -1
    }
}

fn unesc_exec(e: char) -> (r: char)
    ensures
        r == unesc(e),
{
    if e == 'n' {
        '\n'
    } else if e == 'r' {
        '\r'
    } else if e == 't' {
        '\t'
    } else if e == 'b' {
        '\u{8}'
    } else if e == 'f' {
        '\u{c}'
    } else {
        e
    }
}

fn parse_chars_exec(s: &Vec<char>, i: usize) -> (r: Option<(Vec<char>, usize)>)
    ensures
        match r {
            Option::None => parse_chars(s@, i as int) is None,
            Option::Some((cs, j)) => parse_chars(s@, i as int) == Some((cs@, j as int)) && i < j
                <= s@.len(),
        },
    decreases s@.len() - i,
{
    if i >= s.len() {
        return None;
    }
    let c = s[i];
    if c == '"' {
        let v: Vec<char> = Vec::new();
        proof {
            assert(v@ =~= Seq::<char>::empty());
        }
        return Some((v, i + 1));
    }
    if c == '\\' {
        if i + 1 >= s.len() {
            return None;
        }
        let e = s[i + 1];
        if e == '"' || e == '\\' || e == '/' || e == 'n' || e == 'r' || e == 't' || e == 'b' || e
            == 'f' {
            match parse_chars_exec(s, i + 2) {
                None => None,
                Some((cs, j)) => {
                    let mut cs = cs;
                    cs.insert(0, unesc_exec(e));
                    proof {
                        assert(cs@ =~= seq![unesc(e)] + cs@.drop_first());
                    }
                    Some((cs, j))
                },
            }
        } else if e == 'u' {
            if s.len() - i <= 5 {
                return None;
            }
            let h1 = hex_val_exec(s[i + 2]);
            let h2 = hex_val_exec(s[i + 3]);
            let h3 = hex_val_exec(s[i + 4]);
            let h4 = hex_val_exec(s[i + 5]);
            if h1 >= 0 && h2 >= 0 && h3 >= 0 && h4 >= 0 {
                let code: u32 = 4096 * (h1 as u32) + 256 * (h2 as u32) + 16 * (h3 as u32) + (
                h4 as u32);
                if 0xD800 <= code && code <= 0xDFFF {
                    return None;
                }
                match char::from_u32(code) {
                    None => unreached(),
                    Some(ch) => {
                        proof {
                            lemma_char_bound(ch);
                            assert(ch == ((code as int as u32) as char));
                        }
                        match parse_chars_exec(s, i + 6) {
                            None => None,
                            Some((cs, j)) => {
                                let mut cs = cs;
                                cs.insert(0, ch);
                                proof {
                                    assert(cs@ =~= seq![cs@[0]] + cs@.drop_first());
                                }
                                Some((cs, j))
                            },
                        }
                    },
                }
            } else {
                None
            }
        } else {
            None
        }
    } else if (c as u32) < 32 {
        None
    } else {
        match parse_chars_exec(s, i + 1) {
            None => None,
            Some((cs, j)) => {
                let mut cs = cs;
                cs.insert(0, c);
                proof {
                    assert(cs@ =~= seq![c] + cs@.drop_first());
                }
                Some((cs, j))
            },
        }
    }
}

fn parse_string_exec(s: &Vec<char>, i: usize) -> (r: Option<(Vec<char>, usize)>)
    ensures
        match r {
            Option::None => parse_string(s@, i as int) is None,
            Option::Some((cs, j)) => parse_string(s@, i as int) == Some((cs@, j as int)) && i < j
                <= s@.len(),
        },
{
    if i < s.len() && s[i] == '"' {
        parse_chars_exec(s, i + 1)
    } else {
        None
    }
}

fn parse_value_exec(s: &Vec<char>, i: usize) -> (r: Option<(FileOrDirectory, usize)>)
    ensures
        match r {
            Option::None => parse_value(s@, i as int) is None,
            Option::Some((e, j)) => parse_value(s@, i as int) == Some((entry_model(e), j as int))
                && i < j <= s@.len(),
        },
    decreases s@.len() - i, 2int,
{
    if i >= s.len() {
        return None;
    }
    let c = s[i];
    if c == '"' {
        match parse_string_exec(s, i) {
            None => None,
            Some((cs, j)) => {
                let t = chars_to_string(&cs);
                Some((FileOrDirectory::File(t), j))
            },
        }
    } else if c == '{' {
        match parse_object_exec(s, i) {
            None => None,
            Some((m, j)) => Some((FileOrDirectory::Directory(m), j)),
        }
    } else {
        None
    }
}

fn parse_object_exec(s: &Vec<char>, i: usize) -> (r: Option<
    (Vec<(String, FileOrDirectory)>, usize),
>)
    ensures
        match r {
            Option::None => parse_object(s@, i as int) is None,
            Option::Some((v, j)) => parse_object(s@, i as int) == Some(
                (pairs_model(v@), j as int),
            ) && i < j <= s@.len(),
        },
    decreases s@.len() - i, 1int,
{
    if i >= s.len() || s[i] != '{' {
        return None;
    }
    let j = ws_skip(s, i + 1);
    if j < s.len() && s[j] == '}' {
        let v: Vec<(String, FileOrDirectory)> = Vec::new();
        proof {
            assert(pairs_model(v@) =~= Seq::<(Seq<char>, Node)>::empty());
        }
        Some((v, j + 1))
    } else {
        parse_members_exec(s, j)
    }
}

fn parse_members_exec(s: &Vec<char>, i: usize) -> (r: Option<
    (Vec<(String, FileOrDirectory)>, usize),
>)
    ensures
        match r {
            Option::None => parse_members(s@, i as int) is None,
            Option::Some((v, j)) => parse_members(s@, i as int) == Some(
                (pairs_model(v@), j as int),
            ) && i < j <= s@.len(),
        },
    decreases s@.len() - i, 0int,
{
    match parse_string_exec(s, i) {
        None => None,
        Some((key_cs, j)) => {
            let j2 = ws_skip(s, j);
            if j2 < s.len() && s[j2] == ':' {
                let j3 = ws_skip(s, j2 + 1);
                match parse_value_exec(s, j3) {
                    None => None,
                    Some((val, j4)) => {
                        let j5 = ws_skip(s, j4);
                        if j5 < s.len() && s[j5] == ',' {
                            let j6 = ws_skip(s, j5 + 1);
                            match parse_members_exec(s, j6) {
                                None => None,
                                Some((rest, j7)) => {
                                    let key = chars_to_string(&key_cs);
                                    let mut rest = rest;
                                    let ghost rest0 = rest@;
                                    rest.insert(0, (key, val));
                                    proof {
                                        assert(pairs_model(rest@) =~= seq![
                                            (key_cs@, entry_model(rest@[0].1)),
                                        ] + pairs_model(rest0));
                                    }
                                    Some((rest, j7))
                                },
                            }
                        } else if j5 < s.len() && s[j5] == '}' {
                            let key = chars_to_string(&key_cs);
                            let mut v: Vec<(String, FileOrDirectory)> = Vec::new();
                            v.push((key, val));
                            proof {
                                assert(pairs_model(v@) =~= seq![(key_cs@, entry_model(v@[0].1))]);
                            }
                            Some((v, j5 + 1))
                        } else {
                            None
                        }
                    },
                }
            } else {
                None
            }
        },
    }
}

/// Reads a document into a tree: the text must hold one JSON object of
/// strings and nested objects, with unique names throughout.
pub fn decode_document(text: &str) -> (r: Option<FileSystem>)
    ensures
        match r {
            Option::None => spec_decode(text@) is None,
            Option::Some(fs) => spec_decode(text@) == Some(fs_model(fs)) && entries_wf(
                fs_model(fs),
            ),
        },
{
    let s = str_to_chars(text);
    let i = ws_skip(&s, 0);
    match parse_object_exec(&s, i) {
        None => None,
        Some((v, j)) => {
            let k = ws_skip(&s, j);
            if k == s.len() {
                let fs = FileSystem { entries: v };
                if tree_is_wf(&fs) {
                    Some(fs)
                } else {
                    None
                }
            } else {
                None
            }
        },
    }
}

} // verus!
