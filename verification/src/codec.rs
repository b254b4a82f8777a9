//! The persisted model format: a JSON object `{"token_table": {...}}`
//! mapping each token to its `{"ham": n, "spam": n}` counts. The cached
//! totals are never written; loading recomputes them by summing the
//! table, so a hand-edited file cannot smuggle in wrong totals.
//!
//! The reader is strict: the top-level object must contain exactly the
//! `token_table` field, counter objects exactly a `ham` and a `spam`
//! field (in either order), duplicate tokens are rejected, and string
//! escapes are the JSON ones with `\u` limited to codes that name a
//! Unicode scalar value. A table whose column sums would not fit the
//! 32-bit totals is rejected as malformed.
//!
//! What the reader accepts, and which table a text denotes, is stated in
//! full by `spec_parse_model`; `from_json` returns exactly that.

use vstd::prelude::*;
use crate::classifier::{
    Classifier, Counter, keys_unique, has_token, spam_sum, ham_sum, table_view,
};

verus! {

/// Loading failed: the text is not a well-formed persisted model.
#[derive(Debug, Clone, Copy, PartialEq, Eq, Structural)]
pub struct FormatError;

/// Relies on `char::from_u32` of core: it returns the character with
/// the given code exactly when the code is a Unicode scalar value
/// (not a surrogate, at most 0x10FFFF).
pub assume_specification[ char::from_u32 ](v: u32) -> (r: Option<char>)
    ensures
        r is Some <==> (v < 0xD800 || (0xE000 <= v && v <= 0x10FFFF)),
        r matches Some(c) ==> c as u32 == v,
;

/// Relies on `String`'s `FromIterator<char>`: collecting characters
/// yields the string of exactly those characters in order.
#[verifier::external_body]
fn chars_to_string(v: &Vec<char>) -> (r: String)
    ensures
        r@ == v@,
{
    v.iter().copied().collect()
}

pub open spec fn spec_hex_digit(d: nat) -> char {
    if d == 0 { '0' }
    else if d == 1 { '1' }
    else if d == 2 { '2' }
    else if d == 3 { '3' }
    else if d == 4 { '4' }
    else if d == 5 { '5' }
    else if d == 6 { '6' }
    else if d == 7 { '7' }
    else if d == 8 { '8' }
    else if d == 9 { '9' }
    else if d == 10 { 'a' }
    else if d == 11 { 'b' }
    else if d == 12 { 'c' }
    else if d == 13 { 'd' }
    else if d == 14 { 'e' }
    else { 'f' }
}

fn hex_digit(d: u32) -> (c: char)
    requires
        d < 16,
    ensures
        c == spec_hex_digit(d as nat),
{
    if d == 0 { '0' }
    else if d == 1 { '1' }
    else if d == 2 { '2' }
    else if d == 3 { '3' }
    else if d == 4 { '4' }
    else if d == 5 { '5' }
    else if d == 6 { '6' }
    else if d == 7 { '7' }
    else if d == 8 { '8' }
    else if d == 9 { '9' }
    else if d == 10 { 'a' }
    else if d == 11 { 'b' }
    else if d == 12 { 'c' }
    else if d == 13 { 'd' }
    else if d == 14 { 'e' }
    else { 'f' }
}

/// The shortest decimal form of `n`.
pub open spec fn spec_dec(n: nat) -> Seq<char>
    decreases n,
{
    if n < 10 {
        seq![spec_hex_digit(n)]
    } else {
        spec_dec(n / 10).push(spec_hex_digit(n % 10))
    }
}

fn push_dec(out: &mut Vec<char>, n: u32)
    ensures
        final(out)@ == old(out)@ + spec_dec(n as nat),
    decreases n,
{
    if n < 10 {
        let c = hex_digit(n);
        out.push(c);
        proof {
            assert(out@ =~= old(out)@ + spec_dec(n as nat));
        }
    } else {
        push_dec(out, n / 10);
        let c = hex_digit(n % 10);
        out.push(c);
        proof {
            assert(out@ =~= old(out)@ + spec_dec(n as nat));
        }
    }
}

/// How one character of a token is written inside a JSON string: quote
/// and backslash escaped, control characters as `\u00..`, all else as is.
pub open spec fn spec_escape_char(c: char) -> Seq<char> {
    if c == '"' {
        seq!['\\', '"']
    } else if c == '\\' {
        seq!['\\', '\\']
    } else if (c as nat) < 32 {
        seq!['\\', 'u', '0', '0', spec_hex_digit((c as nat) / 16), spec_hex_digit((c as nat) % 16)]
    } else {
        seq![c]
    }
}

pub open spec fn spec_escape(s: Seq<char>) -> Seq<char>
    decreases s.len(),
{
    if s.len() == 0 {
        Seq::<char>::empty()
    } else {
        spec_escape(s.drop_last()) + spec_escape_char(s.last())
    }
}

fn push_escaped(out: &mut Vec<char>, key: &str)
    ensures
        final(out)@ == old(out)@ + spec_escape(key@),
{
    let n = key.unicode_len();
    let mut i: usize = 0;
    proof {
        assert(key@.take(0) =~= Seq::<char>::empty());
        assert(out@ =~= old(out)@ + spec_escape(key@.take(0)));
    }
    while i < n
        invariant
            n == key@.len(),
            i <= n,
            out@ == old(out)@ + spec_escape(key@.take(i as int)),
        decreases n - i,
    {
        let c = key.get_char(i);
        if c == '"' {
            out.push('\\');
            out.push('"');
        } else if c == '\\' {
            out.push('\\');
            out.push('\\');
        } else {
            let v = c as u32;
            if v < 32 {
                out.push('\\');
                out.push('u');
                out.push('0');
                out.push('0');
                let h = hex_digit(v / 16);
                out.push(h);
                let l = hex_digit(v % 16);
                out.push(l);
            } else {
                out.push(c);
            }
        }
        proof {
            assert(key@.take(i as int + 1).drop_last() =~= key@.take(i as int));
            assert(key@.take(i as int + 1).last() == key@[i as int]);
            assert(out@ =~= old(out)@ + spec_escape(key@.take(i as int + 1)));
        }
        i += 1;
    }
    proof {
        assert(key@.take(n as int) =~= key@);
    }
}

/// One table entry as JSON text.
pub open spec fn spec_entry_json(key: Seq<char>, c: Counter) -> Seq<char> {
    seq!['"'] + spec_escape(key) + seq!['"', ':', '{', '"', 'h', 'a', 'm', '"', ':']
        + spec_dec(c.ham as nat) + seq![',', '"', 's', 'p', 'a', 'm', '"', ':']
        + spec_dec(c.spam as nat) + seq!['}']
}

/// The separator between entries: pretty form puts each entry on a line
/// of its own.
pub open spec fn spec_sep(pretty: bool) -> Seq<char> {
    if pretty {
        seq![',', '\n']
    } else {
        seq![',']
    }
}

/// The entries of a table as JSON text, joined by the separator.
pub open spec fn spec_entries_json(t: Seq<(Seq<char>, Counter)>, pretty: bool) -> Seq<char>
    decreases t.len(),
{
    if t.len() == 0 {
        Seq::<char>::empty()
    } else if t.len() == 1 {
        spec_entry_json(t[0].0, t[0].1)
    } else {
        spec_entries_json(t.drop_last(), pretty) + spec_sep(pretty) + spec_entry_json(
            t.last().0,
            t.last().1,
        )
    }
}

/// A whole persisted model as JSON text.
pub open spec fn spec_json(t: Seq<(Seq<char>, Counter)>, pretty: bool) -> Seq<char> {
    seq!['{', '"', 't', 'o', 'k', 'e', 'n', '_', 't', 'a', 'b', 'l', 'e', '"', ':', '{'] + (
    if pretty {
        seq!['\n']
    } else {
        Seq::<char>::empty()
    }) + spec_entries_json(t, pretty) + (if pretty {
        seq!['\n']
    } else {
        Seq::<char>::empty()
    }) + seq!['}', '}']
}

fn push_entry(out: &mut Vec<char>, key: &String, c: Counter)
    ensures
        final(out)@ == old(out)@ + spec_entry_json(key@, c),
{
    out.push('"');
    push_escaped(out, key.as_str());
    out.push('"');
    out.push(':');
    out.push('{');
    out.push('"');
    out.push('h');
    out.push('a');
    out.push('m');
    out.push('"');
    out.push(':');
    push_dec(out, c.ham);
    out.push(',');
    out.push('"');
    out.push('s');
    out.push('p');
    out.push('a');
    out.push('m');
    out.push('"');
    out.push(':');
    push_dec(out, c.spam);
    out.push('}');
    proof {
        assert(out@ =~= old(out)@ + spec_entry_json(key@, c));
    }
}

impl Classifier {
    /// Serialize only the table as JSON text; the cached totals are
    /// omitted on purpose, to be recomputed on every load. `pretty`
    /// writes one entry per line.
    pub fn to_json(&self, pretty: bool) -> (r: Vec<char>)
        ensures
            r@ == spec_json(self.entries(), pretty),
    {
        let ghost t = self.entries();
        let mut out: Vec<char> = Vec::new();
        out.push('{');
        out.push('"');
        out.push('t');
        out.push('o');
        out.push('k');
        out.push('e');
        out.push('n');
        out.push('_');
        out.push('t');
        out.push('a');
        out.push('b');
        out.push('l');
        out.push('e');
        out.push('"');
        out.push(':');
        out.push('{');
        if pretty {
            out.push('\n');
        }
        let ghost head = out@;
        let n = self.table_len();
        let mut i: usize = 0;
        proof {
            assert(t.take(0) =~= Seq::<(Seq<char>, Counter)>::empty());
            assert(out@ =~= head + spec_entries_json(t.take(0), pretty));
        }
        while i < n
            invariant
                n == t.len(),
                t == self.entries(),
                i <= n,
                out@ == head + spec_entries_json(t.take(i as int), pretty),
            decreases n - i,
        {
            if i > 0 {
                out.push(',');
                if pretty {
                    out.push('\n');
                }
            }
            let e = self.table_entry(i);
            let key = &e.0;
            let c = e.1;
            push_entry(&mut out, key, c);
            proof {
                let pre = t.take(i as int);
                let post = t.take(i as int + 1);
                assert(post.drop_last() =~= pre);
                assert(post.last() == t[i as int]);
                assert((t[i as int].0, t[i as int].1) == t[i as int]);
                assert(out@ =~= head + spec_entries_json(post, pretty));
            }
            i += 1;
        }
        proof {
            assert(t.take(n as int) =~= t);
        }
        if pretty {
            out.push('\n');
        }
        out.push('}');
        out.push('}');
        proof {
            assert(out@ =~= spec_json(t, pretty));
        }
        out
    }
}

pub open spec fn is_ws(c: char) -> bool {
    c == ' ' || c == '\n' || c == '\r' || c == '\t'
}

/// The first index at or after `i` holding no whitespace.
pub open spec fn spec_skip_ws(s: Seq<char>, i: int) -> int
    decreases s.len() - i,
{
    if i < 0 || i >= s.len() {
        i
    } else if is_ws(s[i]) {
        spec_skip_ws(s, i + 1)
    } else {
        i
    }
}

/// Advance past whitespace, to the first index holding none.
fn skip_ws(s: &Vec<char>, i: usize) -> (j: usize)
    requires
        i <= s@.len(),
    ensures
        i <= j <= s@.len(),
        forall|k: int| i <= k < j ==> is_ws(s@[k]),
        j < s@.len() ==> !is_ws(s@[j as int]),
        j == spec_skip_ws(s@, i as int),
{
    let mut j = i;
    loop
        invariant
            i <= j <= s@.len(),
            forall|k: int| i <= k < j ==> is_ws(s@[k]),
            spec_skip_ws(s@, i as int) == spec_skip_ws(s@, j as int),
        decreases s@.len() - j,
    {
        if j == s.len() {
            return j;
        }
        let c = s[j];
        if c == ' ' || c == '\n' || c == '\r' || c == '\t' {
            j += 1;
        } else {
            return j;
        }
    }
}

/// A character's code.
pub open spec fn char_code(c: char) -> u32 {
    c as u32
}

/// The character with the given code, when the code names a Unicode
/// scalar value.
pub open spec fn char_of(code: u32) -> char {
    choose|c: char| #[trigger] char_code(c) == code
}

/// A character is recovered from its own code.
pub proof fn lemma_char_of(c: char)
    ensures
        char_of(c as u32) == c,
{
    assert(char_code(c) == c as u32);
}

/// What `hex_value` returns for each character.
pub open spec fn spec_hex_value(c: char) -> Option<u32> {
    if c == '0' { Some(0u32) }
    else if c == '1' { Some(1u32) }
    else if c == '2' { Some(2u32) }
    else if c == '3' { Some(3u32) }
    else if c == '4' { Some(4u32) }
    else if c == '5' { Some(5u32) }
    else if c == '6' { Some(6u32) }
    else if c == '7' { Some(7u32) }
    else if c == '8' { Some(8u32) }
    else if c == '9' { Some(9u32) }
    else if c == 'a' || c == 'A' { Some(10u32) }
    else if c == 'b' || c == 'B' { Some(11u32) }
    else if c == 'c' || c == 'C' { Some(12u32) }
    else if c == 'd' || c == 'D' { Some(13u32) }
    else if c == 'e' || c == 'E' { Some(14u32) }
    else if c == 'f' || c == 'F' { Some(15u32) }
    else { None }
}

fn hex_value(c: char) -> (r: Option<u32>)
    ensures
        r == spec_hex_value(c),
        r matches Some(v) ==> v < 16,
{
    if c == '0' { Some(0) }
    else if c == '1' { Some(1) }
    else if c == '2' { Some(2) }
    else if c == '3' { Some(3) }
    else if c == '4' { Some(4) }
    else if c == '5' { Some(5) }
    else if c == '6' { Some(6) }
    else if c == '7' { Some(7) }
    else if c == '8' { Some(8) }
    else if c == '9' { Some(9) }
    else if c == 'a' || c == 'A' { Some(10) }
    else if c == 'b' || c == 'B' { Some(11) }
    else if c == 'c' || c == 'C' { Some(12) }
    else if c == 'd' || c == 'D' { Some(13) }
    else if c == 'e' || c == 'E' { Some(14) }
    else if c == 'f' || c == 'F' { Some(15) }
    else { None }
}

/// What reading a JSON string from the opening quote at `i` yields: the
/// decoded characters and the index just past the closing quote.
pub open spec fn spec_parse_string(s: Seq<char>, i: int) -> Option<(Seq<char>, int)> {
    if i < 0 || i >= s.len() || s[i] != '"' {
        None
    } else {
        spec_string_body(s, i + 1, Seq::<char>::empty())
    }
}

/// The string reader past the opening quote: `acc` holds what is decoded
/// so far.
pub open spec fn spec_string_body(s: Seq<char>, j: int, acc: Seq<char>) -> Option<
    (Seq<char>, int),
>
    decreases s.len() - j,
{
    if j < 0 || j >= s.len() {
        None
    } else {
        let c = s[j];
        if c == '"' {
            Some((acc, j + 1))
        } else if c == '\\' {
            if j + 1 >= s.len() {
                None
            } else {
                let e = s[j + 1];
                if e == '"' { spec_string_body(s, j + 2, acc.push('"')) }
                else if e == '\\' { spec_string_body(s, j + 2, acc.push('\\')) }
                else if e == '/' { spec_string_body(s, j + 2, acc.push('/')) }
                else if e == 'b' { spec_string_body(s, j + 2, acc.push('\u{0008}')) }
                else if e == 'f' { spec_string_body(s, j + 2, acc.push('\u{000c}')) }
                else if e == 'n' { spec_string_body(s, j + 2, acc.push('\n')) }
                else if e == 'r' { spec_string_body(s, j + 2, acc.push('\r')) }
                else if e == 't' { spec_string_body(s, j + 2, acc.push('\t')) }
                else if e == 'u' {
                    if j + 6 > s.len() {
                        None
                    } else {
                        match (
                            spec_hex_value(s[j + 2]),
                            spec_hex_value(s[j + 3]),
                            spec_hex_value(s[j + 4]),
                            spec_hex_value(s[j + 5]),
                        ) {
                            (Some(a), Some(b), Some(c2), Some(d)) => {
                                let code = a * 4096 + b * 256 + c2 * 16 + d;
                                if code < 0xD800 || (0xE000 <= code && code <= 0x10FFFF) {
                                    spec_string_body(s, j + 6, acc.push(char_of(code as u32)))
                                } else {
                                    None
                                }
                            },
                            _ => None,
                        }
                    }
                } else {
                    None
                }
            }
        } else if (c as u32) < 32 {
            None
        } else {
            spec_string_body(s, j + 1, acc.push(c))
        }
    }
}

/// Parse a JSON string starting at the opening quote, decoding escapes.
fn parse_string(s: &Vec<char>, i: usize) -> (r: Option<(Vec<char>, usize)>)
    requires
        i <= s@.len(),
    ensures
        r matches Some(p) ==> i < p.1 <= s@.len(),
        match r {
            Some(p) => spec_parse_string(s@, i as int) == Some((p.0@, p.1 as int)),
            None => spec_parse_string(s@, i as int) is None,
        },
{
    if i == s.len() || s[i] != '"' {
        return None;
    }
    let mut j = i + 1;
    let mut acc: Vec<char> = Vec::new();
    proof {
        assert(acc@ =~= Seq::<char>::empty());
    }
    loop
        invariant
            i < j <= s@.len(),
            spec_parse_string(s@, i as int) == spec_string_body(s@, j as int, acc@),
        decreases s@.len() - j,
    {
        if j == s.len() {
            return None;
        }
        let c = s[j];
        if c == '"' {
            return Some((acc, j + 1));
        }
        if c == '\\' {
            if j + 1 == s.len() {
                return None;
            }
            let e = s[j + 1];
            if e == '"' { acc.push('"'); j += 2; }
            else if e == '\\' { acc.push('\\'); j += 2; }
            else if e == '/' { acc.push('/'); j += 2; }
            else if e == 'b' { acc.push('\u{0008}'); j += 2; }
            else if e == 'f' { acc.push('\u{000c}'); j += 2; }
            else if e == 'n' { acc.push('\n'); j += 2; }
            else if e == 'r' { acc.push('\r'); j += 2; }
            else if e == 't' { acc.push('\t'); j += 2; }
            else if e == 'u' {
                if s.len() - j < 6 {
                    return None;
                }
                let h0 = hex_value(s[j + 2]);
                let h1 = hex_value(s[j + 3]);
                let h2 = hex_value(s[j + 4]);
                let h3 = hex_value(s[j + 5]);
                match (h0, h1, h2, h3) {
                    (Some(a), Some(b), Some(cc), Some(d)) => {
                        let code: u32 = a * 4096 + b * 256 + cc * 16 + d;
                        match char::from_u32(code) {
                            Some(ch) => {
                                proof {
                                    lemma_char_of(ch);
                                }
                                acc.push(ch);
                                j += 6;
                            },
                            None => {
                                return None;
                            },
                        }
                    },
                    _ => {
                        return None;
                    },
                }
            } else {
                return None;
            }
        } else {
            // a raw control character is not valid JSON string content
            let v = c as u32;
            if v < 32 {
                return None;
            }
            acc.push(c);
            j += 1;
        }
    }
}

/// What reading a decimal integer at `i` yields: its value and the
/// first index past its digits.
pub open spec fn spec_parse_u32(s: Seq<char>, i: int) -> Option<(u32, int)> {
    if i < 0 || i >= s.len() {
        None
    } else if s[i] == '0' {
        Some((0u32, i + 1))
    } else {
        match spec_hex_value(s[i]) {
            Some(v) => if v >= 10 {
                None
            } else {
                spec_u32_body(s, i + 1, v as int)
            },
            None => None,
        }
    }
}

/// The integer reader past the first digit: `acc` is the value read so
/// far; a value beyond 32 bits is malformed.
pub open spec fn spec_u32_body(s: Seq<char>, j: int, acc: int) -> Option<(u32, int)>
    decreases s.len() - j,
{
    if j < 0 || j >= s.len() {
        Some((acc as u32, j))
    } else {
        match spec_hex_value(s[j]) {
            Some(v) => if v >= 10 {
                Some((acc as u32, j))
            } else {
                if acc * 10 + v > 0xFFFF_FFFF {
                    None
                } else {
                    spec_u32_body(s, j + 1, acc * 10 + v)
                }
            },
            None => Some((acc as u32, j)),
        }
    }
}

/// Parse a non-negative decimal integer that fits in 32 bits. A leading
/// zero stands alone, as JSON demands.
fn parse_u32(s: &Vec<char>, i: usize) -> (r: Option<(u32, usize)>)
    requires
        i <= s@.len(),
    ensures
        r matches Some(p) ==> i < p.1 <= s@.len(),
        match r {
            Some(p) => spec_parse_u32(s@, i as int) == Some((p.0, p.1 as int)),
            None => spec_parse_u32(s@, i as int) is None,
        },
{
    if i == s.len() {
        return None;
    }
    let c = s[i];
    if c == '0' {
        return Some((0, i + 1));
    }
    let first = match hex_value(c) {
        Some(v) => {
            if v >= 10 {
                return None;
            }
            v
        },
        None => {
            return None;
        },
    };
    let mut acc: u64 = first as u64;
    let mut j = i + 1;
    loop
        invariant
            i < j <= s@.len(),
            acc <= u32::MAX,
            spec_parse_u32(s@, i as int) == spec_u32_body(s@, j as int, acc as int),
        decreases s@.len() - j,
    {
        if j == s.len() {
            return Some((acc as u32, j));
        }
        let d = match hex_value(s[j]) {
            Some(v) => {
                if v >= 10 {
                    return Some((acc as u32, j));
                }
                v
            },
            None => {
                return Some((acc as u32, j));
            },
        };
        acc = acc * 10 + (d as u64);
        if acc > 0xFFFF_FFFF {
            return None;
        }
        j += 1;
    }
}

fn chars_eq_lit(v: &Vec<char>, lit: &Vec<char>) -> (r: bool)
    ensures
        r == (v@ == lit@),
{
    if v.len() != lit.len() {
        proof {
            assert(v@ != lit@);
        }
        return false;
    }
    let n = v.len();
    let mut k: usize = 0;
    while k < n
        invariant
            n == v@.len() == lit@.len(),
            k <= n,
            forall|m: int| 0 <= m < k ==> v@[m] == lit@[m],
        decreases n - k,
    {
        if v[k] != lit[k] {
            return false;
        }
        k += 1;
    }
    proof {
        assert(v@ =~= lit@);
    }
    true
}

fn lit_ham() -> (r: Vec<char>)
    ensures
        r@ =~= seq!['h', 'a', 'm'],
{
    let mut v: Vec<char> = Vec::new();
    v.push('h');
    v.push('a');
    v.push('m');
    v
}

fn lit_spam() -> (r: Vec<char>)
    ensures
        r@ =~= seq!['s', 'p', 'a', 'm'],
{
    let mut v: Vec<char> = Vec::new();
    v.push('s');
    v.push('p');
    v.push('a');
    v.push('m');
    v
}

fn lit_token_table() -> (r: Vec<char>)
    ensures
        r@ =~= seq!['t', 'o', 'k', 'e', 'n', '_', 't', 'a', 'b', 'l', 'e'],
{
    let mut v: Vec<char> = Vec::new();
    v.push('t');
    v.push('o');
    v.push('k');
    v.push('e');
    v.push('n');
    v.push('_');
    v.push('t');
    v.push('a');
    v.push('b');
    v.push('l');
    v.push('e');
    v
}

/// What reading a `{"ham": n, "spam": n}` object at `i` yields, the
/// fields accepted in either order.
pub open spec fn spec_parse_counter(s: Seq<char>, i: int) -> Option<(Counter, int)> {
    if i < 0 || i >= s.len() || s[i] != '{' {
        None
    } else {
        let j0 = spec_skip_ws(s, i + 1);
        match spec_parse_string(s, j0) {
            None => None,
            Some((name1, j1)) => {
                let j2 = spec_skip_ws(s, j1);
                if j2 >= s.len() || s[j2] != ':' {
                    None
                } else {
                    let j3 = spec_skip_ws(s, j2 + 1);
                    match spec_parse_u32(s, j3) {
                        None => None,
                        Some((v1, j4)) => {
                            let j5 = spec_skip_ws(s, j4);
                            if j5 >= s.len() || s[j5] != ',' {
                                None
                            } else {
                                let j6 = spec_skip_ws(s, j5 + 1);
                                match spec_parse_string(s, j6) {
                                    None => None,
                                    Some((name2, j7)) => {
                                        let j8 = spec_skip_ws(s, j7);
                                        if j8 >= s.len() || s[j8] != ':' {
                                            None
                                        } else {
                                            let j9 = spec_skip_ws(s, j8 + 1);
                                            match spec_parse_u32(s, j9) {
                                                None => None,
                                                Some((v2, j10)) => {
                                                    let j11 = spec_skip_ws(s, j10);
                                                    if j11 >= s.len() || s[j11] != '}' {
                                                        None
                                                    } else {
                                                        if name1 == seq!['h', 'a', 'm'] && name2
                                                            == seq!['s', 'p', 'a', 'm'] {
                                                            Some(
                                                                (
                                                                    Counter { ham: v1, spam: v2 },
                                                                    j11 + 1,
                                                                ),
                                                            )
                                                        } else if name1 == seq!['s', 'p', 'a', 'm']
                                                            && name2 == seq!['h', 'a', 'm'] {
                                                            Some(
                                                                (
                                                                    Counter { ham: v2, spam: v1 },
                                                                    j11 + 1,
                                                                ),
                                                            )
                                                        } else {
                                                            None
                                                        }
                                                    }
                                                },
                                            }
                                        }
                                    },
                                }
                            }
                        },
                    }
                }
            },
        }
    }
}

/// Parse `{"ham": n, "spam": n}`, the fields in either order.
fn parse_counter(s: &Vec<char>, i: usize) -> (r: Option<(Counter, usize)>)
    requires
        i <= s@.len(),
    ensures
        r matches Some(p) ==> i < p.1 <= s@.len(),
        match r {
            Some(p) => spec_parse_counter(s@, i as int) == Some((p.0, p.1 as int)),
            None => spec_parse_counter(s@, i as int) is None,
        },
{
    if i == s.len() || s[i] != '{' {
        return None;
    }
    let mut j = skip_ws(s, i + 1);
    let (name1, j1) = match parse_string(s, j) {
        Some(p) => p,
        None => {
            return None;
        },
    };
    j = skip_ws(s, j1);
    if j == s.len() || s[j] != ':' {
        return None;
    }
    j = skip_ws(s, j + 1);
    let (v1, j2) = match parse_u32(s, j) {
        Some(p) => p,
        None => {
            return None;
        },
    };
    j = skip_ws(s, j2);
    if j == s.len() || s[j] != ',' {
        return None;
    }
    j = skip_ws(s, j + 1);
    let (name2, j3) = match parse_string(s, j) {
        Some(p) => p,
        None => {
            return None;
        },
    };
    j = skip_ws(s, j3);
    if j == s.len() || s[j] != ':' {
        return None;
    }
    j = skip_ws(s, j + 1);
    let (v2, j4) = match parse_u32(s, j) {
        Some(p) => p,
        None => {
            return None;
        },
    };
    j = skip_ws(s, j4);
    if j == s.len() || s[j] != '}' {
        return None;
    }
    let ham_name = lit_ham();
    let spam_name = lit_spam();
    if chars_eq_lit(&name1, &ham_name) && chars_eq_lit(&name2, &spam_name) {
        Some((Counter { ham: v1, spam: v2 }, j + 1))
    } else if chars_eq_lit(&name1, &spam_name) && chars_eq_lit(&name2, &ham_name) {
        Some((Counter { ham: v2, spam: v1 }, j + 1))
    } else {
        None
    }
}

/// Whether the table already holds `key`.
fn table_has_key(table: &Vec<(String, Counter)>, key: &String) -> (r: bool)
    ensures
        r == has_token(table_view(table@), key@),
{
    let ghost tv = table_view(table@);
    let n = table.len();
    let mut k: usize = 0;
    while k < n
        invariant
            n == table@.len(),
            tv == table_view(table@),
            k <= n,
            forall|m: int| 0 <= m < k ==> tv[m].0 != key@,
        decreases n - k,
    {
        if table[k].0 == *key {
            proof {
                assert(tv[k as int].0 == key@);
            }
            return true;
        }
        k += 1;
    }
    proof {
        if has_token(tv, key@) {
            let w = choose|w: int| 0 <= w < tv.len() && tv[w].0 == key@;
            assert(tv[w].0 != key@);
        }
    }
    false
}

/// What checking the closing braces and trailing whitespace from the
/// table's closing brace at `at_close` yields.
pub open spec fn spec_finish(
    s: Seq<char>,
    at_close: int,
    t: Seq<(Seq<char>, Counter)>,
    sp: u32,
    hm: u32,
) -> Option<(Seq<(Seq<char>, Counter)>, u32, u32)> {
    let i = spec_skip_ws(s, at_close + 1);
    if i >= s.len() || s[i] != '}' {
        None
    } else {
        let i2 = spec_skip_ws(s, i + 1);
        if i2 != s.len() {
            None
        } else {
            Some((t, sp, hm))
        }
    }
}

/// What reading the remaining table entries from `i` yields, starting
/// from the entries `t` with column sums `sp` and `hm`: each entry is a
/// string key (already-seen keys are malformed) and a counter object,
/// the column sums must stay within 32 bits, and a comma continues the
/// table while a closing brace ends it.
pub open spec fn spec_entries(
    s: Seq<char>,
    i: int,
    t: Seq<(Seq<char>, Counter)>,
    sp: u32,
    hm: u32,
) -> Option<(Seq<(Seq<char>, Counter)>, u32, u32)>
    decreases s.len() - i,
{
    match spec_parse_string(s, i) {
        None => None,
        Some((key, i2)) => {
            let j = spec_skip_ws(s, i2);
            if j >= s.len() || s[j] != ':' {
                None
            } else {
                let j1 = spec_skip_ws(s, j + 1);
                match spec_parse_counter(s, j1) {
                    None => None,
                    Some((c, j2)) => {
                        if has_token(t, key) {
                            None
                        } else if sp > u32::MAX - c.spam || hm > u32::MAX - c.ham {
                            None
                        } else {
                            let t2 = t.push((key, c));
                            let sp2 = (sp + c.spam) as u32;
                            let hm2 = (hm + c.ham) as u32;
                            let i3 = spec_skip_ws(s, j2);
                            if i3 >= s.len() {
                                None
                            } else if s[i3] == ',' {
                                let i4 = spec_skip_ws(s, i3 + 1);
                                if i4 >= s.len() {
                                    None
                                } else if i4 > i {
                                    // reading an entry always advances; the bound
                                    // makes the recursion visibly terminate
                                    spec_entries(s, i4, t2, sp2, hm2)
                                } else {
                                    None
                                }
                            } else if s[i3] == '}' {
                                spec_finish(s, i3, t2, sp2, hm2)
                            } else {
                                None
                            }
                        }
                    },
                }
            }
        },
    }
}

/// What loading a whole persisted model from the text yields: the table
/// entries in file order, and the two column sums recomputed from them.
/// `None` is a malformed text.
pub open spec fn spec_parse_model(s: Seq<char>) -> Option<(Seq<(Seq<char>, Counter)>, u32, u32)> {
    let i0 = spec_skip_ws(s, 0);
    if i0 >= s.len() || s[i0] != '{' {
        None
    } else {
        let i1 = spec_skip_ws(s, i0 + 1);
        match spec_parse_string(s, i1) {
            None => None,
            Some((top, i2)) => {
                if top != seq!['t', 'o', 'k', 'e', 'n', '_', 't', 'a', 'b', 'l', 'e'] {
                    None
                } else {
                    let i3 = spec_skip_ws(s, i2);
                    if i3 >= s.len() || s[i3] != ':' {
                        None
                    } else {
                        let i4 = spec_skip_ws(s, i3 + 1);
                        if i4 >= s.len() || s[i4] != '{' {
                            None
                        } else {
                            let i5 = spec_skip_ws(s, i4 + 1);
                            if i5 >= s.len() {
                                None
                            } else if s[i5] == '}' {
                                spec_finish(s, i5, Seq::<(Seq<char>, Counter)>::empty(), 0u32, 0u32)
                            } else {
                                spec_entries(s, i5, Seq::<(Seq<char>, Counter)>::empty(), 0u32, 0u32)
                            }
                        }
                    }
                }
            },
        }
    }
}

impl Classifier {
    /// Deserialize a model from JSON text: exactly what `spec_parse_model`
    /// says the text denotes, or a `FormatError` where it denotes nothing.
    /// The totals are recomputed from the parsed table — never read from
    /// the text — so a loaded model is well formed or the load fails.
    #[verifier::rlimit(100)]
    pub fn from_json(text: &Vec<char>) -> (r: Result<Classifier, FormatError>)
        ensures
            r matches Ok(m) ==> m.wf(),
            match spec_parse_model(text@) {
                Some(p) => {
                    &&& r matches Ok(m)
                    &&& m.entries() == p.0
                    &&& m.spam_total() == p.1
                    &&& m.ham_total() == p.2
                },
                None => r is Err,
            },
    {
        let s = text;
        let mut i = skip_ws(s, 0);
        if i == s.len() || s[i] != '{' {
            return Err(FormatError);
        }
        i = skip_ws(s, i + 1);
        let (top_name, i1) = match parse_string(s, i) {
            Some(p) => p,
            None => {
                return Err(FormatError);
            },
        };
        let tt = lit_token_table();
        if !chars_eq_lit(&top_name, &tt) {
            return Err(FormatError);
        }
        i = skip_ws(s, i1);
        if i == s.len() || s[i] != ':' {
            return Err(FormatError);
        }
        i = skip_ws(s, i + 1);
        if i == s.len() || s[i] != '{' {
            return Err(FormatError);
        }
        i = skip_ws(s, i + 1);
        let mut table: Vec<(String, Counter)> = Vec::new();
        let mut spam_acc: u32 = 0;
        let mut ham_acc: u32 = 0;
        proof {
            assert(table_view(table@) =~= Seq::<(Seq<char>, Counter)>::empty());
        }
        if i == s.len() {
            return Err(FormatError);
        }
        if s[i] == '}' {
            proof {
                assert(spec_parse_model(s@) == spec_finish(
                    s@,
                    i as int,
                    table_view(table@),
                    spam_acc,
                    ham_acc,
                ));
            }
            return Self::finish_parse(s, i, table, spam_acc, ham_acc);
        }
        proof {
            assert(spec_parse_model(s@) == spec_entries(
                s@,
                i as int,
                table_view(table@),
                spam_acc,
                ham_acc,
            ));
        }
        loop
            invariant
                s == text,
                i < s@.len(),
                keys_unique(table_view(table@)),
                spam_acc == spam_sum(table_view(table@)),
                ham_acc == ham_sum(table_view(table@)),
                spec_parse_model(s@) == spec_entries(
                    s@,
                    i as int,
                    table_view(table@),
                    spam_acc,
                    ham_acc,
                ),
            decreases s@.len() - i,
        {
            let ghost i_at_entry = i as int;
            let ghost sp_at_entry = spam_acc;
            let ghost hm_at_entry = ham_acc;
            let ghost tv = table_view(table@);
            let (key_chars, i2) = match parse_string(s, i) {
                Some(p) => p,
                None => {
                    return Err(FormatError);
                },
            };
            let mut j = skip_ws(s, i2);
            if j == s.len() || s[j] != ':' {
                return Err(FormatError);
            }
            j = skip_ws(s, j + 1);
            let (c, j2) = match parse_counter(s, j) {
                Some(p) => p,
                None => {
                    return Err(FormatError);
                },
            };
            let key = chars_to_string(&key_chars);
            if table_has_key(&table, &key) {
                return Err(FormatError);
            }
            if spam_acc > u32::MAX - c.spam || ham_acc > u32::MAX - c.ham {
                return Err(FormatError);
            }
            proof {
                crate::classifier::lemma_spam_sum_nonneg(tv);
                crate::classifier::lemma_ham_sum_nonneg(tv);
            }
            spam_acc = spam_acc + c.spam;
            ham_acc = ham_acc + c.ham;
            let ghost keyv = key@;
            table.push((key, c));
            proof {
                let tv2 = table_view(table@);
                assert(tv2 =~= tv.push((keyv, c)));
                assert(tv2.drop_last() =~= tv);
                assert(tv2.last() == (keyv, c));
                assert(forall|m: int| 0 <= m < tv.len() ==> tv[m].0 != keyv);
                assert forall|a: int, b: int| 0 <= a < b < tv2.len() implies tv2[a].0
                    != tv2[b].0 by {
                    if b < tv2.len() - 1 {
                        assert(tv2[a] == tv[a] && tv2[b] == tv[b]);
                    } else {
                        assert(tv2[a] == tv[a] && tv2[b].0 == keyv);
                    }
                }
            }
            i = skip_ws(s, j2);
            if i == s.len() {
                return Err(FormatError);
            }
            if s[i] == ',' {
                i = skip_ws(s, i + 1);
                if i == s.len() {
                    return Err(FormatError);
                }
                proof {
                    assert(i > i_at_entry);
                    assert(spec_entries(s@, i_at_entry, tv, sp_at_entry, hm_at_entry)
                        == spec_entries(s@, i as int, table_view(table@), spam_acc, ham_acc));
                }
            } else if s[i] == '}' {
                proof {
                    assert(spec_entries(s@, i_at_entry, tv, sp_at_entry, hm_at_entry)
                        == spec_finish(s@, i as int, table_view(table@), spam_acc, ham_acc));
                }
                return Self::finish_parse(s, i, table, spam_acc, ham_acc);
            } else {
                return Err(FormatError);
            }
        }
    }

    /// Check the closing braces and trailing whitespace, then assemble
    /// the model.
    fn finish_parse(
        s: &Vec<char>,
        at_close: usize,
        table: Vec<(String, Counter)>,
        spam_acc: u32,
        ham_acc: u32,
    ) -> (r: Result<Classifier, FormatError>)
        requires
            at_close < s@.len(),
            keys_unique(table_view(table@)),
            spam_acc == spam_sum(table_view(table@)),
            ham_acc == ham_sum(table_view(table@)),
        ensures
            r matches Ok(m) ==> m.wf(),
            match spec_finish(s@, at_close as int, table_view(table@), spam_acc, ham_acc) {
                Some(p) => {
                    &&& r matches Ok(m)
                    &&& m.entries() == p.0
                    &&& m.spam_total() == p.1
                    &&& m.ham_total() == p.2
                },
                None => r is Err,
            },
    {
        let n = s.len();
        let mut i = skip_ws(s, at_close + 1);
        if i == n || s[i] != '}' {
            return Err(FormatError);
        }
        i = skip_ws(s, i + 1);
        if i != n {
            return Err(FormatError);
        }
        Ok(Classifier::from_parts(table, spam_acc, ham_acc))
    }
}

} // verus!
