//! On-disk record format of the store.
//!
//! A segment is the concatenation of self-delimiting textual records, one per
//! command, with no separators:
//!
//! - `{"Set":{"key":"<key>","value":"<value>"}}`
//! - `{"Remove":{"key":"<key>"}}`
//!
//! Keys and values use the standard textual escaping: `"` and `\` are
//! escaped with a backslash, the control characters with one-letter names
//! (`\b \t \n \f \r`) use those, and every other control character is
//! written `\u00` followed by two lowercase hex digits. All other characters
//! stand for themselves.
//!
//! The decoder accepts exactly the encoder's output, so decoding is a left
//! inverse of encoding; the round-trip lemmas at the end of this module are
//! what the engine's index invariant rests on.

use vstd::prelude::*;
use vstd::string::*;

verus! {

/// A command as executable data: the unit of persistence.
pub enum Command {
    Put { key: String, value: String },
    Remove { key: String },
}

/// A command as mathematical data: sequences of characters.
pub enum Cmd {
    Put { key: Seq<char>, value: Seq<char> },
    Remove { key: Seq<char> },
}

impl View for Command {
    type V = Cmd;

    open spec fn view(&self) -> Cmd {
        match self {
            Command::Put { key, value } => Cmd::Put { key: key@, value: value@ },
            Command::Remove { key } => Cmd::Remove { key: key@ },
        }
    }
}

// ---------------------------------------------------------------------------
// Escaping of a single character and of a string.
// ---------------------------------------------------------------------------

/// Second hex digit of a control character's code, lowercase.
pub open spec fn hex_lo(c: char) -> char {
    let v = (c as u32) % 16;
    if v == 0 { '0' } else if v == 1 { '1' } else if v == 2 { '2' }
    else if v == 3 { '3' } else if v == 4 { '4' } else if v == 5 { '5' }
    else if v == 6 { '6' } else if v == 7 { '7' } else if v == 8 { '8' }
    else if v == 9 { '9' } else if v == 10 { 'a' } else if v == 11 { 'b' }
    else if v == 12 { 'c' } else if v == 13 { 'd' } else if v == 14 { 'e' }
    else { 'f' }
}

/// First hex digit of a control character's code: `0` or `1`.
pub open spec fn hex_hi(c: char) -> char {
    if (c as u32) < 16 { '0' } else { '1' }
}

/// What one character contributes to an encoded string.
pub open spec fn esc_char(c: char) -> Seq<char> {
    if c == '"' { seq!['\\', '"'] }
    else if c == '\\' { seq!['\\', '\\'] }
    else if c == '\u{08}' { seq!['\\', 'b'] }
    else if c == '\u{09}' { seq!['\\', 't'] }
    else if c == '\u{0a}' { seq!['\\', 'n'] }
    else if c == '\u{0c}' { seq!['\\', 'f'] }
    else if c == '\u{0d}' { seq!['\\', 'r'] }
    else if (c as u32) < 32 { seq!['\\', 'u', '0', '0', hex_hi(c), hex_lo(c)] }
    else { seq![c] }
}

/// The escaped form of a whole string.
pub open spec fn esc(s: Seq<char>) -> Seq<char>
    decreases s.len(),
{
    if s.len() == 0 {
        Seq::empty()
    } else {
        esc_char(s[0]) + esc(s.subrange(1, s.len() as int))
    }
}

// ---------------------------------------------------------------------------
// The fixed parts of a record.
// ---------------------------------------------------------------------------

/// `{"Set":{"key":"`
pub open spec fn set_prefix() -> Seq<char> {
    seq!['{', '"', 'S', 'e', 't', '"', ':', '{', '"', 'k', 'e', 'y', '"', ':', '"']
}

/// `,"value":"` — follows the key's closing quote in a `Set` record.
pub open spec fn set_mid() -> Seq<char> {
    seq![',', '"', 'v', 'a', 'l', 'u', 'e', '"', ':', '"']
}

/// `{"Remove":{"key":"`
pub open spec fn rm_prefix() -> Seq<char> {
    seq!['{', '"', 'R', 'e', 'm', 'o', 'v', 'e', '"', ':', '{', '"', 'k', 'e', 'y', '"', ':', '"']
}

/// `}}` — follows the last string's closing quote.
pub open spec fn close_braces() -> Seq<char> {
    seq!['}', '}']
}

/// The escaped form of a string followed by its closing quote.
pub open spec fn str_enc(t: Seq<char>) -> Seq<char> {
    esc(t) + seq!['"']
}

/// The encoded form of a command record.
pub open spec fn enc(c: Cmd) -> Seq<char> {
    match c {
        Cmd::Put { key, value } =>
            set_prefix() + str_enc(key) + set_mid() + str_enc(value) + close_braces(),
        Cmd::Remove { key } =>
            rm_prefix() + str_enc(key) + close_braces(),
    }
}

/// The concatenation of the encoded forms of a sequence of commands: the
/// contents of one segment.
pub open spec fn concat_encs(cs: Seq<Cmd>) -> Seq<char>
    decreases cs.len(),
{
    if cs.len() == 0 {
        Seq::empty()
    } else {
        enc(cs[0]) + concat_encs(cs.subrange(1, cs.len() as int))
    }
}

// ---------------------------------------------------------------------------
// The parser, as a mathematical function. It accepts exactly the encoder's
// output, so that whatever it returns re-encodes to the bytes it consumed.
// ---------------------------------------------------------------------------

/// The character a one-letter escape stands for, or `None` where the letter
/// is not one of the seven accepted ones.
pub open spec fn named_unescape(e: char) -> Option<char> {
    if e == '"' { Some('"') }
    else if e == '\\' { Some('\\') }
    else if e == 'b' { Some('\u{08}') }
    else if e == 't' { Some('\u{09}') }
    else if e == 'n' { Some('\u{0a}') }
    else if e == 'f' { Some('\u{0c}') }
    else if e == 'r' { Some('\u{0d}') }
    else { None }
}

/// The control character written `\u00` + the two given hex digits, for
/// exactly those codes the encoder writes that way: below 32 and without a
/// one-letter escape of their own.
pub open spec fn ctrl_unescape(h1: char, h0: char) -> Option<char> {
    if h1 == '0' {
        if h0 == '0' { Some('\u{00}') } else if h0 == '1' { Some('\u{01}') }
        else if h0 == '2' { Some('\u{02}') } else if h0 == '3' { Some('\u{03}') }
        else if h0 == '4' { Some('\u{04}') } else if h0 == '5' { Some('\u{05}') }
        else if h0 == '6' { Some('\u{06}') } else if h0 == '7' { Some('\u{07}') }
        else if h0 == 'b' { Some('\u{0b}') } else if h0 == 'e' { Some('\u{0e}') }
        else if h0 == 'f' { Some('\u{0f}') } else { None }
    } else if h1 == '1' {
        if h0 == '0' { Some('\u{10}') } else if h0 == '1' { Some('\u{11}') }
        else if h0 == '2' { Some('\u{12}') } else if h0 == '3' { Some('\u{13}') }
        else if h0 == '4' { Some('\u{14}') } else if h0 == '5' { Some('\u{15}') }
        else if h0 == '6' { Some('\u{16}') } else if h0 == '7' { Some('\u{17}') }
        else if h0 == '8' { Some('\u{18}') } else if h0 == '9' { Some('\u{19}') }
        else if h0 == 'a' { Some('\u{1a}') } else if h0 == 'b' { Some('\u{1b}') }
        else if h0 == 'c' { Some('\u{1c}') } else if h0 == 'd' { Some('\u{1d}') }
        else if h0 == 'e' { Some('\u{1e}') } else if h0 == 'f' { Some('\u{1f}') }
        else { None }
    } else {
        None
    }
}

/// Parse a string body starting at `i`, up to and through its closing quote.
/// Returns the decoded characters and the position just after the quote.
pub open spec fn parse_str_at(s: Seq<char>, i: int) -> Option<(Seq<char>, int)>
    decreases s.len() - i,
{
    if i < 0 || i >= s.len() {
        None
    } else if s[i] == '"' {
        Some((Seq::empty(), i + 1))
    } else if s[i] == '\\' {
        if i + 1 >= s.len() {
            None
        } else if s[i + 1] == 'u' {
            if i + 6 > s.len() {
                None
            } else if s[i + 2] == '0' && s[i + 3] == '0' {
                match ctrl_unescape(s[i + 4], s[i + 5]) {
                    Some(c) => match parse_str_at(s, i + 6) {
                        Some(r) => Some((seq![c] + r.0, r.1)),
                        None => None,
                    },
                    None => None,
                }
            } else {
                None
            }
        } else {
            match named_unescape(s[i + 1]) {
                Some(c) => match parse_str_at(s, i + 2) {
                    Some(r) => Some((seq![c] + r.0, r.1)),
                    None => None,
                },
                None => None,
            }
        }
    } else if (s[i] as u32) < 32 {
        None
    } else {
        match parse_str_at(s, i + 1) {
            Some(r) => Some((seq![s[i]] + r.0, r.1)),
            None => None,
        }
    }
}

/// Whether `lit` occurs in `s` at position `i`.
pub open spec fn match_at(s: Seq<char>, i: int, lit: Seq<char>) -> bool {
    0 <= i && i + lit.len() <= s.len() && s.subrange(i, i + lit.len()) == lit
}

/// Parse one command record starting at `i`. Returns the command and the
/// position just after its last `}`.
pub open spec fn parse_record_at(s: Seq<char>, i: int) -> Option<(Cmd, int)> {
    if match_at(s, i, set_prefix()) {
        match parse_str_at(s, i + 15) {
            Some((key, j)) => if match_at(s, j, set_mid()) {
                match parse_str_at(s, j + 10) {
                    Some((value, m)) => if match_at(s, m, close_braces()) {
                        Some((Cmd::Put { key, value }, m + 2))
                    } else {
                        None
                    },
                    None => None,
                }
            } else {
                None
            },
            None => None,
        }
    } else if match_at(s, i, rm_prefix()) {
        match parse_str_at(s, i + 18) {
            Some((key, j)) => if match_at(s, j, close_braces()) {
                Some((Cmd::Remove { key }, j + 2))
            } else {
                None
            },
            None => None,
        }
    } else {
        None
    }
}

/// Parse a whole segment from position `i` to its end: the sequence of
/// commands it records, or `None` if it is not a record stream.
pub open spec fn parse_stream_at(s: Seq<char>, i: int) -> Option<Seq<Cmd>>
    decreases s.len() - i,
{
    if i == s.len() {
        Some(Seq::empty())
    } else if i < 0 || i > s.len() {
        None
    } else {
        match parse_record_at(s, i) {
            Some((c, j)) => if i < j && j <= s.len() {
                match parse_stream_at(s, j) {
                    Some(rest) => Some(seq![c] + rest),
                    None => None,
                }
            } else {
                None
            },
            None => None,
        }
    }
}

// ---------------------------------------------------------------------------
// Replaying a command history into the map it denotes.
// ---------------------------------------------------------------------------

/// The key-to-value map that a command history leaves behind when applied
/// in order.
pub open spec fn replay(cs: Seq<Cmd>) -> Map<Seq<char>, Seq<char>>
    decreases cs.len(),
{
    if cs.len() == 0 {
        Map::empty()
    } else {
        match cs.last() {
            Cmd::Put { key, value } => replay(cs.drop_last()).insert(key, value),
            Cmd::Remove { key } => replay(cs.drop_last()).remove(key),
        }
    }
}

// ---------------------------------------------------------------------------
// The executable encoder.
// ---------------------------------------------------------------------------

/// Escaping one more character extends the escaped form by that character's
/// contribution.
pub proof fn lemma_esc_push(t: Seq<char>, c: char)
    ensures
        esc(t.push(c)) == esc(t) + esc_char(c),
    decreases t.len(),
{
    reveal_with_fuel(esc, 3);
    if t.len() == 0 {
        assert(t.push(c).subrange(1, 1) =~= Seq::<char>::empty());
        assert(t.push(c).subrange(1, t.push(c).len() as int) =~= Seq::<char>::empty());
        assert(esc(t.push(c)) =~= esc(t) + esc_char(c));
    } else {
        assert(t.push(c).subrange(1, t.len() + 1 as int) =~= t.subrange(1, t.len() as int).push(c));
        lemma_esc_push(t.subrange(1, t.len() as int), c);
        assert(esc(t.push(c)) =~= esc(t) + esc_char(c));
    }
}

fn push_set_prefix(out: &mut Vec<char>)
    ensures
        final(out)@ == old(out)@ + set_prefix(),
{
    out.push('{'); out.push('"'); out.push('S'); out.push('e'); out.push('t');
    out.push('"'); out.push(':'); out.push('{'); out.push('"'); out.push('k');
    out.push('e'); out.push('y'); out.push('"'); out.push(':'); out.push('"');
    proof {
        assert(out@ =~= old(out)@ + set_prefix());
    }
}

fn push_set_mid(out: &mut Vec<char>)
    ensures
        final(out)@ == old(out)@ + set_mid(),
{
    out.push(','); out.push('"'); out.push('v'); out.push('a'); out.push('l');
    out.push('u'); out.push('e'); out.push('"'); out.push(':'); out.push('"');
    proof {
        assert(out@ =~= old(out)@ + set_mid());
    }
}

fn push_rm_prefix(out: &mut Vec<char>)
    ensures
        final(out)@ == old(out)@ + rm_prefix(),
{
    out.push('{'); out.push('"'); out.push('R'); out.push('e'); out.push('m');
    out.push('o'); out.push('v'); out.push('e'); out.push('"'); out.push(':');
    out.push('{'); out.push('"'); out.push('k'); out.push('e'); out.push('y');
    out.push('"'); out.push(':'); out.push('"');
    proof {
        assert(out@ =~= old(out)@ + rm_prefix());
    }
}

fn push_esc_char(out: &mut Vec<char>, c: char)
    ensures
        final(out)@ == old(out)@ + esc_char(c),
{
    if c == '"' {
        out.push('\\'); out.push('"');
    } else if c == '\\' {
        out.push('\\'); out.push('\\');
    } else if c == '\u{08}' {
        out.push('\\'); out.push('b');
    } else if c == '\u{09}' {
        out.push('\\'); out.push('t');
    } else if c == '\u{0a}' {
        out.push('\\'); out.push('n');
    } else if c == '\u{0c}' {
        out.push('\\'); out.push('f');
    } else if c == '\u{0d}' {
        out.push('\\'); out.push('r');
    } else if (c as u32) < 32 {
        out.push('\\'); out.push('u'); out.push('0'); out.push('0');
        let v: u32 = c as u32;
        if v < 16 { out.push('0'); } else { out.push('1'); }
        let lo: u32 = v % 16;
        if lo == 0 { out.push('0'); } else if lo == 1 { out.push('1'); }
        else if lo == 2 { out.push('2'); } else if lo == 3 { out.push('3'); }
        else if lo == 4 { out.push('4'); } else if lo == 5 { out.push('5'); }
        else if lo == 6 { out.push('6'); } else if lo == 7 { out.push('7'); }
        else if lo == 8 { out.push('8'); } else if lo == 9 { out.push('9'); }
        else if lo == 10 { out.push('a'); } else if lo == 11 { out.push('b'); }
        else if lo == 12 { out.push('c'); } else if lo == 13 { out.push('d'); }
        else if lo == 14 { out.push('e'); } else { out.push('f'); }
    } else {
        out.push(c);
    }
    proof {
        assert(out@ =~= old(out)@ + esc_char(c));
    }
}

fn push_esc(out: &mut Vec<char>, s: &str)
    ensures
        final(out)@ == old(out)@ + esc(s@),
{
    let n = s.unicode_len();
    let mut i: usize = 0;
    while i < n
        invariant
            n == s@.len(),
            i <= n,
            out@ == old(out)@ + esc(s@.subrange(0, i as int)),
        decreases n - i,
    {
        let c = s.get_char(i);
        push_esc_char(out, c);
        proof {
            assert(s@.subrange(0, i + 1) =~= s@.subrange(0, i as int).push(s@[i as int]));
            lemma_esc_push(s@.subrange(0, i as int), s@[i as int]);
            assert(old(out)@ + esc(s@.subrange(0, i as int)) + esc_char(s@[i as int])
                =~= old(out)@ + esc(s@.subrange(0, i + 1)));
        }
        i = i + 1;
    }
    proof {
        assert(s@.subrange(0, n as int) =~= s@);
    }
}

/// Encode one command record: exactly the textual form described at the top
/// of this module.
pub fn encode_record(cmd: &Command) -> (r: Vec<char>)
    ensures
        r@ == enc(cmd@),
{
    let mut out: Vec<char> = Vec::new();
    match cmd {
        Command::Put { key, value } => {
            push_set_prefix(&mut out);
            push_esc(&mut out, key.as_str());
            out.push('"');
            push_set_mid(&mut out);
            push_esc(&mut out, value.as_str());
            out.push('"');
            out.push('}');
            out.push('}');
            proof {
                assert(out@ =~= enc(cmd@));
            }
        }
        Command::Remove { key } => {
            push_rm_prefix(&mut out);
            push_esc(&mut out, key.as_str());
            out.push('"');
            out.push('}');
            out.push('}');
            proof {
                assert(out@ =~= enc(cmd@));
            }
        }
    }
    out
}

// ---------------------------------------------------------------------------
// The executable decoder.
// ---------------------------------------------------------------------------

/// Relies on `String`'s `FromIterator<char>` implementation: collecting
/// characters yields the string of exactly those characters in order.
#[verifier::external_body]
pub(crate) fn chars_to_string(v: Vec<char>) -> (r: String)
    ensures
        r@ == v@,
{
    v.into_iter().collect()
}

fn named_unescape_x(e: char) -> (r: Option<char>)
    ensures
        r == named_unescape(e),
{
    if e == '"' { Some('"') }
    else if e == '\\' { Some('\\') }
    else if e == 'b' { Some('\u{08}') }
    else if e == 't' { Some('\u{09}') }
    else if e == 'n' { Some('\u{0a}') }
    else if e == 'f' { Some('\u{0c}') }
    else if e == 'r' { Some('\u{0d}') }
    else { None }
}

fn ctrl_unescape_x(h1: char, h0: char) -> (r: Option<char>)
    ensures
        r == ctrl_unescape(h1, h0),
{
    if h1 == '0' {
        if h0 == '0' { Some('\u{00}') } else if h0 == '1' { Some('\u{01}') }
        else if h0 == '2' { Some('\u{02}') } else if h0 == '3' { Some('\u{03}') }
        else if h0 == '4' { Some('\u{04}') } else if h0 == '5' { Some('\u{05}') }
        else if h0 == '6' { Some('\u{06}') } else if h0 == '7' { Some('\u{07}') }
        else if h0 == 'b' { Some('\u{0b}') } else if h0 == 'e' { Some('\u{0e}') }
        else if h0 == 'f' { Some('\u{0f}') } else { None }
    } else if h1 == '1' {
        if h0 == '0' { Some('\u{10}') } else if h0 == '1' { Some('\u{11}') }
        else if h0 == '2' { Some('\u{12}') } else if h0 == '3' { Some('\u{13}') }
        else if h0 == '4' { Some('\u{14}') } else if h0 == '5' { Some('\u{15}') }
        else if h0 == '6' { Some('\u{16}') } else if h0 == '7' { Some('\u{17}') }
        else if h0 == '8' { Some('\u{18}') } else if h0 == '9' { Some('\u{19}') }
        else if h0 == 'a' { Some('\u{1a}') } else if h0 == 'b' { Some('\u{1b}') }
        else if h0 == 'c' { Some('\u{1c}') } else if h0 == 'd' { Some('\u{1d}') }
        else if h0 == 'e' { Some('\u{1e}') } else if h0 == 'f' { Some('\u{1f}') }
        else { None }
    } else {
        None
    }
}

/// Whether `lit` occurs in `data` at position `i`.
fn has_lit(data: &Vec<char>, i: usize, lit: &Vec<char>) -> (b: bool)
    ensures
        b == match_at(data@, i as int, lit@),
{
    if i > data.len() || data.len() - i < lit.len() {
        return false;
    }
    let mut k: usize = 0;
    while k < lit.len()
        invariant
            i + lit.len() <= data.len(),
            k <= lit.len(),
            forall|m: int| 0 <= m < k ==> data@[i + m] == lit@[m],
        decreases lit.len() - k,
    {
        if data[i + k] != lit[k] {
            proof {
                assert(data@.subrange(i as int, i + lit@.len())[k as int] == data@[i + k]);
            }
            return false;
        }
        k = k + 1;
    }
    proof {
        assert(data@.subrange(i as int, i + lit@.len()) =~= lit@);
    }
    true
}

fn set_prefix_vec() -> (v: Vec<char>)
    ensures
        v@ == set_prefix(),
{
    let mut v: Vec<char> = Vec::new();
    push_set_prefix(&mut v);
    proof {
        assert(v@ =~= set_prefix());
    }
    v
}

fn set_mid_vec() -> (v: Vec<char>)
    ensures
        v@ == set_mid(),
{
    let mut v: Vec<char> = Vec::new();
    push_set_mid(&mut v);
    proof {
        assert(v@ =~= set_mid());
    }
    v
}

fn rm_prefix_vec() -> (v: Vec<char>)
    ensures
        v@ == rm_prefix(),
{
    let mut v: Vec<char> = Vec::new();
    push_rm_prefix(&mut v);
    proof {
        assert(v@ =~= rm_prefix());
    }
    v
}

fn close_braces_vec() -> (v: Vec<char>)
    ensures
        v@ == close_braces(),
{
    let mut v: Vec<char> = Vec::new();
    v.push('}');
    v.push('}');
    proof {
        assert(v@ =~= close_braces());
    }
    v
}

/// Parse a string body starting at `start`, through its closing quote.
fn parse_string_from(data: &Vec<char>, start: usize) -> (r: Option<(Vec<char>, usize)>)
    ensures
        match r {
            Some(p) => {
                &&& parse_str_at(data@, start as int) == Some((p.0@, p.1 as int))
                &&& start < p.1 <= data.len()
            },
            None => parse_str_at(data@, start as int) is None,
        },
{
    if start >= data.len() {
        return None;
    }
    let ghost s = data@;
    let mut i: usize = start;
    let mut acc: Vec<char> = Vec::new();
    proof {
        match parse_str_at(s, start as int) {
            Some(r2) => {
                assert(Seq::<char>::empty() + r2.0 =~= r2.0);
            }
            None => {}
        }
    }
    loop
        invariant
            start <= i <= data.len(),
            s == data@,
            match parse_str_at(s, i as int) {
                Some(r2) => parse_str_at(s, start as int) == Some((acc@ + r2.0, r2.1)),
                None => parse_str_at(s, start as int) is None,
            },
        decreases data.len() - i,
    {
        if i >= data.len() {
            return None;
        }
        let c = data[i];
        if c == '"' {
            proof {
                assert(parse_str_at(s, i as int) == Some((Seq::<char>::empty(), i + 1 as int)));
                assert(acc@ + Seq::<char>::empty() =~= acc@);
            }
            return Some((acc, i + 1));
        } else if c == '\\' {
            if data.len() - i < 2 {
                return None;
            }
            let e = data[i + 1];
            if e == 'u' {
                if data.len() - i < 6 {
                    return None;
                }
                if data[i + 2] == '0' && data[i + 3] == '0' {
                    match ctrl_unescape_x(data[i + 4], data[i + 5]) {
                        Some(c2) => {
                            proof {
                                match parse_str_at(s, i + 6) {
                                    Some(r3) => {
                                        assert(parse_str_at(s, i as int)
                                            == Some((seq![c2] + r3.0, r3.1)));
                                        assert(acc@ + (seq![c2] + r3.0)
                                            =~= acc@.push(c2) + r3.0);
                                    }
                                    None => {
                                        assert(parse_str_at(s, i as int) is None);
                                    }
                                }
                            }
                            acc.push(c2);
                            i = i + 6;
                        }
                        None => {
                            return None;
                        }
                    }
                } else {
                    return None;
                }
            } else {
                match named_unescape_x(e) {
                    Some(c2) => {
                        proof {
                            match parse_str_at(s, i + 2) {
                                Some(r3) => {
                                    assert(parse_str_at(s, i as int)
                                        == Some((seq![c2] + r3.0, r3.1)));
                                    assert(acc@ + (seq![c2] + r3.0) =~= acc@.push(c2) + r3.0);
                                }
                                None => {
                                    assert(parse_str_at(s, i as int) is None);
                                }
                            }
                        }
                        acc.push(c2);
                        i = i + 2;
                    }
                    None => {
                        return None;
                    }
                }
            }
        } else if (c as u32) < 32 {
            return None;
        } else {
            proof {
                match parse_str_at(s, i + 1) {
                    Some(r3) => {
                        assert(parse_str_at(s, i as int) == Some((seq![c] + r3.0, r3.1)));
                        assert(acc@ + (seq![c] + r3.0) =~= acc@.push(c) + r3.0);
                    }
                    None => {
                        assert(parse_str_at(s, i as int) is None);
                    }
                }
            }
            acc.push(c);
            i = i + 1;
        }
    }
}

/// Decode one command record starting at `start`. Returns the command and
/// the position just after it, or `None` where no record of the canonical
/// form begins there.
pub fn decode_record(data: &Vec<char>, start: usize) -> (r: Option<(Command, usize)>)
    ensures
        match r {
            Some(p) => {
                &&& parse_record_at(data@, start as int) == Some((p.0@, p.1 as int))
                &&& start < p.1 <= data.len()
            },
            None => parse_record_at(data@, start as int) is None,
        },
{
    let sp = set_prefix_vec();
    if has_lit(data, start, &sp) {
        proof {
            assert(start + set_prefix().len() <= data.len());
        }
        match parse_string_from(data, start + 15) {
            Some((kv, j)) => {
                let mid = set_mid_vec();
                if has_lit(data, j, &mid) {
                    proof {
                        assert(j + set_mid().len() <= data.len());
                    }
                    match parse_string_from(data, j + 10) {
                        Some((vv, m)) => {
                            let cb = close_braces_vec();
                            if has_lit(data, m, &cb) {
                                let key = chars_to_string(kv);
                                let value = chars_to_string(vv);
                                Some((Command::Put { key, value }, m + 2))
                            } else {
                                None
                            }
                        }
                        None => None,
                    }
                } else {
                    None
                }
            }
            None => None,
        }
    } else {
        let rp = rm_prefix_vec();
        if has_lit(data, start, &rp) {
            proof {
                assert(start + rm_prefix().len() <= data.len());
            }
            match parse_string_from(data, start + 18) {
                Some((kv, j)) => {
                    let cb = close_braces_vec();
                    if has_lit(data, j, &cb) {
                        let key = chars_to_string(kv);
                        Some((Command::Remove { key }, j + 2))
                    } else {
                        None
                    }
                }
                None => None,
            }
        } else {
            None
        }
    }
}


// ---------------------------------------------------------------------------
// Round-trip lemmas: the parser accepts exactly the encoder's output, and
// whatever it accepts re-encodes to the characters it consumed.
// ---------------------------------------------------------------------------

/// A control character without a one-letter escape is recovered from its two
/// hex digits.
proof fn lemma_ctrl_roundtrip(c: char)
    requires
        (c as u32) < 32,
        c != '\u{08}',
        c != '\u{09}',
        c != '\u{0a}',
        c != '\u{0c}',
        c != '\u{0d}',
    ensures
        ctrl_unescape(hex_hi(c), hex_lo(c)) == Some(c),
{
    if (c as u32) == 0 {
        assert(c == '\u{00}');
        assert(ctrl_unescape(hex_hi(c), hex_lo(c)) == Some(c));
    }
    if (c as u32) == 1 {
        assert(c == '\u{01}');
        assert(ctrl_unescape(hex_hi(c), hex_lo(c)) == Some(c));
    }
    if (c as u32) == 2 {
        assert(c == '\u{02}');
        assert(ctrl_unescape(hex_hi(c), hex_lo(c)) == Some(c));
    }
    if (c as u32) == 3 {
        assert(c == '\u{03}');
        assert(ctrl_unescape(hex_hi(c), hex_lo(c)) == Some(c));
    }
    if (c as u32) == 4 {
        assert(c == '\u{04}');
        assert(ctrl_unescape(hex_hi(c), hex_lo(c)) == Some(c));
    }
    if (c as u32) == 5 {
        assert(c == '\u{05}');
        assert(ctrl_unescape(hex_hi(c), hex_lo(c)) == Some(c));
    }
    if (c as u32) == 6 {
        assert(c == '\u{06}');
        assert(ctrl_unescape(hex_hi(c), hex_lo(c)) == Some(c));
    }
    if (c as u32) == 7 {
        assert(c == '\u{07}');
        assert(ctrl_unescape(hex_hi(c), hex_lo(c)) == Some(c));
    }
    if (c as u32) == 11 {
        assert(c == '\u{0b}');
        assert(ctrl_unescape(hex_hi(c), hex_lo(c)) == Some(c));
    }
    if (c as u32) == 14 {
        assert(c == '\u{0e}');
        assert(ctrl_unescape(hex_hi(c), hex_lo(c)) == Some(c));
    }
    if (c as u32) == 15 {
        assert(c == '\u{0f}');
        assert(ctrl_unescape(hex_hi(c), hex_lo(c)) == Some(c));
    }
    if (c as u32) == 16 {
        assert(c == '\u{10}');
        assert(ctrl_unescape(hex_hi(c), hex_lo(c)) == Some(c));
    }
    if (c as u32) == 17 {
        assert(c == '\u{11}');
        assert(ctrl_unescape(hex_hi(c), hex_lo(c)) == Some(c));
    }
    if (c as u32) == 18 {
        assert(c == '\u{12}');
        assert(ctrl_unescape(hex_hi(c), hex_lo(c)) == Some(c));
    }
    if (c as u32) == 19 {
        assert(c == '\u{13}');
        assert(ctrl_unescape(hex_hi(c), hex_lo(c)) == Some(c));
    }
    if (c as u32) == 20 {
        assert(c == '\u{14}');
        assert(ctrl_unescape(hex_hi(c), hex_lo(c)) == Some(c));
    }
    if (c as u32) == 21 {
        assert(c == '\u{15}');
        assert(ctrl_unescape(hex_hi(c), hex_lo(c)) == Some(c));
    }
    if (c as u32) == 22 {
        assert(c == '\u{16}');
        assert(ctrl_unescape(hex_hi(c), hex_lo(c)) == Some(c));
    }
    if (c as u32) == 23 {
        assert(c == '\u{17}');
        assert(ctrl_unescape(hex_hi(c), hex_lo(c)) == Some(c));
    }
    if (c as u32) == 24 {
        assert(c == '\u{18}');
        assert(ctrl_unescape(hex_hi(c), hex_lo(c)) == Some(c));
    }
    if (c as u32) == 25 {
        assert(c == '\u{19}');
        assert(ctrl_unescape(hex_hi(c), hex_lo(c)) == Some(c));
    }
    if (c as u32) == 26 {
        assert(c == '\u{1a}');
        assert(ctrl_unescape(hex_hi(c), hex_lo(c)) == Some(c));
    }
    if (c as u32) == 27 {
        assert(c == '\u{1b}');
        assert(ctrl_unescape(hex_hi(c), hex_lo(c)) == Some(c));
    }
    if (c as u32) == 28 {
        assert(c == '\u{1c}');
        assert(ctrl_unescape(hex_hi(c), hex_lo(c)) == Some(c));
    }
    if (c as u32) == 29 {
        assert(c == '\u{1d}');
        assert(ctrl_unescape(hex_hi(c), hex_lo(c)) == Some(c));
    }
    if (c as u32) == 30 {
        assert(c == '\u{1e}');
        assert(ctrl_unescape(hex_hi(c), hex_lo(c)) == Some(c));
    }
    if (c as u32) == 31 {
        assert(c == '\u{1f}');
        assert(ctrl_unescape(hex_hi(c), hex_lo(c)) == Some(c));
    }
}

/// Whatever `ctrl_unescape` accepts is a control character whose escape uses
/// exactly those two hex digits.
proof fn lemma_ctrl_sound(h1: char, h0: char)
    requires
        ctrl_unescape(h1, h0) is Some,
    ensures
        ({
            let c = ctrl_unescape(h1, h0).unwrap();
            &&& (c as u32) < 32
            &&& c != '\u{08}'
            &&& c != '\u{09}'
            &&& c != '\u{0a}'
            &&& c != '\u{0c}'
            &&& c != '\u{0d}'
            &&& hex_hi(c) == h1
            &&& hex_lo(c) == h0
        }),
{
    if h1 == '0' && h0 == '0' {
        assert(ctrl_unescape(h1, h0) == Some('\u{00}'));
        assert(hex_hi('\u{00}') == h1 && hex_lo('\u{00}') == h0);
    }
    if h1 == '0' && h0 == '1' {
        assert(ctrl_unescape(h1, h0) == Some('\u{01}'));
        assert(hex_hi('\u{01}') == h1 && hex_lo('\u{01}') == h0);
    }
    if h1 == '0' && h0 == '2' {
        assert(ctrl_unescape(h1, h0) == Some('\u{02}'));
        assert(hex_hi('\u{02}') == h1 && hex_lo('\u{02}') == h0);
    }
    if h1 == '0' && h0 == '3' {
        assert(ctrl_unescape(h1, h0) == Some('\u{03}'));
        assert(hex_hi('\u{03}') == h1 && hex_lo('\u{03}') == h0);
    }
    if h1 == '0' && h0 == '4' {
        assert(ctrl_unescape(h1, h0) == Some('\u{04}'));
        assert(hex_hi('\u{04}') == h1 && hex_lo('\u{04}') == h0);
    }
    if h1 == '0' && h0 == '5' {
        assert(ctrl_unescape(h1, h0) == Some('\u{05}'));
        assert(hex_hi('\u{05}') == h1 && hex_lo('\u{05}') == h0);
    }
    if h1 == '0' && h0 == '6' {
        assert(ctrl_unescape(h1, h0) == Some('\u{06}'));
        assert(hex_hi('\u{06}') == h1 && hex_lo('\u{06}') == h0);
    }
    if h1 == '0' && h0 == '7' {
        assert(ctrl_unescape(h1, h0) == Some('\u{07}'));
        assert(hex_hi('\u{07}') == h1 && hex_lo('\u{07}') == h0);
    }
    if h1 == '0' && h0 == 'b' {
        assert(ctrl_unescape(h1, h0) == Some('\u{0b}'));
        assert(hex_hi('\u{0b}') == h1 && hex_lo('\u{0b}') == h0);
    }
    if h1 == '0' && h0 == 'e' {
        assert(ctrl_unescape(h1, h0) == Some('\u{0e}'));
        assert(hex_hi('\u{0e}') == h1 && hex_lo('\u{0e}') == h0);
    }
    if h1 == '0' && h0 == 'f' {
        assert(ctrl_unescape(h1, h0) == Some('\u{0f}'));
        assert(hex_hi('\u{0f}') == h1 && hex_lo('\u{0f}') == h0);
    }
    if h1 == '1' && h0 == '0' {
        assert(ctrl_unescape(h1, h0) == Some('\u{10}'));
        assert(hex_hi('\u{10}') == h1 && hex_lo('\u{10}') == h0);
    }
    if h1 == '1' && h0 == '1' {
        assert(ctrl_unescape(h1, h0) == Some('\u{11}'));
        assert(hex_hi('\u{11}') == h1 && hex_lo('\u{11}') == h0);
    }
    if h1 == '1' && h0 == '2' {
        assert(ctrl_unescape(h1, h0) == Some('\u{12}'));
        assert(hex_hi('\u{12}') == h1 && hex_lo('\u{12}') == h0);
    }
    if h1 == '1' && h0 == '3' {
        assert(ctrl_unescape(h1, h0) == Some('\u{13}'));
        assert(hex_hi('\u{13}') == h1 && hex_lo('\u{13}') == h0);
    }
    if h1 == '1' && h0 == '4' {
        assert(ctrl_unescape(h1, h0) == Some('\u{14}'));
        assert(hex_hi('\u{14}') == h1 && hex_lo('\u{14}') == h0);
    }
    if h1 == '1' && h0 == '5' {
        assert(ctrl_unescape(h1, h0) == Some('\u{15}'));
        assert(hex_hi('\u{15}') == h1 && hex_lo('\u{15}') == h0);
    }
    if h1 == '1' && h0 == '6' {
        assert(ctrl_unescape(h1, h0) == Some('\u{16}'));
        assert(hex_hi('\u{16}') == h1 && hex_lo('\u{16}') == h0);
    }
    if h1 == '1' && h0 == '7' {
        assert(ctrl_unescape(h1, h0) == Some('\u{17}'));
        assert(hex_hi('\u{17}') == h1 && hex_lo('\u{17}') == h0);
    }
    if h1 == '1' && h0 == '8' {
        assert(ctrl_unescape(h1, h0) == Some('\u{18}'));
        assert(hex_hi('\u{18}') == h1 && hex_lo('\u{18}') == h0);
    }
    if h1 == '1' && h0 == '9' {
        assert(ctrl_unescape(h1, h0) == Some('\u{19}'));
        assert(hex_hi('\u{19}') == h1 && hex_lo('\u{19}') == h0);
    }
    if h1 == '1' && h0 == 'a' {
        assert(ctrl_unescape(h1, h0) == Some('\u{1a}'));
        assert(hex_hi('\u{1a}') == h1 && hex_lo('\u{1a}') == h0);
    }
    if h1 == '1' && h0 == 'b' {
        assert(ctrl_unescape(h1, h0) == Some('\u{1b}'));
        assert(hex_hi('\u{1b}') == h1 && hex_lo('\u{1b}') == h0);
    }
    if h1 == '1' && h0 == 'c' {
        assert(ctrl_unescape(h1, h0) == Some('\u{1c}'));
        assert(hex_hi('\u{1c}') == h1 && hex_lo('\u{1c}') == h0);
    }
    if h1 == '1' && h0 == 'd' {
        assert(ctrl_unescape(h1, h0) == Some('\u{1d}'));
        assert(hex_hi('\u{1d}') == h1 && hex_lo('\u{1d}') == h0);
    }
    if h1 == '1' && h0 == 'e' {
        assert(ctrl_unescape(h1, h0) == Some('\u{1e}'));
        assert(hex_hi('\u{1e}') == h1 && hex_lo('\u{1e}') == h0);
    }
    if h1 == '1' && h0 == 'f' {
        assert(ctrl_unescape(h1, h0) == Some('\u{1f}'));
        assert(hex_hi('\u{1f}') == h1 && hex_lo('\u{1f}') == h0);
    }
}

/// Escaping distributes over splitting off the first character.
proof fn lemma_esc_head(c: char, t: Seq<char>)
    ensures
        esc(seq![c] + t) == esc_char(c) + esc(t),
{
    assert((seq![c] + t)[0] == c);
    assert((seq![c] + t).subrange(1, (seq![c] + t).len() as int) =~= t);
}

/// A window of `s` equal to `w` makes every window of `w` a window of `s`.
proof fn lemma_slice_of_slice(s: Seq<char>, i: int, w: Seq<char>, o: int, p: Seq<char>)
    requires
        0 <= i,
        i + w.len() <= s.len(),
        s.subrange(i, i + w.len()) == w,
        0 <= o,
        o + p.len() <= w.len(),
        w.subrange(o, o + p.len()) == p,
    ensures
        s.subrange(i + o, i + o + p.len()) == p,
{
    assert forall|n: int| 0 <= n < p.len() implies
        s.subrange(i + o, i + o + p.len())[n] == p[n] by {
        assert(s.subrange(i, i + w.len())[o + n] == s[i + o + n]);
        assert(w.subrange(o, o + p.len())[n] == w[o + n]);
        assert(s.subrange(i + o, i + o + p.len())[n] == s[i + o + n]);
    }
    assert(s.subrange(i + o, i + o + p.len()) =~= p);
}

/// Completeness for strings: where `s` carries the escaped form of `k` and
/// its closing quote, the parser recovers exactly `k` and stops after the
/// quote.
proof fn lemma_parse_str_enc(s: Seq<char>, i: int, k: Seq<char>)
    requires
        0 <= i,
        i + str_enc(k).len() <= s.len(),
        s.subrange(i, i + str_enc(k).len()) == str_enc(k),
    ensures
        parse_str_at(s, i) == Some((k, i + str_enc(k).len())),
    decreases k.len(),
{
    let w = str_enc(k);
    if k.len() == 0 {
        assert(w =~= seq!['"']);
        assert(s.subrange(i, i + 1)[0] == s[i]);
        assert(s[i] == '"');
        assert(k =~= Seq::<char>::empty());
    } else {
        let c = k[0];
        let k2 = k.subrange(1, k.len() as int);
        assert(esc(k) == esc_char(c) + esc(k2));
        let d = esc_char(c).len() as int;
        assert(w =~= esc_char(c) + str_enc(k2));
        assert(w.subrange(d, w.len() as int) =~= str_enc(k2));
        lemma_slice_of_slice(s, i, w, d, str_enc(k2));
        lemma_parse_str_enc(s, i + d, k2);
        assert(seq![c] + k2 =~= k);
        assert(s.subrange(i, i + w.len())[0] == s[i]);
        assert(s[i] == esc_char(c)[0]);
        if d >= 2 {
            assert(s.subrange(i, i + w.len())[1] == s[i + 1]);
            assert(s[i + 1] == esc_char(c)[1]);
        }
        if c == '"' {
            assert(parse_str_at(s, i) == Some((k, i + w.len())));
        } else if c == '\\' {
            assert(parse_str_at(s, i) == Some((k, i + w.len())));
        } else if c == '\u{08}' || c == '\u{09}' || c == '\u{0a}' || c == '\u{0c}'
            || c == '\u{0d}' {
            assert(parse_str_at(s, i) == Some((k, i + w.len())));
        } else if (c as u32) < 32 {
            assert(s.subrange(i, i + w.len())[2] == s[i + 2]);
            assert(s.subrange(i, i + w.len())[3] == s[i + 3]);
            assert(s.subrange(i, i + w.len())[4] == s[i + 4]);
            assert(s.subrange(i, i + w.len())[5] == s[i + 5]);
            assert(s[i + 2] == '0' && s[i + 3] == '0');
            assert(s[i + 4] == hex_hi(c) && s[i + 5] == hex_lo(c));
            lemma_ctrl_roundtrip(c);
            assert(parse_str_at(s, i) == Some((k, i + w.len())));
        } else {
            assert(s[i] == c);
            assert(parse_str_at(s, i) == Some((k, i + w.len())));
        }
    }
}

/// Soundness for strings: whatever the parser accepts re-encodes to exactly
/// the characters it consumed.
proof fn lemma_parse_str_sound(s: Seq<char>, i: int)
    ensures
        match parse_str_at(s, i) {
            Some(r) => {
                &&& i < r.1 <= s.len()
                &&& r.1 == i + str_enc(r.0).len()
                &&& s.subrange(i, r.1) == str_enc(r.0)
            },
            None => true,
        },
    decreases s.len() - i,
{
    if i < 0 || i >= s.len() {
    } else if s[i] == '"' {
        assert(str_enc(Seq::<char>::empty()) =~= seq!['"']);
        assert(s.subrange(i, i + 1) =~= seq![s[i]]);
    } else if s[i] == '\\' {
        if i + 1 >= s.len() {
        } else if s[i + 1] == 'u' {
            if i + 6 > s.len() {
            } else if s[i + 2] == '0' && s[i + 3] == '0' {
                match ctrl_unescape(s[i + 4], s[i + 5]) {
                    Some(c) => {
                        lemma_ctrl_sound(s[i + 4], s[i + 5]);
                        lemma_parse_str_sound(s, i + 6);
                        match parse_str_at(s, i + 6) {
                            Some(r3) => {
                                lemma_esc_head(c, r3.0);
                                assert(esc_char(c) =~= seq![
                                    '\\', 'u', '0', '0', s[i + 4], s[i + 5],
                                ]);
                                assert(str_enc(seq![c] + r3.0)
                                    =~= esc_char(c) + str_enc(r3.0));
                                assert forall|n: int| 0 <= n < r3.1 - i implies
                                    s.subrange(i, r3.1)[n]
                                        == str_enc(seq![c] + r3.0)[n] by {
                                    assert(s.subrange(i, r3.1)[n] == s[i + n]);
                                    if n >= 6 {
                                        assert(s.subrange(i + 6, r3.1)[n - 6]
                                            == s[i + n]);
                                    }
                                }
                                assert(s.subrange(i, r3.1) =~= str_enc(seq![c] + r3.0));
                            }
                            None => {}
                        }
                    }
                    None => {}
                }
            }
        } else {
            match named_unescape(s[i + 1]) {
                Some(c) => {
                    lemma_parse_str_sound(s, i + 2);
                    match parse_str_at(s, i + 2) {
                        Some(r3) => {
                            lemma_esc_head(c, r3.0);
                            assert(esc_char(c) =~= seq!['\\', s[i + 1]]);
                            assert(str_enc(seq![c] + r3.0)
                                =~= esc_char(c) + str_enc(r3.0));
                            assert forall|n: int| 0 <= n < r3.1 - i implies
                                s.subrange(i, r3.1)[n]
                                    == str_enc(seq![c] + r3.0)[n] by {
                                assert(s.subrange(i, r3.1)[n] == s[i + n]);
                                if n >= 2 {
                                    assert(s.subrange(i + 2, r3.1)[n - 2] == s[i + n]);
                                }
                            }
                            assert(s.subrange(i, r3.1) =~= str_enc(seq![c] + r3.0));
                        }
                        None => {}
                    }
                }
                None => {}
            }
        }
    } else if (s[i] as u32) < 32 {
    } else {
        let c = s[i];
        lemma_parse_str_sound(s, i + 1);
        match parse_str_at(s, i + 1) {
            Some(r3) => {
                lemma_esc_head(c, r3.0);
                assert(esc_char(c) =~= seq![c]);
                assert(str_enc(seq![c] + r3.0) =~= esc_char(c) + str_enc(r3.0));
                assert forall|n: int| 0 <= n < r3.1 - i implies
                    s.subrange(i, r3.1)[n] == str_enc(seq![c] + r3.0)[n] by {
                    assert(s.subrange(i, r3.1)[n] == s[i + n]);
                    if n >= 1 {
                        assert(s.subrange(i + 1, r3.1)[n - 1] == s[i + n]);
                    }
                }
                assert(s.subrange(i, r3.1) =~= str_enc(seq![c] + r3.0));
            }
            None => {}
        }
    }
}

/// Completeness for records: where `s` carries the encoded form of `c`, the
/// parser recovers exactly `c` and stops after it.
pub proof fn lemma_parse_record_enc(s: Seq<char>, i: int, c: Cmd)
    requires
        0 <= i,
        i + enc(c).len() <= s.len(),
        s.subrange(i, i + enc(c).len()) == enc(c),
    ensures
        parse_record_at(s, i) == Some((c, i + enc(c).len())),
{
    let w = enc(c);
    match c {
        Cmd::Put { key, value } => {
            let kl = str_enc(key).len() as int;
            let vl = str_enc(value).len() as int;
            assert(w.subrange(0, 15) =~= set_prefix());
            lemma_slice_of_slice(s, i, w, 0, set_prefix());
            assert(match_at(s, i, set_prefix()));
            assert(w.subrange(15, 15 + kl) =~= str_enc(key));
            lemma_slice_of_slice(s, i, w, 15, str_enc(key));
            lemma_parse_str_enc(s, i + 15, key);
            let j = i + 15 + kl;
            assert(w.subrange(15 + kl, 25 + kl) =~= set_mid());
            lemma_slice_of_slice(s, i, w, 15 + kl, set_mid());
            assert(match_at(s, j, set_mid()));
            assert(w.subrange(25 + kl, 25 + kl + vl) =~= str_enc(value));
            lemma_slice_of_slice(s, i, w, 25 + kl, str_enc(value));
            lemma_parse_str_enc(s, i + 25 + kl, value);
            let m = i + 25 + kl + vl;
            assert(w.subrange(25 + kl + vl, 27 + kl + vl) =~= close_braces());
            lemma_slice_of_slice(s, i, w, 25 + kl + vl, close_braces());
            assert(match_at(s, m, close_braces()));
            assert(parse_record_at(s, i) == Some((c, i + w.len())));
        }
        Cmd::Remove { key } => {
            let kl = str_enc(key).len() as int;
            assert(w.subrange(0, 18) =~= rm_prefix());
            lemma_slice_of_slice(s, i, w, 0, rm_prefix());
            assert(match_at(s, i, rm_prefix()));
            if match_at(s, i, set_prefix()) {
                assert(s.subrange(i, i + 15)[2] == s[i + 2]);
                assert(s.subrange(i, i + 18)[2] == s[i + 2]);
                assert(false);
            }
            assert(w.subrange(18, 18 + kl) =~= str_enc(key));
            lemma_slice_of_slice(s, i, w, 18, str_enc(key));
            lemma_parse_str_enc(s, i + 18, key);
            let j = i + 18 + kl;
            assert(w.subrange(18 + kl, 20 + kl) =~= close_braces());
            lemma_slice_of_slice(s, i, w, 18 + kl, close_braces());
            assert(match_at(s, j, close_braces()));
            assert(parse_record_at(s, i) == Some((c, i + w.len())));
        }
    }
}

/// Soundness for records: whatever the parser accepts re-encodes to exactly
/// the characters it consumed.
pub proof fn lemma_parse_record_sound(s: Seq<char>, i: int)
    ensures
        match parse_record_at(s, i) {
            Some(r) => {
                &&& i < r.1 <= s.len()
                &&& r.1 == i + enc(r.0).len()
                &&& s.subrange(i, r.1) == enc(r.0)
            },
            None => true,
        },
{
    if match_at(s, i, set_prefix()) {
        lemma_parse_str_sound(s, i + 15);
        match parse_str_at(s, i + 15) {
            Some((key, j)) => {
                let kl = str_enc(key).len() as int;
                if match_at(s, j, set_mid()) {
                    lemma_parse_str_sound(s, j + 10);
                    match parse_str_at(s, j + 10) {
                        Some((value, m)) => {
                            let vl = str_enc(value).len() as int;
                            if match_at(s, m, close_braces()) {
                                let r0 = Cmd::Put { key, value };
                                assert forall|n: int| 0 <= n < m + 2 - i implies
                                    s.subrange(i, m + 2)[n] == enc(r0)[n] by {
                                    assert(s.subrange(i, m + 2)[n] == s[i + n]);
                                    if n < 15 {
                                        assert(s.subrange(i, i + 15)[n] == s[i + n]);
                                    } else if n < 15 + kl {
                                        assert(s.subrange(i + 15, j)[n - 15]
                                            == s[i + n]);
                                    } else if n < 25 + kl {
                                        assert(s.subrange(j, j + 10)[n - 15 - kl]
                                            == s[i + n]);
                                    } else if n < 25 + kl + vl {
                                        assert(s.subrange(j + 10, m)[n - 25 - kl]
                                            == s[i + n]);
                                    } else {
                                        assert(s.subrange(m, m + 2)[n - 25 - kl - vl]
                                            == s[i + n]);
                                    }
                                }
                                assert(s.subrange(i, m + 2) =~= enc(r0));
                            }
                        }
                        None => {}
                    }
                }
            }
            None => {}
        }
    } else if match_at(s, i, rm_prefix()) {
        lemma_parse_str_sound(s, i + 18);
        match parse_str_at(s, i + 18) {
            Some((key, j)) => {
                let kl = str_enc(key).len() as int;
                if match_at(s, j, close_braces()) {
                    let r0 = Cmd::Remove { key };
                    assert forall|n: int| 0 <= n < j + 2 - i implies
                        s.subrange(i, j + 2)[n] == enc(r0)[n] by {
                        assert(s.subrange(i, j + 2)[n] == s[i + n]);
                        if n < 18 {
                            assert(s.subrange(i, i + 18)[n] == s[i + n]);
                        } else if n < 18 + kl {
                            assert(s.subrange(i + 18, j)[n - 18] == s[i + n]);
                        } else {
                            assert(s.subrange(j, j + 2)[n - 18 - kl] == s[i + n]);
                        }
                    }
                    assert(s.subrange(i, j + 2) =~= enc(r0));
                }
            }
            None => {}
        }
    }
}

/// Appending one more command extends a segment's contents by that
/// command's encoding.
pub proof fn lemma_concat_encs_push(cs: Seq<Cmd>, c: Cmd)
    ensures
        concat_encs(cs.push(c)) == concat_encs(cs) + enc(c),
    decreases cs.len(),
{
    reveal_with_fuel(concat_encs, 3);
    if cs.len() == 0 {
        assert(cs.push(c).subrange(1, 1) =~= Seq::<Cmd>::empty());
        assert(cs.push(c).subrange(1, cs.push(c).len() as int) =~= Seq::<Cmd>::empty());
        assert(concat_encs(cs.push(c)) =~= concat_encs(cs) + enc(c));
    } else {
        assert(cs.push(c).subrange(1, cs.len() + 1 as int)
            =~= cs.subrange(1, cs.len() as int).push(c));
        lemma_concat_encs_push(cs.subrange(1, cs.len() as int), c);
        assert(concat_encs(cs.push(c)) =~= concat_encs(cs) + enc(c));
    }
}

/// A segment holding exactly the encodings of `cs` parses back to `cs`.
pub proof fn lemma_parse_stream_encs(s: Seq<char>, i: int, cs: Seq<Cmd>)
    requires
        0 <= i <= s.len(),
        s.subrange(i, s.len() as int) == concat_encs(cs),
    ensures
        parse_stream_at(s, i) == Some(cs),
    decreases cs.len(),
{
    let w = s.subrange(i, s.len() as int);
    if cs.len() == 0 {
        assert(w.len() == 0);
        assert(cs =~= Seq::<Cmd>::empty());
    } else {
        let c0 = cs[0];
        let rest = cs.subrange(1, cs.len() as int);
        assert(concat_encs(cs) == enc(c0) + concat_encs(rest));
        let el = enc(c0).len() as int;
        assert(w.subrange(0, el) =~= enc(c0));
        lemma_slice_of_slice(s, i, w, 0, enc(c0));
        lemma_parse_record_enc(s, i, c0);
        let j = i + el;
        assert(s.subrange(j, s.len() as int) =~= concat_encs(rest)) by {
            assert forall|n: int| 0 <= n < s.len() - j implies
                s.subrange(j, s.len() as int)[n] == concat_encs(rest)[n] by {
                assert(s.subrange(i, s.len() as int)[el + n] == s[j + n]);
                assert(s.subrange(j, s.len() as int)[n] == s[j + n]);
            }
        }
        lemma_parse_stream_encs(s, j, rest);
        assert(el > 0) by {
            match c0 {
                Cmd::Put { key, value } => {}
                Cmd::Remove { key } => {}
            }
        }
        assert(seq![c0] + rest =~= cs);
        assert(parse_stream_at(s, i) == Some(cs));
    }
}

} // verus!
