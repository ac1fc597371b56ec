//! Record codec: each record is one JSON object on one line.
//!
//! A segment file holds a sequence of lines, each encoding one [`Command`]:
//!
//! ```text
//! {"Insertion":{"key":"k","value":"v"}}
//! {"Discard":{"key":"k"}}
//! ```
//!
//! Keys and values are printable ASCII, so the only characters that need
//! escaping inside a JSON string are the quote and the backslash.  The
//! encoder is canonical (one byte sequence per record) and the decoder is
//! strict: it accepts exactly the encoder's output, which makes decoding a
//! total inverse of encoding.

use vstd::prelude::*;
use vstd::string::StringSliceAdditionalSpecFns;
use vstd::string::StrSliceExecFns;

verus! {

/// Longest key or value the store accepts, in bytes.
pub const MAX_TEXT: usize = 1048576;

/// Byte value of `"`.
pub const QUOTE_BYTE: u8 = 34;

/// Byte value of `\`.
pub const BACKSLASH_BYTE: u8 = 92;

/// Byte value of the line feed that terminates every record.
pub const NEWLINE_BYTE: u8 = 10;

/// One record of the log: either a live key-value pair or a tombstone.
#[derive(Debug, Clone, PartialEq)]
pub enum Command {
    /// A key-value pair being written.
    Insertion { key: String, value: String },
    /// A tombstone marking `key` as removed.
    Discard { key: String },
}

/// Mathematical form of a [`Command`]: the same two cases over character
/// sequences.
pub enum CommandView {
    Insertion { key: Seq<char>, value: Seq<char> },
    Discard { key: Seq<char> },
}

impl View for Command {
    type V = CommandView;

    open spec fn view(&self) -> CommandView {
        match self {
            Command::Insertion { key, value } => CommandView::Insertion {
                key: key@,
                value: value@,
            },
            Command::Discard { key } => CommandView::Discard { key: key@ },
        }
    }
}

/// A character the store may hold: printable ASCII, space through tilde.
pub open spec fn printable_char(c: char) -> bool {
    ' ' <= c <= '~'
}

/// A possibly-empty printable string of bounded length (a protocol field).
pub open spec fn valid_field(s: Seq<char>) -> bool {
    s.len() <= MAX_TEXT && forall|i: int| 0 <= i < s.len() ==> printable_char(#[trigger] s[i])
}

/// A non-empty printable string of bounded length (a key or a value).
pub open spec fn valid_text(s: Seq<char>) -> bool {
    valid_field(s) && s.len() >= 1
}

/// A command the store may persist: non-empty printable key, and for
/// insertions a non-empty printable value.
pub open spec fn valid_command(c: CommandView) -> bool {
    match c {
        CommandView::Insertion { key, value } => valid_text(key) && valid_text(value),
        CommandView::Discard { key } => valid_text(key),
    }
}

/// ASCII bytes read back as characters.
pub open spec fn chars_of(b: Seq<u8>) -> Seq<char> {
    Seq::new(b.len(), |i: int| b[i] as char)
}

/// JSON escaping of one printable character.
pub open spec fn escaped_char(c: char) -> Seq<u8> {
    if c == '"' || c == '\\' {
        seq![BACKSLASH_BYTE, c as u8]
    } else {
        seq![c as u8]
    }
}

/// JSON escaping of a whole string, character by character.
pub open spec fn escaped(s: Seq<char>) -> Seq<u8>
    decreases s.len(),
{
    if s.len() == 0 {
        Seq::empty()
    } else {
        escaped_char(s[0]) + escaped(s.skip(1))
    }
}

/// A byte that stands for itself inside a JSON string: printable and
/// neither quote nor backslash.
pub open spec fn plain_byte(b: u8) -> bool {
    32 <= b <= 126 && b != QUOTE_BYTE && b != BACKSLASH_BYTE
}

/// Strict parse of a JSON string body starting at `i`, up to and including
/// the closing quote.  Returns the decoded characters and the index just
/// past the quote.
pub open spec fn parse_field(s: Seq<u8>, i: int) -> Option<(Seq<char>, int)>
    decreases s.len() - i,
{
    if i < 0 || i >= s.len() {
        None
    } else if s[i] == QUOTE_BYTE {
        Some((Seq::empty(), i + 1))
    } else if s[i] == BACKSLASH_BYTE {
        if i + 1 < s.len() && (s[i + 1] == QUOTE_BYTE || s[i + 1] == BACKSLASH_BYTE) {
            match parse_field(s, i + 2) {
                None => None,
                Some((t, j)) => Some((seq![s[i + 1] as char] + t, j)),
            }
        } else {
            None
        }
    } else if plain_byte(s[i]) {
        match parse_field(s, i + 1) {
            None => None,
            Some((t, j)) => Some((seq![s[i] as char] + t, j)),
        }
    } else {
        None
    }
}

/// Escaping splits over concatenation.
pub proof fn lemma_escaped_append(a: Seq<char>, b: Seq<char>)
    ensures
        escaped(a + b) == escaped(a) + escaped(b),
    decreases a.len(),
{
    if a.len() == 0 {
        assert(a + b =~= b);
        assert(escaped(a) + escaped(b) =~= escaped(b));
    } else {
        lemma_escaped_append(a.skip(1), b);
        assert((a + b).skip(1) =~= a.skip(1) + b);
        assert(escaped(a + b) =~= escaped(a) + escaped(b));
    }
}

/// Escaping a single character is that character's escape.
pub proof fn lemma_escaped_singleton(c: char)
    ensures
        escaped(seq![c]) == escaped_char(c),
{
    assert(seq![c].skip(1) =~= Seq::<char>::empty());
    assert(escaped(seq![c].skip(1)) == Seq::<u8>::empty());
    assert(escaped(seq![c]) =~= escaped_char(c));
}

/// Escaping one more character appends its escape.
pub proof fn lemma_escaped_push(s: Seq<char>, c: char)
    ensures
        escaped(s.push(c)) == escaped(s) + escaped_char(c),
{
    lemma_escaped_append(s, seq![c]);
    assert(s.push(c) =~= s + seq![c]);
    lemma_escaped_singleton(c);
}

/// Every byte of an escaped printable string is printable; in particular
/// none is a newline.
pub proof fn lemma_escaped_printable(s: Seq<char>)
    requires
        forall|i: int| 0 <= i < s.len() ==> printable_char(#[trigger] s[i]),
    ensures
        forall|i: int| 0 <= i < escaped(s).len() ==> 32 <= #[trigger] escaped(s)[i] <= 126,
    decreases s.len(),
{
    if s.len() > 0 {
        assert(forall|i: int|
            0 <= i < s.skip(1).len() ==> printable_char(#[trigger] s.skip(1)[i]));
        lemma_escaped_printable(s.skip(1));
        let clen = escaped_char(s[0]).len() as int;
        assert forall|i: int| 0 <= i < escaped(s).len() implies 32 <= #[trigger] escaped(s)[i]
            <= 126 by {
            if i < clen {
                assert(escaped(s)[i] == escaped_char(s[0])[i]);
            } else {
                assert(escaped(s)[i] == escaped(s.skip(1))[i - clen]);
            }
        }
    }
}

/// Escaped strings are at least as long as the original and at most twice
/// as long.
pub proof fn lemma_escaped_len(s: Seq<char>)
    ensures
        s.len() <= escaped(s).len() <= 2 * s.len(),
    decreases s.len(),
{
    if s.len() > 0 {
        lemma_escaped_len(s.skip(1));
    }
}

/// Completeness of field parsing: parsing an escaped string followed by its
/// closing quote succeeds and consumes exactly that much input.
pub proof fn lemma_parse_escaped(s: Seq<u8>, i: int, v: Seq<char>)
    requires
        forall|k: int| 0 <= k < v.len() ==> printable_char(#[trigger] v[k]),
        0 <= i,
        i + escaped(v).len() + 1 <= s.len(),
        s.subrange(i, i + escaped(v).len() + 1) == escaped(v) + seq![QUOTE_BYTE],
    ensures
        parse_field(s, i) == Some((v, i + escaped(v).len() + 1)),
    decreases v.len(),
{
    let tail = s.subrange(i, i + escaped(v).len() + 1);
    if v.len() == 0 {
        assert(s[i] == QUOTE_BYTE) by {
            assert(tail[0] == QUOTE_BYTE);
        }
    } else {
        let c = v[0];
        let rest = v.skip(1);
        lemma_escaped_append(seq![c], rest);
        assert(v =~= seq![c] + rest);
        assert(escaped(v) =~= escaped_char(c) + escaped(rest));
        let clen = escaped_char(c).len() as int;
        assert forall|k: int| 0 <= k < escaped(rest).len() + 1 implies s[i + clen + k] == (
        escaped(rest) + seq![QUOTE_BYTE])[k] by {
            assert(tail[clen + k] == s[i + clen + k]);
            assert(tail[clen + k] == (escaped(rest) + seq![QUOTE_BYTE])[k]);
        }
        assert(s.subrange(i + clen, i + escaped(v).len() + 1) =~= escaped(rest) + seq![
            QUOTE_BYTE,
        ]);
        lemma_parse_escaped(s, i + clen, rest);
        if c == '"' || c == '\\' {
            assert(s[i] == BACKSLASH_BYTE && s[i + 1] == c as u8) by {
                assert(tail[0] == BACKSLASH_BYTE && tail[1] == c as u8);
            }
            assert(s[i + 1] == QUOTE_BYTE || s[i + 1] == BACKSLASH_BYTE);
            assert(seq![s[i + 1] as char] + rest =~= v);
        } else {
            assert(s[i] == c as u8) by {
                assert(tail[0] == c as u8);
            }
            assert(plain_byte(s[i]));
            assert(s[i] != QUOTE_BYTE && s[i] != BACKSLASH_BYTE);
            assert(seq![s[i] as char] + rest =~= v);
        }
    }
}

/// Soundness of field parsing: whatever parses is the escape of its result,
/// and the result is printable.
pub proof fn lemma_parse_field_sound(s: Seq<u8>, i: int)
    requires
        parse_field(s, i) is Some,
    ensures
        ({
            let (v, j) = parse_field(s, i)->Some_0;
            &&& 0 <= i < j <= s.len()
            &&& j == i + escaped(v).len() + 1
            &&& s.subrange(i, j) == escaped(v) + seq![QUOTE_BYTE]
            &&& forall|k: int| 0 <= k < v.len() ==> printable_char(#[trigger] v[k])
            &&& v.len() <= j - i - 1
        }),
    decreases s.len() - i,
{
    let (v, j) = parse_field(s, i)->Some_0;
    if s[i] == QUOTE_BYTE {
        assert(s.subrange(i, i + 1) =~= escaped(v) + seq![QUOTE_BYTE]);
    } else if s[i] == BACKSLASH_BYTE {
        let (t, _) = parse_field(s, i + 2)->Some_0;
        lemma_parse_field_sound(s, i + 2);
        let c = s[i + 1] as char;
        assert(c as u8 == s[i + 1]);
        assert(v == seq![c] + t);
        lemma_escaped_append(seq![c], t);
        lemma_escaped_singleton(c);
        assert(escaped(v) == escaped_char(c) + escaped(t));
        assert(escaped_char(c) =~= seq![BACKSLASH_BYTE, s[i + 1]]);
        assert forall|k: int| 0 <= k < j - i implies s.subrange(i, j)[k] == (escaped(v) + seq![
            QUOTE_BYTE,
        ])[k] by {
            assert(s.subrange(i, j)[k] == s[i + k]);
            if k >= 2 {
                assert(s[i + k] == s.subrange(i + 2, j)[k - 2]);
                assert(s.subrange(i + 2, j)[k - 2] == (escaped(t) + seq![QUOTE_BYTE])[k - 2]);
            }
        }
        assert(s.subrange(i, j) =~= escaped(v) + seq![QUOTE_BYTE]);
    } else {
        let (t, _) = parse_field(s, i + 1)->Some_0;
        lemma_parse_field_sound(s, i + 1);
        let c = s[i] as char;
        assert(c as u8 == s[i]);
        assert(v == seq![c] + t);
        lemma_escaped_append(seq![c], t);
        lemma_escaped_singleton(c);
        assert(escaped(v) == escaped_char(c) + escaped(t));
        assert(escaped_char(c) =~= seq![s[i]]);
        assert forall|k: int| 0 <= k < j - i implies s.subrange(i, j)[k] == (escaped(v) + seq![
            QUOTE_BYTE,
        ])[k] by {
            assert(s.subrange(i, j)[k] == s[i + k]);
            if k >= 1 {
                assert(s[i + k] == s.subrange(i + 1, j)[k - 1]);
                assert(s.subrange(i + 1, j)[k - 1] == (escaped(t) + seq![QUOTE_BYTE])[k - 1]);
            }
        }
        assert(s.subrange(i, j) =~= escaped(v) + seq![QUOTE_BYTE]);
    }
}

/// Bytes of `{"Insertion":{"key":"`, the opening of an insertion line.
pub open spec fn ins_open() -> Seq<u8> {
    seq![
        '{' as u8, '"' as u8, 'I' as u8, 'n' as u8, 's' as u8, 'e' as u8, 'r' as u8, 't' as u8,
        'i' as u8, 'o' as u8, 'n' as u8, '"' as u8, ':' as u8, '{' as u8, '"' as u8, 'k' as u8,
        'e' as u8, 'y' as u8, '"' as u8, ':' as u8, '"' as u8,
    ]
}

/// Bytes of `,"value":"`, between the key's closing quote and the value.
pub open spec fn val_open() -> Seq<u8> {
    seq![
        ',' as u8, '"' as u8, 'v' as u8, 'a' as u8, 'l' as u8, 'u' as u8, 'e' as u8, '"' as u8,
        ':' as u8, '"' as u8,
    ]
}

/// Bytes of `{"Discard":{"key":"`, the opening of a tombstone line.
pub open spec fn del_open() -> Seq<u8> {
    seq![
        '{' as u8, '"' as u8, 'D' as u8, 'i' as u8, 's' as u8, 'c' as u8, 'a' as u8, 'r' as u8,
        'd' as u8, '"' as u8, ':' as u8, '{' as u8, '"' as u8, 'k' as u8, 'e' as u8, 'y' as u8,
        '"' as u8, ':' as u8, '"' as u8,
    ]
}

/// Bytes of `}}` plus the terminating line feed.
pub open spec fn line_close() -> Seq<u8> {
    seq!['}' as u8, '}' as u8, NEWLINE_BYTE]
}

/// `p` occurs in `s` starting at index `i`.
pub open spec fn has_prefix_at(s: Seq<u8>, i: int, p: Seq<u8>) -> bool {
    0 <= i && i + p.len() <= s.len() && s.subrange(i, i + p.len()) == p
}

/// The canonical one-line encoding of a command, newline included.
pub open spec fn encoded_line(c: CommandView) -> Seq<u8> {
    match c {
        CommandView::Insertion { key, value } => ins_open() + escaped(key) + seq![QUOTE_BYTE]
            + val_open() + escaped(value) + seq![QUOTE_BYTE] + line_close(),
        CommandView::Discard { key } => del_open() + escaped(key) + seq![QUOTE_BYTE]
            + line_close(),
    }
}

/// Strict parse of one full line.  Succeeds exactly on canonical encodings
/// of valid commands.
pub open spec fn parse_line(s: Seq<u8>) -> Option<CommandView> {
    if has_prefix_at(s, 0, ins_open()) {
        match parse_field(s, ins_open().len() as int) {
            None => None,
            Some((key, j)) => if has_prefix_at(s, j, val_open()) {
                match parse_field(s, j + val_open().len()) {
                    None => None,
                    Some((value, j2)) => if j2 + line_close().len() == s.len() && s.subrange(
                        j2,
                        s.len() as int,
                    ) == line_close() && valid_text(key) && valid_text(value) {
                        Some(CommandView::Insertion { key, value })
                    } else {
                        None
                    },
                }
            } else {
                None
            },
        }
    } else if has_prefix_at(s, 0, del_open()) {
        match parse_field(s, del_open().len() as int) {
            None => None,
            Some((key, j)) => if j + line_close().len() == s.len() && s.subrange(
                j,
                s.len() as int,
            ) == line_close() && valid_text(key) {
                Some(CommandView::Discard { key })
            } else {
                None
            },
        }
    } else {
        None
    }
}


/// Shape of an encoded line: at least 24 bytes, printable throughout, with
/// exactly one newline, at the very end.
pub proof fn lemma_encoded_line_shape(c: CommandView)
    requires
        valid_command(c),
    ensures
        24 <= encoded_line(c).len() <= 4 * MAX_TEXT + 36,
        encoded_line(c)[encoded_line(c).len() - 1] == NEWLINE_BYTE,
        forall|i: int|
            0 <= i < encoded_line(c).len() - 1 ==> #[trigger] encoded_line(c)[i] != NEWLINE_BYTE,
{
    let s = encoded_line(c);
    match c {
        CommandView::Insertion { key, value } => {
            lemma_escaped_printable(key);
            lemma_escaped_printable(value);
            lemma_escaped_len(key);
            lemma_escaped_len(value);
            assert forall|i: int| 0 <= i < s.len() - 1 implies #[trigger] s[i] != NEWLINE_BYTE by {
                let a = ins_open().len() as int;
                let b = a + escaped(key).len() + 1;
                let d = b + val_open().len() as int;
                let e = d + escaped(value).len() + 1;
                if i < a {
                } else if i < b - 1 {
                    assert(s[i] == escaped(key)[i - a]);
                } else if i < d {
                } else if i < e - 1 {
                    assert(s[i] == escaped(value)[i - d]);
                } else {
                    assert(s[i] == (seq![QUOTE_BYTE] + line_close())[i - e + 1]);
                }
            }
        },
        CommandView::Discard { key } => {
            lemma_escaped_printable(key);
            lemma_escaped_len(key);
            assert forall|i: int| 0 <= i < s.len() - 1 implies #[trigger] s[i] != NEWLINE_BYTE by {
                let a = del_open().len() as int;
                let b = a + escaped(key).len() + 1;
                if i < a {
                } else if i < b - 1 {
                    assert(s[i] == escaped(key)[i - a]);
                } else {
                    assert(s[i] == (seq![QUOTE_BYTE] + line_close())[i - b + 1]);
                }
            }
        },
    }
}

/// Decoding inverts encoding: the strict parser accepts every canonical
/// line and returns the command it encodes.
pub proof fn lemma_parse_encoded_line(c: CommandView)
    requires
        valid_command(c),
    ensures
        parse_line(encoded_line(c)) == Some(c),
{
    let s = encoded_line(c);
    match c {
        CommandView::Insertion { key, value } => {
            let a = ins_open().len() as int;
            let b = a + escaped(key).len() + 1;
            let d = b + val_open().len() as int;
            let e = d + escaped(value).len() + 1;
            assert(s.len() == e + 3);
            assert(s.subrange(0, a) =~= ins_open());
            assert(s.subrange(a, b) =~= escaped(key) + seq![QUOTE_BYTE]);
            lemma_parse_escaped(s, a, key);
            assert(s.subrange(b, d) =~= val_open());
            assert(s.subrange(d, e) =~= escaped(value) + seq![QUOTE_BYTE]);
            lemma_parse_escaped(s, d, value);
            assert(s.subrange(e, s.len() as int) =~= line_close());
        },
        CommandView::Discard { key } => {
            let a = del_open().len() as int;
            let b = a + escaped(key).len() + 1;
            assert(s.len() == b + 3);
            assert(!has_prefix_at(s, 0, ins_open())) by {
                if has_prefix_at(s, 0, ins_open()) {
                    assert(s.subrange(0, ins_open().len() as int)[2] == 'I' as u8);
                    assert(s[2] == 'D' as u8);
                }
            }
            assert(s.subrange(0, a) =~= del_open());
            assert(s.subrange(a, b) =~= escaped(key) + seq![QUOTE_BYTE]);
            lemma_parse_escaped(s, a, key);
            assert(s.subrange(b, s.len() as int) =~= line_close());
        },
    }
}

/// Whatever the strict parser accepts is the canonical encoding of the
/// command it returns, and that command is valid.
pub proof fn lemma_parse_line_sound(s: Seq<u8>)
    requires
        parse_line(s) is Some,
    ensures
        valid_command(parse_line(s)->Some_0),
        s == encoded_line(parse_line(s)->Some_0),
{
    let c = parse_line(s)->Some_0;
    if has_prefix_at(s, 0, ins_open()) {
        let a = ins_open().len() as int;
        let (key, j) = parse_field(s, a)->Some_0;
        lemma_parse_field_sound(s, a);
        let d = j + val_open().len() as int;
        let (value, j2) = parse_field(s, d)->Some_0;
        lemma_parse_field_sound(s, d);
        assert(s.len() == j2 + 3);
        let t = encoded_line(c);
        assert forall|i: int| 0 <= i < s.len() implies s[i] == t[i] by {
            if i < a {
                assert(s[i] == s.subrange(0, a)[i]);
            } else if i < j {
                assert(s[i] == s.subrange(a, j)[i - a]);
                assert(s[i] == (escaped(key) + seq![QUOTE_BYTE])[i - a]);
            } else if i < d {
                assert(s[i] == s.subrange(j, d)[i - j]);
            } else if i < j2 {
                assert(s[i] == s.subrange(d, j2)[i - d]);
                assert(s[i] == (escaped(value) + seq![QUOTE_BYTE])[i - d]);
            } else {
                assert(s[i] == s.subrange(j2, s.len() as int)[i - j2]);
            }
        }
        assert(s =~= t);
    } else {
        let a = del_open().len() as int;
        let (key, j) = parse_field(s, a)->Some_0;
        lemma_parse_field_sound(s, a);
        assert(s.len() == j + 3);
        let t = encoded_line(c);
        assert forall|i: int| 0 <= i < s.len() implies s[i] == t[i] by {
            if i < a {
                assert(s[i] == s.subrange(0, a)[i]);
            } else if i < j {
                assert(s[i] == s.subrange(a, j)[i - a]);
                assert(s[i] == (escaped(key) + seq![QUOTE_BYTE])[i - a]);
            } else {
                assert(s[i] == s.subrange(j, s.len() as int)[i - j]);
            }
        }
        assert(s =~= t);
    }
}


/// Relies on `String::from_utf8`: ASCII bytes decode to exactly those
/// characters, and never fail.
#[verifier::external_body]
pub(crate) fn ascii_string_from_bytes(bytes: Vec<u8>) -> (s: String)
    requires
        forall|i: int| 0 <= i < bytes@.len() ==> bytes@[i] < 128,
    ensures
        s@ == chars_of(bytes@),
{
    String::from_utf8(bytes).unwrap()
}


/// Appends the opening bytes of an insertion line.
fn push_ins_open(out: &mut Vec<u8>)
    ensures
        final(out)@ == old(out)@ + ins_open(),
{
    out.push('{' as u8);
    out.push('"' as u8);
    out.push('I' as u8);
    out.push('n' as u8);
    out.push('s' as u8);
    out.push('e' as u8);
    out.push('r' as u8);
    out.push('t' as u8);
    out.push('i' as u8);
    out.push('o' as u8);
    out.push('n' as u8);
    out.push('"' as u8);
    out.push(':' as u8);
    out.push('{' as u8);
    out.push('"' as u8);
    out.push('k' as u8);
    out.push('e' as u8);
    out.push('y' as u8);
    out.push('"' as u8);
    out.push(':' as u8);
    out.push('"' as u8);
    assert(out@ =~= old(out)@ + ins_open());
}

/// Appends the bytes between a key and its value.
pub(crate) fn push_val_open(out: &mut Vec<u8>)
    ensures
        final(out)@ == old(out)@ + val_open(),
{
    out.push(',' as u8);
    out.push('"' as u8);
    out.push('v' as u8);
    out.push('a' as u8);
    out.push('l' as u8);
    out.push('u' as u8);
    out.push('e' as u8);
    out.push('"' as u8);
    out.push(':' as u8);
    out.push('"' as u8);
    assert(out@ =~= old(out)@ + val_open());
}

/// Appends the opening bytes of a tombstone line.
fn push_del_open(out: &mut Vec<u8>)
    ensures
        final(out)@ == old(out)@ + del_open(),
{
    out.push('{' as u8);
    out.push('"' as u8);
    out.push('D' as u8);
    out.push('i' as u8);
    out.push('s' as u8);
    out.push('c' as u8);
    out.push('a' as u8);
    out.push('r' as u8);
    out.push('d' as u8);
    out.push('"' as u8);
    out.push(':' as u8);
    out.push('{' as u8);
    out.push('"' as u8);
    out.push('k' as u8);
    out.push('e' as u8);
    out.push('y' as u8);
    out.push('"' as u8);
    out.push(':' as u8);
    out.push('"' as u8);
    assert(out@ =~= old(out)@ + del_open());
}

/// Appends the closing braces and the newline.
pub(crate) fn push_line_close(out: &mut Vec<u8>)
    ensures
        final(out)@ == old(out)@ + line_close(),
{
    out.push('}' as u8);
    out.push('}' as u8);
    out.push(NEWLINE_BYTE);
    assert(out@ =~= old(out)@ + line_close());
}

/// Appends the JSON escape of an ASCII string slice.
pub(crate) fn push_escaped(out: &mut Vec<u8>, s: &str)
    requires
        s@.len() <= MAX_TEXT + 64,
        forall|i: int| 0 <= i < s@.len() ==> printable_char(#[trigger] s@[i]),
    ensures
        final(out)@ == old(out)@ + escaped(s@),
{
    broadcast use vstd::string::is_ascii_spec_bytes;

    assert(vstd::string::is_ascii(s));
    let n: usize = s.len();
    assert(s.spec_bytes().len() == s@.len());
    let mut i: usize = 0;
    while i < n
        invariant
            forall|k: int| 0 <= k < s@.len() ==> printable_char(#[trigger] s@[k]),
            vstd::string::is_ascii(s),
            n == s@.len(),
            0 <= i <= n,
            out@ == old(out)@ + escaped(s@.take(i as int)),
        decreases n - i,
    {
        let b: u8 = s.get_ascii(i);
        proof {
            lemma_escaped_push(s@.take(i as int), s@[i as int]);
            assert(s@.take(i + 1) =~= s@.take(i as int).push(s@[i as int]));
        }
        if b == QUOTE_BYTE || b == BACKSLASH_BYTE {
            out.push(BACKSLASH_BYTE);
            out.push(b);
        } else {
            out.push(b);
        }
        assert(out@ =~= old(out)@ + escaped(s@.take(i + 1)));
        i = i + 1;
    }
    assert(s@.take(n as int) =~= s@);
}

/// Serializes one command as its canonical line, newline included.
pub fn encode_command(cmd: &Command) -> (out: Vec<u8>)
    requires
        valid_command(cmd@),
    ensures
        out@ == encoded_line(cmd@),
{
    let mut out: Vec<u8> = Vec::new();
    match cmd {
        Command::Insertion { key, value } => {
            push_ins_open(&mut out);
            push_escaped(&mut out, key.as_str());
            out.push(QUOTE_BYTE);
            push_val_open(&mut out);
            push_escaped(&mut out, value.as_str());
            out.push(QUOTE_BYTE);
            push_line_close(&mut out);
            assert(out@ =~= encoded_line(cmd@));
        },
        Command::Discard { key } => {
            push_del_open(&mut out);
            push_escaped(&mut out, key.as_str());
            out.push(QUOTE_BYTE);
            push_line_close(&mut out);
            assert(out@ =~= encoded_line(cmd@));
        },
    }
    out
}


/// True when `p` occurs in `s` at index `i`.
pub(crate) fn prefix_at(s: &Vec<u8>, i: usize, p: &Vec<u8>) -> (r: bool)
    ensures
        r == has_prefix_at(s@, i as int, p@),
{
    if i > s.len() || p.len() > s.len() - i {
        return false;
    }
    let mut t: usize = 0;
    while t < p.len()
        invariant
            0 <= t <= p.len(),
            i + p.len() <= s.len(),
            forall|m: int| 0 <= m < t ==> s@[i + m] == p@[m],
        decreases p.len() - t,
    {
        if s[i + t] != p[t] {
            assert(s@.subrange(i as int, i + p@.len())[t as int] != p@[t as int]);
            return false;
        }
        t = t + 1;
    }
    assert(s@.subrange(i as int, i + p@.len()) =~= p@);
    true
}

/// Parses a JSON string body starting at `start`, returning the decoded
/// text and the index just past the closing quote.
pub(crate) fn take_field(s: &Vec<u8>, start: usize) -> (r: Option<(String, usize)>)
    ensures
        match r {
            Some(v) => {
                &&& parse_field(s@, start as int) == Some((v.0@, v.1 as int))
                &&& v.1 <= s@.len()
            },
            None => parse_field(s@, start as int) is None,
        },
{
    let mut acc: Vec<u8> = Vec::new();
    let mut i: usize = start;
    proof {
        if parse_field(s@, start as int) is Some {
            let (t, j) = parse_field(s@, start as int)->Some_0;
            assert(chars_of(acc@) + t =~= t);
            lemma_parse_field_sound(s@, start as int);
        }
    }
    loop
        invariant
            start <= i,
            i <= s@.len() || i == start,
            forall|m: int| 0 <= m < acc@.len() ==> acc@[m] < 128,
            (match parse_field(s@, i as int) {
                Some((t, j)) => parse_field(s@, start as int) == Some(
                    (chars_of(acc@) + t, j),
                ) && j <= s@.len(),
                None => parse_field(s@, start as int) is None,
            }),
        decreases s@.len() - i,
    {
        if i >= s.len() {
            return None;
        }
        let b: u8 = s[i];
        if b == QUOTE_BYTE {
            assert(chars_of(acc@) + Seq::<char>::empty() =~= chars_of(acc@));
            let text = ascii_string_from_bytes(acc);
            return Some((text, i + 1));
        } else if b == BACKSLASH_BYTE {
            if i + 1 < s.len() && (s[i + 1] == QUOTE_BYTE || s[i + 1] == BACKSLASH_BYTE) {
                let c: u8 = s[i + 1];
                proof {
                    if parse_field(s@, i + 2) is Some {
                        let (t, j) = parse_field(s@, i + 2)->Some_0;
                        assert(chars_of(acc@.push(c)) + t =~= chars_of(acc@) + (seq![
                            c as char,
                        ] + t));
                        lemma_parse_field_sound(s@, i + 2);
                    }
                }
                acc.push(c);
                i = i + 2;
            } else {
                return None;
            }
        } else if 32 <= b && b <= 126 {
            proof {
                if parse_field(s@, i + 1) is Some {
                    let (t, j) = parse_field(s@, i + 1)->Some_0;
                    assert(chars_of(acc@.push(b)) + t =~= chars_of(acc@) + (seq![b as char] + t));
                    lemma_parse_field_sound(s@, i + 1);
                }
            }
            acc.push(b);
            i = i + 1;
        } else {
            return None;
        }
    }
}

/// Parses one full line.  Returns the command it encodes, or `None` when
/// the line is not a canonical encoding of a valid command.
pub fn decode_command(line: &Vec<u8>) -> (r: Option<Command>)
    ensures
        match r {
            Some(c) => parse_line(line@) == Some(c@),
            None => parse_line(line@) is None,
        },
{
    let mut ins_lit: Vec<u8> = Vec::new();
    push_ins_open(&mut ins_lit);
    let mut del_lit: Vec<u8> = Vec::new();
    push_del_open(&mut del_lit);
    let mut close_lit: Vec<u8> = Vec::new();
    close_lit.push(QUOTE_BYTE);
    push_line_close(&mut close_lit);
    assert(close_lit@ =~= seq![QUOTE_BYTE] + line_close());
    if prefix_at(line, 0, &ins_lit) {
        let kf = take_field(line, ins_lit.len());
        match kf {
            None => None,
            Some((key, j)) => {
                let mut val_lit: Vec<u8> = Vec::new();
                push_val_open(&mut val_lit);
                if !prefix_at(line, j, &val_lit) {
                    return None;
                }
                let total = line.len();
                assert(j + val_lit@.len() <= total);
                let vf = take_field(line, j + val_lit.len());
                match vf {
                    None => None,
                    Some((value, j2)) => {
                        proof {
                            lemma_parse_field_sound(line@, ins_lit@.len() as int);
                            lemma_parse_field_sound(line@, j + val_lit@.len());
                        }
                        if line.len() < 3 || j2 != line.len() - 3 {
                            return None;
                        }
                        if line[j2] != '}' as u8 || line[j2 + 1] != '}' as u8 || line[j2 + 2]
                            != NEWLINE_BYTE {
                            assert(line@.subrange(j2 as int, line@.len() as int)
                                != line_close()) by {
                                let tail = line@.subrange(j2 as int, line@.len() as int);
                                if tail == line_close() {
                                    assert(tail[0] == '}' as u8 && tail[1] == '}' as u8
                                        && tail[2] == NEWLINE_BYTE);
                                }
                            }
                            return None;
                        }
                        assert(line@.subrange(j2 as int, line@.len() as int) =~= line_close());
                        let ks = key.as_str();
                        let vs = value.as_str();
                        let klen = ks.len();
                        let vlen = vs.len();
                        proof {
                            ascii_len_is_char_len(ks);
                            ascii_len_is_char_len(vs);
                        }
                        if klen < 1 || klen > MAX_TEXT || vlen < 1 || vlen > MAX_TEXT {
                            return None;
                        }
                        Some(Command::Insertion { key, value })
                    },
                }
            },
        }
    } else if prefix_at(line, 0, &del_lit) {
        let kf = take_field(line, del_lit.len());
        match kf {
            None => None,
            Some((key, j)) => {
                proof {
                    lemma_parse_field_sound(line@, del_lit@.len() as int);
                }
                if line.len() < 3 || j != line.len() - 3 {
                    return None;
                }
                if line[j] != '}' as u8 || line[j + 1] != '}' as u8 || line[j + 2]
                    != NEWLINE_BYTE {
                    assert(line@.subrange(j as int, line@.len() as int) != line_close()) by {
                        let tail = line@.subrange(j as int, line@.len() as int);
                        if tail == line_close() {
                            assert(tail[0] == '}' as u8 && tail[1] == '}' as u8 && tail[2]
                                == NEWLINE_BYTE);
                        }
                    }
                    return None;
                }
                assert(line@.subrange(j as int, line@.len() as int) =~= line_close());
                let ks = key.as_str();
                let klen = ks.len();
                proof {
                    ascii_len_is_char_len(ks);
                }
                if klen < 1 || klen > MAX_TEXT {
                    return None;
                }
                Some(Command::Discard { key })
            },
        }
    } else {
        None
    }
}

/// The byte length of a printable-ASCII string equals its character count.
pub proof fn ascii_len_is_char_len(s: &str)
    requires
        vstd::utf8::is_ascii_chars(s@),
    ensures
        s.spec_bytes().len() == s@.len(),
{
    broadcast use vstd::string::is_ascii_spec_bytes;

    assert(vstd::string::is_ascii(s));
}


/// Printable strings are ASCII.
pub proof fn lemma_valid_field_ascii(s: Seq<char>)
    requires
        valid_field(s),
    ensures
        vstd::utf8::is_ascii_chars(s),
{
    assert forall|i: int| 0 <= i < s.len() implies '\0' <= #[trigger] s[i] <= '\u{7f}' by {
        assert(printable_char(s[i]));
    }
}

} // verus!
