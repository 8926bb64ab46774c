//! The text form of TXT data in the configuration: quoted or bare chunks on
//! one line, with backslash escapes and `#` comments.
use vstd::prelude::*;
use vstd::utf8::{encode_utf8, encode_scalar};
use vstd::string::StrSliceExecFns;
use crate::message::label_seqs;

verus! {

/// Why a configuration value could not be read.
#[derive(Clone, Copy, Debug, PartialEq, Eq, Structural)]
pub enum ErrorKind {
    /// An expected token was missing.
    Tag,
    /// The value was malformed.
    Verify,
    /// The value was too large.
    TooLarge,
}

/// Unicode white space (the `White_Space` property).
pub open spec fn is_ws(c: char) -> bool {
    let x = c as u32;
    ||| 9 <= x <= 13
    ||| x == 32
    ||| x == 0x85
    ||| x == 0xA0
    ||| x == 0x1680
    ||| 0x2000 <= x <= 0x200A
    ||| x == 0x2028
    ||| x == 0x2029
    ||| x == 0x202F
    ||| x == 0x205F
    ||| x == 0x3000
}

/// Whether `c` is Unicode white space.
pub fn is_whitespace(c: char) -> (r: bool)
    ensures
        r == is_ws(c),
{
    let x = c as u32;
    (9 <= x && x <= 13) || x == 32 || x == 0x85 || x == 0xA0 || x == 0x1680 || (0x2000 <= x && x <= 0x200A)
        || x == 0x2028 || x == 0x2029 || x == 0x202F || x == 0x205F || x == 0x3000
}

/// Whether `c` ends a line.
pub open spec fn is_line_break(c: char) -> bool {
    c == '\r' || c == '\n'
}

/// The index of the first line break, or the length when there is none.
pub open spec fn break_index(s: Seq<char>) -> nat
    decreases s.len(),
{
    if s.len() == 0 {
        0
    } else if is_line_break(s[0]) {
        0
    } else {
        1 + break_index(s.drop_first())
    }
}

proof fn lemma_break_index(s: Seq<char>, k: int)
    requires
        0 <= k <= s.len(),
        forall|j: int| 0 <= j < k ==> !is_line_break(#[trigger] s[j]),
        k == s.len() || is_line_break(s[k]),
    ensures
        break_index(s) == k,
    decreases k,
{
    if k > 0 {
        let t = s.drop_first();
        assert forall|j: int| 0 <= j < k - 1 implies !is_line_break(#[trigger] t[j]) by {
            assert(t[j] == s[j + 1]);
        }
        if k < s.len() {
            assert(t[k - 1] == s[k]);
        }
        lemma_break_index(t, k - 1);
    }
}

/// Where a line ends: `Some(k)` when the line is the first `k` characters,
/// `None` when it ends in a carriage return that no line feed follows.
pub open spec fn line_end(s: Seq<char>) -> Option<nat> {
    let k = break_index(s);
    if k < s.len() && s[k as int] == '\r' && !(k + 1 < s.len() && s[k + 1int] == '\n') {
        None
    } else {
        Some(k)
    }
}

/// The state of reading TXT chunks.
pub struct TxtState {
    pub chunks: Seq<Seq<char>>,
    pub chunk: Seq<char>,
    pub quoted: bool,
    pub escaped: bool,
    pub started: bool,
    /// A comment began; the rest of the line is ignored.
    pub stopped: bool,
}

pub open spec fn txt_start() -> TxtState {
    TxtState { chunks: Seq::empty(), chunk: Seq::empty(), quoted: false, escaped: false, started: false, stopped: false }
}

/// One character of TXT text.
pub open spec fn txt_step(st: TxtState, c: char) -> TxtState {
    if st.stopped {
        st
    } else if st.escaped {
        TxtState { chunk: st.chunk.push(c), escaped: false, started: true, ..st }
    } else if c == '\\' {
        TxtState { escaped: true, ..st }
    } else if c == '"' {
        TxtState { quoted: !st.quoted, started: true, ..st }
    } else if !st.quoted && c == '#' {
        TxtState { stopped: true, ..st }
    } else if !st.quoted && is_ws(c) {
        if st.started {
            TxtState { chunks: st.chunks.push(st.chunk), chunk: Seq::empty(), started: false, ..st }
        } else {
            st
        }
    } else {
        TxtState { chunk: st.chunk.push(c), started: true, ..st }
    }
}

/// The state after reading `s`.
pub open spec fn txt_scan(s: Seq<char>) -> TxtState
    decreases s.len(),
{
    if s.len() == 0 {
        txt_start()
    } else {
        txt_step(txt_scan(s.drop_last()), s.last())
    }
}

/// The chunks in UTF-8.
pub open spec fn utf8_chunks(cs: Seq<Seq<char>>) -> Seq<Seq<u8>> {
    cs.map_values(|c: Seq<char>| encode_utf8(c))
}

/// Whether some chunk is over 255 bytes.
pub open spec fn some_too_long(bytes: Seq<Seq<u8>>) -> bool {
    exists|i: int| 0 <= i < bytes.len() && #[trigger] bytes[i].len() > 255
}

/// The chunks that a finished reading gives: an open quote or a dangling
/// escape is malformed, a chunk over 255 bytes is too large.
pub open spec fn txt_finish(st: TxtState) -> Result<Seq<Seq<u8>>, ErrorKind> {
    if st.quoted || st.escaped {
        Err(ErrorKind::Verify)
    } else {
        let all = if st.started || st.chunks.len() == 0 { st.chunks.push(st.chunk) } else { st.chunks };
        let bytes = utf8_chunks(all);
        if some_too_long(bytes) {
            Err(ErrorKind::TooLarge)
        } else {
            Ok(bytes)
        }
    }
}

/// TXT data read from the start of `s`: where the rest of the input begins,
/// and the chunks.
pub open spec fn spec_parse_txt(s: Seq<char>) -> Result<(nat, Seq<Seq<u8>>), ErrorKind> {
    match line_end(s) {
        None => Err(ErrorKind::Tag),
        Some(k) => match txt_finish(txt_scan(s.take(k as int))) {
            Ok(b) => Ok((k, b)),
            Err(e) => Err(e),
        },
    }
}

proof fn lemma_encode_push(s: Seq<char>, c: char)
    ensures
        encode_utf8(s.push(c)) == encode_utf8(s) + encode_scalar(c as u32),
    decreases s.len(),
{
    assert(s.push(c).len() > 0);
    if s.len() == 0 {
        assert(s.push(c)[0] == c);
        assert(encode_utf8(s) =~= Seq::<u8>::empty());
        assert(s.push(c).drop_first() =~= Seq::<char>::empty());
        assert(encode_utf8(s.push(c)) == encode_scalar(c as u32) + encode_utf8(s.push(c).drop_first()));
        assert(encode_scalar(c as u32) + Seq::<u8>::empty() =~= encode_scalar(c as u32));
        assert(Seq::<u8>::empty() + encode_scalar(c as u32) =~= encode_scalar(c as u32));
    } else {
        lemma_encode_push(s.drop_first(), c);
        assert(s.push(c)[0] == s[0]);
        assert(s.push(c).drop_first() =~= s.drop_first().push(c));
        assert(encode_utf8(s.push(c)) == encode_scalar(s[0] as u32) + encode_utf8(s.push(c).drop_first()));
        assert(encode_scalar(s[0] as u32) + (encode_utf8(s.drop_first()) + encode_scalar(c as u32))
            =~= (encode_scalar(s[0] as u32) + encode_utf8(s.drop_first())) + encode_scalar(c as u32));
    }
}

/// Appends the UTF-8 encoding of `c`.
pub fn push_utf8(v: &mut Vec<u8>, c: char)
    ensures
        final(v)@ == old(v)@ + encode_scalar(c as u32),
{
    let x = c as u32;
    if x <= 0x7F {
        v.push((x & 0x7F) as u8);
    } else if x <= 0x7FF {
        v.push(0xC0u8 | ((x >> 6) & 0x1F) as u8);
        v.push(0x80u8 | (x & 0x3F) as u8);
    } else if x <= 0xFFFF {
        v.push(0xE0u8 | ((x >> 12) & 0x0F) as u8);
        v.push(0x80u8 | ((x >> 6) & 0x3F) as u8);
        v.push(0x80u8 | (x & 0x3F) as u8);
    } else {
        v.push(0xF0u8 | ((x >> 18) & 0x7) as u8);
        v.push(0x80u8 | ((x >> 12) & 0x3F) as u8);
        v.push(0x80u8 | ((x >> 6) & 0x3F) as u8);
        v.push(0x80u8 | (x & 0x3F) as u8);
    }
}

/// TXT data: its chunks of bytes.
#[derive(Debug)]
pub struct TXT {
    txt_data: Vec<Vec<u8>>,
}

impl TXT {
    pub closed spec fn spec_data(&self) -> Seq<Seq<u8>> {
        label_seqs(self.txt_data@)
    }

    pub fn new(txt_data: Vec<Vec<u8>>) -> (r: TXT)
        ensures
            r.spec_data() == label_seqs(txt_data@),
    {
        TXT { txt_data }
    }

    pub fn txt_data(&self) -> (r: &Vec<Vec<u8>>)
        ensures
            label_seqs(r@) == self.spec_data(),
    {
        &self.txt_data
    }

    /// Reads TXT data from one line of `input`: chunks separated by white
    /// space, double quotes keeping white space and `#` in a chunk, a
    /// backslash taking the next character as it is, and `#` outside quotes
    /// starting a comment. Gives the input after the line and the data.
    pub fn parse(input: &str) -> (r: Result<(&str, TXT), ErrorKind>)
        ensures
            match r {
                Ok((rest, t)) => spec_parse_txt(input@) matches Ok((k, b))
                    && rest@ == input@.skip(k as int) && t.spec_data() == b,
                Err(e) => spec_parse_txt(input@) == Err::<(nat, Seq<Seq<u8>>), ErrorKind>(e),
            },
    {
        let mut cs: Vec<char> = Vec::new();
        for c in it: input.chars()
            invariant
                it.seq() == input@,
                cs@ == it.seq().take(it.index() as int),
        {
            let ghost before = cs@;
            cs.push(c);
            assert(cs@ =~= it.seq().take(it.index() + 1));
        }
        assert(cs@ =~= input@);
        let n = cs.len();
        let mut k: usize = 0;
        while k < n && cs[k] != '\r' && cs[k] != '\n'
            invariant
                k <= n,
                n == cs@.len(),
                forall|j: int| 0 <= j < k ==> !is_line_break(#[trigger] cs@[j]),
            decreases n - k,
        {
            k = k + 1;
        }
        proof {
            lemma_break_index(cs@, k as int);
        }
        if k < n && cs[k] == '\r' && !(k + 1 < n && cs[k + 1] == '\n') {
            return Err(ErrorKind::Tag);
        }
        let ghost line = cs@.take(k as int);
        let ghost mut st = txt_start();
        let mut chunks: Vec<Vec<u8>> = Vec::new();
        let mut chunk: Vec<u8> = Vec::new();
        let mut quoted = false;
        let mut escaped = false;
        let mut started = false;
        let mut stopped = false;
        let mut i: usize = 0;
        assert(line.take(0) =~= Seq::<char>::empty());
        while i < k
            invariant
                i <= k <= n,
                n == cs@.len(),
                line == cs@.take(k as int),
                st == txt_scan(line.take(i as int)),
                chunks@.len() == st.chunks.len(),
                forall|j: int| 0 <= j < chunks@.len() ==> #[trigger] chunks@[j]@ == encode_utf8(st.chunks[j]),
                chunk@ == encode_utf8(st.chunk),
                quoted == st.quoted,
                escaped == st.escaped,
                started == st.started,
                stopped == st.stopped,
            decreases k - i,
        {
            let c = cs[i];
            proof {
                assert(line.take(i + 1).drop_last() =~= line.take(i as int));
                assert(line.take(i + 1).last() == c);
                lemma_encode_push(st.chunk, c);
            }
            let ghost next = txt_step(st, c);
            if stopped {
            } else if escaped {
                push_utf8(&mut chunk, c);
                escaped = false;
                started = true;
            } else if c == '\\' {
                escaped = true;
            } else if c == '"' {
                quoted = !quoted;
                started = true;
            } else if !quoted && c == '#' {
                stopped = true;
            } else if !quoted && is_whitespace(c) {
                if started {
                    let done = chunk;
                    chunk = Vec::new();
                    chunks.push(done);
                    started = false;
                    assert(encode_utf8(Seq::<char>::empty()) =~= Seq::<u8>::empty());
                }
            } else {
                push_utf8(&mut chunk, c);
                started = true;
            }
            proof {
                st = next;
            }
            i = i + 1;
        }
        assert(line.take(k as int) =~= line);
        if quoted || escaped {
            return Err(ErrorKind::Verify);
        }
        if started || chunks.len() == 0 {
            chunks.push(chunk);
        }
        let ghost all = if st.started || st.chunks.len() == 0 { st.chunks.push(st.chunk) } else { st.chunks };
        assert(label_seqs(chunks@) =~= utf8_chunks(all));
        assert(cs@ == input@);
        assert(spec_parse_txt(input@) == (if some_too_long(utf8_chunks(all)) {
            Err(ErrorKind::TooLarge)
        } else {
            Ok((k as nat, utf8_chunks(all)))
        }));
        let mut j: usize = 0;
        while j < chunks.len()
            invariant
                spec_parse_txt(input@) == (if some_too_long(utf8_chunks(all)) {
                    Err(ErrorKind::TooLarge)
                } else {
                    Ok((k as nat, utf8_chunks(all)))
                }),
                j <= chunks@.len(),
                label_seqs(chunks@) == utf8_chunks(all),
                forall|m: int| 0 <= m < j ==> #[trigger] chunks@[m]@.len() <= 255,
            decreases chunks.len() - j,
        {
            if chunks[j].len() > 255 {
                assert(utf8_chunks(all)[j as int].len() > 255);
                return Err(ErrorKind::TooLarge);
            }
            j = j + 1;
        }
        assert forall|m: int| 0 <= m < utf8_chunks(all).len() implies !(#[trigger] utf8_chunks(all)[m].len() > 255) by {
            assert(utf8_chunks(all)[m] == chunks@[m]@);
        }
        let rest = input.substring_char(k, n);
        Ok((rest, TXT { txt_data: chunks }))
    }
}

} // verus!
