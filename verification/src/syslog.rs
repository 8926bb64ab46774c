//! Records for the system logger: each log line framed with its priority
//! (facility daemon) and the program's name and process id.
use vstd::prelude::*;
use crate::txt::{is_ws, is_whitespace};
use crate::bench::{decimal, push_decimal};
use crate::octets::extend_bytes;

verus! {

/// The level of a log record.
#[derive(Clone, Copy, Debug, PartialEq, Eq, Structural)]
pub enum Level {
    Error,
    Warn,
    Info,
    Debug,
    Trace,
}

/// The syslog priority of a level: facility daemon (3) times 8 plus the
/// severity (error 3, warning 4, info 6, otherwise debug 7).
pub open spec fn spec_priority(level: Level) -> u8 {
    (24 + match level {
        Level::Error => 3int,
        Level::Warn => 4int,
        Level::Info => 6int,
        _ => 7int,
    }) as u8
}

pub fn priority(level: Level) -> (r: u8)
    ensures
        r == spec_priority(level),
{
    24 + match level {
        Level::Error => 3,
        Level::Warn => 4,
        Level::Info => 6,
        _ => 7,
    }
}

/// The text without its trailing whitespace.
pub open spec fn trim_end(s: Seq<char>) -> Seq<char>
    decreases s.len(),
{
    if s.len() > 0 && is_ws(s.last()) {
        trim_end(s.drop_last())
    } else {
        s
    }
}

/// The datagram for a message: `<priority>smartdns[pid]: ` and the
/// message without trailing whitespace, in UTF-8.
pub open spec fn spec_line(level: Level, pid: u32, message: Seq<char>) -> Seq<u8> {
    seq![60u8] + decimal(spec_priority(level) as nat) + seq![62u8] + "smartdns["@.map_values(|c: char| c as u8)
        + decimal(pid as nat) + seq![93u8, 58u8, 32u8] + vstd::utf8::encode_utf8(trim_end(message))
}

fn trimmed_len(s: &str) -> (r: usize)
    ensures
        r <= s@.len(),
        s@.take(r as int) == trim_end(s@),
{
    let n = s.unicode_len();
    let mut k: usize = n;
    assert(s@.take(n as int) =~= s@);
    while k > 0 && is_whitespace(s.get_char(k - 1))
        invariant
            k <= n,
            n == s@.len(),
            trim_end(s@) == trim_end(s@.take(k as int)),
        decreases k,
    {
        assert(s@.take(k as int).drop_last() =~= s@.take(k - 1));
        assert(s@.take(k as int).last() == s@[k - 1]);
        k = k - 1;
    }
    k
}

/// The datagram that sends `message` at `level` for the process `pid`.
pub fn syslog_line(level: Level, pid: u32, message: &str) -> (r: Vec<u8>)
    ensures
        r@ == spec_line(level, pid, message@),
{
    let mut v: Vec<u8> = Vec::new();
    v.push(60);
    push_decimal(&mut v, priority(level) as u32);
    v.push(62);
    let head: [u8; 9] = [115, 109, 97, 114, 116, 100, 110, 115, 91];
    extend_bytes(&mut v, &head);
    push_decimal(&mut v, pid);
    v.push(93);
    v.push(58);
    v.push(32);
    let k = trimmed_len(message);
    let kept = message.substring_char(0, k);
    extend_bytes(&mut v, kept.as_bytes());
    proof {
        reveal_strlit("smartdns[");
        assert(head@ =~= "smartdns["@.map_values(|c: char| c as u8));
        assert(kept@ == trim_end(message@));
        assert(v@ =~= spec_line(level, pid, message@));
    }
    v
}

/// The writer that hands each log record to the system logger.
#[derive(Clone, Copy, Debug)]
pub struct SyslogWriter;

/// A log record being written: its level and its bytes so far.
#[derive(Debug)]
pub struct SyslogRecord {
    pub level: Level,
    pub bytes: Vec<u8>,
}

impl SyslogWriter {
    /// A record at level info.
    pub fn make_writer(&self) -> (r: SyslogRecord)
        ensures
            r.level == Level::Info,
            r.bytes@.len() == 0,
    {
        SyslogRecord { level: Level::Info, bytes: Vec::new() }
    }

    /// A record at the level of the event.
    pub fn make_writer_for(&self, level: Level) -> (r: SyslogRecord)
        ensures
            r.level == level,
            r.bytes@.len() == 0,
    {
        SyslogRecord { level, bytes: Vec::new() }
    }
}

impl SyslogRecord {
    /// Adds bytes to the record; all of them are taken.
    pub fn write(&mut self, bytes: &[u8]) -> (r: usize)
        ensures
            final(self).level == old(self).level,
            final(self).bytes@ == old(self).bytes@ + bytes@,
            r == bytes@.len(),
    {
        extend_bytes(&mut self.bytes, bytes);
        bytes.len()
    }

    /// Nothing is held back: flushing does nothing.
    pub fn flush(&mut self)
        ensures
            *final(self) == *old(self),
    {
    }
}

} // verus!
