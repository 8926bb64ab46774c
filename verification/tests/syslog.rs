use smartdns::syslog::{syslog_line, priority, Level, SyslogWriter};

#[test]
fn syslog_lines_carry_priority_program_and_trimmed_text() {
    assert_eq!(priority(Level::Error), 27);
    assert_eq!(priority(Level::Warn), 28);
    assert_eq!(priority(Level::Info), 30);
    assert_eq!(priority(Level::Trace), 31);
    assert_eq!(syslog_line(Level::Error, 42, "disk full \n"), b"<27>smartdns[42]: disk full".to_vec());
    assert_eq!(syslog_line(Level::Info, 7, "  "), b"<30>smartdns[7]: ".to_vec());
}

#[test]
fn records_collect_everything_written() {
    let w = SyslogWriter;
    let mut r = w.make_writer_for(Level::Warn);
    assert_eq!(r.write(b"ab"), 2);
    assert_eq!(r.write(b"c"), 1);
    r.flush();
    assert_eq!(r.bytes, b"abc".to_vec());
    assert_eq!(r.level, Level::Warn);
    assert_eq!(w.make_writer().level, Level::Info);
}
