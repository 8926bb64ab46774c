//! Deterministic DNS packets used by the loopback benchmark: a query
//! generator, a fixed-answer upstream and a reply check.
use vstd::prelude::*;
use crate::octets::{be16, extend_bytes, push_be16, copy_prefix, bytes_equal_at};

verus! {

/// ASCII decimal digits of `n`, without padding.
pub open spec fn decimal(n: nat) -> Seq<u8>
    decreases n,
{
    if n < 10 {
        seq![(48 + n) as u8]
    } else {
        decimal(n / 10).push((48 + n % 10) as u8)
    }
}

/// ASCII decimal digits of `n`, left-padded with zeros to three digits.
pub open spec fn decimal3(n: nat) -> Seq<u8> {
    if n < 10 {
        seq![48u8, 48u8] + decimal(n)
    } else if n < 100 {
        seq![48u8] + decimal(n)
    } else {
        decimal(n)
    }
}

/// The label `host` followed by the padded number of the domain.
pub open spec fn host_label(name: u32, domains: u32) -> Seq<u8>
    recommends
        domains > 0,
{
    seq![104u8, 111u8, 115u8, 116u8] + decimal3((name % domains) as nat)
}

/// The twelve header bytes of a benchmark query.
pub open spec fn question_header(id: u16) -> Seq<u8> {
    be16(id) + seq![1u8, 0u8, 0u8, 1u8, 0u8, 0u8, 0u8, 0u8, 0u8, 0u8]
}

/// The fixed tail of a benchmark question: `bench.`, type A, class IN.
pub open spec fn question_tail() -> Seq<u8> {
    seq![5u8, 98u8, 101u8, 110u8, 99u8, 104u8, 0u8, 0u8, 1u8, 0u8, 1u8]
}

/// The query for `host<NNN>.bench.` with the given id.
pub open spec fn spec_question(id: u16, name: u32, domains: u32) -> Seq<u8>
    recommends
        domains > 0,
{
    question_header(id) + seq![host_label(name, domains).len() as u8] + host_label(name, domains)
        + question_tail()
}

/// Appends the decimal digits of `n`.
pub fn push_decimal(v: &mut Vec<u8>, n: u32)
    ensures
        final(v)@ == old(v)@ + decimal(n as nat),
    decreases n,
{
    if n >= 10 {
        push_decimal(v, n / 10);
    }
    v.push((48 + n % 10) as u8);
}

/// Builds a query for the benchmark name selected by `name % domains`.
pub fn question(id: u16, name: u32, domains: u32) -> (bytes: Vec<u8>)
    requires
        domains > 0,
    ensures
        bytes@ == spec_question(id, name, domains),
{
    let mut bytes: Vec<u8> = Vec::new();
    push_be16(&mut bytes, id);
    bytes.push(1);
    bytes.push(0);
    bytes.push(0);
    bytes.push(1);
    bytes.push(0);
    bytes.push(0);
    bytes.push(0);
    bytes.push(0);
    bytes.push(0);
    bytes.push(0);
    let n = name % domains;
    let mut label: Vec<u8> = Vec::new();
    label.push(104);
    label.push(111);
    label.push(115);
    label.push(116);
    if n < 10 {
        label.push(48);
        label.push(48);
    } else if n < 100 {
        label.push(48);
    }
    push_decimal(&mut label, n);
    assert(label@ == host_label(name, domains));
    bytes.push(label.len() as u8);
    extend_bytes(&mut bytes, label.as_slice());
    let tail: [u8; 11] = [5, 98, 101, 110, 99, 104, 0, 0, 1, 0, 1];
    extend_bytes(&mut bytes, &tail);
    proof {
        assert(tail@ == question_tail());
        assert(bytes@ =~= spec_question(id, name, domains));
    }
    bytes
}

/// Position just past the name that starts at `pos`, reading plain labels
/// of at most 63 bytes; `None` when the name runs past the end or holds a
/// longer (or compressed) label.
pub open spec fn name_end(q: Seq<u8>, pos: int) -> Option<int>
    decreases q.len() - pos,
{
    if pos < 0 || pos >= q.len() {
        None
    } else if q[pos] == 0 {
        Some(pos + 1)
    } else if q[pos] > 63 {
        None
    } else if pos + 1 + q[pos] >= q.len() {
        None
    } else {
        name_end(q, pos + 1 + q[pos])
    }
}

/// The answer record appended by the benchmark upstream: a pointer to the
/// question name, type A, class IN, TTL 3600 and address 192.0.2.1.
pub open spec fn answer_record() -> Seq<u8> {
    seq![0xc0u8, 0x0cu8, 0u8, 1u8, 0u8, 1u8, 0u8, 0u8, 0x0eu8, 0x10u8, 0u8, 4u8, 192u8, 0u8, 2u8, 1u8]
}

/// The reply of the benchmark upstream to the query `q`.
pub open spec fn spec_answer(q: Seq<u8>) -> Option<Seq<u8>> {
    if q.len() < 12 {
        None
    } else {
        match name_end(q, 12) {
            None => None,
            Some(end) => if end + 4 > q.len() {
                None
            } else {
                Some(
                    q.subrange(0, 2) + seq![0x81u8, 0x80u8] + q.subrange(4, 6) + seq![
                        0u8,
                        1u8,
                        0u8,
                        0u8,
                        0u8,
                        0u8,
                    ] + q.subrange(12, end + 4) + answer_record(),
                )
            },
        }
    }
}

/// Answers `query` with one A record, keeping only its question: an OPT
/// record that an upstream adds cannot precede the answer.
pub fn answer(query: &[u8]) -> (r: Option<Vec<u8>>)
    ensures
        r matches Some(b) ==> spec_answer(query@) == Some(b@),
        r is None ==> spec_answer(query@) is None,
{
    if query.len() < 12 {
        return None;
    }
    let mut question_end: usize = 12;
    loop
        invariant
            12 <= question_end <= query@.len(),
            name_end(query@, 12) == name_end(query@, question_end as int),
        ensures
            12 <= question_end < query@.len(),
            query@[question_end as int] == 0,
            name_end(query@, 12) == Some(question_end + 1),
        decreases query@.len() - question_end,
    {
        if question_end >= query.len() {
            return None;
        }
        let label = query[question_end] as usize;
        if label == 0 {
            break;
        }
        if label > 63 {
            return None;
        }
        if label >= query.len() - question_end - 1 {
            return None;
        }
        question_end = question_end + 1 + label;
    }
    if query.len() - question_end - 1 < 4 {
        return None;
    }
    question_end = question_end + 1;
    question_end = question_end + 4;
    let mut bytes = copy_prefix(query, question_end);
    bytes.set(2, 0x81);
    bytes.set(3, 0x80);
    bytes.set(6, 0);
    bytes.set(7, 1);
    bytes.set(8, 0);
    bytes.set(9, 0);
    bytes.set(10, 0);
    bytes.set(11, 0);
    let record: [u8; 16] = [0xc0, 0x0c, 0, 1, 0, 1, 0, 0, 0x0e, 0x10, 0, 4, 192, 0, 2, 1];
    extend_bytes(&mut bytes, &record);
    proof {
        assert(record@ == answer_record());
        let s = spec_answer(query@).unwrap();
        assert(bytes@ =~= s);
    }
    Some(bytes)
}

/// The fixed-position checks of a benchmark reply: its length, the QR bit,
/// a NOERROR code and one answer.
pub open spec fn valid_answer_header_ok(bytes: Seq<u8>, expected: Seq<u8>) -> bool {
    &&& bytes.len() >= expected.len() + 16
    &&& bytes[2] & 0x80 != 0
    &&& bytes[3] & 15 == 0
    &&& bytes[6] == 0 && bytes[7] == 1
}

/// A reply is valid when it is a successful response with one answer that
/// repeats the question of `expected` and ends with address 192.0.2.1.
pub open spec fn spec_valid_answer(bytes: Seq<u8>, expected: Seq<u8>) -> bool {
    &&& valid_answer_header_ok(bytes, expected)
    &&& bytes.subrange(12, expected.len() as int) == expected.subrange(12, expected.len() as int)
    &&& bytes.subrange(bytes.len() - 4, bytes.len() as int) == seq![192u8, 0u8, 2u8, 1u8]
}

pub fn valid_answer(bytes: &[u8], expected: &[u8]) -> (r: bool)
    requires
        valid_answer_header_ok(bytes@, expected@) ==> expected@.len() >= 12,
    ensures
        r == spec_valid_answer(bytes@, expected@),
{
    if bytes.len() < 16 || bytes.len() - 16 < expected.len() {
        return false;
    }
    if !(bytes[2] & 0x80 != 0 && bytes[3] & 15 == 0 && bytes[6] == 0 && bytes[7] == 1) {
        return false;
    }
    let mut i: usize = 12;
    while i < expected.len()
        invariant
            12 <= i <= expected@.len(),
            bytes@.len() >= expected@.len() + 16,
            forall|j: int| 12 <= j < i ==> bytes@[j] == expected@[j],
        decreases expected.len() - i,
    {
        if bytes[i] != expected[i] {
            assert(bytes@.subrange(12, expected@.len() as int)[i - 12] == bytes@[i as int]);
            assert(expected@.subrange(12, expected@.len() as int)[i - 12] == expected@[i as int]);
            return false;
        }
        i = i + 1;
    }
    assert(bytes@.subrange(12, expected@.len() as int) =~= expected@.subrange(12, expected@.len() as int));
    let tail: [u8; 4] = [192, 0, 2, 1];
    let ok = bytes_equal_at(bytes, bytes.len() - 4, &tail);
    assert(tail@ =~= seq![192u8, 0u8, 2u8, 1u8]);
    ok
}

} // verus!
