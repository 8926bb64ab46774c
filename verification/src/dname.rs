//! Domain names written as dotted text.
use vstd::prelude::*;
use vstd::string::StringSliceAdditionalSpecFns;
use crate::message::{Name, label_seqs};

verus! {

broadcast use vstd::utf8::encode_utf8_decode_utf8;

/// One step of splitting text at dots: the finished labels and the label
/// being read.
pub open spec fn split_step(st: (Seq<Seq<u8>>, Seq<u8>), b: u8) -> (Seq<Seq<u8>>, Seq<u8>) {
    if b == 46 {
        (st.0.push(st.1), Seq::empty())
    } else {
        (st.0, st.1.push(b))
    }
}

/// The text split at dots, with the last (unfinished) label apart.
pub open spec fn split_dots(t: Seq<u8>) -> (Seq<Seq<u8>>, Seq<u8>)
    decreases t.len(),
{
    if t.len() == 0 {
        (Seq::empty(), Seq::empty())
    } else {
        split_step(split_dots(t.drop_last()), t.last())
    }
}

/// Every label holds 1 to 63 bytes.
pub open spec fn labels_fit(all: Seq<Seq<u8>>) -> bool {
    forall|i: int| 0 <= i < all.len() ==> 1 <= #[trigger] all[i].len() <= 63
}

/// The labels of a dotted name; one trailing dot is allowed, and the empty
/// text and "." are the root. `None` when a label is empty or longer than
/// 63 bytes.
pub open spec fn dotted_labels(t: Seq<u8>) -> Option<Seq<Seq<u8>>> {
    let body = if t.len() > 0 && t.last() == 46 { t.drop_last() } else { t };
    if body.len() == 0 {
        Some(Seq::empty())
    } else {
        let all = split_dots(body).0.push(split_dots(body).1);
        if labels_fit(all) {
            Some(all)
        } else {
            None
        }
    }
}

impl Name {
    /// The name written in `text` as dot-separated labels.
    pub fn from_ascii(text: &str) -> (r: Option<Name>)
        ensures
            match r {
                Some(n) => dotted_labels(text.spec_bytes()) == Some(n@),
                None => dotted_labels(text.spec_bytes()) is None,
            },
    {
        let bytes = text.as_bytes();
        let ghost t = bytes@;
        assert(t == text.spec_bytes());
        let mut end: usize = bytes.len();
        if end > 0 && bytes[end - 1] == 46u8 {
            end = end - 1;
        }
        let ghost body = if t.len() > 0 && t.last() == 46 { t.drop_last() } else { t };
        assert(body =~= t.take(end as int));
        if end == 0 {
            return Some(Name::root());
        }
        let mut labels: Vec<Vec<u8>> = Vec::new();
        let mut cur: Vec<u8> = Vec::new();
        let mut i: usize = 0;
        while i < end
            invariant
                i <= end <= t.len(),
                bytes@ == t,
                body == t.take(end as int),
                (label_seqs(labels@), cur@) == split_dots(body.take(i as int)),
            decreases end - i,
        {
            let b = bytes[i];
            proof {
                assert(body.take(i + 1).drop_last() =~= body.take(i as int));
                assert(body.take(i + 1).last() == b);
            }
            if b == 46u8 {
                let done = cur;
                cur = Vec::new();
                let ghost before = labels@;
                labels.push(done);
                assert(label_seqs(labels@) =~= label_seqs(before).push(done@));
                assert(cur@ =~= Seq::<u8>::empty());
            } else {
                cur.push(b);
            }
            i = i + 1;
        }
        assert(body.take(end as int) =~= body);
        let ghost before = labels@;
        labels.push(cur);
        assert(label_seqs(labels@) =~= label_seqs(before).push(split_dots(body).1));
        let ghost all = label_seqs(labels@);
        let mut k: usize = 0;
        while k < labels.len()
            invariant
                k <= labels@.len(),
                all == label_seqs(labels@),
                t == text.spec_bytes(),
                body.len() > 0,
                body == (if t.len() > 0 && t.last() == 46 { t.drop_last() } else { t }),
                all == split_dots(body).0.push(split_dots(body).1),
                forall|j: int| 0 <= j < k ==> 1 <= #[trigger] all[j].len() <= 63,
            decreases labels.len() - k,
        {
            assert(all[k as int] == labels@[k as int]@);
            let n = labels[k].len();
            if n == 0 || n > 63 {
                assert(!(1 <= all[k as int].len() <= 63));
                assert(!labels_fit(all));
                return None;
            }
            k = k + 1;
        }
        Some(Name { labels })
    }
}

} // verus!
