//! The record-line builder: a two-letter record-type code plus an ordered
//! list of (tag, value) pairs, serialized as `@XX` followed by one
//! tab-separated `TAG:VALUE` field per pair, in push order and without any
//! deduplication.  Also the tag-value formatter, which renders integers in
//! their canonical decimal form.

use vstd::prelude::*;
use crate::bytes::{copy_bytes, push_all};
use crate::{AT_SIGN, COLON, TAB};

verus! {

/// The canonical decimal digits of `n`, most significant first.
pub open spec fn dec_rep(n: nat) -> Seq<u8>
    decreases n,
{
    if n < 10 {
        seq![(48 + n) as u8]
    } else {
        dec_rep(n / 10).push((48 + n % 10) as u8)
    }
}

/// The canonical decimal form of a signed value: a minus sign before the
/// digits of the magnitude when negative.
pub open spec fn dec_rep_signed(v: int) -> Seq<u8> {
    if v < 0 {
        seq![45u8] + dec_rep((-v) as nat)
    } else {
        dec_rep(v as nat)
    }
}

/// Formats an unsigned value as its canonical decimal digits.
pub fn fmt_u64(v: u64) -> (r: Vec<u8>)
    ensures
        r@ == dec_rep(v as nat),
{
    let mut digits: Vec<u8> = Vec::new();
    let mut n: u64 = v;
    while n >= 10
        invariant
            dec_rep(v as nat) == dec_rep(n as nat) + digits@.reverse(),
        decreases n,
    {
        let d: u8 = (n % 10) as u8 + 48;
        let ghost digits0 = digits@;
        digits.push(d);
        proof {
            assert(digits@.reverse() =~= seq![d] + digits0.reverse());
            assert(dec_rep((n / 10) as nat) + (seq![d] + digits0.reverse()) =~= dec_rep(
                (n / 10) as nat,
            ).push(d) + digits0.reverse());
            assert(dec_rep(n as nat) == dec_rep((n / 10) as nat).push((48 + n as nat % 10) as u8));
        }
        n = n / 10;
    }
    let d: u8 = n as u8 + 48;
    let ghost digits0 = digits@;
    digits.push(d);
    proof {
        assert(dec_rep(n as nat) =~= seq![d]);
        assert(digits@.reverse() =~= seq![d] + digits0.reverse());
        assert(dec_rep(v as nat) =~= digits@.reverse());
    }
    let mut out: Vec<u8> = Vec::new();
    let mut j: usize = digits.len();
    while j > 0
        invariant
            j <= digits@.len(),
            out@.len() == digits@.len() - j,
            forall|k: int| 0 <= k < out@.len() ==> out@[k] == digits@[digits@.len() - 1 - k],
        decreases j,
    {
        j = j - 1;
        out.push(digits[j]);
    }
    proof {
        assert(out@ =~= digits@.reverse());
    }
    out
}

/// Formats a signed value as its canonical decimal form.
pub fn fmt_i64(v: i64) -> (r: Vec<u8>)
    ensures
        r@ == dec_rep_signed(v as int),
{
    if v >= 0 {
        fmt_u64(v as u64)
    } else {
        let wide: i128 = -(v as i128);
        let mag: u64 = wide as u64;
        proof {
            assert(mag as int == -(v as int));
        }
        let mut out: Vec<u8> = Vec::new();
        out.push(45);
        let digits = fmt_u64(mag);
        push_all(&mut out, digits.as_slice());
        proof {
            assert(out@ =~= seq![45u8] + dec_rep((-(v as int)) as nat));
        }
        out
    }
}

/// The serialized form of an ordered tag list: for each pair, a tab, the
/// tag, a colon and the value, concatenated in order.
pub open spec fn tags_bytes(tags: Seq<(Seq<u8>, Seq<u8>)>) -> Seq<u8>
    decreases tags.len(),
{
    if tags.len() == 0 {
        Seq::<u8>::empty()
    } else {
        tags_bytes(tags.drop_last()) + seq![TAB] + tags.last().0 + seq![COLON] + tags.last().1
    }
}

/// The serialized form of a whole record line: the stored record-type field
/// (which already carries its leading `@`) followed by the tag fields.
pub open spec fn record_bytes(rec_type: Seq<u8>, tags: Seq<(Seq<u8>, Seq<u8>)>) -> Seq<u8> {
    rec_type + tags_bytes(tags)
}

/// Builder for one header record line.  Tags are kept exactly as pushed:
/// pushing the same tag twice yields two fields in the serialized line.
#[derive(Debug)]
pub struct HeaderRecord {
    rec_type: Vec<u8>,
    tags: Vec<(Vec<u8>, Vec<u8>)>,
}

impl View for HeaderRecord {
    type V = (Seq<u8>, Seq<(Seq<u8>, Seq<u8>)>);

    closed spec fn view(&self) -> (Seq<u8>, Seq<(Seq<u8>, Seq<u8>)>) {
        (
            self.rec_type@,
            Seq::new(self.tags@.len(), |i: int| (self.tags@[i].0@, self.tags@[i].1@)),
        )
    }
}

impl HeaderRecord {
    /// Starts a record of the given two-character type code (`HD`, `SQ`,
    /// `RG`, `PG`, ...), with an empty tag list.
    pub fn new(rec_type: &[u8]) -> (r: HeaderRecord)
        requires
            rec_type@.len() == 2,
        ensures
            r@.0 == seq![AT_SIGN] + rec_type@,
            r@.1 == Seq::<(Seq<u8>, Seq<u8>)>::empty(),
    {
        let mut rt: Vec<u8> = Vec::new();
        rt.push(AT_SIGN);
        push_all(&mut rt, rec_type);
        let r = HeaderRecord { rec_type: rt, tags: Vec::new() };
        proof {
            assert(r@.0 =~= seq![AT_SIGN] + rec_type@);
            assert(r@.1 =~= Seq::<(Seq<u8>, Seq<u8>)>::empty());
        }
        r
    }

    /// Appends `(tag, value)` to the ordered tag list.  The value bytes are
    /// stored verbatim; integers are rendered first with `fmt_u64` or
    /// `fmt_i64`.
    pub fn push_tag(&mut self, tag: &[u8], value: &[u8])
        requires
            tag@.len() == 2,
        ensures
            final(self)@.0 == old(self)@.0,
            final(self)@.1 == old(self)@.1.push((tag@, value@)),
    {
        let ghost pre = self@;
        let t = copy_bytes(tag);
        let v = copy_bytes(value);
        self.tags.push((t, v));
        proof {
            assert(self@.1 =~= pre.1.push((tag@, value@)));
        }
    }

    /// Serializes the record into one header line, in push order.
    pub fn to_bytes(&self) -> (r: Vec<u8>)
        ensures
            r@ == record_bytes(self@.0, self@.1),
    {
        let mut out: Vec<u8> = copy_bytes(self.rec_type.as_slice());
        let mut i: usize = 0;
        proof {
            assert(out@ =~= record_bytes(self@.0, self@.1.take(0)));
        }
        while i < self.tags.len()
            invariant
                i <= self.tags@.len(),
                out@ == record_bytes(self@.0, self@.1.take(i as int)),
            decreases self.tags@.len() - i,
        {
            let ghost pre = out@;
            out.push(TAB);
            push_all(&mut out, self.tags[i].0.as_slice());
            out.push(COLON);
            push_all(&mut out, self.tags[i].1.as_slice());
            proof {
                let ts = self@.1;
                assert(ts.take(i as int + 1).drop_last() =~= ts.take(i as int));
                assert(ts.take(i as int + 1).last() == ts[i as int]);
                assert(out@ =~= record_bytes(self@.0, ts.take(i as int + 1)));
            }
            i = i + 1;
        }
        proof {
            assert(self@.1.take(self@.1.len() as int) =~= self@.1);
        }
        out
    }
}

} // verus!
