//! The receiving side with a jitter buffer: slices are kept in sequence order,
//! and lost packets can be concealed by repeating the slice before them.
use crate::rtp::{
    accept_next, channels_of, first_packet_outcome, has_marker, marker_set, next_packet_outcome,
    open_first, slice_of, slices_view, RtpError, RtpHeader, SliceView,
};
use vstd::prelude::*;
use vstd::slice::slice_to_vec;

verus! {

/// Slices in non-decreasing order of relative sequence number.
pub open spec fn sorted_by_seq(s: Seq<SliceView>) -> bool {
    forall|i: int, j: int| 0 <= i < j < s.len() ==> s[i].1 <= s[j].1
}

/// Where a slice with sequence number `q` goes: scanning from the tail, past
/// every slice whose sequence number is greater than `q`.
pub open spec fn insert_index(s: Seq<SliceView>, q: u16) -> int
    decreases s.len(),
{
    if s.len() == 0 {
        0
    } else if q < s.last().1 {
        insert_index(s.drop_last(), q)
    } else {
        s.len() as int
    }
}

/// In sorted slices, the insertion point has every slice before it at or
/// below `q` and every slice from it on above `q`.
pub proof fn lemma_insert_index_splits(s: Seq<SliceView>, q: u16)
    requires
        sorted_by_seq(s),
    ensures
        0 <= insert_index(s, q) <= s.len(),
        forall|i: int| 0 <= i < insert_index(s, q) ==> s[i].1 <= q,
        forall|i: int| insert_index(s, q) <= i < s.len() ==> q < s[i].1,
    decreases s.len(),
{
    if s.len() > 0 {
        let n: int = s.len() - 1;
        if q < s.last().1 {
            let t = s.drop_last();
            assert(sorted_by_seq(t));
            lemma_insert_index_splits(t, q);
            assert forall|i: int| 0 <= i < insert_index(s, q) implies s[i].1 <= q by {
                assert(s[i] == t[i]);
            }
            assert forall|i: int| insert_index(s, q) <= i < s.len() implies q < s[i].1 by {
                if i < n {
                    assert(s[i] == t[i]);
                }
            }
        } else {
            assert forall|i: int| 0 <= i < insert_index(s, q) implies s[i].1 <= q by {
                if i < n {
                    assert(s[i].1 <= s[n].1);
                }
            }
        }
    }
}

/// Inserting a slice at its insertion point keeps slices sorted.
pub proof fn lemma_insert_keeps_sorted(s: Seq<SliceView>, e: SliceView)
    requires
        sorted_by_seq(s),
    ensures
        sorted_by_seq(s.insert(insert_index(s, e.1), e)),
{
    lemma_insert_index_splits(s, e.1);
    let k: int = insert_index(s, e.1);
    let t = s.insert(k, e);
    assert forall|i: int, j: int| 0 <= i < j < t.len() implies t[i].1 <= t[j].1 by {
        if j < k {
        } else if j == k {
        } else if i < k {
        } else if i == k {
        } else {
        }
    }
}

/// Slices that arrive in order are appended and count no correction.
pub proof fn lemma_in_order_appends(s: Seq<SliceView>, e: SliceView)
    requires
        s.len() > 0,
        s.last().1 <= e.1,
    ensures
        insert_index(s, e.1) == s.len(),
        s.insert(insert_index(s, e.1), e) == s.push(e),
{
    assert(s.insert(s.len() as int, e) =~= s.push(e));
}

/// The slices after `es` were received, in that order, into `s`: each is
/// inserted at its insertion point.
pub open spec fn received(s: Seq<SliceView>, es: Seq<SliceView>) -> Seq<SliceView>
    decreases es.len(),
{
    if es.len() == 0 {
        s
    } else {
        let t = received(s, es.drop_last());
        t.insert(insert_index(t, es.last().1), es.last())
    }
}

/// How many of the slices `es`, received in that order into `s`, were not
/// appended at the tail.
pub open spec fn corrections_while(s: Seq<SliceView>, es: Seq<SliceView>) -> nat
    decreases es.len(),
{
    if es.len() == 0 {
        0
    } else {
        let t = received(s, es.drop_last());
        corrections_while(s, es.drop_last()) + if insert_index(t, es.last().1) < t.len() {
            1nat
        } else {
            0nat
        }
    }
}

/// Packets delivered in the order they were sent are kept in arrival order
/// and count no correction.
pub proof fn lemma_in_order_delivery(s: Seq<SliceView>, es: Seq<SliceView>)
    requires
        s.len() > 0,
        forall|i: int, j: int| 0 <= i < j < es.len() ==> es[i].1 <= es[j].1,
        es.len() > 0 ==> s.last().1 <= es[0].1,
    ensures
        received(s, es) == s + es,
        corrections_while(s, es) == 0,
    decreases es.len(),
{
    if es.len() > 0 {
        let d = es.drop_last();
        lemma_in_order_delivery(s, d);
        let t = s + d;
        assert(t.last().1 <= es.last().1) by {
            if d.len() > 0 {
                assert(t.last() == es[es.len() - 2]);
            }
        }
        lemma_in_order_appends(t, es.last());
        assert(t.push(es.last()) =~= s + es);
    }
}

/// How many sequence numbers are missing between `prev` and `next`.
pub open spec fn gap_len(prev: u16, next: u16) -> int {
    if next > prev + 1 {
        next - prev - 1
    } else {
        0
    }
}

/// The slices that stand in for the sequence numbers missing after `prev`
/// up to `next`: copies of `prev`'s payload and timestamp, numbered on from
/// `prev`'s sequence number.
pub open spec fn fillers(prev: SliceView, next: u16) -> Seq<SliceView> {
    Seq::new(gap_len(prev.1, next) as nat, |k: int| (prev.0, (prev.1 + 1 + k) as u16, prev.2))
}

/// The slices with every gap between neighbours filled.
pub open spec fn concealed(s: Seq<SliceView>) -> Seq<SliceView>
    decreases s.len(),
{
    if s.len() <= 1 {
        s
    } else {
        concealed(s.drop_last()) + fillers(s[s.len() - 2], s.last().1) + seq![s.last()]
    }
}

/// Neighbouring sequence numbers differ by at most one.
pub open spec fn gap_free(s: Seq<SliceView>) -> bool {
    forall|i: int| 0 <= i < s.len() - 1 ==> #[trigger] s[i + 1].1 <= s[i].1 + 1
}

/// Concealing sorted slices keeps them sorted, leaves no gap, keeps the first
/// and the last slice, and only adds slices.
pub proof fn lemma_concealed_shape(s: Seq<SliceView>)
    requires
        s.len() >= 1,
        sorted_by_seq(s),
    ensures
        sorted_by_seq(concealed(s)),
        gap_free(concealed(s)),
        concealed(s).len() >= s.len(),
        concealed(s)[0] == s[0],
        concealed(s).last() == s.last(),
    decreases s.len(),
{
    if s.len() > 1 {
        let t = s.drop_last();
        assert(sorted_by_seq(t));
        lemma_concealed_shape(t);
        let a = concealed(t);
        let p = s[s.len() - 2];
        let q = s.last();
        let f = fillers(p, q.1);
        let c = a + f + seq![q];
        assert(a.last() == p);
        assert(p.1 <= q.1);
        assert(c[0] == s[0]);
        assert forall|i: int, j: int| 0 <= i < j < c.len() implies c[i].1 <= c[j].1 by {
            if j < a.len() {
            } else if i < a.len() {
                assert(a[i].1 <= p.1) by {
                    if i < a.len() - 1 {
                        assert(a[i].1 <= a[a.len() - 1].1);
                    }
                }
            }
        }
        assert forall|i: int| 0 <= i < c.len() - 1 implies #[trigger] c[i + 1].1 <= c[i].1 + 1 by {
            if i + 1 < a.len() {
                assert(a[i + 1].1 <= a[i].1 + 1);
            }
        }
    }
}

/// Filling the gaps of slices whose sequence numbers are distinct and
/// ascending leaves consecutive sequence numbers.
pub proof fn lemma_concealed_consecutive(s: Seq<SliceView>)
    requires
        s.len() >= 1,
        forall|i: int, j: int| 0 <= i < j < s.len() ==> s[i].1 < s[j].1,
    ensures
        forall|i: int|
            0 <= i < concealed(s).len() - 1 ==> #[trigger] concealed(s)[i + 1].1 == concealed(s)[i].1
                + 1,
    decreases s.len(),
{
    assert(sorted_by_seq(s));
    lemma_concealed_shape(s);
    if s.len() > 1 {
        let t = s.drop_last();
        lemma_concealed_shape(t);
        lemma_concealed_consecutive(t);
        let a = concealed(t);
        let p = s[s.len() - 2];
        let q = s.last();
        let c = a + fillers(p, q.1) + seq![q];
        assert(a.last() == p);
        assert forall|i: int| 0 <= i < c.len() - 1 implies #[trigger] c[i + 1].1 == c[i].1 + 1 by {
            if i + 1 < a.len() {
                assert(a[i + 1].1 == a[i].1 + 1);
            }
        }
    }
}

/// The decimal digit for `d` (below ten).
pub open spec fn digit_char(d: nat) -> char {
    if d == 0 {
        '0'
    } else if d == 1 {
        '1'
    } else if d == 2 {
        '2'
    } else if d == 3 {
        '3'
    } else if d == 4 {
        '4'
    } else if d == 5 {
        '5'
    } else if d == 6 {
        '6'
    } else if d == 7 {
        '7'
    } else if d == 8 {
        '8'
    } else {
        '9'
    }
}

/// `n` in decimal, without sign or leading zeros.
pub open spec fn decimal(n: nat) -> Seq<char>
    decreases n,
{
    if n < 10 {
        seq![digit_char(n)]
    } else {
        decimal(n / 10).push(digit_char(n % 10))
    }
}

/// The report of how many packets were reordered and how many concealed.
pub open spec fn stats_text(corrected: nat, concealed: nat) -> Seq<char> {
    "corrected "@ + decimal(corrected) + " out-of-order packets, concealed "@ + decimal(concealed)
        + " lost packets"@
}

/// Relies on `usize`'s `Display` (through `to_string`): its decimal digits,
/// without sign or padding.
#[verifier::external_body]
fn decimal_string(n: usize) -> (r: String)
    ensures
        r@ == decimal(n as nat),
{
    n.to_string()
}

/// The receiving side of one stream with reordering and loss concealment.
pub struct RtpJitterInStream {
    first_header: RtpHeader,
    pub channels: u16,
    pub audio_slices: Vec<(Vec<u8>, u16, u32)>,
    ended: bool,
    jitter: usize,
    plc: usize,
}

impl RtpJitterInStream {
    /// The header of the packet that opened the stream.
    pub closed spec fn first(&self) -> RtpHeader {
        self.first_header
    }

    /// Whether a packet with the marker bit set has been processed.
    pub closed spec fn is_ended(&self) -> bool {
        self.ended
    }

    /// The value of the public `channels` field.
    pub closed spec fn channel_count(&self) -> u16 {
        self.channels
    }

    /// The public `audio_slices` field, payloads as byte sequences.
    pub closed spec fn slices(&self) -> Seq<SliceView> {
        slices_view(self.audio_slices@)
    }

    /// How many packets were put back in order.
    pub closed spec fn corrections(&self) -> nat {
        self.jitter as nat
    }

    /// How many slices were synthesized for lost packets.
    pub closed spec fn concealments(&self) -> nat {
        self.plc as nat
    }

    /// Slices are sorted and there is at least one; each counted event added a
    /// slice besides the first.
    pub open spec fn wf(&self) -> bool {
        &&& self.slices().len() >= 1
        &&& sorted_by_seq(self.slices())
        &&& self.corrections() + self.concealments() < self.slices().len()
    }

    /// Opens a stream from its first packet: one slice at relative sequence 0
    /// and timestamp 0; ended already if that packet carries the marker bit.
    pub fn new(first_packet: &[u8]) -> (r: Result<Self, RtpError>)
        ensures
            match (r, first_packet_outcome(first_packet@)) {
                (Ok(st), Ok((h, p))) => {
                    &&& st.wf()
                    &&& st.first() == h
                    &&& channels_of(h.flags) == Some(st.channel_count())
                    &&& st.slices() == seq![(p, 0u16, 0u32)]
                    &&& st.is_ended() == marker_set(h.flags)
                    &&& st.corrections() == 0
                    &&& st.concealments() == 0
                },
                (Err(e), Err(e2)) => e == e2,
                _ => false,
            },
    {
        let (first_header, channels, first_audio) = open_first(first_packet)?;
        let ended = has_marker(first_header.flags);
        let mut audio_slices: Vec<(Vec<u8>, u16, u32)> = Vec::new();
        audio_slices.push((first_audio, 0u16, 0u32));
        let r = RtpJitterInStream { first_header, channels, audio_slices, ended, jitter: 0, plc: 0 };
        assert(r.slices() =~= seq![(first_audio@, 0u16, 0u32)]);
        Ok(r)
    }

    /// Takes a later packet of the stream. Once the stream has ended every
    /// packet is ignored. Otherwise a refused packet leaves the stream as it
    /// was, and an accepted one is inserted at its place in sequence order,
    /// counting a correction when that place is not the tail; the marker bit
    /// of the packet then says whether the stream has ended.
    pub fn next_packet(&mut self, next_packet: &[u8]) -> (r: Result<(), RtpError>)
        requires
            old(self).wf(),
        ensures
            final(self).wf(),
            old(self).is_ended() ==> r is Ok && *final(self) == *old(self),
            !old(self).is_ended() ==> match next_packet_outcome(old(self).first(), next_packet@) {
                Ok((h, p)) => {
                    let e = slice_of(old(self).first(), h, p);
                    let k = insert_index(old(self).slices(), e.1);
                    &&& r is Ok
                    &&& final(self).first() == old(self).first()
                    &&& final(self).channel_count() == old(self).channel_count()
                    &&& final(self).slices() == old(self).slices().insert(k, e)
                    &&& final(self).corrections() == old(self).corrections() + if k < old(
                        self,
                    ).slices().len() {
                        1int
                    } else {
                        0int
                    }
                    &&& final(self).concealments() == old(self).concealments()
                    &&& final(self).is_ended() == marker_set(h.flags)
                },
                Err(e) => r == Err::<(), RtpError>(e) && *final(self) == *old(self),
            },
    {
        if self.ended {
            return Ok(());
        }
        let (entry, h) = match accept_next(&self.first_header, next_packet) {
            Ok(v) => v,
            Err(e) => return Err(e),
        };
        let ghost s = self.slices();
        let ghost ev = (entry.0@, entry.1, entry.2);
        let next_seq: u16 = entry.1;
        let len: usize = self.audio_slices.len();
        let mut idx: usize = len;
        assert(s.take(len as int) =~= s);
        while idx > 0 && next_seq < self.audio_slices[idx - 1].1
            invariant
                idx <= len,
                len == self.audio_slices@.len(),
                s == self.slices(),
                insert_index(s, next_seq) == insert_index(s.take(idx as int), next_seq),
            decreases idx,
        {
            assert(s.take(idx as int).drop_last() =~= s.take(idx - 1));
            assert(s.take(idx as int).last() == s[idx - 1]);
            idx = idx - 1;
        }
        proof {
            lemma_insert_keeps_sorted(s, ev);
        }
        if idx < len {
            self.audio_slices.insert(idx, entry);
            self.jitter = self.jitter + 1;
        } else {
            self.audio_slices.push(entry);
        }
        assert(self.slices() =~= s.insert(idx as int, ev));
        self.ended = has_marker(h.flags);
        Ok(())
    }

    /// Packet loss concealment: between every two neighbouring slices whose
    /// sequence numbers leave a gap, inserts one copy of the earlier slice for
    /// each missing sequence number (numbered on, same payload and timestamp),
    /// counting each copy.
    pub fn plc(&mut self)
        requires
            old(self).wf(),
        ensures
            final(self).wf(),
            final(self).slices() == concealed(old(self).slices()),
            final(self).concealments() == old(self).concealments() + (concealed(
                old(self).slices(),
            ).len() - old(self).slices().len()),
            final(self).corrections() == old(self).corrections(),
            final(self).first() == old(self).first(),
            final(self).channel_count() == old(self).channel_count(),
            final(self).is_ended() == old(self).is_ended(),
    {
        let ghost s = self.slices();
        let len: usize = self.audio_slices.len();
        let mut out: Vec<(Vec<u8>, u16, u32)> = Vec::new();
        let first = &self.audio_slices[0];
        out.push((slice_to_vec(first.0.as_slice()), first.1, first.2));
        assert(slices_view(out@) =~= concealed(s.take(1)));
        let mut i: usize = 1;
        while i < len
            invariant
                1 <= i <= len,
                len == s.len(),
                s == self.slices(),
                sorted_by_seq(s),
                slices_view(out@) == concealed(s.take(i as int)),
            decreases len - i,
        {
            let prev = &self.audio_slices[i - 1];
            let next_seq: u16 = self.audio_slices[i].1;
            let ghost base = slices_view(out@);
            let ghost pv = s[i - 1];
            assert(pv.1 <= s[i as int].1);
            let mut fill: u16 = prev.1;
            while next_seq - fill > 1
                invariant
                    1 <= i < len,
                    len == s.len(),
                    pv == s[i - 1],
                    next_seq > prev.1 + 1 ==> fill < next_seq,
                    next_seq <= prev.1 + 1 ==> fill == prev.1,
                    pv == (prev.0@, prev.1, prev.2),
                    next_seq == s[i as int].1,
                    prev.1 <= fill <= next_seq,
                    slices_view(out@) == base + fillers(pv, next_seq).take(fill - prev.1),
                decreases next_seq - fill,
            {
                let ghost before = out@;
                let ghost f = fillers(pv, next_seq);
                let ghost k = fill - prev.1;
                assert(k < gap_len(pv.1, next_seq));
                fill = fill + 1;
                let copy = slice_to_vec(prev.0.as_slice());
                assert(f[k] == (copy@, fill, prev.2));
                out.push((copy, fill, prev.2));
                assert(slices_view(out@) =~= slices_view(before).push((copy@, fill, prev.2)));
                assert(f.take(k + 1) =~= f.take(k).push(f[k]));
                assert(slices_view(out@) =~= base + f.take(fill - prev.1));
            }
            assert(fillers(pv, next_seq).take(fill - prev.1) =~= fillers(pv, next_seq));
            let cur = &self.audio_slices[i];
            out.push((slice_to_vec(cur.0.as_slice()), cur.1, cur.2));
            assert(s.take(i + 1).drop_last() =~= s.take(i as int));
            assert(slices_view(out@) =~= concealed(s.take(i + 1)));
            i = i + 1;
        }
        assert(s.take(len as int) =~= s);
        proof {
            lemma_concealed_shape(s);
        }
        let added: usize = out.len() - len;
        self.audio_slices = out;
        self.plc = self.plc + added;
    }

    /// Whether a packet with the marker bit set has been processed.
    pub fn ended(&self) -> (r: bool)
        ensures
            r == self.is_ended(),
    {
        self.ended
    }

    /// A one-line report of the corrections and concealments made.
    pub fn jitter_stats(&self) -> (r: String)
        ensures
            r@ == stats_text(self.corrections(), self.concealments()),
    {
        let mut r = String::from_str("corrected ");
        r.append(decimal_string(self.jitter).as_str());
        r.append(" out-of-order packets, concealed ");
        r.append(decimal_string(self.plc).as_str());
        r.append(" lost packets");
        r
    }

    /// How many packets arrived out of order and were put back in place.
    pub fn jitter_count(&self) -> (r: usize)
        ensures
            r == self.corrections(),
    {
        self.jitter
    }

    /// How many slices were synthesized for lost packets.
    pub fn conceal_count(&self) -> (r: usize)
        ensures
            r == self.concealments(),
    {
        self.plc
    }
}

} // verus!
