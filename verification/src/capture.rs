//! Playing back a capture file: its records, and when each is due.

use crate::ethernet::{carries, routed, route_frame, Datagram, RawPacket};
use crate::single::{is_less, less};
use pcap_file::pcap::PcapParser;
use pcap_file::PcapError;
use vstd::prelude::*;
use vstd::slice::slice_subrange;

verus! {

/// Bytes of a capture's header.
pub const CAPTURE_HEADER_LEN: usize = 24;

/// Most bytes of a record with its header. A longer one counts as cut short.
pub const READ_WINDOW: usize = 8_000_000;

/// The pattern of 1.0.
pub const REAL_TIME: u32 = 0x3f80_0000;

/// Why a capture cannot be read on.
#[derive(Clone, Copy, PartialEq, Eq, Debug)]
pub enum CaptureFault {
    /// It ends too soon.
    Incomplete,
    /// It holds a value that is not allowed.
    Invalid,
}

/// One captured frame.
pub struct Captured {
    /// Seconds of its time stamp.
    pub secs: u64,
    /// Nanoseconds of its time stamp.
    pub nanos: u32,
    pub data: Vec<u8>,
    /// Where the next record begins.
    pub next: usize,
}

/// The order of bytes and the unit of fractions that a capture's first four
/// bytes announce: whether the most significant byte comes first, and whether
/// fractions are nanoseconds, not microseconds.
pub open spec fn capture_format(c: Seq<u8>) -> Option<(bool, bool)> {
    let magic = c.take(4);
    if magic == seq![0xa1u8, 0xb2u8, 0xc3u8, 0xd4u8] {
        Some((true, false))
    } else if magic == seq![0xa1u8, 0xb2u8, 0x3cu8, 0x4du8] {
        Some((true, true))
    } else if magic == seq![0xd4u8, 0xc3u8, 0xb2u8, 0xa1u8] {
        Some((false, false))
    } else if magic == seq![0x4du8, 0x3cu8, 0xb2u8, 0xa1u8] {
        Some((false, true))
    } else {
        None
    }
}

/// Whether a capture begins with a header.
pub open spec fn has_header(c: Seq<u8>) -> bool {
    c.len() >= 24 && capture_format(c) is Some
}

/// Four bytes as a number, the most significant first where `big` is set.
pub open spec fn word_at(s: Seq<u8>, at: int, big: bool) -> int {
    if big {
        s[at] * 16777216 + s[at + 1] * 65536 + s[at + 2] * 256 + s[at + 3]
    } else {
        s[at] + s[at + 1] * 256 + s[at + 2] * 65536 + s[at + 3] * 16777216
    }
}

/// Whether a capture's numbers have their most significant byte first.
pub open spec fn most_significant_first(c: Seq<u8>) -> bool {
    capture_format(c) matches Some((big, nano)) && big
}

/// Whether a capture's fractions are nanoseconds.
pub open spec fn counts_nanoseconds(c: Seq<u8>) -> bool {
    capture_format(c) matches Some((big, nano)) && nano
}

/// Length of the data of the record that `rest` begins with.
pub open spec fn record_len(c: Seq<u8>, rest: Seq<u8>) -> int {
    word_at(rest, 8, most_significant_first(c))
}

/// Seconds in the time stamp of the record that `rest` begins with.
pub open spec fn record_secs(c: Seq<u8>, rest: Seq<u8>) -> int {
    word_at(rest, 0, most_significant_first(c))
}

/// Nanoseconds in the time stamp of the record that `rest` begins with.
pub open spec fn record_nanos(c: Seq<u8>, rest: Seq<u8>) -> int {
    let fraction = word_at(rest, 4, most_significant_first(c));
    if counts_nanoseconds(c) {
        fraction
    } else {
        fraction * 1000
    }
}

/// Whether `rest` holds all of the record that it begins with.
pub open spec fn record_complete(c: Seq<u8>, rest: Seq<u8>) -> bool {
    rest.len() >= 16 && rest.len() - 16 >= record_len(c, rest)
}

/// Whether the record that `rest` begins with is consistent: less than a
/// second of fractions, and no more data than was on the wire or than the
/// capture's limit.
pub open spec fn record_valid(c: Seq<u8>, rest: Seq<u8>) -> bool {
    let limit = word_at(c, 16, most_significant_first(c));
    let wire_len = word_at(rest, 12, most_significant_first(c));
    &&& record_nanos(c, rest) < 1_000_000_000
    &&& record_len(c, rest) <= wire_len <= limit
}

/// Reads the header of a capture and returns what follows it.
///
/// Calls `pcap_file::pcap::PcapParser::new`, which accepts any 24 bytes that
/// begin with one of four magic numbers, asks for more where there are fewer
/// bytes, and refuses anything else as an invalid field.
#[verifier::external_body]
fn parse_header(capture: &[u8]) -> (r: Result<&[u8], CaptureFault>)
    ensures
        match r {
            Ok(rest) => has_header(capture@) && rest@ == capture@.skip(24),
            Err(CaptureFault::Incomplete) => capture@.len() < 24,
            Err(CaptureFault::Invalid) => capture@.len() >= 24 && !has_header(capture@),
        },
{
    match PcapParser::new(capture) {
        Ok((rest, _)) => Ok(rest),
        Err(PcapError::IncompleteBuffer) => Err(CaptureFault::Incomplete),
        Err(_) => Err(CaptureFault::Invalid),
    }
}

/// Reads the record that `rest` begins with, by the header of `capture`:
/// seconds, nanoseconds and data, and what follows the record.
///
/// Calls `pcap_file::pcap::PcapParser::next_packet` on a parser made from the
/// header. It asks for more bytes where the record is cut short, refuses one
/// whose fields contradict each other as an invalid field, and otherwise
/// returns its time stamp, its data and the bytes after it.
#[verifier::external_body]
fn parse_record<'a>(capture: &[u8], rest: &'a [u8]) -> (r: Result<
    (u64, u32, Vec<u8>, &'a [u8]),
    CaptureFault,
>)
    requires
        has_header(capture@),
    ensures
        match r {
            Ok((secs, nanos, data, after)) => {
                let len = record_len(capture@, rest@);
                &&& record_complete(capture@, rest@)
                &&& record_valid(capture@, rest@)
                &&& secs == record_secs(capture@, rest@)
                &&& nanos == record_nanos(capture@, rest@)
                &&& data@ == rest@.subrange(16, 16 + len)
                &&& after@ == rest@.skip(16 + len)
            },
            Err(CaptureFault::Incomplete) => !record_complete(capture@, rest@),
            Err(CaptureFault::Invalid) => {
                &&& record_complete(capture@, rest@)
                &&& !record_valid(capture@, rest@)
            },
        },
{
    match PcapParser::new(capture) {
        Ok((_, parser)) => match parser.next_packet(rest) {
            Ok((after, p)) => {
                let stamp = p.timestamp;
                Ok((stamp.as_secs(), stamp.subsec_nanos(), p.data.into_owned(), after))
            },
            Err(PcapError::IncompleteBuffer) => Err(CaptureFault::Incomplete),
            Err(_) => Err(CaptureFault::Invalid),
        },
        Err(_) => Err(CaptureFault::Invalid),
    }
}

/// Whether `capture` is a capture, or why not.
pub fn open_capture(capture: &[u8]) -> (r: Result<(), CaptureFault>)
    ensures
        r is Ok <==> has_header(capture@),
        r matches Err(f) ==> f == if capture@.len() < 24 {
            CaptureFault::Incomplete
        } else {
            CaptureFault::Invalid
        },
{
    match parse_header(capture) {
        Ok(_) => Ok(()),
        Err(f) => Err(f),
    }
}

/// The part of a capture in which the record at `at` has to lie.
pub open spec fn window(c: Seq<u8>, at: int) -> Seq<u8> {
    c.subrange(
        at,
        if c.len() - at <= READ_WINDOW {
            c.len() as int
        } else {
            at + READ_WINDOW
        },
    )
}

/// Whether there is a record at `at` that can be read.
pub open spec fn readable(c: Seq<u8>, at: int) -> bool {
    at < c.len() && record_complete(c, window(c, at)) && record_valid(c, window(c, at))
}

/// Why the capture cannot be read on at `at`, where it does not end there.
pub open spec fn fault_at(c: Seq<u8>, at: int) -> CaptureFault {
    if record_complete(c, window(c, at)) {
        CaptureFault::Invalid
    } else {
        CaptureFault::Incomplete
    }
}

/// The data of the record at `at`.
pub open spec fn record_data(c: Seq<u8>, at: int) -> Seq<u8> {
    c.subrange(at + 16, record_end(c, at))
}

/// Where the record at `at` ends.
pub open spec fn record_end(c: Seq<u8>, at: int) -> int {
    at + 16 + record_len(c, window(c, at))
}

/// Whether `r` is the record at `at`.
pub open spec fn is_record(r: Captured, c: Seq<u8>, at: int) -> bool {
    &&& r.secs == record_secs(c, window(c, at))
    &&& r.nanos == record_nanos(c, window(c, at))
    &&& r.data@ == record_data(c, at)
    &&& r.next == record_end(c, at)
    &&& at < r.next <= c.len()
}

/// The record at `at`. `None` at the end of the capture.
pub fn next_record(capture: &[u8], at: usize) -> (r: Option<Result<Captured, CaptureFault>>)
    requires
        has_header(capture@),
        CAPTURE_HEADER_LEN <= at <= capture@.len(),
    ensures
        match r {
            None => at == capture@.len(),
            Some(Ok(f)) => readable(capture@, at as int) && is_record(f, capture@, at as int),
            Some(Err(fault)) => {
                &&& at < capture@.len()
                &&& !readable(capture@, at as int)
                &&& fault == fault_at(capture@, at as int)
            },
        },
{
    let len: usize = capture.len();
    if at == len {
        return None;
    }
    let end: usize = if len - at <= READ_WINDOW {
        len
    } else {
        at + READ_WINDOW
    };
    let rest = slice_subrange(capture, at, end);
    assert(rest@ =~= window(capture@, at as int));
    match parse_record(capture, rest) {
        Err(f) => Some(Err(f)),
        Ok((secs, nanos, data, after)) => {
            assert(data@ =~= record_data(capture@, at as int));
            Some(Ok(Captured { secs, nanos, data, next: end - after.len() }))
        },
    }
}

/// Speed of playback as configured, or real time where that is not a positive
/// number. A single-precision bit pattern.
pub fn playback_rate(rate: u32) -> (r: u32)
    ensures
        r == if less(0, rate) {
            rate
        } else {
            REAL_TIME
        },
{
    if is_less(0, rate) {
        rate
    } else {
        REAL_TIME
    }
}

/// Progress of one playback of a capture.
#[derive(Clone, Copy)]
pub struct Playback {
    /// Where the next record begins.
    pub at: usize,
    /// Time stamp of the first record, in nanoseconds.
    pub t0: Option<u128>,
    /// Packets handed on so far.
    pub sent: u64,
}

/// What playback is to do next.
pub enum PlayAction {
    /// A record was captured `offset` nanoseconds after the first one: when
    /// it is due, its packet is handed on, if it has one.
    Play { offset: u128, packet: Option<RawPacket> },
    /// This playback is over: at the end of the capture, or at a fault.
    Stop { fault: Option<CaptureFault> },
}

/// How long after the first record one that is stamped `ts` was captured:
/// nothing for the first one, and for one that is stamped earlier.
pub open spec fn offset_from(t0: Option<u128>, ts: int) -> int {
    match t0 {
        Some(t) => if ts > t {
            ts - t
        } else {
            0
        },
        None => 0,
    }
}

/// Time stamp of the record at `at`, in nanoseconds.
pub open spec fn stamp_at(c: Seq<u8>, at: int) -> int {
    record_secs(c, window(c, at)) * 1_000_000_000 + record_nanos(c, window(c, at))
}

/// The state after a record at `at` has been taken.
pub open spec fn taken(p: Playback, c: Seq<u8>) -> Playback {
    Playback {
        at: record_end(c, p.at as int) as usize,
        t0: match p.t0 {
            Some(t) => Some(t),
            None => Some(stamp_at(c, p.at as int) as u128),
        },
        ..p
    }
}

impl Playback {
    /// Whether the next record begins within the capture, behind its header.
    pub open spec fn within(&self, c: Seq<u8>) -> bool {
        CAPTURE_HEADER_LEN <= self.at <= c.len()
    }

    /// Before the first record.
    pub fn new() -> (p: Self)
        ensures
            p == (Playback { at: CAPTURE_HEADER_LEN, t0: None, sent: 0 }),
    {
        Playback { at: CAPTURE_HEADER_LEN, t0: None, sent: 0 }
    }

    /// Takes the next record, if it can be read, and says what to do. Records
    /// that carry no datagram of the sensor are played without a packet; the
    /// first fault ends the playback.
    pub fn step(&mut self, capture: &[u8], msop_port: u16, difop_port: u16) -> (a: PlayAction)
        requires
            has_header(capture@),
            old(self).within(capture@),
        ensures
            final(self).within(capture@),
            match a {
                PlayAction::Play { offset, packet } => {
                    let at = old(self).at as int;
                    &&& readable(capture@, at)
                    &&& *final(self) == taken(*old(self), capture@)
                    &&& offset == offset_from(old(self).t0, stamp_at(capture@, at))
                    &&& carries(packet, routed(record_data(capture@, at), msop_port, difop_port))
                },
                PlayAction::Stop { fault } => {
                    let at = old(self).at as int;
                    &&& !readable(capture@, at)
                    &&& *final(self) == *old(self)
                    &&& fault == if at == capture@.len() {
                        None
                    } else {
                        Some(fault_at(capture@, at))
                    }
                },
            },
    {
        match next_record(capture, self.at) {
            None => PlayAction::Stop { fault: None },
            Some(Err(fault)) => PlayAction::Stop { fault: Some(fault) },
            Some(Ok(record)) => {
                let ts: u128 = record.secs as u128 * 1_000_000_000 + record.nanos as u128;
                let t0: u128 = match self.t0 {
                    Some(t) => t,
                    None => ts,
                };
                self.t0 = Some(t0);
                self.at = record.next;
                let offset: u128 = if ts > t0 {
                    ts - t0
                } else {
                    0
                };
                let packet = route_frame(record.data.as_slice(), msop_port, difop_port);
                PlayAction::Play { offset, packet }
            },
        }
    }

    /// How long to wait until `target` when `elapsed` has passed, both since
    /// the playback began. `None` if it is due.
    pub fn wait(target: u128, elapsed: u128) -> (r: Option<u128>)
        ensures
            r == if target > elapsed {
                Some((target - elapsed) as u128)
            } else {
                None
            },
    {
        if target > elapsed {
            Some(target - elapsed)
        } else {
            None
        }
    }

    /// Notes whether a packet was received when it was handed on: it counts,
    /// and playback goes on, only if it was.
    pub fn handed_on(&mut self, received: bool) -> (go_on: bool)
        requires
            old(self).sent < u64::MAX,
        ensures
            go_on == received,
            *final(self) == (Playback {
                sent: if received {
                    (old(self).sent + 1) as u64
                } else {
                    old(self).sent
                },
                ..*old(self)
            }),
    {
        if received {
            self.sent = self.sent + 1;
        }
        received
    }

    /// The playback that follows one that is over: from the beginning, if the
    /// capture is to be repeated.
    pub fn again(repeat: bool) -> (r: Option<Playback>)
        ensures
            r == if repeat {
                Some(Playback { at: CAPTURE_HEADER_LEN, t0: None, sent: 0 })
            } else {
                None
            },
    {
        if repeat {
            Some(Playback::new())
        } else {
            None
        }
    }
}

/// Where the records from `at` on begin, up to the first one that cannot be
/// read.
pub open spec fn record_starts(c: Seq<u8>, at: int) -> Seq<int>
    decreases c.len() - at,
{
    if readable(c, at) && at < record_end(c, at) <= c.len() {
        seq![at] + record_starts(c, record_end(c, at))
    } else {
        Seq::empty()
    }
}

/// The sensor's datagrams in the records that begin at `starts`, in order.
pub open spec fn datagrams_at(
    c: Seq<u8>,
    starts: Seq<int>,
    msop_port: u16,
    difop_port: u16,
) -> Seq<Datagram>
    decreases starts.len(),
{
    if starts.len() == 0 {
        Seq::empty()
    } else {
        let before = datagrams_at(c, starts.drop_last(), msop_port, difop_port);
        match routed(record_data(c, starts.last()), msop_port, difop_port) {
            Some(d) => before.push(d),
            None => before,
        }
    }
}

/// What a playback has come to after some steps: its state, and the datagrams
/// that it has given to be handed on.
pub struct Played {
    pub state: Playback,
    pub given: Seq<Datagram>,
}

/// A playback after `n` steps from its beginning.
pub open spec fn played(c: Seq<u8>, msop_port: u16, difop_port: u16, n: nat) -> Played
    decreases n,
{
    if n == 0 {
        Played {
            state: Playback { at: CAPTURE_HEADER_LEN, t0: None, sent: 0 },
            given: Seq::empty(),
        }
    } else {
        let before = played(c, msop_port, difop_port, (n - 1) as nat);
        let at = before.state.at as int;
        if readable(c, at) {
            Played {
                state: taken(before.state, c),
                given: match routed(record_data(c, at), msop_port, difop_port) {
                    Some(d) => before.given.push(d),
                    None => before.given,
                },
            }
        } else {
            before
        }
    }
}

/// A record that can be read ends behind its beginning, within the capture.
proof fn readable_record_ends(c: Seq<u8>, at: int)
    requires
        readable(c, at),
        0 <= at,
    ensures
        at < record_end(c, at) <= c.len(),
{
}

/// The datagrams that a playback gives to be handed on are those in the
/// records before the first fault, in the order of the capture: after `n`
/// steps, those in the first `n` of these records, or in all of them where
/// there are fewer.
pub proof fn routed_records_are_handed_on(c: Seq<u8>, msop_port: u16, difop_port: u16, n: nat)
    requires
        has_header(c),
        c.len() <= usize::MAX,
    ensures
        ({
            let starts = record_starts(c, 24);
            let done = if n < starts.len() {
                n as int
            } else {
                starts.len() as int
            };
            let p = played(c, msop_port, difop_port, n);
            &&& p.given == datagrams_at(c, starts.take(done), msop_port, difop_port)
            &&& 24 <= p.state.at <= c.len()
            &&& readable(c, p.state.at as int) <==> n < starts.len()
            &&& n < starts.len() ==> p.state.at == starts[n as int]
        }),
    decreases n,
{
    let starts = record_starts(c, 24);
    if n == 0 {
        assert(starts.take(0) =~= Seq::<int>::empty());
        if readable(c, 24) {
            readable_record_ends(c, 24);
        }
    } else {
        routed_records_are_handed_on(c, msop_port, difop_port, (n - 1) as nat);
        let before = played(c, msop_port, difop_port, (n - 1) as nat);
        let at = before.state.at as int;
        if n - 1 < starts.len() {
            readable_record_ends(c, at);
            start_after(c, 24, n - 1);
            assert(starts.take(n as int).drop_last() =~= starts.take(n - 1));
            assert(starts.take(n as int).last() == at);
        }
    }
}

/// A start is followed by the end of its record, as long as that can be read.
proof fn start_after(c: Seq<u8>, at: int, k: int)
    requires
        0 <= at,
        0 <= k < record_starts(c, at).len(),
    ensures
        ({
            let starts = record_starts(c, at);
            let end = record_end(c, starts[k]);
            &&& readable(c, starts[k])
            &&& at <= starts[k] < end <= c.len()
            &&& readable(c, end) <==> k + 1 < starts.len()
            &&& k + 1 < starts.len() ==> starts[k + 1] == end
        }),
    decreases c.len() - at,
{
    let end = record_end(c, at);
    let rest = record_starts(c, end);
    if k == 0 {
        if readable(c, end) {
            readable_record_ends(c, end);
        }
    } else {
        start_after(c, end, k - 1);
        assert(record_starts(c, at)[k] == rest[k - 1]);
        if k + 1 < record_starts(c, at).len() {
            assert(record_starts(c, at)[k + 1] == rest[k]);
        }
    }
}

/// What a record is, byte by byte: seconds, a fraction, the length of its data
/// and the length on the wire, four bytes each, and then the data. The most
/// significant byte comes first where the capture begins with 0xa1; fractions
/// are nanoseconds where the capture's mark has 0x3c in it, else microseconds.
pub proof fn records_stand_in_the_capture(r: Captured, c: Seq<u8>, at: int)
    requires
        has_header(c),
        24 <= at,
        readable(c, at),
        is_record(r, c, at),
    ensures
        ({
            let big = c[0] == 0xa1;
            let nano = c[1] == 0x3c || c[2] == 0x3c;
            let w = |k: int|
                if big {
                    0x100_0000 * c[k] + 0x1_0000 * c[k + 1] + 0x100 * c[k + 2] + c[k + 3]
                } else {
                    0x100_0000 * c[k + 3] + 0x1_0000 * c[k + 2] + 0x100 * c[k + 1] + c[k]
                };
            let len = w(at + 8);
            &&& r.secs == w(at)
            &&& r.nanos == if nano {
                w(at + 4)
            } else {
                1000 * w(at + 4)
            }
            &&& r.next == at + 16 + len
            &&& r.next <= c.len()
            &&& r.data@ == c.subrange(at + 16, at + 16 + len)
        }),
{
    let m = c.take(4);
    assert(m[0] == c[0] && m[1] == c[1] && m[2] == c[2] && m[3] == c[3]);
    let a = seq![0xa1u8, 0xb2u8, 0xc3u8, 0xd4u8];
    let b = seq![0xa1u8, 0xb2u8, 0x3cu8, 0x4du8];
    let d = seq![0xd4u8, 0xc3u8, 0xb2u8, 0xa1u8];
    let e = seq![0x4du8, 0x3cu8, 0xb2u8, 0xa1u8];
    assert(a[0] == 0xa1 && a[1] == 0xb2 && a[2] == 0xc3);
    assert(b[0] == 0xa1 && b[1] == 0xb2 && b[2] == 0x3c);
    assert(d[0] == 0xd4 && d[1] == 0xc3 && d[2] == 0xb2);
    assert(e[0] == 0x4d && e[1] == 0x3c && e[2] == 0xb2);
    let s = window(c, at);
    assert(forall|k: int| 0 <= k < 16 ==> #[trigger] s[k] == c[at + k]);
}

/// When a record is due: after the first one by as much as its time stamp is
/// later, and at once where that is not later. The first record sets the time
/// that the others are held against, and no later one changes it.
pub proof fn records_are_due_by_their_stamps(p: Playback, c: Seq<u8>)
    requires
        readable(c, p.at as int),
        record_end(c, p.at as int) <= usize::MAX,
        0 <= stamp_at(c, p.at as int) <= u128::MAX,
    ensures
        ({
            let ts = stamp_at(c, p.at as int);
            let after = taken(p, c);
            &&& p.t0 is None ==> offset_from(p.t0, ts) == 0 && after.t0 == Some(ts as u128)
            &&& p.t0 matches Some(t) ==> {
                &&& after.t0 == Some(t)
                &&& ts <= t ==> offset_from(p.t0, ts) == 0
                &&& ts > t ==> t + offset_from(p.t0, ts) == ts
            }
            &&& after.at == p.at + 16 + record_len(c, window(c, p.at as int))
            &&& after.sent == p.sent
        }),
{
}

/// A time stamp is its seconds in nanoseconds, and its fraction.
pub proof fn stamps_are_in_nanoseconds(r: Captured, c: Seq<u8>, at: int)
    requires
        is_record(r, c, at),
    ensures
        stamp_at(c, at) == 1_000_000_000 * r.secs + r.nanos,
{
}

/// Which records can be read: those that the capture holds all of, of at most
/// eight million bytes with their header, with less than a second of fractions,
/// and with no more data than was on the wire, nor more on the wire than the
/// capture's header allows.
pub proof fn whole_records_can_be_read(c: Seq<u8>, at: int)
    requires
        has_header(c),
        24 <= at,
        at + 16 <= c.len(),
    ensures
        ({
            let big = c[0] == 0xa1;
            let nano = c[1] == 0x3c || c[2] == 0x3c;
            let w = |k: int|
                if big {
                    0x100_0000 * c[k] + 0x1_0000 * c[k + 1] + 0x100 * c[k + 2] + c[k + 3]
                } else {
                    0x100_0000 * c[k + 3] + 0x1_0000 * c[k + 2] + 0x100 * c[k + 1] + c[k]
                };
            let len = w(at + 8);
            let whole = at + 16 + len <= c.len() && 16 + len <= 8_000_000;
            let sound = len <= w(at + 12) <= w(16) && if nano {
                w(at + 4) < 1_000_000_000
            } else {
                w(at + 4) < 1_000_000
            };
            &&& readable(c, at) <==> whole && sound
            &&& !whole ==> fault_at(c, at) == CaptureFault::Incomplete
            &&& whole ==> fault_at(c, at) == CaptureFault::Invalid
        }),
{
    let m = c.take(4);
    assert(m[0] == c[0] && m[1] == c[1] && m[2] == c[2] && m[3] == c[3]);
    let a = seq![0xa1u8, 0xb2u8, 0xc3u8, 0xd4u8];
    let b = seq![0xa1u8, 0xb2u8, 0x3cu8, 0x4du8];
    let d = seq![0xd4u8, 0xc3u8, 0xb2u8, 0xa1u8];
    let e = seq![0x4du8, 0x3cu8, 0xb2u8, 0xa1u8];
    assert(a[0] == 0xa1 && a[1] == 0xb2 && a[2] == 0xc3);
    assert(b[0] == 0xa1 && b[1] == 0xb2 && b[2] == 0x3c);
    assert(d[0] == 0xd4 && d[1] == 0xc3 && d[2] == 0xb2);
    assert(e[0] == 0x4d && e[1] == 0x3c && e[2] == 0xb2);
    let s = window(c, at);
    assert(s.len() >= 16);
    assert(forall|k: int| 0 <= k < 16 ==> #[trigger] s[k] == c[at + k]);
}

/// What is left of a capture is cut short where it is no header of a record.
pub proof fn the_rest_is_cut_short(c: Seq<u8>, at: int)
    requires
        0 <= at <= c.len(),
        c.len() < at + 16,
    ensures
        !readable(c, at),
        fault_at(c, at) == CaptureFault::Incomplete,
{
}

/// Real time is a rate of 1, and records begin behind 24 bytes.
pub proof fn numbers_of_a_playback()
    ensures
        REAL_TIME == 0x3f80_0000,
        CAPTURE_HEADER_LEN == 24,
{
}

/// A capture begins with a header where it has the 24 bytes of one and its
/// first four are one of four marks.
pub proof fn captures_begin_with_a_mark(c: Seq<u8>)
    requires
        c.len() >= 4,
    ensures
        has_header(c) <==> c.len() >= 24 && {
            ||| (c[0] == 0xa1 && c[1] == 0xb2 && c[2] == 0xc3 && c[3] == 0xd4)
            ||| (c[0] == 0xa1 && c[1] == 0xb2 && c[2] == 0x3c && c[3] == 0x4d)
            ||| (c[0] == 0xd4 && c[1] == 0xc3 && c[2] == 0xb2 && c[3] == 0xa1)
            ||| (c[0] == 0x4d && c[1] == 0x3c && c[2] == 0xb2 && c[3] == 0xa1)
        },
{
    let m = c.take(4);
    assert(m[0] == c[0] && m[1] == c[1] && m[2] == c[2] && m[3] == c[3]);
    let a = seq![0xa1u8, 0xb2u8, 0xc3u8, 0xd4u8];
    let b = seq![0xa1u8, 0xb2u8, 0x3cu8, 0x4du8];
    let d = seq![0xd4u8, 0xc3u8, 0xb2u8, 0xa1u8];
    let e = seq![0x4du8, 0x3cu8, 0xb2u8, 0xa1u8];
    assert(m == a <==> m =~= a);
    assert(m == b <==> m =~= b);
    assert(m == d <==> m =~= d);
    assert(m == e <==> m =~= e);
}

} // verus!
