//! Packet parsing: one TOC byte plus a length-encoding scheme split a raw
//! packet into its elementary coded frames, without copying a byte.
//!
//! [`Packet::read`] is the sole fallible entry point; it validates every
//! length against the actual buffer once, at parse time, and the resulting
//! [`Frames`] iteration never re-checks.

use vstd::prelude::*;

use crate::types::Bandwidth;
use crate::types::Channels;
use crate::types::FrameSize;

verus! {

/// Codec mode selected by the TOC configuration.
#[derive(Copy, Clone, Debug, PartialEq, Eq, Structural)]
pub enum Mode {
    Silk,
    Celt,
    Hybrid,
}

/// Why a packet was rejected. `Dtx` is a valid non-error outcome: a
/// discontinuous-transmission signal meaning "no audio this frame".
#[derive(Copy, Clone, Debug, PartialEq, Eq, Structural)]
pub enum PacketErrorKind {
    InvalidLength,
    InvalidFormat,
    Dtx,
}

/// Frame-length scheme of a packet, borrowing the length-prefix region for
/// the variable-bitrate case.
#[derive(Copy, Clone, Debug)]
pub enum PacketLength<'a> {
    Single,
    DoubleEq,
    Double(u16),
    VariableCbr(u16),
    VariableVbr(&'a [u8]),
}

/// Abstract view of a [`PacketLength`].
pub ghost enum LengthModel {
    Single,
    DoubleEq,
    Double(int),
    VariableCbr(int),
    VariableVbr(Seq<u8>),
}

impl<'a> View for PacketLength<'a> {
    type V = LengthModel;

    closed spec fn view(&self) -> LengthModel {
        match *self {
            PacketLength::Single => LengthModel::Single,
            PacketLength::DoubleEq => LengthModel::DoubleEq,
            PacketLength::Double(n) => LengthModel::Double(n as int),
            PacketLength::VariableCbr(n) => LengthModel::VariableCbr(n as int),
            PacketLength::VariableVbr(lengths) => LengthModel::VariableVbr(lengths@),
        }
    }
}

/// A parsed packet descriptor. Owns no bytes: `data` and a variable-bitrate
/// length region borrow the caller's buffer.
#[derive(Copy, Clone, Debug)]
pub struct Packet<'a> {
    pub mode: Mode,
    pub bandwidth: Bandwidth,
    pub frame_size: FrameSize,
    pub channels: Channels,
    pub length: PacketLength<'a>,
    pub data: &'a [u8],
}

/// Abstract view of a [`Packet`].
pub ghost struct PacketModel {
    pub mode: Mode,
    pub bandwidth: Bandwidth,
    pub frame_size: FrameSize,
    pub channels: Channels,
    pub length: LengthModel,
    pub data: Seq<u8>,
}

impl<'a> View for Packet<'a> {
    type V = PacketModel;

    closed spec fn view(&self) -> PacketModel {
        PacketModel {
            mode: self.mode,
            bandwidth: self.bandwidth,
            frame_size: self.frame_size,
            channels: self.channels,
            length: self.length@,
            data: self.data@,
        }
    }
}

/// Mode selected by a 5-bit configuration number.
pub open spec fn spec_toc_mode(config: int) -> Mode {
    if config >= 16 {
        Mode::Celt
    } else if config >= 12 {
        Mode::Hybrid
    } else {
        Mode::Silk
    }
}

/// Bandwidth selected by a 5-bit configuration number.
pub open spec fn spec_toc_bandwidth(config: int) -> Bandwidth {
    if config >= 16 {
        if (config / 4) % 4 == 0 {
            Bandwidth::Narrow
        } else if (config / 4) % 4 == 1 {
            Bandwidth::Wide
        } else if (config / 4) % 4 == 2 {
            Bandwidth::SuperWide
        } else {
            Bandwidth::Full
        }
    } else if config >= 12 {
        if (config / 2) % 2 == 0 {
            Bandwidth::SuperWide
        } else {
            Bandwidth::Full
        }
    } else {
        if (config / 4) % 4 == 0 {
            Bandwidth::Narrow
        } else if (config / 4) % 4 == 1 {
            Bandwidth::Medium
        } else {
            Bandwidth::Wide
        }
    }
}

/// Frame duration selected by a 5-bit configuration number.
pub open spec fn spec_toc_frame_size(config: int) -> FrameSize {
    if config >= 16 {
        if config % 4 == 0 {
            FrameSize::Ms2_5
        } else if config % 4 == 1 {
            FrameSize::Ms5
        } else if config % 4 == 2 {
            FrameSize::Ms10
        } else {
            FrameSize::Ms20
        }
    } else if config >= 12 {
        if config % 2 == 0 {
            FrameSize::Ms10
        } else {
            FrameSize::Ms20
        }
    } else {
        if config % 4 == 0 {
            FrameSize::Ms10
        } else if config % 4 == 1 {
            FrameSize::Ms20
        } else if config % 4 == 2 {
            FrameSize::Ms40
        } else {
            FrameSize::Ms60
        }
    }
}

/// The 1-or-2-byte frame length at the front of `data`: a first byte in
/// `1..=251` stands alone; `252..=255` combines with a second byte `w` as
/// `w * 4 + v`; a zero first byte signals DTX. `Ok` carries the length and
/// the bytes consumed.
pub open spec fn spec_varint(data: Seq<u8>) -> Result<(int, int), PacketErrorKind> {
    if data.len() < 1 {
        Err(PacketErrorKind::InvalidLength)
    } else if data[0] == 0 {
        Err(PacketErrorKind::Dtx)
    } else if data[0] <= 251 {
        Ok((data[0] as int, 1))
    } else if data.len() < 2 {
        Err(PacketErrorKind::InvalidLength)
    } else {
        Ok(((data[1] as int) * 4 + data[0] as int, 2))
    }
}

/// The padding chain at the front of `data`: each 255 byte adds 255 and
/// continues; the first other byte adds itself and ends the chain. `Some`
/// carries the summed padding and the bytes consumed; `None` means the chain
/// ran off the buffer.
pub open spec fn spec_padding(data: Seq<u8>) -> Option<(int, int)>
    decreases data.len(),
{
    if data.len() == 0 {
        None
    } else if data[0] == 255 {
        match spec_padding(data.skip(1)) {
            None => None,
            Some((p, c)) => Some((p + 255, c + 1)),
        }
    } else {
        Some((data[0] as int, 1))
    }
}

/// Cursor and length sum of `n` frame lengths scanned from the front of
/// `data`, as the parser reads them for a variable-bitrate packet.
pub open spec fn spec_vbr_scan(data: Seq<u8>, n: int) -> Result<(int, int), PacketErrorKind>
    decreases n,
{
    if n <= 0 {
        Ok((0, 0))
    } else {
        match spec_varint(data) {
            Err(e) => Err(e),
            Ok((l, c)) => match spec_vbr_scan(data.skip(c), n - 1) {
                Err(e) => Err(e),
                Ok((c2, s2)) => Ok((c + c2, l + s2)),
            },
        }
    }
}

/// Length scheme and payload determined by the frame-count code (the TOC's
/// low two bits) over the bytes after the TOC byte.
pub open spec fn spec_parse_length(code: int, rest: Seq<u8>) -> Result<
    (LengthModel, Seq<u8>),
    PacketErrorKind,
> {
    if code == 0 {
        if rest.len() <= 1275 {
            Ok((LengthModel::Single, rest))
        } else {
            Err(PacketErrorKind::InvalidLength)
        }
    } else if code == 1 {
        if rest.len() % 2 == 0 && rest.len() <= 2550 {
            Ok((LengthModel::DoubleEq, rest))
        } else {
            Err(PacketErrorKind::InvalidLength)
        }
    } else if code == 2 {
        match spec_varint(rest) {
            Err(e) => Err(e),
            Ok((l, c)) => {
                let payload = rest.skip(c);
                if l > payload.len() {
                    Err(PacketErrorKind::InvalidLength)
                } else {
                    Ok((LengthModel::Double(l), payload))
                }
            },
        }
    } else {
        if rest.len() == 0 {
            Err(PacketErrorKind::InvalidLength)
        } else {
            let config = rest[0] as int;
            let d1 = rest.skip(1);
            let stripped = if (config / 64) % 2 == 1 {
                spec_strip_padding(d1)
            } else {
                Ok(d1)
            };
            match stripped {
                Err(e) => Err(e),
                Ok(d3) => {
                    let count = config % 64;
                    if count == 0 {
                        Err(PacketErrorKind::InvalidFormat)
                    } else if config >= 128 {
                        spec_vbr_length(d3, count)
                    } else {
                        let flen = d3.len() as int / count;
                        if d3.len() as int % count != 0 || flen > 1275 {
                            Err(PacketErrorKind::InvalidLength)
                        } else {
                            Ok((LengthModel::VariableCbr(flen), d3))
                        }
                    }
                },
            }
        }
    }
}

/// Trailing padding stripped from the bytes after the frame-count byte: the
/// chain at the front declares how many bytes leave the tail.
pub open spec fn spec_strip_padding(d1: Seq<u8>) -> Result<Seq<u8>, PacketErrorKind> {
    match spec_padding(d1) {
        None => Err(PacketErrorKind::InvalidLength),
        Some((p, c)) => {
            let d2 = d1.skip(c);
            if p > d2.len() {
                Err(PacketErrorKind::InvalidLength)
            } else {
                Ok(d2.take(d2.len() - p))
            }
        },
    }
}

/// Length-prefix region and payload of a variable-bitrate packet: `count - 1`
/// lengths are scanned off the front, and their sum must fit in the payload.
pub open spec fn spec_vbr_length(d3: Seq<u8>, count: int) -> Result<
    (LengthModel, Seq<u8>),
    PacketErrorKind,
> {
    match spec_vbr_scan(d3, count - 1) {
        Err(e) => Err(e),
        Ok((c, sum)) => {
            let payload = d3.skip(c);
            if payload.len() < sum {
                Err(PacketErrorKind::InvalidLength)
            } else {
                Ok((LengthModel::VariableVbr(d3.take(c)), payload))
            }
        },
    }
}

/// Complete parse of a raw packet buffer, mirroring every validation in the
/// order the parser performs it.
pub open spec fn spec_parse(data: Seq<u8>) -> Result<PacketModel, PacketErrorKind> {
    if data.len() == 0 {
        Err(PacketErrorKind::InvalidLength)
    } else {
        let toc = data[0] as int;
        let rest = data.skip(1);
        match spec_parse_length(toc % 4, rest) {
            Err(e) => Err(e),
            Ok((length, payload)) => Ok(
                PacketModel {
                    mode: spec_toc_mode(toc / 8),
                    bandwidth: spec_toc_bandwidth(toc / 8),
                    frame_size: spec_toc_frame_size(toc / 8),
                    channels: if (toc / 4) % 2 == 1 {
                        Channels::Stereo
                    } else {
                        Channels::Mono
                    },
                    length: length,
                    data: payload,
                },
            ),
        }
    }
}

/// Every successful parse derives its mode, bandwidth, frame duration and
/// channel count from the TOC byte alone, by the closed-form configuration
/// table — for every configuration value and either channel flag.
pub proof fn lemma_toc_table(data: Seq<u8>)
    requires
        spec_parse(data) is Ok,
    ensures
        ({
            let p = spec_parse(data)->Ok_0;
            let config = data[0] as int / 8;
            &&& p.mode == spec_toc_mode(config)
            &&& p.bandwidth == spec_toc_bandwidth(config)
            &&& p.frame_size == spec_toc_frame_size(config)
            &&& p.channels == (if (data[0] as int / 4) % 2 == 1 {
                Channels::Stereo
            } else {
                Channels::Mono
            })
        }),
{
}

/// The lengths declared by a variable-bitrate prefix region: each is
/// positive and within the bytes still available, and the region parses
/// completely.
pub open spec fn vbr_wf(lengths: Seq<u8>, avail: int) -> bool
    decreases lengths.len(),
{
    if lengths.len() == 0 {
        true
    } else {
        match spec_varint(lengths) {
            Err(_) => false,
            Ok((l, c)) => 1 <= l <= avail && c <= lengths.len() && vbr_wf(
                lengths.skip(c),
                avail - l,
            ),
        }
    }
}

/// Parse-time guarantees about a length scheme that frame iteration relies
/// on and never re-checks.
pub open spec fn length_wf(l: LengthModel, data: Seq<u8>) -> bool {
    match l {
        LengthModel::Single => data.len() <= 1275,
        LengthModel::DoubleEq => data.len() % 2 == 0 && data.len() <= 2550,
        LengthModel::Double(n) => 1 <= n <= data.len() && n <= 1275,
        LengthModel::VariableCbr(n) => data.len() == 0 || (1 <= n <= 1275 && data.len() as int
            % n == 0),
        LengthModel::VariableVbr(lengths) => vbr_wf(lengths, data.len() as int),
    }
}

/// Parse-time guarantees of a whole packet.
pub open spec fn packet_wf(m: PacketModel) -> bool {
    length_wf(m.length, m.data)
}

/// A padding chain that parses consumed at least one byte, at most the
/// buffer, and summed a non-negative padding length.
proof fn lemma_padding_props(data: Seq<u8>)
    ensures
        match spec_padding(data) {
            None => true,
            Some(pc) => 0 <= pc.0 && 1 <= pc.1 <= data.len(),
        },
    decreases data.len(),
{
    if data.len() > 0 && data[0] == 255 {
        lemma_padding_props(data.skip(1));
    }
}

/// A padding chain whose first `i` bytes are all 255 contributes `255 * i`
/// to the sum and `i` to the consumed count.
proof fn lemma_padding_prefix(data: Seq<u8>, i: int)
    requires
        0 <= i <= data.len(),
        forall|j: int| 0 <= j < i ==> data[j] == 255,
    ensures
        match spec_padding(data.skip(i)) {
            None => spec_padding(data) is None,
            Some(pc) => spec_padding(data) == Some((pc.0 + 255 * i, pc.1 + i)),
        },
    decreases i,
{
    if i == 0 {
        assert(data.skip(0) =~= data);
    } else {
        assert(data[0] == 255);
        assert(data.skip(1).skip(i - 1) =~= data.skip(i));
        assert(forall|j: int| 0 <= j < i - 1 ==> data.skip(1)[j] == 255);
        lemma_padding_prefix(data.skip(1), i - 1);
    }
}

/// A scan that succeeds consumed no more than the buffer and summed
/// non-negative lengths.
proof fn lemma_scan_props(data: Seq<u8>, n: int)
    ensures
        match spec_vbr_scan(data, n) {
            Ok(cs) => 0 <= cs.0 <= data.len() && 0 <= cs.1,
            Err(_) => true,
        },
    decreases n,
{
    if n > 0 {
        match spec_varint(data) {
            Err(_) => {},
            Ok((l, c)) => {
                lemma_scan_props(data.skip(c), n - 1);
            },
        }
    }
}

/// The varint at the front of a prefix equals the varint of the whole
/// buffer, once the prefix covers it.
proof fn lemma_varint_take(data: Seq<u8>, c: int)
    requires
        spec_varint(data) is Ok,
        spec_varint(data)->Ok_0.1 <= c <= data.len(),
    ensures
        spec_varint(data.take(c)) == spec_varint(data),
{
    assert(data.take(c).len() == c);
    assert(data.take(c)[0] == data[0]);
    if data[0] > 251 {
        assert(data.take(c)[1] == data[1]);
    }
}

/// A successful scan whose sum fits in `avail` leaves a well-formed
/// variable-bitrate prefix region.
proof fn lemma_scan_wf(data: Seq<u8>, n: int, avail: int)
    requires
        spec_vbr_scan(data, n) is Ok,
        spec_vbr_scan(data, n)->Ok_0.1 <= avail,
    ensures
        vbr_wf(data.take(spec_vbr_scan(data, n)->Ok_0.0), avail),
    decreases n,
{
    let c = spec_vbr_scan(data, n)->Ok_0.0;
    let sum = spec_vbr_scan(data, n)->Ok_0.1;
    lemma_scan_props(data, n);
    if n <= 0 {
        assert(data.take(0) =~= Seq::<u8>::empty());
    } else {
        let l1 = spec_varint(data)->Ok_0.0;
        let c1 = spec_varint(data)->Ok_0.1;
        let tail = data.skip(c1);
        lemma_scan_props(tail, n - 1);
        let c2 = spec_vbr_scan(tail, n - 1)->Ok_0.0;
        let s2 = spec_vbr_scan(tail, n - 1)->Ok_0.1;
        lemma_varint_take(data, c);
        lemma_scan_wf(tail, n - 1, avail - l1);
        assert(data.take(c).skip(c1) =~= tail.take(c2));
    }
}

impl<'a> Packet<'a> {
    /// Parse one raw packet buffer into a descriptor. The sole fallible
    /// operation of the module: every structural length is validated here,
    /// against the actual buffer, and nothing is re-checked during frame
    /// iteration. No bytes are copied; the descriptor borrows `data`.
    pub fn read(data: &'a [u8]) -> (r: Result<Packet<'a>, PacketErrorKind>)
        requires
            data@.len() < usize::MAX - 1276,
        ensures
            match r {
                Ok(p) => spec_parse(data@) == Ok::<PacketModel, PacketErrorKind>(p@)
                    && packet_wf(p@),
                Err(e) => spec_parse(data@) == Err::<PacketModel, PacketErrorKind>(e),
            },
    {
        if data.len() == 0 {
            return Err(PacketErrorKind::InvalidLength);
        }
        let toc = data[0];
        let rest = data.split_at(1).1;
        proof {
            assert(rest@ =~= data@.skip(1));
        }
        let code = toc % 4;
        let (length, payload): (PacketLength<'a>, &'a [u8]) = if code == 0 {
            if rest.len() <= 1275 {
                (PacketLength::Single, rest)
            } else {
                return Err(PacketErrorKind::InvalidLength);
            }
        } else if code == 1 {
            if rest.len() % 2 == 0 && rest.len() <= 2550 {
                (PacketLength::DoubleEq, rest)
            } else {
                return Err(PacketErrorKind::InvalidLength);
            }
        } else if code == 2 {
            match varint(rest) {
                Err(e) => {
                    return Err(e);
                },
                Ok((l, c)) => {
                    let after = rest.split_at(c).1;
                    proof {
                        assert(after@ =~= rest@.skip(c as int));
                    }
                    if (l as usize) > after.len() {
                        return Err(PacketErrorKind::InvalidLength);
                    }
                    (PacketLength::Double(l), after)
                },
            }
        } else {
            match parse_code3(rest) {
                Err(e) => {
                    return Err(e);
                },
                Ok(pair) => pair,
            }
        };
        let config2 = toc / 8;
        let (mode, bandwidth, frame_size) = if config2 >= 16 {
            (Mode::Celt, celt_bandwidth(config2), celt_frame_size(config2))
        } else if config2 >= 12 {
            (Mode::Hybrid, hybrid_bandwidth(config2), hybrid_frame_size(config2))
        } else {
            (Mode::Silk, silk_bandwidth(config2), silk_frame_size(config2))
        };
        Ok(Packet { mode, bandwidth, frame_size, channels: if (toc / 4) % 2 == 1 {
            Channels::Stereo
        } else {
            Channels::Mono
        }, length, data: payload })
    }
}

/// Strip trailing padding as the padding chain at the front of `d1` directs.
fn strip_padding<'a>(d1: &'a [u8]) -> (r: Result<&'a [u8], PacketErrorKind>)
    requires
        d1@.len() < usize::MAX - 1275,
    ensures
        match r {
            Ok(d3) => spec_strip_padding(d1@) == Ok::<Seq<u8>, PacketErrorKind>(d3@),
            Err(e) => spec_strip_padding(d1@) == Err::<Seq<u8>, PacketErrorKind>(e),
        },
{
    match padding_scan(d1) {
        PadScan::Unterminated => Err(PacketErrorKind::InvalidLength),
        PadScan::Overrun => {
            proof {
                lemma_padding_props(d1@);
            }
            Err(PacketErrorKind::InvalidLength)
        },
        PadScan::Found(p, c) => {
            let striped = d1.split_at(c).1;
            proof {
                assert(striped@ =~= d1@.skip(c as int));
            }
            if p > striped.len() {
                Err(PacketErrorKind::InvalidLength)
            } else {
                let kept = striped.split_at(striped.len() - p).0;
                proof {
                    assert(kept@ =~= striped@.take(striped@.len() - p));
                }
                Ok(kept)
            }
        },
    }
}

/// Scan the `count - 1` frame lengths of a variable-bitrate packet off the
/// front of `d3` and split it into the length-prefix region and the payload.
fn scan_lengths<'a>(d3: &'a [u8], count: u8) -> (r: Result<
    (PacketLength<'a>, &'a [u8]),
    PacketErrorKind,
>)
    requires
        1 <= count < 64,
    ensures
        match r {
            Ok(pair) => spec_vbr_length(d3@, count as int) == Ok::<
                (LengthModel, Seq<u8>),
                PacketErrorKind,
            >((pair.0@, pair.1@)) && length_wf(pair.0@, pair.1@),
            Err(e) => spec_vbr_length(d3@, count as int) == Err::<
                (LengthModel, Seq<u8>),
                PacketErrorKind,
            >(e),
        },
{
    let ghost n = count as int - 1;
    let d3_len = d3.len();
    let mut cursor: usize = 0;
    let mut sum: usize = 0;
    let mut done: u8 = 0;
    proof {
        assert(d3@.skip(0) =~= d3@);
    }
    while done < count - 1
        invariant
            0 <= done <= count - 1,
            1 <= count < 64,
            n == count as int - 1,
            d3_len == d3@.len(),
            cursor <= d3_len,
            sum <= 1275 * done,
            match spec_vbr_scan(d3@.skip(cursor as int), n - done) {
                Err(e) => spec_vbr_scan(d3@, n) == Err::<(int, int), PacketErrorKind>(e),
                Ok(cs) => spec_vbr_scan(d3@, n) == Ok::<(int, int), PacketErrorKind>(
                    (cursor + cs.0, sum + cs.1),
                ),
            },
        decreases count - 1 - done,
    {
        let tail = d3.split_at(cursor).1;
        proof {
            assert(tail@ =~= d3@.skip(cursor as int));
        }
        match varint(tail) {
            Err(e) => {
                return Err(e);
            },
            Ok((l, c)) => {
                proof {
                    assert(tail@.len() == d3@.len() - cursor as int);
                    assert(c as int <= d3@.len() - cursor as int);
                    assert(d3@.skip(cursor as int).skip(c as int) =~= d3@.skip(
                        cursor as int + c as int,
                    ));
                }
                cursor = cursor + c;
                sum = sum + (l as usize);
                done = done + 1;
            },
        }
    }
    let pair = d3.split_at(cursor);
    proof {
        assert(pair.0@ =~= d3@.take(cursor as int));
        assert(pair.1@ =~= d3@.skip(cursor as int));
    }
    if pair.1.len() < sum {
        return Err(PacketErrorKind::InvalidLength);
    }
    proof {
        lemma_scan_wf(d3@, n, pair.1@.len() as int);
    }
    Ok((PacketLength::VariableVbr(pair.0), pair.1))
}

/// Parse the code-3 (arbitrary frame count) length scheme from the bytes
/// after the TOC byte.
fn parse_code3<'a>(rest: &'a [u8]) -> (r: Result<(PacketLength<'a>, &'a [u8]), PacketErrorKind>)
    requires
        rest@.len() < usize::MAX - 1276,
    ensures
        match r {
            Ok(pair) => spec_parse_length(3, rest@) == Ok::<
                (LengthModel, Seq<u8>),
                PacketErrorKind,
            >((pair.0@, pair.1@)) && length_wf(pair.0@, pair.1@),
            Err(e) => spec_parse_length(3, rest@) == Err::<
                (LengthModel, Seq<u8>),
                PacketErrorKind,
            >(e),
        },
{
    if rest.len() == 0 {
        return Err(PacketErrorKind::InvalidLength);
    }
    let config = rest[0];
    let d1 = rest.split_at(1).1;
    proof {
        assert(d1@ =~= rest@.skip(1));
    }
    let d3: &'a [u8] = if (config / 64) % 2 == 1 {
        match strip_padding(d1) {
            Err(e) => {
                return Err(e);
            },
            Ok(kept) => kept,
        }
    } else {
        d1
    };
    let count = config % 64;
    if count == 0 {
        return Err(PacketErrorKind::InvalidFormat);
    }
    if config >= 128 {
        scan_lengths(d3, count)
    } else {
        let flen = d3.len() / (count as usize);
        let rem = d3.len() % (count as usize);
        if rem != 0 || flen > 1275 {
            return Err(PacketErrorKind::InvalidLength);
        }
        proof {
            lemma_cbr_divides(d3@.len() as int, count as int);
        }
        Ok((PacketLength::VariableCbr(flen as u16), d3))
    }
}

/// A buffer that splits evenly into `count` frames has a length divisible by
/// the frame length.
proof fn lemma_cbr_divides(len: int, count: int)
    requires
        len >= 0,
        count >= 1,
        len % count == 0,
    ensures
        len == 0 || (len / count >= 1 && len % (len / count) == 0),
{
    vstd::arithmetic::div_mod::lemma_fundamental_div_mod(len, count);
    let flen = len / count;
    if len > 0 {
        assert(flen >= 1) by (nonlinear_arith)
            requires
                len == count * flen,
                len > 0,
                count >= 1,
        ;
        assert(len % flen == 0) by (nonlinear_arith)
            requires
                len == count * flen,
                flen >= 1,
        ;
    }
}

/// Read the 1-or-2-byte frame length at the front of `data`.
fn varint(data: &[u8]) -> (r: Result<(u16, usize), PacketErrorKind>)
    ensures
        match r {
            Ok(pair) => {
                &&& spec_varint(data@) == Ok::<(int, int), PacketErrorKind>(
                    (pair.0 as int, pair.1 as int),
                )
                &&& 1 <= pair.0 <= 1275
                &&& 1 <= pair.1 <= 2
                &&& pair.1 <= data@.len()
            },
            Err(e) => spec_varint(data@) == Err::<(int, int), PacketErrorKind>(e),
        },
{
    if data.len() < 1 {
        Err(PacketErrorKind::InvalidLength)
    } else {
        let v = data[0];
        if v == 0 {
            Err(PacketErrorKind::Dtx)
        } else if v <= 251 {
            Ok((v as u16, 1))
        } else if data.len() < 2 {
            Err(PacketErrorKind::InvalidLength)
        } else {
            let w = data[1];
            Ok(((w as u16) * 4 + (v as u16), 2))
        }
    }
}

/// Outcome of scanning a padding chain.
enum PadScan {
    /// Summed padding and bytes consumed.
    Found(usize, usize),
    /// The partial sum already exceeds anything the remainder could hold.
    Overrun,
    /// The chain ran off the end of the buffer.
    Unterminated,
}

/// Scan the padding chain at the front of `data`, stopping early once the
/// sum provably exceeds the buffer.
fn padding_scan(data: &[u8]) -> (r: PadScan)
    requires
        data@.len() < usize::MAX - 1275,
    ensures
        match r {
            PadScan::Found(p, c) => {
                &&& spec_padding(data@) == Some((p as int, c as int))
                &&& 1 <= c <= data@.len()
                &&& p <= 255 * c
            },
            PadScan::Overrun => match spec_padding(data@) {
                None => true,
                Some(pc) => pc.0 > data@.len() - pc.1,
            },
            PadScan::Unterminated => spec_padding(data@) is None,
        },
{
    let mut i: usize = 0;
    let mut acc: usize = 0;
    while i < data.len()
        invariant
            0 <= i <= data@.len(),
            acc == 255 * i,
            acc <= data@.len(),
            data@.len() < usize::MAX - 1275,
            forall|j: int| 0 <= j < i ==> data@[j] == 255,
        decreases data@.len() - i,
    {
        let v = data[i];
        if v != 255 {
            proof {
                lemma_padding_prefix(data@, i as int);
            }
            return PadScan::Found(acc + (v as usize), i + 1);
        }
        if acc + 255 > data.len() {
            proof {
                assert(data@[i as int] == 255);
                lemma_padding_prefix(data@, i as int + 1);
                lemma_padding_props(data@.skip(i as int + 1));
            }
            return PadScan::Overrun;
        }
        acc = acc + 255;
        i = i + 1;
    }
    proof {
        lemma_padding_prefix(data@, data@.len() as int);
        assert(data@.skip(data@.len() as int).len() == 0);
    }
    PadScan::Unterminated
}

/// Frame duration of a transform-mode configuration.
fn celt_frame_size(val: u8) -> (r: FrameSize)
    requires
        16 <= val < 32,
    ensures
        r == spec_toc_frame_size(val as int),
{
    let m = val % 4;
    if m == 0 {
        FrameSize::Ms2_5
    } else if m == 1 {
        FrameSize::Ms5
    } else if m == 2 {
        FrameSize::Ms10
    } else {
        FrameSize::Ms20
    }
}

/// Bandwidth of a transform-mode configuration.
fn celt_bandwidth(val: u8) -> (r: Bandwidth)
    requires
        16 <= val < 32,
    ensures
        r == spec_toc_bandwidth(val as int),
{
    let m = (val / 4) % 4;
    if m == 0 {
        Bandwidth::Narrow
    } else if m == 1 {
        Bandwidth::Wide
    } else if m == 2 {
        Bandwidth::SuperWide
    } else {
        Bandwidth::Full
    }
}

/// Frame duration of a hybrid-mode configuration.
fn hybrid_frame_size(val: u8) -> (r: FrameSize)
    requires
        12 <= val < 16,
    ensures
        r == spec_toc_frame_size(val as int),
{
    if val % 2 == 0 {
        FrameSize::Ms10
    } else {
        FrameSize::Ms20
    }
}

/// Bandwidth of a hybrid-mode configuration.
fn hybrid_bandwidth(val: u8) -> (r: Bandwidth)
    requires
        12 <= val < 16,
    ensures
        r == spec_toc_bandwidth(val as int),
{
    if (val / 2) % 2 == 0 {
        Bandwidth::SuperWide
    } else {
        Bandwidth::Full
    }
}

/// Frame duration of a linear-prediction-mode configuration.
fn silk_frame_size(val: u8) -> (r: FrameSize)
    requires
        val < 12,
    ensures
        r == spec_toc_frame_size(val as int),
{
    let m = val % 4;
    if m == 0 {
        FrameSize::Ms10
    } else if m == 1 {
        FrameSize::Ms20
    } else if m == 2 {
        FrameSize::Ms40
    } else {
        FrameSize::Ms60
    }
}

/// Bandwidth of a linear-prediction-mode configuration.
fn silk_bandwidth(val: u8) -> (r: Bandwidth)
    requires
        val < 12,
    ensures
        r == spec_toc_bandwidth(val as int),
{
    let m = (val / 4) % 4;
    if m == 0 {
        Bandwidth::Narrow
    } else if m == 1 {
        Bandwidth::Medium
    } else {
        Bandwidth::Wide
    }
}

/// Lazy, finite, non-restartable iteration over the byte-range views of a
/// packet's elementary frames.
pub struct Frames<'a> {
    length: PacketLength<'a>,
    data: &'a [u8],
    second: bool,
}

/// Abstract view of a [`Frames`] iteration state.
pub ghost struct FramesModel {
    pub length: LengthModel,
    pub data: Seq<u8>,
    pub second: bool,
}

impl<'a> View for Frames<'a> {
    type V = FramesModel;

    closed spec fn view(&self) -> FramesModel {
        FramesModel { length: self.length@, data: self.data@, second: self.second }
    }
}

/// What iteration relies on in a state: the parse-time length guarantees,
/// unless the state already yields the whole remainder in one piece. The
/// constant-bitrate scheme cuts equal frames to the end, so its guarantee is
/// never discharged.
pub open spec fn frames_wf(f: FramesModel) -> bool {
    match f.length {
        LengthModel::VariableCbr(_) => length_wf(f.length, f.data),
        _ => f.second || length_wf(f.length, f.data),
    }
}

/// The frame yielded from a non-empty state, and the state after it.
pub open spec fn frames_step(f: FramesModel) -> (Seq<u8>, FramesModel) {
    let finished = FramesModel { data: Seq::empty(), ..f };
    match f.length {
        LengthModel::Single => (f.data, finished),
        LengthModel::DoubleEq => {
            if f.second {
                (f.data, finished)
            } else {
                let half = f.data.len() as int / 2;
                (
                    f.data.take(half),
                    FramesModel { data: f.data.skip(half), second: true, ..f },
                )
            }
        },
        LengthModel::Double(num) => {
            if f.second {
                (f.data, finished)
            } else {
                (
                    f.data.take(num),
                    FramesModel { data: f.data.skip(num), second: true, ..f },
                )
            }
        },
        LengthModel::VariableCbr(num) => (
            f.data.take(num),
            FramesModel { data: f.data.skip(num), ..f },
        ),
        LengthModel::VariableVbr(lengths) => {
            if f.second || lengths.len() == 0 {
                (f.data, finished)
            } else {
                match spec_varint(lengths) {
                    Ok((l, c)) => (
                        f.data.take(l),
                        FramesModel {
                            length: LengthModel::VariableVbr(lengths.skip(c)),
                            data: f.data.skip(l),
                            second: lengths.skip(c).len() == 0,
                            ..f
                        },
                    ),
                    Err(_) => (f.data, finished),
                }
            }
        },
    }
}

/// Total length of a sequence of frames.
pub open spec fn sum_lens(frames: Seq<Seq<u8>>) -> int
    decreases frames.len(),
{
    if frames.len() == 0 {
        0
    } else {
        frames[0].len() + sum_lens(frames.skip(1))
    }
}

/// The frames yielded from a state, bounded by a fuel that the payload
/// length always covers for a well-formed state.
pub open spec fn frames_seq_rec(f: FramesModel, fuel: int) -> Seq<Seq<u8>>
    decreases fuel,
{
    if f.data.len() == 0 || fuel <= 0 {
        Seq::empty()
    } else {
        let s = frames_step(f);
        seq![s.0] + frames_seq_rec(s.1, fuel - 1)
    }
}

/// All frames yielded from a state, in order.
pub open spec fn frames_seq(f: FramesModel) -> Seq<Seq<u8>> {
    frames_seq_rec(f, f.data.len() as int)
}

/// One step from a non-empty well-formed state yields a non-empty frame cut
/// from the front of the payload and leaves a well-formed state over the
/// remainder.
pub proof fn lemma_step_preserves(f: FramesModel)
    requires
        frames_wf(f),
        f.data.len() > 0,
    ensures
        frames_wf(frames_step(f).1),
        1 <= frames_step(f).0.len() <= f.data.len(),
        frames_step(f).1.data.len() == f.data.len() - frames_step(f).0.len(),
{
    let s = frames_step(f);
    match f.length {
        LengthModel::Single => {},
        LengthModel::DoubleEq => {},
        LengthModel::Double(num) => {},
        LengthModel::VariableCbr(num) => {
            let len = f.data.len() as int;
            if num > len {
                vstd::arithmetic::div_mod::lemma_small_mod(len as nat, num as nat);
            }
            assert((len - num) % num == 0) by (nonlinear_arith)
                requires
                    len % num == 0,
                    1 <= num <= len,
            ;
        },
        LengthModel::VariableVbr(lengths) => {},
    }
}

/// The yielded frames do not depend on the fuel, once it covers the payload.
proof fn lemma_frames_seq_fuel(f: FramesModel, fuel1: int, fuel2: int)
    requires
        frames_wf(f),
        fuel1 >= f.data.len(),
        fuel2 >= f.data.len(),
    ensures
        frames_seq_rec(f, fuel1) == frames_seq_rec(f, fuel2),
    decreases fuel1,
{
    if f.data.len() > 0 {
        let s = frames_step(f);
        lemma_step_preserves(f);
        lemma_frames_seq_fuel(s.1, fuel1 - 1, fuel2 - 1);
    }
}

/// Iteration from a non-empty well-formed state yields one step's frame and
/// then iterates the successor state.
pub proof fn lemma_frames_seq_unfold(f: FramesModel)
    requires
        frames_wf(f),
        f.data.len() > 0,
    ensures
        frames_seq(f) == seq![frames_step(f).0] + frames_seq(frames_step(f).1),
{
    let s = frames_step(f);
    lemma_step_preserves(f);
    lemma_frames_seq_fuel(s.1, f.data.len() as int - 1, s.1.data.len() as int);
}

/// Sum of the yields from a state, by induction over the fuel.
proof fn lemma_frames_total_rec(f: FramesModel, fuel: int)
    requires
        frames_wf(f),
        fuel >= f.data.len(),
    ensures
        sum_lens(frames_seq_rec(f, fuel)) == f.data.len(),
    decreases fuel,
{
    if f.data.len() > 0 {
        let s = frames_step(f);
        lemma_step_preserves(f);
        lemma_frames_total_rec(s.1, fuel - 1);
        let whole = seq![s.0] + frames_seq_rec(s.1, fuel - 1);
        assert(whole.skip(1) =~= frames_seq_rec(s.1, fuel - 1));
        assert(whole[0] == s.0);
    }
}

/// The yielded frames partition the payload: their lengths sum to exactly
/// the payload length. For a variable-bitrate packet the payload is what
/// remained after any padding was stripped at parse time.
pub proof fn lemma_frames_total(f: FramesModel)
    requires
        frames_wf(f),
    ensures
        sum_lens(frames_seq(f)) == f.data.len(),
{
    lemma_frames_total_rec(f, f.data.len() as int);
}

impl<'a> Packet<'a> {
    /// Begin iterating this packet's elementary frames.
    pub fn frames(&self) -> (r: Frames<'a>)
        requires
            packet_wf(self@),
        ensures
            r@ == (FramesModel { length: self@.length, data: self@.data, second: false }),
            frames_wf(r@),
    {
        Frames { length: self.length, data: self.data, second: false }
    }
}

impl<'a> Frames<'a> {
    /// Yield the next elementary frame's byte range, or `None` once the
    /// payload is exhausted.
    pub fn next(&mut self) -> (r: Option<&'a [u8]>)
        requires
            frames_wf(old(self)@),
        ensures
            frames_wf(final(self)@),
            match r {
                None => old(self)@.data.len() == 0 && final(self)@ == old(self)@,
                Some(frame) => {
                    &&& old(self)@.data.len() > 0
                    &&& frame@ == frames_step(old(self)@).0
                    &&& final(self)@ == frames_step(old(self)@).1
                },
            },
    {
        proof {
            if self@.data.len() > 0 {
                lemma_step_preserves(self@);
            }
        }
        if self.data.len() == 0 {
            return None;
        }
        let scheme = self.length;
        match scheme {
            PacketLength::Single => {
                let ret = self.data;
                self.data = self.data.split_at(self.data.len()).1;
                proof {
                    assert(self@.data =~= Seq::<u8>::empty());
                }
                Some(ret)
            },
            PacketLength::DoubleEq => {
                if self.second {
                    let ret = self.data;
                    self.data = self.data.split_at(self.data.len()).1;
                    proof {
                        assert(self@.data =~= Seq::<u8>::empty());
                    }
                    Some(ret)
                } else {
                    let pair = self.data.split_at(self.data.len() / 2);
                    proof {
                        assert(pair.0@ =~= self@.data.take(self@.data.len() as int / 2));
                        assert(pair.1@ =~= self@.data.skip(self@.data.len() as int / 2));
                    }
                    self.data = pair.1;
                    self.second = true;
                    Some(pair.0)
                }
            },
            PacketLength::Double(num) => {
                if self.second {
                    let ret = self.data;
                    self.data = self.data.split_at(self.data.len()).1;
                    proof {
                        assert(self@.data =~= Seq::<u8>::empty());
                    }
                    Some(ret)
                } else {
                    let pair = self.data.split_at(num as usize);
                    proof {
                        assert(pair.0@ =~= self@.data.take(num as int));
                        assert(pair.1@ =~= self@.data.skip(num as int));
                    }
                    self.data = pair.1;
                    self.second = true;
                    Some(pair.0)
                }
            },
            PacketLength::VariableCbr(num) => {
                proof {
                    let len = self@.data.len() as int;
                    if num as int > len {
                        vstd::arithmetic::div_mod::lemma_small_mod(len as nat, num as nat);
                        assert(false);
                    }
                }
                let pair = self.data.split_at(num as usize);
                proof {
                    assert(pair.0@ =~= self@.data.take(num as int));
                    assert(pair.1@ =~= self@.data.skip(num as int));
                }
                self.data = pair.1;
                Some(pair.0)
            },
            PacketLength::VariableVbr(lengths) => {
                if self.second || lengths.len() == 0 {
                    let ret = self.data;
                    self.data = self.data.split_at(self.data.len()).1;
                    proof {
                        assert(self@.data =~= Seq::<u8>::empty());
                    }
                    Some(ret)
                } else {
                    match varint(lengths) {
                        Err(_) => {
                            proof {
                                assert(false);
                            }
                            None
                        },
                        Ok((l, c)) => {
                            let rest_lengths = lengths.split_at(c).1;
                            proof {
                                assert(rest_lengths@ =~= lengths@.skip(c as int));
                            }
                            let pair = self.data.split_at(l as usize);
                            proof {
                                assert(pair.0@ =~= self@.data.take(l as int));
                                assert(pair.1@ =~= self@.data.skip(l as int));
                            }
                            self.data = pair.1;
                            if rest_lengths.len() == 0 {
                                self.second = true;
                            }
                            self.length = PacketLength::VariableVbr(rest_lengths);
                            Some(pair.0)
                        },
                    }
                }
            },
        }
    }
}

} // verus!
