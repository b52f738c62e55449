//! The CoAP wire format as mathematics: what a datagram decodes to, what a
//! message encodes to, and the laws that tie the two together.
use vstd::prelude::*;

use crate::packet::{spec_class_to_code, spec_code_to_class, PackageError, PacketClass, ParseError};

verus! {

/// The largest value that an option delta or length can carry on the wire:
/// a two-byte extension plus 269.
pub const MAX_EXTENDED: usize = 65804;

/// The largest datagram that the encoder produces (the IPv6 minimum MTU).
pub const MAX_MESSAGE_LEN: usize = 1280;

/// The payload marker that separates the options from the payload.
pub const PAYLOAD_MARKER: u8 = 0xFF;

/// A message as mathematics.
///
/// `options` holds one entry per option number, in ascending order of
/// number; each entry keeps its values in insertion order.
pub struct PacketModel {
    pub ver_type_tkl: u8,
    pub code: PacketClass,
    pub message_id: u16,
    pub token: Seq<u8>,
    pub options: Seq<(usize, Seq<Seq<u8>>)>,
    pub payload: Seq<u8>,
}

/// The message that a new packet holds: all header bits zero, code `Empty`,
/// no token, options or payload.
pub open spec fn empty_model() -> PacketModel {
    PacketModel {
        ver_type_tkl: 0,
        code: PacketClass::Empty,
        message_id: 0,
        token: seq![],
        options: seq![],
        payload: seq![],
    }
}

impl PacketModel {
    /// The version field (top two bits of the first header byte).
    pub open spec fn version(self) -> u8 {
        self.ver_type_tkl / 64
    }

    /// The type field (middle two bits of the first header byte).
    pub open spec fn type_bits(self) -> u8 {
        (self.ver_type_tkl / 16) % 4
    }

    /// The token length field (low four bits of the first header byte).
    pub open spec fn token_length(self) -> u8 {
        self.ver_type_tkl % 16
    }

    /// Option numbers strictly ascend.
    pub open spec fn options_ordered(self) -> bool {
        options_ordered(self.options)
    }

    /// A message that the codec reproduces: the token length field counts
    /// the token, the token fits the header, option numbers ascend and no
    /// option number is present without a value.
    pub open spec fn well_formed(self) -> bool {
        &&& self.token.len() <= 8
        &&& self.token_length() == self.token.len()
        &&& self.options_ordered()
        &&& forall|i: int| 0 <= i < self.options.len() ==> #[trigger] self.options[i].1.len() > 0
    }
}

pub open spec fn options_ordered(opts: Seq<(usize, Seq<Seq<u8>>)>) -> bool {
    forall|i: int, j: int| 0 <= i < j < opts.len() ==> opts[i].0 < opts[j].0
}

// ---------------------------------------------------------------------------
// Options as the wire sees them: a flat sequence of (number, value) pairs.

/// The wire pairs of one option entry, in insertion order.
pub open spec fn entry_pairs(e: (usize, Seq<Seq<u8>>)) -> Seq<(usize, Seq<u8>)> {
    Seq::new(e.1.len(), |j: int| (e.0, e.1[j]))
}

/// All wire pairs: numbers ascending, values of one number in insertion order.
pub open spec fn flatten_options(opts: Seq<(usize, Seq<Seq<u8>>)>) -> Seq<(usize, Seq<u8>)>
    decreases opts.len(),
{
    if opts.len() == 0 {
        seq![]
    } else {
        flatten_options(opts.drop_last()) + entry_pairs(opts.last())
    }
}

/// Adds one decoded pair at the end: to the last entry when it has the same
/// number, else as a new entry.
pub open spec fn push_option(opts: Seq<(usize, Seq<Seq<u8>>)>, number: usize, value: Seq<u8>) -> Seq<
    (usize, Seq<Seq<u8>>),
> {
    if opts.len() > 0 && opts.last().0 == number {
        opts.update(opts.len() - 1, (number, opts.last().1.push(value)))
    } else {
        opts.push((number, seq![value]))
    }
}

/// The option entries that a sequence of wire pairs builds.
pub open spec fn group_options(flat: Seq<(usize, Seq<u8>)>) -> Seq<(usize, Seq<Seq<u8>>)>
    decreases flat.len(),
{
    if flat.len() == 0 {
        seq![]
    } else {
        push_option(group_options(flat.drop_last()), flat.last().0, flat.last().1)
    }
}

/// The option number written before the next pair (0 at the start).
pub open spec fn last_number(flat: Seq<(usize, Seq<u8>)>) -> usize {
    if flat.len() == 0 {
        0
    } else {
        flat.last().0
    }
}

/// Every pair's number is at least the previous one, and each delta fits
/// the wire's extended form.
pub open spec fn deltas_fit(flat: Seq<(usize, Seq<u8>)>) -> bool
    decreases flat.len(),
{
    flat.len() == 0 || {
        &&& deltas_fit(flat.drop_last())
        &&& last_number(flat.drop_last()) <= flat.last().0
        &&& flat.last().0 - last_number(flat.drop_last()) <= MAX_EXTENDED
    }
}

// ---------------------------------------------------------------------------
// Option headers.

/// The four-bit form of a delta or a length.
pub open spec fn nibble_of(x: nat) -> nat {
    if x <= 12 {
        x
    } else if x < 269 {
        13
    } else {
        14
    }
}

/// The extension bytes that follow the first byte for a delta or a length.
pub open spec fn extension_bytes(x: nat) -> Seq<u8> {
    if x <= 12 {
        seq![]
    } else if x < 269 {
        seq![(x - 13) as u8]
    } else {
        seq![((x - 269) / 256) as u8, ((x - 269) % 256) as u8]
    }
}

/// One option on the wire: header byte, delta extension, length extension,
/// value.
pub open spec fn option_bytes(delta: nat, value: Seq<u8>) -> Seq<u8> {
    seq![(nibble_of(delta) * 16 + nibble_of(value.len())) as u8] + extension_bytes(delta)
        + extension_bytes(value.len()) + value
}

/// The wire form of a sequence of pairs.
pub open spec fn options_bytes(flat: Seq<(usize, Seq<u8>)>) -> Seq<u8>
    decreases flat.len(),
{
    if flat.len() == 0 {
        seq![]
    } else {
        options_bytes(flat.drop_last()) + option_bytes(
            (flat.last().0 - last_number(flat.drop_last())) as nat,
            flat.last().1,
        )
    }
}

/// Reads the extended form of a nibble at `i`: the value and the number of
/// extension bytes, or `None` when the nibble is 15 or the bytes run out.
pub open spec fn read_extended(b: Seq<u8>, nib: nat, i: int) -> Option<(nat, nat)> {
    if nib <= 12 {
        Some((nib, 0))
    } else if nib == 13 {
        if i < b.len() {
            Some(((b[i] + 13) as nat, 1))
        } else {
            None
        }
    } else if nib == 14 {
        if i + 1 < b.len() {
            Some(((b[i] * 256 + b[i + 1] + 269) as nat, 2))
        } else {
            None
        }
    } else {
        None
    }
}

/// Reads the header of the option at `i` (`b[i]` is not the marker):
/// delta, length and the header's size in bytes.
pub open spec fn read_option_header(b: Seq<u8>, i: int) -> Result<(nat, nat, nat), ParseError> {
    let delta_nib = (b[i] / 16) as nat;
    let length_nib = (b[i] % 16) as nat;
    if delta_nib == 15 {
        Err(ParseError::InvalidOptionDelta)
    } else {
        match read_extended(b, delta_nib, i + 1) {
            None => Err(ParseError::InvalidOptionLength),
            Some((delta, dsize)) => if length_nib == 15 {
                Err(ParseError::InvalidOptionLength)
            } else {
                match read_extended(b, length_nib, i + 1 + dsize) {
                    None => Err(ParseError::InvalidOptionLength),
                    Some((length, lsize)) => Ok((delta, length, 1 + dsize + lsize)),
                }
            },
        }
    }
}

/// Walks the options from `i` with running option number `number`, having
/// read the pairs `flat`: all pairs and where the payload starts.
pub open spec fn parse_options(b: Seq<u8>, i: int, number: usize, flat: Seq<(usize, Seq<u8>)>) -> Result<
    (Seq<(usize, Seq<u8>)>, int),
    ParseError,
>
    decreases b.len() - i,
{
    if i < 0 || i >= b.len() {
        Ok((flat, b.len() as int))
    } else if b[i] == PAYLOAD_MARKER {
        Ok((flat, i + 1))
    } else {
        match read_option_header(b, i) {
            Err(e) => Err(e),
            Ok((delta, length, hsize)) => {
                let start = i + hsize;
                if number + delta > usize::MAX {
                    Err(ParseError::InvalidOptionDelta)
                } else if start + length > b.len() {
                    Err(ParseError::InvalidOptionLength)
                } else {
                    parse_options(
                        b,
                        start + length,
                        (number + delta) as usize,
                        flat.push(((number + delta) as usize, b.subrange(start, start + length))),
                    )
                }
            },
        }
    }
}

/// What a datagram decodes to.
pub open spec fn spec_decode(b: Seq<u8>) -> Result<PacketModel, ParseError> {
    if b.len() < 4 {
        Err(ParseError::InvalidHeader)
    } else {
        let tkl = (b[0] % 16) as int;
        if tkl > 8 || 4 + tkl > b.len() {
            Err(ParseError::InvalidTokenLength)
        } else {
            match parse_options(b, 4 + tkl, 0, seq![]) {
                Err(e) => Err(e),
                Ok((flat, payload_start)) => Ok(
                    PacketModel {
                        ver_type_tkl: b[0],
                        code: spec_code_to_class(b[1]),
                        message_id: (b[2] * 256 + b[3]) as u16,
                        token: b.subrange(4, 4 + tkl),
                        options: group_options(flat),
                        payload: b.subrange(payload_start, b.len() as int),
                    },
                ),
            }
        }
    }
}

/// The four header bytes: version/type/token length, code, message id
/// (big-endian).
pub open spec fn header_bytes(m: PacketModel) -> Seq<u8> {
    seq![
        m.ver_type_tkl,
        spec_class_to_code(m.code),
        (m.message_id / 256) as u8,
        (m.message_id % 256) as u8,
    ]
}

/// Header, token and options: everything before the payload marker.
pub open spec fn frame_bytes(m: PacketModel) -> Seq<u8> {
    header_bytes(m) + m.token + options_bytes(flatten_options(m.options))
}

/// The marker and the payload, written only for a non-empty payload of a
/// message whose code is not `Empty`.
pub open spec fn payload_bytes(m: PacketModel) -> Seq<u8> {
    if m.code != PacketClass::Empty && m.payload.len() > 0 {
        seq![PAYLOAD_MARKER] + m.payload
    } else {
        seq![]
    }
}

/// What a message encodes to.
pub open spec fn spec_encode(m: PacketModel) -> Result<Seq<u8>, PackageError> {
    if !deltas_fit(flatten_options(m.options)) {
        Err(PackageError::InvalidHeader)
    } else if frame_bytes(m).len() + payload_bytes(m).len() > MAX_MESSAGE_LEN {
        Err(PackageError::InvalidPacketLength)
    } else {
        Ok(frame_bytes(m) + payload_bytes(m))
    }
}

// ---------------------------------------------------------------------------
// Executable decoding.

/// The values of one option entry as mathematics.
pub open spec fn values_view(vs: Seq<Vec<u8>>) -> Seq<Seq<u8>> {
    vs.map_values(|v: Vec<u8>| v@)
}

/// Option entries as mathematics.
pub open spec fn entries_view(es: Seq<(usize, Vec<Vec<u8>>)>) -> Seq<(usize, Seq<Seq<u8>>)> {
    es.map_values(|e: (usize, Vec<Vec<u8>>)| (e.0, values_view(e.1@)))
}

/// Copies `buf[from..to]`.
pub(crate) fn copy_range(buf: &[u8], from: usize, to: usize) -> (r: Vec<u8>)
    requires
        from <= to <= buf@.len(),
    ensures
        r@ == buf@.subrange(from as int, to as int),
{
    let mut r: Vec<u8> = Vec::new();
    let mut i: usize = from;
    while i < to
        invariant
            from <= i <= to <= buf@.len(),
            r@ == buf@.subrange(from as int, i as int),
        decreases to - i,
    {
        r.push(buf[i]);
        i = i + 1;
        assert(r@ =~= buf@.subrange(from as int, i as int));
    }
    r
}

/// Reads the extended form of `nib` from `buf[i..]`: value and extension size.
fn read_extended_exec(buf: &[u8], nib: u8, i: usize) -> (r: Option<(usize, usize)>)
    requires
        nib < 16,
        i <= buf@.len(),
    ensures
        match read_extended(buf@, nib as nat, i as int) {
            None => r is None,
            Some((value, size)) => {
                &&& r == Some((value as usize, size as usize))
                &&& value <= MAX_EXTENDED
                &&& i + size <= buf@.len()
            },
        },
{
    if nib <= 12 {
        Some((nib as usize, 0))
    } else if nib == 13 {
        if i < buf.len() {
            Some((buf[i] as usize + 13, 1))
        } else {
            None
        }
    } else if nib == 14 {
        if i < buf.len() && i + 1 < buf.len() {
            Some((buf[i] as usize * 256 + buf[i + 1] as usize + 269, 2))
        } else {
            None
        }
    } else {
        None
    }
}

/// Adds a decoded pair to the end of the option entries.
fn push_value(entries: &mut Vec<(usize, Vec<Vec<u8>>)>, number: usize, value: Vec<u8>)
    ensures
        entries_view(final(entries)@) == push_option(entries_view(old(entries)@), number, value@),
        final(entries)@.len() > 0,
        final(entries)@.last().0 == number,
{
    let len = entries.len();
    if len > 0 && entries[len - 1].0 == number {
        let popped = entries.pop();
        match popped {
            Some(last) => {
                let (n, mut values) = last;
                let ghost old_values = values@;
                values.push(value);
                assert(values_view(values@) =~= values_view(old_values).push(value@));
                entries.push((n, values));
            },
            None => {},
        }
        assert(entries_view(entries@) =~~= push_option(entries_view(old(entries)@), number, value@));
    } else {
        let mut values: Vec<Vec<u8>> = Vec::new();
        values.push(value);
        assert(values_view(values@) =~= seq![value@]);
        entries.push((number, values));
        assert(entries_view(entries@) =~~= push_option(entries_view(old(entries)@), number, value@));
    }
}

/// Decodes the options that start at `start`: the option entries and the
/// index where the payload starts.
pub fn decode_options(buf: &[u8], start: usize) -> (r: Result<(Vec<(usize, Vec<Vec<u8>>)>, usize), ParseError>)
    requires
        start <= buf@.len(),
    ensures
        match (r, parse_options(buf@, start as int, 0, seq![])) {
            (Ok((es, ps)), Ok((flat, p))) => {
                &&& ps == p
                &&& ps <= buf@.len()
                &&& entries_view(es@) == group_options(flat)
                &&& options_ordered(entries_view(es@))
            },
            (Err(e1), Err(e2)) => e1 == e2,
            _ => false,
        },
{
    let mut entries: Vec<(usize, Vec<Vec<u8>>)> = Vec::new();
    let mut idx: usize = start;
    let mut number: usize = 0;
    let ghost mut flat: Seq<(usize, Seq<u8>)> = seq![];
    while idx < buf.len()
        invariant
            idx <= buf@.len(),
            parse_options(buf@, idx as int, number, flat) == parse_options(buf@, start as int, 0, seq![]),
            entries_view(entries@) == group_options(flat),
            options_ordered(entries_view(entries@)),
            entries@.len() > 0 ==> entries@.last().0 <= number,
        decreases buf@.len() - idx,
    {
        let byte = buf[idx];
        if byte == PAYLOAD_MARKER {
            return Ok((entries, idx + 1));
        }
        let delta_nib = byte / 16;
        let length_nib = byte % 16;
        if delta_nib == 15 {
            return Err(ParseError::InvalidOptionDelta);
        }
        let (delta, dsize) = match read_extended_exec(buf, delta_nib, idx + 1) {
            None => {
                return Err(ParseError::InvalidOptionLength);
            },
            Some(p) => p,
        };
        if length_nib == 15 {
            return Err(ParseError::InvalidOptionLength);
        }
        let (length, lsize) = match read_extended_exec(buf, length_nib, idx + 1 + dsize) {
            None => {
                return Err(ParseError::InvalidOptionLength);
            },
            Some(p) => p,
        };
        let value_start = idx + 1 + dsize + lsize;
        if delta > usize::MAX - number {
            return Err(ParseError::InvalidOptionDelta);
        }
        if length > buf.len() - value_start {
            return Err(ParseError::InvalidOptionLength);
        }
        number = number + delta;
        let value = copy_range(buf, value_start, value_start + length);
        let ghost before = entries_view(entries@);
        push_value(&mut entries, number, value);
        proof {
            let prev_flat = flat;
            flat = flat.push((number, value@));
            assert(flat.drop_last() =~= prev_flat);
            assert forall|i: int, j: int|
                0 <= i < j < entries_view(entries@).len() implies entries_view(entries@)[i].0
                < entries_view(entries@)[j].0 by {
                if j == before.len() {
                    if i < before.len() - 1 {
                        assert(before[i].0 < before[before.len() - 1].0);
                    }
                }
            }
        }
        idx = value_start + length;
    }
    Ok((entries, buf.len()))
}

// ---------------------------------------------------------------------------
// Executable encoding.

/// Extending a sequence of pairs by one pair extends its flat form, its
/// wire form and its delta condition by that pair alone.
proof fn lemma_push_pair(flat: Seq<(usize, Seq<u8>)>, p: (usize, Seq<u8>))
    ensures
        flat.push(p).drop_last() == flat,
        deltas_fit(flat.push(p)) == (deltas_fit(flat) && last_number(flat) <= p.0 && p.0
            - last_number(flat) <= MAX_EXTENDED),
        options_bytes(flat.push(p)) == options_bytes(flat) + option_bytes(
            (p.0 - last_number(flat)) as nat,
            p.1,
        ),
        last_number(flat.push(p)) == p.0,
{
    assert(flat.push(p).drop_last() =~= flat);
}

/// The delta condition holds of every prefix of a sequence that meets it.
proof fn lemma_deltas_fit_prefix(flat: Seq<(usize, Seq<u8>)>, k: int)
    requires
        deltas_fit(flat),
        0 <= k <= flat.len(),
    ensures
        deltas_fit(flat.take(k)),
    decreases flat.len(),
{
    if k == flat.len() {
        assert(flat.take(k) =~= flat);
    } else {
        lemma_deltas_fit_prefix(flat.drop_last(), k);
        assert(flat.drop_last().take(k) =~= flat.take(k));
    }
}

/// The pairs of the first `i` entries begin the pairs of all entries.
proof fn lemma_flatten_prefix(opts: Seq<(usize, Seq<Seq<u8>>)>, i: int)
    requires
        0 <= i <= opts.len(),
    ensures
        flatten_options(opts.take(i)).len() <= flatten_options(opts).len(),
        flatten_options(opts).take(flatten_options(opts.take(i)).len() as int) == flatten_options(
            opts.take(i),
        ),
    decreases opts.len(),
{
    if i == opts.len() {
        assert(opts.take(i) =~= opts);
        assert(flatten_options(opts).take(flatten_options(opts).len() as int) =~= flatten_options(
            opts,
        ));
    } else {
        lemma_flatten_prefix(opts.drop_last(), i);
        assert(opts.drop_last().take(i) =~= opts.take(i));
        let whole = flatten_options(opts);
        let front = flatten_options(opts.drop_last());
        let pre = flatten_options(opts.take(i));
        assert(whole.take(pre.len() as int) =~= front.take(pre.len() as int));
    }
}

/// The pairs of the first `i + 1` entries: those of the first `i`, then
/// entry `i`'s.
proof fn lemma_flatten_take_step(opts: Seq<(usize, Seq<Seq<u8>>)>, i: int)
    requires
        0 <= i < opts.len(),
    ensures
        flatten_options(opts.take(i + 1)) == flatten_options(opts.take(i)) + entry_pairs(opts[i]),
{
    assert(opts.take(i + 1).drop_last() =~= opts.take(i));
}

/// Appends `bytes` to `out`.
pub(crate) fn append_bytes(out: &mut Vec<u8>, bytes: &[u8])
    ensures
        final(out)@ == old(out)@ + bytes@,
{
    let mut i: usize = 0;
    while i < bytes.len()
        invariant
            i <= bytes@.len(),
            out@ == old(out)@ + bytes@.take(i as int),
        decreases bytes@.len() - i,
    {
        out.push(bytes[i]);
        i = i + 1;
        assert(out@ =~= old(out)@ + bytes@.take(i as int));
    }
    assert(bytes@.take(i as int) =~= bytes@);
}

fn nibble_exec(x: usize) -> (r: u8)
    ensures
        r as nat == nibble_of(x as nat),
{
    if x <= 12 {
        x as u8
    } else if x < 269 {
        13
    } else {
        14
    }
}

fn push_extension(out: &mut Vec<u8>, x: usize)
    ensures
        final(out)@ == old(out)@ + extension_bytes(x as nat),
{
    if x <= 12 {
        assert(old(out)@ + extension_bytes(x as nat) =~= old(out)@);
    } else if x < 269 {
        out.push((x - 13) as u8);
        assert(out@ =~= old(out)@ + extension_bytes(x as nat));
    } else {
        out.push(((x - 269) / 256) as u8);
        out.push(((x - 269) % 256) as u8);
        assert(out@ =~= old(out)@ + extension_bytes(x as nat));
    }
}

/// Writes one option with the given delta.
fn write_option(out: &mut Vec<u8>, delta: usize, value: &Vec<u8>)
    ensures
        final(out)@ == old(out)@ + option_bytes(delta as nat, value@),
{
    let first = nibble_exec(delta) * 16 + nibble_exec(value.len());
    out.push(first);
    push_extension(out, delta);
    push_extension(out, value.len());
    append_bytes(out, value.as_slice());
    assert(out@ =~= old(out)@ + option_bytes(delta as nat, value@));
}

/// Writes the options in wire order: ascending number, then insertion order.
pub fn encode_options(opts: &Vec<(usize, Vec<Vec<u8>>)>, out: &mut Vec<u8>) -> (r: Result<(), PackageError>)
    ensures
        match r {
            Ok(()) => {
                &&& deltas_fit(flatten_options(entries_view(opts@)))
                &&& final(out)@ == old(out)@ + options_bytes(flatten_options(entries_view(opts@)))
            },
            Err(e) => {
                &&& e == PackageError::InvalidHeader
                &&& !deltas_fit(flatten_options(entries_view(opts@)))
                &&& final(out)@ == old(out)@
            },
        },
{
    let ghost eo = entries_view(opts@);
    let ghost start = out@;
    let mut written: Vec<u8> = Vec::new();
    let mut prev: usize = 0;
    let mut i: usize = 0;
    while i < opts.len()
        invariant
            i <= opts@.len(),
            eo == entries_view(opts@),
            out@ == start,
            deltas_fit(flatten_options(eo.take(i as int))),
            prev == last_number(flatten_options(eo.take(i as int))),
            written@ == options_bytes(flatten_options(eo.take(i as int))),
        decreases opts@.len() - i,
    {
        let number = opts[i].0;
        let values = &opts[i].1;
        let ghost done = flatten_options(eo.take(i as int));
        let ghost pairs = entry_pairs(eo[i as int]);
        let mut j: usize = 0;
        while j < values.len()
            invariant
                i < opts@.len(),
                j <= values@.len(),
                eo == entries_view(opts@),
                out@ == start,
                number == opts@[i as int].0,
                *values == opts@[i as int].1,
                done == flatten_options(eo.take(i as int)),
                pairs == entry_pairs(eo[i as int]),
                deltas_fit(done + pairs.take(j as int)),
                prev == last_number(done + pairs.take(j as int)),
                written@ == options_bytes(done + pairs.take(j as int)),
            decreases values@.len() - j,
        {
            let ghost sofar = done + pairs.take(j as int);
            let ghost p = pairs[j as int];
            proof {
                assert(p == (number, values@[j as int]@));
                assert(sofar.push(p) =~= done + pairs.take(j + 1));
                lemma_push_pair(sofar, p);
            }
            if number < prev || number - prev > MAX_EXTENDED {
                proof {
                    lemma_flatten_take_step(eo, i as int);
                    lemma_flatten_prefix(eo, i + 1);
                    let whole = flatten_options(eo);
                    let upto = flatten_options(eo.take(i + 1));
                    assert(sofar.push(p) =~= upto.take(sofar.len() + 1int));
                    assert(whole.take(sofar.len() + 1int) =~= upto.take(sofar.len() + 1int));
                    if deltas_fit(whole) {
                        lemma_deltas_fit_prefix(whole, sofar.len() + 1int);
                    }
                }
                return Err(PackageError::InvalidHeader);
            }
            write_option(&mut written, number - prev, &values[j]);
            prev = number;
            j = j + 1;
        }
        proof {
            assert(pairs.take(j as int) =~= pairs);
            lemma_flatten_take_step(eo, i as int);
        }
        i = i + 1;
    }
    proof {
        assert(eo.take(i as int) =~= eo);
    }
    append_bytes(out, written.as_slice());
    Ok(())
}

// ---------------------------------------------------------------------------
// Laws.

/// A successful decode has exactly as many token bytes as its header's
/// token length field says.
pub proof fn lemma_decode_token_length(b: Seq<u8>)
    ensures
        spec_decode(b) matches Ok(m) ==> m.token.len() == m.token_length() && m.token.len() <= 8,
{
}

/// A message whose code is `Empty` encodes to its header, token and options
/// alone: no payload marker and no payload follow.
pub proof fn lemma_empty_code_has_no_payload(m: PacketModel)
    requires
        m.code == PacketClass::Empty,
    ensures
        spec_encode(m) matches Ok(b) ==> b == frame_bytes(m),
{
    assert(frame_bytes(m) + payload_bytes(m) =~= frame_bytes(m));
}

/// The delta written before pair `k` on the wire.
pub open spec fn delta_at(flat: Seq<(usize, Seq<u8>)>, k: int) -> int {
    flat[k].0 - last_number(flat.take(k))
}

/// The sum of the first `n` deltas.
pub open spec fn delta_sum(flat: Seq<(usize, Seq<u8>)>, n: int) -> int
    decreases n,
{
    if n <= 0 {
        0
    } else {
        delta_sum(flat, n - 1) + delta_at(flat, n - 1)
    }
}

/// Option numbers that the encoder writes never decrease, each delta is
/// non-negative, and the deltas up to and including option `i` add up to its
/// number.
pub proof fn lemma_wire_numbers(m: PacketModel, i: int)
    requires
        spec_encode(m) is Ok,
        0 <= i < flatten_options(m.options).len(),
    ensures
        delta_at(flatten_options(m.options), i) >= 0,
        delta_sum(flatten_options(m.options), i + 1) == flatten_options(m.options)[i].0,
        forall|j: int| 0 <= j < i ==> flatten_options(m.options)[j].0 <= flatten_options(m.options)[i].0,
{
    let flat = flatten_options(m.options);
    lemma_deltas_fit_prefix(flat, i + 1);
    lemma_delta_sum(flat, i + 1);
    lemma_fit_ascending(flat.take(i + 1));
    assert(flat.take(i + 1).drop_last() =~= flat.take(i));
    assert forall|j: int| 0 <= j < i implies flat[j].0 <= flat[i].0 by {
        assert(flat.take(i + 1)[j] == flat[j]);
        assert(flat.take(i + 1)[i] == flat[i]);
    }
}

/// Under the delta condition, the first `n` deltas add up to the number of
/// pair `n - 1`.
proof fn lemma_delta_sum(flat: Seq<(usize, Seq<u8>)>, n: int)
    requires
        0 <= n <= flat.len(),
        deltas_fit(flat.take(n)),
    ensures
        delta_sum(flat, n) == last_number(flat.take(n)),
    decreases n,
{
    if n > 0 {
        assert(flat.take(n).drop_last() =~= flat.take(n - 1));
        lemma_delta_sum(flat, n - 1);
    }
}

/// Under the delta condition, numbers never decrease.
proof fn lemma_fit_ascending(flat: Seq<(usize, Seq<u8>)>)
    requires
        deltas_fit(flat),
    ensures
        forall|i: int, j: int| 0 <= i <= j < flat.len() ==> flat[i].0 <= flat[j].0,
        flat.len() > 0 ==> forall|i: int| 0 <= i < flat.len() ==> flat[i].0 <= last_number(flat),
    decreases flat.len(),
{
    if flat.len() > 0 {
        let front = flat.drop_last();
        lemma_fit_ascending(front);
        assert forall|i: int| 0 <= i < flat.len() implies flat[i].0 <= last_number(flat) by {
            if i < front.len() {
                assert(flat[i] == front[i]);
                assert(front[i].0 <= last_number(front));
            }
        }
        assert forall|i: int, j: int| 0 <= i <= j < flat.len() implies flat[i].0 <= flat[j].0 by {
            if j < front.len() {
                assert(flat[i] == front[i]);
                assert(flat[j] == front[j]);
            }
        }
    }
}

/// Every class but `Reserved` is read back from its code byte, and so is
/// `Reserved` (written as `0xFF`).
proof fn lemma_class_survives_code(c: PacketClass)
    ensures
        spec_code_to_class(spec_class_to_code(c)) == c,
{
}

/// Reading back the extended form of a delta or length that fits.
proof fn lemma_read_extension(b: Seq<u8>, i: int, x: nat)
    requires
        x <= MAX_EXTENDED,
        0 <= i,
        i + extension_bytes(x).len() <= b.len(),
        b.subrange(i, i + extension_bytes(x).len()) == extension_bytes(x),
    ensures
        read_extended(b, nibble_of(x), i) == Some((x, extension_bytes(x).len())),
{
    let e = extension_bytes(x);
    if x > 12 && x < 269 {
        assert(b[i] == b.subrange(i, i + e.len())[0]);
    } else if x >= 269 {
        assert(b[i] == b.subrange(i, i + e.len())[0]);
        assert(b[i + 1] == b.subrange(i, i + e.len())[1]);
        let y = x - 269;
        assert(y == (y / 256) * 256 + y % 256);
    }
}

/// Decoding walks over one encoded option, adding its pair.
proof fn lemma_parse_step(
    b: Seq<u8>,
    q: int,
    n: usize,
    acc: Seq<(usize, Seq<u8>)>,
    d: nat,
    v: Seq<u8>,
)
    requires
        0 <= q,
        q + option_bytes(d, v).len() <= b.len() <= MAX_EXTENDED,
        b.subrange(q, q + option_bytes(d, v).len()) == option_bytes(d, v),
        d <= MAX_EXTENDED,
        n + d <= usize::MAX,
    ensures
        parse_options(b, q, n, acc) == parse_options(
            b,
            q + option_bytes(d, v).len(),
            (n + d) as usize,
            acc.push(((n + d) as usize, v)),
        ),
{
    let ob = option_bytes(d, v);
    let de = extension_bytes(d);
    let le = extension_bytes(v.len());
    let first = nibble_of(d) * 16 + nibble_of(v.len());
    assert(b[q] == ob[0]);
    assert(ob[0] == first as u8);
    assert(b[q] / 16 == nibble_of(d));
    assert(b[q] % 16 == nibble_of(v.len()));
    assert(b.subrange(q + 1, q + 1 + de.len()) =~= de) by {
        assert forall|k: int| 0 <= k < de.len() implies b.subrange(q + 1, q + 1 + de.len())[k]
            == de[k] by {
            assert(b[q + 1 + k] == ob[1 + k]);
        }
    }
    lemma_read_extension(b, q + 1, d);
    assert(b.subrange(q + 1 + de.len(), q + 1 + de.len() + le.len()) =~= le) by {
        assert forall|k: int| 0 <= k < le.len() implies b.subrange(
            q + 1 + de.len(),
            q + 1 + de.len() + le.len(),
        )[k] == le[k] by {
            assert(b[q + 1 + de.len() + k] == ob[1 + de.len() + k]);
        }
    }
    lemma_read_extension(b, q + 1 + de.len(), v.len());
    let start = q + 1 + de.len() + le.len();
    assert(b.subrange(start, start + v.len()) =~= v) by {
        assert forall|k: int| 0 <= k < v.len() implies b.subrange(start, start + v.len())[k]
            == v[k] by {
            assert(b[start + k] == ob[1 + de.len() + le.len() + k]);
        }
    }
}

/// Decoding walks over the wire form of a sequence of pairs that meets the
/// delta condition, collecting exactly those pairs.
proof fn lemma_parse_options_bytes(b: Seq<u8>, s: int, flat: Seq<(usize, Seq<u8>)>)
    requires
        0 <= s,
        s + options_bytes(flat).len() <= b.len() <= MAX_EXTENDED,
        b.subrange(s, s + options_bytes(flat).len()) == options_bytes(flat),
        deltas_fit(flat),
    ensures
        parse_options(b, s, 0, seq![]) == parse_options(
            b,
            s + options_bytes(flat).len(),
            last_number(flat),
            flat,
        ),
    decreases flat.len(),
{
    if flat.len() == 0 {
        assert(flat =~= seq![]);
    } else {
        let front = flat.drop_last();
        let p = flat.last();
        let d = (p.0 - last_number(front)) as nat;
        let ob = option_bytes(d, p.1);
        let fb = options_bytes(front);
        assert(options_bytes(flat) == fb + ob);
        assert(b.subrange(s, s + fb.len()) =~= fb) by {
            assert forall|k: int| 0 <= k < fb.len() implies b.subrange(s, s + fb.len())[k]
                == fb[k] by {
                assert(b[s + k] == options_bytes(flat)[k]);
            }
        }
        lemma_parse_options_bytes(b, s, front);
        assert(b.subrange(s + fb.len(), s + fb.len() + ob.len()) =~= ob) by {
            assert forall|k: int| 0 <= k < ob.len() implies b.subrange(
                s + fb.len(),
                s + fb.len() + ob.len(),
            )[k] == ob[k] by {
                assert(b[s + fb.len() + k] == options_bytes(flat)[fb.len() + k]);
            }
        }
        lemma_parse_step(b, s + fb.len(), last_number(front), front, d, p.1);
        assert(front.push(p) =~= flat);
    }
}

/// Grouping the wire pairs of entry `e` after pairs that group to `opts`
/// (whose numbers are all below `e`'s) appends `e` with its first `j` values.
proof fn lemma_group_entry(
    flat: Seq<(usize, Seq<u8>)>,
    opts: Seq<(usize, Seq<Seq<u8>>)>,
    e: (usize, Seq<Seq<u8>>),
    j: int,
)
    requires
        group_options(flat) == opts,
        opts.len() > 0 ==> opts.last().0 < e.0,
        1 <= j <= e.1.len(),
    ensures
        group_options(flat + entry_pairs(e).take(j)) == opts.push((e.0, e.1.take(j))),
    decreases j,
{
    let all = flat + entry_pairs(e).take(j);
    assert(all.drop_last() =~= flat + entry_pairs(e).take(j - 1));
    if j == 1 {
        assert(flat + entry_pairs(e).take(0) =~= flat);
        assert(e.1.take(1) =~= seq![e.1[0]]);
    } else {
        lemma_group_entry(flat, opts, e, j - 1);
        assert(e.1.take(j - 1).push(e.1[j - 1]) =~= e.1.take(j));
        assert(opts.push((e.0, e.1.take(j - 1))).update(opts.len() as int, (e.0, e.1.take(j)))
            =~= opts.push((e.0, e.1.take(j))));
    }
}

/// Grouping the wire pairs of ordered entries with values gives the entries
/// back.
proof fn lemma_group_flatten(opts: Seq<(usize, Seq<Seq<u8>>)>)
    requires
        options_ordered(opts),
        forall|i: int| 0 <= i < opts.len() ==> #[trigger] opts[i].1.len() > 0,
    ensures
        group_options(flatten_options(opts)) == opts,
    decreases opts.len(),
{
    if opts.len() == 0 {
        assert(flatten_options(opts) =~= seq![]);
        assert(opts =~= seq![]);
    } else {
        let front = opts.drop_last();
        let e = opts.last();
        assert forall|i: int| 0 <= i < front.len() implies #[trigger] front[i].1.len() > 0 by {
            assert(front[i] == opts[i]);
        }
        lemma_group_flatten(front);
        let pairs = entry_pairs(e);
        lemma_group_entry(flatten_options(front), front, e, e.1.len() as int);
        assert(pairs.take(e.1.len() as int) =~= pairs);
        assert(e.1.take(e.1.len() as int) =~= e.1);
        assert(front.push(e) =~= opts);
    }
}

/// The message that decoding an encoded message gives back: the same, but
/// with no payload when the code is `Empty`.
pub open spec fn as_transmitted(m: PacketModel) -> PacketModel {
    PacketModel {
        payload: if m.code == PacketClass::Empty {
            seq![]
        } else {
            m.payload
        },
        ..m
    }
}

/// Decoding what a well-formed message encodes to gives the message back,
/// options at one number in insertion order, with the payload dropped when
/// the code is `Empty`.
pub proof fn lemma_decode_encode(m: PacketModel)
    requires
        m.well_formed(),
        spec_encode(m) is Ok,
    ensures
        spec_decode(spec_encode(m)->Ok_0) == Ok::<PacketModel, ParseError>(as_transmitted(m)),
{
    let b = spec_encode(m)->Ok_0;
    let flat = flatten_options(m.options);
    let h = header_bytes(m);
    let ob = options_bytes(flat);
    let pb = payload_bytes(m);
    let tkl = m.token.len() as int;
    assert(b == h + m.token + ob + pb);
    assert(b[0] == m.ver_type_tkl);
    assert(b[1] == spec_class_to_code(m.code));
    assert(b[2] == (m.message_id / 256) as u8);
    assert(b[3] == (m.message_id % 256) as u8);
    lemma_class_survives_code(m.code);
    assert(b.subrange(4, 4 + tkl) =~= m.token);
    let s = 4 + tkl;
    assert(b.subrange(s, s + ob.len()) =~= ob);
    lemma_parse_options_bytes(b, s, flat);
    let e = s + ob.len();
    lemma_fit_ascending(flat);
    lemma_group_flatten(m.options);
    if pb.len() == 0 {
        assert(e == b.len());
        assert(b.subrange(b.len() as int, b.len() as int) =~= as_transmitted(m).payload);
    } else {
        assert(b[e] == PAYLOAD_MARKER);
        assert(b.subrange(e + 1, b.len() as int) =~= m.payload);
    }
}

// ---------------------------------------------------------------------------
// The option map.

/// The index of the first entry whose number is at least `n`.
pub open spec fn lower_bound(opts: Seq<(usize, Seq<Seq<u8>>)>, n: usize) -> int
    decreases opts.len(),
{
    if opts.len() == 0 || opts[0].0 >= n {
        0
    } else {
        1 + lower_bound(opts.drop_first(), n)
    }
}

/// The values under option number `n`, if it is present.
pub open spec fn option_values(opts: Seq<(usize, Seq<Seq<u8>>)>, n: usize) -> Option<Seq<Seq<u8>>> {
    let k = lower_bound(opts, n);
    if k < opts.len() && opts[k].0 == n {
        Some(opts[k].1)
    } else {
        None
    }
}

/// The entries with the values under `n` replaced by `vs` (added in order
/// when `n` is absent).
pub open spec fn with_values(opts: Seq<(usize, Seq<Seq<u8>>)>, n: usize, vs: Seq<Seq<u8>>) -> Seq<
    (usize, Seq<Seq<u8>>),
> {
    let k = lower_bound(opts, n);
    if k < opts.len() && opts[k].0 == n {
        opts.update(k, (n, vs))
    } else {
        opts.insert(k, (n, vs))
    }
}

/// The entries with `v` appended to the values under `n`.
pub open spec fn with_value_added(opts: Seq<(usize, Seq<Seq<u8>>)>, n: usize, v: Seq<u8>) -> Seq<
    (usize, Seq<Seq<u8>>),
> {
    match option_values(opts, n) {
        Some(vs) => with_values(opts, n, vs.push(v)),
        None => with_values(opts, n, seq![v]),
    }
}

/// Entries before the lower bound have smaller numbers; the entry at it, if
/// any, has a number at least `n`.
proof fn lemma_lower_bound(opts: Seq<(usize, Seq<Seq<u8>>)>, n: usize)
    ensures
        0 <= lower_bound(opts, n) <= opts.len(),
        forall|j: int| 0 <= j < lower_bound(opts, n) ==> opts[j].0 < n,
        lower_bound(opts, n) < opts.len() ==> opts[lower_bound(opts, n)].0 >= n,
    decreases opts.len(),
{
    if opts.len() > 0 && opts[0].0 < n {
        let rest = opts.drop_first();
        lemma_lower_bound(rest, n);
        assert forall|j: int| 0 <= j < lower_bound(opts, n) implies opts[j].0 < n by {
            if j > 0 {
                assert(opts[j] == rest[j - 1]);
            }
        }
    }
}

/// The lower bound is the first index whose number is at least `n`.
pub(crate) proof fn lemma_lower_bound_at(opts: Seq<(usize, Seq<Seq<u8>>)>, n: usize, k: int)
    requires
        0 <= k <= opts.len(),
        forall|j: int| 0 <= j < k ==> opts[j].0 < n,
        k < opts.len() ==> opts[k].0 >= n,
    ensures
        lower_bound(opts, n) == k,
    decreases opts.len(),
{
    if k > 0 {
        let rest = opts.drop_first();
        assert forall|j: int| 0 <= j < k - 1 implies rest[j].0 < n by {
            assert(rest[j] == opts[j + 1]);
        }
        if k - 1 < rest.len() {
            assert(rest[k - 1] == opts[k]);
        }
        lemma_lower_bound_at(rest, n, k - 1);
    }
}

/// Replacing or adding the values under a number keeps numbers ascending.
pub(crate) proof fn lemma_with_values_ordered(opts: Seq<(usize, Seq<Seq<u8>>)>, n: usize, vs: Seq<Seq<u8>>)
    requires
        options_ordered(opts),
    ensures
        options_ordered(with_values(opts, n, vs)),
{
    lemma_lower_bound(opts, n);
    let k = lower_bound(opts, n);
    let r = with_values(opts, n, vs);
    if k < opts.len() && opts[k].0 == n {
        assert forall|i: int, j: int| 0 <= i < j < r.len() implies r[i].0 < r[j].0 by {
            assert(r[i].0 == opts[i].0);
            assert(r[j].0 == opts[j].0);
        }
    } else {
        assert forall|i: int, j: int| 0 <= i < j < r.len() implies r[i].0 < r[j].0 by {
            if j < k {
            } else if j == k {
                assert(opts[i].0 < n);
            } else if i < k {
                assert(r[j] == opts[j - 1]);
                assert(opts[i].0 < opts[k].0);
                assert(opts[k].0 <= opts[j - 1].0 || k == j - 1);
            } else if i == k {
                assert(r[j] == opts[j - 1]);
                assert(opts[k].0 >= n);
                assert(opts[k].0 != n);
                assert(opts[k].0 <= opts[j - 1].0 || k == j - 1);
            } else {
                assert(r[i] == opts[i - 1]);
                assert(r[j] == opts[j - 1]);
            }
        }
    }
}

/// An extended form that reads back is the canonical one for its value.
proof fn lemma_extension_canonical(b: Seq<u8>, nib: nat, j: int)
    requires
        0 <= j <= b.len(),
        read_extended(b, nib, j) is Some,
    ensures
        ({
            let (x, size) = read_extended(b, nib, j)->Some_0;
            &&& nibble_of(x) == nib
            &&& x <= MAX_EXTENDED
            &&& size == extension_bytes(x).len()
            &&& j + size <= b.len()
            &&& b.subrange(j, j + size) == extension_bytes(x)
        }),
{
    let (x, size) = read_extended(b, nib, j)->Some_0;
    if nib == 13 {
        assert(b.subrange(j, j + size) =~= extension_bytes(x));
    } else if nib == 14 {
        let hi = b[j] as int;
        let lo = b[j + 1] as int;
        let y = x - 269;
        assert(y == hi * 256 + lo);
        assert(y / 256 == hi && y % 256 == lo) by (nonlinear_arith)
            requires
                y == hi * 256 + lo,
                0 <= hi < 256,
                0 <= lo < 256,
        ;
        assert(x >= 269 && x <= MAX_EXTENDED);
        let e = extension_bytes(x);
        assert(e[0] == b[j]);
        assert(e[1] == b[j + 1]);
        assert(b.subrange(j, j + size) =~= extension_bytes(x));
    } else {
        assert(b.subrange(j, j + size) =~= extension_bytes(x));
    }
}

/// An option that decodes is, byte for byte, the wire form of its delta and
/// value.
proof fn lemma_option_canonical(b: Seq<u8>, i: int)
    requires
        0 <= i < b.len(),
        read_option_header(b, i) is Ok,
        ({
            let (d, l, h) = read_option_header(b, i)->Ok_0;
            i + h + l <= b.len()
        }),
    ensures
        ({
            let (d, l, h) = read_option_header(b, i)->Ok_0;
            &&& d <= MAX_EXTENDED
            &&& b.subrange(i, i + h + l) == option_bytes(d, b.subrange(i + h, i + h + l))
        }),
{
    let (d, l, h) = read_option_header(b, i)->Ok_0;
    let dn = (b[i] / 16) as nat;
    let ln = (b[i] % 16) as nat;
    lemma_extension_canonical(b, dn, i + 1);
    let dsize = extension_bytes(d).len() as int;
    lemma_extension_canonical(b, ln, i + 1 + dsize);
    let v = b.subrange(i + h, i + h + l);
    assert(v.len() == l);
    assert(b[i] == (nibble_of(d) * 16 + nibble_of(v.len())) as u8);
    assert(b.subrange(i, i + h + l) =~= option_bytes(d, v)) by {
        let ob = option_bytes(d, v);
        let de = extension_bytes(d);
        let le = extension_bytes(v.len());
        assert forall|k: int| 0 <= k < h + l implies b.subrange(i, i + h + l)[k] == ob[k] by {
            if k == 0 {
            } else if k < 1 + de.len() {
                assert(b.subrange(i + 1, i + 1 + de.len())[k - 1] == de[k - 1]);
            } else if k < 1 + de.len() + le.len() {
                assert(b.subrange(i + 1 + de.len(), i + 1 + de.len() + le.len())[k - 1 - de.len()]
                    == le[k - 1 - de.len()]);
            } else {
                assert(v[k - h] == b[i + k]);
            }
        }
    }
}

/// `b[start..e]` is the wire form of `flat` and ends the option region: at
/// the end of `b`, or at a payload marker.
pub open spec fn option_region(b: Seq<u8>, start: int, flat: Seq<(usize, Seq<u8>)>, e: int) -> bool {
    &&& start <= e <= b.len()
    &&& b.subrange(start, e) == options_bytes(flat)
    &&& (e == b.len() || b[e] == PAYLOAD_MARKER)
}

/// Walking options from `i`, after pairs `acc` whose wire form is
/// `b[s..i]`, reads pairs whose wire form is the whole option region: up to
/// the payload marker, or to the end.
proof fn lemma_parse_reads_wire(
    b: Seq<u8>,
    s: int,
    i: int,
    acc: Seq<(usize, Seq<u8>)>,
)
    requires
        0 <= s <= i <= b.len(),
        b.subrange(s, i) == options_bytes(acc),
        deltas_fit(acc),
        parse_options(b, i, last_number(acc), acc) is Ok,
    ensures
        ({
            let (flat, p) = parse_options(b, i, last_number(acc), acc)->Ok_0;
            &&& deltas_fit(flat)
            &&& exists|e: int| #[trigger] option_region(b, s, flat, e)
        }),
    decreases b.len() - i,
{
    let n = last_number(acc);
    if i >= b.len() {
        assert(option_region(b, s, acc, i));
        assert(parse_options(b, i, n, acc)->Ok_0.0 == acc);
    } else if b[i] == PAYLOAD_MARKER {
        assert(option_region(b, s, acc, i));
        assert(parse_options(b, i, n, acc)->Ok_0.0 == acc);
    } else {
        let (d, l, h) = read_option_header(b, i)->Ok_0;
        let start = i + h;
        let v = b.subrange(start, start + l);
        lemma_option_canonical(b, i);
        let p = ((n + d) as usize, v);
        lemma_push_pair(acc, p);
        let next = acc.push(p);
        assert(n + d <= usize::MAX);
        assert(deltas_fit(next));
        assert(b.subrange(s, start + l) =~= b.subrange(s, i) + b.subrange(i, start + l));
        assert(parse_options(b, i, n, acc) == parse_options(b, start + l, (n + d) as usize, next));
        lemma_parse_reads_wire(b, s, start + l, next);
        assert(last_number(next) == (n + d) as usize);
    }
}

/// Decoding reads option numbers as running sums of the wire deltas: the
/// option region (up to the payload marker, or to the end) is exactly the
/// wire form of the decoded pairs, which writes before each pair its number
/// less the one before. Numbers never decrease, the deltas up to each pair
/// add up to its number, and the options are those pairs in wire order.
pub proof fn lemma_decode_reads_wire_numbers(b: Seq<u8>)
    requires
        spec_decode(b) is Ok,
    ensures
        ({
            let m = spec_decode(b)->Ok_0;
            let start = 4 + m.token.len() as int;
            let flat = parse_options(b, start, 0, seq![])->Ok_0.0;
            &&& m.options == group_options(flat)
            &&& forall|i: int, j: int| 0 <= i <= j < flat.len() ==> flat[i].0 <= flat[j].0
            &&& forall|i: int| 0 <= i < flat.len() ==> #[trigger] delta_sum(flat, i + 1) == flat[i].0
            &&& exists|e: int| #[trigger] option_region(b, start, flat, e)
        }),
{
    let m = spec_decode(b)->Ok_0;
    let start = 4 + m.token.len() as int;
    let empty: Seq<(usize, Seq<u8>)> = seq![];
    assert(b.subrange(start, start) =~= options_bytes(empty));
    assert(last_number(empty) == 0);
    lemma_parse_reads_wire(b, start, start, empty);
    let flat = parse_options(b, start, 0, seq![])->Ok_0.0;
    assert(m.options == group_options(flat));
    lemma_fit_ascending(flat);
    assert forall|i: int| 0 <= i < flat.len() implies #[trigger] delta_sum(flat, i + 1)
        == flat[i].0 by {
        lemma_deltas_fit_prefix(flat, i + 1);
        lemma_delta_sum(flat, i + 1);
        assert(flat.take(i + 1).last() == flat[i]);
    }
}

} // verus!
