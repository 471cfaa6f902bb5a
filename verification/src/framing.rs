//! The byte layout of a dump: length prefixes, records, and the laws that tie
//! reading and writing together.

use vstd::prelude::*;

verus! {

/// Number of bytes in the length prefix that precedes every payload.
pub const PREFIX_LEN: usize = 8;

/// The number written by a little-endian digit string (least significant byte first).
pub open spec fn le_value(digits: Seq<u8>) -> nat
    decreases digits.len(),
{
    if digits.len() == 0 {
        0
    } else {
        digits[0] as nat + 256 * le_value(digits.drop_first())
    }
}

/// The `width` least significant base-256 digits of `n`, least significant first.
pub open spec fn le_digits(n: nat, width: nat) -> Seq<u8>
    decreases width,
{
    if width == 0 {
        Seq::empty()
    } else {
        seq![(n % 256) as u8] + le_digits(n / 256, (width - 1) as nat)
    }
}

/// 256 to the power `width`.
pub open spec fn radix_pow(width: nat) -> nat
    decreases width,
{
    if width == 0 {
        1
    } else {
        256 * radix_pow((width - 1) as nat)
    }
}

/// Writing `width` digits gives `width` bytes.
pub proof fn lemma_le_digits_len(n: nat, width: nat)
    ensures
        le_digits(n, width).len() == width,
    decreases width,
{
    if width > 0 {
        lemma_le_digits_len(n / 256, (width - 1) as nat);
    }
}

/// Digits written for a number that fits are read back as that number.
pub proof fn lemma_le_value_of_digits(n: nat, width: nat)
    requires
        n < radix_pow(width),
    ensures
        le_value(le_digits(n, width)) == n,
    decreases width,
{
    if width > 0 {
        let rest = le_digits(n / 256, (width - 1) as nat);
        let all = le_digits(n, width);
        lemma_le_value_of_digits(n / 256, (width - 1) as nat);
        assert(all.drop_first() =~= rest);
        assert(all[0] == (n % 256) as u8);
    }
}

/// A digit string is the digit string of its own value.
pub proof fn lemma_le_digits_of_value(digits: Seq<u8>)
    ensures
        le_digits(le_value(digits), digits.len()) == digits,
        le_value(digits) < radix_pow(digits.len()),
    decreases digits.len(),
{
    if digits.len() > 0 {
        let tail = digits.drop_first();
        lemma_le_digits_of_value(tail);
        let v = le_value(digits);
        assert(v == digits[0] as nat + 256 * le_value(tail));
        assert(v % 256 == digits[0] as nat);
        assert(v / 256 == le_value(tail));
        assert(le_digits(v, digits.len()) =~= digits);
    }
}

/// Eight bytes count up to two to the power 64.
pub proof fn lemma_radix_pow_8()
    ensures
        radix_pow(8) == 0x1_0000_0000_0000_0000,
{
    reveal_with_fuel(radix_pow, 9);
}

/// The signed length that an 8-byte prefix declares (two's complement).
pub open spec fn length_prefix(prefix: Seq<u8>) -> int {
    let raw = le_value(prefix);
    if raw < 0x8000_0000_0000_0000 {
        raw as int
    } else {
        raw - 0x1_0000_0000_0000_0000
    }
}

/// The payload of the record that starts at byte `off`, if a whole record
/// stands there: a complete prefix, a length that is not negative, and that
/// many bytes after it.
pub open spec fn record_at(data: Seq<u8>, off: int) -> Option<Seq<u8>> {
    if 0 <= off && off + 8 <= data.len() {
        let len = length_prefix(data.subrange(off, off + 8));
        if 0 <= len && off + 8 + len <= data.len() {
            Some(data.subrange(off + 8, off + 8 + len))
        } else {
            None
        }
    } else {
        None
    }
}

/// The payloads read one after another from byte `off`, up to the end of the
/// data or the first place where no whole record stands.
pub open spec fn records_from(data: Seq<u8>, off: int) -> Seq<Seq<u8>>
    decreases data.len() - off,
{
    match record_at(data, off) {
        Some(payload) => seq![payload] + records_from(data, off + 8 + payload.len()),
        None => Seq::empty(),
    }
}

/// The byte at which reading from `off` stops.
pub open spec fn scan_end(data: Seq<u8>, off: int) -> int
    decreases data.len() - off,
{
    match record_at(data, off) {
        Some(payload) => scan_end(data, off + 8 + payload.len()),
        None => off,
    }
}

/// Every record that can be read from the start of `data`.
pub open spec fn records(data: Seq<u8>) -> Seq<Seq<u8>> {
    records_from(data, 0)
}

/// The data is records from its first byte to its last, with nothing left over.
pub open spec fn well_framed(data: Seq<u8>) -> bool {
    scan_end(data, 0) == data.len()
}

/// One record as it is written: the prefix, then the payload. The prefix
/// holds the low 64 bits of the length, which for a payload that
/// `fits_prefix` is the length itself as a signed number.
pub open spec fn frame_record(payload: Seq<u8>) -> Seq<u8> {
    le_digits(payload.len(), 8) + payload
}

/// Records written one after another.
pub open spec fn frame_all(payloads: Seq<Seq<u8>>) -> Seq<u8>
    decreases payloads.len(),
{
    if payloads.len() == 0 {
        Seq::empty()
    } else {
        frame_all(payloads.drop_last()) + frame_record(payloads.last())
    }
}

/// A payload short enough for its length to be declared as a signed 64-bit number.
pub open spec fn fits_prefix(payload: Seq<u8>) -> bool {
    payload.len() <= i64::MAX
}

/// Writing two runs of records one after the other is writing their concatenation.
pub proof fn lemma_frame_all_concat(first: Seq<Seq<u8>>, second: Seq<Seq<u8>>)
    ensures
        frame_all(first + second) == frame_all(first) + frame_all(second),
    decreases second.len(),
{
    if second.len() == 0 {
        assert(first + second =~= first);
        assert(frame_all(first) + frame_all(second) =~= frame_all(first));
    } else {
        let whole = first + second;
        assert(whole.drop_last() =~= first + second.drop_last());
        assert(whole.last() == second.last());
        lemma_frame_all_concat(first, second.drop_last());
        assert(frame_all(whole) =~= frame_all(first) + frame_all(second));
    }
}

/// Writing one record more appends that record.
pub proof fn lemma_frame_all_push(payloads: Seq<Seq<u8>>, payload: Seq<u8>)
    ensures
        frame_all(payloads.push(payload)) == frame_all(payloads) + frame_record(payload),
{
    assert(payloads.push(payload).drop_last() =~= payloads);
}

/// Writing a single record is framing it.
pub proof fn lemma_frame_all_single(payload: Seq<u8>)
    ensures
        frame_all(seq![payload]) == frame_record(payload),
{
    let one = seq![payload];
    assert(one.drop_last() =~= Seq::<Seq<u8>>::empty());
    assert(frame_all(one.drop_last()) + frame_record(payload) =~= frame_record(payload));
}

/// A prefix that declares a length that is not negative is the digits of that length.
proof fn lemma_prefix_is_digits(prefix: Seq<u8>)
    requires
        prefix.len() == 8,
        length_prefix(prefix) >= 0,
    ensures
        le_digits(length_prefix(prefix) as nat, 8) == prefix,
{
    lemma_le_digits_of_value(prefix);
    lemma_radix_pow_8();
}

/// The digits of a length that fits declare that length.
proof fn lemma_digits_are_prefix(len: nat)
    requires
        len <= i64::MAX,
    ensures
        le_digits(len, 8).len() == 8,
        length_prefix(le_digits(len, 8)) == len,
{
    lemma_radix_pow_8();
    lemma_le_digits_len(len, 8);
    lemma_le_value_of_digits(len, 8);
}

/// Every record that is read is short enough to be written again.
pub proof fn lemma_records_fit(data: Seq<u8>, off: int, i: int)
    requires
        0 <= i < records_from(data, off).len(),
    ensures
        fits_prefix(records_from(data, off)[i]),
    decreases data.len() - off,
{
    match record_at(data, off) {
        Some(payload) => {
            let behind = records_from(data, off + 8 + payload.len());
            assert(records_from(data, off) == seq![payload] + behind);
            if i > 0 {
                lemma_records_fit(data, off + 8 + payload.len(), i - 1);
                assert(records_from(data, off)[i] == behind[i - 1]);
            } else {
                lemma_le_digits_of_value(data.subrange(off, off + 8));
                lemma_radix_pow_8();
                assert(payload.len() == length_prefix(data.subrange(off, off + 8)));
                assert(records_from(data, off)[0] == payload);
            }
        },
        None => {},
    }
}

/// Reading stops inside the data, and the records read, written again, are
/// the very bytes that were read.
pub proof fn lemma_scan_reproduces(data: Seq<u8>, off: int)
    requires
        0 <= off <= data.len(),
    ensures
        off <= scan_end(data, off) <= data.len(),
        frame_all(records_from(data, off)) == data.subrange(off, scan_end(data, off)),
    decreases data.len() - off,
{
    match record_at(data, off) {
        Some(payload) => {
            let next = off + 8 + payload.len();
            let rest = records_from(data, next);
            lemma_scan_reproduces(data, next);
            lemma_frame_all_concat(seq![payload], rest);
            lemma_frame_all_single(payload);
            lemma_prefix_is_digits(data.subrange(off, off + 8));
            assert(frame_record(payload) =~= data.subrange(off, next));
            assert(data.subrange(off, next) + data.subrange(next, scan_end(data, next))
                =~= data.subrange(off, scan_end(data, off)));
        },
        None => {
            assert(data.subrange(off, off) =~= Seq::<u8>::empty());
        },
    }
}

/// Re-emitting every record of a well-framed dump, in order and in the same
/// framing, gives back the dump byte for byte.
pub proof fn lemma_roundtrip_bytes(data: Seq<u8>)
    requires
        well_framed(data),
    ensures
        frame_all(records(data)) == data,
{
    lemma_scan_reproduces(data, 0);
    assert(data.subrange(0, data.len() as int) =~= data);
}

/// Bytes put in front of a dump shift every record behind them and change none.
proof fn lemma_scan_shift(front: Seq<u8>, data: Seq<u8>, off: int)
    requires
        0 <= off,
    ensures
        records_from(front + data, front.len() + off) == records_from(data, off),
        scan_end(front + data, front.len() + off) == front.len() + scan_end(data, off),
    decreases data.len() - off,
{
    let whole = front + data;
    let at = front.len() + off;
    if off + 8 <= data.len() {
        assert(whole.subrange(at, at + 8) =~= data.subrange(off, off + 8));
        let len = length_prefix(data.subrange(off, off + 8));
        if 0 <= len && off + 8 + len <= data.len() {
            assert(whole.subrange(at + 8, at + 8 + len) =~= data.subrange(off + 8, off + 8 + len));
            lemma_scan_shift(front, data, off + 8 + len);
        }
    }
}

/// Records that were written are the records that are read, and nothing is
/// left over: reading undoes writing.
pub proof fn lemma_roundtrip_records(payloads: Seq<Seq<u8>>)
    requires
        forall|i: int| 0 <= i < payloads.len() ==> fits_prefix(#[trigger] payloads[i]),
    ensures
        records(frame_all(payloads)) == payloads,
        well_framed(frame_all(payloads)),
    decreases payloads.len(),
{
    if payloads.len() > 0 {
        let head = payloads[0];
        let tail = payloads.drop_first();
        let front = frame_record(head);
        let behind = frame_all(tail);
        assert(payloads =~= seq![head] + tail);
        lemma_frame_all_concat(seq![head], tail);
        lemma_frame_all_single(head);
        let data = frame_all(payloads);
        assert(data == front + behind);
        assert forall|i: int| 0 <= i < tail.len() implies fits_prefix(#[trigger] tail[i]) by {
            assert(tail[i] == payloads[i + 1]);
        }
        lemma_roundtrip_records(tail);
        lemma_digits_are_prefix(head.len());
        assert(data.subrange(0, 8) =~= le_digits(head.len(), 8));
        assert(data.subrange(8, 8 + head.len() as int) =~= head);
        assert(record_at(data, 0) == Some(head));
        lemma_scan_shift(front, behind, 0);
        assert(records(data) =~= payloads);
    }
}

/// Reads the eight prefix bytes at `off` as an unsigned number.
fn read_prefix(data: &[u8], off: usize) -> (raw: u64)
    requires
        off + 8 <= data@.len(),
    ensures
        raw == le_value(data@.subrange(off as int, off + 8)),
{
    let ghost prefix = data@.subrange(off as int, off + 8);
    let total = data.len();
    let mut raw: u64 = 0;
    let mut i: usize = 8;
    while i > 0
        invariant
            i <= 8,
            off + 8 <= data@.len() == total,
            prefix == data@.subrange(off as int, off + 8),
            raw == le_value(prefix.skip(i as int)),
            raw < radix_pow((8 - i) as nat),
        decreases i,
    {
        i = i - 1;
        let digit = data[off + i];
        proof {
            let tail = prefix.skip(i as int);
            assert(tail.drop_first() =~= prefix.skip(i + 1));
            assert(tail[0] == digit);
            reveal_with_fuel(radix_pow, 9);
        }
        raw = raw * 256 + digit as u64;
    }
    assert(prefix.skip(0) =~= prefix);
    raw
}

/// Where the payload of the record at `off` lies, if a whole record stands there.
pub fn record_bounds(data: &[u8], off: usize) -> (bounds: Option<(usize, usize)>)
    ensures
        match bounds {
            Some((start, end)) => {
                &&& start == off + 8
                &&& start <= end <= data@.len()
                &&& end - start == length_prefix(data@.subrange(off as int, off + 8))
                &&& record_at(data@, off as int) == Some(data@.subrange(start as int, end as int))
            },
            None => record_at(data@, off as int) is None,
        },
{
    let total = data.len();
    if total < PREFIX_LEN || off > total - PREFIX_LEN {
        return None;
    }
    let raw = read_prefix(data, off);
    let start = off + PREFIX_LEN;
    if raw > 0x7fff_ffff_ffff_ffff || raw > (total - start) as u64 {
        return None;
    }
    let end = start + raw as usize;
    Some((start, end))
}

/// Appends the prefix for a payload of `len` bytes.
fn write_prefix(out: &mut Vec<u8>, len: usize)
    ensures
        final(out)@ == old(out)@ + le_digits(len as nat, 8),
{
    let mut rest: u64 = len as u64;
    let mut i: usize = 0;
    while i < 8
        invariant
            i <= 8,
            out@ + le_digits(rest as nat, (8 - i) as nat) == old(out)@ + le_digits(len as nat, 8),
        decreases 8 - i,
    {
        let ghost before = out@;
        out.push((rest % 256) as u8);
        proof {
            let digits = le_digits(rest as nat, (8 - i) as nat);
            let tail = le_digits((rest / 256) as nat, (8 - i - 1) as nat);
            assert(digits == seq![(rest % 256) as u8] + tail);
            assert(out@ + tail =~= before + digits);
        }
        rest = rest / 256;
        i = i + 1;
    }
    assert(out@ + Seq::<u8>::empty() =~= out@);
}

/// Appends `msg` to `out` as one record: its length as eight little-endian
/// bytes, then the payload itself.
pub fn write_raw_msg(out: &mut Vec<u8>, msg: &[u8])
    ensures
        final(out)@ == old(out)@ + frame_record(msg@),
{
    write_prefix(out, msg.len());
    let ghost with_prefix = out@;
    out.extend_from_slice(msg);
    assert(out@ =~= with_prefix + msg@);
    assert(out@ =~= old(out)@ + frame_record(msg@));
}

} // verus!
