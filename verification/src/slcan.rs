//! The SLCAN text form of CAN frames and the codec that reads and writes it.
//!
//! A line starts with one letter: `t` (standard data frame), `r` (standard
//! remote frame), `T` (extended data frame) or `R` (extended remote frame).
//! The identifier follows in hexadecimal (three digits for a standard
//! frame, eight for an extended one), then one hexadecimal digit for the
//! payload length, two hexadecimal digits per payload byte and a carriage
//! return.

use vstd::prelude::*;
use vstd::arithmetic::div_mod::lemma_div_denominator;
use crate::canframe::{CanFrame, FrameModel};
use crate::buffer::{buffer_bytes, buffer_contents, buffer_extend, buffer_split_to};
use bytes::BytesMut;

verus! {

/// The carriage return that ends each line.
pub const CR: u8 = 0x0d;

// ---------------------------------------------------------------------------
// Hexadecimal digits

/// `0`-`9`, `a`-`f` or `A`-`F`.
pub open spec fn is_hex_digit(b: u8) -> bool {
    (0x30 <= b <= 0x39) || (0x61 <= b <= 0x66) || (0x41 <= b <= 0x46)
}

/// The value of a hexadecimal digit of either case.
pub open spec fn hex_digit_value(b: u8) -> u8 {
    if 0x30 <= b <= 0x39 {
        (b - 0x30) as u8
    } else if 0x61 <= b <= 0x66 {
        (b - 0x57) as u8
    } else {
        (b - 0x37) as u8
    }
}

/// The value of a hexadecimal digit (`0`-`9`, `a`-`f`, `A`-`F`). Any other
/// byte is refused by `requires`.
pub fn hex_digit_to_int(hex: u8) -> (value: u8)
    requires
        is_hex_digit(hex),
    ensures
        value == hex_digit_value(hex),
        value < 16,
{
    if 0x30 <= hex && hex <= 0x39 {
        assert(0x30 <= hex <= 0x39 ==> hex & 0x0f == hex - 0x30) by (bit_vector);
        hex & 0x0f
    } else {
        assert((0x61 <= hex <= 0x66 ==> hex & 0x0f == hex - 0x60) && (0x41 <= hex <= 0x46
            ==> hex & 0x0f == hex - 0x40)) by (bit_vector);
        (hex & 0x0f) + 9
    }
}

/// What a character of an identifier field counts for: a decimal digit its
/// value, and a letter `A`-`F` or `a`-`f` its distance from `A` or `a` (so
/// `A` counts 0 and `F` counts 5). Any other byte counts for nothing.
pub open spec fn id_nibble(b: u8) -> Option<u32> {
    if 0x30 <= b <= 0x39 {
        Some((b - 0x30) as u32)
    } else if 0x41 <= b <= 0x46 {
        Some((b - 0x41) as u32)
    } else if 0x61 <= b <= 0x66 {
        Some((b - 0x61) as u32)
    } else {
        None
    }
}

/// The characters read as base-16 digits, most significant first, each
/// counted as `id_nibble` says; `None` where one of them counts for nothing.
pub open spec fn id_digits_value(s: Seq<u8>) -> Option<nat>
    decreases s.len(),
{
    if s.len() == 0 {
        Some(0)
    } else {
        match (id_digits_value(s.drop_last()), id_nibble(s.last())) {
            (Some(v), Some(d)) => Some(v * 16 + d as nat),
            _ => None,
        }
    }
}

/// 16 to the power `n`.
pub open spec fn pow16(n: nat) -> nat
    decreases n,
{
    if n == 0 {
        1
    } else {
        16 * pow16((n - 1) as nat)
    }
}

/// What `hex_to_u32` gives for the characters `s`.
pub open spec fn hex_to_u32_spec(s: Seq<u8>) -> Option<u32> {
    if s.len() < 1 || s.len() > 8 {
        None
    } else {
        match id_digits_value(s) {
            Some(v) => Some(v as u32),
            None => None,
        }
    }
}

proof fn lemma_pow16_monotonic(i: nat, j: nat)
    requires
        i <= j,
    ensures
        pow16(i) <= pow16(j),
    decreases j,
{
    if i < j {
        lemma_pow16_monotonic(i, (j - 1) as nat);
    }
}

proof fn lemma_pow16_8()
    ensures
        pow16(8) == 0x1_0000_0000,
{
    reveal_with_fuel(pow16, 9);
}

/// A value read from `n` characters is below `16^n`.
proof fn lemma_id_digits_bound(s: Seq<u8>)
    ensures
        id_digits_value(s) matches Some(v) ==> v < pow16(s.len()),
    decreases s.len(),
{
    if s.len() > 0 {
        lemma_id_digits_bound(s.drop_last());
    }
}

/// Once a prefix counts for nothing, so does the whole.
proof fn lemma_id_digits_prefix_none(s: Seq<u8>, k: int)
    requires
        0 <= k <= s.len(),
        id_digits_value(s.take(k)) is None,
    ensures
        id_digits_value(s) is None,
    decreases s.len(),
{
    if k < s.len() {
        assert(s.drop_last().take(k) =~= s.take(k));
        lemma_id_digits_prefix_none(s.drop_last(), k);
    } else {
        assert(s.take(k) =~= s);
    }
}

/// Reads one to eight characters as a base-16 number, most significant
/// first. Decimal digits count their value; the letters `A`-`F` and `a`-`f`
/// count from zero (`A` and `a` count 0, `F` and `f` count 5). `None` for an
/// empty input, for more than eight characters, and for any other byte.
pub fn hex_to_u32(input: &[u8]) -> (result: Option<u32>)
    ensures
        result == hex_to_u32_spec(input@),
{
    if input.len() < 1 || input.len() > 8 {
        return None;
    }
    let mut result: u32 = 0;
    let mut i: usize = 0;
    proof {
        assert(input@.take(0) =~= Seq::<u8>::empty());
    }
    while i < input.len()
        invariant
            0 <= i <= input.len(),
            1 <= input.len() <= 8,
            id_digits_value(input@.take(i as int)) == Some(result as nat),
            result < pow16(i as nat),
        decreases input.len() - i,
    {
        let c = input[i];
        assert(input@.take(i + 1).drop_last() =~= input@.take(i as int));
        assert(input@.take(i + 1).last() == c);
        let d: u32 = if 0x30 <= c && c <= 0x39 {
            (c - 0x30) as u32
        } else if 0x41 <= c && c <= 0x46 {
            (c - 0x41) as u32
        } else if 0x61 <= c && c <= 0x66 {
            (c - 0x61) as u32
        } else {
            proof {
                lemma_id_digits_prefix_none(input@, i + 1);
            }
            return None;
        };
        proof {
            lemma_pow16_monotonic((i + 1) as nat, 8);
            lemma_pow16_8();
        }
        result = result * 16 + d;
        i = i + 1;
    }
    assert(input@.take(i as int) =~= input@);
    Some(result)
}


// ---------------------------------------------------------------------------
// Writing hexadecimal

/// The upper-case hexadecimal digit for a value below 16.
pub open spec fn hex_char_upper(d: nat) -> u8 {
    if d < 10 {
        (0x30 + d) as u8
    } else {
        (0x37 + d) as u8
    }
}

/// The last `width` base-16 digits of `n`, upper case, most significant
/// first, padded with `0` on the left.
pub open spec fn hex_upper(n: nat, width: nat) -> Seq<u8>
    decreases width,
{
    if width == 0 {
        Seq::empty()
    } else {
        hex_upper(n / 16, (width - 1) as nat).push(hex_char_upper(n % 16))
    }
}

/// How an identifier is written: three upper-case hexadecimal digits up to
/// 0x800, eight above it.
pub open spec fn canid_text(num: u32) -> Seq<u8> {
    if num <= 0x800 {
        hex_upper(num as nat, 3)
    } else {
        hex_upper(num as nat, 8)
    }
}

/// `buf` with its first bytes replaced by as much of `text` as fits.
pub open spec fn overwrite_prefix(buf: Seq<u8>, text: Seq<u8>) -> Seq<u8> {
    if text.len() <= buf.len() {
        text + buf.skip(text.len() as int)
    } else {
        text.take(buf.len() as int)
    }
}

fn hex_char(d: u32) -> (c: u8)
    requires
        d < 16,
    ensures
        c == hex_char_upper(d as nat),
{
    if d < 10 {
        (0x30 + d) as u8
    } else {
        (0x37 + d) as u8
    }
}

/// Appends the last `width` upper-case hexadecimal digits of `n`.
fn push_hex_upper(v: &mut Vec<u8>, n: u32, width: usize)
    ensures
        final(v)@ == old(v)@ + hex_upper(n as nat, width as nat),
    decreases width,
{
    if width > 0 {
        push_hex_upper(v, n / 16, width - 1);
        v.push(hex_char(n % 16));
        assert(v@ =~= old(v)@ + hex_upper(n as nat, width as nat));
    } else {
        assert(v@ =~= old(v)@ + hex_upper(n as nat, width as nat));
    }
}

/// The text of an identifier, as `canid_text` says.
fn canid_hex(num: u32) -> (text: Vec<u8>)
    ensures
        text@ == canid_text(num),
{
    let mut text: Vec<u8> = Vec::new();
    if num <= 0x800 {
        push_hex_upper(&mut text, num, 3);
    } else {
        push_hex_upper(&mut text, num, 8);
    }
    assert(text@ =~= canid_text(num));
    text
}

/// Writes the identifier at the front of `buf`: three upper-case
/// hexadecimal digits when `num` is at most 0x800, eight otherwise. Where
/// `buf` is shorter, only the digits that fit are written; the rest of
/// `buf` is left as it was.
pub fn u32_to_hex_canid(num: u32, buf: &mut [u8])
    ensures
        final(buf)@ == overwrite_prefix(old(buf)@, canid_text(num)),
{
    let text = canid_hex(num);
    let n: usize = if text.len() <= buf.len() {
        text.len()
    } else {
        buf.len()
    };
    let mut i: usize = 0;
    while i < n
        invariant
            n <= text.len(),
            n <= buf@.len(),
            n == text@.len() || n == old(buf)@.len(),
            text@ == canid_text(num),
            buf@.len() == old(buf)@.len(),
            0 <= i <= n,
            forall|j: int| 0 <= j < i ==> buf@[j] == text@[j],
            forall|j: int| i <= j < buf@.len() ==> buf@[j] == old(buf)@[j],
        decreases n - i,
    {
        buf[i] = text[i];
        i = i + 1;
    }
    assert(buf@ =~= overwrite_prefix(old(buf)@, canid_text(num)));
}

// ---------------------------------------------------------------------------
// Frames as lines

/// The first letter of a line: `R`, `r`, `T` or `t`.
pub open spec fn kind_byte(ext: bool, rtr: bool) -> u8 {
    if ext && rtr {
        0x52
    } else if !ext && rtr {
        0x72
    } else if ext {
        0x54
    } else {
        0x74
    }
}

/// How many characters the identifier field has: eight for an extended
/// frame, three for a standard one.
pub open spec fn id_field_width(ext: bool) -> nat {
    if ext {
        8
    } else {
        3
    }
}

/// `text` cut or padded with zero bytes to exactly `width` bytes.
pub open spec fn fit_field(text: Seq<u8>, width: nat) -> Seq<u8> {
    if text.len() >= width {
        text.take(width as int)
    } else {
        text + Seq::new((width - text.len()) as nat, |i: int| 0u8)
    }
}

/// Two upper-case hexadecimal digits per byte.
pub open spec fn data_text(data: Seq<u8>) -> Seq<u8>
    decreases data.len(),
{
    if data.len() == 0 {
        Seq::empty()
    } else {
        data_text(data.drop_last()) + hex_upper(data.last() as nat, 2)
    }
}

/// The line that `frame_to_serial_line` writes for a frame: its letter,
/// the identifier text cut or zero-padded to the field's width, the
/// payload length as one hexadecimal digit, the payload bytes that the
/// length covers, and a carriage return.
pub open spec fn serial_line(f: FrameModel) -> Seq<u8> {
    seq![kind_byte(f.ext, f.rtr)] + fit_field(canid_text(f.id), id_field_width(f.ext))
        + hex_upper(f.length as nat, 1) + data_text(f.data.take(f.length as int)) + seq![CR]
}

/// The line for a frame. The identifier is written with three digits when
/// it is at most 0x800 and with eight otherwise, whatever the frame's kind;
/// the field it goes into is eight wide for an extended frame and three for
/// a standard one, so a shorter text is followed by zero bytes and a longer
/// one is cut. A length above 8 is refused by `requires`.
pub fn frame_to_serial_line(frame: CanFrame) -> (line: Vec<u8>)
    requires
        frame.length <= 8,
    ensures
        line@ == serial_line(frame@),
{
    let mut line: Vec<u8> = Vec::new();
    let kind: u8 = if frame.ext && frame.rtr {
        0x52
    } else if !frame.ext && frame.rtr {
        0x72
    } else if frame.ext {
        0x54
    } else {
        0x74
    };
    line.push(kind);

    let text = canid_hex(frame.id);
    let width: usize = if frame.ext {
        8
    } else {
        3
    };
    let ghost field = fit_field(text@, width as nat);
    let mut j: usize = 0;
    while j < width
        invariant
            width == id_field_width(frame.ext),
            field == fit_field(text@, width as nat),
            0 <= j <= width,
            line@.len() == 1 + j,
            line@[0] == kind,
            forall|k: int| 0 <= k < j ==> line@[1 + k] == field[k],
        decreases width - j,
    {
        if j < text.len() {
            line.push(text[j]);
        } else {
            line.push(0);
        }
        j = j + 1;
    }
    assert(line@ =~= seq![kind] + field);

    push_hex_upper(&mut line, frame.length as u32, 1);
    let ghost head = line@;
    let mut k: usize = 0;
    assert(frame.data@.take(0) =~= Seq::<u8>::empty());
    assert(head =~= head + data_text(frame.data@.take(0)));
    while k < frame.length
        invariant
            frame.length <= 8,
            0 <= k <= frame.length,
            line@ == head + data_text(frame.data@.take(k as int)),
        decreases frame.length - k,
    {
        push_hex_upper(&mut line, frame.data[k] as u32, 2);
        assert(frame.data@.take(k + 1).drop_last() =~= frame.data@.take(k as int));
        k = k + 1;
        assert(line@ =~= head + data_text(frame.data@.take(k as int)));
    }
    line.push(CR);
    assert(line@ =~= serial_line(frame@));
    line
}


// ---------------------------------------------------------------------------
// Reading lines

/// Whether a line's letter marks an extended frame (`T` or `R`).
pub open spec fn line_ext(l: Seq<u8>) -> bool {
    l[0] == 0x54 || l[0] == 0x52
}

/// Whether a line's letter marks a remote frame (`r` or `R`).
pub open spec fn line_rtr(l: Seq<u8>) -> bool {
    l[0] == 0x72 || l[0] == 0x52
}

/// Where the length digit stands: right after the identifier field.
pub open spec fn length_pos(ext: bool) -> int {
    if ext {
        9
    } else {
        4
    }
}

/// The byte that two hexadecimal digits write, high digit first.
pub open spec fn hex_pair_value(hi: u8, lo: u8) -> u8 {
    (hex_digit_value(hi) * 16 + hex_digit_value(lo)) as u8
}

/// The lines that `parse_serial_line` reads without failing: a first byte;
/// an identifier field after it (eight characters when the first byte is
/// `T` or `R`, three otherwise) that `hex_to_u32` reads; a hexadecimal
/// length digit of at most 8 after that; and two hexadecimal digits per
/// payload byte after the length digit. Whatever follows is not looked at.
pub open spec fn serial_line_well_formed(l: Seq<u8>) -> bool {
    &&& l.len() >= 1
    &&& l.len() > length_pos(line_ext(l))
    &&& hex_to_u32_spec(l.subrange(1, length_pos(line_ext(l)))) is Some
    &&& is_hex_digit(l[length_pos(line_ext(l))])
    &&& hex_digit_value(l[length_pos(line_ext(l))]) <= 8
    &&& length_pos(line_ext(l)) + 1 + 2 * hex_digit_value(l[length_pos(line_ext(l))]) <= l.len()
    &&& forall|k: int|
        length_pos(line_ext(l)) + 1 <= k < length_pos(line_ext(l)) + 1 + 2 * hex_digit_value(
            l[length_pos(line_ext(l))],
        ) ==> is_hex_digit(#[trigger] l[k])
}

/// The frame that a well-formed line describes. Its payload bytes past
/// the length are zero.
pub open spec fn parsed_frame(l: Seq<u8>) -> FrameModel {
    let p = length_pos(line_ext(l));
    let n = hex_digit_value(l[p]);
    FrameModel {
        id: hex_to_u32_spec(l.subrange(1, p)).unwrap(),
        ext: line_ext(l),
        rtr: line_rtr(l),
        length: n as usize,
        data: Seq::new(
            8,
            |k: int|
                if k < n {
                    hex_pair_value(l[p + 1 + 2 * k], l[p + 2 + 2 * k])
                } else {
                    0u8
                },
        ),
    }
}

/// Whether `parse_serial_line` reads `line` without failing.
pub fn check_serial_line(line: &[u8]) -> (ok: bool)
    ensures
        ok == serial_line_well_formed(line@),
{
    if line.len() < 1 {
        return false;
    }
    let ext = line[0] == 0x54 || line[0] == 0x52;
    let p: usize = if ext {
        9
    } else {
        4
    };
    if line.len() <= p {
        return false;
    }
    if hex_to_u32(&line[1..p]).is_none() {
        return false;
    }
    let c = line[p];
    if !((0x30 <= c && c <= 0x39) || (0x61 <= c && c <= 0x66) || (0x41 <= c && c <= 0x46)) {
        return false;
    }
    let n = hex_digit_to_int(c) as usize;
    if n > 8 {
        return false;
    }
    if line.len() < p + 1 + 2 * n {
        return false;
    }
    let mut k: usize = p + 1;
    while k < p + 1 + 2 * n
        invariant
            p == length_pos(line_ext(line@)),
            n == hex_digit_value(line@[p as int]),
            n <= 8,
            p + 1 + 2 * n <= line@.len(),
            p + 1 <= k <= p + 1 + 2 * n,
            forall|j: int| p + 1 <= j < k ==> is_hex_digit(#[trigger] line@[j]),
        decreases p + 1 + 2 * n - k,
    {
        let d = line[k];
        if !((0x30 <= d && d <= 0x39) || (0x61 <= d && d <= 0x66) || (0x41 <= d && d <= 0x46)) {
            return false;
        }
        k = k + 1;
    }
    true
}

/// Reads a line into a frame: the first byte gives the kind (`T` and `R`
/// extended, `r` and `R` remote, anything else a standard data frame), the
/// identifier field is read by `hex_to_u32`, then the length digit and the
/// payload bytes that it counts. Bytes after them are not looked at. Lines
/// that this cannot read (see `serial_line_well_formed`) are refused by
/// `requires`; every other line gives `Ok`.
pub fn parse_serial_line(line: &[u8]) -> (result: Result<CanFrame, String>)
    requires
        serial_line_well_formed(line@),
    ensures
        result matches Ok(frame) && frame@ == parsed_frame(line@),
{
    let mut frame = CanFrame::new();
    frame.ext = line[0] == 0x54 || line[0] == 0x52;
    frame.rtr = line[0] == 0x72 || line[0] == 0x52;

    let data_offset: usize;
    if !frame.ext {
        frame.id = hex_to_u32(&line[1..4]).unwrap();
        frame.length = hex_digit_to_int(line[4]) as usize;
        data_offset = 5;
    } else {
        frame.id = hex_to_u32(&line[1..9]).unwrap();
        frame.length = hex_digit_to_int(line[9]) as usize;
        data_offset = 10;
    }

    let ghost p = length_pos(line_ext(line@));
    let ghost n = frame.length as int;
    let mut i: usize = 0;
    while i < frame.length
        invariant
            data_offset == p + 1,
            n == frame.length,
            n == hex_digit_value(line@[p]),
            serial_line_well_formed(line@),
            p == length_pos(line_ext(line@)),
            frame.id == hex_to_u32_spec(line@.subrange(1, p)).unwrap(),
            frame.ext == line_ext(line@),
            frame.rtr == line_rtr(line@),
            0 <= i <= n,
            n <= 8,
            frame.data@.len() == 8,
            forall|k: int| 0 <= k < i ==> frame.data@[k] == hex_pair_value(line@[p + 1 + 2 * k], line@[p + 2 + 2 * k]),
            forall|k: int| i <= k < 8 ==> frame.data@[k] == 0u8,
        decreases n - i,
    {
        let hi = line[data_offset + 2 * i];
        let lo = line[data_offset + 2 * i + 1];
        assert(is_hex_digit(line@[p + 1 + 2 * i]));
        assert(is_hex_digit(line@[p + 2 + 2 * i]));
        let h = hex_digit_to_int(hi);
        let l = hex_digit_to_int(lo);
        assert(h < 16 && l < 16 ==> (h << 4u8) | l == h * 16 + l) by (bit_vector);
        frame.data[i] = (h << 4) | l;
        i = i + 1;
    }
    assert(frame@.data =~= parsed_frame(line@).data);
    Ok(frame)
}


// ---------------------------------------------------------------------------
// Cutting lines out of a stream

/// Where the first carriage return in `s` stands, if any.
pub open spec fn first_cr(s: Seq<u8>) -> Option<int>
    decreases s.len(),
{
    if s.len() == 0 {
        None
    } else if s[0] == CR {
        Some(0)
    } else {
        match first_cr(s.drop_first()) {
            Some(k) => Some(k + 1),
            None => None,
        }
    }
}

/// The first complete line of `s`, carriage return included, if there is one.
pub open spec fn next_line(s: Seq<u8>) -> Option<Seq<u8>> {
    match first_cr(s) {
        Some(n) => Some(s.take(n + 1)),
        None => None,
    }
}

/// What is left of `s` once its first complete line is taken off.
pub open spec fn after_next_line(s: Seq<u8>) -> Seq<u8> {
    match first_cr(s) {
        Some(n) => s.skip(n + 1),
        None => s,
    }
}

/// `first_cr` found by a scan from the front.
proof fn lemma_first_cr_scan(s: Seq<u8>, i: int)
    requires
        0 <= i <= s.len(),
        forall|j: int| 0 <= j < i ==> s[j] != CR,
    ensures
        i < s.len() && s[i] == CR ==> first_cr(s) == Some(i),
        i == s.len() ==> first_cr(s) is None,
    decreases i,
{
    if i > 0 {
        lemma_first_cr_scan(s.drop_first(), i - 1);
    }
}

/// The position of the first carriage return in `s`.
pub fn find_cr(s: &[u8]) -> (pos: Option<usize>)
    ensures
        pos matches Some(n) ==> n < s.len() && s@[n as int] == CR && first_cr(s@) == Some(n as int),
        pos is None ==> first_cr(s@) is None,
{
    let mut i: usize = 0;
    while i < s.len()
        invariant
            0 <= i <= s@.len(),
            forall|j: int| 0 <= j < i ==> s@[j] != CR,
        decreases s.len() - i,
    {
        if s[i] == CR {
            proof {
                lemma_first_cr_scan(s@, i as int);
            }
            return Some(i);
        }
        i = i + 1;
    }
    proof {
        lemma_first_cr_scan(s@, i as int);
    }
    None
}

/// Whether the first complete line of the buffer, if there is one, is one
/// that `parse_serial_line` reads.
pub open spec fn next_line_readable(s: Seq<u8>) -> bool {
    next_line(s) matches Some(l) ==> serial_line_well_formed(l)
}

/// The codec that turns a byte stream into frames, one line per frame, and
/// frames into lines.
pub struct CanFrameCodec;

impl CanFrameCodec {
    /// Whether `decode` can be called on `src`: true unless the buffer holds
    /// a complete first line that `parse_serial_line` cannot read.
    pub fn can_decode(&self, src: &BytesMut) -> (ok: bool)
        ensures
            ok == next_line_readable(buffer_contents(*src)),
    {
        let bytes = buffer_bytes(src);
        match find_cr(bytes) {
            Some(n) => {
                assert(bytes@.take(n + 1) =~= bytes@.subrange(0, n + 1));
                check_serial_line(&bytes[0..n + 1])
            },
            None => true,
        }
    }

    /// Takes the first complete line off the front of `src` and reads it as
    /// a frame. Without a carriage return in `src` nothing is taken and the
    /// result is `None`. A first line that `parse_serial_line` cannot read
    /// is refused by `requires` (`can_decode` tells).
    pub fn decode(&mut self, src: &mut BytesMut) -> (frame: Option<CanFrame>)
        requires
            next_line_readable(buffer_contents(*old(src))),
        ensures
            buffer_contents(*final(src)) == after_next_line(buffer_contents(*old(src))),
            match next_line(buffer_contents(*old(src))) {
                Some(l) => frame matches Some(f) && f@ == parsed_frame(l),
                None => frame is None,
            },
    {
        let newline = find_cr(buffer_bytes(src));
        if let Some(n) = newline {
            let line = buffer_split_to(src, n + 1);
            let bytes = buffer_bytes(&line);
            return Some(parse_serial_line(bytes).unwrap());
        }
        None
    }

    /// Appends the line for `item` at the back of `dst`. A length above 8 is
    /// refused by `requires`, as `frame_to_serial_line` says.
    pub fn encode(&mut self, item: CanFrame, dst: &mut BytesMut)
        requires
            item.length <= 8,
            buffer_contents(*old(dst)).len() + 27 <= isize::MAX,
        ensures
            buffer_contents(*final(dst)) == buffer_contents(*old(dst)) + serial_line(item@),
    {
        let line = frame_to_serial_line(item);
        proof {
            lemma_serial_line_len(item@);
        }
        buffer_extend(dst, line.as_slice());
    }
}

/// How long the line for a frame is: its letter, the identifier field,
/// the length digit, two digits per payload byte and the carriage return.
pub proof fn lemma_serial_line_len(f: FrameModel)
    requires
        f.length <= 8,
        f.data.len() == 8,
    ensures
        serial_line(f).len() == id_field_width(f.ext) + 3 + 2 * f.length,
        serial_line(f).len() <= 27,
{
    lemma_hex_upper_len(f.length as nat, 1);
    lemma_data_text_len(f.data.take(f.length as int));
}

/// `hex_upper` has exactly `width` characters.
pub proof fn lemma_hex_upper_len(n: nat, width: nat)
    ensures
        hex_upper(n, width).len() == width,
    decreases width,
{
    if width > 0 {
        lemma_hex_upper_len(n / 16, (width - 1) as nat);
    }
}

/// `data_text` has two characters per byte.
pub proof fn lemma_data_text_len(data: Seq<u8>)
    ensures
        data_text(data).len() == 2 * data.len(),
    decreases data.len(),
{
    if data.len() > 0 {
        lemma_data_text_len(data.drop_last());
        lemma_hex_upper_len(data.last() as nat, 2);
    }
}


// ---------------------------------------------------------------------------
// Reading back what was written

/// Whether the last `width` base-16 digits of `n` are all below ten, so that
/// its upper-case text has no letter in it.
pub open spec fn nibbles_decimal(n: nat, width: nat) -> bool
    decreases width,
{
    width == 0 || (n % 16 < 10 && nibbles_decimal(n / 16, (width - 1) as nat))
}

/// Whether the text of identifier `id` fills the identifier field of its
/// kind exactly (at most 0x800 for a standard frame, above 0x800 for an
/// extended one) and is made of decimal digits only.
pub open spec fn id_reads_back(id: u32, ext: bool) -> bool {
    &&& (if ext { id > 0x800 } else { id <= 0x800 })
    &&& nibbles_decimal(id as nat, id_field_width(ext))
}

/// The payload bytes that `length` covers, then zeros up to eight bytes.
pub open spec fn payload_cut(data: Seq<u8>, length: nat) -> Seq<u8> {
    Seq::new(8, |k: int| if k < length { data[k] } else { 0u8 })
}

/// A hexadecimal digit written by `hex_char_upper` reads back as its value.
proof fn lemma_hex_char_reads_back(d: nat)
    requires
        d < 16,
    ensures
        is_hex_digit(hex_char_upper(d)),
        hex_digit_value(hex_char_upper(d)) == d,
        hex_char_upper(d) >= 0x30,
        d < 10 ==> id_nibble(hex_char_upper(d)) == Some(d as u32),
{
}

/// Every character of `hex_upper` is a hexadecimal digit.
proof fn lemma_hex_upper_digits(n: nat, width: nat)
    ensures
        hex_upper(n, width).len() == width,
        forall|i: int|
            0 <= i < width ==> is_hex_digit(#[trigger] hex_upper(n, width)[i]) && hex_upper(
                n,
                width,
            )[i] >= 0x30,
    decreases width,
{
    if width > 0 {
        lemma_hex_upper_digits(n / 16, (width - 1) as nat);
        lemma_hex_char_reads_back(n % 16);
    }
}

/// An identifier text of decimal digits reads back as the number written.
proof fn lemma_hex_upper_reads_back(n: nat, width: nat)
    requires
        nibbles_decimal(n, width),
        n < pow16(width),
    ensures
        id_digits_value(hex_upper(n, width)) == Some(n),
    decreases width,
{
    if width > 0 {
        let w1 = (width - 1) as nat;
        let q = n / 16;
        assert(q < pow16(w1)) by (nonlinear_arith)
            requires
                n < 16 * pow16(w1),
                q == n / 16,
        ;
        lemma_hex_upper_reads_back(q, w1);
        lemma_hex_char_reads_back(n % 16);
        let t = hex_upper(n, width);
        assert(t.drop_last() =~= hex_upper(q, w1));
        assert(t.last() == hex_char_upper(n % 16));
    } else {
        assert(n == 0);
    }
}

/// Where the two digits of each payload byte stand in `data_text`.
proof fn lemma_data_text_index(data: Seq<u8>, k: int)
    requires
        0 <= k < data.len(),
    ensures
        data_text(data).len() == 2 * data.len(),
        data_text(data)[2 * k] == hex_char_upper((data[k] / 16) as nat),
        data_text(data)[2 * k + 1] == hex_char_upper((data[k] % 16) as nat),
    decreases data.len(),
{
    lemma_data_text_len(data);
    let x = data.last() as nat;
    lemma_hex_upper_len(x, 2);
    reveal_with_fuel(hex_upper, 3);
    assert(hex_upper(x, 2) =~= seq![hex_char_upper((x / 16) % 16), hex_char_upper(x % 16)]);
    if k < data.len() - 1 {
        lemma_data_text_index(data.drop_last(), k);
        lemma_data_text_len(data.drop_last());
    }
}

/// Every character of `data_text` is a hexadecimal digit.
proof fn lemma_data_text_digits(data: Seq<u8>)
    ensures
        forall|i: int|
            0 <= i < data_text(data).len() ==> is_hex_digit(#[trigger] data_text(data)[i])
                && data_text(data)[i] >= 0x30,
    decreases data.len(),
{
    lemma_data_text_len(data);
    if data.len() > 0 {
        lemma_data_text_digits(data.drop_last());
        lemma_data_text_len(data.drop_last());
        lemma_hex_upper_digits(data.last() as nat, 2);
    }
}

/// Reading the line written for a frame gives the frame back, its payload
/// bytes past the length set to zero, when its identifier text fills the
/// field of its kind and has no letter (letters in an identifier field
/// count from zero, and a text of the wrong width is cut or padded).
pub proof fn lemma_line_reads_back(f: FrameModel)
    requires
        f.length <= 8,
        f.data.len() == 8,
        id_reads_back(f.id, f.ext),
    ensures
        serial_line_well_formed(serial_line(f)),
        parsed_frame(serial_line(f)) == (FrameModel {
            id: f.id,
            ext: f.ext,
            rtr: f.rtr,
            length: f.length,
            data: payload_cut(f.data, f.length as nat),
        }),
{
    let l = serial_line(f);
    let w = id_field_width(f.ext);
    let p = length_pos(f.ext);
    let len = f.length as int;
    let text = canid_text(f.id);
    let dt = data_text(f.data.take(len));
    lemma_hex_upper_len(f.id as nat, w);
    lemma_hex_upper_len(f.length as nat, 1);
    lemma_data_text_len(f.data.take(len));
    lemma_data_text_digits(f.data.take(len));
    assert(text == hex_upper(f.id as nat, w));
    assert(fit_field(text, w) =~= text);
    reveal_with_fuel(hex_upper, 2);
    lemma_hex_char_reads_back(f.length as nat);
    let hl = hex_upper(f.length as nat, 1);
    assert(hl[0] == hex_char_upper(f.length as nat));

    assert(l.len() == p + 2 + 2 * len);
    assert(l[0] == kind_byte(f.ext, f.rtr));
    assert(line_ext(l) == f.ext);
    assert(line_rtr(l) == f.rtr);
    assert(l.subrange(1, p) =~= text);
    assert(l[p] == hl[0]);
    assert(forall|i: int| 0 <= i < 2 * len ==> l[p + 1 + i] == dt[i]);

    // The identifier field.
    reveal_with_fuel(pow16, 9);
    lemma_hex_upper_reads_back(f.id as nat, w);

    // The payload digits.
    assert forall|k: int| p + 1 <= k < p + 1 + 2 * len implies is_hex_digit(#[trigger] l[k]) by {
        assert(l[k] == dt[k - p - 1]);
    }
    assert(serial_line_well_formed(l));

    let pf = parsed_frame(l);
    assert forall|k: int| 0 <= k < 8 implies pf.data[k] == payload_cut(f.data, f.length as nat)[k] by {
        if k < len {
            lemma_data_text_index(f.data.take(len), k);
            let x = f.data[k];
            assert(l[p + 1 + 2 * k] == dt[2 * k]);
            assert(l[p + 2 + 2 * k] == dt[2 * k + 1]);
            lemma_hex_char_reads_back((x / 16) as nat);
            lemma_hex_char_reads_back((x % 16) as nat);
        }
    }
    assert(pf.data =~= payload_cut(f.data, f.length as nat));
}

/// In a stream that holds the line written for a frame followed by anything
/// else, the first complete line is exactly that line, and what is left
/// after it is the rest of the stream; when the frame's identifier reads
/// back (see `lemma_line_reads_back`), that line is readable.
pub proof fn lemma_line_cut_from_stream(f: FrameModel, rest: Seq<u8>)
    requires
        f.length <= 8,
        f.data.len() == 8,
    ensures
        next_line(serial_line(f) + rest) == Some(serial_line(f)),
        after_next_line(serial_line(f) + rest) == rest,
        id_reads_back(f.id, f.ext) ==> next_line_readable(serial_line(f) + rest),
{
    let l = serial_line(f);
    let s = l + rest;
    let w = id_field_width(f.ext);
    let p = length_pos(f.ext);
    let len = f.length as int;
    let field = fit_field(canid_text(f.id), w);
    let dt = data_text(f.data.take(len));
    lemma_hex_upper_digits(f.id as nat, if f.id <= 0x800 { 3 } else { 8 });
    lemma_hex_upper_digits(f.length as nat, 1);
    lemma_data_text_len(f.data.take(len));
    lemma_data_text_digits(f.data.take(len));
    assert(field.len() == w);
    assert(forall|i: int| 0 <= i < w ==> #[trigger] field[i] != CR);
    assert(l.len() == p + 2 + 2 * len);
    assert forall|j: int| 0 <= j < l.len() - 1 implies s[j] != CR by {
        if j == 0 {
        } else if j < p {
            assert(s[j] == field[j - 1]);
        } else if j == p {
        } else {
            assert(s[j] == dt[j - p - 1]);
        }
    }
    assert(s[l.len() - 1] == CR);
    lemma_first_cr_scan(s, l.len() - 1);
    assert(s.take(l.len() as int) =~= l);
    assert(s.skip(l.len() as int) =~= rest);
    if id_reads_back(f.id, f.ext) {
        lemma_line_reads_back(f);
    }
}


/// A decimal digit or an upper-case hexadecimal letter: the characters that
/// `frame_to_serial_line` writes.
pub open spec fn is_upper_hex_digit(b: u8) -> bool {
    (0x30 <= b <= 0x39) || (0x41 <= b <= 0x46)
}

/// The lines that `frame_to_serial_line` writes back unchanged from the
/// frame they describe: readable, starting with `t`, `r`, `T` or `R`,
/// ending with the carriage return right after the payload digits, with an
/// identifier field of decimal digits whose value fits that field (at most
/// 0x800 for a standard frame, above 0x800 for an extended one), and with
/// upper-case payload digits.
pub open spec fn canonical_line(l: Seq<u8>) -> bool {
    &&& serial_line_well_formed(l)
    &&& (l[0] == 0x74 || l[0] == 0x72 || l[0] == 0x54 || l[0] == 0x52)
    &&& l.len() == length_pos(line_ext(l)) + 2 + 2 * hex_digit_value(l[length_pos(line_ext(l))])
    &&& l.last() == CR
    &&& forall|k: int| 1 <= k < length_pos(line_ext(l)) ==> 0x30 <= #[trigger] l[k] <= 0x39
    &&& (if line_ext(l) {
        hex_to_u32_spec(l.subrange(1, length_pos(line_ext(l)))).unwrap() > 0x800
    } else {
        hex_to_u32_spec(l.subrange(1, length_pos(line_ext(l)))).unwrap() <= 0x800
    })
    &&& forall|k: int|
        length_pos(line_ext(l)) + 1 <= k < l.len() - 1 ==> is_upper_hex_digit(#[trigger] l[k])
}

/// Decimal digits read as a number and written back with as many digits
/// give the same characters.
proof fn lemma_decimal_digits_write_back(s: Seq<u8>)
    requires
        forall|k: int| 0 <= k < s.len() ==> 0x30 <= #[trigger] s[k] <= 0x39,
    ensures
        id_digits_value(s) is Some,
        hex_upper(id_digits_value(s).unwrap(), s.len()) == s,
    decreases s.len(),
{
    if s.len() > 0 {
        let t = s.drop_last();
        assert forall|k: int| 0 <= k < t.len() implies 0x30 <= #[trigger] t[k] <= 0x39 by {
            assert(t[k] == s[k]);
        }
        lemma_decimal_digits_write_back(t);
        let v = id_digits_value(t).unwrap();
        let d = (s.last() - 0x30) as nat;
        assert(id_digits_value(s) == Some(v * 16 + d));
        assert((v * 16 + d) / 16 == v);
        assert((v * 16 + d) % 16 == d);
        assert(hex_upper(v * 16 + d, s.len()) =~= s);
    } else {
        assert(hex_upper(0, 0) =~= s);
    }
}

/// An upper-case hexadecimal digit reads as a value that is written back as
/// the same digit.
proof fn lemma_upper_digit_writes_back(c: u8)
    requires
        is_upper_hex_digit(c),
    ensures
        hex_digit_value(c) < 16,
        hex_char_upper(hex_digit_value(c) as nat) == c,
{
}

/// Writing the frame read from a line gives the line back, when the line is
/// written the way `frame_to_serial_line` writes (see `canonical_line`).
pub proof fn lemma_frame_writes_back(l: Seq<u8>)
    requires
        canonical_line(l),
    ensures
        serial_line(parsed_frame(l)) == l,
{
    let f = parsed_frame(l);
    let ext = line_ext(l);
    let p = length_pos(ext);
    let n = hex_digit_value(l[p]) as int;
    let w = id_field_width(ext);
    let field = l.subrange(1, p);

    // The letter.
    assert(kind_byte(f.ext, f.rtr) == l[0]);

    // The identifier field.
    assert forall|k: int| 0 <= k < field.len() implies 0x30 <= #[trigger] field[k] <= 0x39 by {
        assert(field[k] == l[k + 1]);
    }
    lemma_decimal_digits_write_back(field);
    assert(field.len() == w);
    lemma_id_digits_bound(field);
    lemma_pow16_monotonic(w, 8);
    lemma_pow16_8();
    assert(f.id as nat == id_digits_value(field).unwrap());
    assert(canid_text(f.id) == hex_upper(f.id as nat, w));
    lemma_hex_upper_len(f.id as nat, w);
    assert(fit_field(canid_text(f.id), w) =~= field);

    // The length digit.
    assert(0x30 <= l[p] <= 0x38);
    reveal_with_fuel(hex_upper, 2);
    assert(hex_upper(f.length as nat, 1) =~= seq![l[p]]);

    // The payload digits.
    let d = f.data.take(n);
    let dl = l.subrange(p + 1, p + 1 + 2 * n);
    lemma_data_text_len(d);
    assert forall|i: int| 0 <= i < dl.len() implies #[trigger] data_text(d)[i] == dl[i] by {
        let k = i / 2;
        assert(0 <= k < n);
        lemma_data_text_index(d, k);
        let hi = l[p + 1 + 2 * k];
        let lo = l[p + 2 + 2 * k];
        assert(is_upper_hex_digit(hi));
        assert(is_upper_hex_digit(lo));
        lemma_upper_digit_writes_back(hi);
        lemma_upper_digit_writes_back(lo);
        let x = hex_pair_value(hi, lo);
        assert(d[k] == x);
        assert(x / 16 == hex_digit_value(hi));
        assert(x % 16 == hex_digit_value(lo));
        if i % 2 == 0 {
            assert(i == 2 * k);
        } else {
            assert(i == 2 * k + 1);
        }
    }
    assert(data_text(d) =~= dl);
    assert(serial_line(f) =~= l);
}


// ---------------------------------------------------------------------------
// Laws over all inputs

/// An ASCII hexadecimal digit, as `u8::is_ascii_hexdigit` has it.
pub open spec fn is_ascii_hexdigit(b: u8) -> bool {
    (0x30u8 <= b <= 0x39u8) || (0x61u8 <= b <= 0x66u8) || (0x41u8 <= b <= 0x46u8)
}

/// Hexadecimal digits count the same in either case, in order: `0`-`9`
/// count 0 to 9, and `a`-`f` and `A`-`F` both count 10 to 15.
pub proof fn law_hex_digit_values()
    ensures
        forall|b: u8| is_hex_digit(b) <==> is_ascii_hexdigit(b),
        forall|d: u8| d < 10 ==> #[trigger] hex_digit_value((0x30u8 + d) as u8) == d,
        forall|d: u8| d < 6 ==> #[trigger] hex_digit_value((0x41u8 + d) as u8) == 10 + d,
        forall|d: u8| d < 6 ==> #[trigger] hex_digit_value((0x61u8 + d) as u8) == 10 + d,
{
}

/// The identifier characters that count for something are exactly the
/// ASCII hexadecimal digits.
proof fn lemma_id_digits_some(s: Seq<u8>)
    ensures
        id_digits_value(s) is Some <==> forall|k: int| 0 <= k < s.len() ==> is_ascii_hexdigit(#[trigger] s[k]),
    decreases s.len(),
{
    if s.len() > 0 {
        lemma_id_digits_some(s.drop_last());
        if id_digits_value(s) is Some {
            assert forall|k: int| 0 <= k < s.len() implies is_ascii_hexdigit(#[trigger] s[k]) by {
                if k < s.len() - 1 {
                    assert(s.drop_last()[k] == s[k]);
                }
            }
        } else if forall|k: int| 0 <= k < s.len() ==> is_ascii_hexdigit(#[trigger] s[k]) {
            assert forall|k: int| 0 <= k < s.drop_last().len() implies is_ascii_hexdigit(
                #[trigger] s.drop_last()[k],
            ) by {
                assert(s.drop_last()[k] == s[k]);
            }
            assert(is_ascii_hexdigit(s[s.len() - 1]));
        }
    }
}

/// `hex_to_u32` over all inputs: nothing for no character, for more than
/// eight, or when any character is not a hexadecimal digit; one more
/// character after a readable text shifts its value up by one digit and
/// adds what the new character counts (its value for `0`-`9`, its distance
/// from `A` or `a` for a letter).
pub proof fn law_hex_to_u32(s: Seq<u8>, c: u8)
    ensures
        s.len() == 0 || s.len() > 8 ==> hex_to_u32_spec(s) is None,
        1 <= s.len() <= 8 ==> (hex_to_u32_spec(s) is Some <==> forall|k: int|
            0 <= k < s.len() ==> is_ascii_hexdigit(#[trigger] s[k])),
        s.len() < 8 && (s.len() == 0 || hex_to_u32_spec(s) is Some) && is_ascii_hexdigit(c)
            ==> hex_to_u32_spec(s.push(c)) == Some(
            ((if s.len() == 0 { 0 } else { hex_to_u32_spec(s).unwrap() as nat }) * 16 + if 0x30u8 <= c
                <= 0x39u8 {
                c - 0x30u8
            } else if 0x41u8 <= c <= 0x46u8 {
                c - 0x41u8
            } else {
                c - 0x61u8
            }) as u32,
        ),
{
    lemma_id_digits_some(s);
    let t = s.push(c);
    assert(t.drop_last() =~= s);
    lemma_id_digits_bound(s);
    lemma_id_digits_bound(t);
    if t.len() <= 8 {
        lemma_pow16_monotonic(t.len(), 8);
    }
    lemma_pow16_8();
    if s.len() == 0 {
        assert(id_digits_value(s) == Some(0nat));
    }
}

/// Which lines `parse_serial_line` reads (and `check_serial_line` accepts):
/// exactly those with a first byte; an identifier field after it of eight
/// characters when that byte is `T` or `R` and of three otherwise, all
/// hexadecimal digits of either case; a length digit `0` to `8`; and two
/// hexadecimal digits of either case per payload byte. The value of the
/// identifier plays no part.
pub proof fn law_readable_lines(l: Seq<u8>)
    ensures
        serial_line_well_formed(l) <==> {
            &&& l.len() >= 1
            &&& l.len() > (if l[0] == 0x54u8 || l[0] == 0x52u8 { 9int } else { 4int })
            &&& forall|k: int|
                1 <= k < (if l[0] == 0x54u8 || l[0] == 0x52u8 { 9int } else { 4int })
                    ==> is_ascii_hexdigit(#[trigger] l[k])
            &&& 0x30u8 <= l[if l[0] == 0x54u8 || l[0] == 0x52u8 { 9int } else { 4int }] <= 0x38u8
            &&& (if l[0] == 0x54u8 || l[0] == 0x52u8 { 9int } else { 4int }) + 1 + 2 * (l[if l[0]
                == 0x54u8 || l[0] == 0x52u8 { 9int } else { 4int }] - 0x30u8) <= l.len()
            &&& forall|k: int|
                (if l[0] == 0x54u8 || l[0] == 0x52u8 { 9int } else { 4int }) + 1 <= k < (if l[0] == 0x54u8
                    || l[0] == 0x52u8 { 9int } else { 4int }) + 1 + 2 * (l[if l[0] == 0x54u8 || l[0]
                    == 0x52u8 { 9int } else { 4int }] - 0x30u8) ==> is_ascii_hexdigit(#[trigger] l[k])
        },
{
    if l.len() >= 1 {
        let p: int = if l[0] == 0x54u8 || l[0] == 0x52u8 { 9 } else { 4 };
        assert(p == length_pos(line_ext(l)));
        if l.len() > p {
            let f = l.subrange(1, p);
            lemma_id_digits_some(f);
            assert(forall|k: int| 0 <= k < f.len() ==> f[k] == l[k + 1]);
            assert((forall|k: int| 0 <= k < f.len() ==> is_ascii_hexdigit(#[trigger] f[k]))
                <==> (forall|k: int| 1 <= k < p ==> is_ascii_hexdigit(#[trigger] l[k]))) by {
                if forall|k: int| 0 <= k < f.len() ==> is_ascii_hexdigit(#[trigger] f[k]) {
                    assert forall|k: int| 1 <= k < p implies is_ascii_hexdigit(#[trigger] l[k]) by {
                        assert(f[k - 1] == l[k]);
                    }
                }
            }
        }
    }
}

/// What `parse_serial_line` reads from each part of a readable line: the
/// extended flag from a first byte `T` or `R` and the remote flag from `r`
/// or `R` (whatever the identifier), the identifier from the field after the
/// first byte, the length from the digit after that, each payload byte from
/// its two digits, high first, and zero for the bytes past the length.
pub proof fn law_parsed_fields(l: Seq<u8>)
    requires
        serial_line_well_formed(l),
    ensures
        parsed_frame(l).ext == (l[0] == 0x54u8 || l[0] == 0x52u8),
        parsed_frame(l).rtr == (l[0] == 0x72u8 || l[0] == 0x52u8),
        parsed_frame(l).id == hex_to_u32_spec(
            l.subrange(1, if l[0] == 0x54u8 || l[0] == 0x52u8 { 9int } else { 4int }),
        ).unwrap(),
        parsed_frame(l).length == l[if l[0] == 0x54u8 || l[0] == 0x52u8 { 9int } else { 4int }] - 0x30u8,
        parsed_frame(l).data.len() == 8,
        forall|k: int|
            0 <= k < parsed_frame(l).length ==> #[trigger] parsed_frame(l).data[k] == hex_digit_value(
                l[(if l[0] == 0x54u8 || l[0] == 0x52u8 { 9int } else { 4int }) + 1 + 2 * k],
            ) * 16 + hex_digit_value(l[(if l[0] == 0x54u8 || l[0] == 0x52u8 { 9int } else { 4int }) + 2 + 2 * k]),
        forall|k: int| parsed_frame(l).length <= k < 8 ==> #[trigger] parsed_frame(l).data[k] == 0,
{
    let p = length_pos(line_ext(l));
    assert(0x30 <= l[p] <= 0x38);
    assert forall|k: int|
        0 <= k < parsed_frame(l).length implies #[trigger] parsed_frame(l).data[k] == hex_digit_value(
            l[p + 1 + 2 * k],
        ) * 16 + hex_digit_value(l[p + 2 + 2 * k]) by {
        assert(is_hex_digit(l[p + 1 + 2 * k]));
        assert(is_hex_digit(l[p + 2 + 2 * k]));
    }
}

/// The first complete line of a stream ends at its first carriage return,
/// wherever that stands, and the rest of the stream follows it; a stream
/// without a carriage return has no complete line and is left whole.
pub proof fn law_next_line(s: Seq<u8>, n: int)
    ensures
        0 <= n < s.len() && s[n] == CR && (forall|j: int| 0 <= j < n ==> s[j] != CR)
            ==> next_line(s) == Some(s.take(n + 1)) && after_next_line(s) == s.skip(n + 1),
        (forall|j: int| 0 <= j < s.len() ==> s[j] != CR) ==> next_line(s) is None
            && after_next_line(s) == s,
{
    if 0 <= n < s.len() && s[n] == CR && (forall|j: int| 0 <= j < n ==> s[j] != CR) {
        lemma_first_cr_scan(s, n);
    }
    if forall|j: int| 0 <= j < s.len() ==> s[j] != CR {
        lemma_first_cr_scan(s, s.len() as int);
    }
}


/// The `i`-th character of `hex_upper(n, width)` is the digit of `n` worth
/// `16^(width - 1 - i)`.
proof fn lemma_hex_upper_index(n: nat, width: nat, i: int)
    requires
        0 <= i < width,
    ensures
        hex_upper(n, width)[i] == hex_char_upper((n / pow16((width - 1 - i) as nat)) % 16),
    decreases width,
{
    lemma_hex_upper_len(n, width);
    let w1 = (width - 1) as nat;
    lemma_hex_upper_len(n / 16, w1);
    let h = hex_upper(n, width);
    assert(h == hex_upper(n / 16, w1).push(hex_char_upper(n % 16)));
    if i < width - 1 {
        lemma_hex_upper_index(n / 16, w1, i);
        let j = (w1 - 1 - i) as nat;
        lemma_pow16_positive(j);
        lemma_div_denominator(n as int, 16, pow16(j) as int);
        assert(pow16((width - 1 - i) as nat) == 16 * pow16(j));
        assert(h[i] == hex_upper(n / 16, w1)[i]);
        assert((n / 16) / pow16(j) == n / pow16((width - 1 - i) as nat));
    } else {
        assert(pow16(0) == 1);
        assert(n / pow16(0) == n);
        assert(h[i] == hex_char_upper(n % 16));
    }
}

proof fn lemma_pow16_positive(n: nat)
    ensures
        pow16(n) > 0,
    decreases n,
{
    if n > 0 {
        lemma_pow16_positive((n - 1) as nat);
    }
}

/// Where everything stands in the line written for a frame: the letter
/// (`t`, `r`, `T`, `R` for standard/extended data/remote frames); from the
/// second byte on, the identifier's digits, upper case, most significant
/// first (three of them up to 0x800, eight above), cut to the field's width
/// (three, or eight for an extended frame) or followed by zero bytes up to
/// it; then the length as one decimal digit; then each payload byte the
/// length covers as two upper-case digits, high first; then a carriage
/// return, which ends the line.
pub proof fn law_serial_line_layout(f: FrameModel)
    requires
        f.length <= 8,
        f.data.len() == 8,
    ensures
        ({
            let l = serial_line(f);
            let p: int = if f.ext { 9 } else { 4 };
            let t: int = if f.id <= 0x800 { 3 } else { 8 };
            &&& l.len() == p + 2 + 2 * f.length
            &&& l[0] == (if f.ext {
                if f.rtr { 0x52u8 } else { 0x54u8 }
            } else {
                if f.rtr { 0x72u8 } else { 0x74u8 }
            })
            &&& forall|i: int|
                1 <= i < p && i <= t ==> #[trigger] l[i] == ({
                    let d = (f.id as nat / pow16((t - i) as nat)) % 16;
                    if d < 10 { 0x30 + d as int } else { 0x41 + d as int - 10 }
                })
            &&& forall|i: int| t < i < p ==> #[trigger] l[i] == 0
            &&& l[p] == 0x30 + f.length
            &&& forall|k: int|
                0 <= k < f.length ==> #[trigger] l[p + 1 + 2 * k] == ({
                    let d = f.data[k] / 16;
                    if d < 10 { 0x30 + d as int } else { 0x41 + d as int - 10 }
                }) && l[p + 2 + 2 * k] == ({
                    let d = f.data[k] % 16;
                    if d < 10 { 0x30 + d as int } else { 0x41 + d as int - 10 }
                })
            &&& l[p + 1 + 2 * f.length] == CR
        }),
{
    let l = serial_line(f);
    let p: int = if f.ext { 9 } else { 4 };
    let t: int = if f.id <= 0x800 { 3 } else { 8 };
    let w = id_field_width(f.ext);
    let len = f.length as int;
    let text = canid_text(f.id);
    let field = fit_field(text, w);
    let dt = data_text(f.data.take(len));
    lemma_serial_line_len(f);
    lemma_hex_upper_len(f.id as nat, t as nat);
    lemma_hex_upper_len(f.length as nat, 1);
    lemma_data_text_len(f.data.take(len));
    reveal_with_fuel(hex_upper, 2);
    assert(field.len() == w);
    assert forall|i: int| 1 <= i < p && i <= t implies #[trigger] l[i] == ({
        let d = (f.id as nat / pow16((t - i) as nat)) % 16;
        if d < 10 { 0x30 + d as int } else { 0x41 + d as int - 10 }
    }) by {
        assert(l[i] == field[i - 1]);
        assert(field[i - 1] == text[i - 1]);
        lemma_hex_upper_index(f.id as nat, t as nat, i - 1);
    }
    assert forall|i: int| t < i < p implies #[trigger] l[i] == 0 by {
        assert(l[i] == field[i - 1]);
    }
    assert forall|k: int| 0 <= k < f.length implies #[trigger] l[p + 1 + 2 * k] == ({
        let d = f.data[k] / 16;
        if d < 10 { 0x30 + d as int } else { 0x41 + d as int - 10 }
    }) && l[p + 2 + 2 * k] == ({
        let d = f.data[k] % 16;
        if d < 10 { 0x30 + d as int } else { 0x41 + d as int - 10 }
    }) by {
        lemma_data_text_index(f.data.take(len), k);
        assert(l[p + 1 + 2 * k] == dt[2 * k]);
        assert(l[p + 2 + 2 * k] == dt[2 * k + 1]);
    }
}


/// Writing a text over the front of a buffer keeps the buffer's length,
/// puts the text's characters first, as many as fit, and leaves every byte
/// after them as it was.
pub proof fn law_overwrite_prefix(buf: Seq<u8>, text: Seq<u8>)
    ensures
        overwrite_prefix(buf, text).len() == buf.len(),
        forall|i: int|
            0 <= i < buf.len() && i < text.len() ==> #[trigger] overwrite_prefix(buf, text)[i]
                == text[i],
        forall|i: int|
            text.len() <= i < buf.len() ==> #[trigger] overwrite_prefix(buf, text)[i] == buf[i],
{
}

} // verus!
