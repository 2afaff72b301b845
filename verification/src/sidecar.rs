//! The importer's raw RGBA sidecar: every frame's pixels exactly as imported,
//! behind a small header.
//!
//! Layout: the magic `DRGB`, a version byte (1), then the frame width, frame
//! height and frame count as little-endian `u32`s (17 bytes in all), then each
//! frame's RGBA bytes in order.

use vstd::prelude::*;
use crate::raster::{Image, ImageModel};
use crate::text::{decimal, push_decimal};

verus! {

pub const VERSION: u8 = 1;

pub const HEADER_SIZE: usize = 17;

/// `DRGB`.
pub open spec fn magic() -> Seq<u8> {
    seq![68u8, 82u8, 71u8, 66u8]
}

/// `u32::to_le_bytes`.
pub open spec fn le_bytes(v: u32) -> Seq<u8> {
    seq![(v % 256) as u8, ((v / 256) % 256) as u8, ((v / 65536) % 256) as u8, (v / 16777216) as u8]
}

/// The little-endian `u32` in the four bytes at `offset` (`u32::from_le_bytes`).
pub open spec fn le_value(bytes: Seq<u8>, offset: int) -> nat {
    (bytes[offset] + 256 * bytes[offset + 1] + 65536 * bytes[offset + 2] + 16777216 * bytes[offset
        + 3]) as nat
}

/// Every frame's bytes, one after another.
pub open spec fn pixel_bytes(frames: Seq<ImageModel>) -> Seq<u8>
    decreases frames.len(),
{
    if frames.len() == 0 {
        Seq::empty()
    } else {
        pixel_bytes(frames.drop_last()) + frames.last().pixels
    }
}

/// The sidecar for `frames` of `width` x `height`.
pub open spec fn spec_encode(width: u32, height: u32, frames: Seq<ImageModel>) -> Seq<u8> {
    magic() + seq![VERSION] + le_bytes(width) + le_bytes(height) + le_bytes(frames.len() as u32)
        + pixel_bytes(frames)
}

/// Frame `k` of a sidecar body whose frames are `fbl` bytes each.
pub open spec fn frame_at(bytes: Seq<u8>, width: nat, height: nat, fbl: nat, k: int) -> ImageModel {
    ImageModel {
        width,
        height,
        pixels: bytes.subrange(HEADER_SIZE + k * fbl, HEADER_SIZE + (k + 1) * fbl),
    }
}

/// What reading a sidecar gives: its frame size and frames, or why it was
/// refused. `path` names the file in the messages.
pub open spec fn spec_decode(bytes: Seq<u8>, path: Seq<char>) -> Result<
    (u32, u32, Seq<ImageModel>),
    Seq<char>,
> {
    if bytes.len() < HEADER_SIZE {
        Err(path + ": truncated header"@)
    } else if bytes.subrange(0, 4) != magic() {
        Err(path + ": bad magic"@)
    } else if bytes[4] != VERSION {
        Err(path + ": unsupported version "@ + decimal(bytes[4] as nat))
    } else {
        let width = le_value(bytes, 5);
        let height = le_value(bytes, 9);
        let count = le_value(bytes, 13);
        let fbl = width * height * 4;
        if fbl > usize::MAX {
            Err(path + ": declared frame size overflows"@)
        } else if count * fbl + HEADER_SIZE > usize::MAX {
            Err(path + ": declared frame count overflows"@)
        } else if bytes.len() != count * fbl + HEADER_SIZE {
            Err(path + ": declares "@ + decimal(count * fbl) + " frame bytes, has "@ + decimal(
                (bytes.len() - HEADER_SIZE) as nat,
            ))
        } else {
            Ok(
                (
                    width as u32,
                    height as u32,
                    Seq::new(count, |k: int| frame_at(bytes, width, height, fbl, k)),
                ),
            )
        }
    }
}

proof fn lemma_le_round_trip(v: u32)
    ensures
        le_value(le_bytes(v), 0) == v,
{
    let b = le_bytes(v);
    assert(v == (v % 256) + 256 * ((v / 256) % 256) + 65536 * ((v / 65536) % 256) + 16777216 * (v
        / 16777216)) by (bit_vector);
}

fn le_u32(b0: u8, b1: u8, b2: u8, b3: u8) -> (v: u32)
    ensures
        v == b0 + 256 * b1 + 65536 * b2 + 16777216 * b3,
{
    (b0 as u32) + (b1 as u32) * 256 + (b2 as u32) * 65536 + (b3 as u32) * 16777216
}

/// The little-endian `u32` at `offset`, or a refusal when the bytes end first.
pub fn read_u32_le(bytes: &[u8], offset: usize) -> (out: Result<u32, String>)
    requires
        offset + 4 <= usize::MAX,
    ensures
        match out {
            Ok(v) => offset + 4 <= bytes@.len() && v == le_value(bytes@, offset as int),
            Err(e) => offset + 4 > bytes@.len() && e@ == "truncated header"@,
        },
{
    if offset + 4 > bytes.len() {
        return Err(String::from_str("truncated header"));
    }
    Ok(le_u32(bytes[offset], bytes[offset + 1], bytes[offset + 2], bytes[offset + 3]))
}

fn push_le(out: &mut Vec<u8>, v: u32)
    ensures
        final(out)@ == old(out)@ + le_bytes(v),
{
    out.push((v % 256) as u8);
    out.push(((v / 256) % 256) as u8);
    out.push(((v / 65536) % 256) as u8);
    out.push((v / 16777216) as u8);
    assert(final(out)@ =~= old(out)@ + le_bytes(v));
}

pub open spec fn models(frames: Seq<Image>) -> Seq<ImageModel> {
    frames.map_values(|f: Image| f@)
}

/// The sidecar bytes for `frames`, each `frame_width` x `frame_height`.
pub fn encode_sidecar(frame_width: u32, frame_height: u32, frames: &Vec<Image>) -> (out: Vec<u8>)
    requires
        frame_width * frame_height * 4 <= usize::MAX,
        HEADER_SIZE + frames@.len() * (frame_width * frame_height * 4) <= usize::MAX,
    ensures
        out@ == spec_encode(frame_width, frame_height, models(frames@)),
{
    let ghost m = models(frames@);
    let mut bytes: Vec<u8> = Vec::new();
    bytes.push(68);
    bytes.push(82);
    bytes.push(71);
    bytes.push(66);
    bytes.push(VERSION);
    push_le(&mut bytes, frame_width);
    push_le(&mut bytes, frame_height);
    push_le(&mut bytes, frames.len() as u32);
    let ghost header = bytes@;
    assert(header =~= magic() + seq![VERSION] + le_bytes(frame_width) + le_bytes(frame_height)
        + le_bytes(frames@.len() as u32));
    let mut i: usize = 0;
    assert(m.take(0) =~= Seq::<ImageModel>::empty());
    assert(header + pixel_bytes(m.take(0)) =~= header);
    while i < frames.len()
        invariant
            m == models(frames@),
            i <= frames@.len(),
            bytes@ == header + pixel_bytes(m.take(i as int)),
        decreases frames.len() - i,
    {
        let raw = frames[i].as_raw();
        let mut j: usize = 0;
        let ghost start = bytes@;
        while j < raw.len()
            invariant
                j <= raw@.len(),
                bytes@ == start + raw@.take(j as int),
            decreases raw.len() - j,
        {
            bytes.push(raw[j]);
            j = j + 1;
            assert(bytes@ =~= start + raw@.take(j as int));
        }
        assert(raw@.take(j as int) =~= raw@);
        assert(m.take(i + 1).drop_last() =~= m.take(i as int));
        assert(m.take(i + 1).last() == frames@[i as int]@);
        assert(bytes@ =~= header + pixel_bytes(m.take(i + 1)));
        i = i + 1;
    }
    assert(m.take(i as int) =~= m);
    bytes
}

fn copy_range(bytes: &[u8], start: usize, end: usize) -> (out: Vec<u8>)
    requires
        start <= end <= bytes@.len(),
    ensures
        out@ == bytes@.subrange(start as int, end as int),
{
    let mut out: Vec<u8> = Vec::new();
    let mut i: usize = start;
    while i < end
        invariant
            start <= i <= end <= bytes@.len(),
            out@ == bytes@.subrange(start as int, i as int),
        decreases end - i,
    {
        out.push(bytes[i]);
        i = i + 1;
        assert(out@ =~= bytes@.subrange(start as int, i as int));
    }
    out
}

/// `path`, a colon, and the reason.
fn prefixed(path: &str, reason: String) -> (message: String)
    ensures
        message@ == path@ + ": "@ + reason@,
{
    let mut message = String::from_str(path);
    message.append(": ");
    message.append(reason.as_str());
    message
}

/// Reads a sidecar back into its frame size and frames; `path` names the file
/// in the messages.
pub fn decode_sidecar(bytes: &[u8], path: &str) -> (out: Result<(u32, u32, Vec<Image>), String>)
    ensures
        match out {
            Ok((w, h, frames)) => {
                &&& forall|k: int| 0 <= k < frames@.len() ==> (#[trigger] frames@[k]).wf()
                &&& spec_decode(bytes@, path@) == Ok::<(u32, u32, Seq<ImageModel>), Seq<char>>(
                    (w, h, models(frames@)),
                )
            },
            Err(e) => spec_decode(bytes@, path@) == Err::<(u32, u32, Seq<ImageModel>), Seq<char>>(
                e@,
            ),
        },
{
    if bytes.len() < HEADER_SIZE {
        let mut message = String::from_str(path);
        message.append(": truncated header");
        return Err(message);
    }
    if !(bytes[0] == 68 && bytes[1] == 82 && bytes[2] == 71 && bytes[3] == 66) {
        proof {
            if bytes@.subrange(0, 4) == magic() {
                assert(bytes@.subrange(0, 4)[0] == 68u8);
                assert(bytes@.subrange(0, 4)[1] == 82u8);
                assert(bytes@.subrange(0, 4)[2] == 71u8);
                assert(bytes@.subrange(0, 4)[3] == 66u8);
            }
        }
        let mut message = String::from_str(path);
        message.append(": bad magic");
        return Err(message);
    }
    assert(bytes@.subrange(0, 4) =~= magic());
    let version = bytes[4];
    if version != VERSION {
        let mut message = String::from_str(path);
        message.append(": unsupported version ");
        push_decimal(&mut message, version as u64);
        return Err(message);
    }
    let width = match read_u32_le(bytes, 5) {
        Ok(v) => v,
        Err(e) => return Err(prefixed(path, e)),
    };
    let height = match read_u32_le(bytes, 9) {
        Ok(v) => v,
        Err(e) => return Err(prefixed(path, e)),
    };
    let count = match read_u32_le(bytes, 13) {
        Ok(v) => v,
        Err(e) => return Err(prefixed(path, e)),
    };
    let fbl = match (width as usize).checked_mul(height as usize) {
        Some(pixels) => match pixels.checked_mul(4) {
            Some(n) => n,
            None => {
                let mut message = String::from_str(path);
                message.append(": declared frame size overflows");
                return Err(message);
            },
        },
        None => {
            proof {
                assert(width * height <= width * height * 4) by (nonlinear_arith);
            }
            let mut message = String::from_str(path);
            message.append(": declared frame size overflows");
            return Err(message);
        },
    };
    let expected = match (count as usize).checked_mul(fbl) {
        Some(body) => match body.checked_add(HEADER_SIZE) {
            Some(n) => n,
            None => {
                let mut message = String::from_str(path);
                message.append(": declared frame count overflows");
                return Err(message);
            },
        },
        None => {
            let mut message = String::from_str(path);
            message.append(": declared frame count overflows");
            return Err(message);
        },
    };
    if bytes.len() != expected {
        let mut message = String::from_str(path);
        message.append(": declares ");
        push_decimal(&mut message, (expected - HEADER_SIZE) as u64);
        message.append(" frame bytes, has ");
        push_decimal(&mut message, (bytes.len() - HEADER_SIZE) as u64);
        return Err(message);
    }
    let ghost want = Seq::new(
        count as nat,
        |k: int| frame_at(bytes@, width as nat, height as nat, fbl as nat, k),
    );
    let mut frames: Vec<Image> = Vec::new();
    let mut index: usize = 0;
    while index < count as usize
        invariant
            bytes@.len() == count * fbl + HEADER_SIZE,
            count * fbl + HEADER_SIZE <= usize::MAX,
            fbl == width * height * 4,
            index <= count,
            want == Seq::new(
                count as nat,
                |k: int| frame_at(bytes@, width as nat, height as nat, fbl as nat, k),
            ),
            forall|k: int| 0 <= k < frames@.len() ==> (#[trigger] frames@[k]).wf(),
            models(frames@) == want.take(index as int),
        decreases count - index,
    {
        proof {
            assert((index + 1) * fbl <= count * fbl) by (nonlinear_arith)
                requires
                    index < count,
            ;
            assert(index * fbl + fbl == (index + 1) * fbl) by (nonlinear_arith);
        }
        let start = HEADER_SIZE + index * fbl;
        let raw = copy_range(bytes, start, start + fbl);
        match Image::from_raw(width, height, raw) {
            Some(image) => {
                let ghost before = models(frames@);
                frames.push(image);
                proof {
                    assert(image@ == want[index as int]);
                    assert(models(frames@) =~= before.push(image@));
                    assert(models(frames@) =~= want.take(index + 1));
                }
            },
            None => {
                let mut message = String::from_str(path);
                message.append(": frame ");
                push_decimal(&mut message, index as u64);
                message.append(" has the wrong byte length");
                return Err(message);
            },
        }
        index = index + 1;
    }
    assert(want.take(index as int) =~= want);
    Ok((width, height, frames))
}

proof fn lemma_pixel_bytes(frames: Seq<ImageModel>, fbl: nat)
    requires
        forall|k: int| 0 <= k < frames.len() ==> (#[trigger] frames[k]).pixels.len() == fbl,
    ensures
        pixel_bytes(frames).len() == frames.len() * fbl,
        forall|k: int|
            0 <= k < frames.len() ==> pixel_bytes(frames).subrange(k * fbl, (k + 1) * fbl)
                == (#[trigger] frames[k]).pixels,
    decreases frames.len(),
{
    if frames.len() > 0 {
        let init = frames.drop_last();
        let n = frames.len();
        assert forall|k: int| 0 <= k < init.len() implies (#[trigger] init[k]).pixels.len()
            == fbl by {
            assert(init[k] == frames[k]);
        }
        lemma_pixel_bytes(init, fbl);
        let all = pixel_bytes(frames);
        assert((n - 1) * fbl + fbl == n * fbl) by (nonlinear_arith);
        assert forall|k: int| 0 <= k < n implies all.subrange(k * fbl, (k + 1) * fbl)
            == (#[trigger] frames[k]).pixels by {
            if k < n - 1 {
                assert((k + 1) * fbl <= (n - 1) * fbl) by (nonlinear_arith)
                    requires
                        k + 1 <= n - 1,
                ;
                assert(0 <= k * fbl) by (nonlinear_arith)
                    requires
                        0 <= k,
                ;
                let a = k * fbl;
                let b = (k + 1) * fbl;
                assert(b == a + fbl) by (nonlinear_arith)
                    requires
                        a == k * fbl,
                        b == (k + 1) * fbl,
                ;
                assert(all == pixel_bytes(init) + frames.last().pixels);
                assert(pixel_bytes(init).len() == (n - 1) * fbl);
                assert(all.subrange(a, b) =~= pixel_bytes(init).subrange(a, b));
                assert(init[k] == frames[k]);
            } else {
                assert(all == pixel_bytes(init) + frames.last().pixels);
                assert(pixel_bytes(init).len() == (n - 1) * fbl);
                assert(all.subrange(k * fbl, (k + 1) * fbl) =~= frames.last().pixels);
            }
        }
    }
}

/// Writing frames to a sidecar and reading the bytes back gives the same frame
/// size and the same frames, pixel for pixel.
pub proof fn law_sidecar_round_trip(
    width: u32,
    height: u32,
    frames: Seq<ImageModel>,
    path: Seq<char>,
)
    requires
        forall|k: int|
            0 <= k < frames.len() ==> {
                &&& (#[trigger] frames[k]).wf()
                &&& frames[k].width == width
                &&& frames[k].height == height
            },
        frames.len() <= u32::MAX,
        width * height * 4 <= usize::MAX,
        HEADER_SIZE + frames.len() * (width * height * 4) <= usize::MAX,
    ensures
        spec_decode(spec_encode(width, height, frames), path) == Ok::<
            (u32, u32, Seq<ImageModel>),
            Seq<char>,
        >((width, height, frames)),
{
    let fbl: nat = (width * height * 4) as nat;
    assert forall|k: int| 0 <= k < frames.len() implies (#[trigger] frames[k]).pixels.len()
        == fbl by {
        assert(frames[k].wf());
    }
    lemma_pixel_bytes(frames, fbl);
    let body = pixel_bytes(frames);
    let bytes = spec_encode(width, height, frames);
    let n = frames.len();
    let head = magic() + seq![VERSION] + le_bytes(width) + le_bytes(height) + le_bytes(n as u32);
    assert(head.len() == HEADER_SIZE);
    assert(bytes == head + body);
    assert(bytes.len() == HEADER_SIZE + n * fbl);
    assert(bytes.subrange(0, 4) =~= magic());
    assert(bytes[4] == VERSION);
    lemma_le_round_trip(width);
    lemma_le_round_trip(height);
    lemma_le_round_trip(n as u32);
    assert(le_value(bytes, 5) == le_value(le_bytes(width), 0));
    assert(le_value(bytes, 9) == le_value(le_bytes(height), 0));
    assert(le_value(bytes, 13) == le_value(le_bytes(n as u32), 0));
    let decoded = Seq::new(n, |k: int| frame_at(bytes, width as nat, height as nat, fbl, k));
    assert forall|k: int| 0 <= k < n implies #[trigger] decoded[k] == frames[k] by {
        assert((k + 1) * fbl <= n * fbl) by (nonlinear_arith)
            requires
                k + 1 <= n,
        ;
        assert(0 <= k * fbl) by (nonlinear_arith)
            requires
                0 <= k,
        ;
        let a = k * fbl;
        let b = (k + 1) * fbl;
        assert(b == a + fbl) by (nonlinear_arith)
            requires
                a == k * fbl,
                b == (k + 1) * fbl,
        ;
        assert(bytes.subrange(HEADER_SIZE + a, HEADER_SIZE + b) =~= body.subrange(a, b));
        assert(decoded[k].pixels == frames[k].pixels);
    }
    assert(decoded =~= frames);
}

} // verus!
