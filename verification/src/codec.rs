//! RFC 6381 codec identifiers, read out of the sample description.

use vstd::arithmetic::power2::{lemma2_to64, lemma_pow2_strictly_increases, lemma_pow2_unfold, pow2};
use vstd::prelude::*;
use vstd::slice::slice_subrange;
use vstd::string::*;
use vstd::utf8::{decode_utf8, valid_utf8};

use crate::boxes::{be32, bytes32, child, child_at, find_box, found, put32, u32be, Child};
use crate::mp4::Track;
use crate::text::{
    decimal, hex, hex_number, lossy_trimmed, push_decimal, push_hex, push_hex_number, trim_end,
    utf8_lossy,
};

verus! {

pub const AVC1: u32 = 0x6176_6331;
pub const AVC3: u32 = 0x6176_6333;
pub const AVCC: u32 = 0x6176_6343;
pub const HVC1: u32 = 0x6876_6331;
pub const HEV1: u32 = 0x6865_7631;
pub const HVCC: u32 = 0x6876_6343;
pub const MP4A: u32 = 0x6d70_3461;
pub const ESDS: u32 = 0x6573_6473;
pub const OPUS: u32 = 0x4f70_7573;
pub const AC_3: u32 = 0x6163_2d33;
pub const EC_3: u32 = 0x6563_2d33;

/// The type of the first sample entry of an `stsd` payload, and its body. The
/// entries follow 8 bytes of version, flags and entry count.
pub open spec fn first_entry(stsd: Seq<u8>) -> Option<(u32, Seq<u8>)> {
    if stsd.len() < 8 {
        None
    } else {
        let entries = stsd.skip(8);
        match child_at(entries, 0) {
            None => None,
            Some(c) => Some((c.kind, entries.subrange(c.start, c.end))),
        }
    }
}

/// The first box of type `kind` behind the first `fixed` bytes of a sample entry.
pub open spec fn extension(body: Seq<u8>, fixed: int, kind: u32) -> Option<Seq<u8>> {
    if body.len() < fixed {
        None
    } else {
        found(body.skip(fixed), kind)
    }
}

/// The position of the first DecoderSpecificInfo tag from `i` on.
pub open spec fn info_tag(esds: Seq<u8>, i: int) -> Option<int>
    decreases esds.len() - i,
{
    if i >= esds.len() {
        None
    } else if esds[i] == 0x05 {
        Some(i)
    } else {
        info_tag(esds, i + 1)
    }
}

/// The position of the last byte of a descriptor length: up to four bytes from `j`
/// on may carry the continuation bit, and `end` bounds them.
pub open spec fn length_end(esds: Seq<u8>, j: int, end: int) -> int
    decreases end - j,
{
    if j < esds.len() && j < end && esds[j] >= 0x80 {
        length_end(esds, j + 1, end)
    } else {
        j
    }
}

/// The position behind the tag and the length of a descriptor at `i`, if its tag is
/// `tag`.
pub open spec fn inside_descriptor(esds: Seq<u8>, i: int, tag: u8) -> Option<int> {
    if i < esds.len() && esds[i] == tag {
        Some(length_end(esds, i + 1, i + 5) + 1)
    } else {
        None
    }
}

/// The position behind the fixed fields of an ES_Descriptor whose inside starts at `p`: the
/// ES_ID, the flags, and what the flags announce, which are the ES_ID it depends on, a
/// URL and a clock reference.
pub open spec fn behind_es_fields(esds: Seq<u8>, p: int) -> Option<int> {
    if p + 3 > esds.len() {
        None
    } else {
        let flags = esds[p + 2];
        let url = p + 3 + if flags >= 0x80 {
            2int
        } else {
            0
        };
        let clock = if flags / 0x40 % 2 == 0 {
            Some(url)
        } else if url < esds.len() {
            Some(url + 1 + esds[url])
        } else {
            None
        };
        match clock {
            None => None,
            Some(at) => if flags / 0x20 % 2 == 1 {
                Some(at + 2)
            } else {
                Some(at)
            },
        }
    }
}

/// The position behind the fixed fields of the DecoderConfigDescriptor, where `esds`
/// holds the descriptor chain: behind version and flags an ES_Descriptor, and in it a
/// DecoderConfigDescriptor with 13 bytes of fixed fields.
pub open spec fn behind_config(esds: Seq<u8>) -> Option<int> {
    match inside_descriptor(esds, 4, 3) {
        None => None,
        Some(p) => match behind_es_fields(esds, p) {
            None => None,
            Some(i) => match inside_descriptor(esds, i, 4) {
                None => None,
                Some(c) => if c + 13 <= esds.len() {
                    Some(c + 13)
                } else {
                    None
                },
            },
        },
    }
}

/// The upper five bits of the byte at `at`, where there is one and they are not 0.
pub open spec fn type_at(esds: Seq<u8>, at: int) -> Option<u8> {
    if at < esds.len() && esds[at] >= 8 {
        Some((esds[at] / 8) as u8)
    } else {
        None
    }
}

/// The AAC audio object type of an `esds` payload: the upper five bits of the first byte
/// of the DecoderSpecificInfo, where there is one and it is not 0. The search for its tag
/// starts behind the fixed fields of the DecoderConfigDescriptor, or behind version and
/// flags where the chain does not lead there.
pub open spec fn object_type(esds: Seq<u8>) -> Option<u8> {
    let from = match behind_config(esds) {
        Some(i) => i,
        None => 4,
    };
    match info_tag(esds, from) {
        Some(i) => type_at(esds, length_end(esds, i + 1, i + 5) + 1),
        None => None,
    }
}

/// The lowest `n` bits of `v` in reverse order, behind the bits of `high`.
pub open spec fn reversed(v: nat, n: nat, high: nat) -> nat
    decreases n,
{
    if n == 0 {
        high
    } else {
        reversed(v / 2, (n - 1) as nat, 2 * high + v % 2)
    }
}

/// `s` without the zero bytes at its end.
pub open spec fn trim_zeros(s: Seq<u8>) -> Seq<u8>
    decreases s.len(),
{
    if s.len() > 0 && s.last() == 0 {
        trim_zeros(s.drop_last())
    } else {
        s
    }
}

/// Each byte of `s` in hexadecimal, behind a dot.
pub open spec fn dotted(s: Seq<u8>) -> Seq<char>
    decreases s.len(),
{
    if s.len() == 0 {
        Seq::empty()
    } else {
        dotted(s.drop_last()) + "."@ + hex_number(s.last() as nat)
    }
}

/// The letter of a general_profile_space.
pub open spec fn space_letter(space: u8) -> Seq<char> {
    if space == 0 {
        ""@
    } else if space == 1 {
        "A"@
    } else if space == 2 {
        "B"@
    } else {
        "C"@
    }
}

/// What an `hvcC` box says of a stream: profile space and profile, the compatibility
/// flags, lowest first, tier and level, and the constraint bytes up to the last that is
/// not 0.
pub open spec fn hevc_text(hvcc: Seq<u8>) -> Seq<char> {
    space_letter(hvcc[1] / 0x40) + decimal((hvcc[1] % 0x20) as nat) + "."@ + hex_number(
        reversed(be32(hvcc, 2) as nat, 32, 0),
    ) + (if hvcc[1] / 0x20 % 2 == 1 {
        ".H"@
    } else {
        ".L"@
    }) + decimal(hvcc[12] as nat) + dotted(trim_zeros(hvcc.subrange(6, 12)))
}

/// The characters of a box type, without the white space at the end.
pub open spec fn fourcc_text(kind: u32) -> Seq<char> {
    trim_end(utf8_lossy(bytes32(kind)))
}

/// Whether entries of type `format` are identified by more than their type.
pub open spec fn has_own_identifier(format: u32) -> bool {
    format == AVC1 || format == AVC3 || format == HVC1 || format == HEV1 || format == MP4A || format
        == OPUS || format == AC_3 || format == EC_3
}

/// The codec identifier of an `stsd` payload.
pub open spec fn codec_text(stsd: Seq<u8>) -> Option<Seq<char>> {
    match first_entry(stsd) {
        None => None,
        Some((format, body)) => if format == AVC1 || format == AVC3 {
            // 78 bytes of VisualSampleEntry precede the extension boxes.
            match extension(body, 78, AVCC) {
                Some(avcc) => if avcc.len() < 4 {
                    None
                } else {
                    Some(
                        (if format == AVC1 {
                            "avc1."@
                        } else {
                            "avc3."@
                        }) + hex(avcc[1] as nat, 2) + hex(avcc[2] as nat, 2) + hex(
                            avcc[3] as nat,
                            2,
                        ),
                    )
                },
                None => None,
            }
        } else if format == HVC1 || format == HEV1 {
            match extension(body, 78, HVCC) {
                Some(hvcc) => if hvcc.len() < 13 {
                    None
                } else {
                    Some(
                        (if format == HVC1 {
                            "hvc1."@
                        } else {
                            "hev1."@
                        }) + hevc_text(hvcc),
                    )
                },
                None => None,
            }
        } else if format == MP4A {
            // 28 bytes of AudioSampleEntry precede the extension boxes.
            let aot = match extension(body, 28, ESDS) {
                Some(esds) => match object_type(esds) {
                    Some(aot) => aot,
                    None => 2,
                },
                None => 2,
            };
            Some("mp4a.40."@ + decimal(aot as nat))
        } else if format == OPUS {
            Some("opus"@)
        } else if format == AC_3 {
            Some("ac-3"@)
        } else if format == EC_3 {
            Some("ec-3"@)
        } else {
            Some(fourcc_text(format))
        },
    }
}

fn stsd_first_entry<'a>(stsd: &'a [u8]) -> (r: Option<Child<'a>>)
    ensures
        match r {
            Some(c) => first_entry(stsd@) == Some((c.kind, c.payload@)),
            None => first_entry(stsd@) is None,
        },
{
    if stsd.len() < 8 {
        return None;
    }
    let entries = slice_subrange(stsd, 8, stsd.len());
    assert(entries@ =~= stsd@.skip(8));
    child(entries, 0)
}

fn find_extension<'a>(body: &'a [u8], fixed: usize, kind: u32) -> (r: Option<&'a [u8]>)
    ensures
        match r {
            Some(payload) => extension(body@, fixed as int, kind) == Some(payload@),
            None => extension(body@, fixed as int, kind) is None,
        },
{
    if body.len() < fixed {
        return None;
    }
    let rest = slice_subrange(body, fixed, body.len());
    assert(rest@ =~= body@.skip(fixed as int));
    find_box(rest, kind)
}

/// Finds the end of the length of a descriptor at `i`: up to four 7-bit continuation
/// bytes, and one more.
fn skip_length(esds: &[u8], i: usize) -> (r: usize)
    requires
        i < esds@.len(),
    ensures
        r == length_end(esds@, i + 1, i + 5),
        i < r <= esds@.len(),
{
    let len: usize = esds.len();
    let mut j: usize = i + 1;
    let mut left: u8 = 4;
    while left > 0 && j < len && esds[j] >= 0x80
        invariant
            i < j <= len == esds@.len(),
            left <= 4,
            j + left == i + 5,
            length_end(esds@, j as int, i + 5) == length_end(esds@, i + 1, i + 5),
        decreases left,
    {
        j = j + 1;
        left = left - 1;
    }
    j
}

fn enter_descriptor(esds: &[u8], i: u128, tag: u8) -> (r: Option<u128>)
    ensures
        match r {
            Some(at) => inside_descriptor(esds@, i as int, tag) == Some(at as int) && at
                <= esds@.len() + 1,
            None => inside_descriptor(esds@, i as int, tag) is None,
        },
{
    let len: usize = esds.len();
    if i >= len as u128 || esds[i as usize] != tag {
        return None;
    }
    Some(skip_length(esds, i as usize) as u128 + 1)
}

fn skip_es_fields(esds: &[u8], p: u128) -> (r: Option<u128>)
    requires
        p <= esds@.len() + 1,
    ensures
        match r {
            Some(at) => behind_es_fields(esds@, p as int) == Some(at as int),
            None => behind_es_fields(esds@, p as int) is None,
        },
{
    let len: u128 = esds.len() as u128;
    if p >= len || len - p < 3 {
        return None;
    }
    let flags: u8 = esds[(p + 2) as usize];
    let mut at: u128 = p + 3;
    if flags >= 0x80 {
        at = at + 2;
    }
    if flags / 0x40 % 2 == 1 {
        if at >= len {
            return None;
        }
        at = at + 1 + esds[at as usize] as u128;
    }
    if flags / 0x20 % 2 == 1 {
        at = at + 2;
    }
    Some(at)
}

fn skip_config(esds: &[u8]) -> (r: Option<u128>)
    ensures
        match r {
            Some(at) => behind_config(esds@) == Some(at as int) && at <= esds@.len(),
            None => behind_config(esds@) is None,
        },
{
    let p: u128 = match enter_descriptor(esds, 4, 3) {
        Some(p) => p,
        None => return None,
    };
    let i: u128 = match skip_es_fields(esds, p) {
        Some(i) => i,
        None => return None,
    };
    let c: u128 = match enter_descriptor(esds, i, 4) {
        Some(c) => c,
        None => return None,
    };
    let len: u128 = esds.len() as u128;
    if c > len || len - c < 13 {
        None
    } else {
        Some(c + 13)
    }
}

fn read_type(esds: &[u8], at: u128) -> (r: Option<u8>)
    ensures
        r == type_at(esds@, at as int),
{
    if at < esds.len() as u128 && esds[at as usize] >= 8 {
        Some(esds[at as usize] / 8)
    } else {
        None
    }
}

/// Reads the AAC audio object type out of an `esds` descriptor.
pub fn audio_object_type(esds: &[u8]) -> (r: Option<u8>)
    ensures
        r == object_type(esds@),
{
    let len: usize = esds.len();
    // Scan for the DecoderSpecificInfo tag (0x05) behind the fields that may hold any byte.
    let mut i: usize = match skip_config(esds) {
        Some(at) => at as usize,
        None => 4,  // skip version/flags
    };
    let ghost from = i as int;
    while i < len
        invariant
            len == esds@.len(),
            info_tag(esds@, i as int) == info_tag(esds@, from),
            object_type(esds@) == (match info_tag(esds@, from) {
                Some(i) => type_at(esds@, length_end(esds@, i + 1, i + 5) + 1),
                None => None,
            }),
        decreases len - i,
    {
        if esds[i] == 0x05 {
            return read_type(esds, skip_length(esds, i) as u128 + 1);
        }
        i = i + 1;
    }
    None
}

/// Reverses the bits of `v`.
fn reverse(v: u32) -> (r: u64)
    ensures
        r == reversed(v as nat, 32, 0),
{
    let mut rest: u32 = v;
    let mut high: u64 = 0;
    let mut left: u8 = 32;
    proof {
        lemma2_to64();
    }
    while left > 0
        invariant
            left <= 32,
            high < pow2((32 - left) as nat),
            pow2(32) == 0x1_0000_0000,
            reversed(rest as nat, left as nat, high as nat) == reversed(v as nat, 32, 0),
        decreases left,
    {
        proof {
            lemma_pow2_unfold((33 - left) as nat);
            if left > 1 {
                lemma_pow2_strictly_increases((33 - left) as nat, 32);
            }
        }
        high = 2 * high + (rest % 2) as u64;
        rest = rest / 2;
        left = left - 1;
    }
    high
}

fn push_dotted(out: &mut String, bytes: &[u8])
    ensures
        final(out)@ == old(out)@ + dotted(trim_zeros(bytes@)),
{
    let ghost first = out@;
    let mut n: usize = bytes.len();
    assert(bytes@.take(n as int) =~= bytes@);
    while n > 0 && bytes[n - 1] == 0
        invariant
            n <= bytes@.len(),
            trim_zeros(bytes@.take(n as int)) == trim_zeros(bytes@),
        decreases n,
    {
        assert(bytes@.take(n as int).drop_last() =~= bytes@.take(n - 1));
        n = n - 1;
    }
    assert(trim_zeros(bytes@) == bytes@.take(n as int));
    let mut i: usize = 0;
    assert(out@ =~= first + dotted(bytes@.take(0)));
    while i < n
        invariant
            i <= n <= bytes@.len(),
            out@ == first + dotted(bytes@.take(i as int)),
        decreases n - i,
    {
        out.append(".");
        push_hex_number(out, bytes[i] as u64);
        assert(bytes@.take(i + 1).drop_last() =~= bytes@.take(i as int));
        assert(out@ =~= first + dotted(bytes@.take(i + 1)));
        i = i + 1;
    }
}

fn push_hevc(out: &mut String, hvcc: &[u8])
    requires
        hvcc@.len() >= 13,
    ensures
        final(out)@ == old(out)@ + hevc_text(hvcc@),
{
    let flags: u32 = match u32be(hvcc, 2) {
        Ok(v) => v,
        Err(_) => 0,
    };
    let space: u8 = hvcc[1] / 0x40;
    let mut text: String = (if space == 0 {
        ""
    } else if space == 1 {
        "A"
    } else if space == 2 {
        "B"
    } else {
        "C"
    }).to_owned();
    // general_profile_idc sits in the low 5 bits of byte 1.
    push_decimal(&mut text, (hvcc[1] % 0x20) as u128);
    text.append(".");
    push_hex_number(&mut text, reverse(flags));
    if hvcc[1] / 0x20 % 2 == 1 {
        text.append(".H");
    } else {
        text.append(".L");
    }
    push_decimal(&mut text, hvcc[12] as u128);
    push_dotted(&mut text, slice_subrange(hvcc, 6, 12));
    out.append(text.as_str());
}

/// Spells a box type, without the white space at the end.
pub fn fourcc(kind: u32) -> (r: String)
    ensures
        r@ == fourcc_text(kind),
        valid_utf8(bytes32(kind)) ==> r@ == trim_end(decode_utf8(bytes32(kind))),
{
    let mut bytes: Vec<u8> = Vec::new();
    put32(&mut bytes, kind);
    assert(bytes@ =~= bytes32(kind));
    lossy_trimmed(bytes.as_slice())
}

impl Track {
    /// RFC 6381 codec identifier, when we can read it out of the sample entry.
    pub fn codec(&self) -> (r: Option<String>)
        ensures
            match r {
                Some(text) => codec_text(self@.stsd) == Some(text@),
                None => codec_text(self@.stsd) is None,
            },
            match first_entry(self@.stsd) {
                Some((format, _)) => !has_own_identifier(format) && valid_utf8(bytes32(format))
                    ==> (r matches Some(text) && text@ == trim_end(decode_utf8(bytes32(format)))),
                None => true,
            },
    {
        let entry = match stsd_first_entry(self.stsd.as_slice()) {
            Some(c) => c,
            None => return None,
        };
        let format: u32 = entry.kind;
        let mut out = String::new();
        assert(out@ =~= Seq::empty());
        if format == AVC1 || format == AVC3 {
            let avcc = match find_extension(entry.payload, 78, AVCC) {
                Some(b) => b,
                None => return None,
            };
            if avcc.len() < 4 {
                return None;
            }
            if format == AVC1 {
                out.append("avc1.");
            } else {
                out.append("avc3.");
            }
            push_hex(&mut out, avcc[1] as u32, 2);
            push_hex(&mut out, avcc[2] as u32, 2);
            push_hex(&mut out, avcc[3] as u32, 2);
            assert(codec_text(self@.stsd)->0 =~= out@);
            return Some(out);
        }
        if format == HVC1 || format == HEV1 {
            let hvcc = match find_extension(entry.payload, 78, HVCC) {
                Some(b) => b,
                None => return None,
            };
            if hvcc.len() < 13 {
                return None;
            }
            if format == HVC1 {
                out.append("hvc1.");
            } else {
                out.append("hev1.");
            }
            push_hevc(&mut out, hvcc);
            assert(codec_text(self@.stsd)->0 =~= out@);
            return Some(out);
        }
        if format == MP4A {
            let aot: u8 = match find_extension(entry.payload, 28, ESDS) {
                Some(esds) => match audio_object_type(esds) {
                    Some(aot) => aot,
                    None => 2,
                },
                None => 2,
            };
            out.append("mp4a.40.");
            push_decimal(&mut out, aot as u128);
            assert(codec_text(self@.stsd)->0 =~= out@);
            return Some(out);
        }
        if format == OPUS {
            return Some("opus".to_owned());
        }
        if format == AC_3 {
            return Some("ac-3".to_owned());
        }
        if format == EC_3 {
            return Some("ec-3".to_owned());
        }
        Some(fourcc(format))
    }
}

} // verus!
