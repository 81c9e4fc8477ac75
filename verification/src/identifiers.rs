//! What codec identifiers say of the sample description that they were read out of.

use vstd::arithmetic::div_mod::lemma_div_denominator;
use vstd::arithmetic::mul::lemma_mul_is_commutative;
use vstd::arithmetic::power::{lemma_pow1, pow};
use vstd::arithmetic::power2::{lemma2_to64, lemma_pow2_pos, lemma_pow2_unfold, pow2};
use vstd::prelude::*;

use crate::boxes::{be32, bytes32};
use crate::codec::{
    behind_config, behind_es_fields, codec_text, dotted, extension, first_entry, info_tag,
    inside_descriptor, length_end, object_type, reversed, trim_zeros,
};
use crate::fmp4::box_bytes;
use crate::roundtrip::{law_box_round_trip, lemma_find_cons};
use crate::spelling::{
    law_decimal_reads_back, law_hex_number_reads_back, law_hex_reads_back,
    law_trimming_takes_the_white_space, only_capital_digits, only_decimals, only_small_digits,
    spelled,
};
use crate::text::{hex, is_white_space, utf8_lossy};

verus! {

broadcast use crate::fmp4::lemma_box_len;

/// The first entry of a sample description is read back, whatever follows it.
pub proof fn law_first_entry_reads_back(head: Seq<u8>, kind: u32, body: Seq<u8>, rest: Seq<u8>)
    requires
        head.len() == 8,
        body.len() + 8 <= u32::MAX,
    ensures
        first_entry(head + box_bytes(kind, body) + rest) == Some((kind, body)),
{
    let stsd = head + box_bytes(kind, body) + rest;
    law_box_round_trip(kind, body, rest);
    assert(stsd.skip(8) =~= box_bytes(kind, body) + rest);
}

/// A box behind the fixed fields of a sample entry is found, whatever follows it.
pub proof fn law_extension_reads_back(fixed: Seq<u8>, kind: u32, payload: Seq<u8>, rest: Seq<u8>)
    requires
        payload.len() + 8 <= u32::MAX,
    ensures
        extension(fixed + box_bytes(kind, payload) + rest, fixed.len() as int, kind) == Some(
            payload,
        ),
{
    let body = fixed + box_bytes(kind, payload) + rest;
    assert(body.skip(fixed.len() as int) =~= box_bytes(kind, payload) + rest);
    lemma_find_cons(kind, payload, rest, kind);
}

// --- AVC -----------------------------------------------------------------

proof fn lemma_hex_byte(v: u8)
    ensures
        hex(v as nat, 2).len() == 2,
        only_small_digits(hex(v as nat, 2)),
        spelled(hex(v as nat, 2), 16) == v,
{
    lemma_pow1(16);
    assert(pow(16, 2) == 16 * pow(16, 1)) by {
        reveal(pow);
    }
    law_hex_reads_back(v as nat, 2);
}

/// The identifier of an `avc1` or `avc3` entry is its type, a dot and six hexadecimal
/// digits, which read two by two are profile, compatibility and level: bytes 1, 2 and 3 of
/// the `avcC` payload.
pub proof fn law_avc_identifier(stsd: Seq<u8>, format: u32, body: Seq<u8>, avcc: Seq<u8>)
    requires
        format == 0x6176_6331 || format == 0x6176_6333,
        first_entry(stsd) == Some((format, body)),
        extension(body, 78, 0x6176_6343) == Some(avcc),
        avcc.len() >= 4,
    ensures
        codec_text(stsd) matches Some(text) && {
            &&& text.len() == 11
            &&& text.take(5) == (if format == 0x6176_6331 {
                "avc1."@
            } else {
                "avc3."@
            })
            &&& only_small_digits(text.skip(5))
            &&& spelled(text.subrange(5, 7), 16) == avcc[1]
            &&& spelled(text.subrange(7, 9), 16) == avcc[2]
            &&& spelled(text.subrange(9, 11), 16) == avcc[3]
        },
{
    reveal_strlit("avc1.");
    reveal_strlit("avc3.");
    let word = if format == 0x6176_6331 {
        "avc1."@
    } else {
        "avc3."@
    };
    lemma_hex_byte(avcc[1]);
    lemma_hex_byte(avcc[2]);
    lemma_hex_byte(avcc[3]);
    let a = hex(avcc[1] as nat, 2);
    let b = hex(avcc[2] as nat, 2);
    let c = hex(avcc[3] as nat, 2);
    let text = codec_text(stsd)->0;
    assert(text == word + a + b + c);
    assert(text.take(5) =~= word);
    assert(text.subrange(5, 7) =~= a);
    assert(text.subrange(7, 9) =~= b);
    assert(text.subrange(9, 11) =~= c);
    assert(text.skip(5) =~= a + b + c);
}

/// Tracks with different profile, compatibility or level have different identifiers.
pub proof fn law_avc_identifiers_differ(
    a: Seq<u8>,
    b: Seq<u8>,
    format: u32,
    body_a: Seq<u8>,
    body_b: Seq<u8>,
    avcc_a: Seq<u8>,
    avcc_b: Seq<u8>,
)
    requires
        format == 0x6176_6331 || format == 0x6176_6333,
        first_entry(a) == Some((format, body_a)),
        first_entry(b) == Some((format, body_b)),
        extension(body_a, 78, 0x6176_6343) == Some(avcc_a),
        extension(body_b, 78, 0x6176_6343) == Some(avcc_b),
        avcc_a.len() >= 4,
        avcc_b.len() >= 4,
        codec_text(a) == codec_text(b),
    ensures
        avcc_a.subrange(1, 4) == avcc_b.subrange(1, 4),
{
    law_avc_identifier(a, format, body_a, avcc_a);
    law_avc_identifier(b, format, body_b, avcc_b);
    assert(avcc_a.subrange(1, 4) =~= avcc_b.subrange(1, 4));
}

/// A whole sample description: the `avcC` box stands behind the 78 bytes of a visual
/// sample entry.
pub proof fn law_avc_description_reads_back(
    head: Seq<u8>,
    format: u32,
    fixed: Seq<u8>,
    avcc: Seq<u8>,
    more: Seq<u8>,
    rest: Seq<u8>,
)
    requires
        format == 0x6176_6331 || format == 0x6176_6333,
        head.len() == 8,
        fixed.len() == 78,
        avcc.len() >= 4,
        (fixed + box_bytes(0x6176_6343, avcc) + more).len() + 8 <= u32::MAX,
    ensures
        codec_text(
            head + box_bytes(format, fixed + box_bytes(0x6176_6343, avcc) + more) + rest,
        ) matches Some(text) && text.len() == 11 && spelled(text.subrange(5, 7), 16) == avcc[1]
            && spelled(text.subrange(7, 9), 16) == avcc[2] && spelled(text.subrange(9, 11), 16)
            == avcc[3],
{
    let body = fixed + box_bytes(0x6176_6343, avcc) + more;
    let stsd = head + box_bytes(format, body) + rest;
    law_first_entry_reads_back(head, format, body, rest);
    law_extension_reads_back(fixed, 0x6176_6343, avcc, more);
    law_avc_identifier(stsd, format, body, avcc);
}

/// An AVC or HEVC entry without a configuration box has no identifier.
pub proof fn law_no_configuration_no_identifier(stsd: Seq<u8>, format: u32, body: Seq<u8>)
    requires
        first_entry(stsd) == Some((format, body)),
    ensures
        (format == 0x6176_6331 || format == 0x6176_6333) && (match extension(
            body,
            78,
            0x6176_6343,
        ) {
            Some(avcc) => avcc.len() < 4,
            None => true,
        }) ==> codec_text(stsd) is None,
        (format == 0x6876_6331 || format == 0x6865_7631) && (match extension(
            body,
            78,
            0x6876_6343,
        ) {
            Some(hvcc) => hvcc.len() < 13,
            None => true,
        }) ==> codec_text(stsd) is None,
{
}

// --- HEVC ----------------------------------------------------------------

/// Bit `i` of `v`.
pub open spec fn bit(v: nat, i: nat) -> int {
    (v as int / pow2(i) as int) % 2
}

proof fn lemma_half_bit(v: nat, i: nat)
    ensures
        (v as int / 2) / (pow2(i) as int) == v as int / pow2(i + 1) as int,
{
    lemma_pow2_pos(i);
    lemma_pow2_unfold(i + 1);
    lemma_div_denominator(v as int, 2, pow2(i) as int);
}

proof fn lemma_reversed(v: nat, n: nat, high: nat)
    ensures
        reversed(v, n, high) as int / pow2(n) as int == high,
        forall|j: nat| j < n ==> #[trigger] bit(reversed(v, n, high), j) == bit(v, (n - 1 - j) as nat),
    decreases n,
{
    lemma2_to64();
    if n > 0 {
        let m = (n - 1) as nat;
        let r = reversed(v, n, high);
        lemma_reversed(v / 2, m, 2 * high + v % 2);
        lemma_pow2_pos(m);
        lemma_pow2_unfold(n);
        lemma_mul_is_commutative(2, pow2(m) as int);
        lemma_div_denominator(r as int, pow2(m) as int, 2);
        assert forall|j: nat| j < n implies #[trigger] bit(r, j) == bit(v, (n - 1 - j) as nat) by {
            if j < m {
                lemma_half_bit(v, (m - 1 - j) as nat);
                assert(bit(r, j) == bit(v / 2, (m - 1 - j) as nat));
                assert((m - 1 - j) as nat + 1 == (n - 1 - j) as nat);
                assert(bit(v / 2, (m - 1 - j) as nat) == bit(v, (n - 1 - j) as nat));
            } else {
                assert(r as int / pow2(m) as int == 2 * high + v % 2);
                assert((2 * high + v % 2) % 2 == v % 2);
                assert(pow2(0) == 1);
                assert(bit(v, 0) == v as int % 2);
            }
        }
    }
}

/// The parts of an HEVC identifier behind its type.
pub struct HevcParts {
    pub space: Seq<char>,
    pub profile: Seq<char>,
    pub flags: Seq<char>,
    pub tier: char,
    pub level: Seq<char>,
    pub constraints: Seq<char>,
}

/// The identifier of an `hvc1` or `hev1` entry: its type, the letter of the profile space
/// and the profile, the 32 compatibility flags as one hexadecimal number with the first
/// flag lowest, the tier and the level, and the constraint bytes.
#[verifier::rlimit(40)]
pub proof fn law_hevc_identifier(stsd: Seq<u8>, format: u32, body: Seq<u8>, hvcc: Seq<u8>) -> (p:
    HevcParts)
    requires
        format == 0x6876_6331 || format == 0x6865_7631,
        first_entry(stsd) == Some((format, body)),
        extension(body, 78, 0x6876_6343) == Some(hvcc),
        hvcc.len() >= 13,
    ensures
        codec_text(stsd) matches Some(text) && text == (if format == 0x6876_6331 {
            "hvc1."@
        } else {
            "hev1."@
        }) + (p.space + p.profile + "."@ + p.flags + seq!['.', p.tier] + p.level + p.constraints),
        p.space == (if hvcc[1] < 0x40 {
            Seq::<char>::empty()
        } else if hvcc[1] < 0x80 {
            seq!['A']
        } else if hvcc[1] < 0xc0 {
            seq!['B']
        } else {
            seq!['C']
        }),
        only_decimals(p.profile),
        spelled(p.profile, 10) == hvcc[1] % 0x20,
        only_capital_digits(p.flags),
        p.flags.len() == 1 || p.flags[0] != '0',
        forall|j: nat|
            j < 32 ==> #[trigger] bit(spelled(p.flags, 16) as nat, j) == bit(
                be32(hvcc, 2) as nat,
                (31 - j) as nat,
            ),
        spelled(p.flags, 16) < 0x1_0000_0000,
        p.tier == (if (hvcc[1] / 0x20) % 2 == 1 {
            'H'
        } else {
            'L'
        }),
        only_decimals(p.level),
        spelled(p.level, 10) == hvcc[12],
        p.constraints == dotted(trim_zeros(hvcc.subrange(6, 12))),
{
    reveal_strlit("");
    reveal_strlit("A");
    reveal_strlit("B");
    reveal_strlit("C");
    reveal_strlit(".L");
    reveal_strlit(".H");
    let flags = reversed(be32(hvcc, 2) as nat, 32, 0);
    let high = (hvcc[1] / 0x20) % 2 == 1;
    let p = HevcParts {
        space: crate::codec::space_letter(hvcc[1] / 0x40),
        profile: crate::text::decimal((hvcc[1] % 0x20) as nat),
        flags: crate::text::hex_number(flags),
        tier: if high {
            'H'
        } else {
            'L'
        },
        level: crate::text::decimal(hvcc[12] as nat),
        constraints: dotted(trim_zeros(hvcc.subrange(6, 12))),
    };
    assert((if high {
        ".H"@
    } else {
        ".L"@
    }) =~= seq!['.', p.tier]);
    assert(""@ =~= Seq::<char>::empty());
    assert("A"@ =~= seq!['A']);
    assert("B"@ =~= seq!['B']);
    assert("C"@ =~= seq!['C']);
    law_decimal_reads_back((hvcc[1] % 0x20) as nat);
    law_decimal_reads_back(hvcc[12] as nat);
    law_hex_number_reads_back(flags);
    lemma_reversed(be32(hvcc, 2) as nat, 32, 0);
    lemma2_to64();
    assert(flags < 0x1_0000_0000) by {
        assert(pow2(32) == 0x1_0000_0000);
        assert(flags as int / 0x1_0000_0000 == 0);
    }
    p
}

/// Zero bytes at the end are left off, and no others.
pub proof fn law_constraints_end_with_the_last_byte_set(s: Seq<u8>)
    ensures
        trim_zeros(s).is_prefix_of(s),
        forall|i: int| trim_zeros(s).len() <= i < s.len() ==> #[trigger] s[i] == 0,
        trim_zeros(s).len() > 0 ==> trim_zeros(s).last() != 0,
    decreases s.len(),
{
    if s.len() > 0 && s.last() == 0 {
        law_constraints_end_with_the_last_byte_set(s.drop_last());
        assert forall|i: int| trim_zeros(s).len() <= i < s.len() implies #[trigger] s[i] == 0 by {
            if i < s.len() - 1 {
                assert(s.drop_last()[i] == s[i]);
            }
        }
        assert(trim_zeros(s) =~= s.subrange(0, trim_zeros(s).len() as int));
    } else {
        assert(s =~= s.subrange(0, s.len() as int));
    }
}

/// Bytes behind dots are read back one by one: the last is what stands behind the last dot.
pub proof fn law_dotted_bytes_read_back(s: Seq<u8>, b: u8)
    ensures
        dotted(Seq::<u8>::empty()) == Seq::<char>::empty(),
        dotted(s).is_prefix_of(dotted(s.push(b))),
        ({
            let added = dotted(s.push(b)).skip(dotted(s).len() as int);
            &&& added.len() > 1
            &&& added[0] == '.'
            &&& only_capital_digits(added.skip(1))
            &&& spelled(added.skip(1), 16) == b
            &&& added.len() == 2 || added[1] != '0'
        }),
{
    reveal_strlit(".");
    law_hex_number_reads_back(b as nat);
    let number = crate::text::hex_number(b as nat);
    assert(s.push(b).drop_last() =~= s);
    let all = dotted(s.push(b));
    assert(all == dotted(s) + "."@ + number);
    let added = all.skip(dotted(s).len() as int);
    assert(added =~= "."@ + number);
    assert(added.skip(1) =~= number);
    assert(all.subrange(0, dotted(s).len() as int) =~= dotted(s));
}

// --- AAC and the rest ----------------------------------------------------

/// The identifier of an `mp4a` entry ends with the audio object type, which is 2 where the
/// entry does not say.
pub proof fn law_aac_identifier(stsd: Seq<u8>, body: Seq<u8>)
    requires
        first_entry(stsd) == Some((0x6d70_3461u32, body)),
    ensures
        codec_text(stsd) matches Some(text) && {
            &&& text.len() > 8
            &&& text.take(8) == "mp4a.40."@
            &&& only_decimals(text.skip(8))
            &&& spelled(text.skip(8), 10) == (match extension(body, 28, 0x6573_6473) {
                Some(esds) => match object_type(esds) {
                    Some(aot) => aot as int,
                    None => 2,
                },
                None => 2,
            })
        },
{
    reveal_strlit("mp4a.40.");
    let aot: u8 = match extension(body, 28, 0x6573_6473) {
        Some(esds) => match object_type(esds) {
            Some(aot) => aot,
            None => 2,
        },
        None => 2,
    };
    let digits = crate::text::decimal(aot as nat);
    law_decimal_reads_back(aot as nat);
    let text = codec_text(stsd)->0;
    assert(text == "mp4a.40."@ + digits);
    assert(text.take(8) =~= "mp4a.40."@);
    assert(text.skip(8) =~= digits);
}

/// Entries that need no configuration: Opus, AC-3 and Enhanced AC-3 have fixed identifiers,
/// any other format the characters of its type without the white space at the end.
pub proof fn law_plain_identifiers(stsd: Seq<u8>, format: u32, body: Seq<u8>)
    requires
        first_entry(stsd) == Some((format, body)),
    ensures
        format == 0x4f70_7573 ==> codec_text(stsd) == Some(seq!['o', 'p', 'u', 's']),
        format == 0x6163_2d33 ==> codec_text(stsd) == Some(seq!['a', 'c', '-', '3']),
        format == 0x6563_2d33 ==> codec_text(stsd) == Some(seq!['e', 'c', '-', '3']),
        format != 0x4f70_7573 && format != 0x6163_2d33 && format != 0x6563_2d33 && format
            != 0x6176_6331 && format != 0x6176_6333 && format != 0x6876_6331 && format
            != 0x6865_7631 && format != 0x6d70_3461 ==> (codec_text(stsd) matches Some(text) && {
            let all = utf8_lossy(bytes32(format));
            &&& text.is_prefix_of(all)
            &&& forall|i: int| text.len() <= i < all.len() ==> is_white_space(#[trigger] all[i])
            &&& text.len() > 0 ==> !is_white_space(text.last())
        }),
{
    reveal_strlit("opus");
    reveal_strlit("ac-3");
    reveal_strlit("ec-3");
    assert("opus"@ =~= seq!['o', 'p', 'u', 's']);
    assert("ac-3"@ =~= seq!['a', 'c', '-', '3']);
    assert("ec-3"@ =~= seq!['e', 'c', '-', '3']);
    law_trimming_takes_the_white_space(utf8_lossy(bytes32(format)));
}

/// Whether `l` is the length field of a descriptor: up to four bytes with the continuation
/// bit, and one without.
pub open spec fn is_length(l: Seq<u8>) -> bool {
    &&& 1 <= l.len() <= 5
    &&& l.last() < 0x80
    &&& forall|i: int| 0 <= i < l.len() - 1 ==> #[trigger] l[i] >= 0x80
}

proof fn lemma_length_end(s: Seq<u8>, at: int, l: Seq<u8>, done: int)
    requires
        is_length(l),
        0 <= at,
        at + l.len() <= s.len(),
        s.subrange(at, at + l.len()) == l,
        0 <= done < l.len(),
    ensures
        length_end(s, at + done, at + 4) == at + l.len() - 1,
    decreases l.len() - done,
{
    assert(s[at + done] == s.subrange(at, at + l.len())[done]);
    if done < l.len() - 1 {
        lemma_length_end(s, at, l, done + 1);
    }
}

/// The fields of an ES_Descriptor: an ES_ID, flags, and what the flags announce.
pub open spec fn es_fields(
    id: Seq<u8>,
    flags: u8,
    depends: Seq<u8>,
    url: Seq<u8>,
    clock: Seq<u8>,
) -> Seq<u8> {
    id + seq![flags] + depends + (if flags / 0x40 % 2 == 1 {
        seq![url.len() as u8] + url
    } else {
        Seq::empty()
    }) + clock
}

/// An `esds` payload: version and flags, and an ES_Descriptor with its fields, which holds a
/// DecoderConfigDescriptor with 13 bytes of fields, which holds a DecoderSpecificInfo.
pub open spec fn written_esds(
    head: Seq<u8>,
    es_length: Seq<u8>,
    fields: Seq<u8>,
    config_length: Seq<u8>,
    config: Seq<u8>,
    info_length: Seq<u8>,
    info: Seq<u8>,
) -> Seq<u8> {
    head + seq![3u8] + es_length + fields + seq![4u8] + config_length + config + seq![5u8]
        + info_length + info
}

proof fn lemma_es_fields(
    before: Seq<u8>,
    id: Seq<u8>,
    flags: u8,
    depends: Seq<u8>,
    url: Seq<u8>,
    clock: Seq<u8>,
    after: Seq<u8>,
)
    requires
        id.len() == 2,
        depends.len() == (if flags >= 0x80 {
            2nat
        } else {
            0
        }),
        url.len() <= 255,
        clock.len() == (if flags / 0x20 % 2 == 1 {
            2nat
        } else {
            0
        }),
    ensures
        ({
            let fields = es_fields(id, flags, depends, url, clock);
            behind_es_fields(before + fields + after, before.len() as int) == Some(
                (before.len() + fields.len()) as int,
            )
        }),
{
    let fields = es_fields(id, flags, depends, url, clock);
    let s = before + fields + after;
    let p = before.len() as int;
    assert(fields[2] == flags);
    assert(s[p + 2] == fields[2]);
    if flags / 0x40 % 2 == 1 {
        let at = 3 + depends.len() as int;
        assert(fields[at] == url.len() as u8);
        assert(s[p + at] == fields[at]);
    }
}

/// The audio object type is read out of an `esds` payload whatever its other fields hold:
/// it is the upper five bits of the first byte of the DecoderSpecificInfo, unless they
/// are 0.
#[verifier::rlimit(40)]
pub proof fn law_object_type_reads_back(
    head: Seq<u8>,
    es_length: Seq<u8>,
    id: Seq<u8>,
    flags: u8,
    depends: Seq<u8>,
    url: Seq<u8>,
    clock: Seq<u8>,
    config_length: Seq<u8>,
    config: Seq<u8>,
    info_length: Seq<u8>,
    info: Seq<u8>,
)
    requires
        head.len() == 4,
        is_length(es_length),
        id.len() == 2,
        depends.len() == (if flags >= 0x80 {
            2nat
        } else {
            0
        }),
        url.len() <= 255,
        clock.len() == (if flags / 0x20 % 2 == 1 {
            2nat
        } else {
            0
        }),
        is_length(config_length),
        config.len() == 13,
        is_length(info_length),
        info.len() > 0,
    ensures
        object_type(
            written_esds(
                head,
                es_length,
                es_fields(id, flags, depends, url, clock),
                config_length,
                config,
                info_length,
                info,
            ),
        ) == (if info[0] / 8 == 0 {
            None::<u8>
        } else {
            Some((info[0] / 8) as u8)
        }),
{
    let fields = es_fields(id, flags, depends, url, clock);
    let s = written_esds(head, es_length, fields, config_length, config, info_length, info);
    let one = head + seq![3u8] + es_length;
    let two = one + fields;
    let three = two + seq![4u8] + config_length;
    let four = three + config;
    assert(s[4] == 3);
    assert(s.subrange(5, 5 + es_length.len() as int) =~= es_length);
    lemma_length_end(s, 5, es_length, 0);
    let tail = seq![4u8] + config_length + config + seq![5u8] + info_length + info;
    assert(s =~= one + fields + tail);
    lemma_es_fields(one, id, flags, depends, url, clock, tail);
    let i = two.len() as int;
    assert(s[i] == 4);
    assert(s.subrange(i + 1, i + 1 + config_length.len()) =~= config_length);
    lemma_length_end(s, i + 1, config_length, 0);
    let at = four.len() as int;
    assert(s[at] == 5);
    assert(s.subrange(at + 1, at + 1 + info_length.len()) =~= info_length);
    lemma_length_end(s, at + 1, info_length, 0);
    assert(s[at + 1 + info_length.len()] == info[0]);
    assert(behind_config(s) == Some(at));
    assert(info_tag(s, at) == Some(at));
}

proof fn lemma_info_tag(s: Seq<u8>, from: int, i: int)
    requires
        0 <= from <= i < s.len(),
        s[i] == 5,
        forall|k: int| from <= k < i ==> #[trigger] s[k] != 5,
    ensures
        info_tag(s, from) == Some(i),
    decreases i - from,
{
    if from < i {
        assert(s[from] != 5);
        lemma_info_tag(s, from + 1, i);
    }
}

proof fn lemma_no_info_tag(s: Seq<u8>, from: int)
    requires
        0 <= from,
        forall|k: int| from <= k < s.len() ==> #[trigger] s[k] != 5,
    ensures
        info_tag(s, from) is None,
    decreases s.len() - from,
{
    if from < s.len() {
        assert(s[from] != 5);
        lemma_no_info_tag(s, from + 1);
    }
}

/// Where no chain of descriptors leads to the DecoderSpecificInfo, the first byte behind
/// version and flags that could be its tag is taken for it.
pub proof fn law_object_type_without_a_chain(esds: Seq<u8>, i: int, length: Seq<u8>)
    requires
        behind_config(esds) is None,
        4 <= i < esds.len(),
        esds[i] == 5,
        forall|k: int| 4 <= k < i ==> #[trigger] esds[k] != 5,
        is_length(length),
        i + 1 + length.len() < esds.len(),
        esds.subrange(i + 1, i + 1 + length.len()) == length,
    ensures
        object_type(esds) == (if esds[i + 1 + length.len()] / 8 == 0 {
            None::<u8>
        } else {
            Some((esds[i + 1 + length.len()] / 8) as u8)
        }),
{
    lemma_info_tag(esds, 4, i);
    lemma_length_end(esds, i + 1, length, 0);
}

/// Without a tag there is no object type.
pub proof fn law_no_tag_no_object_type(esds: Seq<u8>)
    requires
        forall|k: int| 4 <= k < esds.len() ==> #[trigger] esds[k] != 5,
    ensures
        object_type(esds) is None,
{
    let from = match behind_config(esds) {
        Some(i) => i,
        None => 4,
    };
    lemma_behind_config(esds);
    lemma_no_info_tag(esds, from);
}

proof fn lemma_behind_config(esds: Seq<u8>)
    ensures
        behind_config(esds) matches Some(i) ==> i >= 4,
{
    if behind_config(esds) is Some {
        lemma_length_moves_on(esds, 5, 9);
        let p = inside_descriptor(esds, 4, 3)->0;
        let i = behind_es_fields(esds, p)->0;
        assert(i >= 4);
        lemma_length_moves_on(esds, i + 1, i + 5);
    }
}

proof fn lemma_length_moves_on(esds: Seq<u8>, j: int, end: int)
    ensures
        length_end(esds, j, end) >= j,
    decreases end - j,
{
    if j < esds.len() && j < end && esds[j] >= 0x80 {
        lemma_length_moves_on(esds, j + 1, end);
    }
}

} // verus!
