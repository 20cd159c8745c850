use glyph_atlas::glyph::{AtlasError, GlyphMetrics};
use glyph_atlas::name_codec::{decode_name, encode_name};

fn metrics(c: u16, xb: i16, yb: i16, adv: u16, r4: u16, r5: u16) -> GlyphMetrics {
    GlyphMetrics { char_code: c, x_bearing: xb, y_bearing: yb, advance: adv, reserved4: r4, reserved5: r5 }
}

#[test]
fn decode_reads_six_fields() {
    assert_eq!(decode_name("65_1_-2_7_10_11"), Ok(metrics(65, 1, -2, 7, 10, 11)));
}

#[test]
fn decode_accepts_plus_sign_and_leading_zeros() {
    assert_eq!(decode_name("+0065_+1_-0_007_0_65535"), Ok(metrics(65, 1, 0, 7, 0, 65535)));
}

#[test]
fn decode_ignores_fields_after_the_sixth() {
    assert_eq!(decode_name("1_2_3_4_5_6_extra"), Ok(metrics(1, 2, 3, 4, 5, 6)));
}

#[test]
fn decode_rejects_five_fields() {
    assert_eq!(decode_name("65_1_2_7_10"), Err(AtlasError::MalformedName));
}

#[test]
fn decode_rejects_empty_stem() {
    assert_eq!(decode_name(""), Err(AtlasError::MalformedName));
}

#[test]
fn decode_rejects_empty_field() {
    assert_eq!(decode_name("65__2_7_10_10"), Err(AtlasError::MalformedName));
}

#[test]
fn decode_rejects_out_of_range_code() {
    assert_eq!(decode_name("65536_0_0_0_0_0"), Err(AtlasError::MalformedName));
}

#[test]
fn decode_rejects_negative_unsigned_field() {
    assert_eq!(decode_name("-1_0_0_0_0_0"), Err(AtlasError::MalformedName));
}

#[test]
fn decode_signed_field_limits() {
    assert_eq!(decode_name("0_-32768_32767_0_0_0"), Ok(metrics(0, -32768, 32767, 0, 0, 0)));
    assert_eq!(decode_name("0_-32769_0_0_0_0"), Err(AtlasError::MalformedName));
    assert_eq!(decode_name("0_32768_0_0_0_0"), Err(AtlasError::MalformedName));
}

#[test]
fn decode_rejects_non_digit() {
    assert_eq!(decode_name("6a_0_0_0_0_0"), Err(AtlasError::MalformedName));
    assert_eq!(decode_name("+_0_0_0_0_0"), Err(AtlasError::MalformedName));
}

#[test]
fn encode_writes_canonical_stem() {
    assert_eq!(encode_name(&metrics(65, 1, -2, 7, 10, 10)), "65_1_-2_7_10_10");
    assert_eq!(encode_name(&metrics(0, -32768, 32767, 65535, 0, 9)), "0_-32768_32767_65535_0_9");
}

#[test]
fn encode_then_decode_round_trips() {
    let samples = [
        metrics(0, 0, 0, 0, 0, 0),
        metrics(65535, -32768, 32767, 65535, 65535, 65535),
        metrics(8364, -3, 11, 9, 10, 10),
    ];
    for m in samples.iter() {
        assert_eq!(decode_name(&encode_name(m)), Ok(*m));
    }
}
