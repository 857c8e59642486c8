use pulse_decode::decode::{MessageRaw, Value};
use pulse_decode::render::FormatOptions;

fn msg(bits: &str) -> MessageRaw {
    MessageRaw { data: bits.chars().map(|c| if c == '1' { Value::One } else { Value::Zero }).collect() }
}

const PLAIN: FormatOptions = FormatOptions { invert: false, reverse: false };

#[test]
fn value_chars() {
    assert_eq!(Value::One.to_char(), '1');
    assert_eq!(Value::Zero.to_char(), '0');
    assert_eq!(Value::One.flipped(), Value::Zero);
}

#[test]
fn render_plain_and_empty() {
    assert_eq!(msg("").render(PLAIN), "");
    assert_eq!(msg("1101").render(PLAIN), "1101");
}

#[test]
fn render_groups_every_eight() {
    assert_eq!(msg("11110000").render(PLAIN), "11110000 ");
    assert_eq!(msg("1111000010").render(PLAIN), "11110000 10");
    assert_eq!(msg("0000000011111111").render(PLAIN), "00000000 11111111 ");
    assert_eq!(msg("000000001111111101").render(PLAIN), "00000000 11111111 01");
}

#[test]
fn separator_positions_ignore_values() {
    for bits in ["000000000000000000000", "111111111111111111111", "101100111000111100001"] {
        let text: Vec<char> = msg(bits).render(PLAIN).chars().collect();
        assert_eq!(text.len(), 21 + 2);
        for (p, c) in text.iter().enumerate() {
            assert_eq!(*c == ' ', (p + 1) % 9 == 0);
        }
    }
}

#[test]
fn render_invert_and_reverse() {
    let m = msg("1100");
    assert_eq!(m.render(FormatOptions { invert: true, reverse: false }), "0011");
    assert_eq!(m.render(FormatOptions { invert: false, reverse: true }), "0011");
    assert_eq!(msg("1000").render(FormatOptions { invert: true, reverse: true }), "1110");
    assert_eq!(m.data, msg("1100").data);
}

#[test]
fn reversed_and_inverted_copies() {
    let m = msg("1000110");
    assert_eq!(m.reversed().data, msg("0110001").data);
    assert_eq!(m.inverted().data, msg("0111001").data);
    assert_eq!(m.len(), 7);
}

#[test]
fn reverse_twice_restores_rendering() {
    let m = msg("1011001110");
    for invert in [false, true] {
        assert_eq!(m.reversed().reversed().data, m.data);
        assert_eq!(
            m.reversed().render(FormatOptions { invert, reverse: true }),
            m.render(FormatOptions { invert, reverse: false })
        );
    }
}

#[test]
fn invert_twice_restores_rendering() {
    let m = msg("1011001110");
    for reverse in [false, true] {
        assert_eq!(m.inverted().inverted().data, m.data);
        assert_eq!(
            m.inverted().render(FormatOptions { invert: true, reverse }),
            m.render(FormatOptions { invert: false, reverse })
        );
    }
}
