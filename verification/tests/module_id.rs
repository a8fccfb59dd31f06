use chunking_core::module_id::{ModuleId, ModuleIds};

fn string(id: &str) -> ModuleId {
    ModuleId::String(id.to_string())
}

#[test]
fn parse_reads_a_number() {
    assert_eq!(ModuleId::parse("42"), ModuleId::Number(42));
    assert_eq!(ModuleId::parse("0"), ModuleId::Number(0));
    assert_eq!(ModuleId::parse("7"), ModuleId::Number(7));
    assert_eq!(ModuleId::parse("1234567890"), ModuleId::Number(1234567890));
}

#[test]
fn parse_reads_the_largest_number() {
    assert_eq!(ModuleId::parse("4294967295"), ModuleId::Number(u32::MAX));
    assert_eq!(ModuleId::parse("4294967296"), string("4294967296"));
    assert_eq!(ModuleId::parse("42949672950"), string("42949672950"));
    assert_eq!(ModuleId::parse("99999999999999999999999999"), string("99999999999999999999999999"));
}

#[test]
fn parse_keeps_what_is_no_number() {
    assert_eq!(ModuleId::parse(""), string(""));
    assert_eq!(ModuleId::parse("+"), string("+"));
    assert_eq!(ModuleId::parse("-"), string("-"));
    assert_eq!(ModuleId::parse("-1"), string("-1"));
    assert_eq!(ModuleId::parse("-0"), string("-0"));
    assert_eq!(ModuleId::parse("++1"), string("++1"));
    assert_eq!(ModuleId::parse("1+"), string("1+"));
    assert_eq!(ModuleId::parse(" 1"), string(" 1"));
    assert_eq!(ModuleId::parse("1 "), string("1 "));
    assert_eq!(ModuleId::parse("1_000"), string("1_000"));
    assert_eq!(ModuleId::parse("0x10"), string("0x10"));
    assert_eq!(ModuleId::parse("12a"), string("12a"));
    assert_eq!(ModuleId::parse("1.5"), string("1.5"));
    assert_eq!(ModuleId::parse("./src/index.js"), string("./src/index.js"));
    assert_eq!(ModuleId::parse("[project]/app.js"), string("[project]/app.js"));
}

#[test]
fn parse_keeps_strings_beyond_ascii() {
    assert_eq!(ModuleId::parse("é"), string("é"));
    assert_eq!(ModuleId::parse("1é"), string("1é"));
    assert_eq!(ModuleId::parse("+é"), string("+é"));
    assert_eq!(ModuleId::parse("١٢٣"), string("١٢٣"));
    assert_eq!(ModuleId::parse("12３"), string("12３"));
}

#[test]
fn parse_keeps_a_sign_and_leading_zeros() {
    assert_eq!(ModuleId::parse("+5"), string("+5"));
    assert_eq!(ModuleId::parse("007"), string("007"));
    assert_eq!(ModuleId::parse("+0"), string("+0"));
    assert_eq!(ModuleId::parse("00"), string("00"));
    assert_eq!(ModuleId::parse("01"), string("01"));
    assert_eq!(ModuleId::parse("04294967295"), string("04294967295"));
    assert_eq!(ModuleId::parse("+4294967295"), string("+4294967295"));
    assert_eq!(ModuleId::parse("007").to_string(), "007");
    assert_eq!(ModuleId::parse("+5").to_string(), "+5");
}

#[test]
fn parse_reads_exactly_the_decimal_representations() {
    let samples = [
        "", "0", "1", "9", "10", "+1", "-1", "+", "-", "00", "+00", "4294967295", "4294967296",
        "04294967295", "+4294967295", "429496729a", "a", "1a", "a1", " ", "1 ", "\t1", "１", "1\0",
        "18446744073709551616", "+-1", "1e3", "100", "1000000000", "0000",
    ];
    for sample in samples {
        let expected = match sample.parse::<u32>() {
            Ok(number) if number.to_string() == sample => ModuleId::Number(number),
            _ => ModuleId::String(sample.to_string()),
        };
        assert_eq!(ModuleId::parse(sample), expected);
        assert_eq!(ModuleId::parse(sample).to_string(), sample);
    }
}

#[test]
fn to_string_writes_a_number_in_decimal() {
    assert_eq!(ModuleId::Number(0).to_string(), "0");
    assert_eq!(ModuleId::Number(9).to_string(), "9");
    assert_eq!(ModuleId::Number(10).to_string(), "10");
    assert_eq!(ModuleId::Number(1907).to_string(), "1907");
    assert_eq!(ModuleId::Number(u32::MAX).to_string(), "4294967295");
}

#[test]
fn to_string_gives_a_string_as_it_is() {
    assert_eq!(string("").to_string(), "");
    assert_eq!(string("./a b.js").to_string(), "./a b.js");
    assert_eq!(string("é").to_string(), "é");
}

#[test]
fn decimal_numbers_survive_parse_and_to_string() {
    let numbers = [0u32, 1, 9, 10, 11, 99, 100, 101, 65535, 65536, 999999999, 4294967294, u32::MAX];
    for number in numbers {
        let text = number.to_string();
        assert_eq!(ModuleId::parse(&text), ModuleId::Number(number));
        assert_eq!(ModuleId::parse(&text).to_string(), text);
    }
}

#[test]
fn other_strings_survive_parse_and_to_string() {
    for text in ["", "a", "-3", "4294967296", "1.0", "module", "+", "007", "+5"] {
        assert_eq!(ModuleId::parse(text), string(text));
        assert_eq!(ModuleId::parse(text).to_string(), text);
    }
}

#[test]
fn module_ids_hold_their_ids_in_order() {
    let ids = ModuleIds(vec![ModuleId::parse("1"), ModuleId::parse("a")]);
    assert_eq!(ids.0, vec![ModuleId::Number(1), string("a")]);
}
