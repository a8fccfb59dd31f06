use vstd::prelude::*;
use vstd::string::{StrSliceExecFns, StringExecFns};

verus! {

broadcast use vstd::string::is_ascii_spec_bytes;

/// A module id, which can be a number or string.
#[derive(Debug, PartialEq, Eq, Hash)]
pub enum ModuleId {
    Number(u32),
    String(String),
}

/// A module id as a value.
pub enum ModuleIdView {
    Number(u32),
    String(Seq<char>),
}

impl View for ModuleId {
    type V = ModuleIdView;

    open spec fn view(&self) -> ModuleIdView {
        match self {
            ModuleId::Number(number) => ModuleIdView::Number(*number),
            ModuleId::String(string) => ModuleIdView::String(string@),
        }
    }
}

impl Clone for ModuleId {
    fn clone(&self) -> (r: Self)
        ensures
            r@ == self@,
    {
        match self {
            ModuleId::Number(number) => ModuleId::Number(*number),
            ModuleId::String(string) => ModuleId::String(string.clone()),
        }
    }
}

/// A list of module ids.
#[derive(Debug, PartialEq, Eq)]
pub struct ModuleIds(pub Vec<ModuleId>);

pub open spec fn is_digit(c: char) -> bool {
    '0' <= c <= '9'
}

/// The number that a digit stands for.
pub open spec fn digit_value(c: char) -> nat
    recommends
        is_digit(c),
{
    (c as int - '0' as int) as nat
}

/// The digit that stands for a number below ten.
pub open spec fn digit_of(value: nat) -> char
    recommends
        value < 10,
{
    ('0' as nat + value) as char
}

/// The number that a sequence of digits stands for.
pub open spec fn decimal_value(digits: Seq<char>) -> nat
    decreases digits.len(),
{
    if digits.len() == 0 {
        0
    } else {
        decimal_value(digits.drop_last()) * 10 + digit_value(digits.last())
    }
}

/// The decimal representation of a number: its digits, without a sign and
/// without a leading zero, except for the number zero itself.
pub open spec fn decimal_digits(value: nat) -> Seq<char>
    decreases value,
{
    if value < 10 {
        seq![digit_of(value)]
    } else {
        decimal_digits(value / 10).push(digit_of(value % 10))
    }
}

/// Whether a string is read as a number: it is the decimal representation
/// of a number that fits in 32 bits.
pub open spec fn parses_as_number(id: Seq<char>) -> bool {
    exists|number: nat| number <= u32::MAX && id == #[trigger] decimal_digits(number)
}

/// The module id that a string is read as: the number, where the string is
/// read as a number, and the string itself otherwise.
pub open spec fn parsed(id: Seq<char>) -> ModuleIdView {
    if parses_as_number(id) {
        ModuleIdView::Number(decimal_value(id) as u32)
    } else {
        ModuleIdView::String(id)
    }
}

/// The string that stands for a module id: a string stands for itself, a
/// number is written in decimal.
pub open spec fn displayed(id: ModuleIdView) -> Seq<char> {
    match id {
        ModuleIdView::Number(number) => decimal_digits(number as nat),
        ModuleIdView::String(string) => string,
    }
}

/// Whether a string has the form of a decimal representation: at least one
/// digit, digits only, and no zero in front of another digit.
pub open spec fn is_decimal_form(id: Seq<char>) -> bool {
    &&& id.len() > 0
    &&& forall|i: int| 0 <= i < id.len() ==> is_digit(#[trigger] id[i])
    &&& id.len() == 1 || id[0] != '0'
}

/// A number is no smaller than the number that its first digits stand for.
proof fn lemma_decimal_value_grows(digits: Seq<char>, upto: int)
    requires
        0 <= upto <= digits.len(),
        forall|i: int| 0 <= i < digits.len() ==> is_digit(#[trigger] digits[i]),
    ensures
        decimal_value(digits.take(upto)) <= decimal_value(digits),
    decreases digits.len() - upto,
{
    if upto == digits.len() {
        assert(digits.take(upto) =~= digits);
    } else {
        lemma_decimal_value_grows(digits, upto + 1);
        assert(digits.take(upto + 1).drop_last() =~= digits.take(upto));
        assert(is_digit(digits[upto]));
    }
}

/// The decimal representation of a number has the form of one and stands
/// for the number.
pub proof fn lemma_decimal_digits_stand_for_value(value: nat)
    ensures
        is_decimal_form(decimal_digits(value)),
        decimal_value(decimal_digits(value)) == value,
        value >= 10 ==> decimal_digits(value).len() > 1,
    decreases value,
{
    let digits = decimal_digits(value);
    if value < 10 {
        assert(digits.drop_last() =~= Seq::<char>::empty());
        assert(decimal_value(digits.drop_last()) == 0);
    } else {
        lemma_decimal_digits_stand_for_value(value / 10);
        let front = decimal_digits(value / 10);
        assert(digits.drop_last() =~= front);
        assert(digits[0] == front[0]);
        assert(front[0] != '0') by {
            if front.len() == 1 {
                assert(front.drop_last() =~= Seq::<char>::empty());
                assert(decimal_value(front.drop_last()) == 0);
            }
        }
        assert forall|i: int| 0 <= i < digits.len() implies is_digit(#[trigger] digits[i]) by {
            if i < front.len() {
                assert(digits[i] == front[i]);
            }
        }
    }
}

/// A string in the form of a decimal representation is the decimal
/// representation of the number that it stands for.
pub proof fn lemma_decimal_form_is_representation(id: Seq<char>)
    requires
        is_decimal_form(id),
    ensures
        decimal_digits(decimal_value(id)) == id,
        id.len() > 1 ==> decimal_value(id) >= 10,
        id[0] != '0' ==> decimal_value(id) >= 1,
    decreases id.len(),
{
    let front = id.drop_last();
    assert(is_digit(id[id.len() - 1]));
    if id.len() == 1 {
        assert(front =~= Seq::<char>::empty());
        assert(decimal_value(front) == 0);
        assert(decimal_digits(decimal_value(id)) =~= id);
    } else {
        assert(front[0] == id[0]);
        assert forall|i: int| 0 <= i < front.len() implies is_digit(#[trigger] front[i]) by {
            assert(front[i] == id[i]);
        }
        lemma_decimal_form_is_representation(front);
        let value = decimal_value(id);
        assert(value / 10 == decimal_value(front));
        assert(value % 10 == digit_value(id.last()));
        assert(decimal_digits(value) =~= id);
    }
}

/// A string is read as a number exactly when it has the form of a decimal
/// representation and stands for a number that fits in 32 bits.
pub proof fn lemma_numbers_are_decimal_forms(id: Seq<char>)
    ensures
        parses_as_number(id) <==> is_decimal_form(id) && decimal_value(id) <= u32::MAX,
{
    if parses_as_number(id) {
        let number = choose|number: nat| number <= u32::MAX && id == #[trigger] decimal_digits(number);
        lemma_decimal_digits_stand_for_value(number);
    }
    if is_decimal_form(id) && decimal_value(id) <= u32::MAX {
        lemma_decimal_form_is_representation(id);
        assert(id == decimal_digits(decimal_value(id)));
    }
}

/// Reading the decimal representation of a number that fits in 32 bits
/// gives the number, and writing a module id that was read from such a
/// representation gives the representation back.
pub proof fn lemma_parse_reads_decimal(number: u32)
    ensures
        parsed(decimal_digits(number as nat)) == ModuleIdView::Number(number),
        displayed(parsed(decimal_digits(number as nat))) == decimal_digits(number as nat),
{
    lemma_decimal_digits_stand_for_value(number as nat);
    assert(parses_as_number(decimal_digits(number as nat)));
}

/// A string that is not the decimal representation of a number that fits in
/// 32 bits is kept as it is, and writing the module id gives the string
/// back.
pub proof fn lemma_parse_keeps_other_strings(id: Seq<char>)
    requires
        forall|number: u32| id != #[trigger] decimal_digits(number as nat),
    ensures
        parsed(id) == ModuleIdView::String(id),
        displayed(parsed(id)) == id,
{
    if parses_as_number(id) {
        let number = choose|number: nat| number <= u32::MAX && id == #[trigger] decimal_digits(number);
        assert(id == decimal_digits(number as u32 as nat));
    }
}

/// Whatever is read and written again is what was read: every string
/// survives `parse` and `to_string`.
pub proof fn lemma_parse_and_display_give_the_string_back(id: Seq<char>)
    ensures
        displayed(parsed(id)) == id,
{
    if parses_as_number(id) {
        lemma_numbers_are_decimal_forms(id);
        lemma_decimal_form_is_representation(id);
    }
}

/// The string of one digit.
fn digit_str(value: u32) -> (r: &'static str)
    requires
        value < 10,
    ensures
        r@ == seq![digit_of(value as nat)],
{
    proof {
        reveal_strlit("0");
        reveal_strlit("1");
        reveal_strlit("2");
        reveal_strlit("3");
        reveal_strlit("4");
        reveal_strlit("5");
        reveal_strlit("6");
        reveal_strlit("7");
        reveal_strlit("8");
        reveal_strlit("9");
    }
    let digit = match value {
        0 => "0",
        1 => "1",
        2 => "2",
        3 => "3",
        4 => "4",
        5 => "5",
        6 => "6",
        7 => "7",
        8 => "8",
        _ => "9",
    };
    assert(digit@ =~= seq![digit_of(value as nat)]);
    digit
}

/// Writes a number in decimal.
fn decimal_string(value: u32) -> (r: String)
    ensures
        r@ == decimal_digits(value as nat),
    decreases value,
{
    if value < 10 {
        String::from_str(digit_str(value))
    } else {
        let mut digits = decimal_string(value / 10);
        digits.append(digit_str(value % 10));
        assert(digits@ =~= decimal_digits(value as nat));
        digits
    }
}

impl ModuleId {
    /// Reads a module id: a number, where the string is the decimal
    /// representation of one that fits in 32 bits, and else the string
    /// itself.
    pub fn parse(id: &str) -> (r: ModuleId)
        ensures
            r@ == parsed(id@),
    {
        proof {
            lemma_numbers_are_decimal_forms(id@);
        }
        if !id.is_ascii() {
            return ModuleId::String(String::from_str(id));
        }
        let length = id.unicode_len();
        if length == 0 || (length > 1 && id.get_ascii(0) == 48u8) {
            return ModuleId::String(String::from_str(id));
        }
        let mut value: u64 = 0;
        let mut i: usize = 0;
        while i < length
            invariant
                i <= length,
                length == id@.len(),
                id.is_ascii(),
                parses_as_number(id@) <==> is_decimal_form(id@) && decimal_value(id@)
                    <= u32::MAX,
                id@.len() == 1 || id@[0] != '0',
                forall|j: int| 0 <= j < i ==> is_digit(#[trigger] id@[j]),
                value == decimal_value(id@.take(i as int)),
                value <= u32::MAX,
            decreases length - i,
        {
            let byte = id.get_ascii(i);
            if byte < 48u8 || byte > 57u8 {
                assert(!is_digit(id@[i as int]));
                return ModuleId::String(String::from_str(id));
            }
            proof {
                assert(id@.take(i + 1).drop_last() =~= id@.take(i as int));
                assert(digit_value(id@[i as int]) == byte - 48);
            }
            value = value * 10 + (byte - 48u8) as u64;
            if value > 0xffff_ffffu64 {
                proof {
                    if forall|j: int| 0 <= j < id@.len() ==> is_digit(#[trigger] id@[j]) {
                        lemma_decimal_value_grows(id@, i + 1);
                    }
                }
                return ModuleId::String(String::from_str(id));
            }
            i += 1;
        }
        assert(id@.take(length as int) =~= id@);
        ModuleId::Number(value as u32)
    }

    /// Writes the module id: a string as it is, a number in decimal.
    pub fn to_string(&self) -> (r: String)
        ensures
            r@ == displayed(self@),
    {
        match self {
            ModuleId::Number(number) => decimal_string(*number),
            ModuleId::String(string) => string.clone(),
        }
    }
}

} // verus!
