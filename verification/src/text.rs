use vstd::prelude::*;
use vstd::string::*;

verus! {

/// The character of one decimal digit.
pub open spec fn digit(value: nat) -> char {
    ('0' as nat + value) as char
}

/// The decimal digits of `value`, without leading zeros.
pub open spec fn decimal(value: nat) -> Seq<char>
    decreases value,
{
    if value < 10 {
        seq![digit(value)]
    } else {
        decimal(value / 10).push(digit(value % 10))
    }
}

fn digit_text(value: usize) -> (text: &'static str)
    requires
        value < 10,
    ensures
        text@ == seq![digit(value as nat)],
{
    proof {
        reveal_strlit("0");
        reveal_strlit("1");
        reveal_strlit("2");
        reveal_strlit("3");
        reveal_strlit("4");
        reveal_strlit("5");
        reveal_strlit("6");
        reveal_strlit("7");
        reveal_strlit("8");
        reveal_strlit("9");
    }
    let text: &'static str = match value {
        0 => "0",
        1 => "1",
        2 => "2",
        3 => "3",
        4 => "4",
        5 => "5",
        6 => "6",
        7 => "7",
        8 => "8",
        _ => "9",
    };
    assert(text@ =~= seq![digit(value as nat)]);
    text
}

/// Appends `value` in decimal digits.
pub fn append_decimal(text: &mut String, value: usize)
    ensures
        final(text)@ == old(text)@ + decimal(value as nat),
    decreases value,
{
    if value >= 10 {
        append_decimal(text, value / 10);
    }
    text.append(digit_text(value % 10));
    proof {
        assert(text@ =~= old(text)@ + decimal(value as nat));
    }
}

/// Returns whether two texts are the same, character by character.
#[must_use]
pub fn same_text(one: &str, other: &str) -> (same: bool)
    ensures
        same == (one@ == other@),
{
    let length: usize = one.unicode_len();
    if other.unicode_len() != length {
        return false;
    }
    let mut index: usize = 0;
    while index < length
        invariant
            one@.len() == length,
            other@.len() == length,
            index <= length,
            one@.take(index as int) == other@.take(index as int),
        decreases length - index,
    {
        if one.get_char(index) != other.get_char(index) {
            return false;
        }
        proof {
            assert(one@.take(index + 1) =~= one@.take(index as int).push(one@[index as int]));
            assert(other@.take(index + 1) =~= other@.take(index as int).push(
                other@[index as int],
            ));
        }
        index = index + 1;
    }
    proof {
        assert(one@.take(length as int) =~= one@);
        assert(other@.take(length as int) =~= other@);
    }
    true
}

} // verus!
