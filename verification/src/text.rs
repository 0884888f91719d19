//! Numbers as text, and sizes in bits.

use vstd::prelude::*;

verus! {

/// The character for a digit below sixteen, with letters in lower case.
pub open spec fn digit(value: int) -> char {
    if value < 10 {
        ('0' as int + value) as char
    } else {
        ('a' as int + value - 10) as char
    }
}

/// A number written in the given base, without leading zeros.
pub open spec fn numeral(value: nat, base: nat) -> Seq<char>
    decreases value,
{
    if base < 2 || value < base {
        seq![digit(value as int)]
    } else {
        proof {
            assert(value / base < value) by (nonlinear_arith)
                requires
                    2 <= base,
                    base <= value,
            ;
        }
        numeral(value / base, base).push(digit(value as int % base as int))
    }
}

/// A number in decimal.
pub open spec fn decimal(value: nat) -> Seq<char> {
    numeral(value, 10)
}

/// A number in hexadecimal.
pub open spec fn hexadecimal(value: nat) -> Seq<char> {
    numeral(value, 16)
}

/// A number in decimal, with a minus sign in front where it is negative.
pub open spec fn signed_decimal(value: int) -> Seq<char> {
    if value < 0 {
        "-"@ + decimal((-value) as nat)
    } else {
        decimal(value as nat)
    }
}

/// A size or an offset that is given in bits: whole bytes, and after a point the bits
/// that are left over, if there are any.
pub open spec fn bits(value: nat) -> Seq<char> {
    if value % 8 == 0 {
        decimal(value / 8)
    } else {
        decimal(value / 8) + "."@ + decimal(value % 8)
    }
}

/// Texts can be put together in any grouping.
pub broadcast proof fn lemma_grouping(a: Seq<char>, b: Seq<char>, c: Seq<char>)
    ensures
        #[trigger] ((a + b) + c) == a + (b + c),
{
    assert((a + b) + c =~= a + (b + c));
}

/// No text adds nothing.
pub broadcast proof fn lemma_nothing_added(a: Seq<char>)
    ensures
        #[trigger] (a + Seq::<char>::empty()) == a,
{
    assert(a + Seq::<char>::empty() =~= a);
}

pub broadcast group group_text {
    lemma_grouping,
    lemma_nothing_added,
}

/// As many tabs as given.
pub open spec fn tabs(count: nat) -> Seq<char>
    decreases count,
{
    if count == 0 {
        seq![]
    } else {
        tabs((count - 1) as nat) + "\t"@
    }
}

/// Appends tabs.
pub fn write_tabs(w: &mut String, count: usize)
    ensures
        final(w)@ == old(w)@ + tabs(count as nat),
{
    let mut i: usize = 0;
    while i < count
        invariant
            i <= count,
            w@ == old(w)@ + tabs(i as nat),
        decreases count - i,
    {
        w.append("\t");
        i = i + 1;
        assert(w@ =~= old(w)@ + tabs(i as nat));
    }
}

/// Appends a size or an offset that is given in bits.
pub fn write_bits(w: &mut String, value: u64)
    ensures
        final(w)@ == old(w)@ + bits(value as nat),
{
    let text = format_bit(value);
    w.append(text.as_str());
}

fn digit_text(value: u64) -> (text: &'static str)
    requires
        value < 16,
    ensures
        text@ == seq![digit(value as int)],
{
    proof {
        reveal_strlit("0");
        reveal_strlit("1");
        reveal_strlit("2");
        reveal_strlit("3");
        reveal_strlit("4");
        reveal_strlit("5");
        reveal_strlit("6");
        reveal_strlit("7");
        reveal_strlit("8");
        reveal_strlit("9");
        reveal_strlit("a");
        reveal_strlit("b");
        reveal_strlit("c");
        reveal_strlit("d");
        reveal_strlit("e");
        reveal_strlit("f");
    }
    match value {
        0 => "0",
        1 => "1",
        2 => "2",
        3 => "3",
        4 => "4",
        5 => "5",
        6 => "6",
        7 => "7",
        8 => "8",
        9 => "9",
        10 => "a",
        11 => "b",
        12 => "c",
        13 => "d",
        14 => "e",
        _ => "f",
    }
}

/// Appends a digit.
pub fn write_digit(w: &mut String, value: u64)
    requires
        value < 16,
    ensures
        final(w)@ == old(w)@ + seq![digit(value as int)],
{
    w.append(digit_text(value));
}

fn write_numeral(w: &mut String, value: u64, base: u64)
    requires
        2 <= base <= 16,
    ensures
        final(w)@ == old(w)@ + numeral(value as nat, base as nat),
    decreases value,
{
    if value < base {
        w.append(digit_text(value));
    } else {
        assert(value / base < value) by (nonlinear_arith)
            requires
                2 <= base,
                base <= value,
        ;
        assert(value % base < base) by (nonlinear_arith)
            requires
                2 <= base,
        ;
        write_numeral(w, value / base, base);
        w.append(digit_text(value % base));
    }
}

/// Appends a number in decimal.
pub fn write_decimal(w: &mut String, value: u64)
    ensures
        final(w)@ == old(w)@ + decimal(value as nat),
{
    write_numeral(w, value, 10);
}

/// Appends a number in hexadecimal.
pub fn write_hexadecimal(w: &mut String, value: u64)
    ensures
        final(w)@ == old(w)@ + hexadecimal(value as nat),
{
    write_numeral(w, value, 16);
}

/// Appends a signed number in decimal.
pub fn write_signed(w: &mut String, value: i64)
    ensures
        final(w)@ == old(w)@ + signed_decimal(value as int),
{
    if value < 0 {
        w.append("-");
        // One more than the value is negative or zero, so its negation fits.
        write_decimal(w, (-(value + 1)) as u64 + 1);
    } else {
        write_decimal(w, value as u64);
    }
}

/// A size or an offset that is given in bits, as text: whole bytes, and after a point the
/// bits that are left over.
pub fn format_bit(val: u64) -> (text: String)
    ensures
        text@ == bits(val as nat),
{
    let byte: u64 = val / 8;
    let bit: u64 = val % 8;
    let mut text = String::new();
    write_decimal(&mut text, byte);
    if bit != 0 {
        text.append(".");
        write_decimal(&mut text, bit);
    }
    text
}

/// What digits of a base below ten or equal to it come to.
spec fn value_of(digits: Seq<char>, base: nat) -> nat
    decreases digits.len(),
{
    if digits.len() == 0 {
        0
    } else {
        value_of(digits.drop_last(), base) * base + (digits.last() as int - '0' as int) as nat
    }
}

proof fn lemma_value_of_numeral(value: nat)
    ensures
        value_of(decimal(value), 10) == value,
        decimal(value).len() > 0,
        forall|i: int| 0 <= i < decimal(value).len() ==> '0' <= #[trigger] decimal(value)[i] <= '9',
    decreases value,
{
    let digits = decimal(value);
    if value < 10 {
        assert(digits.drop_last() =~= seq![]);
        assert(value_of(digits.drop_last(), 10) == 0);
        assert(digits.last() as int == '0' as int + value);
    } else {
        lemma_value_of_numeral(value / 10);
        assert(digits.drop_last() =~= decimal(value / 10));
        assert(digits.last() as int == '0' as int + value % 10);
        assert forall|i: int| 0 <= i < digits.len() implies '0' <= #[trigger] digits[i] <= '9' by {
            if i < digits.len() - 1 {
                assert(digits[i] == decimal(value / 10)[i]);
            }
        }
    }
}

/// Different numbers are written differently.
pub proof fn lemma_decimal_is_unique(a: nat, b: nat)
    requires
        decimal(a) == decimal(b),
    ensures
        a == b,
{
    lemma_value_of_numeral(a);
    lemma_value_of_numeral(b);
}

/// Different numbers of bits are written differently.
pub proof fn lemma_bits_are_unique(a: nat, b: nat)
    requires
        bits(a) == bits(b),
    ensures
        a == b,
{
    reveal_strlit(".");
    lemma_value_of_numeral(a / 8);
    lemma_value_of_numeral(b / 8);
    let bytes1 = decimal(a / 8);
    let bytes2 = decimal(b / 8);
    let text = bits(a);
    assert(forall|i: int| 0 <= i < bytes1.len() ==> text[i] == bytes1[i]);
    assert(forall|i: int| 0 <= i < bytes2.len() ==> text[i] == bytes2[i]);
    if a % 8 != 0 {
        assert(text[bytes1.len() as int] == '.');
    }
    if b % 8 != 0 {
        assert(text[bytes2.len() as int] == '.');
    }
    assert(bytes1.len() == bytes2.len());
    assert(bytes1 =~= text.take(bytes1.len() as int));
    assert(bytes2 =~= text.take(bytes1.len() as int));
    lemma_decimal_is_unique(a / 8, b / 8);
    if a % 8 != 0 {
        let rest = text.skip((bytes1.len() + 1) as int);
        assert(b % 8 != 0);
        assert(rest =~= decimal(a % 8));
        assert(rest =~= decimal(b % 8));
        lemma_decimal_is_unique(a % 8, b % 8);
    }
}

/// What a digit stands for.
pub open spec fn digit_value(digit: char) -> int {
    if '0' <= digit <= '9' {
        digit as int - '0' as int
    } else {
        digit as int - 'a' as int + 10
    }
}

/// What digits stand for in a base.
pub open spec fn number(digits: Seq<char>, base: int) -> int
    decreases digits.len(),
{
    if digits.len() == 0 {
        0
    } else {
        number(digits.drop_last(), base) * base + digit_value(digits.last())
    }
}

/// A numeral stands for the number that it was written for, has no zero in front unless it is
/// one, and holds nothing but digits.
pub proof fn lemma_numeral_reads_back(value: nat, base: nat)
    requires
        2 <= base <= 16,
    ensures
        number(numeral(value, base), base as int) == value,
        numeral(value, base).len() > 0,
        value > 0 ==> numeral(value, base)[0] != '0',
        value == 0 ==> numeral(value, base) == seq!['0'],
        forall|i: int|
            0 <= i < numeral(value, base).len() ==> 0 <= digit_value(
                #[trigger] numeral(value, base)[i],
            ) < base,
    decreases value,
{
    let digits = numeral(value, base);
    if value < base {
        assert(digits =~= seq![digit(value as int)]);
        assert(digits.drop_last() =~= seq![]);
        assert(number(digits.drop_last(), base as int) == 0);
        assert(0 * base == 0);
        assert(digits.last() == digit(value as int));
    } else {
        let rest = value / base;
        let last = value as int % base as int;
        assert(rest < value && rest > 0 && 0 <= last < base && rest * base + last == value)
            by (nonlinear_arith)
            requires
                2 <= base,
                base <= value,
                rest == value / base,
                last == value as int % base as int,
        ;
        lemma_numeral_reads_back(rest, base);
        assert(digits.drop_last() =~= numeral(rest, base));
        assert(digits.last() == digit(last));
        assert(digits[0] == numeral(rest, base)[0]);
        assert forall|i: int| 0 <= i < digits.len() implies 0 <= digit_value(
            #[trigger] digits[i],
        ) < base by {
            if i < digits.len() - 1 {
                assert(digits[i] == numeral(rest, base)[i]);
            }
        }
    }
}

/// Numbers are written in the bases that are said: decimal ones stand for themselves in base
/// ten and hexadecimal ones in base sixteen, and a negative number has a minus sign in front of
/// its amount.
pub proof fn lemma_numbers_read_back(value: nat)
    ensures
        number(decimal(value), 10) == value,
        number(hexadecimal(value), 16) == value,
        signed_decimal(value as int) == decimal(value),
        value > 0 ==> signed_decimal(-(value as int)) == "-"@ + decimal(value),
{
    lemma_numeral_reads_back(value, 10);
    lemma_numeral_reads_back(value, 16);
}

/// A number of bits is written as its whole bytes, and behind a point the bits that are left
/// over, if any are.
pub proof fn lemma_bits_are_bytes_and_bits(bytes: nat, rest: nat)
    requires
        rest < 8,
    ensures
        rest == 0 ==> bits(8 * bytes + rest) == decimal(bytes),
        rest > 0 ==> bits(8 * bytes + rest) == decimal(bytes) + "."@ + decimal(rest),
{
    assert((8 * bytes + rest) / 8 == bytes);
    assert((8 * bytes + rest) % 8 == rest);
}

/// Tabs are as many as are asked for.
pub proof fn lemma_tabs_count(count: nat)
    ensures
        tabs(count).len() == count,
        forall|i: int| 0 <= i < count ==> tabs(count)[i] == '\t',
    decreases count,
{
    reveal_strlit("\t");
    if count > 0 {
        lemma_tabs_count((count - 1) as nat);
    }
}

/// Whether a text stands somewhere in another.
#[verifier::opaque]
pub open spec fn part(a: Seq<char>, b: Seq<char>) -> bool {
    exists|before: Seq<char>, after: Seq<char>| #[trigger] (before + a + after) == b
}

/// A text stands in itself.
pub broadcast proof fn lemma_part_self(a: Seq<char>)
    ensures
        #[trigger] part(a, a),
{
    reveal(part);
    let none = Seq::<char>::empty();
    assert(none + a + none =~= a);
}

/// What stands in the first of two texts stands in both together.
pub broadcast proof fn lemma_part_first(a: Seq<char>, b: Seq<char>, c: Seq<char>)
    requires
        part(a, b),
    ensures
        #[trigger] part(a, b + c),
{
    reveal(part);
    let (before, after) = choose|before: Seq<char>, after: Seq<char>| #[trigger]
        (before + a + after) == b;
    assert(before + a + (after + c) =~= b + c);
}

/// What stands in the second of two texts stands in both together.
pub broadcast proof fn lemma_part_second(a: Seq<char>, b: Seq<char>, c: Seq<char>)
    requires
        part(a, c),
    ensures
        #[trigger] part(a, b + c),
{
    reveal(part);
    let (before, after) = choose|before: Seq<char>, after: Seq<char>| #[trigger]
        (before + a + after) == c;
    assert((b + before) + a + after =~= b + c);
}

/// What stands in a text stands in every text in which that one stands.
pub proof fn lemma_part_of_part(a: Seq<char>, b: Seq<char>, c: Seq<char>)
    requires
        part(a, b),
        part(b, c),
    ensures
        part(a, c),
{
    reveal(part);
    let (before, after) = choose|before: Seq<char>, after: Seq<char>| #[trigger]
        (before + a + after) == b;
    let (first, last) = choose|before: Seq<char>, after: Seq<char>| #[trigger]
        (before + b + after) == c;
    assert((first + before) + a + (after + last) =~= c);
}

pub broadcast group group_part {
    lemma_part_self,
    lemma_part_first,
    lemma_part_second,
}

} // verus!
