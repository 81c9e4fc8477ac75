//! What written numbers and trimmed texts say when they are read.

use vstd::arithmetic::power::{lemma_pow0, pow};
use vstd::prelude::*;

use crate::text::{
    decimal, hex, hex_number, is_white_space, padded, strip_prefix, strip_suffix, trim_end,
};

verus! {

/// The value of a digit, whose letters may be of either case; -1 for any other character.
pub open spec fn digit_value(c: char) -> int {
    if '0' <= c <= '9' {
        c as int - '0' as int
    } else if 'a' <= c <= 'f' {
        c as int - 'a' as int + 10
    } else if 'A' <= c <= 'F' {
        c as int - 'A' as int + 10
    } else {
        -1
    }
}

/// The number that `s` spells to base `base`.
pub open spec fn spelled(s: Seq<char>, base: int) -> int
    decreases s.len(),
{
    if s.len() == 0 {
        0
    } else {
        base * spelled(s.drop_last(), base) + digit_value(s.last())
    }
}

/// Whether `s` consists of decimal digits.
pub open spec fn only_decimals(s: Seq<char>) -> bool {
    forall|i: int| 0 <= i < s.len() ==> '0' <= #[trigger] s[i] <= '9'
}

/// Whether `s` consists of hexadecimal digits, none of them a capital.
pub open spec fn only_small_digits(s: Seq<char>) -> bool {
    forall|i: int| 0 <= i < s.len() ==> '0' <= #[trigger] s[i] <= '9' || 'a' <= s[i] <= 'f'
}

/// Whether `s` consists of hexadecimal digits, none of them a small letter.
pub open spec fn only_capital_digits(s: Seq<char>) -> bool {
    forall|i: int| 0 <= i < s.len() ==> '0' <= #[trigger] s[i] <= '9' || 'A' <= s[i] <= 'F'
}

/// The decimal spelling of a number is read back, and has no needless zero in front.
pub proof fn law_decimal_reads_back(n: nat)
    ensures
        only_decimals(decimal(n)),
        spelled(decimal(n), 10) == n,
        decimal(n).len() > 0,
        n > 0 ==> decimal(n)[0] != '0',
        n == 0 ==> decimal(n).len() == 1,
    decreases n,
{
    let s = decimal(n);
    if n < 10 {
        assert(s.drop_last() =~= Seq::empty());
        assert(spelled(s.drop_last(), 10) == 0);
    } else {
        law_decimal_reads_back(n / 10);
        let head = decimal(n / 10);
        assert(s.drop_last() =~= head);
        assert(s[0] == head[0]);
        assert forall|i: int| 0 <= i < s.len() implies '0' <= #[trigger] s[i] <= '9' by {
            if i < head.len() {
                assert(s[i] == head[i]);
            }
        }
    }
}

/// The capital hexadecimal spelling of a number is read back, and has no needless zero in
/// front.
pub proof fn law_hex_number_reads_back(n: nat)
    ensures
        only_capital_digits(hex_number(n)),
        spelled(hex_number(n), 16) == n,
        hex_number(n).len() > 0,
        n > 0 ==> hex_number(n)[0] != '0',
        n == 0 ==> hex_number(n).len() == 1,
    decreases n,
{
    let s = hex_number(n);
    if n < 16 {
        assert(s.drop_last() =~= Seq::empty());
        assert(spelled(s.drop_last(), 16) == 0);
    } else {
        law_hex_number_reads_back(n / 16);
        let head = hex_number(n / 16);
        assert(s.drop_last() =~= head);
        assert(s[0] == head[0]);
        assert forall|i: int| 0 <= i < s.len() implies '0' <= #[trigger] s[i] <= '9' || 'A' <= s[i]
            <= 'F' by {
            if i < head.len() {
                assert(s[i] == head[i]);
            }
        }
    }
}

/// `width` hexadecimal digits spell any number that fits in them.
pub proof fn law_hex_reads_back(n: nat, width: nat)
    requires
        n < pow(16, width),
    ensures
        hex(n, width).len() == width,
        only_small_digits(hex(n, width)),
        spelled(hex(n, width), 16) == n,
    decreases width,
{
    lemma_pow0(16);
    if width > 0 {
        let s = hex(n, width);
        let head = hex(n / 16, (width - 1) as nat);
        assert(pow(16, width) == 16 * pow(16, (width - 1) as nat)) by {
            reveal(pow);
        }
        law_hex_reads_back(n / 16, (width - 1) as nat);
        assert(s.drop_last() =~= head);
        assert forall|i: int| 0 <= i < s.len() implies '0' <= #[trigger] s[i] <= '9' || 'a' <= s[i]
            <= 'f' by {
            if i < head.len() {
                assert(s[i] == head[i]);
            }
        }
    }
}

/// `width` decimal digits spell any number that fits in them.
pub proof fn law_padded_reads_back(n: nat, width: nat)
    requires
        n < pow(10, width),
    ensures
        padded(n, width).len() == width,
        only_decimals(padded(n, width)),
        spelled(padded(n, width), 10) == n,
    decreases width,
{
    lemma_pow0(10);
    if width > 0 {
        let s = padded(n, width);
        let head = padded(n / 10, (width - 1) as nat);
        assert(pow(10, width) == 10 * pow(10, (width - 1) as nat)) by {
            reveal(pow);
        }
        law_padded_reads_back(n / 10, (width - 1) as nat);
        assert(s.drop_last() =~= head);
        assert forall|i: int| 0 <= i < s.len() implies '0' <= #[trigger] s[i] <= '9' by {
            if i < head.len() {
                assert(s[i] == head[i]);
            }
        }
    }
}

/// Different numbers are spelled differently.
pub proof fn law_decimals_differ(a: nat, b: nat)
    requires
        decimal(a) == decimal(b),
    ensures
        a == b,
{
    law_decimal_reads_back(a);
    law_decimal_reads_back(b);
}

/// Only white space is trimmed off the end of a text, and all of it.
pub proof fn law_trimming_takes_the_white_space(s: Seq<char>)
    ensures
        trim_end(s).is_prefix_of(s),
        forall|i: int| trim_end(s).len() <= i < s.len() ==> is_white_space(#[trigger] s[i]),
        trim_end(s).len() > 0 ==> !is_white_space(trim_end(s).last()),
    decreases s.len(),
{
    if s.len() > 0 && is_white_space(s.last()) {
        law_trimming_takes_the_white_space(s.drop_last());
        assert forall|i: int| trim_end(s).len() <= i < s.len() implies is_white_space(
            #[trigger] s[i],
        ) by {
            if i < s.len() - 1 {
                assert(s.drop_last()[i] == s[i]);
            }
        }
        assert(trim_end(s) =~= s.subrange(0, trim_end(s).len() as int));
    } else {
        assert(s =~= s.subrange(0, s.len() as int));
    }
}

/// Taking off a prefix or a suffix undoes putting it on, and nothing else can be taken off.
pub proof fn law_stripping_undoes_adding(s: Seq<char>, part: Seq<char>)
    ensures
        strip_prefix(part + s, part) == Some(s),
        strip_suffix(s + part, part) == Some(s),
        strip_prefix(s, part) matches Some(rest) ==> s == part + rest,
        strip_suffix(s, part) matches Some(rest) ==> s == rest + part,
{
    assert((part + s).skip(part.len() as int) =~= s);
    assert((part + s).subrange(0, part.len() as int) =~= part);
    assert((s + part).take(s.len() as int) =~= s);
    assert((s + part).subrange(s.len() as int, (s + part).len() as int) =~= part);
    if part.is_prefix_of(s) {
        assert(s =~= part + s.skip(part.len() as int));
    }
    if part.is_suffix_of(s) {
        assert(s =~= s.take(s.len() - part.len()) + part);
    }
}

} // verus!
