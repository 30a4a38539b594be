//! The ordering key of a migration name.
//!
//! A migration name has the form `<ordinal>_<slug>`: the characters before the
//! first underscore must form a non-empty decimal number, and that number is
//! the only ordering signal the engine uses. A name without such a prefix is a
//! fatal configuration error for the caller.

use vstd::prelude::*;
use vstd::string::StrSliceExecFns;

verus! {

/// True when `c` is one of the ten decimal digit characters.
pub open spec fn is_digit(c: char) -> bool {
    48 <= (c as u32) && (c as u32) <= 57
}

/// Numeric value of a decimal digit character.
pub open spec fn digit_value(c: char) -> int {
    (c as u32) - 48
}

/// True when every character of `s` is a decimal digit.
pub open spec fn all_digits(s: Seq<char>) -> bool {
    forall|i: int| 0 <= i < s.len() ==> is_digit(#[trigger] s[i])
}

/// The characters of `s` that precede its first underscore; all of `s` when
/// no underscore occurs.
pub open spec fn ordinal_prefix(s: Seq<char>) -> Seq<char>
    decreases s.len(),
{
    if s.len() == 0 {
        s
    } else if s[0] == '_' {
        Seq::empty()
    } else {
        seq![s[0]] + ordinal_prefix(s.drop_first())
    }
}

/// Value of a digit string read in base ten.
pub open spec fn digits_value(s: Seq<char>) -> int
    decreases s.len(),
{
    if s.len() == 0 {
        0
    } else {
        digits_value(s.drop_last()) * 10 + digit_value(s.last())
    }
}

/// The ordinal encoded by a migration name: the value of the digit string
/// before the first underscore. `None` when that prefix is empty, holds a
/// character that is no digit, or names a value above `u64::MAX`.
pub open spec fn spec_ordinal(s: Seq<char>) -> Option<u64> {
    let p = ordinal_prefix(s);
    if p.len() > 0 && all_digits(p) && digits_value(p) <= u64::MAX {
        Some(digits_value(p) as u64)
    } else {
        None
    }
}

/// `ordinal_prefix(s)` copies `s` up to, and not including, the first
/// underscore.
pub proof fn lemma_ordinal_prefix(s: Seq<char>)
    ensures
        ordinal_prefix(s).len() <= s.len(),
        forall|k: int|
            0 <= k < ordinal_prefix(s).len() ==> ordinal_prefix(s)[k] == #[trigger] s[k] && s[k]
                != '_',
        ordinal_prefix(s).len() < s.len() ==> s[ordinal_prefix(s).len() as int] == '_',
    decreases s.len(),
{
    if s.len() == 0 {
    } else if s[0] == '_' {
    } else {
        lemma_ordinal_prefix(s.drop_first());
        assert forall|k: int| 0 <= k < ordinal_prefix(s).len() implies ordinal_prefix(s)[k]
            == s[k] && s[k] != '_' by {
            if k > 0 {
                assert(ordinal_prefix(s)[k] == ordinal_prefix(s.drop_first())[k - 1]);
                assert(s.drop_first()[k - 1] == s[k]);
            }
        }
        if ordinal_prefix(s).len() < s.len() {
            assert(s.drop_first()[ordinal_prefix(s.drop_first()).len() as int]
                == s[ordinal_prefix(s).len() as int]);
        }
    }
}

/// The prefix length is determined: if the characters before `i` are not
/// underscores and the character at `i` (when there is one) is, then the
/// prefix is exactly `s.take(i)`.
pub proof fn lemma_ordinal_prefix_is_take(s: Seq<char>, i: int)
    requires
        0 <= i <= s.len(),
        forall|k: int| 0 <= k < i ==> #[trigger] s[k] != '_',
        i < s.len() ==> s[i] == '_',
    ensures
        ordinal_prefix(s) == s.take(i),
{
    lemma_ordinal_prefix(s);
    let n = ordinal_prefix(s).len() as int;
    if n < i {
        assert(n < s.len());
        assert(s[n] == '_');
        assert(s[n] != '_');
    }
    if n > i {
        assert(s[i] != '_');
    }
    assert(ordinal_prefix(s) =~= s.take(i));
}

/// A digit string's value is never negative.
pub proof fn lemma_digits_value_nonneg(s: Seq<char>)
    requires
        all_digits(s),
    ensures
        digits_value(s) >= 0,
    decreases s.len(),
{
    if s.len() > 0 {
        assert(all_digits(s.drop_last())) by {
            assert(forall|i: int|
                0 <= i < s.drop_last().len() ==> #[trigger] s.drop_last()[i] == s[i]);
        }
        lemma_digits_value_nonneg(s.drop_last());
    }
}

/// Reading one more digit multiplies the value by ten and adds the digit.
pub proof fn lemma_digits_value_step(s: Seq<char>, i: int)
    requires
        0 <= i < s.len(),
    ensures
        digits_value(s.take(i + 1)) == digits_value(s.take(i)) * 10 + digit_value(s[i]),
{
    assert(s.take(i + 1).drop_last() =~= s.take(i));
    assert(s.take(i + 1).last() == s[i]);
}

/// The value of a digit string bounds the value of each of its prefixes.
pub proof fn lemma_digits_value_take_monotone(s: Seq<char>, i: int)
    requires
        all_digits(s),
        0 <= i <= s.len(),
    ensures
        digits_value(s.take(i)) <= digits_value(s),
    decreases s.len() - i,
{
    if i == s.len() {
        assert(s.take(i) =~= s);
    } else {
        lemma_digits_value_step(s, i);
        assert(all_digits(s.take(i))) by {
            assert(forall|k: int| 0 <= k < s.take(i).len() ==> #[trigger] s.take(i)[k] == s[k]);
        }
        lemma_digits_value_nonneg(s.take(i));
        lemma_digits_value_take_monotone(s, i + 1);
    }
}

/// A name whose prefix is scanned whole without finding a flaw encodes the
/// accumulated value.
proof fn lemma_scan_complete(s: Seq<char>, i: int)
    requires
        0 < i <= s.len(),
        forall|k: int| 0 <= k < i ==> #[trigger] s[k] != '_' && is_digit(s[k]),
        i < s.len() ==> s[i] == '_',
        digits_value(s.take(i)) <= u64::MAX,
    ensures
        spec_ordinal(s) == Some(digits_value(s.take(i)) as u64),
{
    lemma_ordinal_prefix_is_take(s, i);
    assert(all_digits(s.take(i))) by {
        assert(forall|k: int| 0 <= k < s.take(i).len() ==> #[trigger] s.take(i)[k] == s[k]);
    }
    lemma_digits_value_nonneg(s.take(i));
}

/// A non-digit inside the prefix means the name encodes no ordinal.
proof fn lemma_scan_non_digit(s: Seq<char>, i: int)
    requires
        0 <= i < s.len(),
        forall|k: int| 0 <= k < i ==> #[trigger] s[k] != '_',
        s[i] != '_',
        !is_digit(s[i]),
    ensures
        spec_ordinal(s) is None,
{
    lemma_ordinal_prefix(s);
    let n = ordinal_prefix(s).len() as int;
    if n <= i {
        if n < s.len() {
            assert(s[n] == '_');
            assert(s[n] != '_');
        }
    }
    assert(ordinal_prefix(s)[i] == s[i]);
}

/// A prefix whose digits already exceed `u64::MAX` part-way through means the
/// name encodes no ordinal.
proof fn lemma_scan_overflow(s: Seq<char>, i: int)
    requires
        0 <= i < s.len(),
        forall|k: int| 0 <= k < i ==> #[trigger] s[k] != '_' && is_digit(s[k]),
        s[i] != '_',
        is_digit(s[i]),
        digits_value(s.take(i + 1)) > u64::MAX,
    ensures
        spec_ordinal(s) is None,
{
    lemma_ordinal_prefix(s);
    let p = ordinal_prefix(s);
    let n = p.len() as int;
    if n <= i {
        if n < s.len() {
            assert(s[n] == '_');
            assert(s[n] != '_');
        }
    }
    assert(n >= i + 1);
    if all_digits(p) {
        assert(p.take(i + 1) =~= s.take(i + 1)) by {
            assert(forall|k: int| 0 <= k < i + 1 ==> #[trigger] p[k] == s[k]);
        }
        lemma_digits_value_take_monotone(p, i + 1);
    }
}

/// Parse the numeric ordinal from a migration name, exactly as
/// [`spec_ordinal`] describes it.
pub fn parse_ordinal(name: &str) -> (r: Option<u64>)
    ensures
        r == spec_ordinal(name@),
{
    let n = name.unicode_len();
    let mut i: usize = 0;
    let mut acc: u64 = 0;
    while i < n
        invariant
            0 <= i <= n,
            n == name@.len(),
            forall|k: int| 0 <= k < i ==> #[trigger] name@[k] != '_' && is_digit(name@[k]),
            acc == digits_value(name@.take(i as int)),
        decreases n - i,
    {
        let c = name.get_char(i);
        if c == '_' {
            if i == 0 {
                return None;
            }
            proof {
                lemma_scan_complete(name@, i as int);
            }
            return Some(acc);
        }
        let u = c as u32;
        if u < 48 || u > 57 {
            proof {
                lemma_scan_non_digit(name@, i as int);
            }
            return None;
        }
        let d: u64 = (u - 48) as u64;
        if acc > (u64::MAX - d) / 10 {
            proof {
                let s = name@;
                let ii = i as int;
                lemma_digits_value_step(s, ii);
                assert(acc * 10 + d > u64::MAX) by {
                    let m = (u64::MAX - d) as int;
                    vstd::arithmetic::div_mod::lemma_fundamental_div_mod(m, 10);
                    assert(m % 10 < 10) by {
                        vstd::arithmetic::div_mod::lemma_mod_bound(m, 10);
                    }
                }
                lemma_scan_overflow(s, ii);
            }
            return None;
        }
        proof {
            lemma_digits_value_step(name@, i as int);
        }
        acc = acc * 10 + d;
        i = i + 1;
    }
    if i == 0 {
        return None;
    }
    proof {
        lemma_scan_complete(name@, i as int);
    }
    Some(acc)
}

} // verus!
