//! The settings of the channel service: the credential and the group it acts
//! in, as plain values handed over once at startup.

use vstd::prelude::*;

verus! {

/// The credential and the group identifier.
#[derive(Debug, Clone)]
pub struct Config {
    pub token: String,
    pub guild_id: u64,
}

/// The character is a decimal digit.
pub open spec fn is_digit(c: char) -> bool {
    '0' <= c <= '9'
}

/// The text is one decimal digit or more.
pub open spec fn is_digits(s: Seq<char>) -> bool {
    s.len() > 0 && forall|i: int| 0 <= i < s.len() ==> is_digit(#[trigger] s[i])
}

/// The number that decimal digits write.
pub open spec fn decimal_value(s: Seq<char>) -> nat
    decreases s.len(),
{
    if s.len() == 0 {
        0
    } else {
        (decimal_value(s.drop_last()) * 10 + (s.last() as u32 - '0' as u32)) as nat
    }
}

/// The text without a leading plus sign.
pub open spec fn unsigned_part(text: Seq<char>) -> Seq<char> {
    if text.len() > 0 && text[0] == '+' {
        text.skip(1)
    } else {
        text
    }
}

/// The group identifier that a text writes: an optional plus sign and then
/// decimal digits whose value fits 64 bits; anything else writes none.
pub open spec fn parsed_id(text: Seq<char>) -> Option<u64> {
    let digits = unsigned_part(text);
    if is_digits(digits) && decimal_value(digits) <= u64::MAX {
        Some(decimal_value(digits) as u64)
    } else {
        None
    }
}

proof fn lemma_value_grows(s: Seq<char>, k: int)
    requires
        is_digits(s),
        0 <= k <= s.len(),
    ensures
        decimal_value(s.take(k)) <= decimal_value(s),
    decreases s.len() - k,
{
    if k == s.len() {
        assert(s.take(k) =~= s);
    } else {
        lemma_value_grows(s, k + 1);
        let longer = s.take(k + 1);
        assert(longer.drop_last() =~= s.take(k));
        assert(is_digit(s[k]));
        assert(longer.last() == s[k]);
    }
}

/// Reads a group identifier.
pub fn parse_guild_id(text: &str) -> (id: Option<u64>)
    ensures
        id == parsed_id(text@),
{
    let ghost digits = unsigned_part(text@);
    let ghost shift: int = text@.len() - digits.len();
    let mut value: u64 = 0;
    let ghost mut seen: int = 0;
    let mut any = false;
    let mut skipped = false;
    for c in it: text.chars()
        invariant
            it.seq() == text@,
            digits == unsigned_part(text@),
            shift == text@.len() - digits.len(),
            skipped == (it.index() > 0 && shift == 1),
            seen == it.index() - (if skipped { 1int } else { 0int }),
            0 <= seen <= digits.len(),
            any == (seen > 0),
            forall|i: int| 0 <= i < seen ==> is_digit(#[trigger] digits[i]),
            value == decimal_value(digits.take(seen)),
    {
        let ghost at = it.index() as int;
        if !any && !skipped && c == '+' {
            skipped = true;
        } else {
            proof {
                assert(digits[seen] == c);
            }
            if c < '0' || c > '9' {
                assert(!is_digit(digits[seen]));
                return None;
            }
            let d: u64 = (c as u32 - '0' as u32) as u64;
            proof {
                let longer = digits.take(seen + 1);
                assert(longer.drop_last() =~= digits.take(seen));
                assert(longer.last() == c);
                if value > u64::MAX / 10 || value * 10 > u64::MAX - d {
                    assert(decimal_value(longer) > u64::MAX);
                    if is_digits(digits) {
                        lemma_value_grows(digits, seen + 1);
                    }
                }
            }
            if value > u64::MAX / 10 {
                return None;
            }
            let tens: u64 = value * 10;
            if tens > u64::MAX - d {
                return None;
            }
            value = tens + d;
            any = true;
            proof {
                seen = seen + 1;
            }
        }
    }
    proof {
        assert(digits.take(seen) =~= digits);
    }
    if any {
        Some(value)
    } else {
        None
    }
}

impl Config {
    /// The settings made of a credential and the text of a group identifier;
    /// `None` where the text writes no identifier.
    pub fn from_values(token: String, guild_id: &str) -> (r: Option<Config>)
        ensures
            match r {
                Some(c) => c.token@ == token@ && parsed_id(guild_id@) == Some(c.guild_id),
                None => parsed_id(guild_id@) is None,
            },
    {
        match parse_guild_id(guild_id) {
            Some(id) => Some(Config { token, guild_id: id }),
            None => None,
        }
    }
}

} // verus!
