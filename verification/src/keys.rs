//! The spellings of a task reference. A task file names a task by its number (`7`, or `7#Design`
//! for a section of it); every surface above the store names it by this store's key (`OPP-7`).
use vstd::prelude::*;

verus! {

/// A decimal digit.
pub open spec fn is_digit(c: char) -> bool {
    '0' <= c && c <= '9'
}

/// Every character is a decimal digit.
pub open spec fn all_digits(s: Seq<char>) -> bool {
    forall|i: int| 0 <= i < s.len() ==> is_digit(#[trigger] s[i])
}

/// The value a run of decimal digits spells.
pub open spec fn digits_value(s: Seq<char>) -> nat
    decreases s.len(),
{
    if s.len() == 0 {
        0
    } else {
        digits_value(s.drop_last()) * 10 + digit_of(s.last())
    }
}

/// The value of one decimal digit.
pub open spec fn digit_of(c: char) -> nat {
    if is_digit(c) {
        (c as int - '0' as int) as nat
    } else {
        0
    }
}

/// A task number as a file names it: one or more decimal digits whose value fits in 64 bits.
pub open spec fn id_of(s: Seq<char>) -> Option<u64> {
    if s.len() > 0 && all_digits(s) && digits_value(s) <= u64::MAX {
        Some(digits_value(s) as u64)
    } else {
        None
    }
}

/// The canonical decimal spelling of a number: no sign, no leading zero.
pub open spec fn decimal(n: nat) -> Seq<char>
    decreases n,
{
    if n < 10 {
        seq![digit_char(n)]
    } else {
        decimal(n / 10).push(digit_char(n % 10))
    }
}

/// The character of one decimal digit.
pub open spec fn digit_char(d: nat) -> char {
    if d == 0 {
        '0'
    } else if d == 1 {
        '1'
    } else if d == 2 {
        '2'
    } else if d == 3 {
        '3'
    } else if d == 4 {
        '4'
    } else if d == 5 {
        '5'
    } else if d == 6 {
        '6'
    } else if d == 7 {
        '7'
    } else if d == 8 {
        '8'
    } else {
        '9'
    }
}

/// Where the first `c` stands in `s`, or the length of `s` when none does.
pub open spec fn first_index(s: Seq<char>, c: char) -> int
    decreases s.len(),
{
    if s.len() == 0 {
        0
    } else if s[0] == c {
        0
    } else {
        1 + first_index(s.drop_first(), c)
    }
}

/// Where the last `c` stands in `s`, if any does.
pub open spec fn last_index(s: Seq<char>, c: char) -> Option<int>
    decreases s.len(),
{
    if s.len() == 0 {
        None
    } else if s.last() == c {
        Some(s.len() - 1)
    } else {
        last_index(s.drop_last(), c)
    }
}

/// The task a reference names: the reference without a `#section` suffix.
pub open spec fn target_of(reference: Seq<char>) -> Seq<char> {
    reference.subrange(0, first_index(reference, '#'))
}

/// The number behind a key: what follows its last `-`, read as a task number.
pub open spec fn number_of_key(key: Seq<char>) -> Option<u64> {
    match last_index(key, '-') {
        Some(at) => id_of(key.subrange(at + 1, key.len() as int)),
        None => None,
    }
}

pub proof fn lemma_first_index(s: Seq<char>, c: char)
    ensures
        0 <= first_index(s, c) <= s.len(),
        first_index(s, c) < s.len() ==> s[first_index(s, c)] == c,
        forall|j: int| 0 <= j < first_index(s, c) ==> s[j] != c,
    decreases s.len(),
{
    if s.len() > 0 && s[0] != c {
        lemma_first_index(s.drop_first(), c);
        assert forall|j: int| 0 <= j < first_index(s, c) implies s[j] != c by {
            if j > 0 {
                assert(s[j] == s.drop_first()[j - 1]);
            }
        }
    }
}

pub proof fn lemma_first_index_unique(s: Seq<char>, c: char, k: int)
    requires
        0 <= k <= s.len(),
        k < s.len() ==> s[k] == c,
        forall|j: int| 0 <= j < k ==> s[j] != c,
    ensures
        first_index(s, c) == k,
    decreases s.len(),
{
    if s.len() > 0 && k > 0 {
        assert(s[0] != c);
        assert forall|j: int| 0 <= j < k - 1 implies s.drop_first()[j] != c by {
            assert(s.drop_first()[j] == s[j + 1]);
        }
        lemma_first_index_unique(s.drop_first(), c, k - 1);
    }
}

pub proof fn lemma_last_index(s: Seq<char>, c: char)
    ensures
        last_index(s, c) matches Some(at) ==> 0 <= at < s.len() && s[at] == c && forall|j: int|
            at < j < s.len() ==> s[j] != c,
        last_index(s, c) is None ==> forall|j: int| 0 <= j < s.len() ==> s[j] != c,
    decreases s.len(),
{
    if s.len() > 0 && s.last() != c {
        lemma_last_index(s.drop_last(), c);
        assert(forall|j: int| 0 <= j < s.len() - 1 ==> s.drop_last()[j] == s[j]);
    }
}

pub proof fn lemma_last_index_unique(s: Seq<char>, c: char, at: int)
    requires
        0 <= at < s.len(),
        s[at] == c,
        forall|j: int| at < j < s.len() ==> s[j] != c,
    ensures
        last_index(s, c) == Some(at),
    decreases s.len(),
{
    if s.last() != c {
        lemma_last_index_unique(s.drop_last(), c, at);
    }
}

pub proof fn lemma_last_index_none(s: Seq<char>, c: char)
    requires
        forall|j: int| 0 <= j < s.len() ==> s[j] != c,
    ensures
        last_index(s, c) is None,
    decreases s.len(),
{
    if s.len() > 0 {
        lemma_last_index_none(s.drop_last(), c);
    }
}

pub proof fn lemma_digits_value_push(s: Seq<char>, c: char)
    ensures
        digits_value(s.push(c)) == digits_value(s) * 10 + digit_of(c),
{
    assert(s.push(c).drop_last() =~= s);
}

/// Reads a task number: one or more decimal digits whose value fits in 64 bits.
pub fn parse_id(text: &str) -> (id: Option<u64>)
    ensures
        id == id_of(text@),
{
    let n = text.unicode_len();
    if n == 0 {
        return None;
    }
    let mut value: u64 = 0;
    let mut fits = true;
    let mut i: usize = 0;
    while i < n
        invariant
            n == text@.len(),
            i <= n,
            all_digits(text@.subrange(0, i as int)),
            fits ==> value == digits_value(text@.subrange(0, i as int)),
            !fits ==> digits_value(text@.subrange(0, i as int)) > u64::MAX,
        decreases n - i,
    {
        let c = text.get_char(i);
        if !('0' <= c && c <= '9') {
            proof {
                assert(!is_digit(text@[i as int]));
            }
            return None;
        }
        let d: u64 = (c as u32 - '0' as u32) as u64;
        proof {
            assert(text@.subrange(0, i + 1) =~= text@.subrange(0, i as int).push(c));
            lemma_digits_value_push(text@.subrange(0, i as int), c);
        }
        if fits {
            match value.checked_mul(10) {
                Some(tens) => match tens.checked_add(d) {
                    Some(next) => {
                        value = next;
                    },
                    None => {
                        fits = false;
                    },
                },
                None => {
                    fits = false;
                    proof {
                        assert(value * 10 > u64::MAX);
                    }
                },
            }
        }
        i = i + 1;
    }
    proof {
        assert(text@.subrange(0, n as int) =~= text@);
    }
    if fits {
        Some(value)
    } else {
        None
    }
}

/// The task a reference names: the reference without its `#section` suffix.
pub fn ref_target(reference: &str) -> (target: &str)
    ensures
        target@ == target_of(reference@),
{
    let n = reference.unicode_len();
    let mut i: usize = 0;
    while i < n && reference.get_char(i) != '#'
        invariant
            n == reference@.len(),
            i <= n,
            forall|j: int| 0 <= j < i ==> reference@[j] != '#',
        decreases n - i,
    {
        i = i + 1;
    }
    proof {
        lemma_first_index_unique(reference@, '#', i as int);
    }
    reference.substring_char(0, i)
}

/// The number behind a key such as `OPP-42`: what follows the last `-`, read as a task number.
pub fn key_number(key: &str) -> (number: Option<u64>)
    ensures
        number == number_of_key(key@),
{
    let n = key.unicode_len();
    let mut i: usize = n;
    while i > 0
        invariant
            n == key@.len(),
            i <= n,
            forall|j: int| i <= j < n ==> key@[j] != '-',
        decreases i,
    {
        if key.get_char(i - 1) == '-' {
            proof {
                lemma_last_index_unique(key@, '-', i - 1);
            }
            return parse_id(key.substring_char(i, n));
        }
        i = i - 1;
    }
    proof {
        lemma_last_index_none(key@, '-');
    }
    None
}

} // verus!
