//! Small operations on text.
use vstd::prelude::*;
use vstd::string::*;

verus! {

/// The characters of a string.
pub fn characters(s: &str) -> (out: Vec<char>)
    ensures
        out@ == s@,
{
    let mut out: Vec<char> = Vec::new();
    let count = s.unicode_len();
    let mut i: usize = 0;
    while i < count
        invariant
            i <= count,
            count == s@.len(),
            out@ == s@.take(i as int),
        decreases count - i,
    {
        out.push(s.get_char(i));
        i = i + 1;
        assert(out@ == s@.take(i as int));
    }
    out
}

/// Whether a character occurs in a string.
pub fn contains(s: &str, wanted: char) -> (found: bool)
    ensures
        found == s@.contains(wanted),
{
    let chars = characters(s);
    let mut i: usize = 0;
    while i < chars.len()
        invariant
            i <= chars.len(),
            chars@ == s@,
            forall|j: int| 0 <= j < i ==> chars@[j] != wanted,
        decreases chars.len() - i,
    {
        if chars[i] == wanted {
            return true;
        }
        i = i + 1;
    }
    false
}

/// Whether a string starts with another.
pub fn starts_with(s: &str, prefix: &str) -> (found: bool)
    ensures
        found == prefix@.is_prefix_of(s@),
{
    let chars = characters(s);
    let wanted = characters(prefix);
    if wanted.len() > chars.len() {
        return false;
    }
    let mut i: usize = 0;
    while i < wanted.len()
        invariant
            i <= wanted.len() <= chars.len(),
            chars@ == s@,
            wanted@ == prefix@,
            forall|j: int| 0 <= j < i ==> chars@[j] == wanted@[j],
        decreases wanted.len() - i,
    {
        if chars[i] != wanted[i] {
            assert(prefix@[i as int] != s@[i as int]);
            assert(prefix@.is_prefix_of(s@) ==> prefix@ =~= s@.subrange(0, prefix@.len() as int));
            return false;
        }
        i = i + 1;
    }
    assert(prefix@ =~= s@.subrange(0, prefix@.len() as int));
    true
}

/// Two strings one after the other.
pub fn join(first: &str, second: &str) -> (out: String)
    ensures
        out@ == first@ + second@,
{
    let mut out = first.to_owned();
    out.append(second);
    out
}

/// The decimal digits of a number.
pub open spec fn digits(n: nat) -> Seq<char>
    decreases n,
{
    if n < 10 {
        seq![digit(n)]
    } else {
        digits(n / 10).push(digit(n % 10))
    }
}

pub open spec fn digit(n: nat) -> char {
    "0123456789"@[n as int]
}

fn digit_text(n: u128) -> (out: &'static str)
    requires
        n < 10,
    ensures
        out@ == seq![digit(n as nat)],
{
    let out = if n == 0 {
        "0"
    } else if n == 1 {
        "1"
    } else if n == 2 {
        "2"
    } else if n == 3 {
        "3"
    } else if n == 4 {
        "4"
    } else if n == 5 {
        "5"
    } else if n == 6 {
        "6"
    } else if n == 7 {
        "7"
    } else if n == 8 {
        "8"
    } else {
        "9"
    };
    proof {
        reveal_strlit("0123456789");
        reveal_strlit("0");
        reveal_strlit("1");
        reveal_strlit("2");
        reveal_strlit("3");
        reveal_strlit("4");
        reveal_strlit("5");
        reveal_strlit("6");
        reveal_strlit("7");
        reveal_strlit("8");
        reveal_strlit("9");
        assert(out@ =~= seq![digit(n as nat)]);
    }
    out
}

/// A number in decimal.
pub fn decimal(n: u128) -> (out: String)
    ensures
        out@ == digits(n as nat),
    decreases n,
{
    if n < 10 {
        digit_text(n).to_owned()
    } else {
        let out = join(decimal(n / 10).as_str(), digit_text(n % 10));
        assert(out@ =~= digits(n as nat));
        out
    }
}

/// The number that a digit stands for.
pub open spec fn digit_value(c: char) -> int {
    c as int - '0' as int
}

/// The number that digits stand for, read from the left.
pub open spec fn read_digits(s: Seq<char>) -> int
    decreases s.len(),
{
    if s.len() == 0 {
        0
    } else {
        10 * read_digits(s.drop_last()) + digit_value(s.last())
    }
}

/// The digits of a number stand for the number, and no zero stands in front of
/// others.
pub proof fn law_digits_stand_for_the_number(n: nat)
    ensures
        read_digits(digits(n)) == n,
        digits(n).len() > 0,
        digits(n).len() > 1 ==> digits(n)[0] != '0',
        forall|i: int| 0 <= i < digits(n).len() ==> '0' <= #[trigger] digits(n)[i] <= '9',
    decreases n,
{
    reveal_strlit("0123456789");
    let all = digits(n);
    if n < 10 {
        assert(all.drop_last() =~= Seq::<char>::empty());
        assert(read_digits(all.drop_last()) == 0);
    } else {
        law_digits_stand_for_the_number(n / 10);
        let before = digits(n / 10);
        assert(all.drop_last() =~= before);
        assert forall|i: int| 0 <= i < all.len() implies '0' <= #[trigger] all[i] <= '9' by {
            if i < before.len() {
                assert(all[i] == before[i]);
            }
        }
        assert(all[0] == before[0]);
        if before.len() == 1 {
            assert(n / 10 >= 1);
            assert(read_digits(before) == digit_value(before[0])) by {
                assert(before.drop_last() =~= Seq::<char>::empty());
                assert(read_digits(before.drop_last()) == 0);
            }
        }
    }
}

} // verus!
