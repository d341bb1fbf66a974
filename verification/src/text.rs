//! Text as a sequence of characters: white space, lines, and the scalars that
//! a line of text can hold.

use vstd::prelude::*;
use vstd::string::*;

verus! {

/// Whether a character is white space.
pub open spec fn is_space(c: char) -> bool {
    let v = c as u32;
    ||| 9 <= v <= 13
    ||| v == 32
    ||| v == 0x85
    ||| v == 0xa0
    ||| v == 0x1680
    ||| 0x2000 <= v <= 0x200a
    ||| v == 0x2028
    ||| v == 0x2029
    ||| v == 0x202f
    ||| v == 0x205f
    ||| v == 0x3000
}

/// Whether a character is white space.
pub fn is_white(c: char) -> (r: bool)
    ensures
        r == is_space(c),
{
    let v: u32 = c as u32;
    (9 <= v && v <= 13) || v == 32 || v == 0x85 || v == 0xa0 || v == 0x1680 || (0x2000 <= v && v
        <= 0x200a) || v == 0x2028 || v == 0x2029 || v == 0x202f || v == 0x205f || v == 0x3000
}

/// The characters of a text.
pub fn characters(text: &str) -> (r: Vec<char>)
    ensures
        r@ == text@,
{
    let mut v: Vec<char> = Vec::new();
    for c in it: text.chars()
        invariant
            v@.len() == it.index(),
            it.seq() == text@,
            forall|k: int| 0 <= k < v@.len() ==> v@[k] == it.seq()[k],
    {
        v.push(c);
    }
    assert(v@ =~= text@);
    v
}

/// Where `c` first occurs in `s` at or after `from`, or the length of `s`.
pub open spec fn first_at(s: Seq<char>, c: char, from: int) -> int
    decreases s.len() - from,
{
    if from >= s.len() {
        s.len() as int
    } else if s[from] == c {
        from
    } else {
        first_at(s, c, from + 1)
    }
}

/// `s` without white space at its beginning.
pub open spec fn trim_start(s: Seq<char>) -> Seq<char>
    decreases s.len(),
{
    if s.len() > 0 && is_space(s[0]) {
        trim_start(s.skip(1))
    } else {
        s
    }
}

/// `s` without white space at its end.
pub open spec fn trim_end(s: Seq<char>) -> Seq<char>
    decreases s.len(),
{
    if s.len() > 0 && is_space(s.last()) {
        trim_end(s.drop_last())
    } else {
        s
    }
}

/// `s` without white space around it.
pub open spec fn trim(s: Seq<char>) -> Seq<char> {
    trim_end(trim_start(s))
}

/// Where `c` first occurs in `s` at or after `from`, or the length of `s`.
pub fn find_char(s: &Vec<char>, c: char, from: usize) -> (r: usize)
    requires
        from <= s@.len(),
    ensures
        r == first_at(s@, c, from as int),
        from <= r <= s@.len(),
        forall|k: int| from <= k < r ==> s@[k] != c,
        r < s@.len() ==> s@[r as int] == c,
{
    let mut i: usize = from;
    while i < s.len() && s[i] != c
        invariant
            from <= i <= s@.len(),
            first_at(s@, c, from as int) == first_at(s@, c, i as int),
            forall|k: int| from <= k < i ==> s@[k] != c,
        decreases s@.len() - i,
    {
        i = i + 1;
    }
    i
}

/// Where the part of `s` from `from` to `to` begins once white space at its
/// beginning is taken off.
pub fn skip_space(s: &Vec<char>, from: usize, to: usize) -> (r: usize)
    requires
        from <= to <= s@.len(),
    ensures
        from <= r <= to,
        s@.subrange(r as int, to as int) == trim_start(s@.subrange(from as int, to as int)),
{
    let mut i: usize = from;
    while i < to && is_white(s[i])
        invariant
            from <= i <= to <= s@.len(),
            trim_start(s@.subrange(i as int, to as int)) == trim_start(
                s@.subrange(from as int, to as int),
            ),
        decreases to - i,
    {
        assert(s@.subrange(i as int, to as int).skip(1) =~= s@.subrange(i + 1, to as int));
        i = i + 1;
    }
    i
}

/// Where the part of `s` from `from` to `to` ends once white space at its end
/// is taken off.
pub fn skip_space_back(s: &Vec<char>, from: usize, to: usize) -> (r: usize)
    requires
        from <= to <= s@.len(),
    ensures
        from <= r <= to,
        s@.subrange(from as int, r as int) == trim_end(s@.subrange(from as int, to as int)),
{
    let mut i: usize = to;
    while i > from && is_white(s[i - 1])
        invariant
            from <= i <= to <= s@.len(),
            trim_end(s@.subrange(from as int, i as int)) == trim_end(
                s@.subrange(from as int, to as int),
            ),
        decreases i,
    {
        assert(s@.subrange(from as int, i as int).drop_last() =~= s@.subrange(from as int, i - 1));
        i = i - 1;
    }
    i
}

/// Whether `part` stands in `s` at `at`, before `to`.
pub fn stands_at(s: &Vec<char>, at: usize, to: usize, part: &Vec<char>) -> (r: bool)
    requires
        at <= to <= s@.len(),
    ensures
        r == part@.is_prefix_of(s@.subrange(at as int, to as int)),
{
    if to - at < part.len() {
        return false;
    }
    let mut i: usize = 0;
    while i < part.len()
        invariant
            i <= part@.len() <= to - at,
            at <= to <= s@.len(),
            forall|k: int| 0 <= k < i ==> part@[k] == s@[at + k],
        decreases part@.len() - i,
    {
        if part[i] != s[at + i] {
            assert(part@[i as int] != s@.subrange(at as int, to as int)[i as int]);
            assert(s@.subrange(at as int, to as int).subrange(0, part@.len() as int)[i as int]
                != part@[i as int]);
            return false;
        }
        i = i + 1;
    }
    assert(part@ =~= s@.subrange(at as int, to as int).subrange(0, part@.len() as int));
    true
}

/// What is left of `s` when white space is taken off its beginning: no white
/// space begins it, and every character of it is one of `s`.
pub proof fn trimmed_start(s: Seq<char>)
    ensures
        trim_start(s).len() <= s.len(),
        trim_start(s) == s.skip(s.len() - trim_start(s).len()),
        trim_start(s).len() > 0 ==> !is_space(trim_start(s)[0]),
    decreases s.len(),
{
    if s.len() > 0 && is_space(s[0]) {
        trimmed_start(s.skip(1));
        assert(s.skip(1).skip(s.skip(1).len() - trim_start(s).len()) =~= s.skip(
            s.len() - trim_start(s).len(),
        ));
    } else {
        assert(s.skip(0) =~= s);
    }
}

/// What is left of `s` when white space is taken off its end: no white space
/// ends it, and it begins as `s` does.
pub proof fn trimmed_end(s: Seq<char>)
    ensures
        trim_end(s).len() <= s.len(),
        trim_end(s) == s.take(trim_end(s).len() as int),
        trim_end(s).len() > 0 ==> !is_space(trim_end(s).last()),
    decreases s.len(),
{
    if s.len() > 0 && is_space(s.last()) {
        trimmed_end(s.drop_last());
        assert(s.drop_last().take(trim_end(s).len() as int) =~= s.take(trim_end(s).len() as int));
    } else {
        assert(s.take(s.len() as int) =~= s);
    }
}

/// Whether every character is a decimal digit.
pub open spec fn all_digits(s: Seq<char>) -> bool {
    forall|i: int| 0 <= i < s.len() ==> '0' <= #[trigger] s[i] <= '9'
}

/// The number that digits write.
pub open spec fn number(s: Seq<char>) -> int
    decreases s.len(),
{
    if s.len() == 0 {
        0
    } else {
        number(s.drop_last()) * 10 + (s.last() as int - '0' as int)
    }
}

/// The digits of a number that may begin with a plus sign.
pub open spec fn unsigned_digits(s: Seq<char>) -> Seq<char> {
    if s.len() > 0 && s[0] == '+' {
        s.skip(1)
    } else {
        s
    }
}

/// More digits never make a smaller number.
proof fn number_grows(s: Seq<char>, n: int)
    requires
        0 <= n <= s.len(),
        all_digits(s),
    ensures
        0 <= number(s.take(n)) <= number(s),
    decreases s.len(),
{
    if n == s.len() {
        assert(s.take(n) =~= s);
        if s.len() > 0 {
            number_grows(s.drop_last(), n - 1);
        }
    } else {
        number_grows(s.drop_last(), n);
        assert(s.drop_last().take(n) =~= s.take(n));
        number_grows(s.drop_last(), s.len() - 1);
        assert('0' <= s[s.len() - 1]);
    }
}

/// A type whose values can be written in a line of text.
pub trait Scalar: Sized {
    /// The value that a text writes, if it writes one.
    spec fn reading(s: Seq<char>) -> Option<Self>;

    /// The value that a text writes, if it writes one.
    fn read(s: &str) -> (r: Option<Self>)
        ensures
            r == Self::reading(s@),
    ;
}

impl Scalar for u16 {
    /// Decimal digits, with or without a plus sign, of a number that fits.
    open spec fn reading(s: Seq<char>) -> Option<u16> {
        let d = unsigned_digits(s);
        if d.len() > 0 && all_digits(d) && number(d) <= u16::MAX {
            Some(number(d) as u16)
        } else {
            None
        }
    }

    fn read(s: &str) -> (r: Option<u16>) {
        let chars = characters(s);
        let begin: usize = if chars.len() > 0 && chars[0] == '+' {
            1
        } else {
            0
        };
        let ghost d = unsigned_digits(s@);
        assert(d =~= chars@.skip(begin as int));
        if begin == chars.len() {
            return None;
        }
        let mut v: u32 = 0;
        let mut i: usize = begin;
        while i < chars.len()
            invariant
                begin <= i <= chars@.len(),
                begin <= 1,
                d == chars@.skip(begin as int),
                chars@ == s@,
                d == unsigned_digits(s@),
                all_digits(d.take(i - begin)),
                v == number(d.take(i - begin)),
                v <= u16::MAX,
            decreases chars@.len() - i,
        {
            let c: char = chars[i];
            assert(d[i - begin] == c);
            if c < '0' || '9' < c {
                return None;
            }
            assert(d.take(i + 1 - begin).drop_last() =~= d.take(i - begin));
            assert(all_digits(d.take(i + 1 - begin))) by {
                assert forall|k: int| 0 <= k < i + 1 - begin implies '0' <= #[trigger] d.take(
                    i + 1 - begin,
                )[k] <= '9' by {
                    if k < i - begin {
                        assert(d.take(i - begin)[k] == d[k]);
                    }
                }
            }
            v = v * 10 + (c as u32 - '0' as u32);
            i = i + 1;
            if v > u16::MAX as u32 {
                proof {
                    if all_digits(d) {
                        number_grows(d, i - begin);
                    }
                }
                return None;
            }
        }
        assert(d.take(i - begin) =~= d);
        Some(v as u16)
    }
}

impl Scalar for bool {
    /// One of two words.
    open spec fn reading(s: Seq<char>) -> Option<bool> {
        if s == "true"@ {
            Some(true)
        } else if s == "false"@ {
            Some(false)
        } else {
            None
        }
    }

    fn read(s: &str) -> (r: Option<bool>) {
        let word = s.to_owned();
        if word == "true".to_owned() {
            Some(true)
        } else if word == "false".to_owned() {
            proof {
                reveal_strlit("true");
                reveal_strlit("false");
            }
            Some(false)
        } else {
            None
        }
    }
}

/// The characters that are white space, by their numbers.
pub proof fn white_space_by_number(c: char)
    ensures
        (c as u32) < 9 ==> !is_space(c),
        9 <= c as u32 <= 13 ==> is_space(c),
        c as u32 == 32 || c as u32 == 0x85 || c as u32 == 0xa0 || c as u32 == 0x1680 || c as u32
            == 0x3000 ==> is_space(c),
        0x2000 <= c as u32 <= 0x200a ==> is_space(c),
        c as u32 == 0x2028 || c as u32 == 0x2029 || c as u32 == 0x202f || c as u32 == 0x205f
            ==> is_space(c),
        33 <= c as u32 <= 0x7f ==> !is_space(c),
        13 < c as u32 && (c as u32) < 32 ==> !is_space(c),
        0x85 < c as u32 && (c as u32) < 0xa0 ==> !is_space(c),
        0xa0 < c as u32 && (c as u32) < 0x1680 ==> !is_space(c),
        0x1680 < c as u32 && (c as u32) < 0x2000 ==> !is_space(c),
        0x205f < c as u32 && (c as u32) < 0x3000 ==> !is_space(c),
        0x3000 < c as u32 ==> !is_space(c),
{
}

/// White space in front is taken off, and nothing else.
pub proof fn leading_space_is_taken_off(lead: Seq<char>, rest: Seq<char>)
    requires
        forall|k: int| 0 <= k < lead.len() ==> is_space(#[trigger] lead[k]),
        rest.len() > 0 ==> !is_space(rest[0]),
    ensures
        trim_start(lead + rest) == rest,
    decreases lead.len(),
{
    let s = lead + rest;
    if lead.len() > 0 {
        assert(s[0] == lead[0]);
        assert forall|k: int| 0 <= k < lead.skip(1).len() implies is_space(
            #[trigger] lead.skip(1)[k],
        ) by {
            assert(lead.skip(1)[k] == lead[k + 1]);
        }
        leading_space_is_taken_off(lead.skip(1), rest);
        assert(s.skip(1) =~= lead.skip(1) + rest);
    } else {
        assert(s =~= rest);
    }
}

/// White space behind is taken off, and nothing else.
pub proof fn trailing_space_is_taken_off(rest: Seq<char>, tail: Seq<char>)
    requires
        forall|k: int| 0 <= k < tail.len() ==> is_space(#[trigger] tail[k]),
        rest.len() > 0 ==> !is_space(rest.last()),
    ensures
        trim_end(rest + tail) == rest,
    decreases tail.len(),
{
    let s = rest + tail;
    if tail.len() > 0 {
        assert(s.last() == tail.last());
        assert(is_space(tail[tail.len() - 1]));
        assert forall|k: int| 0 <= k < tail.drop_last().len() implies is_space(
            #[trigger] tail.drop_last()[k],
        ) by {
            assert(tail.drop_last()[k] == tail[k]);
        }
        trailing_space_is_taken_off(rest, tail.drop_last());
        assert(s.drop_last() =~= rest + tail.drop_last());
    } else {
        assert(s =~= rest);
    }
}

/// One digit more makes a number ten times as large, with the digit added.
pub proof fn digits_are_decimal(s: Seq<char>, c: char)
    ensures
        number(Seq::empty()) == 0,
        number(s.push(c)) == 10 * number(s) + (c as int - 48),
{
    assert(s.push(c).drop_last() =~= s);
}

/// Which texts write a number of sixteen bits, and which: one or more decimal
/// digits, with a plus sign in front or without, of a number up to 65535.
pub proof fn small_numbers_are_read(s: Seq<char>)
    ensures
        s.len() > 0 && all_digits(s) && number(s) <= 65535 ==> u16::reading(s) == Some(
            number(s) as u16,
        ) && u16::reading(seq!['+'] + s) == Some(number(s) as u16),
        s.len() > 0 && all_digits(s) && number(s) > 65535 ==> u16::reading(s) is None
            && u16::reading(seq!['+'] + s) is None,
        s.len() == 0 ==> u16::reading(s) is None && u16::reading(seq!['+'] + s) is None,
        (exists|k: int|
            0 < k < s.len() && !(48 <= (#[trigger] s[k]) as u32 && s[k] as u32 <= 57))
            ==> u16::reading(s) is None,
        s.len() > 0 && s[0] != '+' && !(48 <= s[0] as u32 && s[0] as u32 <= 57)
            ==> u16::reading(s) is None,
{
    let p = seq!['+'] + s;
    assert(p[0] == '+');
    assert(p.skip(1) =~= s);
    if s.len() > 0 && all_digits(s) {
        assert('0' <= s[0] <= '9');
    }
    if exists|k: int| 0 < k < s.len() && !(48 <= (#[trigger] s[k]) as u32 && s[k] as u32 <= 57) {
        let k = choose|k: int|
            0 < k < s.len() && !(48 <= (#[trigger] s[k]) as u32 && s[k] as u32 <= 57);
        let d = unsigned_digits(s);
        if s[0] == '+' {
            assert(d[k - 1] == s[k]);
        } else {
            assert(d[k] == s[k]);
        }
        assert(!all_digits(d));
    }
    if s.len() > 0 && s[0] != '+' && !(48 <= s[0] as u32 && s[0] as u32 <= 57) {
        assert(unsigned_digits(s)[0] == s[0]);
        assert(!all_digits(unsigned_digits(s)));
    }
}

/// The two words that write a truth value.
pub proof fn truth_values_are_read(s: Seq<char>)
    ensures
        bool::reading(s) == Some(true) <==> s == "true"@,
        bool::reading(s) == Some(false) <==> s == "false"@,
{
    reveal_strlit("true");
    reveal_strlit("false");
    assert("true"@.len() != "false"@.len());
}

} // verus!
