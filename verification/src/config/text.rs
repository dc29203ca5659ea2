//! Reading settings from text.
use vstd::prelude::*;
use vstd::string::*;

verus! {

/// Whether two texts are the same.
pub fn same_text(a: &str, b: &str) -> (same: bool)
    ensures
        same == (a@ == b@),
{
    let n: usize = a.unicode_len();
    if n != b.unicode_len() {
        return false;
    }
    let mut i: usize = 0;
    while i < n
        invariant
            i <= n,
            n == a@.len(),
            n == b@.len(),
            forall|k: int| 0 <= k < i ==> a@[k] == b@[k],
        decreases n - i,
    {
        if a.get_char(i) != b.get_char(i) {
            return false;
        }
        i += 1;
    }
    assert(a@ =~= b@);
    true
}

/// The value of a digit.
pub open spec fn digit(c: char) -> Option<nat> {
    if '0' <= c && c <= '9' {
        Some((c as int - '0' as int) as nat)
    } else {
        None
    }
}

/// The number that digits spell: none where there is no character or one that is no digit.
pub open spec fn decimal(s: Seq<char>) -> Option<nat>
    decreases s.len(),
{
    if s.len() == 0 {
        None
    } else if s.len() == 1 {
        digit(s[0])
    } else {
        match (decimal(s.drop_last()), digit(s.last())) {
            (Some(front), Some(last)) => Some(10 * front + last),
            _ => None,
        }
    }
}

/// The text without a leading plus sign.
pub open spec fn unsigned_part(s: Seq<char>) -> Seq<char> {
    if s.len() > 0 && s[0] == '+' {
        s.skip(1)
    } else {
        s
    }
}

/// The size that a text spells: digits, after a plus sign or not, whose number is a size.
pub open spec fn size_of_text(s: Seq<char>) -> Option<usize> {
    match decimal(unsigned_part(s)) {
        Some(n) => if n <= usize::MAX {
            Some(n as usize)
        } else {
            None
        },
        None => None,
    }
}

proof fn lemma_decimal_prefix(s: Seq<char>, i: int)
    requires
        1 <= i <= s.len(),
    ensures
        decimal(s.take(i)) is None ==> decimal(s) is None,
        decimal(s.take(i)) is Some && decimal(s) is Some ==> decimal(s.take(i))->0 <= decimal(s)->0,
    decreases s.len() - i,
{
    if i == s.len() {
        assert(s.take(i) =~= s);
    } else {
        let next = s.take(i + 1);
        assert(next.drop_last() =~= s.take(i));
        lemma_decimal_prefix(s, i + 1);
    }
}

/// The size that a text spells.
pub fn parse_usize(s: &str) -> (r: Option<usize>)
    ensures
        r == size_of_text(s@),
{
    let n: usize = s.unicode_len();
    let start: usize = if n > 0 && s.get_char(0) == '+' {
        1
    } else {
        0
    };
    let ghost part = unsigned_part(s@);
    assert(part =~= s@.skip(start as int));
    if start >= n {
        return None;
    }
    let mut value: usize = 0;
    let mut i: usize = start;
    while i < n
        invariant
            start <= i <= n,
            start < n,
            n == s@.len(),
            part == unsigned_part(s@),
            part == s@.skip(start as int),
            i == start ==> value == 0,
            i > start ==> decimal(part.take(i - start)) == Some(value as nat),
        decreases n - i,
    {
        let c: char = s.get_char(i);
        let ghost k = i - start;
        proof {
            let next = part.take(k + 1);
            assert(next.last() == c);
            assert(next[0] == part[0]);
            if k > 0 {
                assert(next.drop_last() =~= part.take(k));
            }
            lemma_decimal_prefix(part, k + 1);
        }
        if c < '0' || c > '9' {
            return None;
        }
        let d: usize = (c as u32 - '0' as u32) as usize;
        if value > usize::MAX / 10 || 10 * value > usize::MAX - d {
            assert(10 * value + d > usize::MAX);
            return None;
        }
        value = 10 * value + d;
        i += 1;
    }
    assert(part.take(i - start) =~= part);
    Some(value)
}

/// White space.
pub open spec fn white(c: char) -> bool {
    let n = c as int;
    ||| 0x9 <= n <= 0xD
    ||| n == 0x20
    ||| n == 0x85
    ||| n == 0xA0
    ||| n == 0x1680
    ||| 0x2000 <= n <= 0x200A
    ||| n == 0x2028
    ||| n == 0x2029
    ||| n == 0x202F
    ||| n == 0x205F
    ||| n == 0x3000
}

/// The text without the white space before and after it.
pub open spec fn trimmed(text: Seq<char>) -> Seq<char>
    decreases text.len(),
{
    if text.len() == 0 {
        text
    } else if white(text[0]) {
        trimmed(text.drop_first())
    } else if white(text.last()) {
        trimmed(text.drop_last())
    } else {
        text
    }
}

/// An upper-case letter as a lower-case one.
pub open spec fn lowered(c: char) -> char {
    if 'A' <= c && c <= 'Z' {
        (c as int + 32) as char
    } else {
        c
    }
}

/// The text in lower case.
pub open spec fn lowered_text(text: Seq<char>) -> Seq<char> {
    Seq::new(text.len(), |i: int| lowered(text[i]))
}

/// Whether a character is white space.
pub fn is_white(c: char) -> (b: bool)
    ensures
        b == white(c),
{
    let n: u32 = c as u32;
    0x9 <= n && n <= 0xD || n == 0x20 || n == 0x85 || n == 0xA0 || n == 0x1680 || 0x2000 <= n && n
        <= 0x200A || n == 0x2028 || n == 0x2029 || n == 0x202F || n == 0x205F || n == 0x3000
}

/// An upper-case letter as a lower-case one.
pub fn lower(c: char) -> (l: char)
    ensures
        l == lowered(c),
{
    if 'A' <= c && c <= 'Z' {
        (c as u8 + 32) as char
    } else {
        c
    }
}

/// Whether the characters of a text from one place to another are a word, whatever their case.
pub fn is_word(text: &str, from: usize, to: usize, word: &str) -> (b: bool)
    requires
        from <= to <= text@.len(),
    ensures
        b == (lowered_text(text@.subrange(from as int, to as int)) == word@),
{
    let ghost all = lowered_text(text@.subrange(from as int, to as int));
    let n: usize = to - from;
    if n != word.unicode_len() {
        return false;
    }
    let mut i: usize = 0;
    while i < n
        invariant
            i <= n == word@.len(),
            from + n == to <= text@.len(),
            to <= usize::MAX,
            all == lowered_text(text@.subrange(from as int, to as int)),
            forall|k: int| 0 <= k < i ==> all[k] == word@[k],
        decreases n - i,
    {
        if lower(text.get_char(from + i)) != word.get_char(i) {
            assert(all[i as int] != word@[i as int]);
            return false;
        }
        i += 1;
    }
    assert(all =~= word@);
    true
}

} // verus!
