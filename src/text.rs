use vstd::prelude::*;
use vstd::string::*;

verus! {

/// Two characters are equal once ASCII letters are folded to one case.
pub open spec fn char_eq_ignore_ascii_case(a: char, b: char) -> bool {
    ||| a == b
    ||| ('A' <= a <= 'Z' && b as u32 == a as u32 + 32)
    ||| ('a' <= a <= 'z' && a as u32 == b as u32 + 32)
}

/// Two texts are equal once ASCII letters are folded to one case.
pub open spec fn eq_ignore_ascii_case(s: Seq<char>, t: Seq<char>) -> bool {
    &&& s.len() == t.len()
    &&& forall|i: int| 0 <= i < s.len() ==> #[trigger] char_eq_ignore_ascii_case(s[i], t[i])
}

pub fn chars_eq_ignore_ascii_case(a: char, b: char) -> (r: bool)
    ensures
        r == char_eq_ignore_ascii_case(a, b),
{
    let x = a as u32;
    let y = b as u32;
    if x == y {
        return true;
    }
    if 'A' <= a && a <= 'Z' {
        y == x + 32
    } else if 'a' <= a && a <= 'z' {
        x == y + 32
    } else {
        false
    }
}

/// Compares two texts, ignoring the case of ASCII letters.
pub fn str_eq_ignore_ascii_case(s: &str, t: &str) -> (r: bool)
    ensures
        r == eq_ignore_ascii_case(s@, t@),
{
    let n = s.unicode_len();
    if n != t.unicode_len() {
        return false;
    }
    let mut i: usize = 0;
    while i < n
        invariant
            n == s@.len(),
            n == t@.len(),
            i <= n,
            forall|j: int| 0 <= j < i ==> #[trigger] char_eq_ignore_ascii_case(s@[j], t@[j]),
        decreases n - i,
    {
        if !chars_eq_ignore_ascii_case(s.get_char(i), t.get_char(i)) {
            return false;
        }
        i = i + 1;
    }
    true
}

} // verus!
