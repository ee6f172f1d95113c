//! Small helpers on text: taking characters off both ends, and reading a
//! whole number.

use vstd::prelude::*;
use vstd::string::StrSliceExecFns;

verus! {

/// The number of characters of the given kind that `s` begins with.
pub open spec fn leading(s: Seq<char>, kind: spec_fn(char) -> bool) -> nat
    decreases s.len(),
{
    if s.len() > 0 && kind(s[0]) {
        1 + leading(s.drop_first(), kind)
    } else {
        0
    }
}

/// The number of characters of the given kind that `s` ends with.
pub open spec fn trailing(s: Seq<char>, kind: spec_fn(char) -> bool) -> nat
    decreases s.len(),
{
    if s.len() > 0 && kind(s.last()) {
        1 + trailing(s.drop_last(), kind)
    } else {
        0
    }
}

/// `s` without the characters of the given kind that it begins and ends
/// with.
pub open spec fn stripped(s: Seq<char>, kind: spec_fn(char) -> bool) -> Seq<char> {
    let rest = s.skip(leading(s, kind) as int);
    rest.take(rest.len() - trailing(rest, kind))
}

/// The double quote, and nothing else.
pub open spec fn is_quote() -> spec_fn(char) -> bool {
    |c: char| c == '"'
}

/// `s` without the double quotes that it begins and ends with.
pub open spec fn unquoted(s: Seq<char>) -> Seq<char> {
    stripped(s, is_quote())
}

/// Whether `c` is white space: a character with the Unicode property
/// `White_Space`.
pub open spec fn white(c: char) -> bool {
    let n = c as u32;
    ||| 0x09 <= n <= 0x0D
    ||| n == 0x20
    ||| n == 0x85
    ||| n == 0xA0
    ||| n == 0x1680
    ||| 0x2000 <= n <= 0x200A
    ||| n == 0x2028
    ||| n == 0x2029
    ||| n == 0x202F
    ||| n == 0x205F
    ||| n == 0x3000
}

/// White space, and nothing else.
pub open spec fn is_white() -> spec_fn(char) -> bool {
    |c: char| white(c)
}

/// `s` without the white space that it begins and ends with.
pub open spec fn trimmed(s: Seq<char>) -> Seq<char> {
    stripped(s, is_white())
}

proof fn lemma_leading(s: Seq<char>, kind: spec_fn(char) -> bool, i: int)
    requires
        0 <= i <= s.len(),
        forall|k: int| 0 <= k < i ==> kind(#[trigger] s[k]),
        i < s.len() ==> !kind(s[i]),
    ensures
        leading(s, kind) == i,
    decreases i,
{
    if i > 0 {
        assert(kind(s[0]));
        assert forall|k: int| 0 <= k < i - 1 implies kind(#[trigger] s.drop_first()[k]) by {
            assert(kind(s[k + 1]));
        }
        lemma_leading(s.drop_first(), kind, i - 1);
    }
}

proof fn lemma_trailing(s: Seq<char>, kind: spec_fn(char) -> bool, n: int)
    requires
        0 <= n <= s.len(),
        forall|k: int| s.len() - n <= k < s.len() ==> kind(#[trigger] s[k]),
        n < s.len() ==> !kind(s[s.len() - n - 1]),
    ensures
        trailing(s, kind) == n,
    decreases n,
{
    if n > 0 {
        assert(kind(s[s.len() - 1]));
        assert forall|k: int| s.drop_last().len() - (n - 1) <= k < s.drop_last().len() implies kind(
            #[trigger] s.drop_last()[k],
        ) by {
            assert(kind(s[k]));
        }
        lemma_trailing(s.drop_last(), kind, n - 1);
    }
}

/// Whether `c` is white space.
pub fn is_whitespace(c: char) -> (b: bool)
    ensures
        b == white(c),
{
    let n = c as u32;
    (0x09 <= n && n <= 0x0D) || n == 0x20 || n == 0x85 || n == 0xA0 || n == 0x1680 || (0x2000 <= n
        && n <= 0x200A) || n == 0x2028 || n == 0x2029 || n == 0x202F || n == 0x205F || n
        == 0x3000
}

/// `text` without the white space that it begins and ends with.
pub fn trim(text: &str) -> (r: &str)
    ensures
        r@ == trimmed(text@),
{
    let n = text.unicode_len();
    let mut i: usize = 0;
    while i < n && is_whitespace(text.get_char(i))
        invariant
            n == text@.len(),
            i <= n,
            forall|k: int| 0 <= k < i ==> is_white()(#[trigger] text@[k]),
        decreases n - i,
    {
        i += 1;
    }
    let mut j: usize = n;
    while j > i && is_whitespace(text.get_char(j - 1))
        invariant
            n == text@.len(),
            i <= j <= n,
            forall|k: int| j <= k < n ==> is_white()(#[trigger] text@[k]),
        decreases j,
    {
        j -= 1;
    }
    proof {
        lemma_leading(text@, is_white(), i as int);
        let rest = text@.skip(i as int);
        lemma_trailing(rest, is_white(), n - j);
        assert(rest.take(rest.len() - (n - j)) =~= text@.subrange(i as int, j as int));
    }
    text.substring_char(i, j)
}

/// The value of a decimal digit.
pub open spec fn digit_value(c: char) -> Option<nat> {
    if '0' <= c <= '9' {
        Some((c as u32 - '0' as u32) as nat)
    } else {
        None
    }
}

/// The number that the first `n` characters of `s` spell in decimal, where
/// they are all digits.
pub open spec fn digits_value(s: Seq<char>, n: int) -> Option<nat>
    decreases n,
{
    if n <= 0 {
        Some(0)
    } else {
        match (digits_value(s, n - 1), digit_value(s[n - 1])) {
            (Some(head), Some(d)) => Some(head * 10 + d),
            _ => None,
        }
    }
}

/// The whole number that `s` spells: an optional sign and then one decimal
/// digit or more, with a value that fits a signed word of 32 bits.
pub open spec fn int_value(s: Seq<char>) -> Option<i32> {
    if s.len() == 0 {
        None
    } else {
        let signed = s[0] == '-' || s[0] == '+';
        let body = if signed {
            s.skip(1)
        } else {
            s
        };
        if body.len() == 0 {
            None
        } else {
            match digits_value(body, body.len() as int) {
                None => None,
                Some(size) => {
                    let value = if s[0] == '-' {
                        -(size as int)
                    } else {
                        size as int
                    };
                    if i32::MIN <= value <= i32::MAX {
                        Some(value as i32)
                    } else {
                        None
                    }
                },
            }
        }
    }
}

proof fn lemma_digits_grow(s: Seq<char>, n: int, m: int)
    requires
        0 <= n <= m,
    ensures
        digits_value(s, n) is None ==> digits_value(s, m) is None,
        digits_value(s, m) matches Some(b) ==> digits_value(s, n) is Some && digits_value(s, n)->0
            <= b,
    decreases m - n,
{
    if n < m {
        lemma_digits_grow(s, n, m - 1);
    }
}

/// Reads a whole number: an optional sign and decimal digits.
pub fn parse_int(text: &str) -> (r: Option<i32>)
    ensures
        r == int_value(text@),
{
    let n = text.unicode_len();
    if n == 0 {
        return None;
    }
    let first = text.get_char(0);
    let negative = first == '-';
    let start: usize = if first == '-' || first == '+' {
        1
    } else {
        0
    };
    if start == n {
        return None;
    }
    let ghost body = if start == 1 {
        text@.skip(1)
    } else {
        text@
    };
    let mut size: u64 = 0;
    let mut i: usize = start;
    while i < n
        invariant
            n == text@.len(),
            start <= i <= n,
            start <= 1,
            body == if start == 1 {
                text@.skip(1)
            } else {
                text@
            },
            body.len() == n - start,
            (start == 1) == (text@[0] == '-' || text@[0] == '+'),
            digits_value(body, i - start) == Some(size as nat),
            size <= 2147483648,
        decreases n - i,
    {
        let c = text.get_char(i);
        assert(c == body[i - start]);
        if c < '0' || c > '9' {
            proof {
                assert(digits_value(body, i - start + 1) is None);
                lemma_digits_grow(body, i - start + 1, body.len() as int);
            }
            return None;
        }
        let d = (c as u32 - '0' as u32) as u64;
        size = size * 10 + d;
        assert(digits_value(body, i - start + 1) == Some(size as nat));
        if size > 2147483648 {
            proof {
                lemma_digits_grow(body, i - start + 1, body.len() as int);
            }
            return None;
        }
        i += 1;
    }
    if negative {
        if size == 2147483648 {
            Some(i32::MIN)
        } else {
            Some(-(size as i32))
        }
    } else if size > 2147483647 {
        None
    } else {
        Some(size as i32)
    }
}

/// Texts that double quotes can be taken off.
pub trait RemoveQuotes: Sized {
    /// What the text says.
    spec fn text(&self) -> Seq<char>;

    /// The text without the double quotes that it begins and ends with.
    fn remove_quotes(&mut self) -> (r: Self)
        ensures
            r.text() == unquoted(old(self).text()),
            final(self).text() == old(self).text(),
    ;
}

impl<'s> RemoveQuotes for &'s str {
    open spec fn text(&self) -> Seq<char> {
        self@
    }

    fn remove_quotes(&mut self) -> (r: Self) {
        let whole: &'s str = *self;
        let n = whole.unicode_len();
        let mut i: usize = 0;
        while i < n && whole.get_char(i) == '"'
            invariant
                n == whole@.len(),
                i <= n,
                forall|k: int| 0 <= k < i ==> is_quote()(#[trigger] whole@[k]),
            decreases n - i,
        {
            i += 1;
        }
        let mut j: usize = n;
        while j > i && whole.get_char(j - 1) == '"'
            invariant
                n == whole@.len(),
                i <= j <= n,
                forall|k: int| j <= k < n ==> is_quote()(#[trigger] whole@[k]),
            decreases j,
        {
            j -= 1;
        }
        proof {
            lemma_leading(whole@, is_quote(), i as int);
            let rest = whole@.skip(i as int);
            lemma_trailing(rest, is_quote(), n - j);
            assert(rest.take(rest.len() - (n - j)) =~= whole@.subrange(i as int, j as int));
        }
        whole.substring_char(i, j)
    }
}

} // verus!
