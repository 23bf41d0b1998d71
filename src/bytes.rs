use vstd::prelude::*;

verus! {

pub const LF: u8 = 0x0A;
pub const CR: u8 = 0x0D;
pub const SPACE: u8 = 0x20;
pub const HASH: u8 = 0x23;
pub const PERCENT: u8 = 0x25;
pub const LPAREN: u8 = 0x28;
pub const RPAREN: u8 = 0x29;
pub const PLUS: u8 = 0x2B;
pub const MINUS: u8 = 0x2D;
pub const DOT: u8 = 0x2E;
pub const SOLIDUS: u8 = 0x2F;
pub const DIGIT_0: u8 = 0x30;
pub const DIGIT_7: u8 = 0x37;
pub const DIGIT_9: u8 = 0x39;
pub const LESS: u8 = 0x3C;
pub const GREATER: u8 = 0x3E;
pub const UPPER_A: u8 = 0x41;
pub const UPPER_F: u8 = 0x46;
pub const LBRACKET: u8 = 0x5B;
pub const BACKSLASH: u8 = 0x5C;
pub const RBRACKET: u8 = 0x5D;
pub const LOWER_A: u8 = 0x61;
pub const LOWER_F: u8 = 0x66;
pub const LBRACE: u8 = 0x7B;
pub const RBRACE: u8 = 0x7D;

pub open spec fn spec_is_space(c: u8) -> bool {
    c == 0x00 || c == 0x09 || c == 0x0A || c == 0x0C || c == 0x0D || c == 0x20
}

pub open spec fn spec_is_delimiter(c: u8) -> bool {
    c == LPAREN || c == RPAREN || c == LESS || c == GREATER || c == LBRACKET || c == RBRACKET || c == LBRACE || c
        == RBRACE || c == SOLIDUS || c == PERCENT
}

pub open spec fn spec_is_regular(c: u8) -> bool {
    !spec_is_space(c) && !spec_is_delimiter(c)
}

pub open spec fn spec_is_hex_digit(c: u8) -> bool {
    (DIGIT_0 <= c <= DIGIT_9) || (LOWER_A <= c <= LOWER_F) || (UPPER_A <= c <= UPPER_F)
}

pub open spec fn spec_is_digit(c: u8) -> bool {
    DIGIT_0 <= c <= DIGIT_9
}

pub open spec fn spec_is_octal_digit(c: u8) -> bool {
    DIGIT_0 <= c <= DIGIT_7
}

/// The value of a hexadecimal digit.
pub open spec fn hex_value(c: u8) -> u8 {
    if DIGIT_0 <= c <= DIGIT_9 {
        (c - DIGIT_0) as u8
    } else if LOWER_A <= c <= LOWER_F {
        (c - LOWER_A + 10) as u8
    } else {
        (c - UPPER_A + 10) as u8
    }
}

/// Whitespace: NUL, tab, line feed, form feed, carriage return and space.
pub fn is_space(c: u8) -> (r: bool)
    ensures
        r == spec_is_space(c),
{
    match c {
        0x00 | 0x09 | 0x0A | 0x0C | 0x0D | 0x20 => true,
        _ => false,
    }
}

/// The bytes that end a token: parentheses, angle, square and curly brackets, solidus, percent.
pub fn is_delimiter(c: u8) -> (r: bool)
    ensures
        r == spec_is_delimiter(c),
{
    match c {
        LPAREN | RPAREN | LESS | GREATER | LBRACKET | RBRACKET | LBRACE | RBRACE | SOLIDUS | PERCENT => true,
        _ => false,
    }
}

/// A byte that is neither whitespace nor a delimiter.
pub fn is_regular(c: u8) -> (r: bool)
    ensures
        r == spec_is_regular(c),
{
    !is_space(c) && !is_delimiter(c)
}

pub fn is_hex_digit(x: u8) -> (r: bool)
    ensures
        r == spec_is_hex_digit(x),
{
    (x >= DIGIT_0 && x <= DIGIT_9) || (x >= LOWER_A && x <= LOWER_F) || (x >= UPPER_A && x <= UPPER_F)
}

pub fn from_hex_char(s: u8) -> (r: u8)
    requires
        spec_is_hex_digit(s),
    ensures
        r == hex_value(s),
        r < 16,
{
    if s >= DIGIT_0 && s <= DIGIT_9 {
        s - DIGIT_0
    } else if s >= LOWER_A && s <= LOWER_F {
        s - LOWER_A + 10
    } else {
        s - UPPER_A + 10
    }
}

/// Whether two byte strings are equal.
pub fn same_bytes(a: &[u8], b: &[u8]) -> (r: bool)
    ensures
        r == (a@ == b@),
{
    if a.len() != b.len() {
        return false;
    }
    let mut i: usize = 0;
    while i < a.len()
        invariant
            a@.len() == b@.len(),
            i <= a@.len(),
            forall|j: int| 0 <= j < i ==> a@[j] == b@[j],
        decreases a@.len() - i,
    {
        if a[i] != b[i] {
            return false;
        }
        i = i + 1;
    }
    assert(a@ =~= b@);
    true
}

/// Whether `s` begins with the bytes of `word`.
pub open spec fn starts_with(s: Seq<u8>, word: Seq<u8>) -> bool {
    word.len() <= s.len() && s.subrange(0, word.len() as int) == word
}

/// Whether `input` begins with the bytes of `word`.
pub fn has_prefix(input: &[u8], word: &[u8]) -> (r: bool)
    ensures
        r == starts_with(input@, word@),
{
    if word.len() > input.len() {
        return false;
    }
    let mut i: usize = 0;
    while i < word.len()
        invariant
            word@.len() <= input@.len(),
            i <= word@.len(),
            forall|j: int| 0 <= j < i ==> input@[j] == word@[j],
        decreases word@.len() - i,
    {
        if input[i] != word[i] {
            assert(input@.subrange(0, word@.len() as int)[i as int] != word@[i as int]);
            return false;
        }
        i = i + 1;
    }
    assert(input@.subrange(0, word@.len() as int) =~= word@);
    true
}

/// The bytes of `s` from position `k` on.
pub open spec fn tail(s: Seq<u8>, k: int) -> Seq<u8> {
    s.subrange(k, s.len() as int)
}

/// Length of the run of whitespace and `%` comments at the start of `s`. A comment runs up
/// to, not including, the next carriage return or line feed.
pub open spec fn skip_len(s: Seq<u8>) -> nat
    decreases s.len(), 0nat,
{
    if s.len() == 0 {
        0
    } else if s[0] == PERCENT {
        1 + comment_len(tail(s, 1))
    } else if spec_is_space(s[0]) {
        1 + skip_len(tail(s, 1))
    } else {
        0
    }
}

/// Length of the rest of a comment, and of the whitespace and comments after it.
pub open spec fn comment_len(s: Seq<u8>) -> nat
    decreases s.len(), 1nat,
{
    if s.len() == 0 {
        0
    } else if s[0] == CR || s[0] == LF {
        skip_len(s)
    } else {
        1 + comment_len(tail(s, 1))
    }
}

pub proof fn lemma_skip_len_bound(s: Seq<u8>)
    ensures
        skip_len(s) <= s.len(),
        comment_len(s) <= s.len(),
    decreases s.len(),
{
    if s.len() > 0 {
        lemma_skip_len_bound(tail(s, 1));
    }
}

/// Skips whitespace and comments; returns how many bytes were skipped.
pub fn eat_until_next_token(input: &[u8]) -> (n: usize)
    ensures
        n == skip_len(input@),
        n <= input@.len(),
{
    let ghost s = input@;
    let mut i: usize = 0;
    assert(tail(s, 0) =~= s);
    while i < input.len()
        invariant
            i <= s.len(),
            s == input@,
            skip_len(s) == i + skip_len(tail(s, i as int)),
        ensures
            i <= s.len(),
            skip_len(s) == i,
        decreases s.len() - i,
    {
        let ghost t = tail(s, i as int);
        assert(tail(t, 1) =~= tail(s, i + 1));
        if input[i] == PERCENT {
            i = i + 1;
            let ghost start = i;
            while i < input.len() && input[i] != CR && input[i] != LF
                invariant
                    start <= i <= s.len(),
                    s == input@,
                    skip_len(s) == i + comment_len(tail(s, i as int)),
                decreases s.len() - i,
            {
                assert(tail(tail(s, i as int), 1) =~= tail(s, i + 1));
                i = i + 1;
            }
        } else if is_space(input[i]) {
            i = i + 1;
        } else {
            break;
        }
    }
    proof {
        lemma_skip_len_bound(s);
    }
    i
}

} // verus!
