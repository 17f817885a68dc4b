//! The client's side: what a line typed by the player asks for.

use vstd::prelude::*;

verus! {

/// What the client's main loop is asked to do.
#[derive(Debug, Clone, Copy, PartialEq, Eq, Structural)]
pub enum Control {
    Exit,
    Move { row: usize, col: usize },
}

/// What a line of input asks for.
#[derive(Debug, Clone, Copy, PartialEq, Eq, Structural)]
pub enum Command {
    /// `quit`: stop reading input.
    Quit,
    /// `move <row> <col>` with two numbers.
    Move { row: usize, col: usize },
    /// `move` without two numbers after it.
    MoveUsage,
    /// Anything else, an empty line included.
    Usage,
}

/// ASCII white space, as `u8::is_ascii_whitespace` has it.
pub open spec fn is_space(c: u8) -> bool {
    c == 0x20 || c == 0x09 || c == 0x0a || c == 0x0c || c == 0x0d
}

/// The first position at or after `i` that holds no space.
pub open spec fn skip_spaces(s: Seq<u8>, i: int) -> int
    decreases s.len() - i,
{
    if 0 <= i < s.len() && is_space(s[i]) {
        skip_spaces(s, i + 1)
    } else {
        i
    }
}

/// The first position at or after `i` that holds a space, or the end.
pub open spec fn word_end(s: Seq<u8>, i: int) -> int
    decreases s.len() - i,
{
    if 0 <= i < s.len() && !is_space(s[i]) {
        word_end(s, i + 1)
    } else {
        i
    }
}

/// The word that starts after the spaces from `i` on, and where it ends.
pub open spec fn word_from(s: Seq<u8>, i: int) -> (Seq<u8>, int) {
    let a = skip_spaces(s, i);
    let b = word_end(s, a);
    (s.subrange(a, b), b)
}

/// The value of a run of decimal digits.
pub open spec fn digits_value(w: Seq<u8>) -> nat
    decreases w.len(),
{
    if w.len() == 0 {
        0
    } else {
        digits_value(w.drop_last()) * 10 + (w.last() - 0x30) as nat
    }
}

/// `w` without one leading `+`.
pub open spec fn unsigned_digits(w: Seq<u8>) -> Seq<u8> {
    if w.len() > 0 && w[0] == 0x2b {
        w.drop_first()
    } else {
        w
    }
}

/// A number as `str::parse::<usize>` reads it: an optional `+`, then one or
/// more decimal digits, with a value that fits.
pub open spec fn number(w: Seq<u8>) -> Option<usize> {
    let d = unsigned_digits(w);
    if d.len() > 0 && (forall|i: int| 0 <= i < d.len() ==> 0x30 <= #[trigger] d[i] <= 0x39)
        && digits_value(d) <= usize::MAX {
        Some(digits_value(d) as usize)
    } else {
        None
    }
}

/// What the line `s` asks for, by its first three words.
pub open spec fn command_of(s: Seq<u8>) -> Command {
    let (w0, e0) = word_from(s, 0);
    let (w1, e1) = word_from(s, e0);
    let (w2, _) = word_from(s, e1);
    if w0 == seq![0x71u8, 0x75, 0x69, 0x74] {
        Command::Quit
    } else if w0 == seq![0x6du8, 0x6f, 0x76, 0x65] {
        match (number(w1), number(w2)) {
            (Some(row), Some(col)) => Command::Move { row, col },
            _ => Command::MoveUsage,
        }
    } else {
        Command::Usage
    }
}

fn skip_space_bytes(s: &[u8], i: usize) -> (r: usize)
    requires
        i <= s@.len(),
    ensures
        r == skip_spaces(s@, i as int),
        i <= r <= s@.len(),
{
    let mut k = i;
    while k < s.len() && (s[k] == 0x20 || s[k] == 0x09 || s[k] == 0x0a || s[k] == 0x0c || s[k]
        == 0x0d)
        invariant
            i <= k <= s@.len(),
            skip_spaces(s@, k as int) == skip_spaces(s@, i as int),
        decreases s@.len() - k,
    {
        k = k + 1;
    }
    k
}

fn word_end_at(s: &[u8], i: usize) -> (r: usize)
    requires
        i <= s@.len(),
    ensures
        r == word_end(s@, i as int),
        i <= r <= s@.len(),
{
    let mut k = i;
    while k < s.len() && !(s[k] == 0x20 || s[k] == 0x09 || s[k] == 0x0a || s[k] == 0x0c || s[k]
        == 0x0d)
        invariant
            i <= k <= s@.len(),
            word_end(s@, k as int) == word_end(s@, i as int),
        decreases s@.len() - k,
    {
        k = k + 1;
    }
    k
}

proof fn lemma_digits_grow(w: Seq<u8>, k: int)
    requires
        0 <= k <= w.len(),
        forall|i: int| 0 <= i < w.len() ==> 0x30 <= #[trigger] w[i] <= 0x39,
    ensures
        digits_value(w.subrange(0, k)) <= digits_value(w),
    decreases w.len() - k,
{
    if k < w.len() {
        let u = w.subrange(0, k + 1);
        assert(u.drop_last() =~= w.subrange(0, k));
        lemma_digits_grow(w, k + 1);
    } else {
        assert(w.subrange(0, k) =~= w);
    }
}

/// Reads `s[a..b]` as `number` does.
fn parse_number(s: &[u8], a: usize, b: usize) -> (r: Option<usize>)
    requires
        a <= b <= s@.len(),
    ensures
        r == number(s@.subrange(a as int, b as int)),
{
    let w = Ghost(s@.subrange(a as int, b as int));
    let start = if b > a && s[a] == 0x2b { a + 1 } else { a };
    let d = Ghost(s@.subrange(start as int, b as int));
    proof {
        if b > a {
            assert(w@[0] == s@[a as int]);
        }
        if b > a && s@[a as int] == 0x2b {
            assert(w@.drop_first() =~= d@);
        } else {
            assert(w@ =~= d@);
        }
        assert(unsigned_digits(w@) == d@);
    }
    if start == b {
        return None;
    }
    let mut v: usize = 0;
    let mut k = start;
    while k < b
        invariant
            start <= k <= b <= s@.len(),
            d@ == s@.subrange(start as int, b as int),
            w@ == s@.subrange(a as int, b as int),
            unsigned_digits(w@) == d@,
            forall|i: int| start <= i < k ==> 0x30 <= #[trigger] s@[i] <= 0x39,
            v == digits_value(s@.subrange(start as int, k as int)),
        decreases b - k,
    {
        let c = s[k];
        if c < 0x30 || c > 0x39 {
            assert(d@[k - start] == c);
            return None;
        }
        proof {
            let u = s@.subrange(start as int, k + 1);
            assert(u.drop_last() =~= s@.subrange(start as int, k as int));
        }
        let next = match v.checked_mul(10) {
            Some(t) => t.checked_add((c - 0x30) as usize),
            None => None,
        };
        match next {
            Some(n) => v = n,
            None => {
                proof {
                    assert(forall|i: int| 0 <= i < k + 1 - start ==> d@[i] == s@[start + i]);
                    if forall|i: int| 0 <= i < d@.len() ==> 0x30 <= #[trigger] d@[i] <= 0x39 {
                        lemma_digits_grow(d@, k + 1 - start);
                        assert(d@.subrange(0, k + 1 - start) =~= s@.subrange(start as int, k + 1));
                        assert(digits_value(s@.subrange(start as int, k + 1)) > usize::MAX);
                    }
                }
                return None;
            },
        }
        k = k + 1;
    }
    assert(s@.subrange(start as int, k as int) =~= d@);
    assert forall|i: int| 0 <= i < d@.len() implies 0x30 <= #[trigger] d@[i] <= 0x39 by {
        assert(d@[i] == s@[start + i]);
    }
    Some(v)
}

/// What the line `s` asks for.
pub fn parse_command(s: &[u8]) -> (r: Command)
    ensures
        r == command_of(s@),
{
    let a0 = skip_space_bytes(s, 0);
    let e0 = word_end_at(s, a0);
    let a1 = skip_space_bytes(s, e0);
    let e1 = word_end_at(s, a1);
    let a2 = skip_space_bytes(s, e1);
    let e2 = word_end_at(s, a2);
    let quit: [u8; 4] = [0x71u8, 0x75, 0x69, 0x74];
    let mv: [u8; 4] = [0x6du8, 0x6f, 0x76, 0x65];
    if same_bytes(s, a0, e0, &quit) {
        assert(quit@ =~= seq![0x71u8, 0x75, 0x69, 0x74]);
        Command::Quit
    } else if same_bytes(s, a0, e0, &mv) {
        assert(quit@ =~= seq![0x71u8, 0x75, 0x69, 0x74]);
        assert(mv@ =~= seq![0x6du8, 0x6f, 0x76, 0x65]);
        match (parse_number(s, a1, e1), parse_number(s, a2, e2)) {
            (Some(row), Some(col)) => Command::Move { row, col },
            _ => Command::MoveUsage,
        }
    } else {
        assert(quit@ =~= seq![0x71u8, 0x75, 0x69, 0x74]);
        assert(mv@ =~= seq![0x6du8, 0x6f, 0x76, 0x65]);
        Command::Usage
    }
}

/// Whether `s[a..b]` is `lit`.
fn same_bytes(s: &[u8], a: usize, b: usize, lit: &[u8]) -> (r: bool)
    requires
        a <= b <= s@.len(),
    ensures
        r == (s@.subrange(a as int, b as int) == lit@),
{
    if b - a != lit.len() {
        return false;
    }
    let mut k: usize = 0;
    while k < lit.len()
        invariant
            k <= lit@.len(),
            b - a == lit@.len(),
            a <= b <= s@.len(),
            forall|j: int| 0 <= j < k ==> s@[a + j] == lit@[j],
        decreases lit@.len() - k,
    {
        if s[a + k] != lit[k] {
            assert(s@.subrange(a as int, b as int)[k as int] != lit@[k as int]);
            return false;
        }
        k = k + 1;
    }
    assert(s@.subrange(a as int, b as int) =~= lit@);
    true
}

} // verus!
