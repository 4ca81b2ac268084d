//! Edge-line parsing: split a line of bytes on ASCII whitespace and read
//! two non-negative decimal integers. A line parses exactly when it has two
//! tokens, both strings of digits whose values fit in `u64`.

use vstd::prelude::*;

verus! {

/// ASCII whitespace: tab, line feed, form feed, carriage return, space.
pub open spec fn is_ws(b: u8) -> bool {
    b == 9 || b == 10 || b == 12 || b == 13 || b == 32
}

/// ASCII decimal digit.
pub open spec fn is_digit(b: u8) -> bool {
    48 <= b <= 57
}

/// Position of the first whitespace byte at or after `i`, or `s.len()`.
pub open spec fn token_end(s: Seq<u8>, i: int) -> int
    decreases s.len() - i,
{
    if i < 0 || i >= s.len() || is_ws(s[i]) {
        i
    } else {
        token_end(s, i + 1)
    }
}

pub proof fn lemma_token_end(s: Seq<u8>, i: int)
    requires
        0 <= i <= s.len(),
    ensures
        i <= token_end(s, i) <= s.len(),
        forall|j: int| i <= j < token_end(s, i) ==> !is_ws(s[j]),
        token_end(s, i) == s.len() || is_ws(s[token_end(s, i)]),
    decreases s.len() - i,
{
    if i < s.len() && !is_ws(s[i]) {
        lemma_token_end(s, i + 1);
    }
}

/// A scan that stops at the first whitespace byte computes `token_end`.
pub proof fn lemma_token_end_is(s: Seq<u8>, i: int, e: int)
    requires
        0 <= i <= e <= s.len(),
        forall|j: int| i <= j < e ==> !is_ws(s[j]),
        e == s.len() || is_ws(s[e]),
    ensures
        token_end(s, i) == e,
    decreases e - i,
{
    if i < e {
        lemma_token_end_is(s, i + 1, e);
    }
}

/// The whitespace-separated tokens of `s` from position `i` on.
pub open spec fn tokens_from(s: Seq<u8>, i: int) -> Seq<Seq<u8>>
    decreases s.len() - i,
    via tokens_from_decreases
{
    if i < 0 || i >= s.len() {
        Seq::empty()
    } else if is_ws(s[i]) {
        tokens_from(s, i + 1)
    } else {
        seq![s.subrange(i, token_end(s, i))] + tokens_from(s, token_end(s, i))
    }
}

#[via_fn]
proof fn tokens_from_decreases(s: Seq<u8>, i: int) {
    if 0 <= i < s.len() && !is_ws(s[i]) {
        lemma_token_end(s, i);
    }
}

/// `t` is a non-empty string of ASCII digits.
pub open spec fn all_digits(t: Seq<u8>) -> bool {
    t.len() > 0 && forall|j: int| 0 <= j < t.len() ==> is_digit(#[trigger] t[j])
}

/// Value of a string of ASCII digits, most significant first.
pub open spec fn digits_val(t: Seq<u8>) -> nat
    decreases t.len(),
{
    if t.len() == 0 {
        0
    } else {
        digits_val(t.drop_last()) * 10 + (t.last() - 48) as nat
    }
}

/// The digit value of a prefix never exceeds that of a longer prefix.
pub proof fn lemma_digits_val_prefix_le(t: Seq<u8>, a: int, b: int)
    requires
        0 <= a <= b <= t.len(),
    ensures
        digits_val(t.subrange(0, a)) <= digits_val(t.subrange(0, b)),
    decreases b - a,
{
    if a < b {
        lemma_digits_val_prefix_le(t, a, b - 1);
        assert(t.subrange(0, b).drop_last() =~= t.subrange(0, b - 1));
    }
}

/// What a line of the edge list means: `Some((source, target))` exactly
/// when the line holds two whitespace-separated decimal tokens whose values
/// fit in `u64`, and `None` otherwise.
pub open spec fn line_edge(s: Seq<u8>) -> Option<(u64, u64)> {
    let ts = tokens_from(s, 0);
    if ts.len() == 2 && all_digits(ts[0]) && digits_val(ts[0]) <= u64::MAX && all_digits(ts[1])
        && digits_val(ts[1]) <= u64::MAX {
        Some(((digits_val(ts[0]) as u64), (digits_val(ts[1]) as u64)))
    } else {
        None
    }
}

fn is_ws_byte(b: u8) -> (r: bool)
    ensures
        r == is_ws(b),
{
    b == 9 || b == 10 || b == 12 || b == 13 || b == 32
}

/// Copy of `v[a..b]`.
fn sub_vec(v: &Vec<u8>, a: usize, b: usize) -> (r: Vec<u8>)
    requires
        a <= b <= v@.len(),
    ensures
        r@ == v@.subrange(a as int, b as int),
{
    let mut r: Vec<u8> = Vec::new();
    let mut k: usize = a;
    while k < b
        invariant
            a <= k <= b <= v@.len(),
            r@ == v@.subrange(a as int, k as int),
        decreases b - k,
    {
        r.push(v[k]);
        k += 1;
        proof {
            assert(v@.subrange(a as int, k as int) =~= v@.subrange(a as int, k - 1).push(
                v@[k - 1],
            ));
        }
    }
    r
}

/// Index of the first whitespace byte at or after `i`.
fn scan_token_end(line: &Vec<u8>, i: usize) -> (e: usize)
    requires
        i <= line@.len(),
    ensures
        e == token_end(line@, i as int),
        i <= e <= line@.len(),
{
    let n = line.len();
    let mut j: usize = i;
    let mut stop = false;
    while !stop && j < n
        invariant
            n == line@.len(),
            i <= j <= n,
            forall|q: int| i <= q < j ==> !is_ws(line@[q]),
            stop ==> j < n && is_ws(line@[j as int]),
        decreases n - j + (if stop { 0int } else { 1int }),
    {
        if is_ws_byte(line[j]) {
            stop = true;
        } else {
            j += 1;
        }
    }
    proof {
        lemma_token_end_is(line@, i as int, j as int);
    }
    j
}

/// Split a line on ASCII whitespace.
pub fn tokenize(line: &Vec<u8>) -> (r: Vec<Vec<u8>>)
    ensures
        r@.map_values(|t: Vec<u8>| t@) == tokens_from(line@, 0),
{
    let n = line.len();
    let mut r: Vec<Vec<u8>> = Vec::new();
    let mut i: usize = 0;
    while i < n
        invariant
            n == line@.len(),
            i <= n,
            r@.map_values(|t: Vec<u8>| t@) + tokens_from(line@, i as int) == tokens_from(
                line@,
                0,
            ),
        decreases n - i,
    {
        if is_ws_byte(line[i]) {
            i += 1;
        } else {
            let e = scan_token_end(line, i);
            proof {
                lemma_token_end(line@, i as int);
            }
            let tok = sub_vec(line, i, e);
            let ghost before = r@.map_values(|t: Vec<u8>| t@);
            r.push(tok);
            proof {
                assert(r@.map_values(|t: Vec<u8>| t@) =~= before.push(
                    line@.subrange(i as int, e as int),
                ));
                assert(before.push(line@.subrange(i as int, e as int)) + tokens_from(
                    line@,
                    e as int,
                ) =~= before + tokens_from(line@, i as int));
            }
            i = e;
        }
    }
    proof {
        assert(r@.map_values(|t: Vec<u8>| t@) =~= r@.map_values(|t: Vec<u8>| t@) + tokens_from(
            line@,
            i as int,
        ));
    }
    r
}

/// Parse a non-empty string of decimal digits into a `u64`.
pub fn parse_u64(t: &Vec<u8>) -> (r: Option<u64>)
    ensures
        match r {
            Some(v) => all_digits(t@) && digits_val(t@) <= u64::MAX && v == digits_val(t@),
            None => !all_digits(t@) || digits_val(t@) > u64::MAX,
        },
{
    let n = t.len();
    if n == 0 {
        return None;
    }
    let mut acc: u64 = 0;
    let mut k: usize = 0;
    while k < n
        invariant
            n == t@.len(),
            0 < n,
            k <= n,
            forall|j: int| 0 <= j < k ==> is_digit(#[trigger] t@[j]),
            acc == digits_val(t@.subrange(0, k as int)),
        decreases n - k,
    {
        let b = t[k];
        if b < 48 || b > 57 {
            return None;
        }
        let wide: u128 = (acc as u128) * 10 + ((b - 48) as u128);
        proof {
            assert(t@.subrange(0, k + 1).drop_last() =~= t@.subrange(0, k as int));
        }
        if wide > u64::MAX as u128 {
            proof {
                lemma_digits_val_prefix_le(t@, k + 1, t@.len() as int);
                assert(t@.subrange(0, t@.len() as int) =~= t@);
            }
            return None;
        }
        acc = wide as u64;
        k += 1;
    }
    proof {
        assert(t@.subrange(0, t@.len() as int) =~= t@);
    }
    Some(acc)
}

/// Parse one edge-list line; exactly the lines `line_edge` accepts succeed.
pub fn parse_edge_line(line: &Vec<u8>) -> (r: Option<(u64, u64)>)
    ensures
        r == line_edge(line@),
{
    let toks = tokenize(line);
    if toks.len() != 2 {
        return None;
    }
    let a = match parse_u64(&toks[0]) {
        Some(v) => v,
        None => {
            return None;
        },
    };
    let b = match parse_u64(&toks[1]) {
        Some(v) => v,
        None => {
            return None;
        },
    };
    Some((a, b))
}

} // verus!
