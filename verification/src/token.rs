//! Extraction and rendering of the bracketed checksum token.
//!
//! A token is exactly 8 hexadecimal digits between `[` and `]`.  Extraction
//! scans a file name from the right: it takes the last `]`, the nearest `[`
//! before it, and the text strictly between them; a malformed candidate is
//! skipped and the scan continues in the text before that `[`.

use vstd::prelude::*;
use vstd::string::StrSliceExecFns;

verus! {

/// The characters that may appear in a hexadecimal token.
pub open spec fn is_hex_digit(c: char) -> bool {
    ('0' as u32 <= c as u32 && c as u32 <= '9' as u32) || ('a' as u32 <= c as u32 && c as u32
        <= 'f' as u32) || ('A' as u32 <= c as u32 && c as u32 <= 'F' as u32)
}

/// Numeric value of one hexadecimal digit, case-insensitive.
pub open spec fn hex_digit_value(c: char) -> nat
    recommends
        is_hex_digit(c),
{
    if '0' as u32 <= c as u32 && c as u32 <= '9' as u32 {
        (c as u32 - '0' as u32) as nat
    } else if 'a' as u32 <= c as u32 && c as u32 <= 'f' as u32 {
        (c as u32 - 'a' as u32 + 10) as nat
    } else if 'A' as u32 <= c as u32 && c as u32 <= 'F' as u32 {
        (c as u32 - 'A' as u32 + 10) as nat
    } else {
        0
    }
}

pub open spec fn all_hex_digits(s: Seq<char>) -> bool {
    forall|i: int| 0 <= i < s.len() ==> is_hex_digit(#[trigger] s[i])
}

/// A well-formed token body: exactly 8 hexadecimal digits.
pub open spec fn spec_is_token(s: Seq<char>) -> bool {
    s.len() == 8 && all_hex_digits(s)
}

/// The number denoted by a big-endian sequence of hexadecimal digits.
pub open spec fn hex_value(s: Seq<char>) -> nat
    recommends
        all_hex_digits(s),
    decreases s.len(),
{
    if s.len() == 0 {
        0
    } else {
        hex_value(s.drop_last()) * 16 + hex_digit_value(s.last())
    }
}

/// 16 to the power `n`.
pub open spec fn pow16(n: nat) -> nat
    decreases n,
{
    if n == 0 {
        1
    } else {
        16 * pow16((n - 1) as nat)
    }
}

/// The index of the rightmost occurrence of `c` in `s`, if any.
pub open spec fn spec_rfind(s: Seq<char>, c: char) -> Option<int>
    decreases s.len(),
{
    if s.len() == 0 {
        None
    } else if s.last() == c {
        Some(s.len() - 1)
    } else {
        spec_rfind(s.drop_last(), c)
    }
}

/// The rightmost `right` in `s` together with the nearest `left` before it.
pub open spec fn spec_find_surrounded(s: Seq<char>, left: char, right: char) -> Option<(int, int)> {
    match spec_rfind(s, right) {
        None => None,
        Some(r) => match spec_rfind(s.subrange(0, r), left) {
            None => None,
            Some(l) => Some((l, r)),
        },
    }
}

pub proof fn lemma_rfind_props(s: Seq<char>, c: char)
    ensures
        match spec_rfind(s, c) {
            Some(i) => 0 <= i < s.len() && s[i] == c && (forall|j: int|
                i < j < s.len() ==> s[j] != c),
            None => forall|j: int| 0 <= j < s.len() ==> s[j] != c,
        },
    decreases s.len(),
{
    if s.len() == 0 {
    } else if s.last() == c {
    } else {
        lemma_rfind_props(s.drop_last(), c);
        match spec_rfind(s.drop_last(), c) {
            Some(i) => {
                assert(s[i] == s.drop_last()[i]);
                assert forall|j: int| i < j < s.len() implies s[j] != c by {
                    if j < s.len() - 1 {
                        assert(s[j] == s.drop_last()[j]);
                    }
                }
            },
            None => {
                assert forall|j: int| 0 <= j < s.len() implies s[j] != c by {
                    if j < s.len() - 1 {
                        assert(s[j] == s.drop_last()[j]);
                    }
                }
            },
        }
    }
}

pub proof fn lemma_find_surrounded_props(s: Seq<char>, left: char, right: char)
    ensures
        match spec_find_surrounded(s, left, right) {
            Some(p) => 0 <= p.0 < p.1 < s.len() && s[p.0] == left && s[p.1] == right,
            None => true,
        },
{
    lemma_rfind_props(s, right);
    if let Some(r) = spec_rfind(s, right) {
        lemma_rfind_props(s.subrange(0, r), left);
    }
}

/// The rightmost well-formed token in `s`, read as a 32-bit value.
///
/// Mirrors the scan of [`extract_hash`]: the candidate between the last `]`
/// and the nearest `[` before it is taken when well formed; otherwise the
/// scan repeats on the text before that `[`.
pub open spec fn spec_extract(s: Seq<char>) -> Option<u32>
    decreases s.len(),
    via spec_extract_decreases
{
    match spec_find_surrounded(s, '[', ']') {
        None => None,
        Some(p) => {
            let cand = s.subrange(p.0 + 1, p.1);
            if spec_is_token(cand) {
                Some(hex_value(cand) as u32)
            } else {
                spec_extract(s.subrange(0, p.0))
            }
        },
    }
}

#[via_fn]
proof fn spec_extract_decreases(s: Seq<char>) {
    lemma_find_surrounded_props(s, '[', ']');
}

/// A well-formed token denotes a value below 2^32.
pub proof fn lemma_hex_value_bound(s: Seq<char>)
    requires
        all_hex_digits(s),
    ensures
        hex_value(s) < pow16(s.len()),
    decreases s.len(),
{
    if s.len() == 0 {
    } else {
        lemma_hex_value_bound(s.drop_last());
        assert(hex_digit_value(s.last()) < 16);
    }
}

pub proof fn lemma_pow16_8()
    ensures
        pow16(8) == 0x1_0000_0000,
{
    assert(pow16(0) == 1);
    assert(pow16(1) == 16);
    assert(pow16(2) == 0x100);
    assert(pow16(3) == 0x1000);
    assert(pow16(4) == 0x1_0000);
    assert(pow16(5) == 0x10_0000);
    assert(pow16(6) == 0x100_0000);
    assert(pow16(7) == 0x1000_0000);
}

/// The uppercase hexadecimal digit of value `d`.
pub open spec fn hex_char_of(d: nat) -> char
    recommends
        d < 16,
{
    if d == 0 {
        '0'
    } else if d == 1 {
        '1'
    } else if d == 2 {
        '2'
    } else if d == 3 {
        '3'
    } else if d == 4 {
        '4'
    } else if d == 5 {
        '5'
    } else if d == 6 {
        '6'
    } else if d == 7 {
        '7'
    } else if d == 8 {
        '8'
    } else if d == 9 {
        '9'
    } else if d == 10 {
        'A'
    } else if d == 11 {
        'B'
    } else if d == 12 {
        'C'
    } else if d == 13 {
        'D'
    } else if d == 14 {
        'E'
    } else {
        'F'
    }
}

/// The last `n` uppercase hexadecimal digits of `v`, zero-padded.
pub open spec fn hex_digits(v: nat, n: nat) -> Seq<char>
    decreases n,
{
    if n == 0 {
        Seq::empty()
    } else {
        hex_digits(v / 16, (n - 1) as nat).push(hex_char_of(v % 16))
    }
}

/// The canonical rendering of a checksum: 8 uppercase hexadecimal digits in
/// square brackets.
pub open spec fn spec_token_text(c: u32) -> Seq<char> {
    seq!['['] + hex_digits(c as nat, 8) + seq![']']
}

pub proof fn lemma_hex_char_of_props(d: nat)
    requires
        d < 16,
    ensures
        is_hex_digit(hex_char_of(d)),
        hex_digit_value(hex_char_of(d)) == d,
        hex_char_of(d) != '[',
        hex_char_of(d) != ']',
        hex_char_of(d) != '.',
{
}

pub proof fn lemma_hex_digits_props(v: nat, n: nat)
    ensures
        hex_digits(v, n).len() == n,
        all_hex_digits(hex_digits(v, n)),
    decreases n,
{
    if n > 0 {
        lemma_hex_digits_props(v / 16, (n - 1) as nat);
        lemma_hex_char_of_props(v % 16);
        let s = hex_digits(v, n);
        let s0 = hex_digits(v / 16, (n - 1) as nat);
        assert forall|i: int| 0 <= i < s.len() implies is_hex_digit(#[trigger] s[i]) by {
            if i < n - 1 {
                assert(s[i] == s0[i]);
            }
        }
    }
}

/// Rendering and reading back are inverse: the digits of `v` denote `v`
/// modulo 16^n.
pub proof fn lemma_hex_value_of_digits(v: nat, n: nat)
    ensures
        hex_value(hex_digits(v, n)) == v % pow16(n),
    decreases n,
{
    if n == 0 {
        assert(pow16(0) == 1);
    } else {
        lemma_hex_value_of_digits(v / 16, (n - 1) as nat);
        lemma_hex_char_of_props(v % 16);
        let s = hex_digits(v, n);
        let s0 = hex_digits(v / 16, (n - 1) as nat);
        assert(s.drop_last() =~= s0);
        assert(hex_value(s) == ((v / 16) % pow16((n - 1) as nat)) * 16 + v % 16);
        let p = pow16((n - 1) as nat);
        lemma_pow16_pos((n - 1) as nat);
        let vi = v as int;
        let pi = p as int;
        vstd::arithmetic::div_mod::lemma_fundamental_div_mod(vi, 16);
        let w = vi / 16;
        vstd::arithmetic::div_mod::lemma_fundamental_div_mod(w, pi);
        let q = w / pi;
        let r = w % pi;
        vstd::arithmetic::div_mod::lemma_mod_bound(vi, 16);
        vstd::arithmetic::div_mod::lemma_mod_bound(w, pi);
        assert(vi == 16 * (pi * q + r) + vi % 16);
        assert(16 * (pi * q + r) == (16 * pi) * q + 16 * r) by (nonlinear_arith);
        assert(vi == q * (16 * pi) + (16 * r + vi % 16)) by (nonlinear_arith)
            requires
                vi == (16 * pi) * q + (16 * r + vi % 16),
        ;
        assert(16 * r + vi % 16 < 16 * pi) by (nonlinear_arith)
            requires
                0 <= r < pi,
                vi % 16 < 16,
        ;
        vstd::arithmetic::div_mod::lemma_fundamental_div_mod_converse(
            vi,
            16 * pi,
            q,
            16 * r + vi % 16,
        );
        assert(vi % (16 * pi) == 16 * r + vi % 16);
        assert(pow16(n) == 16 * p);
        assert(hex_value(s) == r * 16 + vi % 16);
    }
}

proof fn lemma_pow16_pos(n: nat)
    ensures
        pow16(n) > 0,
    decreases n,
{
    if n > 0 {
        lemma_pow16_pos((n - 1) as nat);
    }
}

/// The token text of a 32-bit value reads back as that value.
pub proof fn lemma_token_text_props(c: u32)
    ensures
        spec_token_text(c).len() == 10,
        spec_is_token(hex_digits(c as nat, 8)),
        hex_value(hex_digits(c as nat, 8)) == c,
{
    lemma_hex_digits_props(c as nat, 8);
    lemma_hex_value_of_digits(c as nat, 8);
    lemma_pow16_8();
    assert(c as nat % 0x1_0000_0000 == c as nat);
}

/// If `c` stands at `i` and nowhere later, the rightmost occurrence is `i`.
proof fn lemma_rfind_exact(s: Seq<char>, c: char, i: int)
    requires
        0 <= i < s.len(),
        s[i] == c,
        forall|j: int| i < j < s.len() ==> s[j] != c,
    ensures
        spec_rfind(s, c) == Some(i),
    decreases s.len(),
{
    if i == s.len() - 1 {
    } else {
        assert(s.last() != c);
        assert(s.drop_last()[i] == c);
        lemma_rfind_exact(s.drop_last(), c, i);
    }
}

/// A name without `]` holds no token.
pub proof fn lemma_extract_no_rbracket(s: Seq<char>)
    requires
        forall|j: int| 0 <= j < s.len() ==> s[j] != ']',
    ensures
        spec_extract(s) is None,
{
    lemma_rfind_props(s, ']');
    if let Some(r) = spec_rfind(s, ']') {
        assert(s[r] == ']');
    }
}

/// Extraction finds a well-formed token embedded before a tail that closes
/// no bracket: the token is the rightmost, whatever stands before it.
pub proof fn lemma_extract_embedded(pre: Seq<char>, body: Seq<char>, suf: Seq<char>)
    requires
        spec_is_token(body),
        forall|j: int| 0 <= j < suf.len() ==> suf[j] != ']',
    ensures
        spec_extract(pre + seq!['['] + body + seq![']'] + suf) == Some(hex_value(body) as u32),
{
    let s = pre + seq!['['] + body + seq![']'] + suf;
    let n = pre.len() as int;
    let rpos = n + 9;
    assert(s.len() == n + 10 + suf.len());
    assert(s[rpos] == ']');
    assert forall|j: int| rpos < j < s.len() implies s[j] != ']' by {
        assert(s[j] == suf[j - (n + 10)]);
    }
    lemma_rfind_exact(s, ']', rpos);
    let s2 = s.subrange(0, rpos);
    assert(s2[n] == '[');
    assert forall|j: int| n < j < s2.len() implies s2[j] != '[' by {
        assert(s2[j] == body[j - n - 1]);
        assert(is_hex_digit(body[j - n - 1]));
    }
    lemma_rfind_exact(s2, '[', n);
    assert(spec_find_surrounded(s, '[', ']') == Some((n, rpos)));
    assert(s.subrange(n + 1, rpos) =~= body);
}

/// The characters of a string, as an indexable vector.
pub(crate) fn to_char_vec(s: &str) -> (v: Vec<char>)
    ensures
        v@ == s@,
{
    let n: usize = s.unicode_len();
    let mut v: Vec<char> = Vec::new();
    let mut i: usize = 0;
    while i < n
        invariant
            i <= n,
            n == s@.len(),
            v@ == s@.subrange(0, i as int),
        decreases n - i,
    {
        let c = s.get_char(i);
        v.push(c);
        i = i + 1;
        proof {
            assert(v@ =~= s@.subrange(0, i as int));
        }
    }
    proof {
        assert(v@ =~= s@);
    }
    v
}

fn is_hex_digit_exec(c: char) -> (r: bool)
    ensures
        r == is_hex_digit(c),
{
    let u = c as u32;
    (48 <= u && u <= 57) || (97 <= u && u <= 102) || (65 <= u && u <= 70)
}

/// Appends `v[lo..hi]` to `out`.
pub(crate) fn push_range(out: &mut Vec<char>, v: &Vec<char>, lo: usize, hi: usize)
    requires
        lo <= hi <= v@.len(),
    ensures
        final(out)@ == old(out)@ + v@.subrange(lo as int, hi as int),
{
    let mut i: usize = lo;
    while i < hi
        invariant
            lo <= i <= hi <= v@.len(),
            out@ == old(out)@ + v@.subrange(lo as int, i as int),
        decreases hi - i,
    {
        out.push(v[i]);
        i = i + 1;
        proof {
            assert(out@ =~= old(out)@ + v@.subrange(lo as int, i as int));
        }
    }
    proof {
        assert(out@ =~= old(out)@ + v@.subrange(lo as int, hi as int));
    }
}

/// Rightmost occurrence of `c` in `v[..end]`, if any.
pub(crate) fn rfind_in(v: &Vec<char>, end: usize, c: char) -> (r: Option<usize>)
    requires
        end <= v@.len(),
    ensures
        match r {
            Some(i) => i < end && spec_rfind(v@.subrange(0, end as int), c) == Some(i as int),
            None => spec_rfind(v@.subrange(0, end as int), c) is None,
        },
{
    let mut i: usize = end;
    while i > 0
        invariant
            i <= end <= v@.len(),
            spec_rfind(v@.subrange(0, end as int), c) == spec_rfind(v@.subrange(0, i as int), c),
        decreases i,
    {
        i = i - 1;
        if v[i] == c {
            proof {
                let pre = v@.subrange(0, i as int + 1);
                assert(pre.last() == c);
            }
            return Some(i);
        }
        proof {
            let pre = v@.subrange(0, i as int + 1);
            assert(pre.last() != c);
            assert(pre.drop_last() =~= v@.subrange(0, i as int));
        }
    }
    proof {
        assert(v@.subrange(0, 0) =~= Seq::<char>::empty());
    }
    None
}

/// True when `v[lo..hi]` is a well-formed token body.
fn is_token_range(v: &Vec<char>, lo: usize, hi: usize) -> (r: bool)
    requires
        lo <= hi <= v@.len(),
    ensures
        r == spec_is_token(v@.subrange(lo as int, hi as int)),
{
    if hi - lo != 8 {
        return false;
    }
    let mut i: usize = lo;
    while i < hi
        invariant
            lo <= i <= hi <= v@.len(),
            hi - lo == 8,
            forall|j: int| lo <= j < i ==> is_hex_digit(#[trigger] v@[j]),
        decreases hi - i,
    {
        if !is_hex_digit_exec(v[i]) {
            assert(!is_hex_digit(v@.subrange(lo as int, hi as int)[i - lo]));
            return false;
        }
        i = i + 1;
    }
    assert forall|j: int| 0 <= j < 8 implies is_hex_digit(
        #[trigger] v@.subrange(lo as int, hi as int)[j],
    ) by {
        assert(v@.subrange(lo as int, hi as int)[j] == v@[lo + j]);
    }
    true
}

/// Reads `v[lo..hi]`, a well-formed token body, as a 32-bit value.
fn parse_hex_range(v: &Vec<char>, lo: usize, hi: usize) -> (r: u32)
    requires
        lo <= hi <= v@.len(),
        spec_is_token(v@.subrange(lo as int, hi as int)),
    ensures
        r == hex_value(v@.subrange(lo as int, hi as int)),
{
    proof {
        lemma_pow16_8();
    }
    let mut acc: u32 = 0;
    let mut i: usize = lo;
    while i < hi
        invariant
            lo <= i <= hi <= v@.len(),
            hi - lo == 8,
            spec_is_token(v@.subrange(lo as int, hi as int)),
            acc == hex_value(v@.subrange(lo as int, i as int)),
            pow16(8) == 0x1_0000_0000,
        decreases hi - i,
    {
        proof {
            let part = v@.subrange(lo as int, i as int);
            assert(all_hex_digits(part)) by {
                assert(forall|j: int| 0 <= j < part.len() ==> part[j] == v@.subrange(
                    lo as int,
                    hi as int,
                )[j]);
            }
            lemma_hex_value_bound(part);
            lemma_pow16_le((i - lo) as nat, 7);
            assert(pow16(7) == 0x1000_0000) by {
                lemma_pow16_8();
            }
        }
        let c = v[i];
        proof {
            assert(v@[i as int] == v@.subrange(lo as int, hi as int)[i - lo]);
        }
        let d: u32 = hex_digit_value_exec(c);
        let next: u32 = acc * 16 + d;
        proof {
            let grown = v@.subrange(lo as int, i as int + 1);
            assert(grown.drop_last() =~= v@.subrange(lo as int, i as int));
            assert(grown.last() == v@[i as int]);
        }
        acc = next;
        i = i + 1;
    }
    proof {
        assert(v@.subrange(lo as int, i as int) =~= v@.subrange(lo as int, hi as int));
    }
    acc
}

proof fn lemma_pow16_le(m: nat, n: nat)
    requires
        m <= n,
    ensures
        pow16(m) <= pow16(n),
    decreases n,
{
    if m < n {
        lemma_pow16_le(m, (n - 1) as nat);
        assert(pow16((n - 1) as nat) <= 16 * pow16((n - 1) as nat));
    }
}

fn hex_digit_value_exec(c: char) -> (r: u32)
    requires
        is_hex_digit(c),
    ensures
        r == hex_digit_value(c),
        r < 16,
{
    let u = c as u32;
    if 48 <= u && u <= 57 {
        u - 48
    } else if 97 <= u && u <= 102 {
        u - 97 + 10
    } else {
        u - 65 + 10
    }
}

/// True when `text` is exactly 8 hexadecimal digits, case-insensitive.
pub fn is_u32_hex(text: &str) -> (r: bool)
    ensures
        r == spec_is_token(text@),
{
    let v = to_char_vec(text);
    let n = v.len();
    proof {
        assert(v@.subrange(0, n as int) =~= text@);
    }
    is_token_range(&v, 0, n)
}

/// The rightmost `right` in `text` with the nearest `left` before it.
pub fn find_surrounded(text: &str, left: char, right: char) -> (r: Option<(usize, usize)>)
    ensures
        match r {
            Some(p) => spec_find_surrounded(text@, left, right) == Some((p.0 as int, p.1 as int)),
            None => spec_find_surrounded(text@, left, right) is None,
        },
{
    let v = to_char_vec(text);
    let n = v.len();
    proof {
        assert(v@.subrange(0, n as int) =~= text@);
    }
    match rfind_in(&v, n, right) {
        None => None,
        Some(r_idx) => {
            proof {
                lemma_rfind_props(text@, right);
                assert(v@.subrange(0, r_idx as int) =~= text@.subrange(0, r_idx as int));
            }
            match rfind_in(&v, r_idx, left) {
                None => None,
                Some(l_idx) => Some((l_idx, r_idx)),
            }
        },
    }
}

fn hex_char_of_exec(d: u32) -> (r: char)
    requires
        d < 16,
    ensures
        r == hex_char_of(d as nat),
{
    if d == 0 {
        '0'
    } else if d == 1 {
        '1'
    } else if d == 2 {
        '2'
    } else if d == 3 {
        '3'
    } else if d == 4 {
        '4'
    } else if d == 5 {
        '5'
    } else if d == 6 {
        '6'
    } else if d == 7 {
        '7'
    } else if d == 8 {
        '8'
    } else if d == 9 {
        '9'
    } else if d == 10 {
        'A'
    } else if d == 11 {
        'B'
    } else if d == 12 {
        'C'
    } else if d == 13 {
        'D'
    } else if d == 14 {
        'E'
    } else {
        'F'
    }
}

/// Appends the last `n` hexadecimal digits of `value`, zero-padded.
fn push_hex_digits(out: &mut Vec<char>, value: u32, n: u32)
    requires
        n <= 8,
    ensures
        final(out)@ == old(out)@ + hex_digits(value as nat, n as nat),
    decreases n,
{
    if n == 0 {
        proof {
            assert(old(out)@ + hex_digits(value as nat, 0) =~= old(out)@);
        }
    } else {
        push_hex_digits(out, value / 16, n - 1);
        let d: u32 = value % 16;
        out.push(hex_char_of_exec(d));
        proof {
            let tail = hex_digits(value as nat / 16, (n - 1) as nat);
            assert(hex_digits(value as nat, n as nat) == tail.push(hex_char_of(value as nat % 16)));
            assert(old(out)@ + tail.push(hex_char_of(value as nat % 16)) =~= (old(out)@
                + tail).push(hex_char_of(value as nat % 16)));
        }
    }
}

/// The canonical token text of a checksum: `[` + 8 uppercase digits + `]`.
pub(crate) fn format_token_chars(value: u32) -> (v: Vec<char>)
    ensures
        v@ == spec_token_text(value),
{
    let mut v: Vec<char> = Vec::new();
    v.push('[');
    push_hex_digits(&mut v, value, 8);
    v.push(']');
    proof {
        assert(v@ =~= spec_token_text(value));
    }
    v
}

/// Relies on std's `String::push`: appends exactly the one character.
#[verifier::external_body]
fn push_char(s: &mut String, c: char)
    ensures
        final(s)@ == old(s)@.push(c),
{
    s.push(c)
}

/// A `String` holding exactly the given characters.
pub(crate) fn chars_to_string(v: &Vec<char>) -> (s: String)
    ensures
        s@ == v@,
{
    let mut s = String::new();
    let mut i: usize = 0;
    while i < v.len()
        invariant
            i <= v@.len(),
            s@ == v@.subrange(0, i as int),
        decreases v@.len() - i,
    {
        push_char(&mut s, v[i]);
        i = i + 1;
        proof {
            assert(s@ =~= v@.subrange(0, i as int));
        }
    }
    proof {
        assert(s@ =~= v@);
    }
    s
}

/// The rightmost well-formed bracketed token in `name`, or `None`.
///
/// The scan is right to left: the last `]`, the nearest `[` before it; a
/// candidate that is not exactly 8 hexadecimal digits is skipped and the
/// scan continues in the text before its `[`.
pub fn extract_hash(name: &str) -> (r: Option<u32>)
    ensures
        r == spec_extract(name@),
{
    let v = to_char_vec(name);
    let mut end: usize = v.len();
    proof {
        assert(v@.subrange(0, end as int) =~= name@);
    }
    loop
        invariant
            end <= v@.len(),
            v@ == name@,
            spec_extract(name@) == spec_extract(v@.subrange(0, end as int)),
        decreases end,
    {
        let ghost sub = v@.subrange(0, end as int);
        match rfind_in(&v, end, ']') {
            None => {
                return None;
            },
            Some(r_idx) => {
                proof {
                    lemma_rfind_props(sub, ']');
                    assert(sub.subrange(0, r_idx as int) =~= v@.subrange(0, r_idx as int));
                }
                match rfind_in(&v, r_idx, '[') {
                    None => {
                        return None;
                    },
                    Some(l_idx) => {
                        proof {
                            lemma_rfind_props(v@.subrange(0, r_idx as int), '[');
                            assert(sub.subrange(l_idx + 1, r_idx as int) =~= v@.subrange(
                                l_idx + 1,
                                r_idx as int,
                            ));
                        }
                        if is_token_range(&v, l_idx + 1, r_idx) {
                            let value = parse_hex_range(&v, l_idx + 1, r_idx);
                            return Some(value);
                        }
                        proof {
                            assert(sub.subrange(0, l_idx as int) =~= v@.subrange(0, l_idx as int));
                        }
                        end = l_idx;
                    },
                }
            },
        }
    }
}

} // verus!
