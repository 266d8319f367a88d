//! The laws of the engine: idempotence of a clean run, the round trip of
//! adding a token, the repair of a stale token, and the no-op of a run
//! without the update flag.
//!
//! Each law is stated over the specification functions that the executable
//! functions are proved against, so it holds of what the library actually
//! computes.

use vstd::prelude::*;

use crate::batch::spec_plan_entry;
use crate::policy::{
    spec_insert_token, spec_reconcile, spec_replace, spec_update_name, Outcome, SpecPlan,
};
use crate::token::{
    hex_digits, hex_value, is_hex_digit, lemma_extract_embedded, lemma_extract_no_rbracket,
    lemma_rfind_props, lemma_token_text_props, spec_extract, spec_rfind, spec_token_text,
};

verus! {

/// A hexadecimal digit is none of the structural characters of a name.
proof fn lemma_hex_digit_not_special(c: char)
    requires
        is_hex_digit(c),
    ensures
        c != '[',
        c != ']',
        c != '.',
{
}

/// Replacement leaves a text untouched when the pattern's first character
/// never occurs in it.
proof fn lemma_replace_untouched(s: Seq<char>, pat: Seq<char>, rep: Seq<char>)
    requires
        pat.len() > 0,
        forall|j: int| 0 <= j < s.len() ==> s[j] != pat[0],
    ensures
        spec_replace(s, pat, rep) == s,
    decreases s.len(),
{
    if s.len() < pat.len() {
    } else {
        assert(s.subrange(0, pat.len() as int)[0] == s[0]);
        assert(s.subrange(0, pat.len() as int) != pat);
        lemma_replace_untouched(s.subrange(1, s.len() as int), pat, rep);
        assert(seq![s[0]] + s.subrange(1, s.len() as int) =~= s);
    }
}

/// Replacement of a pattern that occurs exactly once, surrounded by text in
/// which its first character never occurs, rewrites exactly that occurrence.
proof fn lemma_replace_single(pre: Seq<char>, pat: Seq<char>, rep: Seq<char>, suf: Seq<char>)
    requires
        pat.len() > 0,
        forall|j: int| 0 <= j < pre.len() ==> pre[j] != pat[0],
        forall|j: int| 1 <= j < pat.len() ==> #[trigger] pat[j] != pat[0],
        forall|j: int| 0 <= j < suf.len() ==> suf[j] != pat[0],
    ensures
        spec_replace(pre + pat + suf, pat, rep) == pre + rep + suf,
    decreases pre.len(),
{
    let s = pre + pat + suf;
    if pre.len() == 0 {
        assert(s.subrange(0, pat.len() as int) =~= pat);
        assert(s.subrange(pat.len() as int, s.len() as int) =~= suf);
        lemma_replace_untouched(suf, pat, rep);
        assert(rep + suf =~= pre + rep + suf);
    } else {
        assert(s.len() >= pat.len());
        assert(s.subrange(0, pat.len() as int)[0] == pre[0]);
        assert(s.subrange(0, pat.len() as int) != pat);
        let pre2 = pre.subrange(1, pre.len() as int);
        assert(s.subrange(1, s.len() as int) =~= pre2 + pat + suf);
        lemma_replace_single(pre2, pat, rep, suf);
        assert(seq![s[0]] + (pre2 + rep + suf) =~= pre + rep + suf);
    }
}

/// The characters of a rendered token: `[`, eight hexadecimal digits, `]`;
/// only the first is `[`.
proof fn lemma_token_text_chars(value: u32)
    ensures
        spec_token_text(value).len() == 10,
        spec_token_text(value)[0] == '[',
        spec_token_text(value)[9] == ']',
        forall|j: int| 1 <= j < 10 ==> spec_token_text(value)[j] != '[',
        forall|j: int| 0 <= j < 10 ==> spec_token_text(value)[j] != '.',
{
    lemma_token_text_props(value);
    let tok = spec_token_text(value);
    let body = hex_digits(value as nat, 8);
    assert forall|j: int| 1 <= j < 10 implies tok[j] != '[' by {
        if j < 9 {
            assert(tok[j] == body[j - 1]);
            assert(is_hex_digit(body[j - 1]));
            lemma_hex_digit_not_special(body[j - 1]);
        }
    }
    assert forall|j: int| 0 <= j < 10 implies tok[j] != '.' by {
        if 1 <= j < 9 {
            assert(tok[j] == body[j - 1]);
            assert(is_hex_digit(body[j - 1]));
            lemma_hex_digit_not_special(body[j - 1]);
        }
    }
}

/// Two different checksums render as different token texts.
proof fn lemma_token_text_injective(a: u32, b: u32)
    requires
        a != b,
    ensures
        spec_token_text(a) != spec_token_text(b),
{
    lemma_token_text_props(a);
    lemma_token_text_props(b);
    if spec_token_text(a) == spec_token_text(b) {
        assert(hex_digits(a as nat, 8) =~= spec_token_text(a).subrange(1, 9));
        assert(hex_digits(b as nat, 8) =~= spec_token_text(b).subrange(1, 9));
        assert(hex_value(hex_digits(a as nat, 8)) == hex_value(hex_digits(b as nat, 8)));
    }
}

/// Idempotence: a file whose token already equals its checksum is reported
/// `Ok` and its name is kept, so a second run — under any flags — sees the
/// same name and reports the same; no run on a clean file renames anything.
pub proof fn lemma_ok_runs_are_idempotent(
    name: Seq<char>,
    computed: u32,
    update1: bool,
    add1: bool,
    update2: bool,
    add2: bool,
)
    requires
        spec_extract(name) == Some(computed),
    ensures
        spec_reconcile(name, computed, update1, add1) == SpecPlan::Keep(Outcome::Okay),
        spec_reconcile(name, computed, update2, add2) == SpecPlan::Keep(Outcome::Okay),
{
}

/// Idempotence over a whole batch: where every file's token already equals
/// its checksum, a run plans no rename at all — every entry is reported
/// `Ok` — so a second run sees the same names and reports the same.
pub proof fn lemma_clean_batch_plans_no_rename(
    entries: Seq<(Seq<char>, u32)>,
    update: bool,
    add: bool,
)
    requires
        forall|i: int|
            0 <= i < entries.len() ==> spec_extract((#[trigger] entries[i]).0) == Some(
                entries[i].1,
            ),
    ensures
        forall|i: int|
            0 <= i < entries.len() ==> spec_plan_entry(
                (#[trigger] entries[i]).0,
                Some(entries[i].1),
                update,
                add,
            ) == SpecPlan::Keep(Outcome::Okay),
{
    assert forall|i: int| 0 <= i < entries.len() implies spec_plan_entry(
        (#[trigger] entries[i]).0,
        Some(entries[i].1),
        update,
        add,
    ) == SpecPlan::Keep(Outcome::Okay) by {
        lemma_ok_runs_are_idempotent(entries[i].0, entries[i].1, update, add, update, add);
    }
}

/// No-op policy: a mismatched token without the update flag is reported
/// `Mismatch` and the name is kept untouched.
pub proof fn lemma_mismatch_is_kept(name: Seq<char>, computed: u32, add: bool)
    requires
        spec_extract(name) matches Some(t) && t != computed,
    ensures
        spec_reconcile(name, computed, false, add) == SpecPlan::Keep(Outcome::Mismatch),
{
}

/// Round trip: a bracket-free name with an extension holds no token; a run
/// with the add flag plans exactly one new name, that name carries the
/// computed checksum as its token, and a further run — under any flags —
/// reports `Ok`.
pub proof fn lemma_add_round_trip(
    name: Seq<char>,
    computed: u32,
    update: bool,
    update2: bool,
    add2: bool,
)
    requires
        forall|j: int| 0 <= j < name.len() ==> name[j] != '[' && name[j] != ']',
        spec_rfind(name, '.') is Some,
    ensures
        spec_extract(name) is None,
        spec_reconcile(name, computed, update, true) matches SpecPlan::Rename(o, m) && o
            == Outcome::Added && spec_extract(m) == Some(computed) && spec_reconcile(
            m,
            computed,
            update2,
            add2,
        ) == SpecPlan::Keep(Outcome::Okay),
{
    lemma_extract_no_rbracket(name);
    lemma_rfind_props(name, '.');
    let i = spec_rfind(name, '.')->Some_0;
    let pre = name.subrange(0, i);
    let suf = name.subrange(i, name.len() as int);
    let body = hex_digits(computed as nat, 8);
    lemma_token_text_props(computed);
    let m = pre + spec_token_text(computed) + suf;
    assert(spec_insert_token(name, computed) == Some(m));
    assert(m =~= pre + seq!['['] + body + seq![']'] + suf);
    assert forall|j: int| 0 <= j < suf.len() implies suf[j] != ']' by {
        assert(suf[j] == name[i + j]);
    }
    lemma_extract_embedded(pre, body, suf);
    assert(spec_extract(m) == Some(computed));
    lemma_ok_runs_are_idempotent(m, computed, update2, add2, update2, add2);
}

/// Repair: a name that carries a stale token between bracket-free
/// surroundings is reported `Updated` under the update flag; the planned
/// name replaces exactly the token text, now carries the computed checksum
/// as its token, and a further run — under any flags — reports `Ok`.
pub proof fn lemma_update_repairs(
    pre: Seq<char>,
    suf: Seq<char>,
    stale: u32,
    computed: u32,
    add: bool,
    update2: bool,
    add2: bool,
)
    requires
        stale != computed,
        forall|j: int| 0 <= j < pre.len() ==> pre[j] != '[' && pre[j] != ']',
        forall|j: int| 0 <= j < suf.len() ==> suf[j] != '[' && suf[j] != ']',
    ensures
        spec_extract(pre + spec_token_text(stale) + suf) == Some(stale),
        spec_reconcile(pre + spec_token_text(stale) + suf, computed, true, add)
            == SpecPlan::Rename(Outcome::Updated, pre + spec_token_text(computed) + suf),
        spec_extract(pre + spec_token_text(computed) + suf) == Some(computed),
        spec_reconcile(pre + spec_token_text(computed) + suf, computed, update2, add2)
            == SpecPlan::Keep(Outcome::Okay),
{
    let old_tok = spec_token_text(stale);
    let new_tok = spec_token_text(computed);
    let name = pre + old_tok + suf;
    let repaired = pre + new_tok + suf;
    lemma_token_text_props(stale);
    lemma_token_text_props(computed);
    lemma_token_text_chars(stale);
    lemma_token_text_chars(computed);

    assert(name =~= pre + seq!['['] + hex_digits(stale as nat, 8) + seq![']'] + suf);
    lemma_extract_embedded(pre, hex_digits(stale as nat, 8), suf);
    assert(spec_extract(name) == Some(stale));

    assert(repaired =~= pre + seq!['['] + hex_digits(computed as nat, 8) + seq![']'] + suf);
    lemma_extract_embedded(pre, hex_digits(computed as nat, 8), suf);
    assert(spec_extract(repaired) == Some(computed));

    lemma_replace_single(pre, old_tok, new_tok, suf);
    assert(spec_replace(name, old_tok, new_tok) == repaired);
    lemma_token_text_injective(stale, computed);
    if repaired == name {
        assert(name.subrange(pre.len() as int, pre.len() as int + 10) =~= old_tok);
        assert(repaired.subrange(pre.len() as int, pre.len() as int + 10) =~= new_tok);
    }
    assert(repaired != name);
    assert(spec_update_name(name, stale, computed) == Some(repaired));
    lemma_ok_runs_are_idempotent(repaired, computed, update2, add2, update2, add2);
}

} // verus!
