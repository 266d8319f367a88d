//! The reconciliation policy: from an extracted token and a computed
//! checksum to an outcome, and, where repair is requested, to the repaired
//! file name.
//!
//! The policy is pure: it plans a rename but performs none.  The caller
//! carries the planned rename out and reports the outcome.

use vstd::prelude::*;

use crate::token::{
    chars_to_string, format_token_chars, lemma_token_text_props, push_range, rfind_in,
    spec_extract, spec_rfind, spec_token_text, to_char_vec,
};

verus! {

/// The per-file classification of a reconciliation run.
#[derive(Clone, Copy, Debug, PartialEq, Eq, Structural)]
pub enum Outcome {
    /// A token is present and equals the computed checksum.
    Okay,
    /// A token is present and differs; updating was not requested.
    Mismatch,
    /// A token differed and the name was planned for repair.
    Updated,
    /// No token was present and one was planned for insertion.
    Added,
    /// No token was present and adding was not requested.
    Skipped,
}

/// A per-file failure; it never aborts the work on other files.
#[derive(Clone, Copy, Debug, PartialEq, Eq, Structural)]
pub enum EngineError {
    /// The file could not be opened or read.
    IoFailure,
    /// The planned rename could not be applied.
    RenameFailed,
    /// A token position could not be anchored: the name has no `.`.
    NoExtensionAnchor,
}

/// What the policy decided for one file.
#[derive(Debug)]
pub enum Verdict {
    /// The name stays; the outcome says why.
    Keep(Outcome),
    /// The name is to be renamed to the given new name.
    Rename(Outcome, String),
    /// The file failed on its own; siblings are unaffected.
    Failed(EngineError),
}

/// The specification-level mirror of a [`Verdict`].
pub enum SpecPlan {
    Keep(Outcome),
    Rename(Outcome, Seq<char>),
    Fail(EngineError),
}

/// A verdict agrees with a plan when it carries the same outcome and, for a
/// rename, exactly the planned name.
pub open spec fn matches_plan(v: Verdict, p: SpecPlan) -> bool {
    match (v, p) {
        (Verdict::Keep(o1), SpecPlan::Keep(o2)) => o1 == o2,
        (Verdict::Rename(o1, s), SpecPlan::Rename(o2, m)) => o1 == o2 && s@ == m,
        (Verdict::Failed(e1), SpecPlan::Fail(e2)) => e1 == e2,
        _ => false,
    }
}

/// The name with a fresh token inserted immediately before the final `.`,
/// or nothing when the name has no `.` to anchor against.
pub open spec fn spec_insert_token(name: Seq<char>, value: u32) -> Option<Seq<char>> {
    match spec_rfind(name, '.') {
        None => None,
        Some(i) => Some(
            name.subrange(0, i) + spec_token_text(value) + name.subrange(i, name.len() as int),
        ),
    }
}

/// The name with every occurrence of `pat` replaced by `rep`, scanning left
/// to right over non-overlapping occurrences.
pub open spec fn spec_replace(s: Seq<char>, pat: Seq<char>, rep: Seq<char>) -> Seq<char>
    decreases s.len(),
        when pat.len() > 0
{
    if s.len() < pat.len() {
        s
    } else if s.subrange(0, pat.len() as int) == pat {
        rep + spec_replace(s.subrange(pat.len() as int, s.len() as int), pat, rep)
    } else {
        seq![s[0]] + spec_replace(s.subrange(1, s.len() as int), pat, rep)
    }
}

/// The repaired name: the old token text replaced by the new one; if that
/// changes nothing, the new token is inserted before the final `.` instead.
pub open spec fn spec_update_name(name: Seq<char>, old_value: u32, new_value: u32) -> Option<
    Seq<char>,
> {
    let replaced = spec_replace(name, spec_token_text(old_value), spec_token_text(new_value));
    if replaced != name {
        Some(replaced)
    } else {
        spec_insert_token(name, new_value)
    }
}

/// The whole decision policy, as a function of the name, the computed
/// checksum and the two flags.
pub open spec fn spec_reconcile(name: Seq<char>, computed: u32, update: bool, add: bool) -> SpecPlan {
    match spec_extract(name) {
        None => if add {
            match spec_insert_token(name, computed) {
                Some(m) => SpecPlan::Rename(Outcome::Added, m),
                None => SpecPlan::Fail(EngineError::NoExtensionAnchor),
            }
        } else {
            SpecPlan::Keep(Outcome::Skipped)
        },
        Some(t) => if t == computed {
            SpecPlan::Keep(Outcome::Okay)
        } else if update {
            match spec_update_name(name, t, computed) {
                Some(m) => SpecPlan::Rename(Outcome::Updated, m),
                None => SpecPlan::Fail(EngineError::NoExtensionAnchor),
            }
        } else {
            SpecPlan::Keep(Outcome::Mismatch)
        },
    }
}

/// True when `v[at..at + pat.len()]` equals `pat`.
fn eq_range(v: &Vec<char>, at: usize, pat: &Vec<char>) -> (r: bool)
    requires
        at + pat@.len() <= v@.len(),
    ensures
        r == (v@.subrange(at as int, at + pat@.len()) == pat@),
{
    let n = v.len();
    let m = pat.len();
    let mut j: usize = 0;
    while j < m
        invariant
            j <= m,
            m == pat@.len(),
            n == v@.len(),
            at + m <= n,
            forall|k: int| 0 <= k < j ==> v@[at + k] == pat@[k],
        decreases m - j,
    {
        if v[at + j] != pat[j] {
            proof {
                assert(v@.subrange(at as int, at + pat@.len())[j as int] != pat@[j as int]);
            }
            return false;
        }
        j = j + 1;
    }
    proof {
        assert(v@.subrange(at as int, at + pat@.len()) =~= pat@);
    }
    true
}

/// True when the two vectors hold the same characters.
fn vec_eq(a: &Vec<char>, b: &Vec<char>) -> (r: bool)
    ensures
        r == (a@ == b@),
{
    if a.len() != b.len() {
        return false;
    }
    let n = a.len();
    let mut i: usize = 0;
    while i < n
        invariant
            i <= n,
            n == a@.len() == b@.len(),
            forall|k: int| 0 <= k < i ==> a@[k] == b@[k],
        decreases n - i,
    {
        if a[i] != b[i] {
            return false;
        }
        i = i + 1;
    }
    proof {
        assert(a@ =~= b@);
    }
    true
}

/// Every occurrence of `pat` in `v` replaced by `rep`.
fn replace_all(v: &Vec<char>, pat: &Vec<char>, rep: &Vec<char>) -> (out: Vec<char>)
    requires
        pat@.len() > 0,
    ensures
        out@ == spec_replace(v@, pat@, rep@),
{
    let n = v.len();
    let m = pat.len();
    let mut out: Vec<char> = Vec::new();
    let mut i: usize = 0;
    proof {
        assert(v@.subrange(0, n as int) =~= v@);
        assert(Seq::<char>::empty() + spec_replace(v@, pat@, rep@) =~= spec_replace(
            v@,
            pat@,
            rep@,
        ));
    }
    while i < n
        invariant
            i <= n,
            n == v@.len(),
            m == pat@.len(),
            m > 0,
            spec_replace(v@, pat@, rep@) == out@ + spec_replace(
                v@.subrange(i as int, n as int),
                pat@,
                rep@,
            ),
        decreases n - i,
    {
        let ghost t = v@.subrange(i as int, n as int);
        let ghost prev = out@;
        if m <= n - i && eq_range(v, i, pat) {
            let r_len = rep.len();
            push_range(&mut out, rep, 0, r_len);
            proof {
                assert(rep@.subrange(0, r_len as int) =~= rep@);
                assert(out@ == prev + rep@);
                assert(t.subrange(0, m as int) =~= v@.subrange(i as int, i + m as int));
                assert(spec_replace(t, pat@, rep@) == rep@ + spec_replace(
                    t.subrange(m as int, t.len() as int),
                    pat@,
                    rep@,
                ));
                assert(t.subrange(m as int, t.len() as int) =~= v@.subrange(
                    i + m as int,
                    n as int,
                ));
                let rest = spec_replace(v@.subrange(i + m as int, n as int), pat@, rep@);
                assert(prev + (rep@ + rest) =~= (prev + rep@) + rest);
            }
            i = i + m;
        } else {
            let c = v[i];
            out.push(c);
            proof {
                if t.len() >= m {
                    assert(t.subrange(0, m as int) =~= v@.subrange(i as int, i + m as int));
                    assert(t.subrange(0, m as int) != pat@);
                    assert(spec_replace(t, pat@, rep@) == seq![t[0]] + spec_replace(
                        t.subrange(1, t.len() as int),
                        pat@,
                        rep@,
                    ));
                } else {
                    assert(spec_replace(t, pat@, rep@) == t);
                    assert(t.subrange(1, t.len() as int).len() < m);
                    assert(spec_replace(t.subrange(1, t.len() as int), pat@, rep@)
                        == t.subrange(1, t.len() as int));
                    assert(t =~= seq![t[0]] + t.subrange(1, t.len() as int));
                }
                assert(t[0] == c);
                assert(t.subrange(1, t.len() as int) =~= v@.subrange(i + 1, n as int));
                let rest = spec_replace(v@.subrange(i + 1, n as int), pat@, rep@);
                assert(out@ == prev.push(c));
                assert(prev + (seq![c] + rest) =~= prev.push(c) + rest);
            }
            i = i + 1;
        }
    }
    proof {
        assert(v@.subrange(n as int, n as int) =~= Seq::<char>::empty());
        assert(spec_replace(Seq::<char>::empty(), pat@, rep@) == Seq::<char>::empty());
        assert(out@ + Seq::<char>::empty() =~= out@);
    }
    out
}

/// The name with a fresh token for `value` inserted before the final `.`.
fn insert_token(chars: &Vec<char>, value: u32) -> (r: Option<Vec<char>>)
    ensures
        match spec_insert_token(chars@, value) {
            Some(m) => r matches Some(v) && v@ == m,
            None => r is None,
        },
{
    let n = chars.len();
    proof {
        assert(chars@.subrange(0, n as int) =~= chars@);
    }
    match rfind_in(chars, n, '.') {
        None => None,
        Some(i) => {
            let tok = format_token_chars(value);
            let t_len = tok.len();
            proof {
                lemma_token_text_props(value);
            }
            let mut out: Vec<char> = Vec::new();
            push_range(&mut out, chars, 0, i);
            push_range(&mut out, &tok, 0, t_len);
            push_range(&mut out, chars, i, n);
            proof {
                assert(tok@.subrange(0, t_len as int) =~= tok@);
                assert(out@ =~= chars@.subrange(0, i as int) + spec_token_text(value)
                    + chars@.subrange(i as int, chars@.len() as int));
            }
            Some(out)
        },
    }
}

/// The repaired name for a token that differed: replace the old token text,
/// or insert near the extension when replacement changes nothing.
fn update_name(chars: &Vec<char>, old_value: u32, new_value: u32) -> (r: Option<Vec<char>>)
    ensures
        match spec_update_name(chars@, old_value, new_value) {
            Some(m) => r matches Some(v) && v@ == m,
            None => r is None,
        },
{
    let pat = format_token_chars(old_value);
    let rep = format_token_chars(new_value);
    proof {
        lemma_token_text_props(old_value);
    }
    let replaced = replace_all(chars, &pat, &rep);
    if !vec_eq(&replaced, chars) {
        Some(replaced)
    } else {
        insert_token(chars, new_value)
    }
}

/// Decides one file: extracts the token from `name`, compares it with the
/// computed checksum, and plans the repair the flags ask for.
///
/// The verdict follows [`spec_reconcile`] exactly: `Skipped` and `Mismatch`
/// keep the name untouched; `Added` and `Updated` carry the planned new
/// name; a missing `.` where a token must be inserted fails that one file.
pub fn reconcile(name: &str, computed: u32, update: bool, add: bool) -> (v: Verdict)
    ensures
        matches_plan(v, spec_reconcile(name@, computed, update, add)),
{
    let chars = to_char_vec(name);
    match crate::token::extract_hash(name) {
        None => {
            if add {
                match insert_token(&chars, computed) {
                    Some(new_name) => Verdict::Rename(Outcome::Added, chars_to_string(&new_name)),
                    None => Verdict::Failed(EngineError::NoExtensionAnchor),
                }
            } else {
                Verdict::Keep(Outcome::Skipped)
            }
        },
        Some(t) => {
            if t == computed {
                Verdict::Keep(Outcome::Okay)
            } else if update {
                match update_name(&chars, t, computed) {
                    Some(new_name) => Verdict::Rename(Outcome::Updated, chars_to_string(&new_name)),
                    None => Verdict::Failed(EngineError::NoExtensionAnchor),
                }
            } else {
                Verdict::Keep(Outcome::Mismatch)
            }
        },
    }
}

impl Outcome {
    /// The report label of this outcome.
    pub open spec fn spec_label(self) -> Seq<char> {
        match self {
            Outcome::Okay => "OK"@,
            Outcome::Mismatch => "MISMATCH"@,
            Outcome::Updated => "UPDATED"@,
            Outcome::Added => "ADDED"@,
            Outcome::Skipped => "SKIPPED"@,
        }
    }

    /// The label under which this outcome is reported.
    pub fn label(&self) -> (r: &'static str)
        ensures
            r@ == self.spec_label(),
    {
        match self {
            Outcome::Okay => "OK",
            Outcome::Mismatch => "MISMATCH",
            Outcome::Updated => "UPDATED",
            Outcome::Added => "ADDED",
            Outcome::Skipped => "SKIPPED",
        }
    }
}

impl EngineError {
    /// The report label of this failure.
    pub open spec fn spec_label(self) -> Seq<char> {
        match self {
            EngineError::IoFailure => "IO ERROR"@,
            EngineError::RenameFailed => "RENFAIL"@,
            EngineError::NoExtensionAnchor => "NOANCHOR"@,
        }
    }

    /// The label under which this failure is reported.
    pub fn label(&self) -> (r: &'static str)
        ensures
            r@ == self.spec_label(),
    {
        match self {
            EngineError::IoFailure => "IO ERROR",
            EngineError::RenameFailed => "RENFAIL",
            EngineError::NoExtensionAnchor => "NOANCHOR",
        }
    }
}

/// `n` spaces.
pub open spec fn spec_spaces(n: nat) -> Seq<char>
    decreases n,
{
    if n == 0 {
        Seq::empty()
    } else {
        spec_spaces((n - 1) as nat).push(' ')
    }
}

/// One report line: the label right-aligned to 8 characters, a separator,
/// and the file name.
pub open spec fn spec_report_line(label: Seq<char>, name: Seq<char>) -> Seq<char> {
    let padded = if label.len() >= 8 {
        label
    } else {
        spec_spaces((8 - label.len()) as nat) + label
    };
    padded + seq![' ', '-', ' '] + name
}

/// Renders one report line, e.g. `      OK - archive[A1B2C3D4].zip`.
pub fn report_line(label: &str, name: &str) -> (r: String)
    ensures
        r@ == spec_report_line(label@, name@),
{
    let label_chars = to_char_vec(label);
    let name_chars = to_char_vec(name);
    let mut out: Vec<char> = Vec::new();
    let l_len = label_chars.len();
    if l_len < 8 {
        let pad: usize = 8 - l_len;
        let mut i: usize = 0;
        while i < pad
            invariant
                i <= pad,
                out@ == spec_spaces(i as nat),
            decreases pad - i,
        {
            out.push(' ');
            i = i + 1;
        }
    }
    push_range(&mut out, &label_chars, 0, l_len);
    out.push(' ');
    out.push('-');
    out.push(' ');
    let n_len = name_chars.len();
    push_range(&mut out, &name_chars, 0, n_len);
    proof {
        assert(label_chars@.subrange(0, l_len as int) =~= label@);
        assert(name_chars@.subrange(0, n_len as int) =~= name@);
        assert(out@ =~= spec_report_line(label@, name@));
    }
    chars_to_string(&out)
}

} // verus!
