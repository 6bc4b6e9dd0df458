//! Applying a compiled profile to strings: mapping every character to its
//! class representative, and checking terminality against the witness
//! alphabet.

use vstd::prelude::*;
use vstd::string::StrSliceExecFns;
use crate::profile::{in_universe, profile_wf, uidx, Asc7Profile};

verus! {

/// Strict normalization met a symbol outside the fixed universe.
#[derive(Clone, Copy, Debug, PartialEq, Eq)]
pub struct NormalizeError {
    pub ch: char,
}

/// What normalization yields: each universe symbol becomes its
/// representative; under strictness the first outside symbol is the error,
/// otherwise outside symbols pass through unchanged.
pub open spec fn spec_normalize(p: &Asc7Profile, s: Seq<char>, strict: bool) -> Result<
    Seq<char>,
    char,
>
    decreases s.len(),
{
    if s.len() == 0 {
        Ok(Seq::empty())
    } else if in_universe(s[0]) {
        match spec_normalize(p, s.drop_first(), strict) {
            Ok(t) => Ok(seq![p.rep_map@[uidx(s[0])]] + t),
            Err(e) => Err(e),
        }
    } else if strict {
        Err(s[0])
    } else {
        match spec_normalize(p, s.drop_first(), strict) {
            Ok(t) => Ok(seq![s[0]] + t),
            Err(e) => Err(e),
        }
    }
}

/// Relies on String::push: appends exactly the one character.
#[verifier::external_body]
fn string_push(s: &mut String, c: char)
    ensures
        final(s)@ == old(s)@.push(c),
{
    s.push(c);
}

/// The result of normalizing the first `i` characters, all of which
/// succeeded.
spec fn norm_prefix(p: &Asc7Profile, s: Seq<char>, strict: bool, i: int) -> Seq<char>
    decreases i,
{
    if i <= 0 {
        Seq::empty()
    } else if in_universe(s[i - 1]) {
        norm_prefix(p, s, strict, i - 1).push(p.rep_map@[uidx(s[i - 1])])
    } else {
        norm_prefix(p, s, strict, i - 1).push(s[i - 1])
    }
}

proof fn lemma_norm_prefix_ok(p: &Asc7Profile, s: Seq<char>, strict: bool)
    requires
        forall|k: int| 0 <= k < s.len() ==> (strict ==> in_universe(#[trigger] s[k])),
    ensures
        spec_normalize(p, s, strict) == Ok::<Seq<char>, char>(
            norm_prefix(p, s, strict, s.len() as int),
        ),
    decreases s.len(),
{
    if s.len() > 0 {
        lemma_norm_prefix_ok(p, s.drop_first(), strict);
        lemma_norm_prefix_shift(p, s, strict, s.len() as int - 1);
        if in_universe(s[0]) {
            assert(seq![p.rep_map@[uidx(s[0])]] + norm_prefix(
                p,
                s.drop_first(),
                strict,
                s.len() - 1,
            ) =~= norm_prefix(p, s, strict, s.len() as int));
        } else {
            assert(seq![s[0]] + norm_prefix(p, s.drop_first(), strict, s.len() - 1)
                =~= norm_prefix(p, s, strict, s.len() as int));
        }
    }
}

proof fn lemma_norm_prefix_shift(p: &Asc7Profile, s: Seq<char>, strict: bool, i: int)
    requires
        0 <= i < s.len(),
    ensures
        norm_prefix(p, s, strict, i + 1) == (if in_universe(s[0]) {
            seq![p.rep_map@[uidx(s[0])]] + norm_prefix(p, s.drop_first(), strict, i)
        } else {
            seq![s[0]] + norm_prefix(p, s.drop_first(), strict, i)
        }),
    decreases i,
{
    if i == 0 {
        assert(norm_prefix(p, s, strict, 0) == Seq::<char>::empty());
        assert(norm_prefix(p, s.drop_first(), strict, 0) == Seq::<char>::empty());
        if in_universe(s[0]) {
            assert(norm_prefix(p, s, strict, 1) == norm_prefix(p, s, strict, 0).push(
                p.rep_map@[uidx(s[0])],
            ));
            assert(norm_prefix(p, s, strict, 1) =~= seq![p.rep_map@[uidx(s[0])]] + norm_prefix(
                p,
                s.drop_first(),
                strict,
                0,
            ));
        } else {
            assert(norm_prefix(p, s, strict, 1) == norm_prefix(p, s, strict, 0).push(s[0]));
            assert(norm_prefix(p, s, strict, 1) =~= seq![s[0]] + norm_prefix(
                p,
                s.drop_first(),
                strict,
                0,
            ));
        }
    } else {
        lemma_norm_prefix_shift(p, s, strict, i - 1);
        assert(s.drop_first()[i - 1] == s[i]);
        if in_universe(s[0]) {
            assert(norm_prefix(p, s, strict, i + 1) =~= seq![p.rep_map@[uidx(s[0])]]
                + norm_prefix(p, s.drop_first(), strict, i));
        } else {
            assert(norm_prefix(p, s, strict, i + 1) =~= seq![s[0]] + norm_prefix(
                p,
                s.drop_first(),
                strict,
                i,
            ));
        }
    }
}

proof fn lemma_norm_err(p: &Asc7Profile, s: Seq<char>, i: int)
    requires
        0 <= i < s.len(),
        forall|k: int| 0 <= k < i ==> in_universe(#[trigger] s[k]),
        !in_universe(s[i]),
    ensures
        spec_normalize(p, s, true) == Err::<Seq<char>, char>(s[i]),
    decreases i,
{
    if i > 0 {
        lemma_norm_err(p, s.drop_first(), i - 1);
    }
}

/// Maps every character of `s` through the profile. Under `strict`, the
/// first character outside the universe is returned as the error; otherwise
/// such characters pass through unchanged.
pub fn normalize_str(profile: &Asc7Profile, s: &str, strict: bool) -> (r: Result<
    String,
    NormalizeError,
>)
    requires
        profile_wf(profile),
    ensures
        (spec_normalize(profile, s@, strict) is Ok <==> r is Ok),
        r is Ok ==> r->Ok_0@ == spec_normalize(profile, s@, strict)->Ok_0,
        r is Err ==> r->Err_0.ch == spec_normalize(profile, s@, strict)->Err_0,
{
    let n = s.unicode_len();
    let mut out = String::new();
    let mut i: usize = 0;
    while i < n
        invariant
            profile_wf(profile),
            n == s@.len(),
            i <= n,
            forall|k: int| 0 <= k < i ==> (strict ==> in_universe(#[trigger] s@[k])),
            out@ == norm_prefix(profile, s@, strict, i as int),
        decreases n - i,
    {
        let ch = s.get_char(i);
        let u: u32 = ch as u32;
        if 0x20 <= u && u <= 0x7e {
            let idx: usize = (u - 0x20) as usize;
            string_push(&mut out, profile.rep_map[idx]);
        } else if strict {
            proof {
                lemma_norm_err(profile, s@, i as int);
            }
            return Err(NormalizeError { ch });
        } else {
            string_push(&mut out, ch);
        }
        i = i + 1;
    }
    proof {
        lemma_norm_prefix_ok(profile, s@, strict);
    }
    Ok(out)
}

/// Every character of `s` belongs to the witness alphabet.
pub open spec fn spec_verify_terminal(p: &Asc7Profile, s: Seq<char>) -> bool {
    forall|i: int| 0 <= i < s.len() ==> p.witness_alphabet@.contains(#[trigger] s[i])
}

/// True exactly when every character of `s` is a witness-alphabet member.
pub fn verify_terminal(profile: &Asc7Profile, s: &str) -> (r: bool)
    ensures
        r == spec_verify_terminal(profile, s@),
{
    let n = s.unicode_len();
    let mut i: usize = 0;
    while i < n
        invariant
            n == s@.len(),
            i <= n,
            forall|k: int| 0 <= k < i ==> profile.witness_alphabet@.contains(#[trigger] s@[k]),
        decreases n - i,
    {
        let ch = s.get_char(i);
        let mut found: bool = false;
        let mut j: usize = 0;
        while j < profile.witness_alphabet.len()
            invariant
                j <= profile.witness_alphabet@.len(),
                found <==> (exists|t: int|
                    0 <= t < j && profile.witness_alphabet@[t] == ch),
            decreases profile.witness_alphabet@.len() - j,
        {
            if profile.witness_alphabet[j] == ch {
                found = true;
            }
            j = j + 1;
        }
        if !found {
            proof {
                assert(!profile.witness_alphabet@.contains(s@[i as int]));
            }
            return false;
        }
        i = i + 1;
    }
    true
}

/// Normalization is idempotent: a normalized string normalizes to itself,
/// because every representative is a fixed point of its own class's
/// mapping, and characters outside the universe pass through unchanged.
pub proof fn lemma_normalize_idempotent(p: &Asc7Profile, s: Seq<char>, strict: bool)
    requires
        profile_wf(p),
        spec_normalize(p, s, strict) is Ok,
    ensures
        spec_normalize(p, spec_normalize(p, s, strict)->Ok_0, strict) == spec_normalize(
            p,
            s,
            strict,
        ),
    decreases s.len(),
{
    if s.len() > 0 {
        let rest = s.drop_first();
        lemma_normalize_idempotent(p, rest, strict);
        let t = spec_normalize(p, s, strict)->Ok_0;
        let t_rest = spec_normalize(p, rest, strict)->Ok_0;
        if in_universe(s[0]) {
            let c = p.rep_map@[uidx(s[0])];
            assert(t == seq![c] + t_rest);
            assert(t[0] == c);
            assert(t.drop_first() =~= t_rest);
            assert(in_universe(c));
            assert(p.rep_map@[uidx(c)] == c);
            assert(spec_normalize(p, t, strict) == Ok::<Seq<char>, char>(
                seq![c] + spec_normalize(p, t_rest, strict)->Ok_0,
            ));
            assert(seq![c] + t_rest =~= t);
        } else {
            let c = s[0];
            assert(t == seq![c] + t_rest);
            assert(t[0] == c);
            assert(t.drop_first() =~= t_rest);
            assert(!strict);
            assert(seq![c] + t_rest =~= t);
        }
    }
}

/// After strict normalization succeeds, the result is terminal: every
/// output character is a class representative, hence a witness-alphabet
/// member.
pub proof fn lemma_normalize_strict_terminal(p: &Asc7Profile, s: Seq<char>)
    requires
        profile_wf(p),
        spec_normalize(p, s, true) is Ok,
    ensures
        spec_verify_terminal(p, spec_normalize(p, s, true)->Ok_0),
    decreases s.len(),
{
    if s.len() > 0 {
        let rest = s.drop_first();
        lemma_normalize_strict_terminal(p, rest);
        let t = spec_normalize(p, s, true)->Ok_0;
        let t_rest = spec_normalize(p, rest, true)->Ok_0;
        assert(in_universe(s[0]));
        let c = p.rep_map@[uidx(s[0])];
        assert(t == seq![c] + t_rest);
        assert(p.witness_alphabet@.contains(c));
        assert forall|i: int| 0 <= i < t.len() implies p.witness_alphabet@.contains(
            #[trigger] t[i],
        ) by {
            if i > 0 {
                assert(t[i] == t_rest[i - 1]);
            }
        }
    }
}

} // verus!
