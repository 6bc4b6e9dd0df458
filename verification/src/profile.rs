//! The equivalence-class compiler: builds a character-normalization profile
//! by merging symbols of a fixed printable universe under a union-find,
//! picking one representative per class, and hashing the partition.

use vstd::prelude::*;
use crate::dsu::{dsu_wf, root_of, same_root, Dsu};
use crate::role::{spec_classify_role, classify_role, CharRole};
use crate::digest::{digest_bytes_hex, hex_of, sha256_bytes, sha256_of};
use crate::canon::{canon_view_pairs, lemma_canon_view_pairs_index, encode_canon, Canon, CanonView};
use crate::cert::KernelCert;
use vstd::string::StringExecFns;

verus! {

broadcast use vstd::utf8::char_is_scalar, vstd::utf8::char_u32_cast;

/// The symbol universe: printable characters, in code-point order.
pub open spec fn universe_char(i: int) -> char
    recommends
        0 <= i < 95,
{
    ((0x20 + i) as u8) as char
}

pub open spec fn in_universe(c: char) -> bool {
    0x20 <= c as int <= 0x7e
}

/// The dense index of a universe symbol.
pub open spec fn uidx(c: char) -> int
    recommends
        in_universe(c),
{
    c as int - 0x20
}

/// One label per universe index; equal labels mean one class.
pub open spec fn init_labels() -> Seq<int> {
    Seq::new(95, |i: int| i)
}

/// Relabels the class of `j` with the label of `i`.
pub open spec fn merge_labels(l: Seq<int>, i: int, j: int) -> Seq<int>
    recommends
        0 <= i < l.len(),
        0 <= j < l.len(),
{
    Seq::new(
        l.len(),
        |k: int|
            if l[k] == l[j] {
                l[i]
            } else {
                l[k]
            },
    )
}

/// The rule that restricts merges: under a strict profile, two symbols may
/// merge only when they share a role, or when neither is a delimiter.
pub open spec fn union_allowed(c1: char, c2: char, strict: bool) -> bool {
    ||| !strict
    ||| spec_classify_role(c1) == spec_classify_role(c2)
    ||| (spec_classify_role(c1) != CharRole::Delimiter && spec_classify_role(c2)
        != CharRole::Delimiter)
}

/// One attempted merge: symbols outside the universe are silently skipped,
/// and the role rule may refuse.
pub open spec fn apply_pair(l: Seq<int>, c1: char, c2: char, strict: bool) -> Seq<int> {
    if in_universe(c1) && in_universe(c2) && union_allowed(c1, c2, strict) {
        merge_labels(l, uidx(c1), uidx(c2))
    } else {
        l
    }
}

/// All pairs within one glyph group, in nested loop order, applied from
/// position `(i, j)` on.
pub open spec fn apply_group_from(l: Seq<int>, g: Seq<char>, i: int, j: int, strict: bool) -> Seq<
    int,
>
    decreases g.len() - i, g.len() - j,
{
    if i < 0 || j <= i {
        l
    } else if i >= g.len() {
        l
    } else if j >= g.len() {
        apply_group_from(l, g, i + 1, i + 2, strict)
    } else {
        apply_group_from(apply_pair(l, g[i], g[j], strict), g, i, j + 1, strict)
    }
}

/// The glyph groups from index `gi` on.
pub open spec fn apply_groups_from(
    l: Seq<int>,
    groups: Seq<Seq<char>>,
    gi: int,
    strict: bool,
) -> Seq<int>
    decreases groups.len() - gi,
{
    if gi < 0 || gi >= groups.len() {
        l
    } else {
        apply_groups_from(apply_group_from(l, groups[gi], 0, 1, strict), groups, gi + 1, strict)
    }
}

/// The case pairs from index `k` on.
pub open spec fn apply_cases_from(
    l: Seq<int>,
    cps: Seq<(char, char)>,
    k: int,
    strict: bool,
) -> Seq<int>
    decreases cps.len() - k,
{
    if k < 0 || k >= cps.len() {
        l
    } else {
        apply_cases_from(apply_pair(l, cps[k].0, cps[k].1, strict), cps, k + 1, strict)
    }
}

/// Profile parameters: a name, the strictness switch, the symbol groups to
/// merge, and optional case-folding pairs.
#[derive(Clone, Debug)]
pub struct Asc7ProfileParams {
    pub name: String,
    pub syntax_strict: bool,
    pub glyph_classes: Vec<Vec<char>>,
    pub case_pairs: Vec<(char, char)>,
}

/// The glyph groups as a mathematical sequence of sequences.
pub open spec fn gc_view(params: &Asc7ProfileParams) -> Seq<Seq<char>> {
    Seq::new(params.glyph_classes@.len(), |i: int| params.glyph_classes@[i]@)
}

/// The final labeling that the parameters dictate: all glyph-group pairs,
/// then all case pairs, each subject to the role rule.
pub open spec fn profile_labels(params: &Asc7ProfileParams) -> Seq<int> {
    apply_cases_from(
        apply_groups_from(init_labels(), gc_view(params), 0, params.syntax_strict),
        params.case_pairs@,
        0,
        params.syntax_strict,
    )
}

/// The union-find agrees with a labeling: same root exactly when labels
/// are equal.
pub open spec fn equiv_matches(p: Seq<usize>, l: Seq<int>) -> bool {
    forall|a: int, b: int|
        0 <= a < 95 && 0 <= b < 95 ==> (#[trigger] same_root(p, a, b) <==> l[a] == l[b])
}

proof fn lemma_merge_labels_equiv(l: Seq<int>, i: int, j: int)
    requires
        l.len() == 95,
        0 <= i < 95,
        0 <= j < 95,
    ensures
        forall|a: int, b: int|
            0 <= a < 95 && 0 <= b < 95 ==> ((#[trigger] merge_labels(l, i, j)[a])
                == #[trigger] merge_labels(l, i, j)[b] <==> (l[a] == l[b] || (l[a] == l[i] && l[b]
                == l[j]) || (l[a] == l[j] && l[b] == l[i]))),
{
}

/// Performs one restricted merge on the union-find, mirroring [`apply_pair`].
fn try_union(dsu: &mut Dsu, c1: char, c2: char, strict: bool, Ghost(labels): Ghost<Seq<int>>)
    requires
        dsu_wf(old(dsu)@),
        old(dsu)@.len() == 95,
        labels.len() == 95,
        equiv_matches(old(dsu)@, labels),
    ensures
        dsu_wf(final(dsu)@),
        final(dsu)@.len() == 95,
        equiv_matches(final(dsu)@, apply_pair(labels, c1, c2, strict)),
{
    let u1: u32 = c1 as u32;
    let u2: u32 = c2 as u32;
    if !(0x20 <= u1 && u1 <= 0x7e && 0x20 <= u2 && u2 <= 0x7e) {
        return ;
    }
    if strict {
        let r1 = classify_role(c1);
        let r2 = classify_role(c2);
        let both_non_delim = !matches!(r1, CharRole::Delimiter) && !matches!(
            r2,
            CharRole::Delimiter,
        );
        if !(r1 == r2 || both_non_delim) {
            return ;
        }
    }
    let i1: usize = (u1 - 0x20) as usize;
    let i2: usize = (u2 - 0x20) as usize;
    dsu.union(i1, i2);
    proof {
        lemma_merge_labels_equiv(labels, i1 as int, i2 as int);
        assert(apply_pair(labels, c1, c2, strict) == merge_labels(
            labels,
            uidx(c1),
            uidx(c2),
        ));
    }
}

/// Runs every permitted merge of the parameters and returns each index's root,
/// so that equal roots mean exactly what [`profile_labels`] dictates.
fn merged_roots(params: &Asc7ProfileParams) -> (roots: Vec<usize>)
    ensures
        roots@.len() == 95,
        forall|a: int, b: int|
            0 <= a < 95 && 0 <= b < 95 ==> ((#[trigger] roots@[a]) == (#[trigger] roots@[b])
                <==> profile_labels(params)[a] == profile_labels(params)[b]),
{
    let strict = params.syntax_strict;
    let ghost groups = gc_view(params);
    let ghost cps = params.case_pairs@;
    let ghost target = profile_labels(params);
    let mut dsu = Dsu::new(95);
    let ghost mut labels: Seq<int> = init_labels();
    proof {
        assert(equiv_matches(dsu@, labels)) by {
            assert forall|a: int, b: int| 0 <= a < 95 && 0 <= b < 95 implies (#[trigger] same_root(
                dsu@,
                a,
                b,
            ) <==> labels[a] == labels[b]) by {
                assert(root_of(dsu@, a) == a);
                assert(root_of(dsu@, b) == b);
            }
        }
    }
    let mut gi: usize = 0;
    while gi < params.glyph_classes.len()
        invariant
            strict == params.syntax_strict,
            groups == gc_view(params),
            cps == params.case_pairs@,
            target == profile_labels(params),
            gi <= groups.len(),
            dsu_wf(dsu@),
            dsu@.len() == 95,
            labels.len() == 95,
            equiv_matches(dsu@, labels),
            apply_cases_from(apply_groups_from(labels, groups, gi as int, strict), cps, 0, strict)
                == target,
        decreases groups.len() - gi,
    {
        let g = &params.glyph_classes[gi];
        let ghost gv = groups[gi as int];
        let mut i: usize = 0;
        while i < g.len()
            invariant
                strict == params.syntax_strict,
                groups == gc_view(params),
                cps == params.case_pairs@,
                target == profile_labels(params),
                gi < groups.len(),
                gv == groups[gi as int],
                g@ == gv,
                i <= gv.len(),
                dsu_wf(dsu@),
                dsu@.len() == 95,
                labels.len() == 95,
                equiv_matches(dsu@, labels),
                apply_cases_from(
                    apply_groups_from(
                        apply_group_from(labels, gv, i as int, i as int + 1, strict),
                        groups,
                        gi as int + 1,
                        strict,
                    ),
                    cps,
                    0,
                    strict,
                ) == target,
            decreases gv.len() - i,
        {
            let mut j: usize = i + 1;
            while j < g.len()
                invariant
                    strict == params.syntax_strict,
                    groups == gc_view(params),
                    cps == params.case_pairs@,
                    target == profile_labels(params),
                    gi < groups.len(),
                    gv == groups[gi as int],
                    g@ == gv,
                    i < j <= gv.len(),
                    i < gv.len(),
                    dsu_wf(dsu@),
                    dsu@.len() == 95,
                    labels.len() == 95,
                    equiv_matches(dsu@, labels),
                    apply_cases_from(
                        apply_groups_from(
                            apply_group_from(labels, gv, i as int, j as int, strict),
                            groups,
                            gi as int + 1,
                            strict,
                        ),
                        cps,
                        0,
                        strict,
                    ) == target,
                decreases gv.len() - j,
            {
                let c1 = g[i];
                let c2 = g[j];
                proof {
                    assert(apply_group_from(labels, gv, i as int, j as int, strict)
                        == apply_group_from(
                        apply_pair(labels, c1, c2, strict),
                        gv,
                        i as int,
                        j as int + 1,
                        strict,
                    ));
                }
                try_union(&mut dsu, c1, c2, strict, Ghost(labels));
                proof {
                    labels = apply_pair(labels, c1, c2, strict);
                }
                j = j + 1;
            }
            proof {
                assert(apply_group_from(labels, gv, i as int, j as int, strict)
                    == apply_group_from(labels, gv, i as int + 1, i as int + 2, strict));
            }
            i = i + 1;
        }
        proof {
            assert(apply_group_from(labels, gv, i as int, i as int + 1, strict) == labels);
        }
        gi = gi + 1;
    }
    proof {
        assert(apply_groups_from(labels, groups, gi as int, strict) == labels);
    }
    let mut k: usize = 0;
    while k < params.case_pairs.len()
        invariant
            strict == params.syntax_strict,
            cps == params.case_pairs@,
            target == profile_labels(params),
            k <= cps.len(),
            dsu_wf(dsu@),
            dsu@.len() == 95,
            labels.len() == 95,
            equiv_matches(dsu@, labels),
            apply_cases_from(labels, cps, k as int, strict) == target,
        decreases cps.len() - k,
    {
        let c1 = params.case_pairs[k].0;
        let c2 = params.case_pairs[k].1;
        proof {
            assert(apply_cases_from(labels, cps, k as int, strict) == apply_cases_from(
                apply_pair(labels, c1, c2, strict),
                cps,
                k as int + 1,
                strict,
            ));
        }
        try_union(&mut dsu, c1, c2, strict, Ghost(labels));
        proof {
            labels = apply_pair(labels, c1, c2, strict);
        }
        k = k + 1;
    }
    proof {
        assert(apply_cases_from(labels, cps, k as int, strict) == labels);
        assert(labels == target);
    }
    let mut roots: Vec<usize> = Vec::new();
    let mut idx: usize = 0;
    while idx < 95
        invariant
            idx <= 95,
            dsu_wf(dsu@),
            dsu@.len() == 95,
            equiv_matches(dsu@, labels),
            labels == target,
            labels.len() == 95,
            roots@.len() == idx,
            forall|a: int| 0 <= a < idx ==> (#[trigger] roots@[a]) as int == root_of(dsu@, a),
        decreases 95 - idx,
    {
        let r = dsu.find(idx);
        roots.push(r);
        idx = idx + 1;
    }
    proof {
        assert forall|a: int, b: int| 0 <= a < 95 && 0 <= b < 95 implies ((#[trigger] roots@[a])
            == (#[trigger] roots@[b]) <==> target[a] == target[b]) by {
            assert(same_root(dsu@, a, b) <==> labels[a] == labels[b]);
        }
    }
    roots
}

/// Lowercase letters of the universe.
pub open spec fn is_lower_char(c: char) -> bool {
    0x61 <= c as u32 <= 0x7a
}

/// Decimal digit characters.
pub open spec fn is_digit_char(c: char) -> bool {
    0x30 <= c as u32 <= 0x39
}

/// The first character of `s` satisfying the lowercase test.
pub open spec fn first_lower(s: Seq<char>) -> Option<char>
    decreases s.len(),
{
    if s.len() == 0 {
        None
    } else if is_lower_char(s[0]) {
        Some(s[0])
    } else {
        first_lower(s.drop_first())
    }
}

/// The first character of `s` satisfying the digit test.
pub open spec fn first_digit(s: Seq<char>) -> Option<char>
    decreases s.len(),
{
    if s.len() == 0 {
        None
    } else if is_digit_char(s[0]) {
        Some(s[0])
    } else {
        first_digit(s.drop_first())
    }
}

/// The representative of a class, scanned in member order: the first
/// lowercase letter, else the first digit, else the first (and smallest,
/// the members being ascending) symbol.
pub open spec fn pick_rep_spec(s: Seq<char>) -> char
    recommends
        s.len() > 0,
{
    match first_lower(s) {
        Some(c) => c,
        None => match first_digit(s) {
            Some(c) => c,
            None => s[0],
        },
    }
}

proof fn lemma_first_lower_at(s: Seq<char>, i: int)
    requires
        0 <= i < s.len(),
        forall|k: int| 0 <= k < i ==> !is_lower_char(#[trigger] s[k]),
        is_lower_char(s[i]),
    ensures
        first_lower(s) == Some(s[i]),
    decreases i,
{
    if i > 0 {
        lemma_first_lower_at(s.drop_first(), i - 1);
    }
}

proof fn lemma_first_lower_none(s: Seq<char>)
    requires
        forall|k: int| 0 <= k < s.len() ==> !is_lower_char(#[trigger] s[k]),
    ensures
        first_lower(s) is None,
    decreases s.len(),
{
    if s.len() > 0 {
        lemma_first_lower_none(s.drop_first());
    }
}

proof fn lemma_first_digit_at(s: Seq<char>, i: int)
    requires
        0 <= i < s.len(),
        forall|k: int| 0 <= k < i ==> !is_digit_char(#[trigger] s[k]),
        is_digit_char(s[i]),
    ensures
        first_digit(s) == Some(s[i]),
    decreases i,
{
    if i > 0 {
        lemma_first_digit_at(s.drop_first(), i - 1);
    }
}

proof fn lemma_first_digit_none(s: Seq<char>)
    requires
        forall|k: int| 0 <= k < s.len() ==> !is_digit_char(#[trigger] s[k]),
    ensures
        first_digit(s) is None,
    decreases s.len(),
{
    if s.len() > 0 {
        lemma_first_digit_none(s.drop_first());
    }
}

/// Scans the members as [`pick_rep_spec`] does.
fn pick_rep(members: &Vec<char>) -> (r: char)
    requires
        members@.len() > 0,
    ensures
        r == pick_rep_spec(members@),
        members@.contains(r),
{
    let mut i: usize = 0;
    while i < members.len()
        invariant
            i <= members@.len(),
            forall|k: int| 0 <= k < i ==> !is_lower_char(#[trigger] members@[k]),
        decreases members@.len() - i,
    {
        let c = members[i];
        let u: u32 = c as u32;
        if 0x61 <= u && u <= 0x7a {
            proof {
                lemma_first_lower_at(members@, i as int);
            }
            return c;
        }
        i = i + 1;
    }
    proof {
        lemma_first_lower_none(members@);
    }
    let mut i: usize = 0;
    while i < members.len()
        invariant
            i <= members@.len(),
            forall|k: int| 0 <= k < i ==> !is_digit_char(#[trigger] members@[k]),
            first_lower(members@) is None,
        decreases members@.len() - i,
    {
        let c = members[i];
        let u: u32 = c as u32;
        if 0x30 <= u && u <= 0x39 {
            proof {
                lemma_first_digit_at(members@, i as int);
            }
            return c;
        }
        i = i + 1;
    }
    proof {
        lemma_first_digit_none(members@);
    }
    members[0]
}

/// The universe symbols, ascending, of the class labeled `r` among the
/// first `j` indices.
pub open spec fn class_prefix(roots: Seq<usize>, r: usize, j: int) -> Seq<char>
    decreases j,
{
    if j <= 0 {
        Seq::empty()
    } else if roots[j - 1] == r {
        class_prefix(roots, r, j - 1).push(universe_char(j - 1))
    } else {
        class_prefix(roots, r, j - 1)
    }
}

/// The whole class of label `r`, as ascending universe symbols.
pub open spec fn class_chars(roots: Seq<usize>, r: usize) -> Seq<char> {
    class_prefix(roots, r, 95)
}

proof fn lemma_class_prefix_props(roots: Seq<usize>, r: usize, j: int)
    requires
        roots.len() == 95,
        0 <= j <= 95,
    ensures
        forall|t: int|
            0 <= t < class_prefix(roots, r, j).len() ==> in_universe(
                #[trigger] class_prefix(roots, r, j)[t],
            ) && 0 <= uidx(class_prefix(roots, r, j)[t]) < j && roots[uidx(
                class_prefix(roots, r, j)[t],
            )] == r,
        forall|k: int| 0 <= k < j && roots[k] == r ==> class_prefix(roots, r, j).contains(
            universe_char(k),
        ),
    decreases j,
{
    if j > 0 {
        lemma_class_prefix_props(roots, r, j - 1);
        if roots[j - 1] == r {
            assert(class_prefix(roots, r, j).last() == universe_char(j - 1));
            assert forall|k: int| 0 <= k < j && roots[k] == r implies class_prefix(
                roots,
                r,
                j,
            ).contains(universe_char(k)) by {
                if k < j - 1 {
                    let t = choose|t: int|
                        0 <= t < class_prefix(roots, r, j - 1).len() && (#[trigger] class_prefix(
                            roots,
                            r,
                            j - 1,
                        )[t]) == universe_char(k);
                    assert(class_prefix(roots, r, j)[t] == universe_char(k));
                } else {
                    assert(class_prefix(roots, r, j)[class_prefix(roots, r, j).len() - 1]
                        == universe_char(k));
                }
            }
        } else {
            assert forall|k: int| 0 <= k < j && roots[k] == r implies class_prefix(
                roots,
                r,
                j,
            ).contains(universe_char(k)) by {
                assert(k != j - 1);
            }
        }
    }
}

/// Gathers the members of the class of index `i`, ascending.
fn class_members(roots: &Vec<usize>, i: usize) -> (members: Vec<char>)
    requires
        roots@.len() == 95,
        i < 95,
    ensures
        members@ == class_chars(roots@, roots@[i as int]),
        members@.len() > 0,
{
    let r = roots[i];
    let mut members: Vec<char> = Vec::new();
    let mut j: usize = 0;
    while j < 95
        invariant
            j <= 95,
            roots@.len() == 95,
            r == roots@[i as int],
            members@ == class_prefix(roots@, r, j as int),
        decreases 95 - j,
    {
        if roots[j] == r {
            let c: char = ((0x20 + j) as u8) as char;
            members.push(c);
            proof {
                assert(c == universe_char(j as int));
            }
        }
        j = j + 1;
    }
    proof {
        lemma_class_prefix_props(roots@, r, 95);
        assert(class_chars(roots@, r).contains(universe_char(i as int)));
    }
    members
}

/// Builds the representative map: each index maps to the representative
/// picked from its own class.
fn build_rep_map(roots: &Vec<usize>) -> (rm: Vec<char>)
    requires
        roots@.len() == 95,
    ensures
        rm@.len() == 95,
        forall|i: int|
            0 <= i < 95 ==> (#[trigger] rm@[i]) == pick_rep_spec(
                class_chars(roots@, roots@[i]),
            ),
        forall|i: int|
            0 <= i < 95 ==> in_universe(#[trigger] rm@[i]) && roots@[uidx(rm@[i])] == roots@[i],
{
    let mut rm: Vec<char> = Vec::new();
    let mut fill: usize = 0;
    while fill < 95
        invariant
            fill <= 95,
            rm@.len() == fill,
        decreases 95 - fill,
    {
        rm.push(' ');
        fill = fill + 1;
    }
    let mut i: usize = 0;
    while i < 95
        invariant
            i <= 95,
            roots@.len() == 95,
            rm@.len() == 95,
            forall|k: int|
                0 <= k < 95 && (exists|m: int| 0 <= m < i && roots@[m] == roots@[k]) ==> (
                #[trigger] rm@[k]) == pick_rep_spec(class_chars(roots@, roots@[k]))
                    && in_universe(rm@[k]) && roots@[uidx(rm@[k])] == roots@[k],
        decreases 95 - i,
    {
        let mut seen: bool = false;
        let mut m: usize = 0;
        while m < i
            invariant
                m <= i,
                i < 95,
                roots@.len() == 95,
                seen <==> (exists|t: int| 0 <= t < m && roots@[t] == roots@[i as int]),
            decreases i - m,
        {
            if roots[m] == roots[i] {
                seen = true;
            }
            m = m + 1;
        }
        if !seen {
            let members = class_members(roots, i);
            let rep = pick_rep(&members);
            proof {
                lemma_class_prefix_props(roots@, roots@[i as int], 95);
                let t = choose|t: int|
                    0 <= t < members@.len() && members@[t] == rep;
                assert(in_universe(rep) && roots@[uidx(rep)] == roots@[i as int]);
            }
            let ghost rm_before = rm@;
            let mut j: usize = 0;
            while j < 95
                invariant
                    j <= 95,
                    i < 95,
                    roots@.len() == 95,
                    rm@.len() == 95,
                    members@ == class_chars(roots@, roots@[i as int]),
                    rep == pick_rep_spec(class_chars(roots@, roots@[i as int])),
                    in_universe(rep) && roots@[uidx(rep)] == roots@[i as int],
                    forall|k: int|
                        0 <= k < 95 && roots@[k] != roots@[i as int] ==> (#[trigger] rm@[k])
                            == rm_before[k],
                    forall|k: int|
                        0 <= k < j && roots@[k] == roots@[i as int] ==> (#[trigger] rm@[k]) == rep,
                decreases 95 - j,
            {
                if roots[j] == roots[i] {
                    rm.set(j, rep);
                }
                j = j + 1;
            }
            proof {
                assert forall|k: int|
                    0 <= k < 95 && (exists|m2: int| 0 <= m2 < i + 1 && roots@[m2] == roots@[k])
                        implies (#[trigger] rm@[k]) == pick_rep_spec(
                    class_chars(roots@, roots@[k]),
                ) && in_universe(rm@[k]) && roots@[uidx(rm@[k])] == roots@[k] by {
                    if roots@[k] == roots@[i as int] {
                        assert(rm@[k] == rep);
                        assert(class_chars(roots@, roots@[k]) == class_chars(
                            roots@,
                            roots@[i as int],
                        ));
                    } else {
                        assert(rm@[k] == rm_before[k]);
                        let m2 = choose|m2: int| 0 <= m2 < i + 1 && roots@[m2] == roots@[k];
                        assert(m2 < i);
                    }
                }
            }
        } else {
            proof {
                assert forall|k: int|
                    0 <= k < 95 && (exists|m2: int| 0 <= m2 < i + 1 && roots@[m2] == roots@[k])
                        implies (#[trigger] rm@[k]) == pick_rep_spec(
                    class_chars(roots@, roots@[k]),
                ) && in_universe(rm@[k]) && roots@[uidx(rm@[k])] == roots@[k] by {
                    let m2 = choose|m2: int| 0 <= m2 < i + 1 && roots@[m2] == roots@[k];
                    if m2 == i {
                        let t = choose|t: int| 0 <= t < i && roots@[t] == roots@[i as int];
                        assert(0 <= t < i && roots@[t] == roots@[k]);
                    }
                }
            }
        }
        i = i + 1;
    }
    proof {
        assert forall|i2: int| 0 <= i2 < 95 implies (#[trigger] rm@[i2]) == pick_rep_spec(
            class_chars(roots@, roots@[i2]),
        ) && in_universe(rm@[i2]) && roots@[uidx(rm@[i2])] == roots@[i2] by {
            assert(0 <= i2 < 95 && roots@[i2] == roots@[i2]);
        }
    }
    rm
}

/// Some index of `rm` holds the character `c`.
pub open spec fn contains_char(rm: Seq<char>, c: char) -> bool {
    exists|j: int| 0 <= j < rm.len() && rm[j] == c
}

/// The distinct values of `rm` with code below `cp`, ascending.
pub open spec fn wit_prefix(rm: Seq<char>, cp: int) -> Seq<char>
    decreases cp,
{
    if cp <= 0x20 {
        Seq::empty()
    } else if contains_char(rm, ((cp - 1) as u8) as char) {
        wit_prefix(rm, cp - 1).push(((cp - 1) as u8) as char)
    } else {
        wit_prefix(rm, cp - 1)
    }
}

/// The witness alphabet of a representative map: its distinct values in
/// ascending code order.
pub open spec fn witness_of(rm: Seq<char>) -> Seq<char> {
    wit_prefix(rm, 0x7f)
}

proof fn lemma_wit_prefix_props(rm: Seq<char>, cp: int)
    requires
        0x20 <= cp <= 0x7f,
    ensures
        forall|t: int|
            0 <= t < wit_prefix(rm, cp).len() ==> 0x20 <= ((#[trigger] wit_prefix(rm, cp)[t])
                as u32) && ((wit_prefix(rm, cp)[t]) as u32) < cp && contains_char(
                rm,
                wit_prefix(rm, cp)[t],
            ),
        forall|t1: int, t2: int|
            0 <= t1 < t2 < wit_prefix(rm, cp).len() ==> ((#[trigger] wit_prefix(rm, cp)[t1])
                as u32) < ((#[trigger] wit_prefix(rm, cp)[t2]) as u32),
        forall|c: char|
            0x20 <= c as u32 && (c as u32) < cp && #[trigger] contains_char(rm, c) ==> wit_prefix(
                rm,
                cp,
            ).contains(c),
    decreases cp,
{
    if cp > 0x20 {
        lemma_wit_prefix_props(rm, cp - 1);
        let prev = wit_prefix(rm, cp - 1);
        let cur = wit_prefix(rm, cp);
        let newc = ((cp - 1) as u8) as char;
        assert(newc as u32 == cp - 1);
        assert forall|c: char|
            0x20 <= c as u32 && (c as u32) < cp && #[trigger] contains_char(rm, c) implies cur.contains(
            c,
        ) by {
            if (c as u32) < cp - 1 {
                assert(prev.contains(c));
                let t = choose|t: int| 0 <= t < prev.len() && prev[t] == c;
                assert(cur[t] == c);
            } else {
                assert(c as u32 == cp - 1);
                vstd::utf8::char_u32_cast(c, (cp - 1) as u32);
                vstd::utf8::char_u32_cast(newc, (cp - 1) as u32);
                assert(c == newc);
                assert(cur.last() == newc);
            }
        }
    }
}

/// Collects the witness alphabet of a representative map.
fn build_witness(rm: &Vec<char>) -> (w: Vec<char>)
    requires
        rm@.len() == 95,
    ensures
        w@ == witness_of(rm@),
{
    let mut w: Vec<char> = Vec::new();
    let mut cp: u32 = 0x20;
    while cp < 0x7f
        invariant
            0x20 <= cp <= 0x7f,
            rm@.len() == 95,
            w@ == wit_prefix(rm@, cp as int),
        decreases 0x7f - cp,
    {
        let c: char = (cp as u8) as char;
        let mut found: bool = false;
        let mut j: usize = 0;
        while j < 95
            invariant
                j <= 95,
                rm@.len() == 95,
                found <==> (exists|t: int| 0 <= t < j && rm@[t] == c),
            decreases 95 - j,
        {
            if rm[j] == c {
                found = true;
            }
            j = j + 1;
        }
        if found {
            w.push(c);
        }
        proof {
            assert(found <==> contains_char(rm@, c));
            assert(c == ((cp as int + 1 - 1) as u8) as char);
            assert(w@ == wit_prefix(rm@, cp as int + 1));
        }
        cp = cp + 1;
    }
    w
}

/// The universe bytes, one per symbol, in code order.
pub open spec fn universe_bytes() -> Seq<u8> {
    Seq::new(95, |i: int| (0x20 + i) as u8)
}

/// The bytes of the members of the class with representative `c`, among the
/// first `j` indices, ascending.
pub open spec fn members_bytes(rm: Seq<char>, c: char, j: int) -> Seq<u8>
    decreases j,
{
    if j <= 0 {
        Seq::empty()
    } else if rm[j - 1] == c {
        members_bytes(rm, c, j - 1).push((0x20 + j - 1) as u8)
    } else {
        members_bytes(rm, c, j - 1)
    }
}

/// Per class, in witness order: a separator byte, then the class members.
pub open spec fn classes_bytes(rm: Seq<char>, w: Seq<char>, k: int) -> Seq<u8>
    decreases k,
{
    if k <= 0 {
        Seq::empty()
    } else {
        classes_bytes(rm, w, k - 1) + seq![0u8] + members_bytes(rm, w[k - 1], 95)
    }
}

/// ASCII characters, one byte each.
pub open spec fn chars_bytes(s: Seq<char>) -> Seq<u8> {
    Seq::new(s.len(), |i: int| s[i] as u8)
}

/// Everything the structural hash covers: the universe, each class's
/// members in order of its representative, and the witness alphabet.
pub open spec fn graph_preimage(rm: Seq<char>, w: Seq<char>) -> Seq<u8> {
    universe_bytes() + classes_bytes(rm, w, w.len() as int) + seq![1u8] + chars_bytes(w)
}

/// Builds the bytes that the structural hash covers.
fn graph_bytes(rm: &Vec<char>, w: &Vec<char>) -> (out: Vec<u8>)
    requires
        rm@.len() == 95,
        forall|t: int| 0 <= t < w@.len() ==> in_universe(#[trigger] w@[t]),
    ensures
        out@ == graph_preimage(rm@, w@),
{
    let mut out: Vec<u8> = Vec::new();
    let mut i: usize = 0;
    while i < 95
        invariant
            i <= 95,
            out@.len() == i,
            forall|t: int| 0 <= t < i ==> (#[trigger] out@[t]) == (0x20 + t) as u8,
        decreases 95 - i,
    {
        out.push((0x20 + i) as u8);
        i = i + 1;
    }
    proof {
        assert(out@ =~= universe_bytes());
    }
    let ghost ubytes = out@;
    let mut k: usize = 0;
    while k < w.len()
        invariant
            k <= w@.len(),
            rm@.len() == 95,
            out@ == ubytes + classes_bytes(rm@, w@, k as int),
            ubytes == universe_bytes(),
        decreases w@.len() - k,
    {
        out.push(0u8);
        let c = w[k];
        let ghost mid = out@;
        let mut j: usize = 0;
        while j < 95
            invariant
                j <= 95,
                rm@.len() == 95,
                c == w@[k as int],
                out@ == mid + members_bytes(rm@, c, j as int),
            decreases 95 - j,
        {
            if rm[j] == c {
                out.push((0x20 + j) as u8);
            }
            j = j + 1;
        }
        proof {
            assert(out@ =~= ubytes + classes_bytes(rm@, w@, k as int + 1));
        }
        k = k + 1;
    }
    out.push(1u8);
    let ghost with_sep = out@;
    let mut t: usize = 0;
    while t < w.len()
        invariant
            t <= w@.len(),
            forall|q: int| 0 <= q < w@.len() ==> in_universe(#[trigger] w@[q]),
            out@.len() == with_sep.len() + t,
            out@ == with_sep + chars_bytes(w@).take(t as int),
            with_sep == ubytes + classes_bytes(rm@, w@, w@.len() as int) + seq![1u8],
            ubytes == universe_bytes(),
        decreases w@.len() - t,
    {
        let c = w[t];
        let u: u32 = c as u32;
        out.push(u as u8);
        proof {
            assert(chars_bytes(w@).take(t as int + 1) =~= chars_bytes(w@).take(t as int).push(
                w@[t as int] as u8,
            ));
            assert(out@ =~= with_sep + chars_bytes(w@).take(t as int + 1));
        }
        t = t + 1;
    }
    proof {
        assert(chars_bytes(w@).take(w@.len() as int) =~= chars_bytes(w@));
        assert(out@ =~= graph_preimage(rm@, w@));
    }
    out
}

/// The class of the representative `c`, read off the map itself: the
/// universe symbols whose entry is `c`, ascending, among the first `j`.
pub open spec fn rm_class_prefix(rm: Seq<char>, c: char, j: int) -> Seq<char>
    decreases j,
{
    if j <= 0 {
        Seq::empty()
    } else if rm[j - 1] == c {
        rm_class_prefix(rm, c, j - 1).push(universe_char(j - 1))
    } else {
        rm_class_prefix(rm, c, j - 1)
    }
}

/// The whole class of the representative `c`.
pub open spec fn rm_class(rm: Seq<char>, c: char) -> Seq<char> {
    rm_class_prefix(rm, c, 95)
}

proof fn lemma_filter_transfer(roots: Seq<usize>, r: usize, rm: Seq<char>, c: char, j: int)
    requires
        roots.len() == 95,
        rm.len() == 95,
        0 <= j <= 95,
        forall|k: int| 0 <= k < 95 ==> ((#[trigger] roots[k]) == r <==> rm[k] == c),
    ensures
        class_prefix(roots, r, j) == rm_class_prefix(rm, c, j),
    decreases j,
{
    if j > 0 {
        lemma_filter_transfer(roots, r, rm, c, j - 1);
    }
}

/// A compiled normalization profile: the fixed universe, the map from each
/// universe symbol to its class representative, the sorted alphabet of
/// representatives, and a hash of the partition's structure.
#[derive(Clone, Debug)]
pub struct Asc7Profile {
    pub params: Asc7ProfileParams,
    pub universe: Vec<char>,
    pub rep_map: Vec<char>,
    pub witness_alphabet: Vec<char>,
    pub graph_hash: [u8; 32],
}

/// Structural soundness of a profile: the universe is the 95 printable
/// symbols; every entry of the map is a universe symbol and a fixed point
/// of the map; the witness alphabet holds exactly the map's values, in
/// strictly ascending order.
pub open spec fn profile_wf(p: &Asc7Profile) -> bool {
    &&& p.universe@.len() == 95
    &&& (forall|i: int| 0 <= i < 95 ==> (#[trigger] p.universe@[i]) == universe_char(i))
    &&& p.rep_map@.len() == 95
    &&& (forall|i: int| 0 <= i < 95 ==> in_universe(#[trigger] p.rep_map@[i]))
    &&& (forall|i: int|
        0 <= i < 95 ==> p.rep_map@[uidx(#[trigger] p.rep_map@[i])] == p.rep_map@[i])
    &&& (forall|i: int| 0 <= i < 95 ==> p.witness_alphabet@.contains(#[trigger] p.rep_map@[i]))
    &&& (forall|k: int|
        0 <= k < p.witness_alphabet@.len() ==> contains_char(
            p.rep_map@,
            #[trigger] p.witness_alphabet@[k],
        ))
    &&& (forall|k1: int, k2: int|
        0 <= k1 < k2 < p.witness_alphabet@.len() ==> ((#[trigger] p.witness_alphabet@[k1]) as u32)
            < ((#[trigger] p.witness_alphabet@[k2]) as u32))
}

/// Exactness of a profile against its own parameters: the classes are
/// precisely those that the permitted merges dictate, each representative is
/// picked from its class by the fixed rule, the witness alphabet is the
/// map's value set, and the hash covers the partition bytes.
pub open spec fn profile_exact(p: &Asc7Profile) -> bool {
    &&& (forall|a: int, b: int|
        0 <= a < 95 && 0 <= b < 95 ==> ((#[trigger] p.rep_map@[a]) == (#[trigger] p.rep_map@[b])
            <==> profile_labels(&p.params)[a] == profile_labels(&p.params)[b]))
    &&& (forall|i: int|
        0 <= i < 95 ==> (#[trigger] p.rep_map@[i]) == pick_rep_spec(
            rm_class(p.rep_map@, p.rep_map@[i]),
        ))
    &&& p.witness_alphabet@ == witness_of(p.rep_map@)
    &&& p.graph_hash@ == sha256_of(graph_preimage(p.rep_map@, p.witness_alphabet@))
}

/// The printable symbol universe, in code-point order.
pub fn ascii_universe() -> (r: Vec<char>)
    ensures
        r@.len() == 95,
        forall|i: int| 0 <= i < 95 ==> (#[trigger] r@[i]) == universe_char(i),
{
    let mut v: Vec<char> = Vec::new();
    let mut b: u8 = 0x20;
    while b <= 0x7e
        invariant
            0x20 <= b <= 0x7f,
            v@.len() == b - 0x20,
            forall|i: int| 0 <= i < v@.len() ==> (#[trigger] v@[i]) == universe_char(i),
        decreases 0x7f - b,
    {
        v.push(b as char);
        b = b + 1;
    }
    v
}

impl Asc7Profile {
    /// Compiles a profile: merges the permitted pairs over the universe, groups the
    /// indices into classes, picks representatives, and hashes the result.
    pub fn compile(params: Asc7ProfileParams) -> (r: Asc7Profile)
        ensures
            profile_wf(&r),
            profile_exact(&r),
            r.params == params,
    {
        let universe = ascii_universe();
        let roots = merged_roots(&params);
        let rep_map = build_rep_map(&roots);
        proof {
            assert forall|a: int, b: int| 0 <= a < 95 && 0 <= b < 95 implies ((
            #[trigger] rep_map@[a]) == (#[trigger] rep_map@[b]) <==> roots@[a] == roots@[b]) by {
                if roots@[a] == roots@[b] {
                    assert(class_chars(roots@, roots@[a]) == class_chars(roots@, roots@[b]));
                }
                if rep_map@[a] == rep_map@[b] {
                    assert(roots@[uidx(rep_map@[a])] == roots@[a]);
                    assert(roots@[uidx(rep_map@[b])] == roots@[b]);
                }
            }
            assert forall|i: int| 0 <= i < 95 implies (#[trigger] rep_map@[i]) == pick_rep_spec(
                rm_class(rep_map@, rep_map@[i]),
            ) by {
                assert forall|k: int| 0 <= k < 95 implies ((#[trigger] roots@[k]) == roots@[i]
                    <==> rep_map@[k] == rep_map@[i]) by {}
                lemma_filter_transfer(roots@, roots@[i], rep_map@, rep_map@[i], 95);
            }
            assert forall|i: int| 0 <= i < 95 implies rep_map@[uidx(#[trigger] rep_map@[i])]
                == rep_map@[i] by {
                assert(roots@[uidx(rep_map@[i])] == roots@[i]);
            }
        }
        let witness_alphabet = build_witness(&rep_map);
        proof {
            lemma_wit_prefix_props(rep_map@, 0x7f);
            assert forall|i: int| 0 <= i < 95 implies witness_alphabet@.contains(
                #[trigger] rep_map@[i],
            ) by {
                assert(0 <= i < rep_map@.len() && rep_map@[i] == rep_map@[i]);
                assert(contains_char(rep_map@, rep_map@[i]));
            }
            assert forall|t: int| 0 <= t < witness_alphabet@.len() implies in_universe(
                #[trigger] witness_alphabet@[t],
            ) by {
                assert(contains_char(rep_map@, witness_alphabet@[t]));
                let j = choose|j: int|
                    0 <= j < rep_map@.len() && rep_map@[j] == witness_alphabet@[t];
                assert(in_universe(rep_map@[j]));
            }
        }
        let bytes = graph_bytes(&rep_map, &witness_alphabet);
        let digest = sha256_bytes(bytes.as_slice());
        let graph_hash = digest.0;
        Asc7Profile { params, universe, rep_map, witness_alphabet, graph_hash }
    }

    /// The representative of `ch`, or nothing when `ch` lies outside the
    /// universe.
    pub fn rep(&self, ch: char) -> (r: Option<char>)
        requires
            profile_wf(self),
        ensures
            r == spec_rep(self, ch),
    {
        let u: u32 = ch as u32;
        if !(0x20 <= u && u <= 0x7e) {
            return None;
        }
        let i: usize = (u - 0x20) as usize;
        Some(self.rep_map[i])
    }
}

/// What normalization does to one character: universe symbols map to their
/// representative, anything else has no mapping.
pub open spec fn spec_rep(p: &Asc7Profile, ch: char) -> Option<char> {
    if in_universe(ch) {
        Some(p.rep_map@[uidx(ch)])
    } else {
        None
    }
}

impl Asc7Profile {
    /// The strict profile merging the zero-like, one-like and quote-like
    /// glyph groups, with no case folding.
    pub fn code_safe() -> (r: Asc7Profile)
        ensures
            profile_wf(&r),
            profile_exact(&r),
            r.params.name@ == "code_safe"@,
            r.params.syntax_strict == true,
            gc_view(&r.params) == seq![seq!['0', 'O', 'o'], seq!['1', 'l', 'I', '|'], seq!['\'', '`']],
            r.params.case_pairs@ == Seq::<(char, char)>::empty(),
    {
        let mut g1: Vec<char> = Vec::new();
        g1.push('0');
        g1.push('O');
        g1.push('o');
        let mut g2: Vec<char> = Vec::new();
        g2.push('1');
        g2.push('l');
        g2.push('I');
        g2.push('|');
        let mut g3: Vec<char> = Vec::new();
        g3.push('\'');
        g3.push('`');
        let mut glyph_classes: Vec<Vec<char>> = Vec::new();
        proof {
            assert(g1@ =~= seq!['0', 'O', 'o']);
            assert(g2@ =~= seq!['1', 'l', 'I', '|']);
            assert(g3@ =~= seq!['\'', '`']);
        }
        glyph_classes.push(g1);
        glyph_classes.push(g2);
        glyph_classes.push(g3);
        let params = Asc7ProfileParams {
            name: String::from_str("code_safe"),
            syntax_strict: true,
            glyph_classes,
            case_pairs: Vec::new(),
        };
        proof {
            assert(gc_view(&params) =~= seq![
                seq!['0', 'O', 'o'],
                seq!['1', 'l', 'I', '|'],
                seq!['\'', '`'],
            ]);
        }
        Asc7Profile::compile(params)
    }

    /// The strict profile that adds full letter case folding on top of the
    /// glyph groups of [`Asc7Profile::code_safe`].
    pub fn auth_safe() -> (r: Asc7Profile)
        ensures
            profile_wf(&r),
            profile_exact(&r),
            r.params.name@ == "auth_safe"@,
            r.params.syntax_strict == true,
            gc_view(&r.params) == seq![seq!['0', 'O', 'o'], seq!['1', 'l', 'I', '|'], seq!['\'', '`']],
            r.params.case_pairs@.len() == 26,
            forall|k: int|
                0 <= k < 26 ==> (#[trigger] r.params.case_pairs@[k]) == (
                    ((0x61 + k) as u8) as char,
                    ((0x41 + k) as u8) as char,
                ),
    {
        let mut g1: Vec<char> = Vec::new();
        g1.push('0');
        g1.push('O');
        g1.push('o');
        let mut g2: Vec<char> = Vec::new();
        g2.push('1');
        g2.push('l');
        g2.push('I');
        g2.push('|');
        let mut g3: Vec<char> = Vec::new();
        g3.push('\'');
        g3.push('`');
        let mut glyph_classes: Vec<Vec<char>> = Vec::new();
        proof {
            assert(g1@ =~= seq!['0', 'O', 'o']);
            assert(g2@ =~= seq!['1', 'l', 'I', '|']);
            assert(g3@ =~= seq!['\'', '`']);
        }
        glyph_classes.push(g1);
        glyph_classes.push(g2);
        glyph_classes.push(g3);
        let mut case_pairs: Vec<(char, char)> = Vec::new();
        let mut k: u8 = 0;
        while k < 26
            invariant
                k <= 26,
                case_pairs@.len() == k as int,
                forall|t: int|
                    0 <= t < k as int ==> (#[trigger] case_pairs@[t]) == (
                        ((0x61 + t) as u8) as char,
                        ((0x41 + t) as u8) as char,
                    ),
            decreases 26 - k,
        {
            let lo: char = ((0x61 + k) as u8) as char;
            let hi: char = ((0x41 + k) as u8) as char;
            case_pairs.push((lo, hi));
            k = k + 1;
        }
        let params = Asc7ProfileParams {
            name: String::from_str("auth_safe"),
            syntax_strict: true,
            glyph_classes,
            case_pairs,
        };
        proof {
            assert(gc_view(&params) =~= seq![
                seq!['0', 'O', 'o'],
                seq!['1', 'l', 'I', '|'],
                seq!['\'', '`'],
            ]);
        }
        Asc7Profile::compile(params)
    }
}

/// The canonical payload of a profile certificate: the structural hash in
/// hex, the profile's name, its strictness switch, and the witness-alphabet
/// size, keys ascending.
pub open spec fn asc7_cert_payload(p: &Asc7Profile) -> CanonView {
    CanonView::Obj(
        seq![
            ("graph_hash_hex"@, CanonView::Str(hex_of(p.graph_hash@))),
            ("profile_name"@, CanonView::Str(p.params.name@)),
            ("syntax_strict"@, CanonView::Bool(p.params.syntax_strict)),
            ("witness_len"@, CanonView::U64(p.witness_alphabet@.len() as int)),
        ],
    )
}

/// The kernel certificate of a compiled profile. The hash covers only the
/// payload; the certificate name and version are uncovered metadata.
pub fn asc7_kernel_cert(p: &Asc7Profile) -> (r: KernelCert)
    ensures
        r.kernel_name@ == "asc7"@,
        r.kernel_version@ == "1.0.0"@,
        r.payload@ == asc7_cert_payload(p),
        r.kernel_hash.0@ == sha256_of(encode_canon(asc7_cert_payload(p))),
{
    let mut obj: Vec<(String, Canon)> = Vec::new();
    obj.push((String::from_str("graph_hash_hex"), Canon::Str(digest_bytes_hex(&p.graph_hash))));
    obj.push((String::from_str("profile_name"), Canon::Str(p.params.name.clone())));
    obj.push((String::from_str("syntax_strict"), Canon::Bool(p.params.syntax_strict)));
    obj.push((String::from_str("witness_len"), Canon::U64(p.witness_alphabet.len() as u64)));
    let payload = Canon::Obj(obj);
    proof {
        lemma_canon_view_pairs_index(obj@);
        assert(canon_view_pairs(obj@) =~= asc7_cert_payload(p)->Obj_0);
    }
    KernelCert::new("asc7", "1.0.0", payload)
}

} // verus!
