//! Specification of the merge pass, and the laws it obeys.
//!
//! The merge folds the scanned rule records, in scan order, into one entry
//! per distinct target: a record whose target is new appends an entry at the
//! end, and a record whose target was already seen extends that entry's
//! prerequisite list with the tokens not already present, keeping first-seen
//! order throughout.

use vstd::prelude::*;

use crate::scan::RuleView;

verus! {

/// The index of the first entry with target `t`, or `-1` when there is none.
pub open spec fn find_target(s: Seq<RuleView>, t: Seq<u8>) -> int
    decreases s.len(),
{
    if s.len() == 0 {
        -1
    } else if s[0].target == t {
        0
    } else {
        let r = find_target(s.drop_first(), t);
        if r < 0 {
            -1
        } else {
            r + 1
        }
    }
}

/// `acc` extended by the elements of `xs` not already present, in order.
pub open spec fn dedup_append(acc: Seq<Seq<u8>>, xs: Seq<Seq<u8>>) -> Seq<Seq<u8>>
    decreases xs.len(),
{
    if xs.len() == 0 {
        acc
    } else if acc.contains(xs[0]) {
        dedup_append(acc, xs.drop_first())
    } else {
        dedup_append(acc.push(xs[0]), xs.drop_first())
    }
}

/// One merge step: fold the record `r` into the entries `acc`.
pub open spec fn merge_rule(acc: Seq<RuleView>, r: RuleView) -> Seq<RuleView> {
    let k = find_target(acc, r.target);
    if k < 0 {
        acc.push(
            RuleView { target: r.target, prerequisites: dedup_append(Seq::empty(), r.prerequisites) },
        )
    } else {
        acc.update(
            k,
            RuleView {
                target: acc[k].target,
                prerequisites: dedup_append(acc[k].prerequisites, r.prerequisites),
            },
        )
    }
}

/// The merged entry collection of a sequence of rule records.
pub open spec fn spec_merge(rules: Seq<RuleView>) -> Seq<RuleView>
    decreases rules.len(),
{
    if rules.len() == 0 {
        Seq::empty()
    } else {
        merge_rule(spec_merge(rules.drop_last()), rules.last())
    }
}

/// No element of `s` occurs twice.
pub open spec fn no_dup(s: Seq<Seq<u8>>) -> bool {
    forall|p: int, q: int| 0 <= p < q < s.len() ==> s[p] != s[q]
}

/// The targets of a sequence of entries, in order.
pub open spec fn targets_of(s: Seq<RuleView>) -> Seq<Seq<u8>> {
    s.map_values(|r: RuleView| r.target)
}

/// Well-formedness of a merged entry collection: targets pairwise distinct,
/// and no prerequisite repeated within one entry.
pub open spec fn entries_wf(s: Seq<RuleView>) -> bool {
    &&& no_dup(targets_of(s))
    &&& forall|k: int| 0 <= k < s.len() ==> no_dup(#[trigger] s[k].prerequisites)
}

/// The concatenation of the prerequisite lists of all records in `rules`
/// whose target is `t`, in scan order.
pub open spec fn prereqs_of(rules: Seq<RuleView>, t: Seq<u8>) -> Seq<Seq<u8>>
    decreases rules.len(),
{
    if rules.len() == 0 {
        Seq::empty()
    } else if rules.last().target == t {
        prereqs_of(rules.drop_last(), t) + rules.last().prerequisites
    } else {
        prereqs_of(rules.drop_last(), t)
    }
}

pub proof fn lemma_dedup_snoc(acc: Seq<Seq<u8>>, xs: Seq<Seq<u8>>, x: Seq<u8>)
    ensures
        dedup_append(acc, xs.push(x)) == (if dedup_append(acc, xs).contains(x) {
            dedup_append(acc, xs)
        } else {
            dedup_append(acc, xs).push(x)
        }),
    decreases xs.len(),
{
    if xs.len() == 0 {
        assert(xs.push(x)[0] == x);
        assert(xs.push(x).drop_first() =~= Seq::<Seq<u8>>::empty());
        assert(dedup_append(acc, Seq::<Seq<u8>>::empty()) == acc);
        assert(dedup_append(acc.push(x), Seq::<Seq<u8>>::empty()) == acc.push(x));
    } else {
        assert(xs.push(x)[0] == xs[0]);
        assert(xs.push(x).drop_first() =~= xs.drop_first().push(x));
        if acc.contains(xs[0]) {
            lemma_dedup_snoc(acc, xs.drop_first(), x);
        } else {
            lemma_dedup_snoc(acc.push(xs[0]), xs.drop_first(), x);
        }
    }
}

pub proof fn lemma_dedup_contains(acc: Seq<Seq<u8>>, xs: Seq<Seq<u8>>, y: Seq<u8>)
    ensures
        dedup_append(acc, xs).contains(y) <==> acc.contains(y) || xs.contains(y),
    decreases xs.len(),
{
    if xs.len() > 0 {
        if acc.contains(xs[0]) {
            lemma_dedup_contains(acc, xs.drop_first(), y);
        } else {
            lemma_dedup_contains(acc.push(xs[0]), xs.drop_first(), y);
            assert(acc.push(xs[0]).contains(y) <==> acc.contains(y) || xs[0] == y) by {
                if acc.contains(y) {
                    let w = choose|w: int| 0 <= w < acc.len() && acc[w] == y;
                    assert(acc.push(xs[0])[w] == y);
                }
                if xs[0] == y {
                    assert(acc.push(xs[0])[acc.len() as int] == y);
                }
                if acc.push(xs[0]).contains(y) {
                    let w = choose|w: int| 0 <= w < acc.push(xs[0]).len() && acc.push(xs[0])[w]
                        == y;
                    if w < acc.len() {
                        assert(acc[w] == y);
                    }
                }
            }
        }
        assert(xs.contains(y) <==> xs[0] == y || xs.drop_first().contains(y)) by {
            if xs.contains(y) {
                let w = choose|w: int| 0 <= w < xs.len() && xs[w] == y;
                if w > 0 {
                    assert(xs.drop_first()[w - 1] == y);
                }
            }
            if xs.drop_first().contains(y) {
                let w = choose|w: int|
                    0 <= w < xs.drop_first().len() && xs.drop_first()[w] == y;
                assert(xs[w + 1] == y);
            }
        }
    }
}

/// `dedup_append` only appends: the accumulator stays as a prefix.
pub proof fn lemma_dedup_prefix(acc: Seq<Seq<u8>>, xs: Seq<Seq<u8>>)
    ensures
        dedup_append(acc, xs).len() >= acc.len(),
        forall|k: int| 0 <= k < acc.len() ==> dedup_append(acc, xs)[k] == acc[k],
    decreases xs.len(),
{
    if xs.len() > 0 {
        if acc.contains(xs[0]) {
            lemma_dedup_prefix(acc, xs.drop_first());
        } else {
            lemma_dedup_prefix(acc.push(xs[0]), xs.drop_first());
            assert forall|k: int| 0 <= k < acc.len() implies dedup_append(acc, xs)[k]
                == acc[k] by {
                assert(dedup_append(acc.push(xs[0]), xs.drop_first())[k] == acc.push(xs[0])[k]);
                assert(acc.push(xs[0])[k] == acc[k]);
            }
        }
    }
}

pub proof fn lemma_dedup_no_dup(acc: Seq<Seq<u8>>, xs: Seq<Seq<u8>>)
    requires
        no_dup(acc),
    ensures
        no_dup(dedup_append(acc, xs)),
    decreases xs.len(),
{
    if xs.len() > 0 {
        if acc.contains(xs[0]) {
            lemma_dedup_no_dup(acc, xs.drop_first());
        } else {
            assert(no_dup(acc.push(xs[0]))) by {
                assert forall|p: int, q: int| 0 <= p < q < acc.push(xs[0]).len() implies acc.push(
                    xs[0],
                )[p] != acc.push(xs[0])[q] by {
                    if q == acc.len() {
                        assert(acc.push(xs[0])[q] == xs[0]);
                        if acc[p] == xs[0] {
                            assert(acc.contains(xs[0]));
                        }
                    }
                }
            }
            lemma_dedup_no_dup(acc.push(xs[0]), xs.drop_first());
        }
    }
}

/// On a duplicate-free sequence disjoint from the accumulator, the dedup is
/// a plain append.
pub proof fn lemma_dedup_identity(acc: Seq<Seq<u8>>, xs: Seq<Seq<u8>>)
    requires
        no_dup(xs),
        forall|k: int| 0 <= k < xs.len() ==> !acc.contains(#[trigger] xs[k]),
    ensures
        dedup_append(acc, xs) == acc + xs,
    decreases xs.len(),
{
    if xs.len() == 0 {
        assert(dedup_append(acc, xs) =~= acc + xs);
    } else {
        assert(!acc.contains(xs[0]));
        assert(no_dup(xs.drop_first()));
        assert forall|k: int| 0 <= k < xs.drop_first().len() implies !acc.push(xs[0]).contains(
            #[trigger] xs.drop_first()[k],
        ) by {
            assert(xs.drop_first()[k] == xs[k + 1]);
            if acc.push(xs[0]).contains(xs[k + 1]) {
                let w = choose|w: int|
                    0 <= w < acc.push(xs[0]).len() && acc.push(xs[0])[w] == xs[k + 1];
                if w < acc.len() {
                    assert(acc.contains(xs[k + 1]));
                } else {
                    assert(xs[0] == xs[k + 1]);
                }
            }
        }
        lemma_dedup_identity(acc.push(xs[0]), xs.drop_first());
        assert(acc.push(xs[0]) + xs.drop_first() =~= acc + xs);
    }
}

/// Dedup of a concatenation: fold the first part, then the second.
pub proof fn lemma_dedup_concat(acc: Seq<Seq<u8>>, xs: Seq<Seq<u8>>, ys: Seq<Seq<u8>>)
    ensures
        dedup_append(acc, xs + ys) == dedup_append(dedup_append(acc, xs), ys),
    decreases xs.len(),
{
    if xs.len() == 0 {
        assert(xs + ys =~= ys);
    } else {
        assert((xs + ys)[0] == xs[0]);
        assert((xs + ys).drop_first() =~= xs.drop_first() + ys);
        if acc.contains(xs[0]) {
            lemma_dedup_concat(acc, xs.drop_first(), ys);
        } else {
            lemma_dedup_concat(acc.push(xs[0]), xs.drop_first(), ys);
        }
    }
}

pub proof fn lemma_find_target(s: Seq<RuleView>, t: Seq<u8>)
    ensures
        find_target(s, t) < 0 ==> !targets_of(s).contains(t),
        find_target(s, t) >= 0 ==> 0 <= find_target(s, t) < s.len() && s[find_target(s, t)].target
            == t,
        find_target(s, t) >= 0 ==> forall|k: int|
            0 <= k < find_target(s, t) ==> (#[trigger] s[k]).target != t,
    decreases s.len(),
{
    if s.len() > 0 && s[0].target != t {
        lemma_find_target(s.drop_first(), t);
        let r = find_target(s.drop_first(), t);
        if r < 0 {
            assert forall|k: int| 0 <= k < targets_of(s).len() implies #[trigger] targets_of(s)[k]
                != t by {
                if k > 0 {
                    assert(targets_of(s.drop_first())[k - 1] == s.drop_first()[k - 1].target);
                    assert(!targets_of(s.drop_first()).contains(t));
                }
            }
        } else {
            assert forall|k: int| 0 <= k < find_target(s, t) implies (#[trigger] s[k]).target
                != t by {
                if k > 0 {
                    assert(s.drop_first()[k - 1].target != t);
                }
            }
        }
    }
}

pub proof fn lemma_find_target_present(s: Seq<RuleView>, t: Seq<u8>)
    ensures
        find_target(s, t) >= 0 <==> targets_of(s).contains(t),
{
    lemma_find_target(s, t);
    if find_target(s, t) >= 0 {
        assert(targets_of(s)[find_target(s, t)] == t);
    }
}


pub proof fn lemma_prereqs_of_absent(rules: Seq<RuleView>, t: Seq<u8>)
    requires
        !targets_of(rules).contains(t),
    ensures
        prereqs_of(rules, t) == Seq::<Seq<u8>>::empty(),
    decreases rules.len(),
{
    if rules.len() > 0 {
        assert(targets_of(rules)[rules.len() - 1] == rules.last().target);
        assert(rules.last().target != t);
        assert forall|k: int| 0 <= k < targets_of(rules.drop_last()).len() implies #[trigger] targets_of(
            rules.drop_last(),
        )[k] != t by {
            assert(targets_of(rules)[k] == rules[k].target);
        }
        lemma_prereqs_of_absent(rules.drop_last(), t);
    }
}

/// The targets of the merged collection are the input targets with
/// duplicates removed, first occurrences kept in order.
pub proof fn lemma_merge_targets(rules: Seq<RuleView>)
    ensures
        targets_of(spec_merge(rules)) == dedup_append(Seq::empty(), targets_of(rules)),
    decreases rules.len(),
{
    if rules.len() == 0 {
        assert(targets_of(spec_merge(rules)) =~= Seq::<Seq<u8>>::empty());
        assert(targets_of(rules) =~= Seq::<Seq<u8>>::empty());
        assert(dedup_append(Seq::empty(), Seq::<Seq<u8>>::empty())
            =~= Seq::<Seq<u8>>::empty());
    } else {
        let prefix = rules.drop_last();
        let r = rules.last();
        let m = spec_merge(prefix);
        lemma_merge_targets(prefix);
        assert(targets_of(rules) =~= targets_of(prefix).push(r.target));
        lemma_dedup_snoc(Seq::empty(), targets_of(prefix), r.target);
        lemma_find_target_present(m, r.target);
        let k = find_target(m, r.target);
        if k < 0 {
            assert(targets_of(spec_merge(rules)) =~= targets_of(m).push(r.target));
        } else {
            lemma_find_target(m, r.target);
            assert(targets_of(m).contains(r.target));
            assert(targets_of(spec_merge(rules)) =~= targets_of(m));
        }
    }
}

/// Dedup correctness: after the merge no two entries share a target, and no
/// entry's prerequisite list repeats a token.
pub proof fn lemma_merge_dedup(rules: Seq<RuleView>)
    ensures
        entries_wf(spec_merge(rules)),
    decreases rules.len(),
{
    lemma_merge_targets(rules);
    assert(no_dup(Seq::<Seq<u8>>::empty()));
    lemma_dedup_no_dup(Seq::empty(), targets_of(rules));
    if rules.len() > 0 {
        let prefix = rules.drop_last();
        let r = rules.last();
        let m = spec_merge(prefix);
        lemma_merge_dedup(prefix);
        let k = find_target(m, r.target);
        let merged = spec_merge(rules);
        assert forall|j: int| 0 <= j < merged.len() implies no_dup(
            #[trigger] merged[j].prerequisites,
        ) by {
            if k < 0 {
                if j < m.len() {
                    assert(merged[j] == m[j]);
                } else {
                    assert(merged[j].prerequisites == dedup_append(
                        Seq::empty(),
                        r.prerequisites,
                    ));
                    assert(no_dup(Seq::<Seq<u8>>::empty()));
                    lemma_dedup_no_dup(Seq::empty(), r.prerequisites);
                }
            } else {
                lemma_find_target(m, r.target);
                if j == k {
                    lemma_dedup_no_dup(m[k].prerequisites, r.prerequisites);
                } else {
                    assert(merged[j] == m[j]);
                }
            }
        }
    }
}

/// A collection that is already merged is a fixpoint of the merge.
pub proof fn lemma_merge_fixpoint(s: Seq<RuleView>)
    requires
        entries_wf(s),
    ensures
        spec_merge(s) == s,
    decreases s.len(),
{
    if s.len() == 0 {
        assert(spec_merge(s) =~= s);
    } else {
        let prefix = s.drop_last();
        let r = s.last();
        assert(entries_wf(prefix)) by {
            assert forall|p: int, q: int| 0 <= p < q < targets_of(prefix).len() implies targets_of(
                prefix,
            )[p] != targets_of(prefix)[q] by {
                assert(targets_of(s)[p] == s[p].target);
                assert(targets_of(s)[q] == s[q].target);
            }
            assert forall|j: int| 0 <= j < prefix.len() implies no_dup(
                #[trigger] prefix[j].prerequisites,
            ) by {
                assert(prefix[j] == s[j]);
            }
        }
        lemma_merge_fixpoint(prefix);
        lemma_find_target(prefix, r.target);
        let k = find_target(prefix, r.target);
        if k >= 0 {
            assert(targets_of(s)[k] == s[k].target);
            assert(targets_of(s)[s.len() - 1] == r.target);
            assert(false);
        }
        assert(no_dup(r.prerequisites)) by {
            assert(s[s.len() - 1] == r);
        }
        assert forall|j: int| 0 <= j < r.prerequisites.len() implies !Seq::<Seq<u8>>::empty()
            .contains(#[trigger] r.prerequisites[j]) by {}
        lemma_dedup_identity(Seq::empty(), r.prerequisites);
        assert(Seq::<Seq<u8>>::empty() + r.prerequisites =~= r.prerequisites);
        assert(spec_merge(s) == prefix.push(
            RuleView { target: r.target, prerequisites: r.prerequisites },
        ));
        assert(RuleView { target: r.target, prerequisites: r.prerequisites } == r);
        assert(prefix.push(r) =~= s);
    }
}

/// Idempotence: merging an already merged collection changes nothing.
pub proof fn lemma_merge_idempotent(rules: Seq<RuleView>)
    ensures
        spec_merge(spec_merge(rules)) == spec_merge(rules),
{
    lemma_merge_dedup(rules);
    lemma_merge_fixpoint(spec_merge(rules));
}

/// Order preservation: the merged targets are the scanned targets in order
/// of first occurrence, and each entry's prerequisite list is the
/// order-preserving, duplicate-free union of the prerequisite lists of all
/// records sharing that target, in scan order.
pub proof fn lemma_merge_order(rules: Seq<RuleView>)
    ensures
        targets_of(spec_merge(rules)) == dedup_append(Seq::empty(), targets_of(rules)),
        forall|k: int| 0 <= k < spec_merge(rules).len() ==> (#[trigger] spec_merge(rules)[k])
            .prerequisites == dedup_append(
            Seq::empty(),
            prereqs_of(rules, spec_merge(rules)[k].target),
        ),
    decreases rules.len(),
{
    lemma_merge_targets(rules);
    if rules.len() > 0 {
        let prefix = rules.drop_last();
        let r = rules.last();
        let m = spec_merge(prefix);
        let merged = spec_merge(rules);
        lemma_merge_order(prefix);
        lemma_merge_dedup(prefix);
        lemma_find_target(m, r.target);
        lemma_find_target_present(m, r.target);
        let k = find_target(m, r.target);
        assert forall|j: int| 0 <= j < merged.len() implies (#[trigger] merged[j]).prerequisites
            == dedup_append(Seq::empty(), prereqs_of(rules, merged[j].target)) by {
            if k < 0 {
                if j < m.len() {
                    assert(merged[j] == m[j]);
                    assert(targets_of(m)[j] == m[j].target);
                    assert(targets_of(m).contains(m[j].target));
                    assert(m[j].target != r.target);
                    assert(prereqs_of(rules, m[j].target) == prereqs_of(prefix, m[j].target));
                } else {
                    assert(merged[j].target == r.target);
                    assert(merged[j].prerequisites == dedup_append(
                        Seq::empty(),
                        r.prerequisites,
                    ));
                    assert(!targets_of(prefix).contains(r.target)) by {
                        lemma_dedup_contains(Seq::empty(), targets_of(prefix), r.target);
                    }
                    lemma_prereqs_of_absent(prefix, r.target);
                    assert(prereqs_of(rules, r.target) == Seq::<Seq<u8>>::empty()
                        + r.prerequisites);
                    assert(Seq::<Seq<u8>>::empty() + r.prerequisites =~= r.prerequisites);
                }
            } else {
                if j == k {
                    assert(merged[k].target == m[k].target);
                    assert(m[k].target == r.target);
                    assert(merged[k].prerequisites == dedup_append(
                        m[k].prerequisites,
                        r.prerequisites,
                    ));
                    assert(m[k].prerequisites == dedup_append(
                        Seq::empty(),
                        prereqs_of(prefix, r.target),
                    ));
                    lemma_dedup_concat(
                        Seq::empty(),
                        prereqs_of(prefix, r.target),
                        r.prerequisites,
                    );
                    assert(prereqs_of(rules, r.target) == prereqs_of(prefix, r.target)
                        + r.prerequisites);
                } else {
                    assert(merged[j] == m[j]);
                    assert(targets_of(m)[j] == m[j].target);
                    assert(targets_of(m)[k] == m[k].target);
                    assert(m[j].target != r.target);
                    assert(prereqs_of(rules, m[j].target) == prereqs_of(prefix, m[j].target));
                }
            }
        }
    }
}

} // verus!
