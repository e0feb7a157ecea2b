//! Laws of reconciliation, stated over the spec functions that `clean`'s
//! contract uses.
use crate::clean::{
    absent_from, artifact_names, disposal_for, disposal_plan, disposals_after_clean,
    install_after_clean, is_deduplication, is_expected, is_fetch_after_clean, lemma_push_contains,
    no_duplicates, override_names, overrides_left, ArtifactRequest, DisposalAction, OverrideEntry,
};
use vstd::prelude::*;

verus! {

/// The files of `present` that some desired name accounts for: what stays in
/// the directory once the disposals are carried out.
pub open spec fn still_present(
    present: Seq<Seq<char>>,
    fetched: Seq<Seq<char>>,
    installed: Seq<Seq<char>>,
) -> Seq<Seq<char>>
    decreases present.len(),
{
    if present.len() == 0 {
        present
    } else {
        let rest = still_present(present.drop_last(), fetched, installed);
        if is_expected(present.last(), fetched, installed) {
            rest.push(present.last())
        } else {
            rest
        }
    }
}

proof fn lemma_override_names_push<P>(s: Seq<OverrideEntry<P>>)
    requires
        s.len() > 0,
    ensures
        override_names(s) == override_names(s.drop_last()).push(s.last().name@),
{
    assert(override_names(s) =~= override_names(s.drop_last()).push(s.last().name@));
}

/// Deduplication keeps exactly one request for each filename asked for, and
/// that request is one of those asked for.
pub proof fn lemma_one_request_per_name<F>(
    kept: Seq<ArtifactRequest<F>>,
    desired: Seq<ArtifactRequest<F>>,
    name: Seq<char>,
)
    requires
        is_deduplication(kept, desired),
        artifact_names(desired).contains(name),
    ensures
        exists|k: int|
            0 <= k < kept.len() && #[trigger] kept[k].filename@ == name && desired.contains(kept[k])
                && forall|j: int| 0 <= j < kept.len() && kept[j].filename@ == name ==> j == k,
{
    assert(artifact_names(kept).contains(name));
    let k = choose|k: int| 0 <= k < kept.len() && artifact_names(kept)[k] == name;
    assert(kept[k].filename@ == name);
    assert forall|j: int| 0 <= j < kept.len() && kept[j].filename@ == name implies j == k by {
        assert(artifact_names(kept)[j] == name);
        if j < k {
            assert(artifact_names(kept)[j] != artifact_names(kept)[k]);
        } else if k < j {
            assert(artifact_names(kept)[k] != artifact_names(kept)[j]);
        }
    }
}

proof fn lemma_still_present_contains(
    present: Seq<Seq<char>>,
    fetched: Seq<Seq<char>>,
    installed: Seq<Seq<char>>,
    n: Seq<char>,
)
    ensures
        still_present(present, fetched, installed).contains(n) <==> (present.contains(n)
            && is_expected(n, fetched, installed)),
    decreases present.len(),
{
    if present.len() > 0 {
        let s = present.drop_last();
        lemma_still_present_contains(s, fetched, installed, n);
        assert(present =~= s.push(present.last()));
        lemma_push_contains(s, present.last(), n);
        lemma_push_contains(still_present(s, fetched, installed), present.last(), n);
    }
}

proof fn lemma_overrides_left_same<P>(
    s: Seq<OverrideEntry<P>>,
    before: Seq<Seq<char>>,
    after: Seq<Seq<char>>,
    fetched: Seq<Seq<char>>,
)
    requires
        forall|k: int|
            0 <= k < s.len() ==> before.contains(#[trigger] s[k].name@) == after.contains(s[k].name@),
    ensures
        overrides_left(s, before, fetched) == overrides_left(s, after, fetched),
    decreases s.len(),
{
    if s.len() > 0 {
        let t = s.drop_last();
        assert forall|k: int| 0 <= k < t.len() implies before.contains(#[trigger] t[k].name@)
            == after.contains(t[k].name@) by {
            assert(t[k] == s[k]);
        }
        lemma_overrides_left_same(t, before, after, fetched);
        assert(s.last() == s[s.len() - 1]);
    }
}

proof fn lemma_no_disposals(present: Seq<Seq<char>>, fetched: Seq<Seq<char>>, installed: Seq<Seq<char>>)
    requires
        forall|k: int| 0 <= k < present.len() ==> is_expected(#[trigger] present[k], fetched, installed),
    ensures
        disposal_plan(present, fetched, installed) == Seq::<(Seq<char>, DisposalAction)>::empty(),
    decreases present.len(),
{
    if present.len() > 0 {
        let s = present.drop_last();
        assert forall|k: int| 0 <= k < s.len() implies is_expected(#[trigger] s[k], fetched, installed) by {
            assert(s[k] == present[k]);
        }
        lemma_no_disposals(s, fetched, installed);
        assert(present.last() == present[present.len() - 1]);
    }
}

/// Reconciling a second time, with the same desired sets, against the
/// directory as the first reconciliation left it, leaves requests for the same
/// filenames and the same overrides to do, and disposes of nothing.
pub proof fn lemma_clean_idempotent<F, P>(
    desired: Seq<ArtifactRequest<F>>,
    overrides: Seq<OverrideEntry<P>>,
    present: Seq<Seq<char>>,
    first: Seq<ArtifactRequest<F>>,
    second: Seq<ArtifactRequest<F>>,
)
    requires
        is_fetch_after_clean(first, desired, present),
        is_fetch_after_clean(
            second,
            desired,
            still_present(present, artifact_names(desired), override_names(overrides)),
        ),
    ensures
        forall|n: Seq<char>| artifact_names(second).contains(n) <==> artifact_names(first).contains(n),
        ({
            let left = still_present(present, artifact_names(desired), override_names(overrides));
            &&& install_after_clean(desired, overrides, left) == install_after_clean(
                desired,
                overrides,
                present,
            )
            &&& disposals_after_clean(desired, overrides, left).len() == 0
        }),
{
    let a = artifact_names(desired);
    let o = override_names(overrides);
    let left = still_present(present, a, o);
    assert forall|n: Seq<char>| artifact_names(second).contains(n) <==> artifact_names(
        first,
    ).contains(n) by {
        lemma_still_present_contains(present, a, o, n);
    }
    assert forall|k: int| 0 <= k < overrides.len() implies left.contains(
        #[trigger] overrides[k].name@,
    ) == present.contains(overrides[k].name@) by {
        assert(o[k] == overrides[k].name@);
        assert(o.contains(overrides[k].name@));
        lemma_still_present_contains(present, a, o, overrides[k].name@);
    }
    lemma_overrides_left_same(overrides, left, present, a);
    assert forall|k: int| 0 <= k < left.len() implies is_expected(#[trigger] left[k], a, o) by {
        assert(left.contains(left[k]));
        lemma_still_present_contains(present, a, o, left[k]);
    }
    lemma_no_disposals(left, a, o);
}

proof fn lemma_plan_entries(present: Seq<Seq<char>>, fetched: Seq<Seq<char>>, installed: Seq<Seq<char>>)
    ensures
        forall|k: int|
            0 <= k < disposal_plan(present, fetched, installed).len() ==> {
                let e = #[trigger] disposal_plan(present, fetched, installed)[k];
                &&& present.contains(e.0)
                &&& !is_expected(e.0, fetched, installed)
                &&& e.1 == disposal_for(e.0)
            },
        forall|n: Seq<char>|
            present.contains(n) && !is_expected(n, fetched, installed) ==> disposal_plan(
                present,
                fetched,
                installed,
            ).contains((n, disposal_for(n))),
    decreases present.len(),
{
    if present.len() > 0 {
        let s = present.drop_last();
        let last = present.last();
        lemma_plan_entries(s, fetched, installed);
        assert(present =~= s.push(last));
        let rest = disposal_plan(s, fetched, installed);
        assert forall|n: Seq<char>| present.contains(n) implies s.contains(n) || n == last by {
            lemma_push_contains(s, last, n);
        }
        assert forall|n: Seq<char>| s.contains(n) implies present.contains(n) by {
            lemma_push_contains(s, last, n);
        }
        if !is_expected(last, fetched, installed) {
            let pair = (last, disposal_for(last));
            assert forall|x: (Seq<char>, DisposalAction)| rest.contains(x) implies rest.push(
                pair,
            ).contains(x) by {
                lemma_push_contains(rest, pair, x);
            }
            lemma_push_contains(rest, pair, pair);
            assert forall|k: int| 0 <= k < rest.push(pair).len() implies {
                let e = #[trigger] rest.push(pair)[k];
                &&& present.contains(e.0)
                &&& !is_expected(e.0, fetched, installed)
                &&& e.1 == disposal_for(e.0)
            } by {
                if k < rest.len() {
                    assert(rest.push(pair)[k] == rest[k]);
                } else {
                    assert(present[present.len() - 1] == last);
                }
            }
        }
    }
}

/// Every file of the directory that no desired name accounts for gets exactly
/// one disposal: deletion when it is the remnant of an interrupted transfer,
/// archiving otherwise; and no file that a desired name accounts for gets one.
pub proof fn lemma_disposals_accounted<F, P>(
    desired: Seq<ArtifactRequest<F>>,
    overrides: Seq<OverrideEntry<P>>,
    present: Seq<Seq<char>>,
    name: Seq<char>,
)
    ensures
        ({
            let plan = disposals_after_clean(desired, overrides, present);
            let expected = is_expected(name, artifact_names(desired), override_names(overrides));
            &&& present.contains(name) && !expected ==> plan.contains((name, disposal_for(name)))
            &&& forall|a: DisposalAction| plan.contains((name, a)) ==> a == disposal_for(name)
            &&& expected ==> forall|a: DisposalAction| !plan.contains((name, a))
        }),
{
    let a = artifact_names(desired);
    let o = override_names(overrides);
    let plan = disposal_plan(present, a, o);
    lemma_plan_entries(present, a, o);
    assert forall|act: DisposalAction| plan.contains((name, act)) implies act == disposal_for(name)
        && !is_expected(name, a, o) by {
        let k = choose|k: int| 0 <= k < plan.len() && plan[k] == (name, act);
        assert(plan[k].1 == disposal_for(plan[k].0));
    }
}

proof fn lemma_overrides_left_keeps<P>(
    s: Seq<OverrideEntry<P>>,
    p: Seq<Seq<char>>,
    fetched: Seq<Seq<char>>,
    k: int,
)
    requires
        0 <= k < s.len(),
        !p.contains(s[k].name@),
    ensures
        override_names(overrides_left(s, p, fetched)).contains(s[k].name@),
    decreases s.len(),
{
    let t = s.drop_last();
    let r = overrides_left(t, p, fetched);
    if k == s.len() - 1 {
        lemma_override_names_push(r.push(s.last()));
        assert(r.push(s.last()).drop_last() =~= r);
        lemma_push_contains(override_names(r), s.last().name@, s[k].name@);
    } else {
        assert(t[k] == s[k]);
        lemma_overrides_left_keeps(t, p, fetched, k);
        let n = s.last().name@;
        if !p.contains(n) || fetched.contains(n) {
            lemma_override_names_push(r.push(s.last()));
            assert(r.push(s.last()).drop_last() =~= r);
            lemma_push_contains(override_names(r), n, s[k].name@);
        }
    }
}

proof fn lemma_overrides_left_names<P>(
    s: Seq<OverrideEntry<P>>,
    p: Seq<Seq<char>>,
    fetched: Seq<Seq<char>>,
    n: Seq<char>,
)
    requires
        override_names(overrides_left(s, p, fetched)).contains(n),
    ensures
        override_names(s).contains(n),
    decreases s.len(),
{
    let t = s.drop_last();
    let r = overrides_left(t, p, fetched);
    lemma_override_names_push(s);
    lemma_push_contains(override_names(t), s.last().name@, n);
    let m = s.last().name@;
    if !p.contains(m) || fetched.contains(m) {
        lemma_override_names_push(r.push(s.last()));
        assert(r.push(s.last()).drop_last() =~= r);
        lemma_push_contains(override_names(r), m, n);
        if n != m {
            lemma_overrides_left_names(t, p, fetched, n);
        }
    } else {
        lemma_overrides_left_names(t, p, fetched, n);
    }
}

proof fn lemma_overrides_left_empty<P>(s: Seq<OverrideEntry<P>>, p: Seq<Seq<char>>, fetched: Seq<Seq<char>>)
    requires
        forall|k: int|
            0 <= k < s.len() ==> p.contains(#[trigger] s[k].name@) && !fetched.contains(s[k].name@),
    ensures
        overrides_left(s, p, fetched).len() == 0,
    decreases s.len(),
{
    if s.len() > 0 {
        let t = s.drop_last();
        assert forall|k: int| 0 <= k < t.len() implies p.contains(#[trigger] t[k].name@)
            && !fetched.contains(t[k].name@) by {
            assert(t[k] == s[k]);
        }
        lemma_overrides_left_empty(t, p, fetched);
        assert(s.last() == s[s.len() - 1]);
    }
}

proof fn lemma_concat_contains<A>(a: Seq<A>, b: Seq<A>, x: A)
    ensures
        (a + b).contains(x) <==> (a.contains(x) || b.contains(x)),
{
    if a.contains(x) {
        let k = choose|k: int| 0 <= k < a.len() && a[k] == x;
        assert((a + b)[k] == x);
    }
    if b.contains(x) {
        let k = choose|k: int| 0 <= k < b.len() && b[k] == x;
        assert((a + b)[a.len() + k] == x);
    }
    if (a + b).contains(x) {
        let k = choose|k: int| 0 <= k < (a + b).len() && (a + b)[k] == x;
        if k < a.len() {
            assert(a[k] == x);
        } else {
            assert(b[k - a.len()] == x);
        }
    }
}

/// Once a run has fetched every request and installed every override that
/// reconciliation left, reconciling again with the same desired sets leaves
/// nothing to fetch or install and disposes of nothing. This holds where no
/// override shares its name with a download request.
pub proof fn lemma_clean_converges<F, P>(
    desired: Seq<ArtifactRequest<F>>,
    overrides: Seq<OverrideEntry<P>>,
    present: Seq<Seq<char>>,
    first: Seq<ArtifactRequest<F>>,
    again: Seq<ArtifactRequest<F>>,
)
    requires
        forall|n: Seq<char>|
            override_names(overrides).contains(n) ==> !artifact_names(desired).contains(n),
        is_fetch_after_clean(first, desired, present),
        is_fetch_after_clean(
            again,
            desired,
            still_present(present, artifact_names(desired), override_names(overrides))
                + artifact_names(first) + override_names(
                install_after_clean(desired, overrides, present),
            ),
        ),
    ensures
        again.len() == 0,
        ({
            let after_run = still_present(present, artifact_names(desired), override_names(overrides))
                + artifact_names(first) + override_names(
                install_after_clean(desired, overrides, present),
            );
            &&& install_after_clean(desired, overrides, after_run).len() == 0
            &&& disposals_after_clean(desired, overrides, after_run).len() == 0
        }),
{
    let a = artifact_names(desired);
    let o = override_names(overrides);
    let left = still_present(present, a, o);
    let fetched = artifact_names(first);
    let installed = override_names(install_after_clean(desired, overrides, present));
    let after_run = left + fetched + installed;
    assert forall|n: Seq<char>| after_run.contains(n) <==> (left.contains(n) || fetched.contains(n)
        || installed.contains(n)) by {
        lemma_concat_contains(left + fetched, installed, n);
        lemma_concat_contains(left, fetched, n);
    }
    if again.len() > 0 {
        let n = again[0].filename@;
        assert(artifact_names(again)[0] == n);
        assert(artifact_names(again).contains(n));
        lemma_still_present_contains(present, a, o, n);
    }
    assert forall|k: int| 0 <= k < overrides.len() implies after_run.contains(
        #[trigger] overrides[k].name@,
    ) && !a.contains(overrides[k].name@) by {
        let n = overrides[k].name@;
        assert(o[k] == n);
        assert(o.contains(n));
        lemma_still_present_contains(present, a, o, n);
        if !present.contains(n) {
            lemma_overrides_left_keeps(overrides, present, a, k);
        }
    }
    lemma_overrides_left_empty(overrides, after_run, a);
    assert forall|k: int| 0 <= k < after_run.len() implies is_expected(#[trigger] after_run[k], a, o) by {
        let n = after_run[k];
        assert(after_run.contains(n));
        if left.contains(n) {
            lemma_still_present_contains(present, a, o, n);
        } else if fetched.contains(n) {
            assert(artifact_names(first).contains(n));
            assert(a.contains(n));
        } else {
            lemma_overrides_left_names(overrides, present, a, n);
        }
    }
    lemma_no_disposals(after_run, a, o);
}

} // verus!
