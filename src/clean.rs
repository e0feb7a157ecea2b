//! Reconciliation of a target directory against the desired downloads and
//! overrides: duplicate removal, matching against the files already present,
//! and the disposal plan for the files that nothing asked for.
use crate::order::{lemma_name_le_antisym, lemma_name_le_total, lemma_name_le_trans, name_le, name_le_exec};
use vstd::prelude::*;
use vstd::seq_lib::{to_multiset_contains, to_multiset_insert, to_multiset_len};
use vstd::string::StringExecFns;

verus! {

/// A file that should end up in the target directory, fetched from elsewhere.
/// `fetch` is whatever the caller needs to perform the transfer.
pub struct ArtifactRequest<F> {
    pub filename: String,
    pub length: u64,
    pub fetch: F,
}

/// Local content (a file or a directory) to be copied into the target directory.
pub struct OverrideEntry<P> {
    pub name: String,
    pub source: P,
}

/// What to do with a file that no desired entry accounts for.
#[derive(Clone, Copy, Debug, PartialEq, Eq, Structural)]
pub enum DisposalAction {
    /// Move it into the archive subfolder (delete it if the move fails).
    Archive,
    /// Delete it outright: it is the remnant of an interrupted transfer.
    Delete,
}

/// Whether a file must be deleted, given its disposal and, for an archived
/// file, whether moving it into the archive subfolder succeeded.
pub fn must_delete(action: DisposalAction, moved: bool) -> (r: bool)
    ensures
        r == (action == DisposalAction::Delete || !moved),
{
    match action {
        DisposalAction::Delete => true,
        DisposalAction::Archive => !moved,
    }
}

/// One file of the target directory to be disposed of.
pub struct Disposal {
    pub name: String,
    pub action: DisposalAction,
}

/// The outcome of reconciliation besides the shrunk desired sets.
pub struct CleanPlan {
    /// Filenames of the download requests dropped as duplicates.
    pub duplicates: Vec<String>,
    /// Files of the target directory to archive or delete, in inventory order.
    pub disposals: Vec<Disposal>,
}

/// The text of each string.
pub open spec fn key_views(keys: Seq<String>) -> Seq<Seq<char>> {
    keys.map_values(|k: String| k@)
}

/// `s` with `e` appended holds `x` exactly when `s` does or `e` is `x`.
pub proof fn lemma_push_contains<A>(s: Seq<A>, e: A, x: A)
    ensures
        s.push(e).contains(x) <==> (s.contains(x) || e == x),
{
    if s.contains(x) {
        let k = choose|k: int| 0 <= k < s.len() && s[k] == x;
        assert(s.push(e)[k] == x);
    }
    if e == x {
        assert(s.push(e)[s.len() as int] == x);
    }
    if s.push(e).contains(x) {
        let k = choose|k: int| 0 <= k < s.push(e).len() && s.push(e)[k] == x;
        if k < s.len() {
            assert(s[k] == x);
        }
    }
}

/// Whether the filenames of `s` never decrease.
pub open spec fn sorted_by_name<F>(s: Seq<ArtifactRequest<F>>) -> bool {
    forall|a: int, b: int|
        0 <= a < b < s.len() ==> name_le(#[trigger] s[a].filename@, #[trigger] s[b].filename@)
}

/// Whether the request at `i` has the same filename as the next one.
pub open spec fn same_as_next<F>(s: Seq<ArtifactRequest<F>>, i: int) -> bool {
    0 <= i < s.len() - 1 && s[i].filename@ == s[i + 1].filename@
}

fn sort_by_name<F>(v: &mut Vec<ArtifactRequest<F>>)
    ensures
        final(v)@.to_multiset() == old(v)@.to_multiset(),
        sorted_by_name(final(v)@),
{
    let ghost ov = v@;
    let len0: usize = v.len();
    let mut sorted: Vec<ArtifactRequest<F>> = Vec::new();
    proof {
        assert(sorted@ =~= ov.subrange(len0 as int, len0 as int));
    }
    while v.len() > 0
        invariant
            len0 == ov.len(),
            v@.len() <= len0,
            v@ == ov.subrange(0, v@.len() as int),
            sorted@.to_multiset() == ov.subrange(v@.len() as int, len0 as int).to_multiset(),
            sorted_by_name(sorted@),
        decreases v@.len(),
    {
        let last = v.len() - 1;
        let x = v.remove(last);
        proof {
            assert(v@ =~= ov.subrange(0, v@.len() as int));
            let taken = ov.subrange(last + 1, len0 as int);
            assert(ov.subrange(last as int, len0 as int) =~= taken.insert(0, x));
            to_multiset_insert(taken, 0, x);
        }
        let mut p: usize = 0;
        let mut go = true;
        while go && p < sorted.len()
            invariant
                p <= sorted@.len(),
                forall|k: int| 0 <= k < p ==> name_le(#[trigger] sorted@[k].filename@, x.filename@),
                !go ==> p < sorted@.len() && !name_le(sorted@[p as int].filename@, x.filename@),
            decreases sorted@.len() - p + if go { 1int } else { 0int },
        {
            if name_le_exec(sorted[p].filename.as_str(), x.filename.as_str()) {
                p = p + 1;
            } else {
                go = false;
            }
        }
        let ghost s0 = sorted@;
        proof {
            if p < s0.len() {
                lemma_name_le_total(s0[p as int].filename@, x.filename@);
            }
        }
        sorted.insert(p, x);
        proof {
            to_multiset_insert(s0, p as int, x);
            let t = sorted@;
            assert forall|a: int, b: int| 0 <= a < b < t.len() implies name_le(
                #[trigger] t[a].filename@,
                #[trigger] t[b].filename@,
            ) by {
                if b < p {
                    assert(t[a] == s0[a] && t[b] == s0[b]);
                } else if b == p {
                    assert(t[a] == s0[a]);
                } else if a < p {
                    assert(t[a] == s0[a] && t[b] == s0[b - 1]);
                } else if a == p {
                    assert(t[b] == s0[b - 1]);
                    if b - 1 > p {
                        assert(name_le(s0[p as int].filename@, s0[b - 1].filename@));
                        lemma_name_le_trans(x.filename@, s0[p as int].filename@, s0[b - 1].filename@);
                    }
                } else {
                    assert(t[a] == s0[a - 1] && t[b] == s0[b - 1]);
                }
            }
        }
    }
    proof {
        assert(ov.subrange(0, len0 as int) =~= ov);
    }
    *v = sorted;
}

/// Sorts `slice` by filename and finds the positions whose filename equals
/// the next one's: every duplicate but the last of its run.
///
/// Returns them in descending order, so that removing them one after another
/// leaves the remaining positions valid.
pub fn find_dupes_by_key<F>(slice: &mut Vec<ArtifactRequest<F>>) -> (r: Vec<usize>)
    ensures
        final(slice)@.to_multiset() == old(slice)@.to_multiset(),
        sorted_by_name(final(slice)@),
        forall|k: int| 0 <= k < r@.len() ==> #[trigger] r@[k] + 1 < final(slice)@.len(),
        forall|a: int, b: int| 0 <= a < b < r@.len() ==> r@[a] > r@[b],
        forall|i: int|
            0 <= i < final(slice)@.len() ==> (r@.contains(i as usize) <==> same_as_next(
                final(slice)@,
                i,
            )),
{
    sort_by_name(slice);
    let n: usize = slice.len();
    let mut r: Vec<usize> = Vec::new();
    if n < 2 {
        return r;
    }
    let mut i: usize = n - 1;
    while i > 0
        invariant
            n == slice@.len(),
            n >= 2,
            i <= n - 1,
            forall|k: int| 0 <= k < r@.len() ==> i <= #[trigger] r@[k] < n - 1,
            forall|a: int, b: int| 0 <= a < b < r@.len() ==> r@[a] > r@[b],
            forall|x: int| i <= x < n ==> (r@.contains(x as usize) <==> same_as_next(slice@, x)),
        decreases i,
    {
        i = i - 1;
        let same = slice[i].filename == slice[i + 1].filename;
        let ghost old_r = r@;
        assert(forall|k: int| 0 <= k < old_r.len() ==> i < #[trigger] old_r[k]);
        if same {
            r.push(i);
        }
        proof {
            assert forall|x: int| i <= x < n implies (r@.contains(x as usize) <==> same_as_next(
                slice@,
                x,
            )) by {
                if same {
                    lemma_push_contains(old_r, i, x as usize);
                }
                if old_r.contains(i) {
                    let k = choose|k: int| 0 <= k < old_r.len() && old_r[k] == i;
                    assert(i < old_r[k]);
                }
                if x != i {
                    assert(x as usize as int == x);
                }
            }
        }
    }
    r
}

pub open spec fn artifact_names<F>(s: Seq<ArtifactRequest<F>>) -> Seq<Seq<char>> {
    s.map_values(|a: ArtifactRequest<F>| a.filename@)
}

pub open spec fn override_names<P>(s: Seq<OverrideEntry<P>>) -> Seq<Seq<char>> {
    s.map_values(|o: OverrideEntry<P>| o.name@)
}

/// The requests of `s` whose filename is not among `present`, in order.
pub open spec fn absent_from<F>(s: Seq<ArtifactRequest<F>>, present: Seq<Seq<char>>) -> Seq<
    ArtifactRequest<F>,
>
    decreases s.len(),
{
    if s.len() == 0 {
        s
    } else {
        let rest = absent_from(s.drop_last(), present);
        if present.contains(s.last().filename@) {
            rest
        } else {
            rest.push(s.last())
        }
    }
}

/// The overrides of `s` still to install: those not present on disk, and those
/// whose name a download request claims (a present file is matched to the
/// download first).
pub open spec fn overrides_left<P>(
    s: Seq<OverrideEntry<P>>,
    present: Seq<Seq<char>>,
    fetched: Seq<Seq<char>>,
) -> Seq<OverrideEntry<P>>
    decreases s.len(),
{
    if s.len() == 0 {
        s
    } else {
        let rest = overrides_left(s.drop_last(), present, fetched);
        let n = s.last().name@;
        if !present.contains(n) || fetched.contains(n) {
            rest.push(s.last())
        } else {
            rest
        }
    }
}

/// Whether a filename marks the remnant of an interrupted transfer.
pub open spec fn is_partial(name: Seq<char>) -> bool {
    name.len() >= 5 && name.subrange(name.len() - 5, name.len() as int) == seq![
        '.',
        'p',
        'a',
        'r',
        't',
    ]
}

pub open spec fn disposal_for(name: Seq<char>) -> DisposalAction {
    if is_partial(name) {
        DisposalAction::Delete
    } else {
        DisposalAction::Archive
    }
}

pub open spec fn is_expected(name: Seq<char>, fetched: Seq<Seq<char>>, installed: Seq<Seq<char>>) -> bool {
    fetched.contains(name) || installed.contains(name)
}

/// The disposal of each file of `present` that no desired name accounts for, in order.
pub open spec fn disposal_plan(
    present: Seq<Seq<char>>,
    fetched: Seq<Seq<char>>,
    installed: Seq<Seq<char>>,
) -> Seq<(Seq<char>, DisposalAction)>
    decreases present.len(),
{
    if present.len() == 0 {
        Seq::empty()
    } else {
        let rest = disposal_plan(present.drop_last(), fetched, installed);
        let n = present.last();
        if is_expected(n, fetched, installed) {
            rest
        } else {
            rest.push((n, disposal_for(n)))
        }
    }
}

pub open spec fn disposal_views(d: Seq<Disposal>) -> Seq<(Seq<char>, DisposalAction)> {
    d.map_values(|x: Disposal| (x.name@, x.action))
}

pub open spec fn no_duplicates(s: Seq<Seq<char>>) -> bool {
    forall|a: int, b: int| 0 <= a < b < s.len() ==> s[a] != s[b]
}

/// `d` holds exactly one request of each filename of `s`, each one of `s`'s.
pub open spec fn is_deduplication<F>(d: Seq<ArtifactRequest<F>>, s: Seq<ArtifactRequest<F>>) -> bool {
    &&& no_duplicates(artifact_names(d))
    &&& forall|k: int| 0 <= k < d.len() ==> s.contains(#[trigger] d[k])
    &&& forall|n: Seq<char>| #[trigger] artifact_names(d).contains(n) <==> artifact_names(s).contains(n)
}

/// `r` is what reconciling the requests `desired` with the files `present`
/// leaves to fetch: one of `desired`'s requests for each filename asked for
/// and not present, and nothing else.
pub open spec fn is_fetch_after_clean<F>(
    r: Seq<ArtifactRequest<F>>,
    desired: Seq<ArtifactRequest<F>>,
    present: Seq<Seq<char>>,
) -> bool {
    &&& no_duplicates(artifact_names(r))
    &&& forall|k: int| 0 <= k < r.len() ==> desired.contains(#[trigger] r[k])
    &&& forall|n: Seq<char>|
        #[trigger] artifact_names(r).contains(n) <==> (artifact_names(desired).contains(n)
            && !present.contains(n))
}

pub proof fn lemma_names_push<F>(s: Seq<ArtifactRequest<F>>)
    requires
        s.len() > 0,
    ensures
        artifact_names(s) == artifact_names(s.drop_last()).push(s.last().filename@),
{
    assert(artifact_names(s) =~= artifact_names(s.drop_last()).push(s.last().filename@));
}

/// What `absent_from` keeps: requests of `s`, one for each of its filenames
/// not among `present`, without repeating a filename that `s` does not repeat.
pub proof fn lemma_absent_from<F>(s: Seq<ArtifactRequest<F>>, present: Seq<Seq<char>>)
    ensures
        forall|k: int|
            0 <= k < absent_from(s, present).len() ==> s.contains(
                #[trigger] absent_from(s, present)[k],
            ),
        forall|n: Seq<char>|
            #[trigger] artifact_names(absent_from(s, present)).contains(n) <==> (artifact_names(
                s,
            ).contains(n) && !present.contains(n)),
        no_duplicates(artifact_names(s)) ==> no_duplicates(artifact_names(absent_from(s, present))),
    decreases s.len(),
{
    if s.len() > 0 {
        let t = s.drop_last();
        let e = s.last();
        let rt = absent_from(t, present);
        lemma_absent_from(t, present);
        lemma_names_push(s);
        assert(absent_from(s, present) == if present.contains(e.filename@) {
            rt
        } else {
            rt.push(e)
        });
        assert(s[s.len() - 1] == e);
        assert forall|k: int| 0 <= k < t.len() implies s.contains(#[trigger] t[k]) by {
            assert(s[k] == t[k]);
        }
        assert forall|n: Seq<char>| artifact_names(s).contains(n) <==> (artifact_names(t).contains(n)
            || n == e.filename@) by {
            lemma_push_contains(artifact_names(t), e.filename@, n);
        }
        assert forall|n: Seq<char>| artifact_names(absent_from(s, present)).contains(n) <==> (
        artifact_names(s).contains(n) && !present.contains(n)) by {
            lemma_push_contains(artifact_names(t), e.filename@, n);
            assert(artifact_names(rt).contains(n) <==> (artifact_names(t).contains(n)
                && !present.contains(n)));
            if !present.contains(e.filename@) {
                assert(rt.push(e).drop_last() =~= rt);
                assert(rt.push(e).last() == e);
                lemma_names_push(rt.push(e));
                lemma_push_contains(artifact_names(rt), e.filename@, n);
            }
        }
        if no_duplicates(artifact_names(s)) {
            let ns = artifact_names(s);
            assert forall|a: int, b: int| 0 <= a < b < t.len() implies artifact_names(t)[a]
                != artifact_names(t)[b] by {
                assert(ns[a] == artifact_names(t)[a] && ns[b] == artifact_names(t)[b]);
            }
            if artifact_names(t).contains(e.filename@) {
                let k = choose|k: int| 0 <= k < t.len() && artifact_names(t)[k] == e.filename@;
                assert(ns[k] == ns[s.len() - 1]);
            }
        }
        if !present.contains(e.filename@) {
            let r = rt.push(e);
            assert(r.drop_last() =~= rt);
            lemma_names_push(r);
            assert forall|n: Seq<char>| artifact_names(r).contains(n) <==> (artifact_names(
                rt,
            ).contains(n) || n == e.filename@) by {
                lemma_push_contains(artifact_names(rt), e.filename@, n);
            }
            assert forall|k: int| 0 <= k < r.len() implies s.contains(#[trigger] r[k]) by {
                if k < rt.len() {
                    assert(r[k] == rt[k]);
                }
            }
            if no_duplicates(artifact_names(s)) {
                let nr = artifact_names(r);
                assert forall|a: int, b: int| 0 <= a < b < nr.len() implies nr[a] != nr[b] by {
                    assert(nr[a] == artifact_names(rt)[a]);
                    if b < rt.len() {
                        assert(nr[b] == artifact_names(rt)[b]);
                    } else {
                        assert(artifact_names(rt).contains(nr[a]));
                    }
                }
            }
        }
    }
}

/// The overrides left after reconciling `overrides` with the files `present`.
pub open spec fn install_after_clean<F, P>(
    desired: Seq<ArtifactRequest<F>>,
    overrides: Seq<OverrideEntry<P>>,
    present: Seq<Seq<char>>,
) -> Seq<OverrideEntry<P>> {
    overrides_left(overrides, present, artifact_names(desired))
}

/// The disposals that reconciling with the files `present` calls for.
pub open spec fn disposals_after_clean<F, P>(
    desired: Seq<ArtifactRequest<F>>,
    overrides: Seq<OverrideEntry<P>>,
    present: Seq<Seq<char>>,
) -> Seq<(Seq<char>, DisposalAction)> {
    disposal_plan(present, artifact_names(desired), override_names(overrides))
}

fn contains_key(keys: &Vec<String>, k: &String) -> (r: bool)
    ensures
        r == key_views(keys@).contains(k@),
{
    let ghost kv = key_views(keys@);
    let mut i: usize = 0;
    while i < keys.len()
        invariant
            i <= keys@.len(),
            kv == key_views(keys@),
            !kv.subrange(0, i as int).contains(k@),
        decreases keys@.len() - i,
    {
        proof {
            assert(kv[i as int] == keys@[i as int]@);
            lemma_push_contains(kv.subrange(0, i as int), kv[i as int], k@);
            assert(kv.subrange(0, i + 1) =~= kv.subrange(0, i as int).push(kv[i as int]));
        }
        if keys[i] == *k {
            return true;
        }
        i = i + 1;
    }
    proof {
        assert(kv.subrange(0, i as int) =~= kv);
    }
    false
}

fn ends_with_part(name: &String) -> (r: bool)
    ensures
        r == is_partial(name@),
{
    let s = name.as_str();
    let n = s.unicode_len();
    if n < 5 {
        return false;
    }
    let r = s.get_char(n - 5) == '.' && s.get_char(n - 4) == 'p' && s.get_char(n - 3) == 'a'
        && s.get_char(n - 2) == 'r' && s.get_char(n - 1) == 't';
    proof {
        let tail = name@.subrange(n - 5, n as int);
        if r {
            assert(tail =~= seq!['.', 'p', 'a', 'r', 't']);
        } else {
            if tail == seq!['.', 'p', 'a', 'r', 't'] {
                assert(tail[0] == name@[n - 5]);
                assert(tail[1] == name@[n - 4]);
                assert(tail[2] == name@[n - 3]);
                assert(tail[3] == name@[n - 2]);
                assert(tail[4] == name@[n - 1]);
            }
        }
    }
    r
}

proof fn lemma_run_end<F>(s: Seq<ArtifactRequest<F>>, j: int) -> (e: int)
    requires
        0 <= j < s.len(),
    ensures
        j <= e < s.len(),
        s[e].filename@ == s[j].filename@,
        !same_as_next(s, e),
    decreases s.len() - j,
{
    if same_as_next(s, j) {
        lemma_run_end(s, j + 1)
    } else {
        j
    }
}

proof fn lemma_sorted_same_name<F>(s: Seq<ArtifactRequest<F>>, a: int, b: int)
    requires
        sorted_by_name(s),
        0 <= a < b < s.len(),
        s[a].filename@ == s[b].filename@,
    ensures
        same_as_next(s, a),
{
    if a + 1 < b {
        assert(name_le(s[a].filename@, s[a + 1].filename@));
        assert(name_le(s[a + 1].filename@, s[b].filename@));
        lemma_name_le_antisym(s[a].filename@, s[a + 1].filename@);
    }
}

/// Keeps one request of each filename and drops the others; what is left is
/// sorted by filename.
///
/// Returns the filenames of the dropped requests, so that the caller can warn
/// about the declarations that collide.
pub fn remove_duplicates<F>(to_download: &mut Vec<ArtifactRequest<F>>) -> (dropped: Vec<String>)
    ensures
        is_deduplication(final(to_download)@, old(to_download)@),
        sorted_by_name(final(to_download)@),
        final(to_download)@.len() + dropped@.len() == old(to_download)@.len(),
        forall|k: int|
            0 <= k < dropped@.len() ==> artifact_names(final(to_download)@).contains(
                #[trigger] dropped@[k]@,
            ),
{
    let ghost od = to_download@;
    let dupes = find_dupes_by_key(to_download);
    let ghost sd = to_download@;
    let len0: usize = to_download.len();
    let mut kept: Vec<ArtifactRequest<F>> = Vec::new();
    let mut dropped: Vec<String> = Vec::new();
    let ghost mut idx: Seq<int> = Seq::empty();
    let mut p: usize = dupes.len();
    let mut i: usize = 0;
    while to_download.len() > 0
        invariant
            len0 == sd.len(),
            i <= len0,
            to_download@ == sd.subrange(i as int, len0 as int),
            sorted_by_name(sd),
            kept@.len() == idx.len(),
            forall|k: int|
                0 <= k < idx.len() ==> 0 <= #[trigger] idx[k] < i && kept@[k] == sd[idx[k]]
                    && !same_as_next(sd, idx[k]),
            forall|a: int, b: int| 0 <= a < b < idx.len() ==> idx[a] < idx[b],
            forall|j: int| 0 <= j < i && !same_as_next(sd, j) ==> idx.contains(j),
            forall|k: int|
                0 <= k < dropped@.len() ==> artifact_names(sd).contains(#[trigger] dropped@[k]@),
            kept@.len() + dropped@.len() == i,
            p <= dupes@.len(),
            forall|k: int| 0 <= k < dupes@.len() ==> #[trigger] dupes@[k] + 1 < len0,
            forall|a: int, b: int| 0 <= a < b < dupes@.len() ==> dupes@[a] > dupes@[b],
            forall|x: int| 0 <= x < len0 ==> (dupes@.contains(x as usize) <==> same_as_next(sd, x)),
            forall|k: int| 0 <= k < p ==> #[trigger] dupes@[k] >= i,
            forall|k: int| p <= k < dupes@.len() ==> #[trigger] dupes@[k] < i,
        decreases to_download@.len(),
    {
        let a = to_download.remove(0);
        let is_dupe = p > 0 && dupes[p - 1] == i;
        proof {
            assert(a == sd[i as int]);
            if is_dupe {
                assert(dupes@[p - 1] == i);
                assert(dupes@.contains(i));
            } else if dupes@.contains(i) {
                let k = choose|k: int| 0 <= k < dupes@.len() && dupes@[k] == i;
                if p > 0 && k < p - 1 {
                    assert(dupes@[k] > dupes@[p - 1]);
                }
            }
            assert(is_dupe == same_as_next(sd, i as int));
        }
        let ghost old_idx = idx;
        if is_dupe {
            proof {
                assert(artifact_names(sd)[i as int] == a.filename@);
            }
            dropped.push(a.filename.clone());
            p = p - 1;
        } else {
            kept.push(a);
            proof {
                idx = idx.push(i as int);
            }
        }
        i = i + 1;
        proof {
            assert(to_download@ =~= sd.subrange(i as int, len0 as int));
            assert forall|k: int| 0 <= k < p implies #[trigger] dupes@[k] >= i by {
                if !is_dupe && dupes@[k] == i - 1 {
                    assert(dupes@.contains((i - 1) as usize));
                }
                if is_dupe {
                    assert(dupes@[k] > dupes@[p as int]);
                }
            }
            assert forall|j: int| 0 <= j < i && !same_as_next(sd, j) implies idx.contains(j) by {
                if !is_dupe {
                    lemma_push_contains(old_idx, (i - 1) as int, j);
                }
            }
        }
    }
    proof {
        let f = kept@;
        to_multiset_len(sd);
        to_multiset_len(od);
        assert forall|n: Seq<char>| artifact_names(sd).contains(n) implies artifact_names(
            f,
        ).contains(n) by {
            let j = choose|j: int| 0 <= j < sd.len() && artifact_names(sd)[j] == n;
            let e = lemma_run_end(sd, j);
            assert(idx.contains(e));
            let k = choose|k: int| 0 <= k < idx.len() && idx[k] == e;
            assert(artifact_names(f)[k] == n);
        }
        assert forall|k: int| 0 <= k < f.len() implies od.contains(#[trigger] f[k]) by {
            assert(sd[idx[k]] == f[k]);
            assert(sd.contains(f[k]));
            to_multiset_contains(sd, f[k]);
            to_multiset_contains(od, f[k]);
        }
        assert forall|n: Seq<char>| artifact_names(f).contains(n) <==> artifact_names(
            od,
        ).contains(n) by {
            if artifact_names(f).contains(n) {
                let k = choose|k: int| 0 <= k < f.len() && artifact_names(f)[k] == n;
                assert(od.contains(f[k]));
                let m = choose|m: int| 0 <= m < od.len() && od[m] == f[k];
                assert(artifact_names(od)[m] == n);
            }
            if artifact_names(od).contains(n) {
                let m = choose|m: int| 0 <= m < od.len() && artifact_names(od)[m] == n;
                assert(od.contains(od[m]));
                to_multiset_contains(od, od[m]);
                to_multiset_contains(sd, od[m]);
                let j = choose|j: int| 0 <= j < sd.len() && sd[j] == od[m];
                assert(artifact_names(sd)[j] == n);
            }
        }
        let nf = artifact_names(f);
        assert forall|a: int, b: int| 0 <= a < b < nf.len() implies nf[a] != nf[b] by {
            if nf[a] == nf[b] {
                lemma_sorted_same_name(sd, idx[a], idx[b]);
            }
        }
        assert forall|a: int, b: int| 0 <= a < b < f.len() implies name_le(
            #[trigger] f[a].filename@,
            #[trigger] f[b].filename@,
        ) by {
            assert(f[a] == sd[idx[a]] && f[b] == sd[idx[b]]);
        }
    }
    *to_download = kept;
    dropped
}

fn plan_disposals(present: &Vec<String>, fetched: &Vec<String>, installed: &Vec<String>) -> (r: Vec<
    Disposal,
>)
    ensures
        disposal_views(r@) == disposal_plan(
            key_views(present@),
            key_views(fetched@),
            key_views(installed@),
        ),
{
    let ghost pv = key_views(present@);
    let ghost fv = key_views(fetched@);
    let ghost iv = key_views(installed@);
    let mut r: Vec<Disposal> = Vec::new();
    let mut i: usize = 0;
    while i < present.len()
        invariant
            i <= present@.len(),
            pv == key_views(present@),
            fv == key_views(fetched@),
            iv == key_views(installed@),
            disposal_views(r@) == disposal_plan(pv.subrange(0, i as int), fv, iv),
        decreases present@.len() - i,
    {
        let name = &present[i];
        let expected = contains_key(fetched, name) || contains_key(installed, name);
        let ghost old_r = r@;
        if !expected {
            let action = if ends_with_part(name) {
                DisposalAction::Delete
            } else {
                DisposalAction::Archive
            };
            r.push(Disposal { name: name.clone(), action });
        }
        proof {
            let sub = pv.subrange(0, i + 1);
            assert(sub.drop_last() =~= pv.subrange(0, i as int));
            assert(sub.last() == name@);
            if !expected {
                assert(disposal_views(r@) =~= disposal_views(old_r).push((name@, disposal_for(name@))));
            } else {
                assert(r@ == old_r);
            }
        }
        i = i + 1;
    }
    proof {
        assert(pv.subrange(0, i as int) =~= pv);
    }
    r
}

fn keep_absent<F>(v: &mut Vec<ArtifactRequest<F>>, present: &Vec<String>)
    ensures
        final(v)@ == absent_from(old(v)@, key_views(present@)),
{
    let ghost ov = v@;
    let len0: usize = v.len();
    let mut kept: Vec<ArtifactRequest<F>> = Vec::new();
    let mut i: usize = 0;
    while v.len() > 0
        invariant
            len0 == ov.len(),
            i <= len0,
            v@ == ov.subrange(i as int, len0 as int),
            kept@ == absent_from(ov.subrange(0, i as int), key_views(present@)),
        decreases v@.len(),
    {
        let a = v.remove(0);
        let on_disk = contains_key(present, &a.filename);
        proof {
            let sub = ov.subrange(0, i + 1);
            assert(sub.drop_last() =~= ov.subrange(0, i as int));
            assert(sub.last() == a);
        }
        if !on_disk {
            kept.push(a);
        }
        i = i + 1;
        proof {
            assert(v@ =~= ov.subrange(i as int, len0 as int));
        }
    }
    proof {
        assert(ov.subrange(0, i as int) =~= ov);
    }
    *v = kept;
}

fn keep_overrides<P>(v: &mut Vec<OverrideEntry<P>>, present: &Vec<String>, fetched: &Vec<String>)
    ensures
        final(v)@ == overrides_left(old(v)@, key_views(present@), key_views(fetched@)),
{
    let ghost ov = v@;
    let len0: usize = v.len();
    let mut kept: Vec<OverrideEntry<P>> = Vec::new();
    let mut i: usize = 0;
    while v.len() > 0
        invariant
            len0 == ov.len(),
            i <= len0,
            v@ == ov.subrange(i as int, len0 as int),
            kept@ == overrides_left(
                ov.subrange(0, i as int),
                key_views(present@),
                key_views(fetched@),
            ),
        decreases v@.len(),
    {
        let o = v.remove(0);
        let keep = !contains_key(present, &o.name) || contains_key(fetched, &o.name);
        proof {
            let sub = ov.subrange(0, i + 1);
            assert(sub.drop_last() =~= ov.subrange(0, i as int));
            assert(sub.last() == o);
        }
        if keep {
            kept.push(o);
        }
        i = i + 1;
        proof {
            assert(v@ =~= ov.subrange(i as int, len0 as int));
        }
    }
    proof {
        assert(ov.subrange(0, i as int) =~= ov);
    }
    *v = kept;
}

/// Reconciles the desired downloads and overrides with the regular files
/// `inventory` already present in the target directory.
///
/// Keeps one download request per filename, drops the requests and overrides
/// whose file is already there, and plans the disposal of every other file:
/// remnants of interrupted transfers are deleted, the rest archived.
pub fn clean<F, P>(
    inventory: &Vec<String>,
    to_download: &mut Vec<ArtifactRequest<F>>,
    to_install: &mut Vec<OverrideEntry<P>>,
) -> (plan: CleanPlan)
    ensures
        is_fetch_after_clean(final(to_download)@, old(to_download)@, key_views(inventory@)),
        final(to_install)@ == install_after_clean(
            old(to_download)@,
            old(to_install)@,
            key_views(inventory@),
        ),
        forall|k: int|
            0 <= k < plan.duplicates@.len() ==> artifact_names(old(to_download)@).contains(
                #[trigger] plan.duplicates@[k]@,
            ),
        disposal_views(plan.disposals@) == disposals_after_clean(
            old(to_download)@,
            old(to_install)@,
            key_views(inventory@),
        ),
{
    let ghost od = to_download@;
    let fetched = artifact_keys(to_download);
    let installed = override_keys(to_install);
    let duplicates = remove_duplicates(to_download);
    let ghost dd = to_download@;
    let disposals = plan_disposals(inventory, &fetched, &installed);
    keep_absent(to_download, inventory);
    keep_overrides(to_install, inventory, &fetched);
    proof {
        lemma_absent_from(dd, key_views(inventory@));
        assert(to_download@ == absent_from(dd, key_views(inventory@)));
        assert(no_duplicates(artifact_names(to_download@)));
        assert forall|n: Seq<char>| artifact_names(to_download@).contains(n) <==> (artifact_names(
            od,
        ).contains(n) && !key_views(inventory@).contains(n)) by {
            assert(artifact_names(dd).contains(n) <==> artifact_names(od).contains(n));
        }
        assert forall|k: int| 0 <= k < to_download@.len() implies od.contains(
            #[trigger] to_download@[k],
        ) by {
            let x = to_download@[k];
            assert(dd.contains(x));
            let j = choose|j: int| 0 <= j < dd.len() && dd[j] == x;
            assert(od.contains(dd[j]));
        }
    }
    CleanPlan { duplicates, disposals }
}

/// `names` separated by ", ".
pub open spec fn joined(names: Seq<Seq<char>>) -> Seq<char>
    decreases names.len(),
{
    if names.len() == 0 {
        Seq::empty()
    } else if names.len() == 1 {
        names[0]
    } else {
        joined(names.drop_last()) + ", "@ + names.last()
    }
}

/// The warning shown when download requests collide on a filename.
pub open spec fn duplicate_warning_text(names: Seq<Seq<char>>) -> Seq<char> {
    "Warning: duplicate files found: "@ + joined(names) + ". Remove the mod each belongs to"@
}

/// The warning that names the filenames of the dropped duplicate requests.
pub fn duplicate_warning(names: &Vec<String>) -> (r: String)
    ensures
        r@ == duplicate_warning_text(key_views(names@)),
{
    let ghost kv = key_views(names@);
    let mut list = String::new();
    let mut i: usize = 0;
    while i < names.len()
        invariant
            i <= names@.len(),
            kv == key_views(names@),
            list@ == joined(kv.subrange(0, i as int)),
        decreases names@.len() - i,
    {
        proof {
            let sub = kv.subrange(0, i + 1);
            assert(sub.drop_last() =~= kv.subrange(0, i as int));
            assert(sub.last() == names@[i as int]@);
            if i == 0 {
                assert(sub[0] == names@[0]@);
                assert(list@ =~= Seq::<char>::empty());
            }
        }
        if i > 0 {
            list.append(", ");
        }
        list.append(names[i].as_str());
        proof {
            if i == 0 {
                assert(list@ =~= names@[0]@);
            }
        }
        i = i + 1;
    }
    proof {
        assert(kv.subrange(0, i as int) =~= kv);
    }
    let mut r = String::from_str("Warning: duplicate files found: ");
    r.append(list.as_str());
    r.append(". Remove the mod each belongs to");
    r
}

fn artifact_keys<F>(s: &Vec<ArtifactRequest<F>>) -> (r: Vec<String>)
    ensures
        key_views(r@) == artifact_names(s@),
{
    let mut r: Vec<String> = Vec::new();
    let mut i: usize = 0;
    while i < s.len()
        invariant
            i <= s@.len(),
            r@.len() == i,
            forall|k: int| 0 <= k < i ==> #[trigger] r@[k]@ == s@[k].filename@,
        decreases s@.len() - i,
    {
        r.push(s[i].filename.clone());
        i = i + 1;
    }
    proof {
        assert(key_views(r@) =~= artifact_names(s@));
    }
    r
}

fn override_keys<P>(s: &Vec<OverrideEntry<P>>) -> (r: Vec<String>)
    ensures
        key_views(r@) == override_names(s@),
{
    let mut r: Vec<String> = Vec::new();
    let mut i: usize = 0;
    while i < s.len()
        invariant
            i <= s@.len(),
            r@.len() == i,
            forall|k: int| 0 <= k < i ==> #[trigger] r@[k]@ == s@[k].name@,
        decreases s@.len() - i,
    {
        r.push(s[i].name.clone());
        i = i + 1;
    }
    proof {
        assert(key_views(r@) =~= override_names(s@));
    }
    r
}

} // verus!
