//! Timeline construction.
//!
//! A timeline is built once, at startup, from the artifacts found in the
//! backing store: names carrying a timestamp are kept, sorted by name, and
//! turned into an ordered sequence of `(payload, wait)` entries, where the
//! wait of an entry is the delay to observe before sending it, derived
//! from the difference of successive embedded timestamps.

use vstd::prelude::*;
use crate::lex::lex_le;
use crate::lex::lex_le_bytes;
use crate::lex::lemma_lex_total;
use crate::lex::lemma_lex_trans;
use crate::stamp::stamp_of_name;
use crate::stamp::parse_stamp;
use crate::stamp::lemma_stamp_of_name_bounds;
use crate::stamp::SECONDS_BOUND;

verus! {

/// A stored artifact as handed in by the payload source: its identifier
/// and its raw content, or `None` where the content could not be read.
#[derive(Debug, Clone)]
pub struct Artifact {
    pub name: Vec<u8>,
    pub content: Option<String>,
}

/// Mathematical image of an [`Artifact`].
pub ghost struct ArtifactView {
    pub name: Seq<u8>,
    pub content: Option<Seq<char>>,
}

impl View for Artifact {
    type V = ArtifactView;

    open spec fn view(&self) -> ArtifactView {
        ArtifactView {
            name: self.name@,
            content: match self.content {
                Some(c) => Some(c@),
                None => None,
            },
        }
    }
}

/// Images of a sequence of artifacts.
pub open spec fn artifact_views(s: Seq<Artifact>) -> Seq<ArtifactView> {
    s.map_values(|a: Artifact| a@)
}

/// The `.json` suffix that marks a timeline artifact.
pub open spec fn json_suffix() -> Seq<u8> {
    seq![46u8, 106u8, 115u8, 111u8, 110u8]
}

/// A name follows the timeline artifact convention: it ends in `.json`.
pub open spec fn is_timeline_name(name: Seq<u8>) -> bool {
    name.len() >= 5 && name.subrange(name.len() - 5, name.len() as int) == json_suffix()
}

/// The subsequence of artifacts whose names mark them as timeline
/// artifacts, in input order.
pub open spec fn keep_timeline(s: Seq<ArtifactView>) -> Seq<ArtifactView>
    decreases s.len(),
{
    if s.len() == 0 {
        Seq::empty()
    } else if is_timeline_name(s[0].name) {
        seq![s[0]] + keep_timeline(s.drop_first())
    } else {
        keep_timeline(s.drop_first())
    }
}

/// Whether `name` ends in `.json`.
pub fn is_timeline_name_x(name: &Vec<u8>) -> (r: bool)
    ensures
        r == is_timeline_name(name@),
{
    let n = name.len();
    if n < 5 {
        return false;
    }
    let r = name[n - 5] == 46 && name[n - 4] == 106 && name[n - 3] == 115 && name[n - 2] == 111
        && name[n - 1] == 110;
    proof {
        if r {
            assert(name@.subrange(n - 5, n as int) =~= json_suffix());
        } else {
            assert(name@.subrange(n - 5, n as int) != json_suffix());
        }
    }
    r
}

/// Keeps the artifacts whose names mark them as timeline artifacts.
fn filter_artifacts(arts: Vec<Artifact>) -> (r: Vec<Artifact>)
    ensures
        artifact_views(r@) == keep_timeline(artifact_views(arts@)),
{
    let ghost orig: Seq<ArtifactView> = artifact_views(arts@);
    let mut rest = arts;
    let mut out: Vec<Artifact> = Vec::new();
    while rest.len() > 0
        invariant
            keep_timeline(orig) == artifact_views(out@) + keep_timeline(artifact_views(rest@)),
        decreases rest.len(),
    {
        let ghost pre: Seq<ArtifactView> = artifact_views(rest@);
        let ghost done: Seq<ArtifactView> = artifact_views(out@);
        let a = rest.remove(0);
        proof {
            assert(artifact_views(rest@) =~= pre.drop_first());
            assert(pre[0] == a@);
        }
        if is_timeline_name_x(&a.name) {
            out.push(a);
            proof {
                assert(artifact_views(out@) =~= done.push(a@));
                assert(done + (seq![a@] + keep_timeline(pre.drop_first())) =~= done.push(a@)
                    + keep_timeline(pre.drop_first()));
            }
        }
    }
    proof {
        assert(artifact_views(rest@) =~= Seq::<ArtifactView>::empty());
        assert(keep_timeline(orig) =~= artifact_views(out@));
    }
    out
}

/// The artifacts stand in ascending name order.
pub open spec fn sorted_by_name(s: Seq<ArtifactView>) -> bool {
    forall|i: int, j: int| #![trigger s[i], s[j]] 0 <= i < j < s.len() ==> lex_le(s[i].name, s[j].name)
}

/// `x` placed into the sorted sequence `s`: after every artifact whose
/// name is at or before `x`'s, before the rest.
pub open spec fn sort_insert(s: Seq<ArtifactView>, x: ArtifactView) -> Seq<ArtifactView>
    decreases s.len(),
{
    if s.len() == 0 {
        seq![x]
    } else if lex_le(s[0].name, x.name) {
        seq![s[0]] + sort_insert(s.drop_first(), x)
    } else {
        seq![x] + s
    }
}

/// The artifacts in ascending name order (insertion sort; artifacts with
/// equal names keep their input order).
pub open spec fn sort_by_name(s: Seq<ArtifactView>) -> Seq<ArtifactView>
    decreases s.len(),
{
    if s.len() == 0 {
        Seq::empty()
    } else {
        sort_insert(sort_by_name(s.drop_last()), s.last())
    }
}

/// Inserting into a sorted sequence keeps it sorted, adds the new
/// artifact, and keeps everything else.
pub proof fn lemma_sort_insert(s: Seq<ArtifactView>, x: ArtifactView)
    requires
        sorted_by_name(s),
    ensures
        sort_insert(s, x).len() == s.len() + 1,
        sorted_by_name(sort_insert(s, x)),
        sort_insert(s, x).to_multiset() == s.to_multiset().insert(x),
        forall|k: int|
            0 <= k < s.len() + 1 ==> (#[trigger] sort_insert(s, x)[k] == x || s.contains(
                sort_insert(s, x)[k],
            )),
    decreases s.len(),
{
    broadcast use vstd::seq_lib::group_to_multiset_ensures;

    let r = sort_insert(s, x);
    if s.len() == 0 {
        assert(seq![x] =~= Seq::<ArtifactView>::empty().push(x));
        assert(r.to_multiset() =~= s.to_multiset().insert(x));
    } else if lex_le(s[0].name, x.name) {
        let rest = s.drop_first();
        assert(sorted_by_name(rest));
        lemma_sort_insert(rest, x);
        let r1 = sort_insert(rest, x);
        assert(r =~= seq![s[0]] + r1);
        assert forall|k: int| 0 <= k < r.len() implies r[k] == x || s.contains(r[k]) by {
            if k > 0 {
                if r1[k - 1] != x {
                    assert(rest.contains(r1[k - 1]));
                    let m = choose|m: int| 0 <= m < rest.len() && rest[m] == r1[k - 1];
                    assert(s[m + 1] == rest[m]);
                }
            } else {
                assert(s[0] == r[0]);
            }
        }
        assert forall|i: int, j: int|
            #![trigger r[i], r[j]]
            0 <= i < j < r.len() implies lex_le(r[i].name, r[j].name) by {
            if i == 0 {
                if r[j] == x {
                    assert(lex_le(s[0].name, x.name));
                } else {
                    assert(rest.contains(r1[j - 1]));
                    let m = choose|m: int| 0 <= m < rest.len() && rest[m] == r1[j - 1];
                    assert(s[m + 1] == rest[m]);
                    assert(lex_le(s[0].name, s[m + 1].name));
                }
            } else {
                assert(r[i] == r1[i - 1] && r[j] == r1[j - 1]);
            }
        }
        assert(s =~= seq![s[0]] + rest);
        assert(seq![s[0]] + rest =~= rest.insert(0, s[0]));
        assert(seq![s[0]] + r1 =~= r1.insert(0, s[0]));
        assert((rest.insert(0, s[0])).to_multiset() =~= rest.to_multiset().insert(s[0]));
        assert((r1.insert(0, s[0])).to_multiset() =~= r1.to_multiset().insert(s[0]));
        assert(r.to_multiset() =~= s.to_multiset().insert(x)) by {
            assert(r.to_multiset() == r1.to_multiset().insert(s[0]));
            assert(r1.to_multiset() == rest.to_multiset().insert(x));
            assert(s.to_multiset() == rest.to_multiset().insert(s[0]));
        }
    } else {
        lemma_lex_total(s[0].name, x.name);
        assert forall|i: int, j: int|
            #![trigger r[i], r[j]]
            0 <= i < j < r.len() implies lex_le(r[i].name, r[j].name) by {
            if i == 0 {
                assert(r[j] == s[j - 1]);
                if j > 1 {
                    lemma_lex_trans(x.name, s[0].name, s[j - 1].name);
                }
            }
        }
        assert(seq![x] + s =~= s.insert(0, x));
        assert((s.insert(0, x)).to_multiset() =~= s.to_multiset().insert(x));
    }
}

/// Sorting sorts: the result is in ascending name order and holds exactly
/// the input artifacts.
pub proof fn lemma_sort_by_name(s: Seq<ArtifactView>)
    ensures
        sort_by_name(s).len() == s.len(),
        sorted_by_name(sort_by_name(s)),
        sort_by_name(s).to_multiset() == s.to_multiset(),
    decreases s.len(),
{
    broadcast use vstd::seq_lib::group_to_multiset_ensures;

    if s.len() > 0 {
        lemma_sort_by_name(s.drop_last());
        lemma_sort_insert(sort_by_name(s.drop_last()), s.last());
        assert(s =~= s.drop_last().push(s.last()));
        assert((s.drop_last().push(s.last())).to_multiset() =~= s.drop_last().to_multiset().insert(
            s.last(),
        ));
    }
}

/// Inserting at the first position whose artifact is not at or before `x`
/// is what [`sort_insert`] does.
proof fn lemma_sort_insert_at(s: Seq<ArtifactView>, x: ArtifactView, j: int)
    requires
        sorted_by_name(s),
        0 <= j <= s.len(),
        forall|k: int| 0 <= k < j ==> lex_le(#[trigger] s[k].name, x.name),
        j < s.len() ==> !lex_le(s[j].name, x.name),
    ensures
        s.insert(j, x) == sort_insert(s, x),
    decreases j,
{
    if j == 0 {
        if s.len() == 0 {
            assert(s.insert(0, x) =~= seq![x]);
        } else {
            assert(s.insert(0, x) =~= seq![x] + s);
        }
    } else {
        let rest = s.drop_first();
        assert(sorted_by_name(rest));
        assert(forall|k: int| 0 <= k < j - 1 ==> lex_le(#[trigger] rest[k].name, x.name));
        lemma_sort_insert_at(rest, x, j - 1);
        assert(s.insert(j, x) =~= seq![s[0]] + rest.insert(j - 1, x));
    }
}

/// Sorts the artifacts by name, in ascending lexicographic order.
fn sort_artifacts(arts: Vec<Artifact>) -> (r: Vec<Artifact>)
    ensures
        artifact_views(r@) == sort_by_name(artifact_views(arts@)),
{
    let ghost orig: Seq<ArtifactView> = artifact_views(arts@);
    let mut rest = arts;
    let ghost mut taken: int = 0;
    let mut out: Vec<Artifact> = Vec::new();
    while rest.len() > 0
        invariant
            0 <= taken <= orig.len(),
            artifact_views(rest@) =~= orig.skip(taken),
            artifact_views(out@) == sort_by_name(orig.take(taken)),
            sorted_by_name(artifact_views(out@)),
        decreases rest.len(),
    {
        let ghost pre: Seq<ArtifactView> = artifact_views(rest@);
        let ghost done: Seq<ArtifactView> = artifact_views(out@);
        let a = rest.remove(0);
        proof {
            assert(artifact_views(rest@) =~= pre.drop_first());
            assert(pre[0] == a@);
            assert(pre.drop_first() =~= orig.skip(taken + 1));
        }
        let mut j: usize = 0;
        while j < out.len() && lex_le_bytes(&out[j].name, &a.name)
            invariant
                0 <= j <= out@.len(),
                artifact_views(out@) == done,
                forall|k: int| 0 <= k < j ==> lex_le(#[trigger] done[k].name, a@.name),
            decreases out@.len() - j,
        {
            proof {
                assert(done[j as int].name == out@[j as int].name@);
            }
            j = j + 1;
        }
        proof {
            lemma_sort_insert_at(done, a@, j as int);
        }
        out.insert(j, a);
        proof {
            assert(artifact_views(out@) =~= done.insert(j as int, a@));
            lemma_sort_insert(done, a@);
            assert(orig.take(taken + 1).drop_last() =~= orig.take(taken));
            assert(orig.take(taken + 1).last() == pre[0]);
            taken = taken + 1;
        }
    }
    proof {
        assert(orig.take(taken) =~= orig);
    }
    out
}

/// One step of the replayed feed: the payload to send, the name it came
/// from, and the delay to observe before sending it.
#[derive(Debug, Clone)]
pub struct TimelineEntry {
    pub label: Vec<u8>,
    pub content: String,
    pub wait_secs: u64,
}

/// Mathematical image of a [`TimelineEntry`].
pub ghost struct EntryView {
    pub label: Seq<u8>,
    pub content: Seq<char>,
    pub wait_secs: u64,
}

impl View for TimelineEntry {
    type V = EntryView;

    open spec fn view(&self) -> EntryView {
        EntryView { label: self.label@, content: self.content@, wait_secs: self.wait_secs }
    }
}

/// Images of a sequence of entries.
pub open spec fn entry_views(s: Seq<TimelineEntry>) -> Seq<EntryView> {
    s.map_values(|e: TimelineEntry| e@)
}

/// Why a timeline could not be built; each variant names the artifact at
/// fault. All of these are fatal: no partial timeline is produced.
#[derive(Debug, Clone, PartialEq, Eq)]
pub enum BuildError {
    /// The name has no parseable `YYYYMMDDHHMMSS` field.
    MalformedIdentifier(Vec<u8>),
    /// The artifact's stamp precedes its predecessor's in sorted order.
    NonMonotonicTimeline(Vec<u8>),
    /// The artifact's content could not be read.
    PayloadUnavailable(Vec<u8>),
}

/// Mathematical image of a [`BuildError`].
pub ghost enum ErrorView {
    MalformedIdentifier(Seq<u8>),
    NonMonotonicTimeline(Seq<u8>),
    PayloadUnavailable(Seq<u8>),
}

impl View for BuildError {
    type V = ErrorView;

    open spec fn view(&self) -> ErrorView {
        match self {
            BuildError::MalformedIdentifier(n) => ErrorView::MalformedIdentifier(n@),
            BuildError::NonMonotonicTimeline(n) => ErrorView::NonMonotonicTimeline(n@),
            BuildError::PayloadUnavailable(n) => ErrorView::PayloadUnavailable(n@),
        }
    }
}

/// Walks the sorted artifacts in order and extends `acc` with one entry
/// per artifact, or stops at the first artifact at fault. `prev` is the
/// stamp of the entry before `s`, if any; the first entry overall waits
/// `first_wait` seconds.
pub open spec fn plan_entries(
    s: Seq<ArtifactView>,
    prev: Option<int>,
    acc: Seq<EntryView>,
    first_wait: u64,
) -> Result<Seq<EntryView>, ErrorView>
    decreases s.len(),
{
    if s.len() == 0 {
        Ok(acc)
    } else {
        let a = s[0];
        match stamp_of_name(a.name) {
            None => Err(ErrorView::MalformedIdentifier(a.name)),
            Some(t) => {
                let w: int = match prev {
                    None => first_wait as int,
                    Some(p) => t - p,
                };
                if w < 0 {
                    Err(ErrorView::NonMonotonicTimeline(a.name))
                } else {
                    match a.content {
                        None => Err(ErrorView::PayloadUnavailable(a.name)),
                        Some(c) => plan_entries(
                            s.drop_first(),
                            Some(t),
                            acc.push(EntryView { label: a.name, content: c, wait_secs: w as u64 }),
                            first_wait,
                        ),
                    }
                }
            },
        }
    }
}

/// The whole construction: keep the timeline artifacts, sort them by
/// name, and plan one entry per artifact.
pub open spec fn spec_build(arts: Seq<ArtifactView>, first_wait: u64) -> Result<
    Seq<EntryView>,
    ErrorView,
> {
    plan_entries(sort_by_name(keep_timeline(arts)), None, Seq::empty(), first_wait)
}

/// The ordered, immutable sequence of entries that every connection
/// replays. Built exactly once, before any connection is accepted, and
/// only read afterwards.
#[derive(Debug)]
pub struct Timeline {
    entries: Vec<TimelineEntry>,
}

impl View for Timeline {
    type V = Seq<EntryView>;

    closed spec fn view(&self) -> Seq<EntryView> {
        entry_views(self.entries@)
    }
}

impl Timeline {
    /// Number of entries.
    pub fn len(&self) -> (n: usize)
        ensures
            n == self@.len(),
    {
        self.entries.len()
    }

    /// Delay to observe before sending entry `i`, in seconds.
    pub fn wait_secs(&self, i: usize) -> (w: u64)
        requires
            i < self@.len(),
        ensures
            w == self@[i as int].wait_secs,
    {
        self.entries[i].wait_secs
    }

    /// Name of the artifact entry `i` came from.
    pub fn label(&self, i: usize) -> (r: &Vec<u8>)
        requires
            i < self@.len(),
        ensures
            r@ == self@[i as int].label,
    {
        &self.entries[i].label
    }

    /// Payload of entry `i`.
    pub fn content(&self, i: usize) -> (r: &String)
        requires
            i < self@.len(),
        ensures
            r@ == self@[i as int].content,
    {
        &self.entries[i].content
    }
}

/// Builds the timeline from the artifacts of the backing store: keeps
/// those named as timeline artifacts, sorts them by name, and gives each
/// a wait equal to the stamp difference to its predecessor; the first
/// waits `first_wait_secs`. Returns an error — and no timeline — exactly
/// where [`spec_build`] does: on the first artifact in sorted order whose
/// name has no stamp, whose stamp precedes its predecessor's, or whose
/// content is missing.
pub fn build_timeline(arts: Vec<Artifact>, first_wait_secs: u64) -> (r: Result<
    Timeline,
    BuildError,
>)
    ensures
        match r {
            Ok(t) => spec_build(artifact_views(arts@), first_wait_secs) == Ok::<
                Seq<EntryView>,
                ErrorView,
            >(t@),
            Err(e) => spec_build(artifact_views(arts@), first_wait_secs) == Err::<
                Seq<EntryView>,
                ErrorView,
            >(e@),
        },
{
    let ghost input: Seq<ArtifactView> = artifact_views(arts@);
    let filtered = filter_artifacts(arts);
    let sorted = sort_artifacts(filtered);
    let ghost plan_input: Seq<ArtifactView> = artifact_views(sorted@);
    let mut rest = sorted;
    let mut out: Vec<TimelineEntry> = Vec::new();
    let mut prev: Option<u64> = None;
    proof {
        assert(entry_views(out@) =~= Seq::<EntryView>::empty());
        assert(plan_input == sort_by_name(keep_timeline(input)));
    }
    while rest.len() > 0
        invariant
            input == artifact_views(arts@),
            spec_build(input, first_wait_secs) == plan_entries(
                artifact_views(rest@),
                match prev {
                    Some(p) => Some(p as int),
                    None => None,
                },
                entry_views(out@),
                first_wait_secs,
            ),
            match prev {
                Some(p) => p < SECONDS_BOUND,
                None => true,
            },
        decreases rest.len(),
    {
        let ghost pre: Seq<ArtifactView> = artifact_views(rest@);
        let ghost acc: Seq<EntryView> = entry_views(out@);
        let ghost prevv: Option<int> = match prev {
            Some(p) => Some(p as int),
            None => None,
        };
        let a = rest.remove(0);
        let ghost av: ArtifactView = a@;
        proof {
            assert(pre.len() > 0);
            assert(artifact_views(rest@) =~= pre.drop_first());
            assert(pre[0] == av);
        }
        let Artifact { name, content } = a;
        let t = match parse_stamp(&name) {
            Some(t) => t,
            None => {
                return Err(BuildError::MalformedIdentifier(name));
            },
        };
        let w: u64 = match prev {
            None => first_wait_secs,
            Some(p) => {
                if t < p {
                    return Err(BuildError::NonMonotonicTimeline(name));
                }
                t - p
            },
        };
        let c = match content {
            Some(c) => c,
            None => {
                return Err(BuildError::PayloadUnavailable(name));
            },
        };
        out.push(TimelineEntry { label: name, content: c, wait_secs: w });
        prev = Some(t);
        proof {
            assert(entry_views(out@) =~= acc.push(
                EntryView { label: av.name, content: av.content.unwrap(), wait_secs: w },
            ));
        }
    }
    proof {
        assert(artifact_views(rest@) =~= Seq::<ArtifactView>::empty());
    }
    Ok(Timeline { entries: out })
}

/// The artifact can become an entry: its name carries a stamp and its
/// content is present.
pub open spec fn artifact_ok(a: ArtifactView) -> bool {
    stamp_of_name(a.name) is Some && a.content is Some
}

/// Successive stamps never decrease.
pub open spec fn stamps_nondecreasing(s: Seq<ArtifactView>) -> bool {
    forall|i: int|
        1 <= i < s.len() ==> stamp_of_name(#[trigger] s[i].name)->0 >= stamp_of_name(
            s[i - 1].name,
        )->0
}

/// What a successful plan holds: one entry per artifact, in order, with
/// the artifact's name and content, waiting `first_wait` at the start
/// (or the stamp difference to `prev`) and the stamp difference to the
/// predecessor afterwards.
#[verifier::rlimit(60)]
proof fn lemma_plan_ok(
    s: Seq<ArtifactView>,
    prev: Option<int>,
    acc: Seq<EntryView>,
    first_wait: u64,
    r: Seq<EntryView>,
)
    requires
        plan_entries(s, prev, acc, first_wait) == Ok::<Seq<EntryView>, ErrorView>(r),
        match prev {
            Some(p) => 0 <= p < SECONDS_BOUND,
            None => true,
        },
    ensures
        r.len() == acc.len() + s.len(),
        forall|i: int| 0 <= i < acc.len() ==> #[trigger] r[i] == acc[i],
        forall|i: int|
            acc.len() <= i < r.len() ==> #[trigger] r[i].label == s[i - acc.len()].name
                && stamp_of_name(s[i - acc.len()].name) is Some && s[i - acc.len()].content is Some
                && r[i].content == s[i - acc.len()].content->0,
        s.len() > 0 ==> r[acc.len() as int].wait_secs as int == (match prev {
            None => first_wait as int,
            Some(p) => stamp_of_name(s[0].name)->0 - p,
        }),
        s.len() > 0 && prev is Some ==> stamp_of_name(s[0].name)->0 >= prev->0,
        forall|i: int|
            acc.len() < i < r.len() ==> #[trigger] r[i].wait_secs as int == stamp_of_name(
                s[i - acc.len()].name,
            )->0 - stamp_of_name(s[i - acc.len() - 1].name)->0,
    decreases s.len(),
{
    if s.len() > 0 {
        let a = s[0];
        let t = stamp_of_name(a.name)->0;
        lemma_stamp_of_name_bounds(a.name);
        let w: int = match prev {
            None => first_wait as int,
            Some(p) => t - p,
        };
        let e = EntryView { label: a.name, content: a.content->0, wait_secs: w as u64 };
        let s2 = s.drop_first();
        let acc2 = acc.push(e);
        lemma_plan_ok(s2, Some(t), acc2, first_wait, r);
        assert forall|i: int|
            acc.len() <= i < r.len() implies #[trigger] r[i].label == s[i - acc.len()].name
            && stamp_of_name(s[i - acc.len()].name) is Some && s[i - acc.len()].content is Some
            && r[i].content == s[i - acc.len()].content->0 by {
            if i == acc.len() {
                assert(r[i] == acc2[i]);
                assert(acc2[acc.len() as int] == e);
                assert(s[0] == a);
            } else {
                assert(r[i].label == s2[i - acc2.len()].name);
                assert(s2[i - acc2.len()] == s[i - acc.len()]);
            }
        }
        assert forall|i: int|
            acc.len() < i < r.len() implies #[trigger] r[i].wait_secs as int == stamp_of_name(
            s[i - acc.len()].name,
        )->0 - stamp_of_name(s[i - acc.len() - 1].name)->0 by {
            if i == acc.len() + 1 {
                assert(r[i].wait_secs as int == stamp_of_name(s2[0].name)->0 - t);
                assert(s2[0] == s[1]);
                assert(s[0] == a);
            } else {
                assert(r[i].wait_secs as int == stamp_of_name(s2[i - acc2.len()].name)->0
                    - stamp_of_name(s2[i - acc2.len() - 1].name)->0);
                assert(s2[i - acc2.len()] == s[i - acc.len()]);
                assert(s2[i - acc2.len() - 1] == s[i - acc.len() - 1]);
            }
        }
        assert(r[acc.len() as int] == acc2[acc.len() as int]);
    }
}

/// Where a plan succeeds: every artifact is whole and the stamps never
/// decrease along the sequence.
#[verifier::rlimit(60)]
proof fn lemma_plan_ok_iff(
    s: Seq<ArtifactView>,
    prev: Option<int>,
    acc: Seq<EntryView>,
    first_wait: u64,
)
    ensures
        plan_entries(s, prev, acc, first_wait) is Ok <==> {
            &&& forall|i: int| 0 <= i < s.len() ==> artifact_ok(#[trigger] s[i])
            &&& stamps_nondecreasing(s)
            &&& (prev is Some && s.len() > 0 ==> stamp_of_name(s[0].name)->0 >= prev->0)
        },
    decreases s.len(),
{
    if s.len() > 0 {
        let a = s[0];
        if stamp_of_name(a.name) is Some {
            let t = stamp_of_name(a.name)->0;
            let w: int = match prev {
                None => first_wait as int,
                Some(p) => t - p,
            };
            if w >= 0 && a.content is Some {
                let e = EntryView { label: a.name, content: a.content->0, wait_secs: w as u64 };
                lemma_plan_ok_iff(s.drop_first(), Some(t), acc.push(e), first_wait);
                assert(forall|i: int|
                    1 <= i < s.len() ==> s.drop_first()[i - 1] == #[trigger] s[i]);
                assert(forall|i: int|
                    0 <= i < s.drop_first().len() ==> #[trigger] s.drop_first()[i] == s[i + 1]);
            }
        }
    }
}

/// The entries of a built timeline are the timeline artifacts in
/// ascending name order: entry `i` is made from the `i`-th sorted name,
/// and the labels themselves ascend. Together with
/// [`lemma_sort_by_name`], the entries are a permutation of the kept
/// artifacts ordered lexicographically by name.
pub proof fn law_entries_follow_name_order(arts: Seq<ArtifactView>, first_wait: u64, r: Seq<
    EntryView,
>)
    requires
        spec_build(arts, first_wait) == Ok::<Seq<EntryView>, ErrorView>(r),
    ensures
        r.len() == keep_timeline(arts).len(),
        forall|i: int|
            0 <= i < r.len() ==> #[trigger] r[i].label == sort_by_name(keep_timeline(arts))[i].name
                && r[i].content == sort_by_name(keep_timeline(arts))[i].content->0,
        forall|i: int, j: int|
            #![trigger r[i].label, r[j].label]
            0 <= i < j < r.len() ==> lex_le(r[i].label, r[j].label),
{
    let sorted = sort_by_name(keep_timeline(arts));
    lemma_sort_by_name(keep_timeline(arts));
    lemma_plan_ok(sorted, None, Seq::empty(), first_wait, r);
}

/// The first entry of a built timeline waits `first_wait` seconds; each
/// later entry waits exactly the difference between its own stamp and its
/// predecessor's, which is never negative.
pub proof fn law_waits(arts: Seq<ArtifactView>, first_wait: u64, r: Seq<EntryView>)
    requires
        spec_build(arts, first_wait) == Ok::<Seq<EntryView>, ErrorView>(r),
    ensures
        r.len() > 0 ==> r[0].wait_secs == first_wait,
        forall|i: int|
            1 <= i < r.len() ==> #[trigger] r[i].wait_secs as int == stamp_of_name(r[i].label)->0
                - stamp_of_name(r[i - 1].label)->0,
        forall|i: int|
            1 <= i < r.len() ==> stamp_of_name(#[trigger] r[i].label)->0 >= stamp_of_name(
                r[i - 1].label,
            )->0,
{
    let sorted = sort_by_name(keep_timeline(arts));
    lemma_plan_ok(sorted, None, Seq::empty(), first_wait, r);
    assert forall|i: int|
        1 <= i < r.len() implies stamp_of_name(#[trigger] r[i].label)->0 >= stamp_of_name(
        r[i - 1].label,
    )->0 by {
        assert(r[i].wait_secs as int == stamp_of_name(sorted[i].name)->0 - stamp_of_name(
            sorted[i - 1].name,
        )->0);
        assert(r[i].label == sorted[i].name);
        assert(r[i - 1].label == sorted[i - 1].name);
    }
}

/// Building twice from the same artifact set and the same initial wait
/// yields identical results: the construction is a function of its
/// inputs alone.
pub proof fn law_build_deterministic(
    arts: Seq<ArtifactView>,
    first_wait: u64,
    r1: Result<Seq<EntryView>, ErrorView>,
    r2: Result<Seq<EntryView>, ErrorView>,
)
    requires
        r1 == spec_build(arts, first_wait),
        r2 == spec_build(arts, first_wait),
    ensures
        r1 == r2,
{
}

/// When construction succeeds: exactly when every kept artifact has a
/// parseable stamp and a readable content, and the stamps never decrease
/// once the artifacts are sorted by name. In particular a malformed
/// identifier among the kept artifacts means an error, and no timeline.
pub proof fn law_build_ok_iff(arts: Seq<ArtifactView>, first_wait: u64)
    ensures
        spec_build(arts, first_wait) is Ok <==> {
            &&& forall|i: int|
                0 <= i < sort_by_name(keep_timeline(arts)).len() ==> artifact_ok(
                    #[trigger] sort_by_name(keep_timeline(arts))[i],
                )
            &&& stamps_nondecreasing(sort_by_name(keep_timeline(arts)))
        },
{
    lemma_plan_ok_iff(sort_by_name(keep_timeline(arts)), None, Seq::empty(), first_wait);
}

} // verus!
