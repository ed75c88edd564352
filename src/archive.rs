//! Archives: their metadata and its order, the planning of a new archive,
//! the protocol that commits it, and the planning of a deletion.
use crate::config::is_sanitized_filename;
use crate::error::CSError;
use crate::log::{all_wf, format_samples, log_read, log_text, Sample};
use crate::recorder::{inside, outside, sorted_by_time, RecordLog};
use crate::span::TimeSpan;
use crate::time::{format_time, strftime_of, Timestamp};
use vstd::prelude::*;
use vstd::string::*;

verus! {

/// What an archive holds: its time range, its name and its sample count.
#[derive(Clone, Debug, Eq)]
pub struct ArchiveMeta {
    pub start_time: Timestamp,
    pub end_time: Timestamp,
    pub archive_name: String,
    pub records_num: usize,
}

/// Order of two instants: -1, 0 or 1.
pub open spec fn cmp_time(a: Timestamp, b: Timestamp) -> int {
    if a.secs < b.secs || (a.secs == b.secs && a.nanos < b.nanos) {
        -1
    } else if a.secs == b.secs && a.nanos == b.nanos {
        0
    } else {
        1
    }
}

/// Lexicographic order of two texts: -1, 0 or 1.
pub open spec fn cmp_text(a: Seq<char>, b: Seq<char>) -> int
    decreases a.len(),
{
    if a.len() == 0 && b.len() == 0 {
        0
    } else if a.len() == 0 {
        -1
    } else if b.len() == 0 {
        1
    } else if a[0] < b[0] {
        -1
    } else if a[0] > b[0] {
        1
    } else {
        cmp_text(a.drop_first(), b.drop_first())
    }
}

pub open spec fn cmp_count(a: usize, b: usize) -> int {
    if a < b {
        -1
    } else if a == b {
        0
    } else {
        1
    }
}

/// Order of metadata: by start time, then name, then end time, then count.
pub open spec fn cmp_meta(a: ArchiveMeta, b: ArchiveMeta) -> int {
    let c1 = cmp_time(a.start_time, b.start_time);
    let c2 = cmp_text(a.archive_name@, b.archive_name@);
    let c3 = cmp_time(a.end_time, b.end_time);
    if c1 != 0 {
        c1
    } else if c2 != 0 {
        c2
    } else if c3 != 0 {
        c3
    } else {
        cmp_count(a.records_num, b.records_num)
    }
}

pub open spec fn meta_le(a: ArchiveMeta, b: ArchiveMeta) -> bool {
    cmp_meta(a, b) <= 0
}

pub open spec fn ordering_of(c: int) -> core::cmp::Ordering {
    if c < 0 {
        core::cmp::Ordering::Less
    } else if c == 0 {
        core::cmp::Ordering::Equal
    } else {
        core::cmp::Ordering::Greater
    }
}

/// Two metadata are equal when their instants are the same (whatever the
/// offsets), and their names and counts are equal.
impl PartialEq for ArchiveMeta {
    fn eq(&self, other: &ArchiveMeta) -> (r: bool) {
        compare_time(&self.start_time, &other.start_time) == 0 && compare_time(
            &self.end_time,
            &other.end_time,
        ) == 0 && compare_text(self.archive_name.as_str(), other.archive_name.as_str()) == 0
            && self.records_num == other.records_num
    }
}

impl vstd::std_specs::cmp::PartialEqSpecImpl for ArchiveMeta {
    open spec fn obeys_eq_spec() -> bool {
        true
    }

    open spec fn eq_spec(&self, other: &ArchiveMeta) -> bool {
        cmp_meta(*self, *other) == 0
    }
}

impl PartialOrd for ArchiveMeta {
    fn partial_cmp(&self, other: &ArchiveMeta) -> (r: Option<core::cmp::Ordering>) {
        let c = self.compare(other);
        if c < 0 {
            Some(core::cmp::Ordering::Less)
        } else if c == 0 {
            Some(core::cmp::Ordering::Equal)
        } else {
            Some(core::cmp::Ordering::Greater)
        }
    }
}

impl vstd::std_specs::cmp::PartialOrdSpecImpl for ArchiveMeta {
    open spec fn obeys_partial_cmp_spec() -> bool {
        true
    }

    open spec fn partial_cmp_spec(&self, other: &ArchiveMeta) -> Option<core::cmp::Ordering> {
        Some(ordering_of(cmp_meta(*self, *other)))
    }
}

pub proof fn lemma_cmp_text(a: Seq<char>, b: Seq<char>, c: Seq<char>)
    ensures
        cmp_text(a, b) == -cmp_text(b, a),
        cmp_text(a, b) == 0 <==> a == b,
        -1 <= cmp_text(a, b) <= 1,
        cmp_text(a, b) <= 0 && cmp_text(b, c) <= 0 ==> cmp_text(a, c) <= 0,
        cmp_text(a, b) == 0 ==> cmp_text(a, c) == cmp_text(b, c),
    decreases a.len(),
{
    if a.len() > 0 && b.len() > 0 && c.len() > 0 {
        lemma_cmp_text(a.drop_first(), b.drop_first(), c.drop_first());
        if a[0] == b[0] && a.drop_first() == b.drop_first() {
            assert(a =~= seq![a[0]] + a.drop_first());
            assert(b =~= seq![b[0]] + b.drop_first());
        }
        if a == b {
            assert(a.drop_first() == b.drop_first());
        }
    } else if a.len() > 0 && b.len() > 0 {
        lemma_cmp_text(a.drop_first(), b.drop_first(), c);
        if a[0] == b[0] && a.drop_first() == b.drop_first() {
            assert(a =~= seq![a[0]] + a.drop_first());
            assert(b =~= seq![b[0]] + b.drop_first());
        }
        if a == b {
            assert(a.drop_first() == b.drop_first());
        }
    } else if a.len() == 0 && b.len() == 0 {
        assert(a =~= b);
    }
}

/// Metadata order is total and transitive.
pub proof fn lemma_meta_order(a: ArchiveMeta, b: ArchiveMeta, c: ArchiveMeta)
    ensures
        meta_le(a, b) || meta_le(b, a),
        meta_le(a, b) && meta_le(b, c) ==> meta_le(a, c),
        cmp_meta(a, b) == -cmp_meta(b, a),
        meta_le(a, a),
{
    lemma_cmp_text(a.archive_name@, a.archive_name@, c.archive_name@);
    lemma_cmp_text(a.archive_name@, b.archive_name@, c.archive_name@);
    lemma_cmp_text(b.archive_name@, a.archive_name@, c.archive_name@);
    lemma_cmp_text(b.archive_name@, c.archive_name@, a.archive_name@);
    lemma_cmp_text(a.archive_name@, c.archive_name@, b.archive_name@);
    lemma_cmp_text(c.archive_name@, a.archive_name@, b.archive_name@);
}

/// Compares two texts by their characters.
pub fn compare_text(a: &str, b: &str) -> (r: i8)
    ensures
        r as int == cmp_text(a@, b@),
{
    let n = a.unicode_len();
    let m = b.unicode_len();
    let mut i: usize = 0;
    proof {
        assert(a@.subrange(0, n as int) =~= a@);
        assert(b@.subrange(0, m as int) =~= b@);
    }
    while i < n && i < m
        invariant
            i <= n,
            i <= m,
            n == a@.len(),
            m == b@.len(),
            cmp_text(a@, b@) == cmp_text(a@.subrange(i as int, n as int), b@.subrange(i as int, m as int)),
        decreases n - i,
    {
        let ghost sa = a@.subrange(i as int, n as int);
        let ghost sb = b@.subrange(i as int, m as int);
        let x = a.get_char(i);
        let y = b.get_char(i);
        assert(sa[0] == x && sb[0] == y);
        if x < y {
            return -1;
        }
        if x > y {
            return 1;
        }
        proof {
            assert(sa.drop_first() =~= a@.subrange(i as int + 1, n as int));
            assert(sb.drop_first() =~= b@.subrange(i as int + 1, m as int));
        }
        i = i + 1;
    }
    proof {
        let sa = a@.subrange(i as int, n as int);
        let sb = b@.subrange(i as int, m as int);
        if i == n {
            assert(sa.len() == 0);
        }
        if i == m {
            assert(sb.len() == 0);
        }
    }
    if i == n && i == m {
        0
    } else if i == n {
        -1
    } else {
        1
    }
}

fn compare_time(a: &Timestamp, b: &Timestamp) -> (r: i8)
    ensures
        r as int == cmp_time(*a, *b),
{
    if a.secs < b.secs || (a.secs == b.secs && a.nanos < b.nanos) {
        -1
    } else if a.secs == b.secs && a.nanos == b.nanos {
        0
    } else {
        1
    }
}

impl ArchiveMeta {
    /// Compares by start time, name, end time and count, in that order.
    pub fn compare(&self, other: &ArchiveMeta) -> (r: i8)
        ensures
            r as int == cmp_meta(*self, *other),
    {
        let c1 = compare_time(&self.start_time, &other.start_time);
        if c1 != 0 {
            return c1;
        }
        let c2 = compare_text(self.archive_name.as_str(), other.archive_name.as_str());
        if c2 != 0 {
            return c2;
        }
        let c3 = compare_time(&self.end_time, &other.end_time);
        if c3 != 0 {
            return c3;
        }
        if self.records_num < other.records_num {
            -1
        } else if self.records_num == other.records_num {
            0
        } else {
            1
        }
    }
}

pub open spec fn sorted_metas(v: Seq<ArchiveMeta>) -> bool {
    forall|i: int, j: int| 0 <= i < j < v.len() ==> meta_le(#[trigger] v[i], #[trigger] v[j])
}

/// Sorts metadata for listing.
pub fn sort_metas(v: Vec<ArchiveMeta>) -> (r: Vec<ArchiveMeta>)
    ensures
        sorted_metas(r@),
        r@.to_multiset() == v@.to_multiset(),
{
    let mut v = v;
    let ghost orig = v@;
    let mut r: Vec<ArchiveMeta> = Vec::new();
    let n = v.len();
    proof {
        assert(orig.subrange(n as int, n as int) =~= r@);
        assert(orig.subrange(0, n as int) =~= orig);
    }
    let mut taken: usize = 0;
    // Take entries from the back of `v`, so that each is moved, not copied.
    while v.len() > 0
        invariant
            taken + v@.len() == n,
            n == orig.len(),
            v@ == orig.subrange(0, v@.len() as int),
            sorted_metas(r@),
            r@.to_multiset() == orig.subrange(v@.len() as int, n as int).to_multiset(),
        decreases v.len(),
    {
        let x = v.pop().unwrap();
        let ghost k = v@.len();
        let mut q: usize = 0;
        // Put `x` before the first entry that is not below it.
        while q < r.len() && r[q].compare(&x) < 0
            invariant
                q <= r.len(),
                forall|j: int| 0 <= j < q ==> cmp_meta(#[trigger] r@[j], x) < 0,
            decreases r.len() - q,
        {
            q = q + 1;
        }
        let ghost old_r = r@;
        r.insert(q, x);
        taken = taken + 1;
        proof {
            assert forall|a: int, b: int| 0 <= a < b < r@.len() implies meta_le(
                #[trigger] r@[a],
                #[trigger] r@[b],
            ) by {
                if b < q {
                    assert(r@[a] == old_r[a] && r@[b] == old_r[b]);
                } else if b == q {
                    assert(r@[a] == old_r[a]);
                } else if a == q {
                    assert(r@[a] == x);
                    assert(r@[b] == old_r[b - 1]);
                    let y = old_r[q as int];
                    assert(!(cmp_meta(y, x) < 0));
                    lemma_meta_order(x, y, old_r[b - 1]);
                    assert(meta_le(x, y));
                    if b - 1 > q {
                        assert(meta_le(old_r[q as int], old_r[b - 1]));
                    } else {
                        lemma_meta_order(y, y, y);
                    }
                    assert(meta_le(x, old_r[b - 1]));
                } else if a < q {
                    assert(r@[a] == old_r[a] && r@[b] == old_r[b - 1]);
                } else {
                    assert(r@[a] == old_r[a - 1] && r@[b] == old_r[b - 1]);
                }
            }
            assert(orig.subrange(k as int, n as int) =~= orig.subrange(k as int + 1, n as int).insert(
                0,
                x,
            ));
            vstd::seq_lib::to_multiset_insert(old_r, q as int, x);
            vstd::seq_lib::to_multiset_insert(orig.subrange(k as int + 1, n as int), 0, x);
            assert(v@ =~= orig.subrange(0, v@.len() as int));
        }
    }
    proof {
        assert(orig.subrange(0, n as int) =~= orig);
    }
    r
}


/// `a` followed by `b`.
pub fn concat_str(a: &str, b: &str) -> (r: String)
    ensures
        r@ == a@ + b@,
{
    let mut r = String::from_str(a);
    r.append(b);
    r
}

/// Some string of `names` is `x`.
pub open spec fn listed(names: Seq<String>, x: Seq<char>) -> bool {
    exists|i: int| 0 <= i < names.len() && #[trigger] names[i]@ == x
}

/// Whether some string of `names` is `name`.
pub fn contains_name(names: &Vec<String>, name: &String) -> (r: bool)
    ensures
        r == listed(names@, name@),
{
    let mut i: usize = 0;
    while i < names.len()
        invariant
            i <= names.len(),
            forall|j: int| 0 <= j < i ==> #[trigger] names@[j]@ != name@,
        decreases names.len() - i,
    {
        if names[i] == *name {
            return true;
        }
        i = i + 1;
    }
    false
}

/// The earliest and the latest instant of the samples.
pub fn time_span(v: &Vec<Sample>) -> (r: Option<(Timestamp, Timestamp)>)
    ensures
        r is None <==> v@.len() == 0,
        r matches Some((a, b)) ==> time_bounds(v@, a, b),
{
    if v.len() == 0 {
        return None;
    }
    let mut lo = v[0].time;
    let mut hi = v[0].time;
    let mut i: usize = 1;
    while i < v.len()
        invariant
            1 <= i <= v.len(),
            exists|x: int| 0 <= x < v@.len() && v@[x].time == lo,
            exists|y: int| 0 <= y < v@.len() && v@[y].time == hi,
            forall|k: int| 0 <= k < i ==> lo.spec_le(#[trigger] v@[k].time) && v@[k].time.spec_le(hi),
        decreases v.len() - i,
    {
        let t = v[i].time;
        if !lo.le(&t) {
            lo = t;
        }
        if hi.le(&t) {
            hi = t;
        }
        i = i + 1;
    }
    Some((lo, hi))
}

/// Samples inside or outside a span are as well formed as the samples split.
pub proof fn lemma_filter_wf(all: Seq<Sample>, span: TimeSpan)
    requires
        all_wf(all),
    ensures
        all_wf(inside(all, span)),
        all_wf(outside(all, span)),
{
    let a = inside(all, span);
    let b = outside(all, span);
    crate::recorder::lemma_partition(all, span);
    assert forall|i: int| 0 <= i < a.len() implies (#[trigger] a[i]).wf() by {
        assert(a.to_set().contains(a[i]));
        assert(all.to_set().contains(a[i]));
    }
    assert forall|i: int| 0 <= i < b.len() implies (#[trigger] b[i]).wf() by {
        assert(b.to_set().contains(b[i]));
        assert(all.to_set().contains(b[i]));
    }
}

/// The name an archive gets when none is given: start day, end day, and
/// the time it was made.
pub open spec fn default_archive_name(start: Timestamp, end: Timestamp, now: Timestamp) -> Seq<
    char,
> {
    strftime_of(start, "%Y%d%m"@) + "-"@ + strftime_of(end, "%Y%d%m"@) + "-by-"@ + strftime_of(
        now,
        "%Y%d%m_%H%M%S"@,
    )
}

/// No name, or a name that every platform accepts.
pub open spec fn name_accepted(name: Option<String>) -> bool {
    match name {
        Some(n) => crate::config::portable_name(n@),
        None => true,
    }
}

/// The samples of a log, and those inside a span sorted by time.
pub open spec fn split_of(text: Seq<u8>, span: TimeSpan, all: Seq<Sample>, archived: Seq<Sample>) -> bool {
    &&& log_read(text) == Some(all)
    &&& sorted_by_time(archived)
    &&& archived.to_multiset() == inside(all, span).to_multiset()
}

/// `st` and `en` are the earliest and the latest instant of the samples.
pub open spec fn time_bounds(v: Seq<Sample>, st: Timestamp, en: Timestamp) -> bool {
    &&& exists|i: int| 0 <= i < v.len() && v[i].time == st
    &&& exists|j: int| 0 <= j < v.len() && v[j].time == en
    &&& forall|k: int| 0 <= k < v.len() ==> st.spec_le(#[trigger] v[k].time) && v[k].time.spec_le(en)
}

/// Everything a new archive needs before any file is written.
pub struct ArchivePlan {
    pub meta: ArchiveMeta,
    /// Text of the archived samples, in the log's line format.
    pub data: Vec<u8>,
    /// The log that holds the retained samples alone.
    pub retained: RecordLog,
    /// File name of the archived samples.
    pub data_file: String,
    /// File name of the metadata.
    pub meta_file: String,
}

/// Plans an archive of the samples of `log` inside `span`, named `name` or
/// by default, among the files `existing` of the archive directory. Nothing
/// is changed: the plan holds the files to write and the log to keep.
pub fn plan_archive(
    log: &RecordLog,
    span: &TimeSpan,
    name: Option<String>,
    existing: &Vec<String>,
    now: Timestamp,
) -> (r: Result<ArchivePlan, CSError>)
    requires
        log.wf(),
        now.wf(),
    ensures
        (name matches Some(n) && !crate::config::safe_name(n@)) ==> r == Err::<ArchivePlan, CSError>(
            CSError::InvalidArchiveName,
        ),
        r == Err::<ArchivePlan, CSError>(CSError::InvalidArchiveName) ==> name is Some,
        (name matches Some(n) && crate::config::portable_name(n@)) ==> r != Err::<
            ArchivePlan,
            CSError,
        >(CSError::InvalidArchiveName),
        name_accepted(name) && log_read(log.text()) is None ==> r == Err::<ArchivePlan, CSError>(
            CSError::ReadRecords,
        ),
        name_accepted(name) && (log_read(log.text()) matches Some(all) && inside(all, *span).len()
            == 0) ==> r == Err::<ArchivePlan, CSError>(CSError::EmptyArchive),
        (name matches Some(n) && crate::config::portable_name(n@) && listed(
            existing@,
            n@ + ".toml"@,
        )) && (log_read(log.text()) matches Some(all) && inside(all, *span).len() > 0) ==> r == Err::<
            ArchivePlan,
            CSError,
        >(CSError::DuplicatedArchive),
        (r is Ok || r == Err::<ArchivePlan, CSError>(CSError::ReadRecords)) ==> (name matches Some(
            n,
        ) ==> crate::config::safe_name(n@)),
        r == Err::<ArchivePlan, CSError>(CSError::ReadRecords) ==> log_read(log.text()) is None,
        r == Err::<ArchivePlan, CSError>(CSError::EmptyArchive) ==> exists|all: Seq<Sample>|
            log_read(log.text()) == Some(all) && inside(all, *span).len() == 0,
        r == Err::<ArchivePlan, CSError>(CSError::DuplicatedArchive) ==> exists|
            all: Seq<Sample>,
            archived: Seq<Sample>,
            st: Timestamp,
            en: Timestamp,
        |
            {
                &&& split_of(log.text(), *span, all, archived)
                &&& time_bounds(archived, st, en)
                &&& listed(
                    existing@,
                    match name {
                        Some(n) => n@,
                        None => default_archive_name(st, en, now),
                    } + ".toml"@,
                )
            },
        match r {
            Ok(plan) => exists|all: Seq<Sample>, archived: Seq<Sample>|
                {
                    &&& split_of(log.text(), *span, all, archived)
                    &&& time_bounds(archived, plan.meta.start_time, plan.meta.end_time)
                    &&& archived.len() > 0
                    &&& plan.data@ == log_text(archived)
                    &&& plan.retained.wf()
                    &&& log_read(plan.retained.text()) == Some(outside(all, *span))
                    &&& plan.meta.records_num == archived.len()
                    &&& plan.meta.archive_name@ == match name {
                        Some(n) => n@,
                        None => default_archive_name(plan.meta.start_time, plan.meta.end_time, now),
                    }
                    &&& plan.data_file@ == plan.meta.archive_name@ + ".csv"@
                    &&& plan.meta_file@ == plan.meta.archive_name@ + ".toml"@
                    &&& forall|i: int| 0 <= i < existing@.len() ==> #[trigger] existing@[i]@ != plan.meta_file@
                },
            Err(e) => e == CSError::InvalidArchiveName || e == CSError::ReadRecords || e
                == CSError::EmptyArchive || e == CSError::DuplicatedArchive,
        },
{
    if let Some(n) = &name {
        if !is_sanitized_filename(n.as_str()) {
            return Err(CSError::InvalidArchiveName);
        }
    }
    let split = match log.begin_archive(span) {
        Ok(s) => s,
        Err(_) => return Err(CSError::ReadRecords),
    };
    let ghost all = choose|all: Seq<Sample>|
        log_read(log.text()) == Some(all) && split.retained.0@ == outside(all, *span)
            && sorted_by_time(split.archived.0@) && split.archived.0@.to_multiset() == inside(
            all,
            *span,
        ).to_multiset();
    let (start_time, end_time) = match time_span(&split.archived.0) {
        Some(p) => p,
        None => {
            proof {
                vstd::seq_lib::to_multiset_len(split.archived.0@);
                vstd::seq_lib::to_multiset_len(inside(all, *span));
            }
            return Err(CSError::EmptyArchive);
        },
    };
    proof {
        crate::log::lemma_read_wf(log.text(), all);
        lemma_filter_wf(all, *span);
        vstd::seq_lib::to_multiset_len(split.archived.0@);
        vstd::seq_lib::to_multiset_len(inside(all, *span));
        assert forall|i: int| 0 <= i < split.archived.0@.len() implies (#[trigger] split.archived.0@[i]).wf() by {
            vstd::seq_lib::to_multiset_contains(split.archived.0@, split.archived.0@[i]);
            assert(split.archived.0@.contains(split.archived.0@[i]));
            assert(split.archived.0@.to_multiset().count(split.archived.0@[i]) > 0);
            vstd::seq_lib::to_multiset_contains(inside(all, *span), split.archived.0@[i]);
        }
    }
    let archive_name = match name {
        Some(n) => n,
        None => {
            let a = format_time(start_time, "%Y%d%m");
            let b = format_time(end_time, "%Y%d%m");
            let c = format_time(now, "%Y%d%m_%H%M%S");
            let mut n = a;
            n.append("-");
            n.append(b.as_str());
            n.append("-by-");
            n.append(c.as_str());
            n
        },
    };
    let data_file = concat_str(archive_name.as_str(), ".csv");
    let meta_file = concat_str(archive_name.as_str(), ".toml");
    if contains_name(existing, &meta_file) {
        proof {
            assert(split_of(log.text(), *span, all, split.archived.0@));
            assert(time_bounds(split.archived.0@, start_time, end_time));
        }
        return Err(CSError::DuplicatedArchive);
    }
    let data = format_samples(&split.archived.0);
    let retained = split.commit();
    let meta = ArchiveMeta {
        start_time,
        end_time,
        archive_name,
        records_num: split.archived.0.len(),
    };
    proof {
        assert(split_of(log.text(), *span, all, split.archived.0@));
        assert(time_bounds(split.archived.0@, meta.start_time, meta.end_time));
        assert forall|i: int| 0 <= i < existing@.len() implies #[trigger] existing@[i]@ != meta_file@ by {
            if existing@[i]@ == meta_file@ {
                assert(listed(existing@, meta_file@));
            }
        }
    }
    Ok(ArchivePlan { meta, data, retained, data_file, meta_file })
}


/// The next step of committing a planned archive.
#[derive(Clone, Copy, Debug, PartialEq, Eq, Structural)]
pub enum CommitAction {
    /// Write the archived samples to the data file.
    WriteData,
    /// Write the metadata file.
    WriteMeta,
    /// Replace the text of the log file with the retained samples.
    RewriteLog,
    /// Remove the metadata file, or what a failed write left of it.
    RemoveMeta,
    /// Remove the data file, or what a failed write left of it.
    RemoveData,
    /// Done: both files exist and the log holds the retained samples alone.
    Committed,
    /// Done without an archive: no metadata file is left and the log is as it
    /// was; the data file is gone unless its removal failed.
    Abandoned,
    /// Done without an archive, but the metadata file could not be removed.
    Inconsistent,
}

/// Progress of committing an archive: each file operation is reported back
/// with `step`, which answers with the next one. `data_written` and
/// `meta_written` say that the file may exist (a failed write may leave part
/// of it). The metadata file is written after the data and removed before
/// it, and the log is rewritten last; a failed write leads to removing what
/// was written.
#[derive(Clone, Copy, Debug, PartialEq, Eq, Structural)]
pub struct ArchiveCommit {
    pub next: CommitAction,
    pub data_written: bool,
    pub meta_written: bool,
    pub log_rewritten: bool,
    pub meta_failed: bool,
}

/// The state after the step `c.next` succeeded (`ok`) or failed.
pub open spec fn next_state(c: ArchiveCommit, ok: bool) -> ArchiveCommit {
    match c.next {
        CommitAction::WriteData => ArchiveCommit {
            next: if ok { CommitAction::WriteMeta } else { CommitAction::RemoveData },
            data_written: true,
            ..c
        },
        CommitAction::WriteMeta => ArchiveCommit {
            next: if ok { CommitAction::RewriteLog } else { CommitAction::RemoveMeta },
            meta_written: true,
            meta_failed: c.meta_failed || !ok,
            ..c
        },
        CommitAction::RewriteLog => ArchiveCommit {
            next: if ok { CommitAction::Committed } else { CommitAction::RemoveMeta },
            log_rewritten: ok,
            ..c
        },
        CommitAction::RemoveMeta => ArchiveCommit {
            next: if ok { CommitAction::RemoveData } else { CommitAction::Inconsistent },
            meta_written: !ok,
            ..c
        },
        CommitAction::RemoveData => ArchiveCommit {
            next: CommitAction::Abandoned,
            data_written: !ok,
            ..c
        },
        _ => c,
    }
}

impl ArchiveCommit {
    /// What may be on disk at each step.
    pub open spec fn wf(&self) -> bool {
        match self.next {
            CommitAction::WriteData => !self.data_written && !self.meta_written && !self.log_rewritten,
            CommitAction::WriteMeta => self.data_written && !self.meta_written && !self.log_rewritten,
            CommitAction::RewriteLog => self.data_written && self.meta_written && !self.log_rewritten,
            CommitAction::Committed => self.data_written && self.meta_written && self.log_rewritten,
            CommitAction::RemoveMeta => self.data_written && self.meta_written && !self.log_rewritten,
            CommitAction::RemoveData => self.data_written && !self.meta_written && !self.log_rewritten,
            CommitAction::Abandoned => !self.meta_written && !self.log_rewritten,
            CommitAction::Inconsistent => self.meta_written && !self.log_rewritten,
        }
    }

    pub open spec fn finished(&self) -> bool {
        self.next == CommitAction::Committed || self.next == CommitAction::Abandoned || self.next
            == CommitAction::Inconsistent
    }

    /// A commit that has written nothing yet.
    pub fn start() -> (r: ArchiveCommit)
        ensures
            r.wf(),
            r == (ArchiveCommit {
                next: CommitAction::WriteData,
                data_written: false,
                meta_written: false,
                log_rewritten: false,
                meta_failed: false,
            }),
    {
        ArchiveCommit {
            next: CommitAction::WriteData,
            data_written: false,
            meta_written: false,
            log_rewritten: false,
            meta_failed: false,
        }
    }

    /// Reports whether the step `self.next` succeeded, and gives the next one.
    pub fn step(&mut self, succeeded: bool) -> (r: CommitAction)
        requires
            old(self).wf(),
            !old(self).finished(),
        ensures
            *final(self) == next_state(*old(self), succeeded),
            final(self).wf(),
            r == final(self).next,
    {
        match self.next {
            CommitAction::WriteData => {
                self.data_written = true;
                self.next = if succeeded {
                    CommitAction::WriteMeta
                } else {
                    CommitAction::RemoveData
                };
            },
            CommitAction::WriteMeta => {
                self.meta_written = true;
                if succeeded {
                    self.next = CommitAction::RewriteLog;
                } else {
                    self.meta_failed = true;
                    self.next = CommitAction::RemoveMeta;
                }
            },
            CommitAction::RewriteLog => {
                if succeeded {
                    self.log_rewritten = true;
                    self.next = CommitAction::Committed;
                } else {
                    self.next = CommitAction::RemoveMeta;
                }
            },
            CommitAction::RemoveMeta => {
                if succeeded {
                    self.meta_written = false;
                    self.next = CommitAction::RemoveData;
                } else {
                    self.next = CommitAction::Inconsistent;
                }
            },
            _ => {
                if succeeded {
                    self.data_written = false;
                }
                self.next = CommitAction::Abandoned;
            },
        }
        self.next
    }

    /// The error to report for a commit that did not complete.
    pub fn error(&self) -> (r: CSError)
        ensures
            r == (if self.meta_failed {
                CSError::SaveArchiveMeta
            } else {
                CSError::WriteArchive
            }),
    {
        if self.meta_failed {
            CSError::SaveArchiveMeta
        } else {
            CSError::WriteArchive
        }
    }
}

/// However the file operations turn out, a commit that reports success has
/// written both files and rewritten the log; one that reports failure has
/// left the log as it was, with no metadata file unless its removal failed
/// and the failure is reported as such; and when the removals succeed, no
/// file of the archive is left.
pub proof fn lemma_commit_outcome(c: ArchiveCommit)
    requires
        c.wf(),
    ensures
        c.next == CommitAction::Committed ==> c.data_written && c.meta_written && c.log_rewritten,
        c.next == CommitAction::Abandoned ==> !c.meta_written && !c.log_rewritten,
        c.next == CommitAction::Inconsistent ==> !c.log_rewritten,
        c.next == CommitAction::RemoveData ==> next_state(c, true).next == CommitAction::Abandoned
            && !next_state(c, true).data_written && !next_state(c, true).meta_written
            && !next_state(c, true).log_rewritten,
        c.next == CommitAction::RemoveMeta ==> next_state(c, true).next == CommitAction::RemoveData
            && !next_state(c, true).meta_written && !next_state(c, true).log_rewritten,
{
}

/// The data file of the archive `name`, to read it back; a name that is not
/// a safe file name is refused before any file is touched.
pub fn archive_data_file(name: &str) -> (r: Result<String, CSError>)
    ensures
        !crate::config::safe_name(name@) ==> r == Err::<String, CSError>(CSError::InvalidArchiveName),
        crate::config::portable_name(name@) ==> (r matches Ok(f) && f@ == name@ + ".csv"@),
        match r {
            Ok(f) => crate::config::safe_name(name@) && f@ == name@ + ".csv"@,
            Err(e) => e == CSError::InvalidArchiveName,
        },
{
    if !is_sanitized_filename(name) {
        return Err(CSError::InvalidArchiveName);
    }
    Ok(concat_str(name, ".csv"))
}

/// Where an archive goes when it is deleted.
pub struct DeletePlan {
    pub data_file: String,
    pub meta_file: String,
    pub deleted_data_file: String,
    pub deleted_meta_file: String,
}

/// `name.kind.stamp.n`
pub open spec fn deleted_name(name: Seq<char>, kind: Seq<char>, stamp: Seq<char>, n: nat) -> Seq<
    char,
> {
    name + "."@ + kind + "."@ + stamp + "."@ + crate::text::decimal(n)
}

fn make_deleted_name(name: &str, kind: &str, stamp: &str, n: u64) -> (r: String)
    ensures
        r@ == deleted_name(name@, kind@, stamp@, n as nat),
{
    let mut r = String::from_str(name);
    r.append(".");
    r.append(kind);
    r.append(".");
    r.append(stamp);
    r.append(".");
    crate::text::push_decimal(n, &mut r);
    assert(r@ =~= deleted_name(name@, kind@, stamp@, n as nat));
    r
}

/// The data or the metadata target of number `n` is a file of `files`.
pub open spec fn slot_taken(files: Seq<String>, name: Seq<char>, stamp: Seq<char>, n: nat) -> bool {
    listed(files, deleted_name(name, "csv"@, stamp, n)) || listed(
        files,
        deleted_name(name, "toml"@, stamp, n),
    )
}

/// Targets of different numbers, or of the two kinds, are different names.
pub proof fn lemma_deleted_names_differ(name: Seq<char>, stamp: Seq<char>, n: nat, m: nat)
    ensures
        deleted_name(name, "csv"@, stamp, n) == deleted_name(name, "csv"@, stamp, m) ==> n == m,
        deleted_name(name, "toml"@, stamp, n) == deleted_name(name, "toml"@, stamp, m) ==> n == m,
        deleted_name(name, "csv"@, stamp, n) != deleted_name(name, "toml"@, stamp, m),
{
    reveal_strlit("csv");
    reveal_strlit("toml");
    reveal_strlit(".");
    let pc = name + "."@ + "csv"@ + "."@ + stamp + "."@;
    let pt = name + "."@ + "toml"@ + "."@ + stamp + "."@;
    if deleted_name(name, "csv"@, stamp, n) == deleted_name(name, "csv"@, stamp, m) {
        let a = deleted_name(name, "csv"@, stamp, n);
        assert(a.subrange(pc.len() as int, a.len() as int) =~= crate::text::decimal(n));
        assert(a.subrange(pc.len() as int, a.len() as int) =~= crate::text::decimal(m));
        crate::text::lemma_decimal_injective(n, m);
    }
    if deleted_name(name, "toml"@, stamp, n) == deleted_name(name, "toml"@, stamp, m) {
        let a = deleted_name(name, "toml"@, stamp, n);
        assert(a.subrange(pt.len() as int, a.len() as int) =~= crate::text::decimal(n));
        assert(a.subrange(pt.len() as int, a.len() as int) =~= crate::text::decimal(m));
        crate::text::lemma_decimal_injective(n, m);
    }
    let k = name.len() as int + 1;
    assert(deleted_name(name, "csv"@, stamp, n)[k] == 'c');
    assert(deleted_name(name, "toml"@, stamp, m)[k] == 't');
}

/// Plans moving the archive `name` to the deleted directory, given the
/// files of the archive directory and of the deleted directory. Both moved
/// files take the first number `n` for which neither target exists.
pub fn plan_delete(
    name: &str,
    archive_files: &Vec<String>,
    deleted_files: &Vec<String>,
    now: Timestamp,
) -> (r: Result<DeletePlan, CSError>)
    requires
        now.wf(),
    ensures
        !crate::config::safe_name(name@) ==> r == Err::<DeletePlan, CSError>(
            CSError::InvalidArchiveName,
        ),
        crate::config::portable_name(name@) && !listed(archive_files@, name@ + ".toml"@) ==> r
            == Err::<DeletePlan, CSError>(CSError::ArchiveNotFound),
        crate::config::portable_name(name@) && listed(archive_files@, name@ + ".toml"@) ==> r is Ok,
        r == Err::<DeletePlan, CSError>(CSError::ArchiveNotFound) ==> !listed(
            archive_files@,
            name@ + ".toml"@,
        ),
        match r {
            Ok(plan) => {
                let stamp = strftime_of(now, "%Y%m%d-%H%M"@);
                &&& crate::config::safe_name(name@)
                &&& listed(archive_files@, name@ + ".toml"@)
                &&& plan.data_file@ == name@ + ".csv"@
                &&& plan.meta_file@ == name@ + ".toml"@
                &&& exists|n: nat|
                    {
                        &&& plan.deleted_data_file@ == deleted_name(name@, "csv"@, stamp, n)
                        &&& plan.deleted_meta_file@ == deleted_name(name@, "toml"@, stamp, n)
                        &&& !slot_taken(deleted_files@, name@, stamp, n)
                        &&& forall|m: nat| m < n ==> #[trigger] slot_taken(deleted_files@, name@, stamp, m)
                    }
            },
            Err(e) => e == CSError::InvalidArchiveName || e == CSError::ArchiveNotFound,
        },
{
    if !is_sanitized_filename(name) {
        return Err(CSError::InvalidArchiveName);
    }
    let meta_file = concat_str(name, ".toml");
    if !contains_name(archive_files, &meta_file) {
        return Err(CSError::ArchiveNotFound);
    }
    let data_file = concat_str(name, ".csv");
    let stamp = format_time(now, "%Y%m%d-%H%M");
    let ghost files = deleted_files@;
    let count = deleted_files.len();
    let ghost total = count as int;
    let mut n: usize = 0;
    let mut data_target = make_deleted_name(name, "csv", stamp.as_str(), 0);
    let mut meta_target = make_deleted_name(name, "toml", stamp.as_str(), 0);
    // Each taken number is taken by a file of its own, so some number up to
    // the count of files is free.
    let ghost mut used: Set<int> = Set::empty();
    proof {
        vstd::set_lib::lemma_int_range(0, total);
    }
    while contains_name(deleted_files, &data_target) || contains_name(deleted_files, &meta_target)
        invariant
            files == deleted_files@,
            total == files.len(),
            total == count,
            n <= total,
            crate::config::safe_name(name@),
            listed(archive_files@, name@ + ".toml"@),
            data_target@ == deleted_name(name@, "csv"@, stamp@, n as nat),
            meta_target@ == deleted_name(name@, "toml"@, stamp@, n as nat),
            forall|m: nat| m < n ==> #[trigger] slot_taken(files, name@, stamp@, m),
            used.subset_of(vstd::set_lib::set_int_range(0, total)),
            used.finite(),
            used.len() == n,
            set_int_range_facts(total),
            forall|i: int|
                #[trigger] used.contains(i) ==> exists|m: nat|
                    m < n && (files[i]@ == deleted_name(name@, "csv"@, stamp@, m) || files[i]@
                        == deleted_name(name@, "toml"@, stamp@, m)),
        decreases total - n,
    {
        proof {
            let i = choose|i: int|
                0 <= i < files.len() && (#[trigger] files[i]@ == data_target@ || files[i]@
                    == meta_target@);
            if used.contains(i) {
                let m = choose|m: nat|
                    m < n && (files[i]@ == deleted_name(name@, "csv"@, stamp@, m) || files[i]@
                        == deleted_name(name@, "toml"@, stamp@, m));
                lemma_deleted_names_differ(name@, stamp@, n as nat, m);
                lemma_deleted_names_differ(name@, stamp@, m, n as nat);
                assert(false);
            }
            assert(slot_taken(files, name@, stamp@, n as nat));
            used = used.insert(i);
            assert(used.len() == n + 1);
            assert(used.subset_of(vstd::set_lib::set_int_range(0, total)));
            vstd::set_lib::lemma_len_subset(used, vstd::set_lib::set_int_range(0, total));
            assert(n + 1 <= total);
        }
        n = n + 1;
        data_target = make_deleted_name(name, "csv", stamp.as_str(), n as u64);
        meta_target = make_deleted_name(name, "toml", stamp.as_str(), n as u64);
    }
    Ok(DeletePlan { data_file, meta_file, deleted_data_file: data_target, deleted_meta_file: meta_target })
}

/// The range of the first `total` positions is a finite set of `total` elements.
pub open spec fn set_int_range_facts(total: int) -> bool {
    vstd::set_lib::set_int_range(0, total).finite() && vstd::set_lib::set_int_range(0, total).len()
        == total
}

} // verus!
