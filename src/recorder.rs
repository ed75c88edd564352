//! The append-only log of samples of one room.
use crate::degree::Degree;
use crate::error::Error;
use crate::log::{
    all_wf, ends_line, join, find_in, format_samples, lemma_lines_concat, lemma_sample_line,
    lemma_single_line, line_read, lines_of, log_read, parse_line, parse_log, sample_line,
    write_sample, Sample,
};
use crate::span::TimeSpan;
use crate::time::Timestamp;
use vstd::prelude::*;

verus! {

/// Smallest change of the balance that is recorded, in steps (0.01 units).
pub const EPSILON: i64 = 10_000;

/// A new value is written when there is no last value, or when it differs
/// from the last value by at least `EPSILON`.
pub open spec fn should_record(last: Option<Degree>, d: Degree) -> bool {
    match last {
        Some(l) => l.distance(d) >= EPSILON,
        None => true,
    }
}

/// The value on the last non-empty line of a text, if that line holds a sample.
pub open spec fn last_degree_of(t: Seq<u8>) -> Option<Degree> {
    let lines = lines_of(t);
    if lines.len() == 0 {
        None
    } else {
        match line_read(lines.last()) {
            Some(s) => Some(s.degree),
            None => None,
        }
    }
}

/// The lines and the last recorded value of a log after one call of
/// `record`: a line is added only when `should_record` holds.
pub open spec fn record_effect(
    lines: Seq<Seq<u8>>,
    last: Option<Degree>,
    d: Degree,
    now: Timestamp,
) -> (Seq<Seq<u8>>, Option<Degree>) {
    if should_record(last, d) {
        (lines.push(sample_line(Sample { time: now.spec_whole_seconds(), degree: d })), Some(d))
    } else {
        (lines, last)
    }
}

/// Text appended to a log: a line break first if its last line is not complete.
pub open spec fn continuation(t: Seq<u8>, added: Seq<u8>) -> Seq<u8> {
    if ends_line(t) || added.len() == 0 {
        added
    } else {
        seq![10u8] + added
    }
}

/// The log of one room: the text of its file, and the value on its last line.
pub struct RecordLog {
    text: Vec<u8>,
    last: Option<Degree>,
}

/// A sequence of samples.
#[derive(Clone, Debug, PartialEq, Eq)]
pub struct Records(pub Vec<Sample>);

/// A log's samples split by a time span, before the log is changed.
pub struct ArchiveSplit {
    /// Samples outside the span, which stay in the log.
    pub retained: Records,
    /// Samples inside the span, which leave the log.
    pub archived: Records,
}

pub proof fn lemma_line_break(t: Seq<u8>)
    ensures
        lines_of(t + seq![10u8]) == lines_of(t),
    decreases t.len(),
{
    crate::degree::lemma_find_byte(t, 10u8);
    let tn = t + seq![10u8];
    crate::degree::lemma_find_byte(tn, 10u8);
    let e = crate::degree::find_byte(t, 10u8);
    if t.len() == 0 {
        assert(tn =~= seq![10u8]);
        assert(tn.subrange(0, 0) =~= Seq::<u8>::empty());
        assert(tn.subrange(1, 1) =~= Seq::<u8>::empty());
        assert(lines_of(Seq::<u8>::empty()) =~= Seq::<Seq<u8>>::empty());
    } else {
        assert(crate::degree::find_byte(tn, 10u8) == e) by {
            let f = crate::degree::find_byte(tn, 10u8);
            if f < e {
                assert(tn[f as int] == t[f as int]);
            }
            if e < t.len() {
                assert(tn[e as int] == t[e as int]);
            } else {
                assert(tn[e as int] == 10u8);
            }
        }
        assert(tn.subrange(0, e as int) =~= t.subrange(0, e as int));
        if e < t.len() {
            let rest = t.subrange(e as int + 1, t.len() as int);
            assert(tn.subrange(e as int + 1, tn.len() as int) =~= rest + seq![10u8]);
            lemma_line_break(rest);
        } else {
            assert(tn.subrange(e as int + 1, tn.len() as int) =~= Seq::<u8>::empty());
        }
    }
}

/// The lines of a log after text is appended to it.
pub proof fn lemma_continuation(t: Seq<u8>, added: Seq<u8>)
    requires
        ends_line(added),
    ensures
        lines_of(t + continuation(t, added)) == lines_of(t) + lines_of(added),
{
    if added.len() == 0 {
        assert(t + added =~= t);
        assert(lines_of(added) =~= Seq::<Seq<u8>>::empty());
        assert(lines_of(t) + Seq::<Seq<u8>>::empty() =~= lines_of(t));
    } else if ends_line(t) {
        lemma_lines_concat(t, added);
    } else {
        lemma_line_break(t);
        assert(t + continuation(t, added) =~= (t + seq![10u8]) + added);
        lemma_lines_concat(t + seq![10u8], added);
    }
}

impl RecordLog {
    /// The text of the log file.
    pub closed spec fn text(&self) -> Seq<u8> {
        self.text@
    }

    /// The value most recently written.
    pub closed spec fn last(&self) -> Option<Degree> {
        self.last
    }

    /// The last value mirrors the last non-empty line.
    pub open spec fn wf(&self) -> bool {
        &&& lines_of(self.text()).len() > 0 ==> line_read(lines_of(self.text()).last()) is Some
        &&& self.last() == last_degree_of(self.text())
    }

    /// The text of the log file, to write it out.
    pub fn text_bytes(&self) -> (r: &Vec<u8>)
        ensures
            r@ == self.text(),
    {
        &self.text
    }

    /// The value most recently written.
    pub fn last_degree(&self) -> (r: Option<Degree>)
        ensures
            r == self.last(),
    {
        self.last
    }

    /// Opens a log from the text of its file, recovering the last value from
    /// the last non-empty line.
    pub fn open(text: Vec<u8>) -> (r: Result<RecordLog, Error>)
        ensures
            match r {
                Ok(log) => log.text() == text@ && log.wf(),
                Err(e) => e == Error::InvalidRecordsFormat && lines_of(text@).len() > 0
                    && line_read(lines_of(text@).last()) is None,
            },
    {
        let n = text.len();
        let mut i: usize = 0;
        let mut last_lo: usize = 0;
        let mut last_hi: usize = 0;
        let mut found = false;
        let ghost mut done: Seq<Seq<u8>> = Seq::empty();
        proof {
            assert(text@.subrange(0, n as int) =~= text@);
        }
        while i < n
            invariant
                i <= n,
                n == text.len(),
                lines_of(text@) == done + lines_of(text@.subrange(i as int, n as int)),
                last_lo <= last_hi <= n,
                done.len() > 0 ==> done.last() == text@.subrange(last_lo as int, last_hi as int),
                found == (done.len() > 0),
            decreases n - i,
        {
            let ghost sub = text@.subrange(i as int, n as int);
            let e = find_in(&text, i, n, 10u8);
            let ghost rest = if e < n {
                text@.subrange(e as int + 1, n as int)
            } else {
                Seq::<u8>::empty()
            };
            proof {
                assert(sub.subrange(0, e - i) =~= text@.subrange(i as int, e as int));
                if e < n {
                    assert(sub.subrange(e - i + 1, sub.len() as int) =~= rest);
                }
            }
            if e > i {
                proof {
                    let line = text@.subrange(i as int, e as int);
                    assert(lines_of(sub) == seq![line] + lines_of(rest));
                    assert(done + (seq![line] + lines_of(rest)) =~= done.push(line) + lines_of(rest));
                    done = done.push(line);
                }
                last_lo = i;
                last_hi = e;
                found = true;
            } else {
                proof {
                    assert(lines_of(sub) == lines_of(rest));
                }
            }
            if e < n {
                i = e + 1;
            } else {
                proof {
                    assert(rest =~= text@.subrange(n as int, n as int));
                }
                i = n;
            }
        }
        proof {
            assert(lines_of(text@.subrange(n as int, n as int)) == Seq::<Seq<u8>>::empty()) by {
                assert(text@.subrange(n as int, n as int) =~= Seq::<u8>::empty());
            }
            assert(done + Seq::<Seq<u8>>::empty() =~= done);
        }
        if !found {
            return Ok(RecordLog { text, last: None });
        }
        match parse_line(&text, last_lo, last_hi) {
            Some(s) => Ok(RecordLog { text, last: Some(s.degree) }),
            None => Err(Error::InvalidRecordsFormat),
        }
    }

    /// Decides whether `d` is written, and writes it with the time `now`
    /// (whole seconds) when it is; the result is the text appended.
    pub fn record(&mut self, d: Degree, now: Timestamp) -> (r: Option<Vec<u8>>)
        requires
            old(self).wf(),
            d.wf(),
            now.wf(),
        ensures
            final(self).wf(),
            r is Some <==> should_record(old(self).last(), d),
            (lines_of(final(self).text()), final(self).last()) == record_effect(
                lines_of(old(self).text()),
                old(self).last(),
                d,
                now,
            ),
            match r {
                Some(delta) => final(self).text() == old(self).text() + delta@,
                None => final(self).text() == old(self).text(),
            },
    {
        let owed = match self.last {
            Some(l) => {
                let diff: i128 = l.micros as i128 - d.micros as i128;
                diff >= EPSILON as i128 || diff <= -(EPSILON as i128)
            },
            None => true,
        };
        if !owed {
            return None;
        }
        let s = Sample { time: now.whole_seconds(), degree: d };
        let mut line: Vec<u8> = Vec::new();
        write_sample(&s, &mut line);
        let ghost added = line@;
        let mut delta: Vec<u8> = Vec::new();
        if self.text.len() > 0 && self.text[self.text.len() - 1] != 10u8 {
            delta.push(10u8);
        }
        delta.append(&mut line);
        let mut copy = delta.clone();
        self.text.append(&mut copy);
        self.last = Some(d);
        proof {
            assert(delta@ =~= continuation(old(self).text@, added));
            lemma_sample_line(s);
            lemma_single_line(sample_line(s));
            assert(added =~= sample_line(s) + seq![10u8]);
            lemma_continuation(old(self).text@, added);
            assert(lines_of(self.text@) =~= lines_of(old(self).text@).push(sample_line(s)));
        }
        Some(delta)
    }

    /// Records `d` at the clock's current time.
    pub fn record_now(&mut self, d: Degree) -> (r: Result<Option<Vec<u8>>, Error>)
        requires
            old(self).wf(),
            d.wf(),
        ensures
            final(self).wf(),
            match r {
                Ok(Some(delta)) => final(self).text() == old(self).text() + delta@
                    && final(self).last() == Some(d) && should_record(old(self).last(), d),
                Ok(None) => final(self).text() == old(self).text() && final(self).last() == old(
                    self,
                ).last() && !should_record(old(self).last(), d),
                Err(e) => e == Error::ClockOutOfRange && final(self).text() == old(self).text()
                    && final(self).last() == old(self).last(),
            },
    {
        let now = match crate::time::now() {
            Ok(t) => t,
            Err(e) => return Err(e),
        };
        Ok(self.record(d, now))
    }

    /// Appends samples as they are, without deduplication; the result is the
    /// text appended.
    pub fn record_batch(&mut self, samples: &Vec<Sample>) -> (delta: Vec<u8>)
        requires
            old(self).wf(),
            all_wf(samples@),
        ensures
            final(self).wf(),
            final(self).text() == old(self).text() + delta@,
            lines_of(final(self).text()) == lines_of(old(self).text()) + samples@.map_values(
                |s: Sample| sample_line(s),
            ),
            final(self).last() == (if samples@.len() == 0 {
                old(self).last()
            } else {
                Some(samples@.last().degree)
            }),
            log_read(final(self).text()) == join(log_read(old(self).text()), samples@),
    {
        let body = format_samples(samples);
        let ghost added = body@;
        let mut delta: Vec<u8> = Vec::new();
        if body.len() > 0 && self.text.len() > 0 && self.text[self.text.len() - 1] != 10u8 {
            delta.push(10u8);
        }
        let mut body = body;
        delta.append(&mut body);
        let mut copy = delta.clone();
        self.text.append(&mut copy);
        if samples.len() > 0 {
            self.last = Some(samples[samples.len() - 1].degree);
        }
        proof {
            assert(delta@ =~= continuation(old(self).text@, added));
            crate::log::lemma_log_text_lines(samples@);
            lemma_continuation(old(self).text@, added);
            let lines = lines_of(self.text@);
            let before = lines_of(old(self).text@);
            let mapped = samples@.map_values(|s: Sample| sample_line(s));
            assert(lines == before + mapped);
            assert forall|i: int| 0 <= i < mapped.len() implies line_read(#[trigger] mapped[i])
                == Some(samples@[i]) by {
                lemma_sample_line(samples@[i]);
            }
            if samples@.len() > 0 {
                assert(lines.last() == mapped[mapped.len() - 1]);
                assert(samples@.last() == samples@[samples@.len() - 1]);
            } else {
                assert(lines =~= before);
            }
            crate::log::lemma_log_read_append(before, mapped, samples@);
        }
        delta
    }

    /// Every sample of the log, in order.
    pub fn read_all(&self) -> (r: Result<Vec<Sample>, Error>)
        ensures
            match r {
                Ok(v) => log_read(self.text()) == Some(v@),
                Err(e) => e == Error::InvalidRecordsFormat && log_read(self.text()) is None,
            },
    {
        match parse_log(&self.text) {
            Some(v) => Ok(v),
            None => Err(Error::InvalidRecordsFormat),
        }
    }
}


/// Samples in order of time, later ones not before earlier ones.
pub open spec fn sorted_by_time(v: Seq<Sample>) -> bool {
    forall|i: int, j: int| 0 <= i < j < v.len() ==> (#[trigger] v[i]).time.spec_le((#[trigger] v[j]).time)
}

/// The samples of `v` inside `span`, in their order.
pub open spec fn inside(v: Seq<Sample>, span: TimeSpan) -> Seq<Sample> {
    v.filter(|s: Sample| span.spec_contains(s.time))
}

/// The samples of `v` outside `span`, in their order.
pub open spec fn outside(v: Seq<Sample>, span: TimeSpan) -> Seq<Sample> {
    v.filter(|s: Sample| !span.spec_contains(s.time))
}

/// Recording the same value twice in a row writes one line at most: the
/// second call writes nothing, and the first writes exactly one line when
/// the value differs from the last one by `EPSILON` or more (or there is no
/// last value).
pub proof fn lemma_record_twice(
    lines: Seq<Seq<u8>>,
    last: Option<Degree>,
    d: Degree,
    t1: Timestamp,
    t2: Timestamp,
)
    ensures
        record_effect(record_effect(lines, last, d, t1).0, record_effect(lines, last, d, t1).1, d, t2)
            == record_effect(lines, last, d, t1),
        record_effect(lines, last, d, t1).0.len() <= lines.len() + 1,
        should_record(last, d) ==> record_effect(lines, last, d, t1).0.len() == lines.len() + 1,
        !should_record(last, d) ==> record_effect(lines, last, d, t1).0 == lines,
{
}

/// Samples appended by `record_batch` are read back by `read_all` after the
/// samples the log held, in the order given; on an empty log, exactly the
/// samples given.
pub proof fn lemma_batch_read_back(before: Seq<u8>, v: Seq<Sample>)
    ensures
        join(log_read(Seq::<u8>::empty()), v) == Some(v),
        log_read(before) matches Some(held) ==> join(log_read(before), v) == Some(held + v),
{
    assert(lines_of(Seq::<u8>::empty()) =~= Seq::<Seq<u8>>::empty());
    assert(Seq::<Seq<u8>>::empty().map_values(|l: Seq<u8>| line_read(l).unwrap()) =~= Seq::<
        Sample,
    >::empty());
    assert(Seq::<Sample>::empty() + v =~= v);
}

/// Two instants are the same, whatever their offsets.
pub open spec fn same_time(a: Timestamp, b: Timestamp) -> bool {
    a.secs == b.secs && a.nanos == b.nanos
}

/// The samples of `v` at the instant `t`, in their order.
pub open spec fn at_time(v: Seq<Sample>, t: Timestamp) -> Seq<Sample> {
    v.filter(|s: Sample| same_time(s.time, t))
}

proof fn lemma_filter_push(v: Seq<Sample>, x: Sample, f: spec_fn(Sample) -> bool)
    ensures
        v.push(x).filter(f) == (if f(x) {
            v.filter(f).push(x)
        } else {
            v.filter(f)
        }),
{
    reveal(Seq::filter);
    assert(v.push(x).drop_last() =~= v);
}

proof fn lemma_filter_none(v: Seq<Sample>, f: spec_fn(Sample) -> bool)
    requires
        forall|k: int| 0 <= k < v.len() ==> !f(#[trigger] v[k]),
    ensures
        v.filter(f) == Seq::<Sample>::empty(),
    decreases v.len(),
{
    reveal(Seq::filter);
    if v.len() > 0 {
        assert forall|k: int| 0 <= k < v.drop_last().len() implies !f(#[trigger] v.drop_last()[k]) by {
            assert(v.drop_last()[k] == v[k]);
        }
        lemma_filter_none(v.drop_last(), f);
        assert(!f(v[v.len() - 1]));
    } else {
        assert(v.filter(f) =~= Seq::<Sample>::empty());
    }
}

/// Sorts samples by time; samples at the same instant keep their order.
pub fn sort_by_time(v: Vec<Sample>) -> (r: Vec<Sample>)
    ensures
        sorted_by_time(r@),
        r@.to_multiset() == v@.to_multiset(),
        r@.len() == v@.len(),
        forall|t: Timestamp| #[trigger] at_time(r@, t) == at_time(v@, t),
{
    broadcast use vstd::seq_lib::to_multiset_insert, vstd::seq_lib::to_multiset_build;
    let mut r: Vec<Sample> = Vec::new();
    let mut i: usize = 0;
    proof {
        assert(v@.subrange(0, 0) =~= Seq::<Sample>::empty());
    }
    while i < v.len()
        invariant
            i <= v.len(),
            sorted_by_time(r@),
            r@.to_multiset() == v@.subrange(0, i as int).to_multiset(),
            r@.len() == i,
            forall|t: Timestamp| #[trigger] at_time(r@, t) == at_time(v@.subrange(0, i as int), t),
        decreases v.len() - i,
    {
        let x = v[i];
        // Put `x` after the last sample not later than it.
        let mut q: usize = r.len();
        while q > 0 && !r[q - 1].time.le(&x.time)
            invariant
                q <= r.len(),
                forall|k: int| q <= k < r.len() ==> !(#[trigger] r@[k]).time.spec_le(x.time),
            decreases q,
        {
            q = q - 1;
        }
        let ghost old_r = r@;
        r.insert(q, x);
        proof {
            assert(sorted_by_time(r@)) by {
                assert forall|a: int, b: int| 0 <= a < b < r@.len() implies (#[trigger] r@[a]).time.spec_le(
                    (#[trigger] r@[b]).time,
                ) by {
                    if b < q {
                        assert(r@[a] == old_r[a] && r@[b] == old_r[b]);
                    } else if b == q {
                        assert(r@[a] == old_r[a]);
                        if q > 0 {
                            assert(old_r[q - 1].time.spec_le(x.time));
                            assert(old_r[a].time.spec_le(old_r[q - 1].time) || a == q - 1);
                        }
                    } else if a == q {
                        assert(r@[b] == old_r[b - 1]);
                    } else if a < q {
                        assert(r@[a] == old_r[a] && r@[b] == old_r[b - 1]);
                    } else {
                        assert(r@[a] == old_r[a - 1] && r@[b] == old_r[b - 1]);
                    }
                }
            }
            assert(v@.subrange(0, i as int + 1) =~= v@.subrange(0, i as int).push(x));
            assert(r@ == old_r.insert(q as int, x));
            vstd::seq_lib::to_multiset_insert(old_r, q as int, x);
            vstd::seq_lib::to_multiset_build(v@.subrange(0, i as int), x);
            let pre = old_r.subrange(0, q as int);
            let post = old_r.subrange(q as int, old_r.len() as int);
            assert(old_r =~= pre + post);
            assert(r@ =~= pre + seq![x] + post);
            assert forall|t: Timestamp| #[trigger] at_time(r@, t) == at_time(
                v@.subrange(0, i as int + 1),
                t,
            ) by {
                let f = |s: Sample| same_time(s.time, t);
                assert(at_time(r@, t) == r@.filter(f));
                assert(at_time(old_r, t) == old_r.filter(f));
                assert(at_time(v@.subrange(0, i as int), t) == v@.subrange(0, i as int).filter(f));
                assert(at_time(v@.subrange(0, i as int + 1), t) == v@.subrange(0, i as int + 1).filter(f));
                Seq::filter_distributes_over_add(pre, post, f);
                Seq::filter_distributes_over_add(pre + seq![x], post, f);
                Seq::filter_distributes_over_add(pre, seq![x], f);
                lemma_filter_push(v@.subrange(0, i as int), x, f);
                lemma_filter_push(Seq::<Sample>::empty(), x, f);
                assert(Seq::<Sample>::empty().push(x) =~= seq![x]);
                assert(Seq::<Sample>::empty().filter(f) =~= Seq::<Sample>::empty()) by {
                    reveal(Seq::filter);
                }
                if same_time(x.time, t) {
                    assert forall|k: int| 0 <= k < post.len() implies !f(#[trigger] post[k]) by {
                        assert(post[k] == old_r[q + k]);
                    }
                    lemma_filter_none(post, f);
                    assert(pre.filter(f) + seq![x] + Seq::<Sample>::empty() =~= pre.filter(f).push(x));
                    assert(pre.filter(f) + Seq::<Sample>::empty() =~= pre.filter(f));
                    assert(r@.filter(f) == pre.filter(f).push(x));
                    assert(old_r.filter(f) == pre.filter(f));
                } else {
                    assert(pre.filter(f) + Seq::<Sample>::empty() =~= pre.filter(f));
                    assert(r@.filter(f) == pre.filter(f) + post.filter(f));
                }
            }
        }
        i = i + 1;
    }
    proof {
        assert(v@.subrange(0, v@.len() as int) =~= v@);
    }
    r
}

impl ArchiveSplit {
    /// The log that holds the retained samples alone.
    pub fn commit(&self) -> (r: RecordLog)
        requires
            all_wf(self.retained.0@),
        ensures
            r.wf(),
            log_read(r.text()) == Some(self.retained.0@),
    {
        let mut log = RecordLog { text: Vec::new(), last: None };
        proof {
            assert(lines_of(Seq::<u8>::empty()) =~= Seq::<Seq<u8>>::empty());
            assert(log_read(Seq::<u8>::empty()) == Some(Seq::<Sample>::empty())) by {
                assert(Seq::<Seq<u8>>::empty().map_values(|l: Seq<u8>| line_read(l).unwrap())
                    =~= Seq::<Sample>::empty());
            }
        }
        let _delta = log.record_batch(&self.retained.0);
        proof {
            assert(Seq::<Sample>::empty() + self.retained.0@ =~= self.retained.0@);
        }
        log
    }
}

impl RecordLog {
    /// Splits the samples of the log by `span`: those inside it leave the log,
    /// sorted by time (samples at the same instant in log order); the others
    /// stay. The log is not changed.
    pub fn begin_archive(&self, span: &TimeSpan) -> (r: Result<ArchiveSplit, Error>)
        ensures
            match r {
                Ok(split) => exists|all: Seq<Sample>|
                    log_read(self.text()) == Some(all) && split.retained.0@ == outside(all, *span)
                        && sorted_by_time(split.archived.0@) && split.archived.0@.to_multiset()
                        == inside(all, *span).to_multiset() && forall|t: Timestamp|
                        #[trigger] at_time(split.archived.0@, t) == at_time(inside(all, *span), t),
                Err(e) => e == Error::InvalidRecordsFormat && log_read(self.text()) is None,
            },
    {
        let all = match self.read_all() {
            Ok(v) => v,
            Err(e) => return Err(e),
        };
        let mut archived: Vec<Sample> = Vec::new();
        let mut retained: Vec<Sample> = Vec::new();
        let mut i: usize = 0;
        proof {
            reveal(Seq::filter);
            assert(all@.subrange(0, 0) =~= Seq::<Sample>::empty());
        }
        while i < all.len()
            invariant
                i <= all.len(),
                archived@ == inside(all@.subrange(0, i as int), *span),
                retained@ == outside(all@.subrange(0, i as int), *span),
            decreases all.len() - i,
        {
            let s = all[i];
            proof {
                reveal(Seq::filter);
                assert(all@.subrange(0, i as int + 1).drop_last() =~= all@.subrange(0, i as int));
            }
            if span.contains(&s.time) {
                archived.push(s);
            } else {
                retained.push(s);
            }
            i = i + 1;
        }
        proof {
            assert(all@.subrange(0, all@.len() as int) =~= all@);
        }
        let archived = sort_by_time(archived);
        Ok(ArchiveSplit { retained: Records(retained), archived: Records(archived) })
    }
}

impl Records {
    /// Sorts the samples by time; samples at the same instant keep their order.
    pub fn sort(&mut self)
        ensures
            sorted_by_time(final(self).0@),
            final(self).0@.to_multiset() == old(self).0@.to_multiset(),
            forall|t: Timestamp| #[trigger] at_time(final(self).0@, t) == at_time(old(self).0@, t),
    {
        let mut v: Vec<Sample> = Vec::new();
        core::mem::swap(&mut v, &mut self.0);
        self.0 = sort_by_time(v);
    }

    /// The earliest and the latest instant of the samples.
    pub fn time_span(&self) -> (r: Option<(Timestamp, Timestamp)>)
        ensures
            r is None <==> self.0@.len() == 0,
            r matches Some((a, b)) ==> crate::archive::time_bounds(self.0@, a, b),
    {
        crate::archive::time_span(&self.0)
    }

    /// The samples in the log's line format.
    pub fn to_csv(&self) -> (r: Vec<u8>)
        requires
            all_wf(self.0@),
        ensures
            r@ == crate::log::log_text(self.0@),
            log_read(r@) == Some(self.0@),
    {
        let r = format_samples(&self.0);
        proof {
            crate::log::lemma_log_round_trip(self.0@);
        }
        r
    }

    /// The samples of text in the log's line format.
    pub fn from_csv(text: &Vec<u8>) -> (r: Result<Records, Error>)
        ensures
            match r {
                Ok(recs) => log_read(text@) == Some(recs.0@),
                Err(e) => e == Error::InvalidRecordsFormat && log_read(text@) is None,
            },
    {
        match parse_log(text) {
            Some(v) => Ok(Records(v)),
            None => Err(Error::InvalidRecordsFormat),
        }
    }
}

/// Splitting samples by a span loses none and puts none on both sides.
pub proof fn lemma_partition(v: Seq<Sample>, span: TimeSpan)
    ensures
        inside(v, span).to_set() + outside(v, span).to_set() == v.to_set(),
        inside(v, span).to_set() * outside(v, span).to_set() == Set::<Sample>::empty(),
        inside(v, span).len() + outside(v, span).len() == v.len(),
    decreases v.len(),
{
    reveal(Seq::filter);
    if v.len() == 0 {
        assert(inside(v, span) =~= Seq::<Sample>::empty());
        assert(outside(v, span) =~= Seq::<Sample>::empty());
        assert(inside(v, span).to_set() + outside(v, span).to_set() =~= v.to_set());
        assert(inside(v, span).to_set() * outside(v, span).to_set() =~= Set::<Sample>::empty());
    } else {
        let p = v.drop_last();
        let x = v.last();
        lemma_partition(p, span);
        let a = inside(v, span);
        let b = outside(v, span);
        assert(v =~= p.push(x));
        broadcast use vstd::seq_lib::group_seq_properties;
        assert(v.to_set() =~= p.to_set().insert(x));
        if span.spec_contains(x.time) {
            assert(a == inside(p, span).push(x));
            assert(b == outside(p, span));
            assert(a.to_set() =~= inside(p, span).to_set().insert(x));
        } else {
            assert(b == outside(p, span).push(x));
            assert(a == inside(p, span));
            assert(b.to_set() =~= outside(p, span).to_set().insert(x));
        }
        assert forall|s: Sample| a.to_set().contains(s) implies span.spec_contains(s.time) by {
            p.filter_lemma(|s: Sample| span.spec_contains(s.time));
            v.filter_lemma(|s: Sample| span.spec_contains(s.time));
        }
        assert forall|s: Sample| b.to_set().contains(s) implies !span.spec_contains(s.time) by {
            v.filter_lemma(|s: Sample| !span.spec_contains(s.time));
        }
        assert(a.to_set() + b.to_set() =~= v.to_set());
        assert(a.to_set() * b.to_set() =~= Set::<Sample>::empty());
    }
}

/// The samples that `begin_archive` puts aside and those it keeps are, as
/// sets, disjoint and together the samples of the log.
pub proof fn lemma_split_complete(all: Seq<Sample>, span: TimeSpan, archived: Seq<Sample>)
    requires
        archived.to_multiset() == inside(all, span).to_multiset(),
    ensures
        archived.to_set() + outside(all, span).to_set() == all.to_set(),
        archived.to_set() * outside(all, span).to_set() == Set::<Sample>::empty(),
{
    lemma_partition(all, span);
    assert(archived.to_set() =~= inside(all, span).to_set()) by {
        assert forall|x: Sample| archived.to_set().contains(x) <==> inside(all, span).to_set().contains(x) by {
            vstd::seq_lib::to_multiset_contains(archived, x);
            vstd::seq_lib::to_multiset_contains(inside(all, span), x);
        }
    }
}

} // verus!
