//! The line format of the sample log: one `time,value` line per sample.
use crate::degree::{
    degree_read, degree_text, find_byte, lemma_degree_round_trip, lemma_find_byte, parse_degree,
    write_degree, Degree,
};
use crate::time::{rfc3339_of, rfc3339_read, rfc3339_text, time_text_ok, Timestamp};
use vstd::prelude::*;

verus! {

/// One observation of the balance.
#[derive(Clone, Copy, Debug, PartialEq, Eq, Structural)]
pub struct Sample {
    pub time: Timestamp,
    pub degree: Degree,
}

impl Sample {
    pub open spec fn wf(self) -> bool {
        self.time.wf() && self.degree.wf()
    }
}

pub open spec fn all_wf(v: Seq<Sample>) -> bool {
    forall|i: int| 0 <= i < v.len() ==> (#[trigger] v[i]).wf()
}

/// A line of the log, without its line break.
pub open spec fn sample_line(s: Sample) -> Seq<u8> {
    rfc3339_of(s.time) + seq![44u8] + degree_text(s.degree)
}

/// The text of a sequence of samples: each line followed by a line break.
pub open spec fn log_text(v: Seq<Sample>) -> Seq<u8>
    decreases v.len(),
{
    if v.len() == 0 {
        Seq::empty()
    } else {
        log_text(v.drop_last()) + sample_line(v.last()) + seq![10u8]
    }
}

/// The non-empty lines of a text, in order.
pub open spec fn lines_of(t: Seq<u8>) -> Seq<Seq<u8>>
    decreases t.len(),
{
    if t.len() == 0 {
        Seq::empty()
    } else {
        let e = find_byte(t, 10u8);
        let line = t.subrange(0, e as int);
        let rest = if e < t.len() {
            t.subrange(e as int + 1, t.len() as int)
        } else {
            Seq::empty()
        };
        if line.len() == 0 {
            lines_of(rest)
        } else {
            seq![line] + lines_of(rest)
        }
    }
}

/// The sample that a line holds: an instant, a comma, and a value, then
/// possibly a carriage return.
pub open spec fn line_read(line: Seq<u8>) -> Option<Sample> {
    fields_read(without_cr(line))
}

/// A line without the carriage return that ends it, if any.
pub open spec fn without_cr(line: Seq<u8>) -> Seq<u8> {
    if line.len() > 0 && line.last() == 13u8 {
        line.drop_last()
    } else {
        line
    }
}

/// The sample that the fields `time,value` hold.
pub open spec fn fields_read(line: Seq<u8>) -> Option<Sample> {
    let c = find_byte(line, 44u8);
    if c < line.len() {
        match (
            rfc3339_read(line.subrange(0, c as int)),
            degree_read(line.subrange(c as int + 1, line.len() as int)),
        ) {
            (Some(t), Some(d)) => if t.wf() {
                Some(Sample { time: t, degree: d })
            } else {
                None
            },
            _ => None,
        }
    } else {
        None
    }
}

/// The samples of a log, if every non-empty line holds one.
pub open spec fn log_read(t: Seq<u8>) -> Option<Seq<Sample>> {
    lines_read(lines_of(t))
}

/// The samples that lines hold, if every one holds one.
pub open spec fn lines_read(lines: Seq<Seq<u8>>) -> Option<Seq<Sample>> {
    if forall|i: int| 0 <= i < lines.len() ==> (#[trigger] line_read(lines[i])) is Some {
        Some(lines.map_values(|l: Seq<u8>| line_read(l).unwrap()))
    } else {
        None
    }
}

/// The samples of a log after more are appended to it.
pub open spec fn join(before: Option<Seq<Sample>>, added: Seq<Sample>) -> Option<Seq<Sample>> {
    match before {
        Some(v) => Some(v + added),
        None => None,
    }
}

/// Reading lines followed by lines that each hold a sample.
pub proof fn lemma_log_read_append(before: Seq<Seq<u8>>, added: Seq<Seq<u8>>, v: Seq<Sample>)
    requires
        added.len() == v.len(),
        forall|i: int| 0 <= i < v.len() ==> line_read(#[trigger] added[i]) == Some(v[i]),
    ensures
        lines_read(before + added) == join(lines_read(before), v),
{
    let all = before + added;
    if forall|i: int| 0 <= i < before.len() ==> (#[trigger] line_read(before[i])) is Some {
        assert forall|i: int| 0 <= i < all.len() implies (#[trigger] line_read(all[i])) is Some by {
            if i >= before.len() {
                assert(all[i] == added[i - before.len()]);
            } else {
                assert(all[i] == before[i]);
            }
        }
        let f = |l: Seq<u8>| line_read(l).unwrap();
        let lhs = all.map_values(f);
        let rhs = before.map_values(f) + v;
        assert forall|i: int| 0 <= i < all.len() implies #[trigger] lhs[i] == rhs[i] by {
            if i >= before.len() {
                assert(all[i] == added[i - before.len()]);
            } else {
                assert(all[i] == before[i]);
            }
        }
        assert(lhs =~= rhs);
    } else {
        let i = choose|i: int| 0 <= i < before.len() && (#[trigger] line_read(before[i])) is None;
        assert(all[i] == before[i]);
        assert(line_read(all[i]) is None);
    }
}

/// Every line that `lines_of` gives is non-empty.
pub proof fn lemma_lines_nonempty(t: Seq<u8>)
    ensures
        forall|i: int| 0 <= i < lines_of(t).len() ==> (#[trigger] lines_of(t)[i]).len() > 0,
    decreases t.len(),
{
    if t.len() > 0 {
        lemma_find_byte(t, 10u8);
        let e = find_byte(t, 10u8);
        let rest = if e < t.len() {
            t.subrange(e as int + 1, t.len() as int)
        } else {
            Seq::empty()
        };
        lemma_lines_nonempty(rest);
        let line = t.subrange(0, e as int);
        if line.len() > 0 {
            assert forall|i: int| 0 <= i < lines_of(t).len() implies (#[trigger] lines_of(
                t,
            )[i]).len() > 0 by {
                if i > 0 {
                    assert(lines_of(t)[i] == lines_of(rest)[i - 1]);
                }
            }
        }
    }
}

/// Every sample read from a log is well formed.
pub proof fn lemma_read_wf(t: Seq<u8>, all: Seq<Sample>)
    requires
        log_read(t) == Some(all),
    ensures
        all_wf(all),
{
    let lines = lines_of(t);
    assert forall|i: int| 0 <= i < all.len() implies (#[trigger] all[i]).wf() by {
        assert(line_read(lines[i]) is Some);
        let line = without_cr(lines[i]);
        let c = find_byte(line, 44u8);
        crate::degree::lemma_degree_read_wf(line.subrange(c as int + 1, line.len() as int));
    }
}

/// A text whose last line is complete.
pub open spec fn ends_line(t: Seq<u8>) -> bool {
    t.len() == 0 || t.last() == 10u8
}

/// Reading a text made of two parts, where the first ends its last line.
pub proof fn lemma_lines_concat(a: Seq<u8>, b: Seq<u8>)
    requires
        ends_line(a),
    ensures
        lines_of(a + b) == lines_of(a) + lines_of(b),
    decreases a.len(),
{
    if a.len() == 0 {
        assert(a + b =~= b);
    } else {
        let ab = a + b;
        lemma_find_byte(a, 10u8);
        lemma_find_byte(ab, 10u8);
        let e = find_byte(a, 10u8);
        assert(e < a.len());
        assert(find_byte(ab, 10u8) == e) by {
            if find_byte(ab, 10u8) < e {
                assert(ab[find_byte(ab, 10u8) as int] == a[find_byte(ab, 10u8) as int]);
            }
            assert(ab[e as int] == a[e as int]);
        }
        assert(ab.subrange(0, e as int) =~= a.subrange(0, e as int));
        let ra = a.subrange(e as int + 1, a.len() as int);
        assert(ab.subrange(e as int + 1, ab.len() as int) =~= ra + b);
        assert(ends_line(ra));
        lemma_lines_concat(ra, b);
        if a.subrange(0, e as int).len() != 0 {
            assert(seq![a.subrange(0, e as int)] + (lines_of(ra) + lines_of(b)) =~= (seq![
                a.subrange(0, e as int),
            ] + lines_of(ra)) + lines_of(b));
        }
    }
}

/// A complete line that holds no line break is read as that one line.
pub proof fn lemma_single_line(l: Seq<u8>)
    requires
        l.len() > 0,
        forall|i: int| 0 <= i < l.len() ==> l[i] != 10u8,
    ensures
        lines_of(l + seq![10u8]) == seq![l],
{
    let t = l + seq![10u8];
    lemma_find_byte(t, 10u8);
    assert(find_byte(t, 10u8) == l.len()) by {
        if find_byte(t, 10u8) < l.len() {
            assert(t[find_byte(t, 10u8) as int] == l[find_byte(t, 10u8) as int]);
        }
        assert(t[l.len() as int] == 10u8);
    }
    assert(t.subrange(0, l.len() as int) =~= l);
    assert(t.subrange(l.len() as int + 1, t.len() as int) =~= Seq::<u8>::empty());
    assert(lines_of(Seq::<u8>::empty()) =~= Seq::<Seq<u8>>::empty());
    assert(seq![l] + Seq::<Seq<u8>>::empty() =~= seq![l]);
}

/// The line of a sample holds no line break and reads back to the sample.
pub proof fn lemma_sample_line(s: Sample)
    requires
        s.wf(),
        time_text_ok(s.time),
    ensures
        sample_line(s).len() > 0,
        forall|i: int| 0 <= i < sample_line(s).len() ==> #[trigger] sample_line(s)[i] != 10u8,
        line_read(sample_line(s)) == Some(s),
{
    let l = sample_line(s);
    let tt = rfc3339_of(s.time);
    let dt = degree_text(s.degree);
    crate::degree::lemma_degree_text_bytes(s.degree);
    assert forall|i: int| 0 <= i < l.len() implies #[trigger] l[i] != 10u8 by {
        if i < tt.len() {
            assert(l[i] == tt[i]);
        } else if i > tt.len() {
            assert(l[i] == dt[i - tt.len() - 1]);
        }
    }
    lemma_find_byte(l, 44u8);
    assert(find_byte(l, 44u8) == tt.len()) by {
        if find_byte(l, 44u8) < tt.len() {
            assert(l[find_byte(l, 44u8) as int] == tt[find_byte(l, 44u8) as int]);
        }
        assert(l[tt.len() as int] == 44u8);
    }
    assert(l.subrange(0, tt.len() as int) =~= tt);
    assert(l.subrange(tt.len() as int + 1, l.len() as int) =~= dt);
    assert(l.last() == dt[dt.len() - 1]);
    assert(without_cr(l) == l);
    lemma_degree_round_trip(s.degree);
}

/// The lines of the text of a sequence of samples are the samples' lines.
pub proof fn lemma_log_text_lines(v: Seq<Sample>)
    requires
        all_wf(v),
        forall|i: int| 0 <= i < v.len() ==> time_text_ok(#[trigger] v[i].time),
    ensures
        lines_of(log_text(v)) == v.map_values(|s: Sample| sample_line(s)),
        ends_line(log_text(v)),
    decreases v.len(),
{
    if v.len() > 0 {
        let p = v.drop_last();
        assert forall|i: int| 0 <= i < p.len() implies (#[trigger] p[i]).wf() && time_text_ok(
            p[i].time,
        ) by {
            assert(p[i] == v[i]);
        }
        lemma_log_text_lines(p);
        let s = v.last();
        assert(s == v[v.len() - 1]);
        lemma_sample_line(s);
        lemma_single_line(sample_line(s));
        lemma_lines_concat(log_text(p), sample_line(s) + seq![10u8]);
        assert(log_text(v) =~= log_text(p) + (sample_line(s) + seq![10u8]));
        assert(v.map_values(|s: Sample| sample_line(s)) =~= p.map_values(
            |s: Sample| sample_line(s),
        ) + seq![sample_line(s)]);
    }
}

/// Reading the text of samples gives the samples back.
pub proof fn lemma_log_round_trip(v: Seq<Sample>)
    requires
        all_wf(v),
        forall|i: int| 0 <= i < v.len() ==> time_text_ok(#[trigger] v[i].time),
    ensures
        log_read(log_text(v)) == Some(v),
{
    lemma_log_text_lines(v);
    let lines = lines_of(log_text(v));
    assert forall|i: int| 0 <= i < lines.len() implies (#[trigger] line_read(lines[i])) is Some
        && line_read(lines[i]).unwrap() == v[i] by {
        lemma_sample_line(v[i]);
    }
    assert(lines.map_values(|l: Seq<u8>| line_read(l).unwrap()) =~= v);
}


// ---- executable ----

/// Position of the first `b` in `v[lo..hi]`, or `hi`.
pub fn find_in(v: &Vec<u8>, lo: usize, hi: usize, b: u8) -> (r: usize)
    requires
        lo <= hi <= v.len(),
    ensures
        lo <= r <= hi,
        r - lo == find_byte(v@.subrange(lo as int, hi as int), b),
{
    let ghost sub = v@.subrange(lo as int, hi as int);
    let mut i = lo;
    while i < hi && v[i] != b
        invariant
            lo <= i <= hi,
            hi <= v.len(),
            forall|j: int| lo <= j < i ==> v@[j] != b,
        decreases hi - i,
    {
        i = i + 1;
    }
    proof {
        lemma_find_byte(sub, b);
        let f = find_byte(sub, b);
        if f < i - lo {
            assert(sub[f as int] == v@[lo + f]);
        }
        if i < hi {
            assert(sub[i - lo] == v@[i as int]);
        }
    }
    i
}

/// A copy of `v[lo..hi]`.
pub fn copy_range(v: &Vec<u8>, lo: usize, hi: usize) -> (r: Vec<u8>)
    requires
        lo <= hi <= v.len(),
    ensures
        r@ == v@.subrange(lo as int, hi as int),
{
    let mut r: Vec<u8> = Vec::new();
    let mut i = lo;
    while i < hi
        invariant
            lo <= i <= hi,
            hi <= v.len(),
            r@ == v@.subrange(lo as int, i as int),
        decreases hi - i,
    {
        r.push(v[i]);
        i = i + 1;
        assert(r@ =~= v@.subrange(lo as int, i as int));
    }
    r
}

/// Reads the sample on the line `text[lo..hi]`.
pub fn parse_line(text: &Vec<u8>, lo: usize, hi: usize) -> (r: Option<Sample>)
    requires
        lo <= hi <= text.len(),
    ensures
        r == line_read(text@.subrange(lo as int, hi as int)),
{
    let end = if hi > lo && text[hi - 1] == 13u8 {
        hi - 1
    } else {
        hi
    };
    let ghost line = text@.subrange(lo as int, end as int);
    proof {
        assert(without_cr(text@.subrange(lo as int, hi as int)) =~= line);
    }
    let c = find_in(text, lo, end, 44u8);
    if c == end {
        return None;
    }
    let time_bytes = copy_range(text, lo, c);
    let degree_bytes = copy_range(text, c + 1, end);
    proof {
        assert(time_bytes@ =~= line.subrange(0, c - lo));
        assert(degree_bytes@ =~= line.subrange(c - lo + 1, line.len() as int));
    }
    let time = match crate::time::parse_timestamp(time_bytes.as_slice()) {
        Some(t) => t,
        None => return None,
    };
    match parse_degree(&degree_bytes) {
        Some(d) => Some(Sample { time, degree: d }),
        None => None,
    }
}

/// Reads every sample of a log; `None` when a non-empty line holds none.
pub fn parse_log(text: &Vec<u8>) -> (r: Option<Vec<Sample>>)
    ensures
        match r {
            Some(v) => log_read(text@) == Some(v@),
            None => log_read(text@) is None,
        },
{
    let n = text.len();
    let mut acc: Vec<Sample> = Vec::new();
    let ghost mut done: Seq<Seq<u8>> = Seq::empty();
    let mut i: usize = 0;
    proof {
        assert(text@.subrange(0, n as int) =~= text@);
    }
    while i < n
        invariant
            i <= n,
            n == text.len(),
            lines_of(text@) == done + lines_of(text@.subrange(i as int, n as int)),
            acc@.len() == done.len(),
            forall|j: int|
                0 <= j < done.len() ==> #[trigger] line_read(done[j]) == Some(acc@[j]),
        decreases n - i,
    {
        let ghost sub = text@.subrange(i as int, n as int);
        let e = find_in(text, i, n, 10u8);
        let ghost rest = if e < n {
            text@.subrange(e as int + 1, n as int)
        } else {
            Seq::<u8>::empty()
        };
        proof {
            assert(sub.subrange(0, e - i) =~= text@.subrange(i as int, e as int));
            if e < n {
                assert(sub.subrange(e - i + 1, sub.len() as int) =~= rest);
            }
        }
        if e > i {
            match parse_line(text, i, e) {
                Some(s) => {
                    acc.push(s);
                    proof {
                        let line = text@.subrange(i as int, e as int);
                        assert(lines_of(sub) == seq![line] + lines_of(rest));
                        assert(done + (seq![line] + lines_of(rest)) =~= done.push(line) + lines_of(
                            rest,
                        ));
                        done = done.push(line);
                        assert forall|j: int| 0 <= j < done.len() implies #[trigger] line_read(
                            done[j],
                        ) == Some(acc@[j]) by {}
                    }
                },
                None => {
                    proof {
                        let line = text@.subrange(i as int, e as int);
                        let lines = lines_of(text@);
                        assert(lines_of(sub) == seq![line] + lines_of(rest));
                        assert(lines[done.len() as int] == line);
                        assert(line_read(lines[done.len() as int]) is None);
                    }
                    return None;
                },
            }
        } else {
            proof {
                assert(lines_of(sub) == lines_of(rest));
            }
        }
        if e < n {
            i = e + 1;
        } else {
            proof {
                assert(rest =~= text@.subrange(n as int, n as int));
            }
            i = n;
        }
    }
    proof {
        assert(lines_of(text@.subrange(n as int, n as int)) == Seq::<Seq<u8>>::empty()) by {
            assert(text@.subrange(n as int, n as int) =~= Seq::<u8>::empty());
        }
        assert(done + Seq::<Seq<u8>>::empty() =~= done);
        let lines = lines_of(text@);
        assert(lines.map_values(|l: Seq<u8>| line_read(l).unwrap()) =~= acc@);
    }
    Some(acc)
}

/// Appends the line of a sample, with its line break.
pub fn write_sample(s: &Sample, out: &mut Vec<u8>)
    requires
        s.wf(),
    ensures
        final(out)@ == old(out)@ + sample_line(*s) + seq![10u8],
        time_text_ok(s.time),
{
    let ghost start = out@;
    let mut t = rfc3339_text(s.time);
    out.append(&mut t);
    out.push(44u8);
    write_degree(s.degree, out);
    out.push(10u8);
    assert(out@ =~= start + sample_line(*s) + seq![10u8]);
}

/// The text of a sequence of samples.
pub fn format_samples(v: &Vec<Sample>) -> (r: Vec<u8>)
    requires
        all_wf(v@),
    ensures
        r@ == log_text(v@),
        forall|i: int| 0 <= i < v@.len() ==> time_text_ok(#[trigger] v@[i].time),
{
    let mut out: Vec<u8> = Vec::new();
    let mut i: usize = 0;
    proof {
        assert(v@.subrange(0, 0) =~= Seq::<Sample>::empty());
    }
    while i < v.len()
        invariant
            i <= v.len(),
            all_wf(v@),
            out@ == log_text(v@.subrange(0, i as int)),
            forall|j: int| 0 <= j < i ==> time_text_ok(#[trigger] v@[j].time),
        decreases v.len() - i,
    {
        assert(v@[i as int].wf());
        write_sample(&v[i], &mut out);
        proof {
            assert(v@.subrange(0, i as int + 1).drop_last() =~= v@.subrange(0, i as int));
        }
        i = i + 1;
    }
    proof {
        assert(v@.subrange(0, v@.len() as int) =~= v@);
    }
    out
}

} // verus!
