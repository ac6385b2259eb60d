use vstd::prelude::*;

verus! {

pub const DIGIT_ZERO: u8 = 48;

pub const DIGIT_NINE: u8 = 57;

pub const DOT: u8 = 46;

pub const SLASH: u8 = 47;

/// The text that opens a probe's summary line, `min/avg/max/mdev = `, in ASCII.
pub open spec fn summary_prefix() -> Seq<u8> {
    seq![
        109u8, 105u8, 110u8, SLASH, 97u8, 118u8, 103u8, SLASH, 109u8, 97u8, 120u8, SLASH, 109u8, 100u8,
        101u8, 118u8, 32u8, 61u8, 32u8,
    ]
}

pub open spec fn is_digit(b: u8) -> bool {
    DIGIT_ZERO <= b <= DIGIT_NINE
}

/// A byte that may stand in a statistic field: a digit or a decimal point.
pub open spec fn is_field_byte(b: u8) -> bool {
    is_digit(b) || b == DOT
}

/// The end of the run of field bytes that starts at `i`.
pub open spec fn field_end(t: Seq<u8>, i: int) -> int
    decreases t.len() - i,
{
    if i < 0 || i >= t.len() || !is_field_byte(t[i]) {
        i
    } else {
        field_end(t, i + 1)
    }
}

/// Whether a field run starting at `i` is followed by a slash.
pub open spec fn slash_after(t: Seq<u8>, i: int) -> bool {
    field_end(t, i) < t.len() && t[field_end(t, i)] == SLASH
}

/// Whether `min/avg/max/mdev = <min>/<avg>/<max>/<dev>` starts at `p`.
pub open spec fn summary_at(t: Seq<u8>, p: int) -> bool {
    let a = p + summary_prefix().len();
    &&& 0 <= p
    &&& a <= t.len()
    &&& t.subrange(p, a) == summary_prefix()
    &&& slash_after(t, a)
    &&& slash_after(t, field_end(t, a) + 1)
    &&& slash_after(t, field_end(t, field_end(t, a) + 1) + 1)
}

/// Start of the `<avg>` field of the summary at `p`.
pub open spec fn avg_start(t: Seq<u8>, p: int) -> int {
    field_end(t, p + summary_prefix().len()) + 1
}

/// End of the summary at `p`: after its last field.
pub open spec fn summary_end(t: Seq<u8>, p: int) -> int {
    field_end(t, field_end(t, field_end(t, avg_start(t, p)) + 1) + 1)
}

/// The `<avg>` fields of the summaries found from `i` on, scanning left to
/// right and resuming after each summary found.
pub open spec fn avg_fields(t: Seq<u8>, i: int) -> Seq<Seq<u8>>
    decreases t.len() - i via avg_fields_decreases
{
    if i < 0 || i >= t.len() {
        Seq::empty()
    } else if summary_at(t, i) {
        seq![t.subrange(avg_start(t, i), field_end(t, avg_start(t, i)))].add(
            avg_fields(t, summary_end(t, i)),
        )
    } else {
        avg_fields(t, i + 1)
    }
}

#[via_fn]
proof fn avg_fields_decreases(t: Seq<u8>, i: int) {
    if 0 <= i < t.len() && summary_at(t, i) {
        let a = i + summary_prefix().len();
        lemma_field_end_bounds(t, a);
        let b = field_end(t, a) + 1;
        lemma_field_end_bounds(t, b);
        let c = field_end(t, b) + 1;
        lemma_field_end_bounds(t, c);
        let d = field_end(t, c) + 1;
        lemma_field_end_bounds(t, d);
    }
}

proof fn lemma_field_end_bounds(t: Seq<u8>, i: int)
    requires
        0 <= i <= t.len(),
    ensures
        i <= field_end(t, i) <= t.len(),
        forall|j: int| i <= j < field_end(t, i) ==> is_field_byte(#[trigger] t[j]),
        field_end(t, i) < t.len() ==> !is_field_byte(t[field_end(t, i)]),
    decreases t.len() - i,
{
    if i < t.len() && is_field_byte(t[i]) {
        lemma_field_end_bounds(t, i + 1);
    }
}

/// Computes `field_end(t, i)`.
fn scan_field(t: &[u8], i: usize) -> (r: usize)
    requires
        i <= t@.len(),
    ensures
        r == field_end(t@, i as int),
{
    let mut j: usize = i;
    while j < t.len() && (t[j] == DOT || (DIGIT_ZERO <= t[j] && t[j] <= DIGIT_NINE))
        invariant
            i <= j <= t@.len(),
            field_end(t@, j as int) == field_end(t@, i as int),
        decreases t@.len() - j,
    {
        j = j + 1;
    }
    j
}

/// Whether `t[p..]` starts with the summary prefix.
fn prefix_at(t: &[u8], p: usize) -> (r: bool)
    requires
        p <= t@.len(),
    ensures
        r == (p + summary_prefix().len() <= t@.len() && t@.subrange(
            p as int,
            p + summary_prefix().len(),
        ) == summary_prefix()),
{
    let pre: [u8; 19] = [
        109u8, 105u8, 110u8, SLASH, 97u8, 118u8, 103u8, SLASH, 109u8, 97u8, 120u8, SLASH, 109u8, 100u8, 101u8,
        118u8, 32u8, 61u8, 32u8,
    ];
    assert(pre@ =~= summary_prefix());
    if t.len() - p < 19 {
        return false;
    }
    let mut k: usize = 0;
    while k < 19
        invariant
            p + 19 <= t@.len(),
            t@.len() == t.len(),
            k <= 19,
            pre@ == summary_prefix(),
            forall|j: int| 0 <= j < k ==> t@[p + j] == pre@[j],
        decreases 19 - k,
    {
        if t[p + k] != pre[k] {
            assert(t@.subrange(p as int, p + 19)[k as int] != summary_prefix()[k as int]);
            return false;
        }
        k = k + 1;
    }
    assert(t@.subrange(p as int, p + 19) =~= summary_prefix());
    true
}

/// Whether a summary starts at `p`; if so, where its `<avg>` field lies and
/// where it ends.
fn summary_bounds(t: &[u8], p: usize) -> (r: Option<(usize, usize, usize)>)
    requires
        p <= t@.len(),
    ensures
        r is Some <==> summary_at(t@, p as int),
        r matches Some((a, b, e)) ==> a == avg_start(t@, p as int) && b == field_end(
            t@,
            avg_start(t@, p as int),
        ) && e == summary_end(t@, p as int) && a <= b <= e <= t@.len() && p < e,
{
    if !prefix_at(t, p) {
        return None;
    }
    let ghost s = t@;
    assert(t@.len() == t.len());
    let f0 = p + 19;
    let e0 = scan_field(t, f0);
    proof { lemma_field_end_bounds(s, f0 as int); }
    if e0 >= t.len() || t[e0] != SLASH {
        return None;
    }
    let e1 = scan_field(t, e0 + 1);
    proof { lemma_field_end_bounds(s, e0 + 1); }
    if e1 >= t.len() || t[e1] != SLASH {
        return None;
    }
    let e2 = scan_field(t, e1 + 1);
    proof { lemma_field_end_bounds(s, e1 + 1); }
    if e2 >= t.len() || t[e2] != SLASH {
        return None;
    }
    let e3 = scan_field(t, e2 + 1);
    proof { lemma_field_end_bounds(s, e2 + 1); }
    Some((e0 + 1, e1, e3))
}

/// The `<avg>` field of every summary line in a probe's output, in order of
/// appearance. Bytes that are not ASCII never belong to a summary, so the
/// result is the same as on the output decoded with replacement characters.
pub fn summary_avg_fields(t: &[u8]) -> (r: Vec<Vec<u8>>)
    ensures
        r@.len() == avg_fields(t@, 0).len(),
        forall|j: int| 0 <= j < r@.len() ==> #[trigger] r@[j]@ == avg_fields(t@, 0)[j],
{
    let ghost s = t@;
    let mut out: Vec<Vec<u8>> = Vec::new();
    let ghost done: Seq<Seq<u8>> = Seq::empty();
    let mut i: usize = 0;
    while i < t.len()
        invariant
            t@ == s,
            i <= s.len(),
            out@.len() == done.len(),
            forall|j: int| 0 <= j < out@.len() ==> #[trigger] out@[j]@ == done[j],
            done + avg_fields(s, i as int) == avg_fields(s, 0),
        decreases s.len() - i,
    {
        match summary_bounds(t, i) {
            Some((a, b, e)) => {
                let mut field: Vec<u8> = Vec::new();
                let mut k: usize = a;
                while k < b
                    invariant
                        t@ == s,
                        a <= k <= b <= s.len(),
                        field@ == s.subrange(a as int, k as int),
                    decreases b - k,
                {
                    field.push(t[k]);
                    k = k + 1;
                    assert(field@ =~= s.subrange(a as int, k as int));
                }
                proof {
                    let f = s.subrange(a as int, b as int);
                    assert(avg_fields(s, i as int) == seq![f].add(avg_fields(s, e as int)));
                    assert(done.push(f) + avg_fields(s, e as int) =~= done + avg_fields(
                        s,
                        i as int,
                    ));
                    done = done.push(f);
                }
                out.push(field);
                i = e;
            },
            None => {
                i = i + 1;
            },
        }
    }
    assert(done + avg_fields(s, i as int) =~= done);
    out
}

/// The value of a digit byte.
pub open spec fn digit_value(b: u8) -> nat {
    (b - DIGIT_ZERO) as nat
}

/// The number that a run of digits denotes.
pub open spec fn decimal_value(d: Seq<u8>) -> nat
    decreases d.len(),
{
    if d.len() == 0 {
        0
    } else {
        decimal_value(d.drop_last()) * 10 + digit_value(d.last())
    }
}

/// The position of the first decimal point at or after `i`, or the length.
pub open spec fn first_dot(f: Seq<u8>, i: int) -> int
    decreases f.len() - i,
{
    if i < 0 || i >= f.len() {
        f.len() as int
    } else if f[i] == DOT {
        i
    } else {
        first_dot(f, i + 1)
    }
}

/// Digits with at most one decimal point, and at least one digit.
pub open spec fn is_decimal(f: Seq<u8>) -> bool {
    let q = first_dot(f, 0);
    &&& forall|j: int| 0 <= j < f.len() && j != q ==> is_digit(#[trigger] f[j])
    &&& f.len() > (if q < f.len() { 1int } else { 0int })
}

/// The digit at `k`, or zero past the end.
pub open spec fn digit_or_zero(f: Seq<u8>, k: int) -> nat {
    if 0 <= k < f.len() {
        digit_value(f[k])
    } else {
        0
    }
}

/// The value of a decimal field read as milliseconds, in whole microseconds:
/// digits past the third after the point are dropped.
pub open spec fn micros_of(f: Seq<u8>) -> nat {
    let q = first_dot(f, 0);
    decimal_value(f.take(q)) * 1000 + digit_or_zero(f, q + 1) * 100 + digit_or_zero(f, q + 2) * 10
        + digit_or_zero(f, q + 3)
}

/// The latency in microseconds that a field denotes, if it is a decimal whose
/// value fits in a `u64`.
pub open spec fn latency_of(f: Seq<u8>) -> Option<u64> {
    if is_decimal(f) && micros_of(f) <= u64::MAX {
        Some(micros_of(f) as u64)
    } else {
        None
    }
}

proof fn lemma_first_dot_bounds(f: Seq<u8>, i: int)
    requires
        0 <= i <= f.len(),
    ensures
        i <= first_dot(f, i) <= f.len(),
        forall|j: int| i <= j < first_dot(f, i) ==> #[trigger] f[j] != DOT,
        first_dot(f, i) < f.len() ==> f[first_dot(f, i)] == DOT,
    decreases f.len() - i,
{
    if i < f.len() && f[i] != DOT {
        lemma_first_dot_bounds(f, i + 1);
    }
}

proof fn lemma_decimal_value_grows(d: Seq<u8>, j: int)
    requires
        0 <= j <= d.len(),
    ensures
        decimal_value(d.take(j)) <= decimal_value(d),
    decreases d.len(),
{
    if j < d.len() {
        assert(d.drop_last().take(j) =~= d.take(j));
        lemma_decimal_value_grows(d.drop_last(), j);
    } else {
        assert(d.take(j) =~= d);
    }
}

/// Reads one `<avg>` field as a latency in microseconds; `None` when it is
/// not a decimal number or does not fit in a `u64`.
pub fn parse_latency(f: &[u8]) -> (r: Option<u64>)
    ensures
        r == latency_of(f@),
{
    let ghost s = f@;
    let n = f.len();
    let mut q: usize = 0;
    while q < n && f[q] != DOT
        invariant
            f@ == s,
            n == s.len(),
            q <= n,
            first_dot(s, q as int) == first_dot(s, 0),
        decreases n - q,
    {
        q = q + 1;
    }
    proof { lemma_first_dot_bounds(s, 0); }
    assert(q == first_dot(s, 0));
    let mut k: usize = 0;
    while k < n
        invariant
            f@ == s,
            n == s.len(),
            q == first_dot(s, 0),
            k <= n,
            forall|j: int| 0 <= j < k && j != q ==> is_digit(#[trigger] s[j]),
        decreases n - k,
    {
        if k != q && !(DIGIT_ZERO <= f[k] && f[k] <= DIGIT_NINE) {
            assert(!is_digit(s[k as int]));
            return None;
        }
        k = k + 1;
    }
    if n <= (if q < n { 1 } else { 0 }) {
        return None;
    }
    let mut acc: u64 = 0;
    let mut i: usize = 0;
    while i < q
        invariant
            f@ == s,
            n == s.len(),
            q == first_dot(s, 0),
            q <= n,
            i <= q,
            forall|j: int| 0 <= j < n && j != q ==> is_digit(#[trigger] s[j]),
            acc == decimal_value(s.take(i as int)),
        decreases q - i,
    {
        assert(is_digit(s[i as int]));
        let d = (f[i] - DIGIT_ZERO) as u64;
        assert(s.take(i + 1).drop_last() =~= s.take(i as int));
        if acc > (u64::MAX - d) / 10 {
            proof {
                lemma_decimal_value_grows(s.take(q as int), i + 1);
                assert(s.take(q as int).take(i + 1) =~= s.take(i + 1));
                assert(acc * 10 + d > u64::MAX) by (nonlinear_arith)
                    requires
                        acc > (u64::MAX - d) / 10,
                        d <= 9,
                ;
                assert(micros_of(s) >= decimal_value(s.take(q as int)) * 1000);
            }
            return None;
        }
        acc = acc * 10 + d;
        i = i + 1;
    }
    assert(forall|j: int| q < j < n ==> is_digit(#[trigger] s[j]));
    let d1: u64 = if n - q > 1 { (f[q + 1] - DIGIT_ZERO) as u64 } else { 0 };
    let d2: u64 = if n - q > 2 { (f[q + 2] - DIGIT_ZERO) as u64 } else { 0 };
    let d3: u64 = if n - q > 3 { (f[q + 3] - DIGIT_ZERO) as u64 } else { 0 };
    let frac = d1 * 100 + d2 * 10 + d3;
    assert(frac == digit_or_zero(s, q + 1) * 100 + digit_or_zero(s, q + 2) * 10 + digit_or_zero(s, q + 3));
    if acc > (u64::MAX - frac) / 1000 {
        assert(acc * 1000 + frac > u64::MAX) by (nonlinear_arith)
            requires
                acc > (u64::MAX - frac) / 1000,
                frac <= 999,
        ;
        return None;
    }
    assert(acc * 1000 + frac <= u64::MAX) by (nonlinear_arith)
        requires
            acc <= (u64::MAX - frac) / 1000,
            frac <= 999,
    ;
    Some(acc * 1000 + frac)
}

/// The latencies of a sequence of fields, if every field reads as one.
pub open spec fn latencies_of(fields: Seq<Seq<u8>>) -> Option<Seq<u64>>
    decreases fields.len(),
{
    if fields.len() == 0 {
        Some(Seq::empty())
    } else {
        match (latencies_of(fields.drop_last()), latency_of(fields.last())) {
            (Some(ls), Some(l)) => Some(ls.push(l)),
            _ => None,
        }
    }
}

/// The latency of every summary line of a probe's output, in order of
/// appearance; `None` when some `<avg>` field does not read as a latency.
pub fn extract_latencies(output: &[u8]) -> (r: Option<Vec<u64>>)
    ensures
        r matches Some(v) ==> latencies_of(avg_fields(output@, 0)) == Some(v@),
        r is None ==> latencies_of(avg_fields(output@, 0)) is None,
{
    let fields = summary_avg_fields(output);
    let ghost fs = avg_fields(output@, 0);
    let mut out: Vec<u64> = Vec::new();
    let mut i: usize = 0;
    while i < fields.len()
        invariant
            fs == avg_fields(output@, 0),
            fields@.len() == fs.len(),
            forall|j: int| 0 <= j < fields@.len() ==> #[trigger] fields@[j]@ == fs[j],
            i <= fs.len(),
            latencies_of(fs.take(i as int)) == Some(out@),
        decreases fs.len() - i,
    {
        assert(fs.take(i + 1).drop_last() =~= fs.take(i as int));
        assert(fs.take(i + 1).last() == fields@[i as int]@);
        match parse_latency(fields[i].as_slice()) {
            Some(l) => {
                out.push(l);
            },
            None => {
                proof {
                    assert(latencies_of(fs.take(i + 1)) is None);
                    lemma_latencies_of_prefix(fs, i + 1);
                }
                return None;
            },
        }
        i = i + 1;
    }
    assert(fs.take(fs.len() as int) =~= fs);
    Some(out)
}

proof fn lemma_latencies_of_prefix(fs: Seq<Seq<u8>>, j: int)
    requires
        0 <= j <= fs.len(),
        latencies_of(fs.take(j)) is None,
    ensures
        latencies_of(fs) is None,
    decreases fs.len(),
{
    if j < fs.len() {
        assert(fs.drop_last().take(j) =~= fs.take(j));
        lemma_latencies_of_prefix(fs.drop_last(), j);
    } else {
        assert(fs.take(j) =~= fs);
    }
}

} // verus!
