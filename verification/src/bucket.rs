//! Division of an interleaved sample stream into buckets of `div` frames.
//!
//! A wave or loudness mipmap summarises every complete bucket of the stream;
//! the frames after the last complete bucket stay open until more samples
//! arrive (or the layer is finished). With `k = div * channels` samples per
//! bucket, `complete_buckets(s, k, f)` is the concatenation of `f(bucket)` over
//! the complete buckets of `s` and `open_tail(s, k)` is what is left over.
use vstd::prelude::*;

verus! {

/// Summaries of the complete buckets of `k` samples at the front of `s`, in order.
pub open spec fn complete_buckets<T>(s: Seq<i16>, k: nat, f: spec_fn(Seq<i16>) -> Seq<T>) -> Seq<T>
    decreases s.len(),
{
    if k == 0 || s.len() < k {
        Seq::empty()
    } else {
        f(s.take(k as int)) + complete_buckets(s.skip(k as int), k, f)
    }
}

/// `ceil(t / d)`.
pub open spec fn ceil_div(t: nat, d: nat) -> nat {
    t / d + if t % d > 0 { 1nat } else { 0nat }
}

/// The samples of `s` after its last complete bucket of `k` samples.
pub open spec fn open_tail(s: Seq<i16>, k: nat) -> Seq<i16>
    decreases s.len(),
{
    if k == 0 || s.len() < k {
        s
    } else {
        open_tail(s.skip(k as int), k)
    }
}

/// A stream shorter than one bucket has no complete bucket and stays open.
pub proof fn lemma_short<T>(s: Seq<i16>, k: nat, f: spec_fn(Seq<i16>) -> Seq<T>)
    requires
        s.len() < k,
    ensures
        complete_buckets(s, k, f) == Seq::<T>::empty(),
        open_tail(s, k) == s,
{
}

/// A stream of exactly one bucket is that bucket, with nothing left open.
pub proof fn lemma_exact<T>(s: Seq<i16>, k: nat, f: spec_fn(Seq<i16>) -> Seq<T>)
    requires
        s.len() == k,
        k > 0,
    ensures
        complete_buckets(s, k, f) == f(s),
        open_tail(s, k) == Seq::<i16>::empty(),
{
    assert(s.take(k as int) == s);
    assert(s.skip(k as int) == Seq::<i16>::empty());
    lemma_short(s.skip(k as int), k, f);
    assert(f(s) + Seq::<T>::empty() == f(s));
}

/// Bucketing a concatenation: the buckets of `a` come first, then the
/// buckets of what `a` left open followed by `b`.
pub proof fn lemma_split<T>(a: Seq<i16>, b: Seq<i16>, k: nat, f: spec_fn(Seq<i16>) -> Seq<T>)
    ensures
        complete_buckets(a + b, k, f) == complete_buckets(a, k, f) + complete_buckets(
            open_tail(a, k) + b,
            k,
            f,
        ),
        open_tail(a + b, k) == open_tail(open_tail(a, k) + b, k),
    decreases a.len(),
{
    if k == 0 || a.len() < k {
        assert(Seq::<T>::empty() + complete_buckets(a + b, k, f) == complete_buckets(a + b, k, f));
    } else {
        let rest = a.skip(k as int);
        lemma_split(rest, b, k, f);
        assert((a + b).take(k as int) == a.take(k as int));
        assert((a + b).skip(k as int) == rest + b);
        assert(f(a.take(k as int)) + complete_buckets(rest, k, f) + complete_buckets(
            open_tail(rest, k) + b,
            k,
            f,
        ) == f(a.take(k as int)) + (complete_buckets(rest, k, f) + complete_buckets(
            open_tail(rest, k) + b,
            k,
            f,
        )));
    }
}

/// The open tail is always shorter than one bucket.
pub proof fn lemma_open_tail_short(s: Seq<i16>, k: nat)
    requires
        k > 0,
    ensures
        open_tail(s, k).len() < k,
    decreases s.len(),
{
    if s.len() >= k {
        lemma_open_tail_short(s.skip(k as int), k);
    }
}

/// Adding `m` samples to a stream whose open tail is `o` (with `o.len() + m <= k`)
/// either completes exactly one bucket or keeps everything open.
pub proof fn lemma_step<T>(x: Seq<i16>, add: Seq<i16>, k: nat, f: spec_fn(Seq<i16>) -> Seq<T>)
    requires
        k > 0,
        open_tail(x, k).len() + add.len() <= k,
    ensures
        open_tail(x, k).len() + add.len() == k ==> {
            &&& complete_buckets(x + add, k, f) == complete_buckets(x, k, f) + f(
                open_tail(x, k) + add,
            )
            &&& open_tail(x + add, k) == Seq::<i16>::empty()
        },
        open_tail(x, k).len() + add.len() < k ==> {
            &&& complete_buckets(x + add, k, f) == complete_buckets(x, k, f)
            &&& open_tail(x + add, k) == open_tail(x, k) + add
        },
{
    lemma_split(x, add, k, f);
    let o = open_tail(x, k) + add;
    if o.len() == k {
        lemma_exact(o, k, f);
    } else {
        lemma_short(o, k, f);
        assert(complete_buckets(x, k, f) + Seq::<T>::empty() == complete_buckets(x, k, f));
    }
}

/// When every bucket summary has `m` elements, a stream of `n` samples has
/// `n / k` complete buckets (`(n / k) * m` summary elements) and leaves
/// `n % k` samples open.
pub proof fn lemma_bucket_counts<T>(s: Seq<i16>, k: nat, f: spec_fn(Seq<i16>) -> Seq<T>, m: nat)
    requires
        k > 0,
        forall|b: Seq<i16>| b.len() == k ==> #[trigger] f(b).len() == m,
    ensures
        complete_buckets(s, k, f).len() == (s.len() / k) * m,
        open_tail(s, k).len() == s.len() % k,
    decreases s.len(),
{
    let n = s.len();
    if n < k {
        assert(n / k == 0 && n % k == n) by (nonlinear_arith)
            requires
                n < k,
        ;
    } else {
        lemma_bucket_counts(s.skip(k as int), k, f, m);
        assert(f(s.take(k as int)).len() == m);
        let (ni, ki) = (n as int, k as int);
        assert((ni - ki) / ki == ni / ki - 1 && (ni - ki) % ki == ni % ki) by (nonlinear_arith)
            requires
                ni >= ki,
                ki > 0,
        ;
        let q: int = (n / k) as int;
        let mi: int = m as int;
        assert((q - 1) * mi + mi == q * mi) by (nonlinear_arith);
    }
}

/// Counting in frames: a stream of `frames` whole frames of `ch` samples,
/// cut into buckets of `div` frames, has `frames / div` complete buckets and
/// an open tail exactly when `div` does not divide `frames`.
pub proof fn lemma_frame_bucket_counts<T>(
    stream: Seq<i16>,
    div: nat,
    ch: nat,
    f: spec_fn(Seq<i16>) -> Seq<T>,
    m: nat,
)
    requires
        div >= 1,
        ch >= 1,
        stream.len() % ch == 0,
        forall|b: Seq<i16>| b.len() == div * ch ==> #[trigger] f(b).len() == m,
    ensures
        complete_buckets(stream, div * ch, f).len() == (stream.len() / ch / div) * m,
        open_tail(stream, div * ch).len() == (stream.len() / ch % div) * ch,
        (open_tail(stream, div * ch).len() > 0) == (stream.len() / ch % div > 0),
{
    let k = div * ch;
    assert(k > 0) by (nonlinear_arith)
        requires
            k == div * ch,
            div >= 1,
            ch >= 1,
    ;
    lemma_bucket_counts(stream, k, f, m);
    let frames = stream.len() / ch;
    let (fi, di, ci) = (frames as int, div as int, ch as int);
    assert(stream.len() == fi * ci) by (nonlinear_arith)
        requires
            stream.len() % ch == 0,
            fi == stream.len() / ch,
            ci == ch,
            ch >= 1,
    ;
    assert((fi * ci) / (di * ci) == fi / di && (fi * ci) % (di * ci) == (fi % di) * ci) by (nonlinear_arith)
        requires
            fi >= 0,
            di >= 1,
            ci >= 1,
    {
        let q = fi / di;
        let r = fi % di;
        assert(fi == q * di + r && 0 <= r < di);
        assert(fi * ci == q * (di * ci) + r * ci);
        assert(0 <= r * ci < di * ci);
        vstd::arithmetic::div_mod::lemma_fundamental_div_mod_converse(fi * ci, di * ci, q, r * ci);
    }
    assert((fi % di > 0) == ((fi % di) * ci > 0)) by (nonlinear_arith)
        requires
            ci >= 1,
            fi % di >= 0,
    ;
    assert(k as int == di * ci);
}

/// Element `i` of the summary of bucket `j` sits at position `j * m + i`,
/// and bucket `j` is the samples `[j * k, (j + 1) * k)` of the stream.
pub proof fn lemma_bucket_index<T>(s: Seq<i16>, k: nat, f: spec_fn(Seq<i16>) -> Seq<T>, m: nat, j: int, i: int)
    requires
        k > 0,
        forall|b: Seq<i16>| b.len() == k ==> #[trigger] f(b).len() == m,
        0 <= j < s.len() / k,
        0 <= i < m,
    ensures
        complete_buckets(s, k, f)[j * m + i] == f(s.subrange(j * k, (j + 1) * k))[i],
    decreases s.len(),
{
    let n = s.len();
    let (ni, ki) = (n as int, k as int);
    assert(ni >= ki) by (nonlinear_arith)
        requires
            0 <= j < ni / ki,
            ki > 0,
    ;
    let rest = s.skip(k as int);
    assert(f(s.take(k as int)).len() == m);
    if j == 0 {
        assert(s.take(k as int) == s.subrange(0, k as int));
    } else {
        assert((ni - ki) / ki == ni / ki - 1) by (nonlinear_arith)
            requires
                ni >= ki,
                ki > 0,
        ;
        lemma_bucket_index(rest, k, f, m, j - 1, i);
        lemma_bucket_counts(rest, k, f, m);
        let (mi, qi) = (m as int, (ni - ki) / ki);
        assert((j - 1) * mi + i < qi * mi) by (nonlinear_arith)
            requires
                0 <= j - 1 < qi,
                0 <= i < mi,
        ;
        assert((j + 1) * ki <= ni) by (nonlinear_arith)
            requires
                0 <= j < ni / ki,
                ki > 0,
        ;
        assert(j * m + i - m == (j - 1) * m + i) by (nonlinear_arith);
        assert(j * m + i >= m) by (nonlinear_arith)
            requires
                j >= 1,
                i >= 0,
        ;
        assert((j - 1) * ki + ki == j * ki && j * ki + ki == (j + 1) * ki) by (nonlinear_arith);
        assert(rest.subrange((j - 1) * ki, j * ki) == s.subrange(j * ki, (j + 1) * ki));
    }
}

/// The open tail is what follows the complete buckets.
pub proof fn lemma_open_tail_skip(s: Seq<i16>, k: nat)
    requires
        k > 0,
    ensures
        open_tail(s, k) == s.skip(((s.len() / k) * k) as int),
    decreases s.len(),
{
    let n = s.len();
    let (ni, ki) = (n as int, k as int);
    if n < k {
        assert(ni / ki == 0) by (nonlinear_arith)
            requires
                0 <= ni < ki,
        ;
        assert(s.skip(0) == s);
    } else {
        lemma_open_tail_skip(s.skip(k as int), k);
        assert((ni - ki) / ki == ni / ki - 1) by (nonlinear_arith)
            requires
                ni >= ki,
                ki > 0,
        ;
        let q1 = ((ni - ki) / ki) * ki;
        assert(q1 + ki == (ni / ki) * ki) by (nonlinear_arith)
            requires
                q1 == ((ni - ki) / ki) * ki,
                (ni - ki) / ki == ni / ki - 1,
        ;
        assert(0 <= q1 <= ni - ki) by (nonlinear_arith)
            requires
                q1 == ((ni - ki) / ki) * ki,
                ni >= ki,
                ki > 0,
        ;
        assert(s.skip(k as int).skip(q1) =~= s.skip(q1 + ki));
    }
}

/// Multiplying a strict inequality of frame counts by a channel count.
pub proof fn lemma_mul_lt(a: nat, b: nat, ch: nat)
    requires
        a < b,
        ch > 0,
    ensures
        a * ch < b * ch,
        (a + 1) * ch <= b * ch,
        (a + 1) * ch == a * ch + ch,
{
    assert(a * ch < b * ch) by (nonlinear_arith)
        requires
            a < b,
            ch > 0,
    ;
    assert((a + 1) * ch <= b * ch) by (nonlinear_arith)
        requires
            a < b,
            ch > 0,
    ;
    assert((a + 1) * ch == a * ch + ch) by (nonlinear_arith);
}

} // verus!
