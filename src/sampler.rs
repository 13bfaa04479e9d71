use rand::seq::SliceRandom;
use vstd::arithmetic::div_mod::{lemma_fundamental_div_mod, lemma_fundamental_div_mod_converse};
use vstd::prelude::*;

verus! {

/// The pixels of a `w` by `h` image, row after row: the `k`-th is column `k % w`
/// of row `k / w`.
pub open spec fn row_major(w: nat, h: nat) -> Seq<(usize, usize)> {
    Seq::new(w * h, |k: int| ((k % (w as int)) as usize, (k / (w as int)) as usize))
}

/// `n / t` rounded up.
pub open spec fn ceil_div(n: nat, t: nat) -> nat {
    if n % t == 0 {
        n / t
    } else {
        n / t + 1
    }
}

/// The `k`-th run of `per` consecutive entries of `s`, cut short at its end.
pub open spec fn chunk<A>(s: Seq<A>, per: nat, k: int) -> Seq<A> {
    let lo = if k * per < s.len() { k * per } else { s.len() as int };
    let hi = if (k + 1) * per < s.len() { (k + 1) * per } else { s.len() as int };
    s.subrange(lo, hi)
}

/// The first `t` runs of `per` consecutive entries of `s`.
pub open spec fn chunks<A>(s: Seq<A>, per: nat, t: nat) -> Seq<Seq<A>> {
    Seq::new(t, |k: int| chunk(s, per, k))
}

/// What each bucket holds.
pub open spec fn views(b: Seq<Vec<(usize, usize)>>) -> Seq<Seq<(usize, usize)>> {
    b.map_values(|v: Vec<(usize, usize)>| v@)
}

/// Cutting a sequence into `t` runs of `per` entries loses nothing and repeats
/// nothing when the runs are long enough: put back together, they give the
/// sequence again.
pub proof fn lemma_chunks_flatten<A>(s: Seq<A>, per: nat, t: nat)
    requires
        per * t >= s.len(),
    ensures
        chunks(s, per, t).flatten() == s,
    decreases t,
{
    let n = s.len() as int;
    let c = chunks(s, per, t);
    if t == 0 {
        assert(s.len() == 0);
        assert(c.flatten() =~= s);
    } else {
        let m = if per <= n { per as int } else { n };
        let rest = s.subrange(m, n);
        assert(per * (t - 1) == per * t - per) by (nonlinear_arith);
        assert(per * ((t - 1) as nat) >= rest.len());
        lemma_chunks_flatten(rest, per, (t - 1) as nat);
        assert forall|k: int| 0 <= k < t - 1 implies #[trigger] c.drop_first()[k] == chunks(
            rest,
            per,
            (t - 1) as nat,
        )[k] by {
            assert((k + 1) * per == k * per + per) by (nonlinear_arith);
            assert((k + 2) * per == (k + 1) * per + per) by (nonlinear_arith);
            assert(k * per >= 0) by (nonlinear_arith)
                requires
                    k >= 0,
            ;
            assert(c.drop_first()[k] =~= chunk(rest, per, k));
        }
        assert(c.drop_first() =~= chunks(rest, per, (t - 1) as nat));
        assert(c[0] =~= s.subrange(0, m));
        assert(c.flatten() =~= s);
    }
}

/// Every pixel is dealt exactly once: a reordering of the pixels of a `w` by `h`
/// image (which `pixel_allocate` cuts into the workers' shares) repeats no pixel
/// and holds exactly the pixels inside the image.
pub proof fn lemma_dealt_once(w: nat, h: nat, order: Seq<(usize, usize)>)
    requires
        w * h <= usize::MAX,
        order.to_multiset() == row_major(w, h).to_multiset(),
    ensures
        order.no_duplicates(),
        forall|p: (usize, usize)| order.contains(p) <==> (p.0 < w && p.1 < h),
{
    let all = row_major(w, h);
    assert forall|i: int, j: int| 0 <= i < all.len() && 0 <= j < all.len() && i != j implies all[i]
        != all[j] by {
        lemma_row_major_entry(w, h, i);
        lemma_row_major_entry(w, h, j);
        lemma_fundamental_div_mod(i, w as int);
        lemma_fundamental_div_mod(j, w as int);
    }
    all.lemma_multiset_has_no_duplicates();
    order.lemma_multiset_has_no_duplicates_conv();
    assert forall|p: (usize, usize)| order.contains(p) <==> (p.0 < w && p.1 < h) by {
        vstd::seq_lib::to_multiset_contains(order, p);
        vstd::seq_lib::to_multiset_contains(all, p);
        if all.contains(p) {
            let k = choose|k: int| 0 <= k < all.len() && all[k] == p;
            lemma_row_major_entry(w, h, k);
        }
        if p.0 < w && p.1 < h {
            let k = p.1 * w + p.0;
            assert(k < w * h) by (nonlinear_arith)
                requires
                    k == p.1 * w + p.0,
                    p.0 < w,
                    p.1 < h,
            ;
            lemma_fundamental_div_mod_converse(k, w as int, p.1 as int, p.0 as int);
            assert(all[k] == p);
        }
    }
}

/// The `k`-th pixel of the row-major list lies inside the image, at column
/// `k % w` of row `k / w`.
proof fn lemma_row_major_entry(w: nat, h: nat, k: int)
    requires
        w * h <= usize::MAX,
        0 <= k < w * h,
    ensures
        w > 0,
        row_major(w, h)[k].0 == k % (w as int),
        row_major(w, h)[k].1 == k / (w as int),
        k % (w as int) < w,
        k / (w as int) < h,
{
    assert(w > 0) by (nonlinear_arith)
        requires
            0 <= k < w * h,
    ;
    lemma_fundamental_div_mod(k, w as int);
    assert(k / (w as int) < h) by (nonlinear_arith)
        requires
            k == w * (k / (w as int)) + k % (w as int),
            0 <= k % (w as int) < w,
            k < w * h,
            w > 0,
    ;
    assert(k / (w as int) >= 0) by (nonlinear_arith)
        requires
            k >= 0,
            w > 0,
    ;
}

/// Relies on `rand::seq::SliceRandom::shuffle` with the thread-local generator:
/// it reorders the entries in place by swapping them, so each entry is kept as
/// often as it was there.
#[verifier::external_body]
fn shuffle_pixels(v: &mut Vec<(usize, usize)>)
    ensures
        final(v)@.to_multiset() == old(v)@.to_multiset(),
{
    v.shuffle(&mut rand::thread_rng());
}

fn row_major_pixels(w: usize, h: usize) -> (v: Vec<(usize, usize)>)
    requires
        w * h <= usize::MAX,
    ensures
        v@ == row_major(w as nat, h as nat),
{
    let mut v: Vec<(usize, usize)> = Vec::new();
    assert(w * 0 == 0);
    for j in 0..h
        invariant
            w * h <= usize::MAX,
            v@ =~= row_major(w as nat, j as nat),
    {
        for i in 0..w
            invariant
                j < h,
                w * h <= usize::MAX,
                v@ =~= row_major(w as nat, j as nat) + Seq::new(
                    i as nat,
                    |x: int| (x as usize, j),
                ),
        {
            v.push((i, j));
        }
        proof {
            let next = row_major(w as nat, (j + 1) as nat);
            assert(w * (j + 1) == w * j + w) by (nonlinear_arith);
            assert forall|k: int| 0 <= k < w * (j + 1) implies #[trigger] next[k] == v@[k] by {
                if k < w * j {
                } else {
                    let x = k - w * j;
                    assert(k == j * w + x) by (nonlinear_arith)
                        requires
                            x == k - w * j,
                    ;
                    lemma_fundamental_div_mod_converse(k, w as int, j as int, x);
                }
            }
            assert(v@ =~= next);
        }
    }
    v
}

fn split_into_buckets(pixels: &Vec<(usize, usize)>, per: usize, t: usize) -> (b: Vec<
    Vec<(usize, usize)>,
>)
    ensures
        views(b@) == chunks(pixels@, per as nat, t as nat),
{
    let n = pixels.len();
    let mut b: Vec<Vec<(usize, usize)>> = Vec::new();
    let mut start: usize = 0;
    assert(0 * per == 0);
    for k in 0..t
        invariant
            n == pixels.len(),
            b.len() == k,
            start == (if k * per < n { k * per } else { n as int }),
            forall|q: int| 0 <= q < k ==> #[trigger] views(b@)[q] == chunk(pixels@, per as nat, q),
    {
        let end = if n - start > per {
            start + per
        } else {
            n
        };
        assert((k + 1) * per == k * per + per) by (nonlinear_arith);
        assert(k * per >= 0) by (nonlinear_arith);
        let mut bucket: Vec<(usize, usize)> = Vec::new();
        let mut q: usize = start;
        while q < end
            invariant
                n == pixels.len(),
                start <= q <= end <= n,
                bucket@ =~= pixels@.subrange(start as int, q as int),
            decreases end - q,
        {
            bucket.push(pixels[q]);
            q = q + 1;
        }
        assert(bucket@ == chunk(pixels@, per as nat, k as int));
        let ghost before = b@;
        b.push(bucket);
        start = end;
        assert forall|q: int| 0 <= q <= k implies #[trigger] views(b@)[q] == chunk(
            pixels@,
            per as nat,
            q,
        ) by {
            if q < k {
                assert(b@[q] == before[q]);
                assert(views(before)[q] == chunk(pixels@, per as nat, q));
            } else {
                assert(b@[q] == bucket);
            }
        }
    }
    assert(views(b@) =~= chunks(pixels@, per as nat, t as nat));
    b
}

/// Deals the pixels of a `w` by `h` image out to `threads_num` workers: the
/// first worker gets the first `ceil(w * h / threads_num)` pixels of the list,
/// the next worker the next as many, and so on. The list is the image row after
/// row, or, when `shuffle` is set, a random reordering of it, so that each
/// worker's share costs about the same. Also returns the share size.
pub fn pixel_allocate(w: usize, h: usize, threads_num: usize, shuffle: bool) -> (r: (
    Vec<Vec<(usize, usize)>>,
    u64,
))
    requires
        threads_num > 0,
        w * h <= usize::MAX,
    ensures
        r.1 == ceil_div((w * h) as nat, threads_num as nat),
        r.0.len() == threads_num,
        views(r.0@).flatten().to_multiset() == row_major(w as nat, h as nat).to_multiset(),
        !shuffle ==> views(r.0@).flatten() == row_major(w as nat, h as nat),
        views(r.0@) == chunks(views(r.0@).flatten(), r.1 as nat, threads_num as nat),
{
    let n: usize = w * h;
    let t = threads_num;
    proof {
        lemma_fundamental_div_mod(n as int, t as int);
        assert(n / t <= n) by (nonlinear_arith)
            requires
                t > 0,
        ;
    }
    let mut per: usize = n / t;
    if n % t > 0 {
        assert(n / t < n) by (nonlinear_arith)
            requires
                t > 0,
                n % t > 0,
                n == t * (n / t) + n % t,
        ;
        per = per + 1;
    }
    proof {
        assert(per * t >= n) by (nonlinear_arith)
            requires
                n == t * (n / t) + n % t,
                n % t < t,
                n % t == 0 ==> per == n / t,
                n % t > 0 ==> per == n / t + 1,
        ;
    }
    let mut all_pixels = row_major_pixels(w, h);
    let ghost in_order = all_pixels@;
    if shuffle {
        shuffle_pixels(&mut all_pixels);
    }
    proof {
        vstd::seq_lib::to_multiset_len(all_pixels@);
        vstd::seq_lib::to_multiset_len(in_order);
        lemma_chunks_flatten(all_pixels@, per as nat, t as nat);
    }
    let buckets = split_into_buckets(&all_pixels, per, t);
    (buckets, per as u64)
}

} // verus!
