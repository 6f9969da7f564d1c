use vstd::prelude::*;

verus! {

/// Something that can absorb one more item of a combination.
pub trait Combine {
    type Item;

    /// Absorbs one item into this partial combination.
    fn combine(&mut self, item: Self::Item);
}

/// Builders of all combinations that pick one alternative from each list.
pub struct Combinations<T> {
    marker: core::marker::PhantomData<T>,
}

/// The number of combinations over the alternative lists: the product of
/// their lengths, an empty list counting as one neutral choice.
pub open spec fn combo_count<T>(items: Seq<Seq<T>>) -> nat
    decreases items.len(),
{
    if items.len() == 0 {
        1
    } else {
        combo_count(items.skip(1)) * (if items[0].len() == 0 {
            1nat
        } else {
            items[0].len()
        })
    }
}

/// The element views of a vector of vectors.
pub open spec fn views<T>(items: Seq<Vec<T>>) -> Seq<Seq<T>> {
    items.map_values(|v: Vec<T>| v@)
}

/// Whether `x` is one admissible outcome of a single combination step
/// from `data` over the alternatives `alts`.
pub open spec fn combo_step_ok<T, U, F: Fn(&U, &T) -> U>(f: F, data: U, alts: Seq<T>, x: U) -> bool {
    if alts.len() == 0 {
        x == data
    } else {
        exists|i: int| 0 <= i < alts.len() && #[trigger] call_ensures(f, (&data, &alts[i]), x)
    }
}

/// Whether `out` can be built from `data` by folding `f` over one chosen
/// alternative from each list, lists without alternatives skipped.
pub open spec fn combo_rel<T, U, F: Fn(&U, &T) -> U>(
    f: F,
    data: U,
    items: Seq<Seq<T>>,
    out: U,
) -> bool
    decreases items.len(),
{
    if items.len() == 0 {
        out == data
    } else if items[0].len() == 0 {
        combo_rel(f, data, items.skip(1), out)
    } else {
        exists|i: int, mid: U|
            0 <= i < items[0].len() && #[trigger] call_ensures(f, (&data, &items[0][i]), mid)
                && combo_rel(f, mid, items.skip(1), out)
    }
}

impl<T> Combinations<T> {
    /// The number of combinations the alternative lists admit.
    pub fn count(items: &Vec<Vec<T>>) -> (r: usize)
        requires
            combo_count(views(items@)) <= usize::MAX,
        ensures
            r == combo_count(views(items@)),
    {
        let n = items.len();
        let mut r: usize = 1;
        let mut i: usize = n;
        while i > 0
            invariant
                i <= n,
                n == items@.len(),
                combo_count(views(items@)) <= usize::MAX,
                r == combo_count(views(items@).skip(i as int)),
                r >= 1,
            decreases i,
        {
            proof {
                lemma_combo_count_step(views(items@), i - 1);
                lemma_combo_count_prefix(views(items@), i - 1);
                lemma_combo_count_positive(views(items@).skip(i - 1));
                assert(views(items@)[i - 1] == items@[i - 1]@);
            }
            i = i - 1;
            let l = items[i].len();
            if l > 0 {
                proof {
                    assert(combo_count(views(items@).skip(i as int)) == r * l);
                }
                r = r * l;
            }
        }
        proof {
            assert(views(items@).skip(0) =~= views(items@));
        }
        r
    }

    /// Builds every combination: one alternative is chosen from each list
    /// in turn and folded onto the data, a list without alternatives
    /// leaving the data as it stands.
    pub fn combine_all<U, F: Fn(&U, &T) -> U + Copy>(data: U, items: &Vec<Vec<T>>, f: F) -> (r:
        Vec<U>)
        requires
            forall|u: U, t: T| #[trigger] f.requires((&u, &t)),
            combo_count(views(items@)) <= usize::MAX,
        ensures
            r@.len() == combo_count(views(items@)),
            forall|j: int| 0 <= j < r@.len() ==> combo_rel(f, data, views(items@), #[trigger] r@[j]),
    {
        proof {
            assert(views(items@).skip(0) =~= views(items@));
        }
        Self::combine_all_from(data, items, 0, f)
    }

    /// Builds every combination over the lists from `idx` on.
    fn combine_all_from<U, F: Fn(&U, &T) -> U + Copy>(data: U, items: &Vec<Vec<T>>, idx: usize, f: F)
        -> (r: Vec<U>)
        requires
            idx <= items@.len(),
            forall|u: U, t: T| #[trigger] f.requires((&u, &t)),
            combo_count(views(items@).skip(idx as int)) <= usize::MAX,
        ensures
            r@.len() == combo_count(views(items@).skip(idx as int)),
            forall|j: int|
                0 <= j < r@.len() ==> combo_rel(f, data, views(items@).skip(idx as int),
                    #[trigger] r@[j]),
        decreases items@.len() - idx,
    {
        let ghost tail = views(items@).skip(idx as int);
        let total = items.len();
        if idx == total {
            let mut r: Vec<U> = Vec::new();
            r.push(data);
            proof {
                assert(tail.len() == 0);
            }
            return r;
        }
        proof {
            lemma_combo_count_step(views(items@), idx as int);
            lemma_combo_count_bound(views(items@), idx as int);
            lemma_combo_count_positive(views(items@).skip(idx + 1));
        }
        let ghost c1 = combo_count(views(items@).skip(idx + 1)) as int;
        let ghost gdata = data;
        let mut list = Self::combine(data, &items[idx], f);
        let ghost glist = list@;
        let ghost w = glist.len() as int;
        let ghost alts = items@[idx as int]@;
        proof {
            assert(views(items@)[idx as int] == items@[idx as int]@);
            assert(tail[0] == alts);
            if alts.len() == 0 {
                assert(glist =~= seq![gdata]);
            }
            assert(w == (if tail[0].len() == 0 {
                1int
            } else {
                tail[0].len() as int
            }));
            assert(combo_count(tail) == c1 * w);
            assert((w - w) * c1 == 0) by (nonlinear_arith);
            assert forall|j: int| 0 <= j < glist.len() implies combo_step_ok(
                f,
                gdata,
                alts,
                #[trigger] glist[j],
            ) by {
                if alts.len() == 0 {
                    assert(glist[j] == gdata);
                } else {
                    assert(call_ensures(f, (&gdata, &alts[j]), glist[j]));
                }
            }
        }
        let mut r: Vec<U> = Vec::new();
        while list.len() > 0
            invariant
                idx < items@.len(),
                total == items@.len(),
                forall|u: U, t: T| #[trigger] f.requires((&u, &t)),
                combo_count(views(items@).skip(idx + 1)) == c1,
                combo_count(tail) == c1 * w && combo_count(tail) <= usize::MAX,
                tail == views(items@).skip(idx as int),
                alts == items@[idx as int]@ && tail[0] == alts,
                c1 >= 1,
                w == glist.len(),
                list@.len() <= w,
                list@ == glist.take(list@.len() as int),
                r@.len() == (w - list@.len()) * c1,
                forall|j: int|
                    0 <= j < glist.len() ==> combo_step_ok(f, gdata, alts, #[trigger] glist[j]),
                forall|j: int| 0 <= j < r@.len() ==> combo_rel(f, gdata, tail, #[trigger] r@[j]),
            decreases list@.len(),
        {
            let ghost pre_list = list@;
            let n = match list.pop() {
                Some(n) => n,
                None => {
                    proof {
                        assert(false);
                    }
                    return r;
                },
            };
            proof {
                assert(pre_list.len() >= 1);
                assert(n == pre_list[pre_list.len() - 1]);
                assert(pre_list[pre_list.len() - 1] == glist[pre_list.len() - 1]);
                assert(list@ =~= glist.take(list@.len() as int));
                lemma_block_fits(w - pre_list.len(), c1, w);
                assert(r@.len() == (w - pre_list.len()) * c1);
            }
            let mut sub = Self::combine_all_from(n, items, idx + 1, f);
            let ghost gsub = sub@;
            let ghost rpre = r@;
            r.append(&mut sub);
            proof {
                assert(r@ == rpre + gsub);
                assert(r@.len() == (w - pre_list.len()) * c1 + c1);
                assert((w - pre_list.len()) * c1 + c1 == (w - list@.len()) * c1)
                    by (nonlinear_arith)
                    requires
                        list@.len() == pre_list.len() - 1,
                ;
                assert forall|j: int| 0 <= j < r@.len() implies combo_rel(
                    f,
                    gdata,
                    tail,
                    #[trigger] r@[j],
                ) by {
                    if j < rpre.len() {
                        assert(r@[j] == rpre[j]);
                    } else {
                        let out = r@[j];
                        assert(out == gsub[j - rpre.len()]);
                        assert(combo_rel(f, n, views(items@).skip(idx + 1), out));
                        assert(tail.skip(1) =~= views(items@).skip(idx + 1));
                        assert(glist[pre_list.len() - 1] == n);
                        assert(combo_step_ok(f, gdata, alts, n));
                        if alts.len() == 0 {
                            assert(n == gdata);
                            assert(combo_rel(f, gdata, tail, out));
                        } else {
                            let i = choose|i: int|
                                0 <= i < alts.len() && #[trigger] call_ensures(
                                    f,
                                    (&gdata, &alts[i]),
                                    n,
                                );
                            assert(call_ensures(f, (&gdata, &tail[0][i]), n));
                            assert(combo_rel(f, gdata, tail, out));
                        }
                    }
                }
            }
        }
        proof {
            assert(r@.len() == (w - 0) * c1);
            assert(w * c1 == c1 * w) by (nonlinear_arith);
            assert(r@.len() == combo_count(tail));
        }
        r
    }

    /// One combination step: each alternative applied to a copy of the
    /// data; with no alternatives, the data alone survives.
    pub fn combine<U, F: Fn(&U, &T) -> U>(data: U, alts: &Vec<T>, f: F) -> (r: Vec<U>)
        requires
            forall|u: U, t: T| #[trigger] f.requires((&u, &t)),
        ensures
            alts@.len() == 0 ==> r@ =~= seq![data],
            alts@.len() > 0 ==> r@.len() == alts@.len() && forall|i: int|
                0 <= i < r@.len() ==> #[trigger] call_ensures(f, (&data, &alts@[i]), r@[i]),
    {
        let mut r: Vec<U> = Vec::new();
        let n = alts.len();
        if n == 0 {
            r.push(data);
            return r;
        }
        let mut i: usize = 0;
        while i < n
            invariant
                i <= n,
                n == alts@.len(),
                r@.len() == i,
                forall|u: U, t: T| #[trigger] f.requires((&u, &t)),
                forall|j: int| 0 <= j < i ==> #[trigger] call_ensures(f, (&data, &alts@[j]), r@[j]),
            decreases n - i,
        {
            let v = f(&data, &alts[i]);
            r.push(v);
            i = i + 1;
        }
        r
    }

    /// Applies one further item to every variant in place.
    pub fn combine_once<U, F: Fn(&U, &T) -> U>(variants: &mut Vec<U>, val: &T, f: F)
        requires
            forall|u: U, t: T| #[trigger] f.requires((&u, &t)),
        ensures
            final(variants)@.len() == old(variants)@.len(),
            forall|j: int|
                0 <= j < old(variants)@.len() ==> #[trigger] call_ensures(
                    f,
                    (&old(variants)@[j], val),
                    final(variants)@[j],
                ),
    {
        let ghost pre = variants@;
        let n = variants.len();
        let mut i: usize = 0;
        while i < n
            invariant
                i <= n,
                n == pre.len(),
                variants@.len() == n,
                forall|u: U, t: T| #[trigger] f.requires((&u, &t)),
                forall|j: int| i <= j < n ==> variants@[j] == pre[j],
                forall|j: int|
                    0 <= j < i ==> #[trigger] call_ensures(f, (&pre[j], val), variants@[j]),
            decreases n - i,
        {
            let v = f(&variants[i], val);
            variants[i] = v;
            i = i + 1;
        }
    }

    /// Extends the variants with every alternative: each variant is kept
    /// once per alternative, the first alternative applied in place and
    /// each further one applied to a pushed copy.
    pub fn combine_inplace<U, F: Fn(&U, &T) -> U>(variants: &mut Vec<U>, alts: &Vec<T>, f: F)
        requires
            forall|u: U, t: T| #[trigger] f.requires((&u, &t)),
            old(variants)@.len() * alts@.len() <= usize::MAX,
        ensures
            alts@.len() == 0 ==> final(variants)@ == old(variants)@,
            alts@.len() > 0 ==> final(variants)@.len() == old(variants)@.len() * alts@.len() && (
            forall|k: int, j: int|
                0 <= k < alts@.len() && 0 <= j < old(variants)@.len() ==> #[trigger] call_ensures(
                    f,
                    (&old(variants)@[j], &alts@[k]),
                    final(variants)@[k * old(variants)@.len() + j],
                )),
    {
        let ghost pre = variants@;
        let n = alts.len();
        if n == 0 {
            return;
        }
        let l = variants.len();
        let mut k: usize = 1;
        while k < n
            invariant
                1 <= k <= n,
                n == alts@.len(),
                l == pre.len(),
                l * n <= usize::MAX,
                variants@.len() == k * l,
                forall|u: U, t: T| #[trigger] f.requires((&u, &t)),
                forall|j: int| 0 <= j < l ==> variants@[j] == pre[j],
                forall|k0: int, j: int|
                    1 <= k0 < k && 0 <= j < l ==> #[trigger] call_ensures(
                        f,
                        (&pre[j], &alts@[k0]),
                        variants@[k0 * l + j],
                    ),
            decreases n - k,
        {
            proof {
                lemma_mul_bounds(k as int, l as int, n as int);
                assert(n * l <= usize::MAX) by (nonlinear_arith)
                    requires
                        l * n <= usize::MAX,
                        l >= 0,
                        n >= 0,
                ;
            }
            let mut j: usize = 0;
            while j < l
                invariant
                    j <= l,
                    1 <= k < n,
                    n == alts@.len(),
                    l == pre.len(),
                    (k + 1) * l <= usize::MAX,
                    variants@.len() == k * l + j,
                    forall|u: U, t: T| #[trigger] f.requires((&u, &t)),
                    forall|j0: int| 0 <= j0 < l ==> variants@[j0] == pre[j0],
                    forall|k0: int, j0: int|
                        1 <= k0 < k && 0 <= j0 < l ==> #[trigger] call_ensures(
                            f,
                            (&pre[j0], &alts@[k0]),
                            variants@[k0 * l + j0],
                        ),
                    forall|j0: int|
                        0 <= j0 < j ==> #[trigger] call_ensures(
                            f,
                            (&pre[j0], &alts@[k as int]),
                            variants@[k as int * l + j0],
                        ),
                decreases l - j,
            {
                proof {
                    assert(j < variants@.len() && k as int * l + j == variants@.len())
                        by (nonlinear_arith)
                        requires
                            variants@.len() == k as int * l + j,
                            1 <= k,
                            0 <= j < l,
                    ;
                }
                let v = f(&variants[j], &alts[k]);
                variants.push(v);
                j = j + 1;
                proof {
                    assert(l as int <= k as int * l) by (nonlinear_arith)
                        requires
                            1 <= k,
                            0 <= l,
                    ;
                    assert forall|k0: int, j0: int|
                        1 <= k0 < k && 0 <= j0 < l implies #[trigger] call_ensures(
                        f,
                        (&pre[j0], &alts@[k0]),
                        variants@[k0 * l + j0],
                    ) by {
                        lemma_mul_bounds(k0, l as int, k as int);
                    }
                }
            }
            k = k + 1;
            proof {
                assert(k * l == (k - 1) * l + l) by (nonlinear_arith);
                assert forall|k0: int, j0: int|
                    1 <= k0 < k && 0 <= j0 < l implies #[trigger] call_ensures(
                    f,
                    (&pre[j0], &alts@[k0]),
                    variants@[k0 * l + j0],
                ) by {
                    lemma_mul_bounds(k0, l as int, k as int);
                }
            }
        }
        let ghost mid = variants@;
        let mut j: usize = 0;
        while j < l
            invariant
                j <= l,
                1 <= n,
                n == alts@.len(),
                l == pre.len(),
                variants@.len() == n * l,
                mid.len() == n * l,
                forall|u: U, t: T| #[trigger] f.requires((&u, &t)),
                forall|j0: int| j <= j0 < mid.len() ==> variants@[j0] == mid[j0],
                forall|j0: int| 0 <= j0 < l ==> mid[j0] == pre[j0],
                forall|k0: int, j0: int|
                    1 <= k0 < n && 0 <= j0 < l ==> #[trigger] call_ensures(
                        f,
                        (&pre[j0], &alts@[k0]),
                        mid[k0 * l + j0],
                    ),
                forall|j0: int|
                    0 <= j0 < j ==> #[trigger] call_ensures(
                        f,
                        (&pre[j0], &alts@[0]),
                        variants@[j0],
                    ),
            decreases l - j,
        {
            proof {
                assert(j < variants@.len()) by (nonlinear_arith)
                    requires
                        variants@.len() == n as int * l,
                        1 <= n,
                        0 <= j < l,
                ;
            }
            let v = f(&variants[j], &alts[0]);
            variants[j] = v;
            j = j + 1;
        }
        proof {
            assert forall|k0: int, j0: int|
                0 <= k0 < n && 0 <= j0 < l implies #[trigger] call_ensures(
                f,
                (&pre[j0], &alts@[k0]),
                variants@[k0 * l + j0],
            ) by {
                if k0 >= 1 {
                    lemma_mul_bounds(k0, l as int, n as int);
                    assert(l as int <= k0 * l) by (nonlinear_arith)
                        requires
                            1 <= k0,
                            0 <= l,
                    ;
                    assert(variants@[k0 * l + j0] == mid[k0 * l + j0]);
                }
            }
            assert(variants@.len() == pre.len() * alts@.len()) by (nonlinear_arith)
                requires
                    variants@.len() == n * l,
                    n == alts@.len(),
                    l == pre.len(),
            ;
        }
    }
}

proof fn lemma_block_fits(done: int, c: int, w: int)
    requires
        0 <= done < w,
        c >= 1,
        w * c <= usize::MAX,
    ensures
        done * c + c <= usize::MAX,
        done * c >= 0,
{
    assert(done * c + c <= w * c && done * c >= 0) by (nonlinear_arith)
        requires
            0 <= done < w,
            c >= 1,
    ;
}

/// Bounds used when walking block `k` of `l` variants each.
proof fn lemma_mul_bounds(k: int, l: int, n: int)
    requires
        0 <= k < n,
        0 <= l,
    ensures
        k * l + l <= n * l,
        k * l >= 0,
        (k + 1) * l == k * l + l,
    decreases n,
{
    assert(k * l + l <= n * l && k * l >= 0 && (k + 1) * l == k * l + l) by (nonlinear_arith)
        requires
            0 <= k < n,
            0 <= l,
    ;
}

proof fn lemma_combo_count_step<T>(items: Seq<Seq<T>>, i: int)
    requires
        0 <= i < items.len(),
    ensures
        combo_count(items.skip(i)) == combo_count(items.skip(i + 1)) * (if items[i].len() == 0 {
            1nat
        } else {
            items[i].len()
        }),
{
    assert(items.skip(i).len() > 0);
    assert(items.skip(i)[0] == items[i]);
    assert(items.skip(i).skip(1) =~= items.skip(i + 1));
}

proof fn lemma_combo_count_bound<T>(items: Seq<Seq<T>>, i: int)
    requires
        0 <= i < items.len(),
    ensures
        combo_count(items.skip(i + 1)) <= combo_count(items.skip(i)),
        combo_count(items.skip(i + 1)) >= 1,
    decreases items.len() - i,
{
    lemma_combo_count_step(items, i);
    lemma_combo_count_positive(items.skip(i + 1));
    let c = combo_count(items.skip(i + 1));
    let w: nat = if items[i].len() == 0 {
        1nat
    } else {
        items[i].len()
    };
    assert(c * w >= c) by (nonlinear_arith)
        requires
            w >= 1,
            c >= 0,
    ;
}

proof fn lemma_combo_count_prefix<T>(items: Seq<Seq<T>>, j: int)
    requires
        0 <= j < items.len(),
    ensures
        combo_count(items.skip(j)) <= combo_count(items),
    decreases j,
{
    lemma_combo_count_bound(items, j);
    if j > 0 {
        lemma_combo_count_bound(items, j - 1);
        lemma_combo_count_prefix(items, j - 1);
    } else {
        assert(items.skip(0) =~= items);
    }
}

proof fn lemma_combo_count_positive<T>(items: Seq<Seq<T>>)
    ensures
        combo_count(items) >= 1,
    decreases items.len(),
{
    if items.len() > 0 {
        lemma_combo_count_positive(items.skip(1));
        let c = combo_count(items.skip(1));
        let w: nat = if items[0].len() == 0 {
            1nat
        } else {
            items[0].len()
        };
        assert(c * w >= 1) by (nonlinear_arith)
            requires
                w >= 1,
                c >= 1,
        ;
    }
}

} // verus!
